//! What holds of things listed: gates, ids, and the words made of them.

use crate::boundaries::{entries_of, entries_of_lane, exits_of, EntryReach};
use crate::connectivity::{lane_named, GraphView};
use crate::decimal::{decimal, digit, digits};
use crate::detector::LanePosition;
use crate::double::{is_less, Double};
use crate::order::{char_order, number_rank, text_rank, Rank};
use crate::overlaps::{overlapping_ids, Pair};
use vstd::prelude::*;

verus! {

/// The gates of a group are those of its lanes, lane by lane: those of two lists
/// of lanes are those of the first and after them those of the second.
pub proof fn gates_are_listed_lane_by_lane(
    g: GraphView,
    a: Seq<Seq<char>>,
    b: Seq<Seq<char>>,
    reach: EntryReach,
)
    ensures
        entries_of(g, a + b, reach) == entries_of(g, a, reach) + entries_of(g, b, reach),
        exits_of(g, a + b) == exits_of(g, a) + exits_of(g, b),
        b.len() == 1 && lane_named(g.lanes, b[0]) is None ==> entries_of(g, b, reach).len() == 0
            && exits_of(g, b).len() == 0,
        b.len() == 1 && lane_named(g.lanes, b[0]) is Some ==> entries_of(g, b, reach).len() > 0
            && entries_of(g, b, reach)[0].lane == b[0] && exits_of(g, b).len() == 1 && exits_of(
            g,
            b,
        )[0].lane == b[0] && exits_of(g, b)[0].position == LanePosition::FromStart(
            (lane_named(g.lanes, b[0])->0).length,
        ),
        b.len() == 1 && !reach.extend_backward ==> entries_of(g, b, reach).len() == exits_of(
            g,
            b,
        ).len(),
    decreases b.len(),
{
    reveal_with_fuel(entries_of, 2);
    reveal_with_fuel(exits_of, 2);
    if b.len() == 0 {
        assert(a + b =~= a);
        assert(entries_of(g, a, reach) + Seq::empty() =~= entries_of(g, a, reach));
        assert(exits_of(g, a) + Seq::empty() =~= exits_of(g, a));
    } else {
        let rest = b.drop_last();
        gates_are_listed_lane_by_lane(g, a, rest, reach);
        assert((a + b).drop_last() =~= a + rest);
        assert((a + b).last() == b.last());
        if let Some(l) = lane_named(g.lanes, b.last()) {
            let here = entries_of_lane(g, b.last(), l.length, reach);
            assert((entries_of(g, a, reach) + entries_of(g, rest, reach)) + here =~= entries_of(
                g,
                a,
                reach,
            ) + (entries_of(g, rest, reach) + here));
            assert(exits_of(g, a + b) =~= exits_of(g, a) + exits_of(g, b));
        }
        if b.len() == 1 {
            assert(rest =~= Seq::empty());
        }
    }
}

/// Whether one text comes before another: it is the beginning of the other, or
/// at the first place where they differ its character is the lower.
pub open spec fn is_earlier(a: Seq<char>, b: Seq<char>, i: int) -> bool {
    &&& 0 <= i <= a.len()
    &&& i < b.len()
    &&& forall|k: int| 0 <= k < i ==> a[k] == b[k]
    &&& i < a.len() ==> (a[i] as int) < (b[i] as int)
}

/// Texts stand in the order of the first characters in which they differ.
pub proof fn texts_stand_by_the_first_difference(a: Seq<char>, b: Seq<char>)
    ensures
        text_rank(a, b) == Rank::Before <==> exists|i: int| is_earlier(a, b, i),
        text_rank(a, b) == Rank::Same <==> a == b,
    decreases a.len(),
{
    if a.len() == 0 {
        if b.len() == 0 {
            assert(a =~= b);
        } else {
            assert(is_earlier(a, b, 0));
        }
    } else if b.len() > 0 {
        let x = a.drop_first();
        let y = b.drop_first();
        texts_stand_by_the_first_difference(x, y);
        let rank = char_order();
        assert(rank(a[0], b[0]) == number_rank(a[0] as int, b[0] as int));
        if a[0] == b[0] {
            if exists|i: int| is_earlier(x, y, i) {
                let i = choose|i: int| is_earlier(x, y, i);
                assert forall|k: int| 0 <= k < i + 1 implies a[k] == b[k] by {
                    if k > 0 {
                        assert(x[k - 1] == y[k - 1]);
                    }
                }
                if i < x.len() {
                    assert(a[i + 1] == x[i] && b[i + 1] == y[i]);
                }
                assert(is_earlier(a, b, i + 1));
            }
            if exists|i: int| is_earlier(a, b, i) {
                let i = choose|i: int| is_earlier(a, b, i);
                assert(i > 0);
                assert forall|k: int| 0 <= k < i - 1 implies x[k] == y[k] by {
                    assert(a[k + 1] == b[k + 1]);
                }
                assert(is_earlier(x, y, i - 1));
            }
            if x == y {
                assert forall|k: int| 0 <= k < a.len() implies a[k] == b[k] by {
                    if k > 0 {
                        assert(x[k - 1] == y[k - 1]);
                    }
                }
                assert(a =~= b);
            }
        } else {
            if exists|i: int| is_earlier(a, b, i) {
                let i = choose|i: int| is_earlier(a, b, i);
                assert(i == 0);
            }
            if (a[0] as int) < (b[0] as int) {
                assert(is_earlier(a, b, 0));
            }
        }
    }
}

/// What a text of decimal digits counts.
pub open spec fn number_told(text: Seq<char>) -> int
    decreases text.len(),
{
    if text.len() == 0 {
        0
    } else {
        number_told(text.drop_last()) * 10 + (text.last() as int - '0' as int)
    }
}

/// Whether a text is made of decimal digits.
pub open spec fn is_number(text: Seq<char>) -> bool {
    text.len() > 0 && forall|i: int| 0 <= i < text.len() ==> '0' <= #[trigger] text[i] <= '9'
}

proof fn lemma_digit(d: nat)
    requires
        d < 10,
    ensures
        digit(d).len() == 1,
        digit(d)[0] as int == '0' as int + d,
{
    reveal_strlit("0");
    reveal_strlit("1");
    reveal_strlit("2");
    reveal_strlit("3");
    reveal_strlit("4");
    reveal_strlit("5");
    reveal_strlit("6");
    reveal_strlit("7");
    reveal_strlit("8");
    reveal_strlit("9");
}

/// A natural number is written in decimal digits that count it, the first of
/// which is not a nought unless it stands alone.
pub proof fn digits_tell_the_number(n: nat)
    ensures
        is_number(digits(n)),
        number_told(digits(n)) == n,
        digits(n).len() > 1 ==> digits(n)[0] != '0',
    decreases n,
{
    if n < 10 {
        lemma_digit(n);
        let text = digits(n);
        assert(text.drop_last() =~= Seq::empty());
        assert(number_told(text.drop_last()) == 0);
    } else {
        digits_tell_the_number(n / 10);
        lemma_digit(n % 10);
        let before = digits(n / 10);
        let text = digits(n);
        let last = digit(n % 10);
        assert(text == before + last);
        assert(text.drop_last() =~= before);
        assert(text.last() == last[0]);
        assert(text[0] == before[0]);
        assert forall|i: int| 0 <= i < text.len() implies '0' <= #[trigger] text[i] <= '9' by {
            if i < before.len() {
                assert(text[i] == before[i]);
            } else {
                assert(text[i] == last[0]);
            }
        }
        if before.len() == 1 {
            assert(before.drop_last() =~= Seq::empty());
            assert(number_told(before.drop_last()) == 0);
            assert(before.last() == before[0]);
        }
        assert(n == (n / 10) * 10 + n % 10);
    }
}

/// A whole number is written with a minus sign before it where it is negative.
pub proof fn whole_numbers_are_written_in_digits(n: int)
    ensures
        n >= 0 ==> decimal(n) == digits(n as nat),
        n < 0 ==> decimal(n) == seq!['-'] + digits((-n) as nat),
{
    reveal_strlit("-");
    assert("-"@ =~= seq!['-']);
}

/// The ids of two zones are told together exactly where both have an id and
/// share more than the threshold: with each pair's area beside it, in order.
pub proof fn ids_are_told_where_zones_share_enough(
    ids: Seq<Option<String>>,
    pairs: Seq<Pair>,
    areas: Seq<Double>,
    threshold: Double,
    pair: Pair,
)
    requires
        pairs.len() < areas.len(),
    ensures
        ({
            let before = overlapping_ids(ids, pairs, areas, threshold);
            let all = overlapping_ids(ids, pairs.push(pair), areas, threshold);
            if is_less(threshold, areas[pairs.len() as int]) && ids[pair.0 as int] is Some
                && ids[pair.1 as int] is Some {
                all == before.push(((ids[pair.0 as int]->0)@, (ids[pair.1 as int]->0)@))
            } else {
                all == before
            }
        }),
        overlapping_ids(ids, Seq::empty(), areas, threshold).len() == 0,
{
    assert(pairs.push(pair).drop_last() =~= pairs);
}

} // verus!
