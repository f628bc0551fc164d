//! What holds of the lanes and links that a network is read as.

use crate::connectivity::{
    distinct, last_where, links_from, links_into, GraphView, LinkView,
};
use vstd::prelude::*;

verus! {

/// A filtered list holds what the list holds that is wanted.
pub proof fn lemma_filter_holds<T>(items: Seq<T>, wanted: spec_fn(T) -> bool, x: T)
    ensures
        items.filter(wanted).contains(x) <==> items.contains(x) && wanted(x),
    decreases items.len(),
{
    reveal(Seq::filter);
    if items.len() > 0 {
        let rest = items.drop_last();
        let kept = rest.filter(wanted);
        let all = items.filter(wanted);
        lemma_filter_holds(rest, wanted, x);
        if kept.contains(x) {
            let k = choose|k: int| 0 <= k < kept.len() && kept[k] == x;
            assert(all[k] == x);
            let i = choose|i: int| 0 <= i < rest.len() && rest[i] == x;
            assert(items[i] == x);
        }
        if items.contains(x) && wanted(x) && !kept.contains(x) {
            let i = choose|i: int| 0 <= i < items.len() && items[i] == x;
            if i < rest.len() {
                assert(rest[i] == x);
            }
            assert(all[kept.len() as int] == x);
        }
        if all.contains(x) && !kept.contains(x) {
            let k = choose|k: int| 0 <= k < all.len() && all[k] == x;
            if k < kept.len() {
                assert(kept[k] == x);
            }
            assert(items[items.len() - 1] == x);
        }
    }
}

/// Each item once is the same items.
pub proof fn lemma_distinct_holds<T>(items: Seq<T>, x: T)
    ensures
        distinct(items).contains(x) <==> items.contains(x),
        distinct(items).no_duplicates(),
    decreases items.len(),
{
    if items.len() > 0 {
        let rest = items.drop_last();
        let before = distinct(rest);
        let all = distinct(items);
        lemma_distinct_holds(rest, x);
        if before.contains(x) {
            let k = choose|k: int| 0 <= k < before.len() && before[k] == x;
            assert(all[k] == x);
            let i = choose|i: int| 0 <= i < rest.len() && rest[i] == x;
            assert(items[i] == x);
        }
        if items.contains(x) && !before.contains(x) {
            let i = choose|i: int| 0 <= i < items.len() && items[i] == x;
            if i < rest.len() {
                assert(rest[i] == x);
            }
            assert(all[before.len() as int] == x);
        }
        if all.contains(x) && !before.contains(x) {
            let k = choose|k: int| 0 <= k < all.len() && all[k] == x;
            if k < before.len() {
                assert(before[k] == x);
            }
            assert(items[items.len() - 1] == x);
        }
        assert forall|a: int, b: int|
            0 <= a < all.len() && 0 <= b < all.len() && a != b implies all[a] != all[b] by {
            if a < before.len() && b < before.len() {
                assert(before[a] != before[b]);
            } else if a < before.len() {
                assert(before.contains(before[a]));
            } else if b < before.len() {
                assert(before.contains(before[b]));
            }
        }
    }
}

/// The last of the items wanted is one of them, and none after it is wanted.
pub proof fn lemma_last_where<T>(items: Seq<T>, wanted: spec_fn(T) -> bool)
    ensures
        match last_where(items, wanted) {
            Some(x) => exists|i: int|
                0 <= i < items.len() && #[trigger] items[i] == x && wanted(x) && forall|j: int|
                    i < j < items.len() ==> !wanted(#[trigger] items[j]),
            None => forall|i: int| 0 <= i < items.len() ==> !wanted(#[trigger] items[i]),
        },
    decreases items.len(),
{
    if items.len() > 0 {
        let n = items.len() - 1;
        let rest = items.drop_last();
        if wanted(items.last()) {
            assert(items[n] == items.last());
        } else {
            lemma_last_where(rest, wanted);
            match last_where(rest, wanted) {
                Some(x) => {
                    let i = choose|i: int|
                        0 <= i < rest.len() && #[trigger] rest[i] == x && wanted(x) && forall|
                            j: int,
                        |
                            i < j < rest.len() ==> !wanted(#[trigger] rest[j]);
                    assert(items[i] == x);
                    assert forall|j: int| i < j < items.len() implies !wanted(
                        #[trigger] items[j],
                    ) by {
                        if j < n {
                            assert(rest[j] == items[j]);
                        }
                    }
                },
                None => {
                    assert forall|i: int| 0 <= i < items.len() implies !wanted(
                        #[trigger] items[i],
                    ) by {
                        if i < n {
                            assert(rest[i] == items[i]);
                        }
                    }
                },
            }
        }
    }
}

/// Whether a link leads from one lane into another.
pub open spec fn leads(link: LinkView, from: Seq<char>, to: Seq<char>) -> bool {
    link.from == Some(from) && link.to == Some(to)
}

/// The predecessors of a lane are the lanes with a link into it, each once.
pub proof fn predecessors_are_the_lanes_with_a_link_into_it(
    g: GraphView,
    lane: Seq<char>,
    from: Seq<char>,
)
    ensures
        g.predecessors(lane).contains(from) <==> exists|i: int|
            0 <= i < g.links.len() && leads(#[trigger] g.links[i], from, lane),
        g.predecessors(lane).no_duplicates(),
{
    let wanted = |link: LinkView| link.from is Some && link.to == Some(lane);
    let into = g.links.filter(wanted);
    let origins = into.map_values(|link: LinkView| link.from->0);
    assert(links_into(g.links, lane) == into);
    lemma_distinct_holds(origins, from);
    if origins.contains(from) {
        let k = choose|k: int| 0 <= k < origins.len() && origins[k] == from;
        assert(into.contains(into[k]));
        lemma_filter_holds(g.links, wanted, into[k]);
        let i = choose|i: int| 0 <= i < g.links.len() && g.links[i] == into[k];
        assert(leads(g.links[i], from, lane));
    }
    if exists|i: int| 0 <= i < g.links.len() && leads(#[trigger] g.links[i], from, lane) {
        let i = choose|i: int| 0 <= i < g.links.len() && leads(#[trigger] g.links[i], from, lane);
        lemma_filter_holds(g.links, wanted, g.links[i]);
        assert(g.links.contains(g.links[i]));
        let k = choose|k: int| 0 <= k < into.len() && into[k] == g.links[i];
        assert(origins[k] == from);
    }
}

/// The successors of a lane are the lanes that it has a link into, each once.
pub proof fn successors_are_the_lanes_with_a_link_from_it(
    g: GraphView,
    lane: Seq<char>,
    to: Seq<char>,
)
    ensures
        g.successors(lane).contains(to) <==> exists|i: int|
            0 <= i < g.links.len() && leads(#[trigger] g.links[i], lane, to),
        g.successors(lane).no_duplicates(),
{
    let wanted = |link: LinkView| link.from == Some(lane);
    let known = |link: LinkView| link.to is Some;
    let out = g.links.filter(wanted);
    let kept = out.filter(known);
    let targets = kept.map_values(|link: LinkView| link.to->0);
    assert(links_from(g.links, lane) == out);
    lemma_distinct_holds(targets, to);
    if targets.contains(to) {
        let k = choose|k: int| 0 <= k < targets.len() && targets[k] == to;
        assert(kept.contains(kept[k]));
        lemma_filter_holds(out, known, kept[k]);
        lemma_filter_holds(g.links, wanted, kept[k]);
        let i = choose|i: int| 0 <= i < g.links.len() && g.links[i] == kept[k];
        assert(leads(g.links[i], lane, to));
    }
    if exists|i: int| 0 <= i < g.links.len() && leads(#[trigger] g.links[i], lane, to) {
        let i = choose|i: int| 0 <= i < g.links.len() && leads(#[trigger] g.links[i], lane, to);
        lemma_filter_holds(g.links, wanted, g.links[i]);
        assert(g.links.contains(g.links[i]));
        lemma_filter_holds(out, known, g.links[i]);
        let k = choose|k: int| 0 <= k < kept.len() && kept[k] == g.links[i];
        assert(targets[k] == to);
    }
}

/// A signal holds a lane back where some link out of it names a program and
/// its place in the program's phases.
pub proof fn a_signal_holds_a_lane_back_by_a_link(g: GraphView, lane: Seq<char>)
    ensures
        g.is_signal_controlled(lane) <==> exists|i: int|
            0 <= i < g.links.len() && (#[trigger] g.links[i]).from == Some(lane)
                && g.links[i].traffic_light is Some && g.links[i].link_index is Some,
{
    let wanted = |link: LinkView| link.from == Some(lane);
    let out = g.links.filter(wanted);
    assert(links_from(g.links, lane) == out);
    if g.is_signal_controlled(lane) {
        let k = choose|k: int|
            0 <= k < out.len() && (#[trigger] out[k]).traffic_light is Some && out[k].link_index is Some;
        assert(out.contains(out[k]));
        lemma_filter_holds(g.links, wanted, out[k]);
        let i = choose|i: int| 0 <= i < g.links.len() && g.links[i] == out[k];
        assert(g.links[i].from == Some(lane));
    }
    if exists|i: int|
        0 <= i < g.links.len() && (#[trigger] g.links[i]).from == Some(lane)
            && g.links[i].traffic_light is Some && g.links[i].link_index is Some {
        let i = choose|i: int|
            0 <= i < g.links.len() && (#[trigger] g.links[i]).from == Some(lane)
                && g.links[i].traffic_light is Some && g.links[i].link_index is Some;
        lemma_filter_holds(g.links, wanted, g.links[i]);
        assert(g.links.contains(g.links[i]));
        let k = choose|k: int| 0 <= k < out.len() && out[k] == g.links[i];
        assert(out[k].traffic_light is Some);
    }
}

/// The links out of a lane, and those into it from a lane that is known, are
/// taken one by one, in order: those of two lists are those of the first and
/// after them those of the second.
pub proof fn links_are_taken_in_order(a: Seq<LinkView>, b: Seq<LinkView>, lane: Seq<char>)
    ensures
        links_from(a + b, lane) == links_from(a, lane) + links_from(b, lane),
        links_into(a + b, lane) == links_into(a, lane) + links_into(b, lane),
        b.len() == 1 ==> links_from(b, lane).len() == (if b[0].from == Some(lane) {
            1int
        } else {
            0
        }),
        b.len() == 1 && b[0].from == Some(lane) ==> links_from(b, lane) == b,
        b.len() == 1 ==> links_into(b, lane).len() == (if b[0].from is Some && b[0].to == Some(
            lane,
        ) {
            1int
        } else {
            0
        }),
        b.len() == 1 && b[0].from is Some && b[0].to == Some(lane) ==> links_into(b, lane) == b,
{
    reveal_with_fuel(Seq::filter, 2);
    Seq::filter_distributes_over_add(a, b, |link: LinkView| link.from == Some(lane));
    Seq::filter_distributes_over_add(
        a,
        b,
        |link: LinkView| link.from is Some && link.to == Some(lane),
    );
}

/// The internal lane between two lanes is the one that the last link from one
/// to the other names, of those that name any.
pub proof fn the_lane_between_is_the_last_named(g: GraphView, from: Seq<char>, to: Seq<char>)
    ensures
        match g.via_between(from, to) {
            Some(via) => exists|i: int|
                0 <= i < g.links.len() && leads(#[trigger] g.links[i], from, to) && g.links[i].via
                    == Some(via) && forall|j: int|
                    i < j < g.links.len() && leads(#[trigger] g.links[j], from, to)
                        ==> g.links[j].via is None,
            None => forall|i: int|
                0 <= i < g.links.len() && leads(#[trigger] g.links[i], from, to)
                    ==> g.links[i].via is None,
        },
{
    lemma_via(g.links, from, to);
}

spec fn last_via(links: Seq<LinkView>, from: Seq<char>, to: Seq<char>) -> Option<LinkView> {
    last_where(
        links_into(links, to),
        |link: LinkView| link.from == Some(from) && link.via is Some,
    )
}

proof fn lemma_via(links: Seq<LinkView>, from: Seq<char>, to: Seq<char>)
    ensures
        match last_via(links, from, to) {
            Some(link) => exists|i: int|
                0 <= i < links.len() && leads(#[trigger] links[i], from, to) && links[i] == link
                    && link.via is Some && forall|j: int|
                    i < j < links.len() && leads(#[trigger] links[j], from, to)
                        ==> links[j].via is None,
            None => forall|i: int|
                0 <= i < links.len() && leads(#[trigger] links[i], from, to)
                    ==> links[i].via is None,
        },
    decreases links.len(),
{
    reveal(Seq::filter);
    if links.len() > 0 {
        let n = links.len() - 1;
        let rest = links.drop_last();
        let last = links.last();
        lemma_via(rest, from, to);
        if last.from is Some && last.to == Some(to) {
            assert(links_into(links, to).drop_last() =~= links_into(rest, to));
        }
        if leads(last, from, to) && last.via is Some {
            assert(links[n] == last);
        } else {
            assert(last_via(links, from, to) == last_via(rest, from, to));
            match last_via(rest, from, to) {
                Some(link) => {
                    let i = choose|i: int|
                        0 <= i < rest.len() && leads(#[trigger] rest[i], from, to) && rest[i] == link
                            && link.via is Some && forall|j: int|
                            i < j < rest.len() && leads(#[trigger] rest[j], from, to)
                                ==> rest[j].via is None;
                    assert(links[i] == link);
                    assert forall|j: int|
                        i < j < links.len() && leads(#[trigger] links[j], from, to) implies links[j].via is None by {
                        if j < n {
                            assert(rest[j] == links[j]);
                        }
                    }
                },
                None => {
                    assert forall|i: int|
                        0 <= i < links.len() && leads(#[trigger] links[i], from, to) implies links[i].via is None by {
                        if i < n {
                            assert(rest[i] == links[i]);
                        }
                    }
                },
            }
        }
    }
}

} // verus!
