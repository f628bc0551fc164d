//! How ids and movements are ordered: lexicographically, ids by the code
//! points of their characters.

use vstd::prelude::*;

verus! {

/// Where one value stands relative to another.
#[derive(Clone, Copy, Debug, PartialEq, Eq, Structural)]
pub enum Rank {
    Before,
    Same,
    After,
}

/// The rank of one number relative to another.
pub open spec fn number_rank(a: int, b: int) -> Rank {
    if a < b {
        Rank::Before
    } else if a == b {
        Rank::Same
    } else {
        Rank::After
    }
}

/// The rank of `a` relative to `b` in the lexicographic order that `rank`
/// gives: by the first place at which they differ, a proper prefix first.
pub open spec fn lexicographic<T>(a: Seq<T>, b: Seq<T>, rank: spec_fn(T, T) -> Rank) -> Rank
    decreases a.len(),
{
    if a.len() == 0 {
        if b.len() == 0 {
            Rank::Same
        } else {
            Rank::Before
        }
    } else if b.len() == 0 {
        Rank::After
    } else if rank(a[0], b[0]) == Rank::Same {
        lexicographic(a.drop_first(), b.drop_first(), rank)
    } else {
        rank(a[0], b[0])
    }
}

/// Whether `rank` orders its values totally: it calls only equal values the
/// same, turns round when its arguments do, and is transitive.
pub open spec fn total<T>(rank: spec_fn(T, T) -> Rank) -> bool {
    &&& forall|x: T, y: T| #[trigger] rank(x, y) == Rank::Same <==> x == y
    &&& forall|x: T, y: T| #[trigger] rank(x, y) == Rank::Before <==> rank(y, x) == Rank::After
    &&& forall|x: T, y: T, z: T|
        #[trigger] rank(x, y) == Rank::Before && #[trigger] rank(y, z) == Rank::Before ==> rank(x, z)
            == Rank::Before
}

/// The order of characters, by code point.
pub open spec fn char_order() -> spec_fn(char, char) -> Rank {
    |x: char, y: char| number_rank(x as int, y as int)
}

/// The rank of one text relative to another.
pub open spec fn text_rank(a: Seq<char>, b: Seq<char>) -> Rank {
    lexicographic(a, b, char_order())
}

/// The order of texts.
pub open spec fn text_order() -> spec_fn(Seq<char>, Seq<char>) -> Rank {
    |x: Seq<char>, y: Seq<char>| text_rank(x, y)
}

/// The rank of one list of texts relative to another.
pub open spec fn texts_rank(a: Seq<Seq<char>>, b: Seq<Seq<char>>) -> Rank {
    lexicographic(a, b, text_order())
}

/// What a list of strings holds.
pub open spec fn texts(strings: Seq<String>) -> Seq<Seq<char>> {
    Seq::new(strings.len(), |i: int| strings[i]@)
}

/// What an optional string says.
pub open spec fn optional_text(text: Option<String>) -> Option<Seq<char>> {
    match text {
        Some(t) => Some(t@),
        None => None,
    }
}

proof fn lemma_lexicographic_same<T>(a: Seq<T>, b: Seq<T>, rank: spec_fn(T, T) -> Rank)
    requires
        total(rank),
    ensures
        lexicographic(a, b, rank) == Rank::Same <==> a == b,
    decreases a.len(),
{
    if a.len() > 0 && b.len() > 0 {
        if rank(a[0], b[0]) == Rank::Same {
            lemma_lexicographic_same(a.drop_first(), b.drop_first(), rank);
            if a.drop_first() == b.drop_first() {
                assert(a =~= seq![a[0]] + a.drop_first());
                assert(b =~= seq![b[0]] + b.drop_first());
            }
        } else {
            assert(a[0] != b[0]);
        }
    } else if a.len() == 0 && b.len() == 0 {
        assert(a =~= b);
    }
}

proof fn lemma_lexicographic_turns<T>(a: Seq<T>, b: Seq<T>, rank: spec_fn(T, T) -> Rank)
    requires
        total(rank),
    ensures
        lexicographic(a, b, rank) == Rank::Before <==> lexicographic(b, a, rank) == Rank::After,
    decreases a.len(),
{
    if a.len() > 0 && b.len() > 0 {
        assert(rank(a[0], b[0]) == Rank::Same <==> a[0] == b[0]);
        assert(rank(b[0], a[0]) == Rank::Same <==> a[0] == b[0]);
        assert(rank(a[0], b[0]) == Rank::Before <==> rank(b[0], a[0]) == Rank::After);
        assert(rank(b[0], a[0]) == Rank::Before <==> rank(a[0], b[0]) == Rank::After);
        lemma_lexicographic_turns(a.drop_first(), b.drop_first(), rank);
    }
}

proof fn lemma_lexicographic_transitive<T>(
    a: Seq<T>,
    b: Seq<T>,
    c: Seq<T>,
    rank: spec_fn(T, T) -> Rank,
)
    requires
        total(rank),
        lexicographic(a, b, rank) == Rank::Before,
        lexicographic(b, c, rank) == Rank::Before,
    ensures
        lexicographic(a, c, rank) == Rank::Before,
    decreases a.len(),
{
    if a.len() > 0 {
        assert(rank(a[0], b[0]) == Rank::Same <==> a[0] == b[0]);
        assert(rank(b[0], c[0]) == Rank::Same <==> b[0] == c[0]);
        assert(rank(a[0], c[0]) == Rank::Same <==> a[0] == c[0]);
        if rank(a[0], b[0]) == Rank::Same && rank(b[0], c[0]) == Rank::Same {
            lemma_lexicographic_transitive(a.drop_first(), b.drop_first(), c.drop_first(), rank);
        }
    }
}

/// A lexicographic order over a total order is total itself.
pub proof fn lexicographic_is_total<T>(rank: spec_fn(T, T) -> Rank)
    requires
        total(rank),
    ensures
        total(|a: Seq<T>, b: Seq<T>| lexicographic(a, b, rank)),
{
    let order = |a: Seq<T>, b: Seq<T>| lexicographic(a, b, rank);
    assert forall|a: Seq<T>, b: Seq<T>| #[trigger] order(a, b) == Rank::Same <==> a == b by {
        lemma_lexicographic_same(a, b, rank);
    }
    assert forall|a: Seq<T>, b: Seq<T>| #[trigger]
        order(a, b) == Rank::Before <==> order(b, a) == Rank::After by {
        lemma_lexicographic_turns(a, b, rank);
    }
    assert forall|a: Seq<T>, b: Seq<T>, c: Seq<T>| #[trigger]
        order(a, b) == Rank::Before && #[trigger] order(b, c) == Rank::Before implies order(a, c)
        == Rank::Before by {
        lemma_lexicographic_transitive(a, b, c, rank);
    }
}

/// Texts are totally ordered.
pub proof fn text_order_is_total()
    ensures
        total(text_order()),
{
    assert(total(char_order()));
    lexicographic_is_total(char_order());
    assert(text_order() =~= (|a: Seq<char>, b: Seq<char>| lexicographic(a, b, char_order())));
}

/// Lists of texts are totally ordered.
pub proof fn texts_order_is_total()
    ensures
        total(|a: Seq<Seq<char>>, b: Seq<Seq<char>>| texts_rank(a, b)),
{
    text_order_is_total();
    lexicographic_is_total(text_order());
    assert((|a: Seq<Seq<char>>, b: Seq<Seq<char>>| texts_rank(a, b)) =~= (|
        a: Seq<Seq<char>>,
        b: Seq<Seq<char>>,
    | lexicographic(a, b, text_order())));
}

/// The characters of `text`.
pub fn characters(text: &str) -> (chars: Vec<char>)
    ensures
        chars@ == text@,
{
    let mut chars: Vec<char> = Vec::new();
    for c in iter: text.chars()
        invariant
            iter.seq() == text@,
            chars@ == text@.take(iter.index() as int),
    {
        chars.push(c);
        assert(chars@ =~= text@.take(iter.index() + 1));
    }
    assert(text@.take(text@.len() as int) =~= text@);
    chars
}

/// Compares two texts.
pub fn compare_text(a: &str, b: &str) -> (rank: Rank)
    ensures
        rank == text_rank(a@, b@),
{
    let left: Vec<char> = characters(a);
    let right: Vec<char> = characters(b);
    let mut i: usize = 0;
    assert(a@.skip(0) =~= a@);
    assert(b@.skip(0) =~= b@);
    while i < left.len() && i < right.len()
        invariant
            left@ == a@,
            right@ == b@,
            i <= left.len(),
            i <= right.len(),
            text_rank(a@, b@) == text_rank(a@.skip(i as int), b@.skip(i as int)),
        decreases left.len() - i,
    {
        let x: char = left[i];
        let y: char = right[i];
        assert(a@.skip(i as int)[0] == left@[i as int]);
        assert(b@.skip(i as int)[0] == right@[i as int]);
        if x < y {
            return Rank::Before;
        }
        if y < x {
            return Rank::After;
        }
        assert(a@.skip(i as int).drop_first() =~= a@.skip(i + 1));
        assert(b@.skip(i as int).drop_first() =~= b@.skip(i + 1));
        i = i + 1;
    }
    if i < left.len() {
        Rank::After
    } else if i < right.len() {
        Rank::Before
    } else {
        Rank::Same
    }
}

/// Compares two lists of texts.
pub fn compare_texts(a: &Vec<String>, b: &Vec<String>) -> (rank: Rank)
    ensures
        rank == texts_rank(texts(a@), texts(b@)),
{
    let ghost left = texts(a@);
    let ghost right = texts(b@);
    let mut i: usize = 0;
    assert(left.skip(0) =~= left);
    assert(right.skip(0) =~= right);
    while i < a.len() && i < b.len()
        invariant
            left == texts(a@),
            right == texts(b@),
            i <= a.len(),
            i <= b.len(),
            texts_rank(left, right) == texts_rank(left.skip(i as int), right.skip(i as int)),
        decreases a.len() - i,
    {
        assert(left.skip(i as int)[0] == a@[i as int]@);
        assert(right.skip(i as int)[0] == b@[i as int]@);
        match compare_text(a[i].as_str(), b[i].as_str()) {
            Rank::Before => { return Rank::Before; },
            Rank::After => { return Rank::After; },
            Rank::Same => {},
        }
        assert(left.skip(i as int).drop_first() =~= left.skip(i + 1));
        assert(right.skip(i as int).drop_first() =~= right.skip(i + 1));
        i = i + 1;
    }
    if i < a.len() {
        Rank::After
    } else if i < b.len() {
        Rank::Before
    } else {
        Rank::Same
    }
}

} // verus!
