//! What groups are like once fork siblings are merged.

use crate::connectivity::GraphView;
use crate::order::{
    lexicographic, text_order, text_order_is_total, text_rank, texts_rank, Rank,
};
use crate::sibling_laws::{
    are_linked, is_chain, labels_are_positions, lemma_lanes_absorbed, lemma_merged_has_root,
    lemma_root_is_merged, linked_groups_share_a_label, sorting_keeps_the_groups,
};
use crate::siblings::{
    are_siblings, merged_group, merged_groups, sibling_labels, siblings_merged, sorted_edges,
    with_edge, VehicleGroupView,
};
use vstd::prelude::*;

verus! {

/// The lanes of siblings, direct or through others, end up in one zone.
pub proof fn siblings_end_up_in_one_zone(
    g: GraphView,
    groups: Seq<VehicleGroupView>,
    k: int,
    l: int,
    a: Seq<char>,
    b: Seq<char>,
)
    requires
        0 <= k < groups.len(),
        0 <= l < groups.len(),
        groups[k].lanes.contains(a),
        groups[l].lanes.contains(b),
        are_siblings(g, groups[k], groups[l]) || are_linked(g, groups, k, l),
    ensures
        exists|i: int|
            0 <= i < siblings_merged(g, groups).len() && (#[trigger] siblings_merged(
                g,
                groups,
            )[i]).lanes.contains(a) && siblings_merged(g, groups)[i].lanes.contains(b),
{
    let labels = sibling_labels(g, groups);
    let n = groups.len() as int;
    labels_are_positions(g, groups);
    if are_siblings(g, groups[k], groups[l]) {
        let path = seq![k, l];
        assert(is_chain(g, groups, path, k, l));
    }
    linked_groups_share_a_label(g, groups, k, l);
    let root = labels[k];
    assert(labels[l] == root);
    assert(labels[root] == root);
    lemma_lanes_absorbed(groups, labels, root, n, k, a);
    lemma_lanes_absorbed(groups, labels, root, n, l, b);
    lemma_root_is_merged(groups, labels, n, root);
    let found = merged_group(groups, labels, root, n);
    sorting_keeps_the_groups(merged_groups(groups, labels, n), found);
    let all = siblings_merged(g, groups);
    let i = choose|i: int| 0 <= i < all.len() && all[i] == found;
    assert(all[i].lanes.contains(a));
}

/// Whether edges stand in order, none of them twice.
pub open spec fn edges_in_order(edges: Seq<Seq<char>>) -> bool {
    forall|i: int, j: int|
        0 <= i < j < edges.len() ==> #[trigger] text_rank(edges[i], edges[j]) == Rank::Before
}

proof fn lemma_text_order(a: Seq<char>, b: Seq<char>, c: Seq<char>)
    ensures
        text_rank(a, b) == Rank::Same <==> a == b,
        text_rank(a, b) == Rank::Before <==> text_rank(b, a) == Rank::After,
        text_rank(a, b) == Rank::Before && text_rank(b, c) == Rank::Before ==> text_rank(a, c)
            == Rank::Before,
{
    text_order_is_total();
    let order = text_order();
    assert(order(a, b) == Rank::Same <==> a == b);
    assert(order(a, b) == Rank::Before <==> order(b, a) == Rank::After);
    assert(order(a, b) == Rank::Before && order(b, c) == Rank::Before ==> order(a, c)
        == Rank::Before);
}

proof fn lemma_with_edge(edges: Seq<Seq<char>>, edge: Seq<char>)
    requires
        edges_in_order(edges),
    ensures
        edges_in_order(with_edge(edges, edge)),
        forall|e: Seq<char>| #[trigger]
            with_edge(edges, edge).contains(e) <==> edges.contains(e) || e == edge,
    decreases edges.len(),
{
    let all = with_edge(edges, edge);
    if edges.len() == 0 {
        assert(all[0] == edge);
    } else {
        let first = edges[0];
        let rest = edges.drop_first();
        assert(edges_in_order(rest)) by {
            assert forall|i: int, j: int| 0 <= i < j < rest.len() implies #[trigger] text_rank(
                rest[i],
                rest[j],
            ) == Rank::Before by {
                assert(text_rank(edges[i + 1], edges[j + 1]) == Rank::Before);
            }
        }
        lemma_with_edge(rest, edge);
        lemma_text_order(first, edge, edge);
        match text_rank(first, edge) {
            Rank::Before => {
                let later = with_edge(rest, edge);
                assert(all == seq![first] + later);
                assert forall|e: Seq<char>| #[trigger]
                    all.contains(e) <==> edges.contains(e) || e == edge by {
                    if all.contains(e) {
                        let k = choose|k: int| 0 <= k < all.len() && all[k] == e;
                        if k > 0 {
                            assert(later[k - 1] == e);
                            assert(later.contains(e));
                            if rest.contains(e) {
                                let m = choose|m: int| 0 <= m < rest.len() && rest[m] == e;
                                assert(edges[m + 1] == e);
                            }
                        } else {
                            assert(edges[0] == e);
                        }
                    }
                    if edges.contains(e) {
                        let k = choose|k: int| 0 <= k < edges.len() && edges[k] == e;
                        if k > 0 {
                            assert(rest[k - 1] == e);
                            assert(later.contains(e));
                            let m = choose|m: int| 0 <= m < later.len() && later[m] == e;
                            assert(all[m + 1] == e);
                        } else {
                            assert(all[0] == e);
                        }
                    }
                    if e == edge {
                        assert(later.contains(e));
                        let m = choose|m: int| 0 <= m < later.len() && later[m] == e;
                        assert(all[m + 1] == e);
                    }
                }
                assert forall|i: int, j: int| 0 <= i < j < all.len() implies #[trigger] text_rank(
                    all[i],
                    all[j],
                ) == Rank::Before by {
                    assert(all[j] == later[j - 1]);
                    assert(later.contains(later[j - 1]));
                    if i > 0 {
                        assert(all[i] == later[i - 1]);
                        assert(text_rank(later[i - 1], later[j - 1]) == Rank::Before);
                    } else if rest.contains(later[j - 1]) {
                        let m = choose|m: int| 0 <= m < rest.len() && rest[m] == later[j - 1];
                        assert(text_rank(edges[0], edges[m + 1]) == Rank::Before);
                    }
                }
            },
            Rank::Same => {
                assert(edges[0] == edge);
            },
            Rank::After => {
                assert(all == seq![edge] + edges);
                assert forall|e: Seq<char>| #[trigger]
                    all.contains(e) <==> edges.contains(e) || e == edge by {
                    if edges.contains(e) {
                        let k = choose|k: int| 0 <= k < edges.len() && edges[k] == e;
                        assert(all[k + 1] == e);
                    }
                    if all.contains(e) {
                        let k = choose|k: int| 0 <= k < all.len() && all[k] == e;
                        if k > 0 {
                            assert(edges[k - 1] == e);
                        }
                    }
                    assert(all[0] == edge);
                }
                assert forall|i: int, j: int| 0 <= i < j < all.len() implies #[trigger] text_rank(
                    all[i],
                    all[j],
                ) == Rank::Before by {
                    assert(all[j] == edges[j - 1]);
                    lemma_text_order(edge, first, edges[j - 1]);
                    if i > 0 {
                        assert(all[i] == edges[i - 1]);
                        assert(text_rank(edges[i - 1], edges[j - 1]) == Rank::Before);
                    } else if j > 1 {
                        assert(text_rank(edges[0], edges[j - 1]) == Rank::Before);
                    }
                }
            },
        }
    }
}

/// Edges are sorted: each that is given once, in order, and no other.
pub proof fn edges_are_sorted(edges: Seq<Seq<char>>)
    ensures
        edges_in_order(sorted_edges(edges)),
        forall|e: Seq<char>| #[trigger] sorted_edges(edges).contains(e) <==> edges.contains(e),
    decreases edges.len(),
{
    if edges.len() > 0 {
        let rest = edges.drop_last();
        edges_are_sorted(rest);
        lemma_with_edge(sorted_edges(rest), edges.last());
        assert forall|e: Seq<char>| #[trigger]
            sorted_edges(edges).contains(e) <==> edges.contains(e) by {
            assert(sorted_edges(edges) == with_edge(sorted_edges(rest), edges.last()));
            assert(sorted_edges(rest).contains(e) <==> rest.contains(e));
            if rest.contains(e) {
                let k = choose|k: int| 0 <= k < rest.len() && rest[k] == e;
                assert(edges[k] == e);
            }
            if e == edges.last() {
                assert(edges[edges.len() - 1] == e);
            }
            if edges.contains(e) && e != edges.last() {
                let k = choose|k: int| 0 <= k < edges.len() && edges[k] == e;
                assert(rest[k] == e);
            }
        }
    }
}

/// Whether the group at `k` is one of those merged into the one at `root`, of
/// the first `upto`.
spec fn is_merged_into(labels: Seq<int>, root: int, upto: int, k: int) -> bool {
    k == root || root < k < upto && labels[k] == root
}

spec fn has_edge(
    groups: Seq<VehicleGroupView>,
    labels: Seq<int>,
    root: int,
    upto: int,
    edge: Seq<char>,
) -> bool {
    exists|k: int| #[trigger]
        is_merged_into(labels, root, upto, k) && groups[k].from_edges.contains(edge)
}

proof fn lemma_merged_edges(
    groups: Seq<VehicleGroupView>,
    labels: Seq<int>,
    root: int,
    upto: int,
) -> (least: int)
    requires
        0 <= root < upto <= groups.len(),
        labels.len() == groups.len(),
        labels[root] == root,
        forall|k: int| 0 <= k < groups.len() ==> (#[trigger] groups[k]).from_edges.len() == 1,
    ensures
        ({
            let merged = merged_group(groups, labels, root, upto);
            &&& edges_in_order(merged.from_edges)
            &&& merged.from_edges.len() > 0
            &&& forall|e: Seq<char>| #[trigger]
                merged.from_edges.contains(e) <==> has_edge(groups, labels, root, upto, e)
            &&& merged.directions == groups[root].directions
            &&& is_merged_into(labels, root, upto, least)
            &&& merged.icon == groups[least].icon
            &&& groups[least].from_edges[0] == merged.from_edges[0]
        }),
    decreases upto - root,
{
    let merged = merged_group(groups, labels, root, upto);
    assert(groups[root].from_edges.len() == 1);
    if upto <= root + 1 {
        assert forall|e: Seq<char>| #[trigger]
            merged.from_edges.contains(e) <==> has_edge(groups, labels, root, upto, e) by {
            if merged.from_edges.contains(e) {
                assert(is_merged_into(labels, root, upto, root));
            }
        }
        root
    } else {
        let least = lemma_merged_edges(groups, labels, root, upto - 1);
        let before = merged_group(groups, labels, root, upto - 1);
        let last = groups[upto - 1];
        assert(last.from_edges.len() == 1);
        assert(is_merged_into(labels, root, upto, least));
        if labels[upto - 1] == root {
            let both = before.from_edges + last.from_edges;
            edges_are_sorted(both);
            assert forall|e: Seq<char>| #[trigger]
                merged.from_edges.contains(e) <==> has_edge(groups, labels, root, upto, e) by {
                assert(sorted_edges(both).contains(e) <==> both.contains(e));
                assert(before.from_edges.contains(e) <==> has_edge(
                    groups,
                    labels,
                    root,
                    upto - 1,
                    e,
                ));
                if both.contains(e) {
                    let k = choose|k: int| 0 <= k < both.len() && both[k] == e;
                    if k < before.from_edges.len() {
                        assert(before.from_edges[k] == e);
                        assert(before.from_edges.contains(e));
                        let m = choose|m: int| #[trigger]
                            is_merged_into(labels, root, upto - 1, m)
                                && groups[m].from_edges.contains(e);
                        assert(is_merged_into(labels, root, upto, m));
                    } else {
                        assert(last.from_edges[k - before.from_edges.len()] == e);
                        assert(is_merged_into(labels, root, upto, upto - 1));
                    }
                }
                if has_edge(groups, labels, root, upto, e) {
                    let m = choose|m: int| #[trigger]
                        is_merged_into(labels, root, upto, m) && groups[m].from_edges.contains(e);
                    if m == upto - 1 {
                        let k = choose|k: int|
                            0 <= k < last.from_edges.len() && last.from_edges[k] == e;
                        assert(both[before.from_edges.len() + k] == e);
                    } else {
                        assert(is_merged_into(labels, root, upto - 1, m));
                        assert(before.from_edges.contains(e));
                        let k = choose|k: int|
                            0 <= k < before.from_edges.len() && before.from_edges[k] == e;
                        assert(both[k] == e);
                    }
                }
            }
            let e = last.from_edges[0];
            let m = before.from_edges[0];
            assert(both[0] == m);
            assert(both[before.from_edges.len() as int] == e);
            assert(both.contains(both[0]));
            assert(both.contains(both[before.from_edges.len() as int]));
            assert(sorted_edges(both).contains(m) && sorted_edges(both).contains(e));
            lemma_first_is_least(merged.from_edges, m);
            lemma_first_is_least(merged.from_edges, e);
            let first = merged.from_edges[0];
            assert(merged.from_edges.contains(first));
            assert(both.contains(first));
            lemma_text_order(e, m, e);
            lemma_text_order(m, e, m);
            lemma_text_order(first, m, e);
            lemma_text_order(first, e, m);
            // the least of both is the lesser of the two that were least
            assert(first == e || first == m) by {
                let k = choose|k: int| 0 <= k < both.len() && both[k] == first;
                if 0 < k < before.from_edges.len() {
                    assert(text_rank(before.from_edges[0], before.from_edges[k]) == Rank::Before);
                }
            }
            lemma_singles_rank(last.from_edges, before.from_edges);
            if texts_rank(last.from_edges, before.from_edges) == Rank::Before {
                upto - 1
            } else {
                least
            }
        } else {
            assert forall|e: Seq<char>| #[trigger]
                merged.from_edges.contains(e) <==> has_edge(groups, labels, root, upto, e) by {
                assert(before.from_edges.contains(e) <==> has_edge(
                    groups,
                    labels,
                    root,
                    upto - 1,
                    e,
                ));
                if has_edge(groups, labels, root, upto - 1, e) {
                    let m = choose|m: int| #[trigger]
                        is_merged_into(labels, root, upto - 1, m) && groups[m].from_edges.contains(
                            e,
                        );
                    assert(is_merged_into(labels, root, upto, m));
                }
                if has_edge(groups, labels, root, upto, e) {
                    let m = choose|m: int| #[trigger]
                        is_merged_into(labels, root, upto, m) && groups[m].from_edges.contains(e);
                    assert(is_merged_into(labels, root, upto - 1, m));
                }
            }
            least
        }
    }
}

proof fn lemma_first_is_least(edges: Seq<Seq<char>>, edge: Seq<char>)
    requires
        edges_in_order(edges),
        edges.contains(edge),
    ensures
        edges[0] == edge || text_rank(edges[0], edge) == Rank::Before,
{
    let k = choose|k: int| 0 <= k < edges.len() && edges[k] == edge;
    if k > 0 {
        assert(text_rank(edges[0], edges[k]) == Rank::Before);
    }
}

/// A single edge comes before others where it comes before the first of them,
/// or is the first of several.
proof fn lemma_singles_rank(single: Seq<Seq<char>>, edges: Seq<Seq<char>>)
    requires
        single.len() == 1,
        edges.len() > 0,
    ensures
        texts_rank(single, edges) == Rank::Before <==> text_rank(single[0], edges[0])
            == Rank::Before || single[0] == edges[0] && edges.len() > 1,
{
    lemma_text_order(single[0], edges[0], edges[0]);
    let order = text_order();
    assert(order(single[0], edges[0]) == text_rank(single[0], edges[0]));
    let rest = edges.drop_first();
    let none = single.drop_first();
    assert(none.len() == 0);
    assert(lexicographic(none, rest, order) == (if rest.len() == 0 {
        Rank::Same
    } else {
        Rank::Before
    }));
}

/// Whether the group at `k` is linked with the one at `root`, and has the edge.
pub open spec fn brings_in(
    g: GraphView,
    groups: Seq<VehicleGroupView>,
    root: int,
    k: int,
    edge: Seq<char>,
) -> bool {
    0 <= k < groups.len() && are_linked(g, groups, root, k) && groups[k].from_edges.contains(edge)
}

/// A merged group has the edges of all the groups that are linked with each
/// other, in order and each once, the turns that they have in common, and the
/// icon of one whose edge is the first of them all.
pub proof fn a_merged_group_has_the_edges_of_all_its_groups(
    g: GraphView,
    groups: Seq<VehicleGroupView>,
    i: int,
)
    requires
        0 <= i < siblings_merged(g, groups).len(),
        forall|k: int| 0 <= k < groups.len() ==> (#[trigger] groups[k]).from_edges.len() == 1,
    ensures
        ({
            let merged = siblings_merged(g, groups)[i];
            &&& edges_in_order(merged.from_edges)
            &&& exists|root: int, least: int|
                0 <= root < groups.len() && 0 <= least < groups.len() && #[trigger] are_linked(
                    g,
                    groups,
                    root,
                    least,
                ) && merged.directions == groups[root].directions && merged.icon
                    == groups[least].icon && groups[least].from_edges[0] == merged.from_edges[0]
                    && forall|e: Seq<char>| #[trigger]
                    merged.from_edges.contains(e) <==> exists|k: int|
                        brings_in(g, groups, root, k, e)
        }),
{
    let labels = sibling_labels(g, groups);
    let n = groups.len() as int;
    labels_are_positions(g, groups);
    let all = merged_groups(groups, labels, n);
    let merged = siblings_merged(g, groups)[i];
    assert(siblings_merged(g, groups).contains(merged));
    sorting_keeps_the_groups(all, merged);
    let at = choose|at: int| 0 <= at < all.len() && all[at] == merged;
    let root = lemma_merged_has_root(groups, labels, n, at);
    let least = lemma_merged_edges(groups, labels, root, n);
    linked_groups_share_a_label(g, groups, root, least);
    assert(are_linked(g, groups, root, least));
    assert forall|e: Seq<char>| #[trigger] merged.from_edges.contains(e) <==> exists|k: int|
        brings_in(g, groups, root, k, e) by {
        if has_edge(groups, labels, root, n, e) {
            let k = choose|k: int| #[trigger]
                is_merged_into(labels, root, n, k) && groups[k].from_edges.contains(e);
            linked_groups_share_a_label(g, groups, root, k);
            assert(brings_in(g, groups, root, k, e));
        }
        if exists|k: int| brings_in(g, groups, root, k, e) {
            let k = choose|k: int| brings_in(g, groups, root, k, e);
            linked_groups_share_a_label(g, groups, root, k);
            assert(labels[k] == root);
            assert(0 <= labels[k] <= k);
            assert(is_merged_into(labels, root, n, k));
        }
    }
}

} // verus!
