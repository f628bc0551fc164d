//! What holds of fork siblings merged into one group.

use crate::connectivity::GraphView;
use crate::movement::{directions_order_is_total, directions_rank};
use crate::network::ConnectionDirection;
use crate::order::{texts_order_is_total, texts_rank, total, Rank};
use crate::siblings::{
    are_siblings, group_rank, is_joined, lowest_label, merged_group, merged_groups, sibling_labels,
    siblings_merged, sorted_groups, with_group, VehicleGroupView,
};
use vstd::prelude::*;

verus! {

/// Siblings are siblings both ways.
pub proof fn siblings_are_mutual(g: GraphView, a: VehicleGroupView, b: VehicleGroupView)
    ensures
        are_siblings(g, a, b) == are_siblings(g, b, a),
{
    reveal(are_siblings);
}

proof fn lemma_lowest(
    g: GraphView,
    groups: Seq<VehicleGroupView>,
    labels: Seq<int>,
    group: VehicleGroupView,
    upto: nat,
    otherwise: int,
)
    requires
        upto <= groups.len(),
    ensures
        ({
            let low = lowest_label(g, groups, labels, group, upto, otherwise);
            &&& low <= otherwise
            &&& low == otherwise || exists|j: int|
                0 <= j < upto && are_siblings(g, group, #[trigger] groups[j]) && labels[j] == low
            &&& forall|j: int|
                0 <= j < upto && are_siblings(g, group, #[trigger] groups[j]) ==> low <= labels[j]
        }),
    decreases upto,
{
    if upto > 0 {
        lemma_lowest(g, groups, labels, group, (upto - 1) as nat, otherwise);
    }
}

/// Every label is the position of a group that bears it, and not of a later
/// one.
pub proof fn labels_are_positions(g: GraphView, groups: Seq<VehicleGroupView>)
    ensures
        sibling_labels(g, groups).len() == groups.len(),
        forall|k: int|
            0 <= k < groups.len() ==> 0 <= (#[trigger] sibling_labels(g, groups)[k]) <= k
                && sibling_labels(g, groups)[sibling_labels(g, groups)[k]] == sibling_labels(
                g,
                groups,
            )[k],
    decreases groups.len(),
{
    if groups.len() > 0 {
        let others = groups.drop_last();
        let group = groups.last();
        let n = others.len() as int;
        labels_are_positions(g, others);
        let before = sibling_labels(g, others);
        let label = lowest_label(g, others, before, group, others.len(), n);
        lemma_lowest(g, others, before, group, others.len(), n);
        let labels = sibling_labels(g, groups);
        assert forall|k: int| 0 <= k < groups.len() implies 0 <= (#[trigger] labels[k]) <= k
            && labels[labels[k]] == labels[k] by {
            if label < n {
                let j = choose|j: int|
                    0 <= j < n && are_siblings(g, group, #[trigger] others[j]) && before[j]
                        == label;
                // the group that gave the label its name bears it still
                assert(before[before[j]] == before[j]);
                assert(is_joined(g, others, before, group, before[label]));
                assert(labels[label] == label);
            }
            if k < n {
                assert(0 <= before[k] <= k);
                assert(before[before[k]] == before[k]);
                if is_joined(g, others, before, group, before[k]) {
                    let j = choose|j: int|
                        0 <= j < n && are_siblings(g, group, #[trigger] others[j]) && before[j]
                            == before[k];
                    assert(label <= before[j]);
                }
            }
        }
    }
}

/// Siblings end up under one label.
pub proof fn siblings_share_a_label(g: GraphView, groups: Seq<VehicleGroupView>, i: int, j: int)
    requires
        0 <= i < groups.len(),
        0 <= j < groups.len(),
        are_siblings(g, groups[i], groups[j]),
    ensures
        sibling_labels(g, groups)[i] == sibling_labels(g, groups)[j],
    decreases groups.len(),
{
    siblings_are_mutual(g, groups[i], groups[j]);
    let others = groups.drop_last();
    let group = groups.last();
    let n = others.len() as int;
    let before = sibling_labels(g, others);
    labels_are_positions(g, others);
    if i < n && j < n {
        siblings_share_a_label(g, others, i, j);
    } else if i < n {
        assert(others[i] == groups[i]);
        assert(is_joined(g, others, before, group, before[i]));
    } else if j < n {
        assert(others[j] == groups[j]);
        assert(is_joined(g, others, before, group, before[j]));
    }
}

/// Whether `path` leads from group `i` to group `j`, each step between
/// siblings.
pub open spec fn is_chain(
    g: GraphView,
    groups: Seq<VehicleGroupView>,
    path: Seq<int>,
    i: int,
    j: int,
) -> bool {
    &&& path.len() > 0
    &&& path[0] == i
    &&& path.last() == j
    &&& forall|k: int| 0 <= k < path.len() ==> 0 <= #[trigger] path[k] < groups.len()
    &&& forall|k: int|
        0 <= k < path.len() - 1 ==> are_siblings(
            g,
            groups[#[trigger] path[k]],
            groups[path[k + 1]],
        )
}

/// Whether groups `i` and `j` are siblings, directly or through others.
pub open spec fn are_linked(g: GraphView, groups: Seq<VehicleGroupView>, i: int, j: int) -> bool {
    exists|path: Seq<int>| is_chain(g, groups, path, i, j)
}

proof fn lemma_chain_joins(
    g: GraphView,
    groups: Seq<VehicleGroupView>,
    first: Seq<int>,
    second: Seq<int>,
    i: int,
    j: int,
    k: int,
    l: int,
)
    requires
        is_chain(g, groups, first, i, j),
        is_chain(g, groups, second, k, l),
        are_siblings(g, groups[j], groups[k]),
    ensures
        is_chain(g, groups, first + second, i, l),
{
    let path = first + second;
    assert(path.last() == second.last());
    assert forall|m: int| 0 <= m < path.len() - 1 implies are_siblings(
        g,
        groups[#[trigger] path[m]],
        groups[path[m + 1]],
    ) by {
        if m < first.len() - 1 {
            assert(path[m] == first[m] && path[m + 1] == first[m + 1]);
        } else if m >= first.len() {
            let s = m - first.len();
            assert(path[m] == second[s] && path[m + 1] == second[s + 1]);
        }
    }
    assert forall|m: int| 0 <= m < path.len() implies 0 <= #[trigger] path[m] < groups.len() by {
        if m < first.len() {
            assert(path[m] == first[m]);
        } else {
            assert(path[m] == second[m - first.len()]);
        }
    }
}

proof fn lemma_chain_turns(
    g: GraphView,
    groups: Seq<VehicleGroupView>,
    path: Seq<int>,
    i: int,
    j: int,
)
    requires
        is_chain(g, groups, path, i, j),
    ensures
        is_chain(g, groups, path.reverse(), j, i),
{
    let back = path.reverse();
    let n = path.len();
    assert forall|m: int| 0 <= m < back.len() - 1 implies are_siblings(
        g,
        groups[#[trigger] back[m]],
        groups[back[m + 1]],
    ) by {
        let s = n - 2 - m;
        assert(back[m] == path[s + 1] && back[m + 1] == path[s]);
        siblings_are_mutual(g, groups[path[s]], groups[path[s + 1]]);
    }
    assert forall|m: int| 0 <= m < back.len() implies 0 <= #[trigger] back[m] < groups.len() by {
        assert(back[m] == path[n - 1 - m]);
    }
    assert(back.last() == path[0]);
}

/// A chain within the first groups is a chain within them all.
proof fn lemma_chain_extends(
    g: GraphView,
    groups: Seq<VehicleGroupView>,
    path: Seq<int>,
    i: int,
    j: int,
)
    requires
        groups.len() > 0,
        is_chain(g, groups.drop_last(), path, i, j),
    ensures
        is_chain(g, groups, path, i, j),
{
    let others = groups.drop_last();
    assert forall|k: int| 0 <= k < path.len() implies 0 <= #[trigger] path[k] < groups.len() by {
        assert(path[k] < others.len());
    }
    assert forall|k: int| 0 <= k < path.len() - 1 implies are_siblings(
        g,
        groups[#[trigger] path[k]],
        groups[path[k + 1]],
    ) by {
        assert(path[k] < others.len() && path[k + 1] < others.len());
        assert(are_siblings(g, others[path[k]], others[path[k + 1]]));
    }
}

/// A group whose label is taken over by the last group is linked with it.
proof fn lemma_linked_with_last(g: GraphView, groups: Seq<VehicleGroupView>, i: int)
    requires
        groups.len() > 0,
        0 <= i < groups.len() - 1,
        is_joined(
            g,
            groups.drop_last(),
            sibling_labels(g, groups.drop_last()),
            groups.last(),
            sibling_labels(g, groups.drop_last())[i],
        ),
    ensures
        are_linked(g, groups, i, groups.len() - 1),
    decreases groups.len(), 0nat,
{
    let others = groups.drop_last();
    let group = groups.last();
    let n = others.len() as int;
    let before = sibling_labels(g, others);
    labels_are_positions(g, others);
    let k = choose|k: int|
        0 <= k < before.len() && are_siblings(g, group, #[trigger] others[k]) && before[k]
            == before[i];
    one_label_means_one_chain(g, others, i, k);
    let path = choose|path: Seq<int>| is_chain(g, others, path, i, k);
    lemma_chain_extends(g, groups, path, i, k);
    let here = seq![n];
    assert(is_chain(g, groups, here, n, n));
    siblings_are_mutual(g, groups[n], groups[k]);
    assert(groups[k] == others[k]);
    lemma_chain_joins(g, groups, path, here, i, k, n, n);
}

/// Groups under one label are siblings, directly or through others.
pub proof fn one_label_means_one_chain(g: GraphView, groups: Seq<VehicleGroupView>, i: int, j: int)
    requires
        0 <= i < groups.len(),
        0 <= j < groups.len(),
        sibling_labels(g, groups)[i] == sibling_labels(g, groups)[j],
    ensures
        are_linked(g, groups, i, j),
    decreases groups.len(), 1nat,
{
    let others = groups.drop_last();
    let group = groups.last();
    let n = others.len() as int;
    let before = sibling_labels(g, others);
    let label = lowest_label(g, others, before, group, others.len(), n);
    labels_are_positions(g, others);
    lemma_lowest(g, others, before, group, others.len(), n);
    if i == j {
        assert(is_chain(g, groups, seq![i], i, j));
    } else if i < n && j < n && before[i] == before[j] {
        one_label_means_one_chain(g, others, i, j);
        let path = choose|path: Seq<int>| is_chain(g, others, path, i, j);
        lemma_chain_extends(g, groups, path, i, j);
    } else {
        // both are linked with the last group
        if i < n {
            lemma_joined_if_labelled(g, groups, i, j);
            lemma_linked_with_last(g, groups, i);
        }
        if j < n {
            lemma_joined_if_labelled(g, groups, j, i);
            lemma_linked_with_last(g, groups, j);
        }
        if i == n {
            let path = choose|path: Seq<int>| is_chain(g, groups, path, j, n);
            lemma_chain_turns(g, groups, path, j, n);
        } else if j < n {
            let first = choose|path: Seq<int>| is_chain(g, groups, path, i, n);
            let second = choose|path: Seq<int>| is_chain(g, groups, path, j, n);
            lemma_chain_turns(g, groups, second, j, n);
            let back = second.reverse();
            lemma_chain_glues(g, groups, first, back, i, n, j);
        }
    }
}

proof fn lemma_chain_glues(
    g: GraphView,
    groups: Seq<VehicleGroupView>,
    first: Seq<int>,
    second: Seq<int>,
    i: int,
    j: int,
    k: int,
)
    requires
        is_chain(g, groups, first, i, j),
        is_chain(g, groups, second, j, k),
        j != k,
    ensures
        are_linked(g, groups, i, k),
{
    let rest = second.skip(1);
    assert(second.len() > 1);
    assert(are_siblings(g, groups[second[0]], groups[second[1]]));
    assert forall|m: int| 0 <= m < rest.len() implies 0 <= #[trigger] rest[m] < groups.len() by {
        assert(rest[m] == second[m + 1]);
    }
    assert forall|m: int| 0 <= m < rest.len() - 1 implies are_siblings(
        g,
        groups[#[trigger] rest[m]],
        groups[rest[m + 1]],
    ) by {
        assert(rest[m] == second[m + 1] && rest[m + 1] == second[m + 2]);
    }
    assert(is_chain(g, groups, rest, second[1], k));
    lemma_chain_joins(g, groups, first, rest, i, j, second[1], k);
}

/// A group that shares a label with another, but did not before the last group
/// came, is joined to the last.
proof fn lemma_joined_if_labelled(g: GraphView, groups: Seq<VehicleGroupView>, i: int, j: int)
    requires
        0 <= i < groups.len() - 1,
        0 <= j < groups.len(),
        sibling_labels(g, groups)[i] == sibling_labels(g, groups)[j],
        j == groups.len() - 1 || sibling_labels(g, groups.drop_last())[i] != sibling_labels(
            g,
            groups.drop_last(),
        )[j],
    ensures
        is_joined(
            g,
            groups.drop_last(),
            sibling_labels(g, groups.drop_last()),
            groups.last(),
            sibling_labels(g, groups.drop_last())[i],
        ),
{
    let others = groups.drop_last();
    let group = groups.last();
    let n = others.len() as int;
    let before = sibling_labels(g, others);
    let label = lowest_label(g, others, before, group, others.len(), n);
    labels_are_positions(g, others);
    lemma_lowest(g, others, before, group, others.len(), n);
    if !is_joined(g, others, before, group, before[i]) {
        // its label is the old one, and is that of the last group
        assert(sibling_labels(g, groups)[i] == before[i]);
        assert(sibling_labels(g, groups)[j] == label);
        assert(before[i] <= i < n);
        let m = choose|m: int|
            0 <= m < n && are_siblings(g, group, #[trigger] others[m]) && before[m] == label;
        assert(is_joined(g, others, before, group, before[i]));
    }
}

/// Groups that siblings link end up under one label, and no others.
pub proof fn linked_groups_share_a_label(
    g: GraphView,
    groups: Seq<VehicleGroupView>,
    i: int,
    j: int,
)
    requires
        0 <= i < groups.len(),
        0 <= j < groups.len(),
    ensures
        sibling_labels(g, groups)[i] == sibling_labels(g, groups)[j] <==> are_linked(
            g,
            groups,
            i,
            j,
        ),
{
    if sibling_labels(g, groups)[i] == sibling_labels(g, groups)[j] {
        one_label_means_one_chain(g, groups, i, j);
    }
    if are_linked(g, groups, i, j) {
        let path = choose|path: Seq<int>| is_chain(g, groups, path, i, j);
        lemma_chain_labels(g, groups, path, path.len() - 1);
    }
}

proof fn lemma_chain_labels(g: GraphView, groups: Seq<VehicleGroupView>, path: Seq<int>, k: int)
    requires
        is_chain(g, groups, path, path[0], path.last()),
        0 <= k < path.len(),
    ensures
        sibling_labels(g, groups)[path[0]] == sibling_labels(g, groups)[path[k]],
    decreases k,
{
    if k > 0 {
        lemma_chain_labels(g, groups, path, k - 1);
        assert(are_siblings(g, groups[path[k - 1]], groups[path[k]])) by {
            assert(path[k - 1 + 1] == path[k]);
        }
        siblings_share_a_label(g, groups, path[k - 1], path[k]);
    }
}

/// A merged group holds the lanes of each group labelled with its root.
pub(crate) proof fn lemma_lanes_absorbed(
    groups: Seq<VehicleGroupView>,
    labels: Seq<int>,
    root: int,
    upto: int,
    k: int,
    lane: Seq<char>,
)
    requires
        0 <= root <= k < upto <= groups.len(),
        labels.len() == groups.len(),
        labels[root] == root,
        labels[k] == root,
        groups[k].lanes.contains(lane),
    ensures
        merged_group(groups, labels, root, upto).lanes.contains(lane),
    decreases upto - root,
{
    if upto > root + 1 {
        let before = merged_group(groups, labels, root, upto - 1);
        if k < upto - 1 {
            lemma_lanes_absorbed(groups, labels, root, upto - 1, k, lane);
            let i = choose|i: int| 0 <= i < before.lanes.len() && before.lanes[i] == lane;
            if labels[upto - 1] == root {
                assert((before.lanes + groups[upto - 1].lanes)[i] == lane);
            }
        } else {
            let i = choose|i: int| 0 <= i < groups[k].lanes.len() && groups[k].lanes[i] == lane;
            assert((before.lanes + groups[k].lanes)[before.lanes.len() + i] == lane);
        }
    }
}

/// A merged group holds no lane but those of groups labelled with its root.
proof fn lemma_lanes_origin(
    groups: Seq<VehicleGroupView>,
    labels: Seq<int>,
    root: int,
    upto: int,
    lane: Seq<char>,
) -> (k: int)
    requires
        0 <= root < upto <= groups.len(),
        labels.len() == groups.len(),
        labels[root] == root,
        merged_group(groups, labels, root, upto).lanes.contains(lane),
    ensures
        root <= k < upto,
        labels[k] == root,
        groups[k].lanes.contains(lane),
    decreases upto - root,
{
    if upto <= root + 1 {
        root
    } else {
        let before = merged_group(groups, labels, root, upto - 1);
        if labels[upto - 1] == root {
            let all = before.lanes + groups[upto - 1].lanes;
            let i = choose|i: int| 0 <= i < all.len() && all[i] == lane;
            if i < before.lanes.len() {
                assert(before.lanes[i] == lane);
                lemma_lanes_origin(groups, labels, root, upto - 1, lane)
            } else {
                assert(groups[upto - 1].lanes[i - before.lanes.len()] == lane);
                upto - 1
            }
        } else {
            lemma_lanes_origin(groups, labels, root, upto - 1, lane)
        }
    }
}

/// Each root has its merged group.
pub(crate) proof fn lemma_root_is_merged(
    groups: Seq<VehicleGroupView>,
    labels: Seq<int>,
    upto: int,
    root: int,
)
    requires
        0 <= root < upto <= groups.len(),
        labels[root] == root,
    ensures
        merged_groups(groups, labels, upto).contains(
            merged_group(groups, labels, root, groups.len() as int),
        ),
    decreases upto,
{
    let all = merged_groups(groups, labels, upto);
    let wanted = merged_group(groups, labels, root, groups.len() as int);
    if root == upto - 1 {
        assert(all.last() == wanted);
    } else {
        lemma_root_is_merged(groups, labels, upto - 1, root);
        let before = merged_groups(groups, labels, upto - 1);
        let i = choose|i: int| 0 <= i < before.len() && before[i] == wanted;
        assert(all[i] == wanted);
    }
}

/// Each merged group has its root.
pub(crate) proof fn lemma_merged_has_root(
    groups: Seq<VehicleGroupView>,
    labels: Seq<int>,
    upto: int,
    i: int,
) -> (root: int)
    requires
        0 <= upto <= groups.len(),
        0 <= i < merged_groups(groups, labels, upto).len(),
    ensures
        0 <= root < upto,
        labels[root] == root,
        merged_groups(groups, labels, upto)[i] == merged_group(
            groups,
            labels,
            root,
            groups.len() as int,
        ),
    decreases upto,
{
    let before = merged_groups(groups, labels, upto - 1);
    if i < before.len() {
        lemma_merged_has_root(groups, labels, upto - 1, i)
    } else {
        upto - 1
    }
}

proof fn lemma_with_group_contains(
    groups: Seq<VehicleGroupView>,
    group: VehicleGroupView,
    x: VehicleGroupView,
)
    ensures
        with_group(groups, group).contains(x) <==> groups.contains(x) || x == group,
    decreases groups.len(),
{
    let result = with_group(groups, group);
    if groups.len() > 0 && group_rank(groups.last(), group) == Rank::After {
        let rest = groups.drop_last();
        lemma_with_group_contains(rest, group, x);
        let placed = with_group(rest, group);
        assert(result =~= placed.push(groups.last()));
        if result.contains(x) {
            let i = choose|i: int| 0 <= i < result.len() && result[i] == x;
            if i < placed.len() {
                assert(placed[i] == x);
                if rest.contains(x) {
                    let k = choose|k: int| 0 <= k < rest.len() && rest[k] == x;
                    assert(groups[k] == x);
                }
            } else {
                assert(groups[groups.len() - 1] == x);
            }
        }
        if groups.contains(x) {
            let i = choose|i: int| 0 <= i < groups.len() && groups[i] == x;
            if i < rest.len() {
                assert(rest[i] == x);
                let k = choose|k: int| 0 <= k < placed.len() && placed[k] == x;
                assert(result[k] == x);
            } else {
                assert(result[placed.len() as int] == x);
            }
        }
        if x == group {
            let k = choose|k: int| 0 <= k < placed.len() && placed[k] == x;
            assert(result[k] == x);
        }
    } else {
        if result.contains(x) {
            let i = choose|i: int| 0 <= i < result.len() && result[i] == x;
            if i < groups.len() {
                assert(groups[i] == x);
            }
        }
        if groups.contains(x) {
            let i = choose|i: int| 0 <= i < groups.len() && groups[i] == x;
            assert(result[i] == x);
        }
        if x == group {
            assert(result[groups.len() as int] == x);
        }
    }
}

/// Putting groups in order neither adds nor loses any.
pub proof fn sorting_keeps_the_groups(groups: Seq<VehicleGroupView>, x: VehicleGroupView)
    ensures
        sorted_groups(groups).contains(x) <==> groups.contains(x),
    decreases groups.len(),
{
    if groups.len() > 0 {
        let rest = groups.drop_last();
        sorting_keeps_the_groups(rest, x);
        lemma_with_group_contains(sorted_groups(rest), groups.last(), x);
        if groups.contains(x) {
            let i = choose|i: int| 0 <= i < groups.len() && groups[i] == x;
            if i < rest.len() {
                assert(rest[i] == x);
            }
        }
        if rest.contains(x) {
            let i = choose|i: int| 0 <= i < rest.len() && rest[i] == x;
            assert(groups[i] == x);
        }
        if x == groups.last() {
            assert(groups[groups.len() - 1] == x);
        }
    }
}

/// Merging loses no lane.
pub proof fn merging_keeps_every_lane(
    g: GraphView,
    groups: Seq<VehicleGroupView>,
    k: int,
    lane: Seq<char>,
)
    requires
        0 <= k < groups.len(),
        groups[k].lanes.contains(lane),
    ensures
        exists|i: int|
            0 <= i < siblings_merged(g, groups).len() && (#[trigger] siblings_merged(
                g,
                groups,
            )[i]).lanes.contains(lane),
{
    let labels = sibling_labels(g, groups);
    let n = groups.len() as int;
    labels_are_positions(g, groups);
    let root = labels[k];
    assert(labels[root] == root);
    lemma_lanes_absorbed(groups, labels, root, n, k, lane);
    lemma_root_is_merged(groups, labels, n, root);
    let found = merged_group(groups, labels, root, n);
    sorting_keeps_the_groups(merged_groups(groups, labels, n), found);
    let result = siblings_merged(g, groups);
    let i = choose|i: int| 0 <= i < result.len() && result[i] == found;
    assert(result[i].lanes.contains(lane));
}

/// Merging brings in no lane, and puts lanes together only where siblings link
/// their groups.
pub proof fn merged_lanes_come_from_linked_groups(
    g: GraphView,
    groups: Seq<VehicleGroupView>,
    i: int,
    a: Seq<char>,
    b: Seq<char>,
)
    requires
        0 <= i < siblings_merged(g, groups).len(),
        siblings_merged(g, groups)[i].lanes.contains(a),
        siblings_merged(g, groups)[i].lanes.contains(b),
    ensures
        exists|k: int, l: int|
            0 <= k < groups.len() && 0 <= l < groups.len() && groups[k].lanes.contains(a)
                && groups[l].lanes.contains(b) && #[trigger] are_linked(g, groups, k, l),
{
    let labels = sibling_labels(g, groups);
    let n = groups.len() as int;
    labels_are_positions(g, groups);
    let merged = merged_groups(groups, labels, n);
    let found = siblings_merged(g, groups)[i];
    assert(siblings_merged(g, groups).contains(found));
    sorting_keeps_the_groups(merged, found);
    let at = choose|at: int| 0 <= at < merged.len() && merged[at] == found;
    let root = lemma_merged_has_root(groups, labels, n, at);
    let k = lemma_lanes_origin(groups, labels, root, n, a);
    let l = lemma_lanes_origin(groups, labels, root, n, b);
    one_label_means_one_chain(g, groups, k, l);
}

proof fn lemma_merged_icon(
    groups: Seq<VehicleGroupView>,
    labels: Seq<int>,
    root: int,
    upto: int,
) -> (k: int)
    requires
        0 <= root < groups.len(),
        upto <= groups.len(),
    ensures
        0 <= k < groups.len(),
        groups[k].icon == merged_group(groups, labels, root, upto).icon,
    decreases upto - root,
{
    if upto <= root + 1 {
        root
    } else {
        let before = merged_group(groups, labels, root, upto - 1);
        if labels[upto - 1] == root && texts_rank(groups[upto - 1].from_edges, before.from_edges)
            == Rank::Before {
            upto - 1
        } else {
            lemma_merged_icon(groups, labels, root, upto - 1)
        }
    }
}

/// A merged group has the icon of one of the groups.
pub proof fn merging_invents_no_icon(g: GraphView, groups: Seq<VehicleGroupView>, i: int)
    requires
        0 <= i < siblings_merged(g, groups).len(),
    ensures
        exists|k: int|
            0 <= k < groups.len() && (#[trigger] groups[k]).icon == siblings_merged(
                g,
                groups,
            )[i].icon,
{
    let labels = sibling_labels(g, groups);
    let n = groups.len() as int;
    let merged = merged_groups(groups, labels, n);
    let found = siblings_merged(g, groups)[i];
    assert(siblings_merged(g, groups).contains(found));
    sorting_keeps_the_groups(merged, found);
    let at = choose|at: int| 0 <= at < merged.len() && merged[at] == found;
    labels_are_positions(g, groups);
    let root = lemma_merged_has_root(groups, labels, n, at);
    let k = lemma_merged_icon(groups, labels, root, n);
    assert(groups[k].icon == found.icon);
}

/// A label that no later group bears leaves its group alone.
proof fn lemma_alone(groups: Seq<VehicleGroupView>, labels: Seq<int>, root: int, upto: int)
    requires
        0 <= root < groups.len(),
        upto <= groups.len(),
        forall|k: int| root < k < upto ==> #[trigger] labels[k] != root,
    ensures
        merged_group(groups, labels, root, upto) == groups[root],
    decreases upto - root,
{
    if upto > root + 1 {
        lemma_alone(groups, labels, root, upto - 1);
    }
}

/// A group without siblings passes through as it is.
pub proof fn a_group_without_siblings_is_kept(g: GraphView, groups: Seq<VehicleGroupView>, i: int)
    requires
        0 <= i < groups.len(),
        forall|j: int|
            0 <= j < groups.len() && j != i ==> !are_siblings(g, groups[i], #[trigger] groups[j]),
    ensures
        siblings_merged(g, groups).contains(groups[i]),
{
    let labels = sibling_labels(g, groups);
    let n = groups.len() as int;
    labels_are_positions(g, groups);
    assert forall|k: int| 0 <= k < n && k != i implies #[trigger] labels[k] != labels[i] by {
        if labels[k] == labels[i] {
            one_label_means_one_chain(g, groups, i, k);
            let path = choose|path: Seq<int>| is_chain(g, groups, path, i, k);
            // find the step that leaves i
            lemma_chain_leaves(g, groups, path, i, k);
        }
    }
    assert(labels[i] == i) by {
        assert(labels[labels[i]] == labels[i]);
        if labels[i] != i {
            assert(labels[labels[i]] != labels[i]);
        }
    }
    assert forall|k: int| i < k < n implies #[trigger] labels[k] != i by {
        assert(labels[k] != labels[i]);
    }
    lemma_alone(groups, labels, i, n);
    lemma_root_is_merged(groups, labels, n, i);
    sorting_keeps_the_groups(merged_groups(groups, labels, n), groups[i]);
}

/// A chain to elsewhere has a step away from where it starts.
proof fn lemma_chain_leaves(
    g: GraphView,
    groups: Seq<VehicleGroupView>,
    path: Seq<int>,
    i: int,
    k: int,
)
    requires
        0 <= i < groups.len(),
        is_chain(g, groups, path, i, k),
        i != k,
    ensures
        exists|j: int|
            0 <= j < groups.len() && j != i && are_siblings(g, groups[i], #[trigger] groups[j]),
    decreases path.len(),
{
    assert(path.len() > 1);
    assert(are_siblings(g, groups[path[0]], groups[path[1]]));
    assert(0 <= path[1] < groups.len());
    if path[1] == i {
        let rest = path.skip(1);
        assert forall|m: int| 0 <= m < rest.len() implies 0 <= #[trigger] rest[m]
            < groups.len() by {
            assert(rest[m] == path[m + 1]);
        }
        assert forall|m: int| 0 <= m < rest.len() - 1 implies are_siblings(
            g,
            groups[#[trigger] rest[m]],
            groups[rest[m + 1]],
        ) by {
            assert(rest[m] == path[m + 1] && rest[m + 1] == path[m + 2]);
        }
        lemma_chain_leaves(g, groups, rest, i, k);
    } else {
        let j = path[1];
        assert(are_siblings(g, groups[i], groups[j]));
    }
}

/// Whether no group comes before an earlier one.
pub open spec fn in_order(groups: Seq<VehicleGroupView>) -> bool {
    forall|i: int, j: int|
        0 <= i < j < groups.len() ==> group_rank(#[trigger] groups[i], #[trigger] groups[j])
            != Rank::After
}

proof fn lemma_group_rank(a: VehicleGroupView, b: VehicleGroupView, c: VehicleGroupView)
    ensures
        group_rank(a, b) == Rank::After <==> group_rank(b, a) == Rank::Before,
        group_rank(a, b) != Rank::After && group_rank(b, c) != Rank::After ==> group_rank(a, c)
            != Rank::After,
{
    texts_order_is_total();
    directions_order_is_total();
    let edges = |x: Seq<Seq<char>>, y: Seq<Seq<char>>| texts_rank(x, y);
    let turns = |x: Seq<ConnectionDirection>, y: Seq<ConnectionDirection>| directions_rank(x, y);
    assert(total(edges) && total(turns));
    assert(edges(a.from_edges, b.from_edges) == Rank::Same <==> a.from_edges == b.from_edges);
    assert(edges(b.from_edges, a.from_edges) == Rank::Same <==> a.from_edges == b.from_edges);
    assert(edges(b.from_edges, c.from_edges) == Rank::Same <==> b.from_edges == c.from_edges);
    assert(edges(a.from_edges, c.from_edges) == Rank::Same <==> a.from_edges == c.from_edges);
    assert(edges(b.from_edges, a.from_edges) == Rank::Before <==> edges(a.from_edges, b.from_edges)
        == Rank::After);
    assert(turns(b.directions, a.directions) == Rank::Before <==> turns(a.directions, b.directions)
        == Rank::After);
    assert(turns(a.directions, b.directions) == Rank::Same <==> a.directions == b.directions);
    assert(turns(b.directions, c.directions) == Rank::Same <==> b.directions == c.directions);
    assert(turns(a.directions, c.directions) == Rank::Same <==> a.directions == c.directions);
    if edges(a.from_edges, b.from_edges) == Rank::Before && edges(b.from_edges, c.from_edges)
        == Rank::Before {
        assert(edges(a.from_edges, c.from_edges) == Rank::Before);
    }
    if turns(a.directions, b.directions) == Rank::Before && turns(b.directions, c.directions)
        == Rank::Before {
        assert(turns(a.directions, c.directions) == Rank::Before);
    }
}

proof fn lemma_with_group_in_order(groups: Seq<VehicleGroupView>, group: VehicleGroupView)
    requires
        in_order(groups),
    ensures
        in_order(with_group(groups, group)),
    decreases groups.len(),
{
    let result = with_group(groups, group);
    if groups.len() > 0 && group_rank(groups.last(), group) == Rank::After {
        let rest = groups.drop_last();
        lemma_with_group_in_order(rest, group);
        let placed = with_group(rest, group);
        assert forall|i: int, j: int| 0 <= i < j < result.len() implies group_rank(
            #[trigger] result[i],
            #[trigger] result[j],
        ) != Rank::After by {
            if j < placed.len() {
                assert(result[i] == placed[i] && result[j] == placed[j]);
            } else {
                assert(placed.contains(placed[i]));
                lemma_with_group_contains(rest, group, placed[i]);
                if rest.contains(placed[i]) {
                    let k = choose|k: int| 0 <= k < rest.len() && rest[k] == placed[i];
                    assert(group_rank(groups[k], groups[groups.len() - 1]) != Rank::After);
                } else {
                    lemma_group_rank(groups.last(), group, group);
                }
            }
        }
    } else {
        assert forall|i: int, j: int| 0 <= i < j < result.len() implies group_rank(
            #[trigger] result[i],
            #[trigger] result[j],
        ) != Rank::After by {
            if j < groups.len() {
                assert(result[i] == groups[i] && result[j] == groups[j]);
            } else {
                assert(result[i] == groups[i]);
                if i < groups.len() - 1 {
                    assert(group_rank(groups[i], groups[groups.len() - 1]) != Rank::After);
                    lemma_group_rank(groups[i], groups.last(), group);
                }
            }
        }
    }
}

/// The merged groups are in order.
pub proof fn merged_groups_are_in_order(g: GraphView, groups: Seq<VehicleGroupView>)
    ensures
        in_order(siblings_merged(g, groups)),
{
    let merged = merged_groups(groups, sibling_labels(g, groups), groups.len() as int);
    lemma_sorted(merged);
}

proof fn lemma_sorted(groups: Seq<VehicleGroupView>)
    ensures
        in_order(sorted_groups(groups)),
    decreases groups.len(),
{
    if groups.len() > 0 {
        lemma_sorted(groups.drop_last());
        lemma_with_group_in_order(sorted_groups(groups.drop_last()), groups.last());
    }
}

} // verus!
