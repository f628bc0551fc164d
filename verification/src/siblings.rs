//! Fork siblings: lanes that part at an unsignalled fork, only to wait at one
//! and the same signal. They are one queue, and so one zone.

use crate::connectivity::{
    edge_of, is_among, lane_named, linked, links_from, ConnectivityGraph, GraphView, Link, LinkView,
};
use crate::movement::{compare_directions, directions_order_is_total, directions_rank};
use crate::network::{ConnectionDirection, Point};
use crate::order::{compare_text, compare_texts, text_rank, texts, texts_rank, Rank};
use vstd::prelude::*;

verus! {

/// The lanes of one vehicle movement, and where its zone's icon goes.
#[derive(Debug, PartialEq, Eq)]
pub struct VehicleGroup {
    /// The edges that the lanes belong to.
    pub from_edges: Vec<String>,
    pub directions: Vec<ConnectionDirection>,
    pub lanes: Vec<String>,
    /// The position of the junction that the lanes lead into.
    pub icon: Point,
}

/// What a [`VehicleGroup`] says.
#[verifier::ext_equal]
pub struct VehicleGroupView {
    pub from_edges: Seq<Seq<char>>,
    pub directions: Seq<ConnectionDirection>,
    pub lanes: Seq<Seq<char>>,
    pub icon: Point,
}

impl View for VehicleGroup {
    type V = VehicleGroupView;

    open spec fn view(&self) -> VehicleGroupView {
        VehicleGroupView {
            from_edges: texts(self.from_edges@),
            directions: self.directions@,
            lanes: texts(self.lanes@),
            icon: self.icon,
        }
    }
}

/// What a list of groups says.
pub open spec fn vehicle_group_views(list: Seq<VehicleGroup>) -> Seq<VehicleGroupView> {
    Seq::new(list.len(), |i: int| list[i]@)
}

/// The edges that feed directly into `lane`, but for those whose own traffic
/// a signal holds back: lanes that part behind a signal are separate queues.
pub open spec fn edges_into(g: GraphView, lane: Seq<char>) -> Seq<Seq<char>> {
    g.predecessors(lane).filter(
        |p: Seq<char>| !g.is_signal_controlled(p) && lane_named(g.lanes, p) is Some,
    ).map_values(|p: Seq<char>| edge_of(lane_named(g.lanes, p))->0)
}

/// The edges that feed directly into any of `lanes`.
pub open spec fn feeding_edges(g: GraphView, lanes: Seq<Seq<char>>) -> Seq<Seq<char>>
    decreases lanes.len(),
{
    if lanes.len() == 0 {
        Seq::empty()
    } else {
        feeding_edges(g, lanes.drop_last()) + edges_into(g, lanes.last())
    }
}

/// The signal programs named on the links out of `lane`.
pub open spec fn programs_at(g: GraphView, lane: Seq<char>) -> Seq<Seq<char>> {
    links_from(g.links, lane).filter(|link: LinkView| link.traffic_light is Some).map_values(
        |link: LinkView| link.traffic_light->0,
    )
}

/// The signal programs named on the links out of any of `lanes`.
pub open spec fn programs_of(g: GraphView, lanes: Seq<Seq<char>>) -> Seq<Seq<char>>
    decreases lanes.len(),
{
    if lanes.len() == 0 {
        Seq::empty()
    } else {
        programs_of(g, lanes.drop_last()) + programs_at(g, lanes.last())
    }
}

/// Whether two lists have an item in common.
pub open spec fn overlap<T>(a: Seq<T>, b: Seq<T>) -> bool {
    exists|x: T| #[trigger] a.contains(x) && b.contains(x)
}

/// Whether two groups are fork siblings: they turn alike, share a signal
/// program, and share an edge that feeds them.
#[verifier::opaque]
pub open spec fn are_siblings(g: GraphView, a: VehicleGroupView, b: VehicleGroupView) -> bool {
    a.directions == b.directions && overlap(programs_of(g, a.lanes), programs_of(g, b.lanes))
        && overlap(feeding_edges(g, a.lanes), feeding_edges(g, b.lanes))
}

/// The lowest label among the first `upto` groups that are siblings of
/// `group`, or `otherwise`.
pub open spec fn lowest_label(
    g: GraphView,
    groups: Seq<VehicleGroupView>,
    labels: Seq<int>,
    group: VehicleGroupView,
    upto: nat,
    otherwise: int,
) -> int
    decreases upto,
{
    if upto == 0 {
        otherwise
    } else {
        let k = upto - 1;
        let before = lowest_label(g, groups, labels, group, k as nat, otherwise);
        if are_siblings(g, group, groups[k]) && labels[k] < before {
            labels[k]
        } else {
            before
        }
    }
}

/// Whether a sibling of `group` bears `label`.
pub open spec fn is_joined(
    g: GraphView,
    groups: Seq<VehicleGroupView>,
    labels: Seq<int>,
    group: VehicleGroupView,
    label: int,
) -> bool {
    exists|j: int|
        0 <= j < labels.len() && are_siblings(g, group, #[trigger] groups[j]) && labels[j] == label
}

/// A label for each group: groups that are siblings, directly or through
/// others, bear the same label, the position of the first of them.
pub open spec fn sibling_labels(g: GraphView, groups: Seq<VehicleGroupView>) -> Seq<int>
    decreases groups.len(),
{
    if groups.len() == 0 {
        Seq::empty()
    } else {
        let others = groups.drop_last();
        let group = groups.last();
        let before = sibling_labels(g, others);
        let label = lowest_label(g, others, before, group, others.len(), others.len() as int);
        Seq::new(
            others.len(),
            |k: int|
                if is_joined(g, others, before, group, before[k]) {
                    label
                } else {
                    before[k]
                },
        ).push(label)
    }
}

/// `edges`, which are in order, with `edge` in its place among them.
pub open spec fn with_edge(edges: Seq<Seq<char>>, edge: Seq<char>) -> Seq<Seq<char>>
    decreases edges.len(),
{
    if edges.len() == 0 {
        seq![edge]
    } else {
        match text_rank(edges[0], edge) {
            Rank::Before => seq![edges[0]] + with_edge(edges.drop_first(), edge),
            Rank::Same => edges,
            Rank::After => seq![edge] + edges,
        }
    }
}

/// The edges that occur in `edges`, each once, in order.
pub open spec fn sorted_edges(edges: Seq<Seq<char>>) -> Seq<Seq<char>>
    decreases edges.len(),
{
    if edges.len() == 0 {
        Seq::empty()
    } else {
        with_edge(sorted_edges(edges.drop_last()), edges.last())
    }
}

/// Two siblings as one group. The icon is that of the one whose edges come
/// first.
pub open spec fn absorbed(a: VehicleGroupView, b: VehicleGroupView) -> VehicleGroupView {
    VehicleGroupView {
        from_edges: sorted_edges(a.from_edges + b.from_edges),
        directions: a.directions,
        lanes: a.lanes + b.lanes,
        icon: if texts_rank(b.from_edges, a.from_edges) == Rank::Before {
            b.icon
        } else {
            a.icon
        },
    }
}

/// The first of the groups labelled `root`, with those after it and before
/// `upto` absorbed.
pub open spec fn merged_group(
    groups: Seq<VehicleGroupView>,
    labels: Seq<int>,
    root: int,
    upto: int,
) -> VehicleGroupView
    decreases upto - root,
{
    if upto <= root + 1 {
        groups[root]
    } else {
        let before = merged_group(groups, labels, root, upto - 1);
        if labels[upto - 1] == root {
            absorbed(before, groups[upto - 1])
        } else {
            before
        }
    }
}

/// One group for each label that belongs to one of the first `upto` groups.
pub open spec fn merged_groups(
    groups: Seq<VehicleGroupView>,
    labels: Seq<int>,
    upto: int,
) -> Seq<VehicleGroupView>
    decreases upto,
{
    if upto <= 0 {
        Seq::empty()
    } else {
        let before = merged_groups(groups, labels, upto - 1);
        if labels[upto - 1] == upto - 1 {
            before.push(merged_group(groups, labels, upto - 1, groups.len() as int))
        } else {
            before
        }
    }
}

/// The rank of one group relative to another: by edges, then by directions.
pub open spec fn group_rank(a: VehicleGroupView, b: VehicleGroupView) -> Rank {
    match texts_rank(a.from_edges, b.from_edges) {
        Rank::Same => directions_rank(a.directions, b.directions),
        rank => rank,
    }
}

/// `groups`, which are in order, with `group` behind all that do not come
/// after it.
pub open spec fn with_group(groups: Seq<VehicleGroupView>, group: VehicleGroupView) -> Seq<
    VehicleGroupView,
>
    decreases groups.len(),
{
    if groups.len() > 0 && group_rank(groups.last(), group) == Rank::After {
        with_group(groups.drop_last(), group).push(groups.last())
    } else {
        groups.push(group)
    }
}

/// `groups` in order; those of equal rank stay as they were.
pub open spec fn sorted_groups(groups: Seq<VehicleGroupView>) -> Seq<VehicleGroupView>
    decreases groups.len(),
{
    if groups.len() == 0 {
        Seq::empty()
    } else {
        with_group(sorted_groups(groups.drop_last()), groups.last())
    }
}

/// The groups with all siblings merged, in order.
pub open spec fn siblings_merged(g: GraphView, groups: Seq<VehicleGroupView>) -> Seq<
    VehicleGroupView,
> {
    sorted_groups(merged_groups(groups, sibling_labels(g, groups), groups.len() as int))
}

/// A copy of a list of strings.
pub fn copy_strings(list: &Vec<String>) -> (copy: Vec<String>)
    ensures
        texts(copy@) == texts(list@),
{
    let mut copy: Vec<String> = Vec::new();
    let mut i: usize = 0;
    while i < list.len()
        invariant
            i <= list.len(),
            copy@.len() == i,
            forall|k: int| 0 <= k < i ==> (#[trigger] copy@[k])@ == list@[k]@,
        decreases list.len() - i,
    {
        copy.push(list[i].clone());
        i = i + 1;
    }
    assert(texts(copy@) =~= texts(list@));
    copy
}

/// A copy of a list of directions.
pub fn copy_directions(list: &Vec<ConnectionDirection>) -> (copy: Vec<ConnectionDirection>)
    ensures
        copy@ == list@,
{
    let mut copy: Vec<ConnectionDirection> = Vec::new();
    let mut i: usize = 0;
    while i < list.len()
        invariant
            i <= list.len(),
            copy@ == list@.take(i as int),
        decreases list.len() - i,
    {
        copy.push(list[i]);
        assert(copy@ =~= list@.take(i + 1));
        i = i + 1;
    }
    assert(list@.take(list@.len() as int) =~= list@);
    copy
}

/// The edges that feed directly into any of `lanes`, but for those behind a
/// signal of their own.
pub fn predecessor_edges(lanes: &Vec<String>, graph: &ConnectivityGraph) -> (edges: Vec<String>)
    ensures
        texts(edges@) == feeding_edges(graph@, texts(lanes@)),
{
    let ghost ids = texts(lanes@);
    let ghost g = graph@;
    let ghost wanted = |p: Seq<char>|
        !g.is_signal_controlled(p) && lane_named(g.lanes, p) is Some;
    let ghost edge = |p: Seq<char>| edge_of(lane_named(g.lanes, p))->0;
    let mut edges: Vec<String> = Vec::new();
    assert(ids.take(0) =~= Seq::empty());
    assert(texts(edges@) =~= Seq::empty());
    let mut i: usize = 0;
    while i < lanes.len()
        invariant
            i <= lanes.len(),
            ids == texts(lanes@),
            g == graph@,
            wanted == (|p: Seq<char>|
                !g.is_signal_controlled(p) && lane_named(g.lanes, p) is Some),
            edge == (|p: Seq<char>| edge_of(lane_named(g.lanes, p))->0),
            texts(edges@) == feeding_edges(g, ids.take(i as int)),
        decreases lanes.len() - i,
    {
        let predecessors: Vec<String> = graph.predecessors(lanes[i].as_str());
        let ghost before = texts(edges@);
        let ghost all = texts(predecessors@);
        proof {
            reveal(Seq::filter);
            assert(all.take(0) =~= Seq::empty());
            assert(all.take(0).filter(wanted).map_values(edge) =~= Seq::empty());
            assert(before =~= before + all.take(0).filter(wanted).map_values(edge));
        }
        let mut k: usize = 0;
        while k < predecessors.len()
            invariant
                k <= predecessors.len(),
                all == texts(predecessors@),
                g == graph@,
                wanted == (|p: Seq<char>|
                    !g.is_signal_controlled(p) && lane_named(g.lanes, p) is Some),
                edge == (|p: Seq<char>| edge_of(lane_named(g.lanes, p))->0),
                texts(edges@) == before + all.take(k as int).filter(wanted).map_values(edge),
            decreases predecessors.len() - k,
        {
            let ghost p = all[k as int];
            let ghost so_far = all.take(k as int).filter(wanted);
            proof {
                reveal(Seq::filter);
                assert(all.take(k + 1).drop_last() =~= all.take(k as int));
                assert(all.take(k + 1).last() == p);
                assert(so_far.push(p).map_values(edge) =~= so_far.map_values(edge).push(edge(p)));
            }
            if !graph.is_signal_controlled(predecessors[k].as_str()) {
                match graph.edge(predecessors[k].as_str()) {
                    Some(e) => {
                        let ghost listed = texts(edges@);
                        edges.push(e);
                        assert(texts(edges@) =~= listed.push(edge(p)));
                        assert(texts(edges@) =~= before + so_far.push(p).map_values(edge));
                    },
                    None => {},
                }
            }
            k = k + 1;
        }
        assert(all.take(all.len() as int) =~= all);
        assert(ids.take(i + 1).drop_last() =~= ids.take(i as int));
        assert(ids.take(i + 1).last() == lanes@[i as int]@);
        i = i + 1;
    }
    assert(ids.take(ids.len() as int) =~= ids);
    edges
}

/// The signal programs named on the links out of any of `lanes`.
pub fn controlling_programs(lanes: &Vec<String>, graph: &ConnectivityGraph) -> (programs: Vec<
    String,
>)
    ensures
        texts(programs@) == programs_of(graph@, texts(lanes@)),
{
    let ghost ids = texts(lanes@);
    let ghost g = graph@;
    let ghost wanted = |link: LinkView| link.traffic_light is Some;
    let ghost name = |link: LinkView| link.traffic_light->0;
    let mut programs: Vec<String> = Vec::new();
    assert(ids.take(0) =~= Seq::empty());
    assert(texts(programs@) =~= Seq::empty());
    let mut i: usize = 0;
    while i < lanes.len()
        invariant
            i <= lanes.len(),
            ids == texts(lanes@),
            g == graph@,
            wanted == (|link: LinkView| link.traffic_light is Some),
            name == (|link: LinkView| link.traffic_light->0),
            texts(programs@) == programs_of(g, ids.take(i as int)),
        decreases lanes.len() - i,
    {
        let links: Vec<&Link> = graph.links_from(lanes[i].as_str());
        let ghost before = texts(programs@);
        let ghost all = links_from(g.links, lanes@[i as int]@);
        proof {
            reveal(Seq::filter);
            assert(all.take(0) =~= Seq::empty());
            assert(all.take(0).filter(wanted).map_values(name) =~= Seq::empty());
            assert(before =~= before + all.take(0).filter(wanted).map_values(name));
        }
        let mut k: usize = 0;
        while k < links.len()
            invariant
                k <= links.len(),
                all == linked(links@),
                wanted == (|link: LinkView| link.traffic_light is Some),
                name == (|link: LinkView| link.traffic_light->0),
                texts(programs@) == before + all.take(k as int).filter(wanted).map_values(name),
            decreases links.len() - k,
        {
            let ghost link = all[k as int];
            let ghost so_far = all.take(k as int).filter(wanted);
            assert(link == links@[k as int]@);
            proof {
                reveal(Seq::filter);
                assert(all.take(k + 1).drop_last() =~= all.take(k as int));
                assert(all.take(k + 1).last() == link);
                assert(so_far.push(link).map_values(name) =~= so_far.map_values(name).push(
                    name(link),
                ));
            }
            match &links[k].traffic_light {
                Some(id) => {
                    let ghost listed = texts(programs@);
                    programs.push(id.clone());
                    assert(texts(programs@) =~= listed.push(name(link)));
                    assert(texts(programs@) =~= before + so_far.push(link).map_values(name));
                },
                None => {},
            }
            k = k + 1;
        }
        assert(all.take(all.len() as int) =~= all);
        assert(ids.take(i + 1).drop_last() =~= ids.take(i as int));
        assert(ids.take(i + 1).last() == lanes@[i as int]@);
        i = i + 1;
    }
    assert(ids.take(ids.len() as int) =~= ids);
    programs
}

/// Whether two lists have a string in common.
fn have_overlap(a: &Vec<String>, b: &Vec<String>) -> (found: bool)
    ensures
        found == overlap(texts(a@), texts(b@)),
{
    let mut i: usize = 0;
    while i < a.len()
        invariant
            i <= a.len(),
            forall|k: int| 0 <= k < i ==> !texts(b@).contains((#[trigger] a@[k])@),
        decreases a.len() - i,
    {
        if is_among(b, &a[i]) {
            assert(texts(a@)[i as int] == a@[i as int]@);
            assert(texts(a@).contains(a@[i as int]@));
            return true;
        }
        i = i + 1;
    }
    assert forall|x: Seq<char>| #[trigger] texts(a@).contains(x) implies !texts(b@).contains(x) by {
        let k = choose|k: int| 0 <= k < texts(a@).len() && texts(a@)[k] == x;
        assert(!texts(b@).contains(a@[k]@));
    }
    false
}

/// What decides whether two groups are siblings.
struct Claims {
    edges: Vec<String>,
    programs: Vec<String>,
}

spec fn claims_of(claims: Claims, g: GraphView, group: VehicleGroupView) -> bool {
    texts(claims.edges@) == feeding_edges(g, group.lanes) && texts(claims.programs@)
        == programs_of(g, group.lanes)
}

/// What each group claims.
fn claims(groups: &Vec<VehicleGroup>, graph: &ConnectivityGraph) -> (claims: Vec<Claims>)
    ensures
        claims@.len() == groups@.len(),
        forall|i: int|
            0 <= i < groups@.len() ==> claims_of(#[trigger] claims@[i], graph@, groups@[i]@),
{
    let mut claims: Vec<Claims> = Vec::new();
    let mut i: usize = 0;
    while i < groups.len()
        invariant
            i <= groups.len(),
            claims@.len() == i,
            forall|k: int| 0 <= k < i ==> claims_of(#[trigger] claims@[k], graph@, groups@[k]@),
        decreases groups.len() - i,
    {
        claims.push(
            Claims {
                edges: predecessor_edges(&groups[i].lanes, graph),
                programs: controlling_programs(&groups[i].lanes, graph),
            },
        );
        i = i + 1;
    }
    claims
}

/// Whether two groups are fork siblings.
fn check_siblings(
    a: &VehicleGroup,
    claims_a: &Claims,
    b: &VehicleGroup,
    claims_b: &Claims,
    Ghost(g): Ghost<GraphView>,
) -> (siblings: bool)
    requires
        claims_of(*claims_a, g, a@),
        claims_of(*claims_b, g, b@),
    ensures
        siblings == are_siblings(g, a@, b@),
{
    proof {
        reveal(are_siblings);
        lemma_same_directions(a.directions@, b.directions@);
    }
    match compare_directions(&a.directions, &b.directions) {
        Rank::Same => have_overlap(&claims_a.programs, &claims_b.programs) && have_overlap(
            &claims_a.edges,
            &claims_b.edges,
        ),
        _ => false,
    }
}

/// What a list of labels says.
spec fn label_values(labels: Seq<usize>) -> Seq<int> {
    Seq::new(labels.len(), |i: int| labels[i] as int)
}

/// Labels the groups, so that siblings bear the same label.
#[verifier::spinoff_prover]
fn label_siblings(groups: &Vec<VehicleGroup>, graph: &ConnectivityGraph) -> (labels: Vec<usize>)
    ensures
        label_values(labels@) == sibling_labels(graph@, vehicle_group_views(groups@)),
        labels@.len() == groups@.len(),
{
    let ghost g = graph@;
    let ghost views = vehicle_group_views(groups@);
    let claims: Vec<Claims> = claims(groups, graph);
    let mut labels: Vec<usize> = Vec::new();
    assert(views.take(0) =~= Seq::empty());
    assert(label_values(labels@) =~= Seq::empty());
    let mut m: usize = 0;
    while m < groups.len()
        invariant
            m <= groups.len(),
            g == graph@,
            views == vehicle_group_views(groups@),
            claims@.len() == groups@.len(),
            forall|i: int|
                0 <= i < groups@.len() ==> claims_of(#[trigger] claims@[i], g, groups@[i]@),
            labels@.len() == m,
            label_values(labels@) == sibling_labels(g, views.take(m as int)),
            forall|k: int| 0 <= k < m ==> (#[trigger] labels@[k]) <= k,
        decreases groups.len() - m,
    {
        let ghost others = views.take(m as int);
        let ghost group = views[m as int];
        let ghost before = label_values(labels@);
        assert(views.take(m + 1).drop_last() =~= others);
        assert(views.take(m + 1).last() == group);
        assert(others.len() == m);
        // which labels do siblings of this group bear, and which is lowest
        let mut joined: Vec<bool> = Vec::new();
        let mut label: usize = m;
        let mut k: usize = 0;
        while k < m
            invariant
                k <= m < groups.len(),
                joined@.len() == k,
                forall|l: int| 0 <= l < k ==> !(#[trigger] joined@[l]),
            decreases m - k,
        {
            joined.push(false);
            k = k + 1;
        }
        let mut k: usize = 0;
        while k < m
            invariant
                k <= m < groups.len(),
                g == graph@,
                views == vehicle_group_views(groups@),
                others == views.take(m as int),
                group == views[m as int],
                before == label_values(labels@),
                claims@.len() == groups@.len(),
                forall|i: int|
                    0 <= i < groups@.len() ==> claims_of(#[trigger] claims@[i], g, groups@[i]@),
                labels@.len() == m,
                forall|l: int| 0 <= l < m ==> (#[trigger] labels@[l]) <= l,
                label <= m,
                label == lowest_label(g, others, before, group, k as nat, m as int),
                joined@.len() == m,
                forall|l: int|
                    0 <= l < m ==> ((#[trigger] joined@[l]) <==> exists|j: int|
                        0 <= j < k && are_siblings(g, group, #[trigger] others[j]) && before[j]
                            == l),
            decreases m - k,
        {
            assert(others[k as int] == groups@[k as int]@);
            assert(group == groups@[m as int]@);
            let siblings: bool = check_siblings(
                &groups[m],
                &claims[m],
                &groups[k],
                &claims[k],
                Ghost(g),
            );
            let ghost joined_before = joined@;
            if siblings {
                let known: usize = labels[k];
                joined.set(known, true);
                if known < label {
                    label = known;
                }
            }
            assert forall|l: int| 0 <= l < m implies ((#[trigger] joined@[l]) <==> exists|j: int|
                0 <= j < k + 1 && are_siblings(g, group, #[trigger] others[j]) && before[j]
                    == l) by {
                assert(joined_before[l] <==> exists|j: int|
                    0 <= j < k && are_siblings(g, group, #[trigger] others[j]) && before[j] == l);
                if joined@[l] && !joined_before[l] {
                    assert(are_siblings(g, group, others[k as int]) && before[k as int] == l);
                }
            }
            k = k + 1;
        }
        let ghost expected = sibling_labels(g, views.take(m + 1));
        let mut k: usize = 0;
        while k < m
            invariant
                k <= m < groups.len(),
                others.len() == m,
                before == sibling_labels(g, others),
                before.len() == m,
                label <= m,
                label == lowest_label(g, others, before, group, m as nat, m as int),
                expected == sibling_labels(g, views.take(m + 1)),
                views.take(m + 1).drop_last() == others,
                views.take(m + 1).last() == group,
                views.take(m + 1).len() == m + 1,
                joined@.len() == m,
                forall|l: int|
                    0 <= l < m ==> ((#[trigger] joined@[l]) <==> exists|j: int|
                        0 <= j < m && are_siblings(g, group, #[trigger] others[j]) && before[j]
                            == l),
                labels@.len() == m,
                forall|l: int| 0 <= l < m ==> (#[trigger] labels@[l]) <= l,
                forall|l: int| k <= l < m ==> (#[trigger] labels@[l]) == before[l],
                forall|l: int| 0 <= l < k ==> (#[trigger] labels@[l]) == expected[l],
            decreases m - k,
        {
            let known: usize = labels[k];
            assert(joined@[known as int] == is_joined(g, others, before, group, before[k as int]));
            if joined[known] {
                proof {
                    lemma_lowest_is_low(g, others, before, group, m as nat, m as int, known as int);
                }
                labels.set(k, label);
            }
            k = k + 1;
        }
        labels.push(label);
        assert(label_values(labels@) =~= expected);
        m = m + 1;
    }
    assert(views.take(views.len() as int) =~= views);
    labels
}

proof fn lemma_same_directions(a: Seq<ConnectionDirection>, b: Seq<ConnectionDirection>)
    ensures
        directions_rank(a, b) == Rank::Same <==> a == b,
{
    directions_order_is_total();
    let order = |x: Seq<ConnectionDirection>, y: Seq<ConnectionDirection>| directions_rank(x, y);
    assert(order(a, b) == Rank::Same <==> a == b);
}

/// The lowest label is no higher than that of any sibling.
proof fn lemma_lowest_is_low(
    g: GraphView,
    groups: Seq<VehicleGroupView>,
    labels: Seq<int>,
    group: VehicleGroupView,
    upto: nat,
    otherwise: int,
    label: int,
)
    requires
        upto <= groups.len(),
        exists|j: int|
            0 <= j < upto && are_siblings(g, group, #[trigger] groups[j]) && labels[j] == label,
    ensures
        lowest_label(g, groups, labels, group, upto, otherwise) <= label,
    decreases upto,
{
    let j = choose|j: int|
        0 <= j < upto && are_siblings(g, group, #[trigger] groups[j]) && labels[j] == label;
    if j < upto - 1 {
        lemma_lowest_is_low(g, groups, labels, group, (upto - 1) as nat, otherwise, label);
    }
}

/// The edge goes behind every edge that comes before it.
proof fn lemma_with_edge_skips(edges: Seq<Seq<char>>, edge: Seq<char>, i: int)
    requires
        0 <= i <= edges.len(),
        forall|k: int| 0 <= k < i ==> text_rank(#[trigger] edges[k], edge) == Rank::Before,
    ensures
        with_edge(edges, edge) == edges.take(i) + with_edge(edges.skip(i), edge),
    decreases i,
{
    if i == 0 {
        assert(edges.skip(0) =~= edges);
        assert(edges.take(0) + with_edge(edges, edge) =~= with_edge(edges, edge));
    } else {
        let rest = edges.drop_first();
        assert forall|k: int| 0 <= k < i - 1 implies text_rank(#[trigger] rest[k], edge)
            == Rank::Before by {
            assert(rest[k] == edges[k + 1]);
        }
        lemma_with_edge_skips(rest, edge, i - 1);
        assert(rest.skip(i - 1) =~= edges.skip(i));
        assert(seq![edges[0]] + rest.take(i - 1) =~= edges.take(i));
        assert(text_rank(edges[0], edge) == Rank::Before);
        assert(with_edge(edges, edge) =~= edges.take(i) + with_edge(edges.skip(i), edge));
    }
}

/// Puts `edge` in its place among `edges`, unless it is there.
fn add_edge(edges: &mut Vec<String>, edge: &String)
    ensures
        texts(final(edges)@) == with_edge(texts(old(edges)@), edge@),
{
    let ghost views = texts(edges@);
    let mut i: usize = 0;
    let mut found: bool = false;
    while i < edges.len()
        invariant_except_break
            i <= edges.len(),
            !found,
        invariant
            views == texts(edges@),
            forall|k: int| 0 <= k < i ==> text_rank(#[trigger] views[k], edge@) == Rank::Before,
        ensures
            i <= edges.len(),
            found ==> i < edges.len() && text_rank(views[i as int], edge@) == Rank::Same,
            !found ==> i == edges.len() || text_rank(views[i as int], edge@) == Rank::After,
        decreases edges.len() - i,
    {
        assert(views[i as int] == edges@[i as int]@);
        match compare_text(edges[i].as_str(), edge.as_str()) {
            Rank::Before => {},
            Rank::Same => {
                found = true;
                break;
            },
            Rank::After => {
                break;
            },
        }
        i = i + 1;
    }
    proof {
        lemma_with_edge_skips(views, edge@, i as int);
        if i < views.len() {
            assert(views.skip(i as int)[0] == views[i as int]);
        }
        assert(views.take(i as int) + views.skip(i as int) =~= views);
    }
    if !found {
        edges.insert(i, edge.clone());
        assert(texts(edges@) =~= views.take(i as int) + (seq![edge@] + views.skip(i as int)));
        proof {
            if i == views.len() {
                assert(seq![edge@] + views.skip(i as int) =~= seq![edge@]);
            }
        }
    }
}

/// Adds `more` to the sorted edges of a list so far.
fn add_edges(edges: &mut Vec<String>, more: &Vec<String>, Ghost(so_far): Ghost<Seq<Seq<char>>>)
    requires
        texts(old(edges)@) == sorted_edges(so_far),
    ensures
        texts(final(edges)@) == sorted_edges(so_far + texts(more@)),
{
    let ghost all = texts(more@);
    assert(so_far + all.take(0) =~= so_far);
    let mut i: usize = 0;
    while i < more.len()
        invariant
            i <= more.len(),
            all == texts(more@),
            texts(edges@) == sorted_edges(so_far + all.take(i as int)),
        decreases more.len() - i,
    {
        add_edge(edges, &more[i]);
        proof {
            let next = so_far + all.take(i + 1);
            assert(next.drop_last() =~= so_far + all.take(i as int));
            assert(next.last() == more@[i as int]@);
        }
        i = i + 1;
    }
    assert(all.take(all.len() as int) =~= all);
}

impl VehicleGroup {
    fn copy(&self) -> (copy: VehicleGroup)
        ensures
            copy@ == self@,
    {
        VehicleGroup {
            from_edges: copy_strings(&self.from_edges),
            directions: copy_directions(&self.directions),
            lanes: copy_strings(&self.lanes),
            icon: self.icon,
        }
    }

    /// Takes the lanes and edges of a sibling in.
    fn absorb(&mut self, other: &VehicleGroup)
        ensures
            final(self)@ == absorbed(old(self)@, other@),
    {
        let ghost before = self@;
        match compare_texts(&other.from_edges, &self.from_edges) {
            Rank::Before => {
                self.icon = other.icon;
            },
            _ => {},
        }
        let mut edges: Vec<String> = Vec::new();
        assert(texts(edges@) =~= sorted_edges(Seq::empty()));
        add_edges(&mut edges, &self.from_edges, Ghost(Seq::empty()));
        assert(Seq::empty() + before.from_edges =~= before.from_edges);
        add_edges(&mut edges, &other.from_edges, Ghost(before.from_edges));
        self.from_edges = edges;
        let mut more: Vec<String> = copy_strings(&other.lanes);
        let ghost lanes = texts(self.lanes@);
        let ghost added = texts(more@);
        self.lanes.append(&mut more);
        assert(texts(self.lanes@) =~= lanes + added);
    }

    /// Compares two groups by edges, then by directions.
    fn compare(&self, other: &VehicleGroup) -> (rank: Rank)
        ensures
            rank == group_rank(self@, other@),
    {
        match compare_texts(&self.from_edges, &other.from_edges) {
            Rank::Same => compare_directions(&self.directions, &other.directions),
            rank => rank,
        }
    }
}

/// The group goes before every group at the end that comes after it.
proof fn lemma_with_group_skips(groups: Seq<VehicleGroupView>, group: VehicleGroupView, i: int)
    requires
        0 <= i <= groups.len(),
        forall|k: int|
            i <= k < groups.len() ==> group_rank(#[trigger] groups[k], group) == Rank::After,
    ensures
        with_group(groups, group) == with_group(groups.take(i), group) + groups.skip(i),
    decreases groups.len() - i,
{
    if i == groups.len() {
        assert(groups.take(i) =~= groups);
        assert(with_group(groups, group) + groups.skip(i) =~= with_group(groups, group));
    } else {
        let rest = groups.drop_last();
        assert(group_rank(groups[groups.len() - 1], group) == Rank::After);
        lemma_with_group_skips(rest, group, i);
        assert(rest.take(i) =~= groups.take(i));
        assert(rest.skip(i).push(groups.last()) =~= groups.skip(i));
        assert(with_group(groups, group) =~= with_group(groups.take(i), group) + groups.skip(i));
    }
}

/// Puts `group` in its place among `groups`.
fn add_group(groups: &mut Vec<VehicleGroup>, group: VehicleGroup)
    ensures
        vehicle_group_views(final(groups)@) == with_group(
            vehicle_group_views(old(groups)@),
            group@,
        ),
{
    let ghost views = vehicle_group_views(groups@);
    let mut i: usize = groups.len();
    while i > 0
        invariant_except_break
            i <= groups.len(),
        invariant
            views == vehicle_group_views(groups@),
            forall|k: int|
                i <= k < groups.len() ==> group_rank(#[trigger] views[k], group@) == Rank::After,
        ensures
            i <= groups.len(),
            i == 0 || group_rank(views[i - 1], group@) != Rank::After,
        decreases i,
    {
        assert(views[i - 1] == groups@[i - 1]@);
        match groups[i - 1].compare(&group) {
            Rank::After => {},
            _ => {
                break;
            },
        }
        i = i - 1;
    }
    proof {
        lemma_with_group_skips(views, group@, i as int);
        if i > 0 {
            assert(views.take(i as int).last() == views[i - 1]);
        }
    }
    let ghost added = group@;
    groups.insert(i, group);
    assert(vehicle_group_views(groups@) =~= views.take(i as int).push(added) + views.skip(i as int));
}

/// Merges fork siblings into one group each. Groups without siblings pass
/// through as they are. The result is in order.
pub fn merge_fork_sibling_groups(
    groups: &Vec<VehicleGroup>,
    graph: &ConnectivityGraph,
) -> (merged: Vec<VehicleGroup>)
    ensures
        vehicle_group_views(merged@) == siblings_merged(graph@, vehicle_group_views(groups@)),
{
    let ghost views = vehicle_group_views(groups@);
    let ghost values = sibling_labels(graph@, views);
    let labels: Vec<usize> = label_siblings(groups, graph);
    let mut merged: Vec<VehicleGroup> = Vec::new();
    assert(vehicle_group_views(merged@) =~= Seq::empty());
    let mut root: usize = 0;
    while root < groups.len()
        invariant
            root <= groups.len(),
            views == vehicle_group_views(groups@),
            values == label_values(labels@),
            labels@.len() == groups@.len(),
            vehicle_group_views(merged@) == sorted_groups(
                merged_groups(views, values, root as int),
            ),
        decreases groups.len() - root,
    {
        assert(values[root as int] == labels@[root as int]);
        if labels[root] == root {
            let mut group: VehicleGroup = groups[root].copy();
            assert(group@ == views[root as int]);
            let mut k: usize = root + 1;
            while k < groups.len()
                invariant
                    root < k <= groups.len(),
                    views == vehicle_group_views(groups@),
                    values == label_values(labels@),
                    labels@.len() == groups@.len(),
                    group@ == merged_group(views, values, root as int, k as int),
                decreases groups.len() - k,
            {
                assert(values[k as int] == labels@[k as int]);
                assert(views[k as int] == groups@[k as int]@);
                if labels[k] == root {
                    group.absorb(&groups[k]);
                }
                k = k + 1;
            }
            proof {
                let before = merged_groups(views, values, root as int);
                assert(before.push(group@).drop_last() =~= before);
            }
            add_group(&mut merged, group);
        }
        root = root + 1;
    }
    merged
}

} // verus!
