//! The lane that each lane leads into, where there is only one.

use crate::connectivity::{
    distinct, graph_of, linked, links_from, ConnectivityGraph, GraphView, Link, LinkView,
};
use crate::network::Network;
use crate::order::optional_text;
use crate::ring::{least, least_is_the_first, lemma_least};
use vstd::prelude::*;

verus! {

/// A lane that another leads into, and the internal lane between them.
#[derive(Debug, PartialEq, Eq)]
pub struct Successor {
    pub lane: String,
    pub via: Option<String>,
}

/// What a [`Successor`] says.
#[verifier::ext_equal]
pub struct SuccessorView {
    pub lane: Seq<char>,
    pub via: Option<Seq<char>>,
}

impl View for Successor {
    type V = SuccessorView;

    open spec fn view(&self) -> SuccessorView {
        SuccessorView { lane: self.lane@, via: optional_text(self.via) }
    }
}

/// The one lane that `lane` leads into, as the first link to it tells; none
/// where `lane` leads into several lanes, or into none.
pub open spec fn single_successor(graph: GraphView, lane: Seq<char>) -> Option<SuccessorView> {
    let out = links_from(graph.links, lane);
    if graph.successors(lane).len() == 1 {
        match least(out.len(), |i: int| out[i].to is Some) {
            Some(i) => Some(
                SuccessorView { lane: out[i as int].to->0, via: out[i as int].via },
            ),
            None => None,
        }
    } else {
        None
    }
}

/// The lanes of a network and the one lane that each leads into, where there
/// is only one.
pub struct Successors {
    graph: ConnectivityGraph,
}

/// The single successors of a network's lanes.
pub fn single_successors(network: &Network) -> (successors: Successors)
    ensures
        successors@ == graph_of(*network),
{
    Successors { graph: ConnectivityGraph::of(network) }
}

impl Successors {
    /// How the lanes connect.
    pub closed spec fn view(&self) -> GraphView {
        self.graph@
    }

    /// The one lane that `lane` leads into.
    pub fn get(&self, lane: &str) -> (successor: Option<Successor>)
        ensures
            match successor {
                Some(s) => single_successor(self@, lane@) == Some(s@),
                None => single_successor(self@, lane@) is None,
            },
    {
        if self.graph.successor_lane_count(lane) != 1 {
            return None;
        }
        let links: Vec<&Link> = self.graph.links_from(lane);
        let ghost out = links_from(self@.links, lane@);
        let ghost known = |i: int| out[i].to is Some;
        let mut i: usize = 0;
        while i < links.len()
            invariant
                i <= links@.len(),
                linked(links@) == out,
                known == (|i: int| out[i].to is Some),
                out == links_from(self@.links, lane@),
                self@.successors(lane@).len() == 1,
                least(i as nat, known) is None,
            decreases links@.len() - i,
        {
            let link: &Link = links[i];
            assert(out[i as int] == link@);
            match &link.to {
                Some(to) => {
                    proof {
                        assert(known(i as int));
                        lemma_least(out.len(), known, i as nat);
                    }
                    let via: Option<String> = match &link.via {
                        Some(via) => Some(via.clone()),
                        None => None,
                    };
                    return Some(Successor { lane: to.clone(), via });
                },
                None => {},
            }
            assert(!known(i as int));
            i = i + 1;
        }
        None
    }
}

proof fn lemma_distinct_holds<T>(items: Seq<T>)
    ensures
        forall|i: int| 0 <= i < items.len() ==> distinct(items).contains(#[trigger] items[i]),
        items.len() > 0 ==> distinct(items).len() > 0,
        distinct(items).len() > 0 ==> items.len() > 0,
    decreases items.len(),
{
    if items.len() > 0 {
        let rest = items.drop_last();
        let before = distinct(rest);
        lemma_distinct_holds(rest);
        assert forall|i: int| 0 <= i < items.len() implies distinct(items).contains(
            #[trigger] items[i],
        ) by {
            if i < rest.len() {
                assert(before.contains(rest[i]));
                let k = choose|k: int| 0 <= k < before.len() && before[k] == rest[i];
                assert(distinct(items)[k] == items[i]);
            } else if !before.contains(items[i]) {
                assert(distinct(items)[before.len() as int] == items[i]);
            }
        }
        if before.contains(items.last()) {
            let k = choose|k: int| 0 <= k < before.len() && before[k] == items.last();
            assert(before.len() > 0);
        }
    }
}

/// Whether the links out of `lane` to known lanes all lead into `to`.
pub open spec fn leads_only_into(graph: GraphView, lane: Seq<char>, to: Seq<char>) -> bool {
    let out = links_from(graph.links, lane);
    forall|i: int| 0 <= i < out.len() && (#[trigger] out[i]).to is Some ==> out[i].to == Some(to)
}

/// A lane has a single successor where it leads into one known lane; it then
/// leads into no other.
pub proof fn a_single_successor_is_the_only_one(graph: GraphView, lane: Seq<char>)
    ensures
        single_successor(graph, lane) is Some <==> graph.successors(lane).len() == 1,
        match single_successor(graph, lane) {
            Some(s) => leads_only_into(graph, lane, s.lane),
            None => true,
        },
{
    let out = links_from(graph.links, lane);
    let known = |link: LinkView| link.to is Some;
    let kept = out.filter(known);
    let targets = kept.map_values(|link: LinkView| link.to->0);
    let wanted = |i: int| out[i].to is Some;
    out.filter_lemma(known);
    lemma_distinct_holds(targets);
    least_is_the_first(out.len(), wanted);
    assert forall|i: int| 0 <= i < out.len() && (#[trigger] out[i]).to is Some implies distinct(
        targets,
    ).contains(out[i].to->0) by {
        assert(known(out[i]));
        assert(kept.contains(out[i]));
        let k = choose|k: int| 0 <= k < kept.len() && kept[k] == out[i];
        assert(targets[k] == out[i].to->0);
    }
    if graph.successors(lane).len() == 1 {
        assert(kept.len() > 0);
        assert(known(kept[0]));
        assert(kept.contains(kept[0]));
        lemma_filter_comes_from(out, known, 0);
        let first = choose|i: int| 0 <= i < out.len() && out[i] == kept[0];
        assert(wanted(first));
        let s = single_successor(graph, lane)->0;
        assert(distinct(targets).contains(s.lane));
        assert forall|i: int| 0 <= i < out.len() && (#[trigger] out[i]).to is Some implies out[i].to
            == Some(s.lane) by {
            assert(distinct(targets).contains(out[i].to->0));
        }
    }
}

proof fn lemma_filter_comes_from<T>(items: Seq<T>, wanted: spec_fn(T) -> bool, k: int)
    requires
        0 <= k < items.filter(wanted).len(),
    ensures
        exists|i: int| 0 <= i < items.len() && items[i] == items.filter(wanted)[k],
    decreases items.len(),
{
    reveal(Seq::filter);
    if items.len() > 0 {
        let rest = items.drop_last();
        if k < rest.filter(wanted).len() {
            lemma_filter_comes_from(rest, wanted, k);
            let i = choose|i: int| 0 <= i < rest.len() && rest[i] == rest.filter(wanted)[k];
            assert(items[i] == items.filter(wanted)[k]);
        } else {
            assert(items[items.len() - 1] == items.filter(wanted)[k]);
        }
    }
}

} // verus!
