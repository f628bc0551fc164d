//! What holds of the links under signals, and of the movements they make up.

use crate::connectivity::LinkView;
use crate::graph_laws::lemma_filter_holds;
use crate::grouping::{
    controlled, movement_of_links, out_of_range, program_named, signal_of, UngroupedView,
};
use crate::movement::{
    all_directions, directions_label, joined, label_of, merged_movement_name, movement_name,
    sorted_directions, without_colon, MovementView,
};
use crate::network::{ConnectionDirection, Phase, TrafficLightProgram};
use vstd::prelude::*;

verus! {

/// Whether the program at `k` is the first of its id.
pub open spec fn is_first_of(programs: Seq<TrafficLightProgram>, id: Seq<char>, k: int) -> bool {
    0 <= k < programs.len() && programs[k].id@ == id && forall|j: int|
        0 <= j < k ==> (#[trigger] programs[j]).id@ != id
}

proof fn lemma_program_named(programs: Seq<TrafficLightProgram>, id: Seq<char>) -> (k: int)
    ensures
        match program_named(programs, id) {
            Some(program) => is_first_of(programs, id, k) && programs[k] == program,
            None => forall|j: int| 0 <= j < programs.len() ==> (#[trigger] programs[j]).id@ != id,
        },
    decreases programs.len(),
{
    if programs.len() == 0 {
        0
    } else {
        let rest = programs.drop_last();
        let k = lemma_program_named(rest, id);
        assert(program_named(rest, id) is Some ==> program_named(programs, id) == program_named(
            rest,
            id,
        ));
        assert forall|j: int| 0 <= j < rest.len() implies (#[trigger] programs[j]) == rest[j] by {}
        if program_named(rest, id) is Some {
            k
        } else {
            programs.len() - 1
        }
    }
}

/// Whether every phase has a state at `index`.
pub open spec fn reaches_every_phase(phases: Seq<Phase>, index: int) -> bool {
    index >= 0 && !exists|p: int|
        0 <= p < phases.len() && (#[trigger] phases[p]).state@.len() <= index
}

/// Whether a link is under a signal program: the first program of the id that
/// it names has a state at its place in every phase.
pub open spec fn is_under_signal(link: LinkView, programs: Seq<TrafficLightProgram>) -> bool {
    link.traffic_light is Some && link.link_index is Some && exists|k: int| #[trigger]
        is_first_of(programs, link.traffic_light->0, k) && reaches_every_phase(
            programs[k].phases@,
            link.link_index->0 as int,
        )
}

/// Whether a link has no place in the program that it names: there is one of
/// that id, but some phase of the first has no state for the link.
pub open spec fn is_out_of_place(link: LinkView, programs: Seq<TrafficLightProgram>) -> bool {
    link.traffic_light is Some && link.link_index is Some && exists|k: int| #[trigger]
        is_first_of(programs, link.traffic_light->0, k) && !reaches_every_phase(
            programs[k].phases@,
            link.link_index->0 as int,
        )
}

/// A link is under a signal, out of place in its program, or under no signal,
/// by the first program of the id that it names.
pub proof fn a_link_is_signalled_by_the_first_program_of_its_id(
    link: LinkView,
    programs: Seq<TrafficLightProgram>,
)
    ensures
        signal_of(link, programs) is Resolved <==> is_under_signal(link, programs),
        signal_of(link, programs) is OutOfRange <==> is_out_of_place(link, programs),
{
    if link.traffic_light is Some && link.link_index is Some {
        let id = link.traffic_light->0;
        let k = lemma_program_named(programs, id);
        assert forall|j: int| #[trigger] is_first_of(programs, id, j) implies program_named(
            programs,
            id,
        ) is Some && j == k by {
            assert(programs[j].id@ == id);
            if j < k {
            } else if k < j {
                assert(programs[k].id@ != id);
            }
        }
        if let Some(program) = program_named(programs, id) {
            assert(is_first_of(programs, id, k));
        }
    }
}

proof fn lemma_first_kept<T>(items: Seq<T>, wanted: spec_fn(T) -> bool) -> (i: int)
    ensures
        items.filter(wanted).len() > 0 ==> 0 <= i < items.len() && items.filter(wanted)[0]
            == items[i] && wanted(items[i]) && forall|j: int|
            0 <= j < i ==> !wanted(#[trigger] items[j]),
        items.filter(wanted).len() == 0 ==> forall|j: int|
            0 <= j < items.len() ==> !wanted(#[trigger] items[j]),
    decreases items.len(),
{
    reveal(Seq::filter);
    if items.len() == 0 {
        0
    } else {
        let rest = items.drop_last();
        let i = lemma_first_kept(rest, wanted);
        assert forall|j: int| 0 <= j < rest.len() implies (#[trigger] items[j]) == rest[j] by {}
        if rest.filter(wanted).len() > 0 {
            i
        } else {
            assert forall|j: int| 0 <= j < rest.len() implies !wanted(#[trigger] items[j]) by {
                assert(!wanted(rest[j]));
            }
            items.len() - 1
        }
    }
}

/// The place of a turn in the order of turns.
pub open spec fn place_of_turn(d: ConnectionDirection) -> int {
    match d {
        ConnectionDirection::Straight => 1,
        ConnectionDirection::Turn => 2,
        ConnectionDirection::TurnLeftHand => 3,
        ConnectionDirection::Left => 4,
        ConnectionDirection::Right => 5,
        ConnectionDirection::PartialLeft => 6,
        ConnectionDirection::PartialRight => 7,
    }
}

/// Whether turns stand in order, none of them twice.
pub open spec fn turns_in_order(turns: Seq<ConnectionDirection>) -> bool {
    forall|i: int, j: int|
        0 <= i < j < turns.len() ==> place_of_turn(#[trigger] turns[i]) < place_of_turn(
            #[trigger] turns[j],
        )
}

proof fn lemma_filter_in_order(
    turns: Seq<ConnectionDirection>,
    wanted: spec_fn(ConnectionDirection) -> bool,
)
    requires
        turns_in_order(turns),
    ensures
        turns_in_order(turns.filter(wanted)),
    decreases turns.len(),
{
    reveal(Seq::filter);
    if turns.len() > 0 {
        let rest = turns.drop_last();
        assert(turns_in_order(rest)) by {
            assert forall|i: int, j: int| 0 <= i < j < rest.len() implies place_of_turn(
                #[trigger] rest[i],
            ) < place_of_turn(#[trigger] rest[j]) by {
                assert(rest[i] == turns[i] && rest[j] == turns[j]);
            }
        }
        lemma_filter_in_order(rest, wanted);
        let kept = rest.filter(wanted);
        let all = turns.filter(wanted);
        assert forall|i: int, j: int| 0 <= i < j < all.len() implies place_of_turn(
            #[trigger] all[i],
        ) < place_of_turn(#[trigger] all[j]) by {
            assert(all[i] == kept[i]);
            if j < kept.len() {
                assert(all[j] == kept[j]);
            } else {
                assert(kept.contains(kept[i]));
                lemma_filter_holds(rest, wanted, kept[i]);
                let k = choose|k: int| 0 <= k < rest.len() && rest[k] == kept[i];
                assert(turns[k] == kept[i]);
                assert(turns[turns.len() - 1] == all[j]);
            }
        }
    }
}

/// The turns of a movement stand in order, each once, and are the turns given.
pub proof fn turns_are_sorted(turns: Seq<ConnectionDirection>)
    ensures
        turns_in_order(sorted_directions(turns)),
        forall|d: ConnectionDirection| #[trigger]
            sorted_directions(turns).contains(d) <==> turns.contains(d),
{
    let wanted = |d: ConnectionDirection| turns.contains(d);
    lemma_filter_in_order(all_directions(), wanted);
    assert forall|d: ConnectionDirection| #[trigger]
        sorted_directions(turns).contains(d) <==> turns.contains(d) by {
        lemma_filter_holds(all_directions(), wanted, d);
        assert(all_directions()[place_of_turn(d) - 1] == d);
    }
}

/// Whether the link at `i` is the first that is under a signal.
pub open spec fn is_first_under_signal(
    links: Seq<LinkView>,
    programs: Seq<TrafficLightProgram>,
    i: int,
) -> bool {
    0 <= i < links.len() && is_under_signal(links[i], programs) && forall|j: int|
        0 <= j < i ==> !is_under_signal(#[trigger] links[j], programs)
}

/// Whether the link at `i` is the first that is out of place in its program.
pub open spec fn is_first_out_of_place(
    links: Seq<LinkView>,
    programs: Seq<TrafficLightProgram>,
    i: int,
) -> bool {
    0 <= i < links.len() && is_out_of_place(links[i], programs) && forall|j: int|
        0 <= j < i ==> !is_out_of_place(#[trigger] links[j], programs)
}

/// Whether some link under a signal makes this turn.
pub open spec fn turns_under_signal(
    links: Seq<LinkView>,
    programs: Seq<TrafficLightProgram>,
    d: ConnectionDirection,
) -> bool {
    exists|i: int|
        0 <= i < links.len() && is_under_signal(#[trigger] links[i], programs)
            && links[i].direction == d
}

/// A lane has a movement where a link out of it is under a signal. The
/// movement has the edge of the first such link, and the turns of all of them,
/// in order and each once; links that are not under a signal add none.
pub proof fn a_movement_is_made_of_the_links_under_a_signal(
    links: Seq<LinkView>,
    programs: Seq<TrafficLightProgram>,
)
    ensures
        movement_of_links(links, programs) is Ok <==> exists|i: int|
            0 <= i < links.len() && is_under_signal(#[trigger] links[i], programs),
        movement_of_links(links, programs) matches Ok(movement) ==> turns_in_order(
            movement.directions,
        ) && (forall|d: ConnectionDirection| #[trigger]
            movement.directions.contains(d) <==> turns_under_signal(links, programs, d)) && exists|
            i: int,
        | #[trigger]
            is_first_under_signal(links, programs, i) && links[i].from_edge
                == movement.from_edge,
{
    let wanted = |link: LinkView| signal_of(link, programs) is Resolved;
    let kept = links.filter(wanted);
    assert(controlled(links, programs) == kept);
    assert forall|l: LinkView| wanted(l) == #[trigger] is_under_signal(l, programs) by {
        a_link_is_signalled_by_the_first_program_of_its_id(l, programs);
    }
    let first = lemma_first_kept(links, wanted);
    if kept.len() > 0 {
        assert(is_under_signal(links[first], programs));
        assert forall|j: int| 0 <= j < first implies !is_under_signal(
            #[trigger] links[j],
            programs,
        ) by {
            assert(!wanted(links[j]));
            assert(wanted(links[j]) == is_under_signal(links[j], programs));
        }
        assert(is_first_under_signal(links, programs, first));
        let turns = kept.map_values(|link: LinkView| link.direction);
        turns_are_sorted(turns);
        assert forall|d: ConnectionDirection| #[trigger]
            sorted_directions(turns).contains(d) <==> turns_under_signal(links, programs, d) by {
            if turns.contains(d) {
                let k = choose|k: int| 0 <= k < turns.len() && turns[k] == d;
                assert(kept.contains(kept[k]));
                lemma_filter_holds(links, wanted, kept[k]);
                let i = choose|i: int| 0 <= i < links.len() && links[i] == kept[k];
                assert(is_under_signal(links[i], programs));
            }
            if turns_under_signal(links, programs, d) {
                let i = choose|i: int|
                    0 <= i < links.len() && is_under_signal(#[trigger] links[i], programs)
                        && links[i].direction == d;
                assert(wanted(links[i]));
                lemma_filter_holds(links, wanted, links[i]);
                let k = choose|k: int| 0 <= k < kept.len() && kept[k] == links[i];
                assert(turns[k] == d);
            }
        }
    } else {
        assert forall|i: int| 0 <= i < links.len() implies !is_under_signal(
            #[trigger] links[i],
            programs,
        ) by {
            assert(!wanted(links[i]));
        }
    }
}

/// A lane without a movement is told why: it has no links; or the first of its
/// links that is out of place in its program is named, where none is under a
/// signal; or no link names a program that there is.
pub proof fn a_lane_without_a_movement_is_told_why(
    links: Seq<LinkView>,
    programs: Seq<TrafficLightProgram>,
)
    ensures
        movement_of_links(links, programs) matches Err(reason) ==> match reason {
            UngroupedView::NoOutgoingConnection => links.len() == 0,
            UngroupedView::LinkIndexOutOfRange { program, index } => exists|i: int| #[trigger]
                is_first_out_of_place(links, programs, i)
                    && links[i].traffic_light == Some(program) && links[i].link_index == Some(index),
            UngroupedView::NoResolvableProgram => links.len() > 0 && forall|i: int|
                0 <= i < links.len() ==> !is_out_of_place(#[trigger] links[i], programs),
        },
        links.len() == 0 ==> movement_of_links(links, programs) == Err::<
            MovementView,
            UngroupedView,
        >(UngroupedView::NoOutgoingConnection),
{
    let wanted = |link: LinkView| signal_of(link, programs) is OutOfRange;
    let kept = links.filter(wanted);
    assert(out_of_range(links, programs) == kept);
    assert forall|l: LinkView| wanted(l) == #[trigger] is_out_of_place(l, programs) by {
        a_link_is_signalled_by_the_first_program_of_its_id(l, programs);
    }
    let first = lemma_first_kept(links, wanted);
    reveal(Seq::filter);
    if kept.len() > 0 {
        assert(is_out_of_place(links[first], programs));
        assert forall|j: int| 0 <= j < first implies !is_out_of_place(
            #[trigger] links[j],
            programs,
        ) by {
            assert(!wanted(links[j]));
            assert(wanted(links[j]) == is_out_of_place(links[j], programs));
        }
        assert(is_first_out_of_place(links, programs, first));
    } else {
        assert forall|i: int| 0 <= i < links.len() implies !is_out_of_place(
            #[trigger] links[i],
            programs,
        ) by {
            assert(!wanted(links[i]));
        }
    }
}

/// The word for a turn.
pub open spec fn word_for(d: ConnectionDirection) -> Seq<char> {
    match d {
        ConnectionDirection::Straight => "straight"@,
        ConnectionDirection::Turn => "turn"@,
        ConnectionDirection::TurnLeftHand => "turn_left_hand"@,
        ConnectionDirection::Left => "left"@,
        ConnectionDirection::Right => "right"@,
        ConnectionDirection::PartialLeft => "partial_left"@,
        ConnectionDirection::PartialRight => "partial_right"@,
    }
}

/// A name is made up from left to right: it begins with an edge, without the
/// colon that it may begin with; each further edge follows a plus sign; the
/// first turn follows an underscore, and each further one a plus sign.
pub proof fn a_name_lists_edges_and_turns(
    edges: Seq<Seq<char>>,
    edge: Seq<char>,
    turns: Seq<ConnectionDirection>,
    turn: ConnectionDirection,
    plain: Seq<char>,
)
    requires
        edge == plain && (edge.len() > 0 ==> edge[0] != ':') || edge == seq![':'] + plain,
    ensures
        merged_movement_name(seq![edge], seq![turn]) == plain + "_"@ + word_for(turn),
        movement_name(edge, turns) == merged_movement_name(seq![edge], turns),
        turns.len() > 0 ==> merged_movement_name(edges, turns.push(turn)) == merged_movement_name(
            edges,
            turns,
        ) + "+"@ + word_for(turn),
        edges.len() > 0 ==> exists|before: Seq<char>, after: Seq<char>|
            merged_movement_name(edges, turns) == before + after && #[trigger] (before + "+"@ + plain
                + after) == merged_movement_name(edges.push(edge), turns),
{
    assert(without_colon(edge) =~= plain) by {
        if edge == seq![':'] + plain {
            assert(edge[0] == ':');
            assert(edge.skip(1) =~= plain);
        }
    }
    let one = seq![edge].map_values(|e: Seq<char>| without_colon(e));
    assert(one.len() == 1 && one[0] == plain);
    let word = seq![turn].map_values(|d: ConnectionDirection| label_of(d));
    assert(word.len() == 1 && word[0] == word_for(turn));
    let words = turns.map_values(|d: ConnectionDirection| label_of(d));
    let longer = turns.push(turn).map_values(|d: ConnectionDirection| label_of(d));
    assert(longer.drop_last() =~= words);
    assert(longer.last() == word_for(turn));
    if turns.len() > 0 {
        let front = joined(edges.map_values(|e: Seq<char>| without_colon(e))) + "_"@;
        assert(front + (joined(words) + "+"@ + word_for(turn)) =~= (front + joined(words)) + "+"@
            + word_for(turn));
    }
    if edges.len() > 0 {
        let plains = edges.map_values(|e: Seq<char>| without_colon(e));
        let all = edges.push(edge).map_values(|e: Seq<char>| without_colon(e));
        assert(all.drop_last() =~= plains);
        assert(all.last() == plain);
        let before = joined(plains);
        let after = "_"@ + directions_label(turns);
        assert(merged_movement_name(edges, turns) =~= before + after);
        assert(before + "+"@ + plain + after =~= merged_movement_name(edges.push(edge), turns));
    }
}

} // verus!
