//! Which movement a lane belongs to, and the lanes of a junction grouped by
//! movement.

use crate::connectivity::{linked, links_from, ConnectivityGraph, GraphView, Link, LinkView};
use crate::decimal::{add_decimal, decimal};
use crate::movement::{movement_rank, sort_directions, sorted_directions, MovementKey, MovementView};
use crate::network::{
    index_resolves, link_index_in_range, ConnectionDirection, TrafficLightProgram,
};
use crate::order::{texts, Rank};
use vstd::hash_map::StringHashMap;
use vstd::prelude::*;

verus! {

/// The first item of `items` that `wanted` picks.
pub open spec fn first_where<T>(items: Seq<T>, wanted: spec_fn(T) -> bool) -> Option<T>
    decreases items.len(),
{
    if items.len() == 0 {
        None
    } else {
        match first_where(items.drop_last(), wanted) {
            Some(item) => Some(item),
            None => if wanted(items.last()) {
                Some(items.last())
            } else {
                None
            },
        }
    }
}

/// The program that bears `id`; of several, the first.
pub open spec fn program_named(programs: Seq<TrafficLightProgram>, id: Seq<char>) -> Option<
    TrafficLightProgram,
> {
    first_where(programs, |program: TrafficLightProgram| program.id@ == id)
}

/// The signal programs of a network under their ids.
pub struct SignalPrograms<'a> {
    programs: &'a Vec<TrafficLightProgram>,
    first_by_id: StringHashMap<usize>,
}

impl<'a> View for SignalPrograms<'a> {
    type V = Seq<TrafficLightProgram>;

    closed spec fn view(&self) -> Seq<TrafficLightProgram> {
        self.programs@
    }
}

spec fn programs_agree(
    table: Map<Seq<char>, usize>,
    programs: Seq<TrafficLightProgram>,
    count: int,
) -> bool {
    forall|id: Seq<char>|
        match #[trigger] program_named(programs.take(count), id) {
            Some(program) => table.contains_key(id) && table[id] < programs.len()
                && programs[table[id] as int] == program,
            None => !table.contains_key(id),
        }
}

impl<'a> SignalPrograms<'a> {
    #[verifier::type_invariant]
    spec fn well_formed(&self) -> bool {
        programs_agree(self.first_by_id@, self.programs@, self.programs@.len() as int)
    }

    /// The programs, those listed first taking precedence.
    pub fn of(programs: &'a Vec<TrafficLightProgram>) -> (signals: SignalPrograms<'a>)
        ensures
            signals@ == programs@,
    {
        let mut first_by_id: StringHashMap<usize> = StringHashMap::new();
        assert(programs@.take(0) =~= Seq::empty());
        let mut i: usize = 0;
        while i < programs.len()
            invariant
                i <= programs.len(),
                programs_agree(first_by_id@, programs@, i as int),
            decreases programs.len() - i,
        {
            let ghost before = programs@.take(i as int);
            let ghost after = programs@.take(i + 1);
            let ghost table = first_by_id@;
            assert(after.drop_last() =~= before);
            assert(program_named(before, programs@[i as int].id@) == program_named(
                before,
                programs@[i as int].id@,
            ));
            if !first_by_id.contains_key(programs[i].id.as_str()) {
                first_by_id.insert(programs[i].id.clone(), i);
            }
            assert forall|id: Seq<char>|
                match #[trigger] program_named(after, id) {
                    Some(program) => first_by_id@.contains_key(id) && first_by_id@[id]
                        < programs.len() && programs@[first_by_id@[id] as int] == program,
                    None => !first_by_id@.contains_key(id),
                } by {
                assert(program_named(before, id) == program_named(before, id));
            }
            i = i + 1;
        }
        SignalPrograms { programs, first_by_id }
    }

    /// The program that bears `id`.
    pub fn get(&self, id: &str) -> (program: Option<&TrafficLightProgram>)
        ensures
            match program {
                Some(p) => program_named(self@, id@) == Some(*p),
                None => program_named(self@, id@) is None,
            },
    {
        proof {
            use_type_invariant(self);
            assert(self.programs@.take(self.programs@.len() as int) =~= self.programs@);
            assert(program_named(self.programs@, id@) == program_named(self.programs@, id@));
        }
        match self.first_by_id.get(id) {
            Some(i) => Some(&self.programs[*i]),
            None => None,
        }
    }
}

/// What becomes of a link when its signal program is looked up.
pub enum LinkSignal {
    /// No signal controls the link, as far as the programs say.
    Absent,
    /// The program has a state for the link in every phase.
    Resolved,
    /// The program is there, but some phase has no state for the link.
    OutOfRange,
}

/// Whether a signal controls `link`.
pub open spec fn signal_of(link: LinkView, programs: Seq<TrafficLightProgram>) -> LinkSignal {
    match (link.traffic_light, link.link_index) {
        (Some(id), Some(index)) => match program_named(programs, id) {
            Some(program) => if index_resolves(program.phases@, index as int) {
                LinkSignal::Resolved
            } else {
                LinkSignal::OutOfRange
            },
            None => LinkSignal::Absent,
        },
        _ => LinkSignal::Absent,
    }
}

/// Why a lane belongs to no movement.
#[derive(Debug, PartialEq, Eq)]
pub enum UngroupedReason {
    /// The lane has no outgoing connection at all.
    NoOutgoingConnection,
    /// None of its connections is controlled by a signal program that the
    /// network defines.
    NoResolvableProgram,
    /// A connection names a program whose phases are too short for it. Of the
    /// three, this alone means that the network is malformed.
    LinkIndexOutOfRange { program: String, index: i32 },
}

/// What an [`UngroupedReason`] says.
#[verifier::ext_equal]
pub enum UngroupedView {
    NoOutgoingConnection,
    NoResolvableProgram,
    LinkIndexOutOfRange { program: Seq<char>, index: i32 },
}

impl View for UngroupedReason {
    type V = UngroupedView;

    open spec fn view(&self) -> UngroupedView {
        match self {
            UngroupedReason::NoOutgoingConnection => UngroupedView::NoOutgoingConnection,
            UngroupedReason::NoResolvableProgram => UngroupedView::NoResolvableProgram,
            UngroupedReason::LinkIndexOutOfRange { program, index } => {
                UngroupedView::LinkIndexOutOfRange { program: program@, index: *index }
            },
        }
    }
}

/// What is said of a lane that belongs to no movement.
pub open spec fn reason_text(reason: UngroupedView) -> Seq<char> {
    match reason {
        UngroupedView::NoOutgoingConnection => "no outgoing connection in the network at all"@,
        UngroupedView::NoResolvableProgram => {
            "none of its connections are signal-controlled (no `tl` naming a program this file defines)"@
        },
        UngroupedView::LinkIndexOutOfRange { program, index } => {
            "connection's linkIndex "@ + decimal(index as int) + " is out of range for tlLogic \""@
                + program + "\"'s phases"@
        },
    }
}

impl UngroupedReason {
    /// The reason in words.
    pub fn message(&self) -> (text: String)
        ensures
            text@ == reason_text(self@),
    {
        match self {
            UngroupedReason::NoOutgoingConnection => {
                "no outgoing connection in the network at all".to_owned()
            },
            UngroupedReason::NoResolvableProgram => {
                "none of its connections are signal-controlled (no `tl` naming a program this file defines)".to_owned()
            },
            UngroupedReason::LinkIndexOutOfRange { program, index } => {
                let mut text: String = "connection's linkIndex ".to_owned();
                add_decimal(&mut text, *index);
                text.append(" is out of range for tlLogic \"");
                text.append(program.as_str());
                text.append("\"'s phases");
                text
            },
        }
    }
}

/// The links that a signal controls.
pub open spec fn controlled(links: Seq<LinkView>, programs: Seq<TrafficLightProgram>) -> Seq<
    LinkView,
> {
    links.filter(|link: LinkView| signal_of(link, programs) is Resolved)
}

/// The links that their program has no room for.
pub open spec fn out_of_range(links: Seq<LinkView>, programs: Seq<TrafficLightProgram>) -> Seq<
    LinkView,
> {
    links.filter(|link: LinkView| signal_of(link, programs) is OutOfRange)
}

/// The movement of a lane with these links out of it: the edge and the
/// directions of those that a signal controls. Where there are none, a link
/// out of its program's range is the reason given before any other.
pub open spec fn movement_of_links(
    links: Seq<LinkView>,
    programs: Seq<TrafficLightProgram>,
) -> Result<MovementView, UngroupedView> {
    let under_signal = controlled(links, programs);
    let missed = out_of_range(links, programs);
    if links.len() == 0 {
        Err(UngroupedView::NoOutgoingConnection)
    } else if under_signal.len() > 0 {
        Ok(
            MovementView {
                from_edge: under_signal[0].from_edge,
                directions: sorted_directions(
                    under_signal.map_values(|link: LinkView| link.direction),
                ),
            },
        )
    } else if missed.len() > 0 {
        Err(
            UngroupedView::LinkIndexOutOfRange {
                program: missed[0].traffic_light->0,
                index: missed[0].link_index->0,
            },
        )
    } else {
        Err(UngroupedView::NoResolvableProgram)
    }
}

/// The movement of `lane`.
pub open spec fn movement_of_lane(
    g: GraphView,
    programs: Seq<TrafficLightProgram>,
    lane: Seq<char>,
) -> Result<MovementView, UngroupedView> {
    movement_of_links(links_from(g.links, lane), programs)
}

/// The movement of `lane`, or why it belongs to none. A program is asked only
/// whether it has a state for a link, never what that state is.
pub fn group_key_for_lane(
    lane: &str,
    graph: &ConnectivityGraph,
    programs: &SignalPrograms,
) -> (key: Result<MovementKey, UngroupedReason>)
    ensures
        match key {
            Ok(k) => movement_of_lane(graph@, programs@, lane@) == Ok::<
                MovementView,
                UngroupedView,
            >(k@),
            Err(reason) => movement_of_lane(graph@, programs@, lane@) == Err::<
                MovementView,
                UngroupedView,
            >(reason@),
        },
{
    let links: Vec<&Link> = graph.links_from(lane);
    let ghost views = links_from(graph@.links, lane@);
    assert(links@.len() == views.len());
    if links.len() == 0 {
        return Err(UngroupedReason::NoOutgoingConnection);
    }
    let mut from_edge: Option<String> = None;
    let mut directions: Vec<ConnectionDirection> = Vec::new();
    let mut missed: Option<(String, i32)> = None;
    let ghost direction = |link: LinkView| link.direction;
    proof {
        reveal(Seq::filter);
        assert(views.take(0) =~= Seq::empty());
        assert(directions@ =~= controlled(views.take(0), programs@).map_values(direction));
    }
    let mut i: usize = 0;
    while i < links.len()
        invariant
            i <= links.len(),
            linked(links@) == views,
            direction == (|link: LinkView| link.direction),
            directions@ == controlled(views.take(i as int), programs@).map_values(direction),
            match from_edge {
                Some(edge) => controlled(views.take(i as int), programs@).len() > 0 && controlled(
                    views.take(i as int),
                    programs@,
                )[0].from_edge == edge@,
                None => controlled(views.take(i as int), programs@).len() == 0,
            },
            match missed {
                Some(m) => out_of_range(views.take(i as int), programs@).len() > 0 && out_of_range(
                    views.take(i as int),
                    programs@,
                )[0].traffic_light == Some(m.0@) && out_of_range(
                    views.take(i as int),
                    programs@,
                )[0].link_index == Some(m.1),
                None => out_of_range(views.take(i as int), programs@).len() == 0,
            },
        decreases links.len() - i,
    {
        let link: &Link = links[i];
        assert(views[i as int] == link@);
        proof {
            reveal(Seq::filter);
            let next = views.take(i + 1);
            assert(next.drop_last() =~= views.take(i as int));
            assert(next.last() == link@);
            assert(controlled(views.take(i as int), programs@).push(link@).map_values(direction)
                =~= controlled(views.take(i as int), programs@).map_values(direction).push(
                link@.direction,
            ));
        }
        match (&link.traffic_light, link.link_index) {
            (Some(id), Some(index)) => match programs.get(id.as_str()) {
                Some(program) => {
                    if link_index_in_range(program, index) {
                        if from_edge.is_none() {
                            from_edge = Some(link.from_edge.clone());
                        }
                        directions.push(link.direction);
                    } else if missed.is_none() {
                        missed = Some((id.clone(), index));
                    }
                },
                None => {},
            },
            _ => {},
        }
        i = i + 1;
    }
    assert(views.take(views.len() as int) =~= views);
    match from_edge {
        Some(from_edge) => Ok(
            MovementKey { from_edge, directions: sort_directions(&directions) },
        ),
        None => match missed {
            Some((program, index)) => Err(
                UngroupedReason::LinkIndexOutOfRange { program, index },
            ),
            None => Err(UngroupedReason::NoResolvableProgram),
        },
    }
}

/// The lanes that share a movement.
#[derive(Debug, PartialEq, Eq)]
pub struct MovementGroup {
    pub movement: MovementKey,
    pub lanes: Vec<String>,
}

/// What a [`MovementGroup`] says.
#[verifier::ext_equal]
pub struct GroupView {
    pub movement: MovementView,
    pub lanes: Seq<Seq<char>>,
}

impl View for MovementGroup {
    type V = GroupView;

    open spec fn view(&self) -> GroupView {
        GroupView { movement: self.movement@, lanes: texts(self.lanes@) }
    }
}

/// What a list of groups says.
pub open spec fn group_views(list: Seq<MovementGroup>) -> Seq<GroupView> {
    Seq::new(list.len(), |i: int| list[i]@)
}

/// `groups`, which are ordered by movement, with `lane` added to the group of
/// its movement, or as a new group in its place.
pub open spec fn with_lane(groups: Seq<GroupView>, movement: MovementView, lane: Seq<char>) -> Seq<
    GroupView,
>
    decreases groups.len(),
{
    let alone = seq![GroupView { movement, lanes: seq![lane] }];
    if groups.len() == 0 {
        alone
    } else {
        let first = groups[0];
        match movement_rank(first.movement, movement) {
            Rank::Before => seq![first] + with_lane(groups.drop_first(), movement, lane),
            Rank::Same => seq![GroupView { movement: first.movement, lanes: first.lanes.push(lane) }]
                + groups.drop_first(),
            Rank::After => alone + groups,
        }
    }
}

/// `lanes` grouped by movement, in the order of the movements; lanes without a
/// movement are left out.
pub open spec fn groups_of(
    g: GraphView,
    programs: Seq<TrafficLightProgram>,
    lanes: Seq<Seq<char>>,
) -> Seq<GroupView>
    decreases lanes.len(),
{
    if lanes.len() == 0 {
        Seq::empty()
    } else {
        let before = groups_of(g, programs, lanes.drop_last());
        match movement_of_lane(g, programs, lanes.last()) {
            Ok(movement) => with_lane(before, movement, lanes.last()),
            Err(_) => before,
        }
    }
}

/// The lane goes behind every group whose movement comes before its own.
proof fn lemma_with_lane_skips(
    groups: Seq<GroupView>,
    movement: MovementView,
    lane: Seq<char>,
    i: int,
)
    requires
        0 <= i <= groups.len(),
        forall|k: int|
            0 <= k < i ==> movement_rank((#[trigger] groups[k]).movement, movement) == Rank::Before,
    ensures
        with_lane(groups, movement, lane) == groups.take(i) + with_lane(
            groups.skip(i),
            movement,
            lane,
        ),
    decreases i,
{
    if i == 0 {
        assert(groups.skip(0) =~= groups);
        assert(groups.take(0) + with_lane(groups, movement, lane) =~= with_lane(
            groups,
            movement,
            lane,
        ));
    } else {
        let rest = groups.drop_first();
        assert forall|k: int| 0 <= k < i - 1 implies movement_rank(
            (#[trigger] rest[k]).movement,
            movement,
        ) == Rank::Before by {
            assert(rest[k] == groups[k + 1]);
        }
        lemma_with_lane_skips(rest, movement, lane, i - 1);
        assert(rest.skip(i - 1) =~= groups.skip(i));
        assert(seq![groups[0]] + rest.take(i - 1) =~= groups.take(i));
        assert(movement_rank(groups[0].movement, movement) == Rank::Before);
        assert(with_lane(groups, movement, lane) =~= groups.take(i) + with_lane(
            groups.skip(i),
            movement,
            lane,
        ));
    }
}

/// Adds `lane` to the group of its movement.
fn add_lane(groups: &mut Vec<MovementGroup>, movement: MovementKey, lane: &str)
    ensures
        group_views(final(groups)@) == with_lane(group_views(old(groups)@), movement@, lane@),
{
    let ghost views = group_views(groups@);
    let mut i: usize = 0;
    let mut found: bool = false;
    while i < groups.len()
        invariant_except_break
            i <= groups.len(),
            !found,
        invariant
            views == group_views(groups@),
            forall|k: int|
                0 <= k < i ==> movement_rank((#[trigger] views[k]).movement, movement@)
                    == Rank::Before,
        ensures
            i <= groups.len(),
            found ==> i < groups.len() && movement_rank(views[i as int].movement, movement@)
                == Rank::Same,
            !found ==> i == groups.len() || movement_rank(views[i as int].movement, movement@)
                == Rank::After,
        decreases groups.len() - i,
    {
        assert(views[i as int] == groups@[i as int]@);
        match groups[i].movement.compare(&movement) {
            Rank::Before => {},
            Rank::Same => {
                found = true;
                break;
            },
            Rank::After => {
                break;
            },
        }
        i = i + 1;
    }
    proof {
        lemma_with_lane_skips(views, movement@, lane@, i as int);
        if i < views.len() {
            assert(views.skip(i as int)[0] == views[i as int]);
            assert(views.skip(i as int).drop_first() =~= views.skip(i + 1));
        }
    }
    if found {
        let ghost known = groups@[i as int]@;
        let mut group: MovementGroup = groups.remove(i);
        group.lanes.push(lane.to_owned());
        assert(texts(group.lanes@) =~= known.lanes.push(lane@));
        groups.insert(i, group);
        assert(group_views(groups@) =~= views.take(i as int) + (seq![
            GroupView { movement: known.movement, lanes: known.lanes.push(lane@) },
        ] + views.skip(i + 1)));
    } else {
        let mut lanes: Vec<String> = Vec::new();
        lanes.push(lane.to_owned());
        assert(texts(lanes@) =~= seq![lane@]);
        let group: MovementGroup = MovementGroup { movement, lanes };
        let ghost alone = seq![group@];
        groups.insert(i, group);
        assert(group_views(groups@) =~= views.take(i as int) + (alone + views.skip(i as int)));
        proof {
            if i == views.len() {
                assert(alone + views.skip(i as int) =~= alone);
            }
        }
    }
}

/// Groups `lanes` by movement. A lane without one is left out.
pub fn group_lanes(
    lanes: &Vec<String>,
    graph: &ConnectivityGraph,
    programs: &SignalPrograms,
) -> (groups: Vec<MovementGroup>)
    ensures
        group_views(groups@) == groups_of(graph@, programs@, texts(lanes@)),
{
    let ghost ids = texts(lanes@);
    let mut groups: Vec<MovementGroup> = Vec::new();
    assert(ids.take(0) =~= Seq::empty());
    assert(group_views(groups@) =~= Seq::empty());
    let mut i: usize = 0;
    while i < lanes.len()
        invariant
            i <= lanes.len(),
            ids == texts(lanes@),
            group_views(groups@) == groups_of(graph@, programs@, ids.take(i as int)),
        decreases lanes.len() - i,
    {
        assert(ids.take(i + 1).drop_last() =~= ids.take(i as int));
        assert(ids.take(i + 1).last() == lanes@[i as int]@);
        match group_key_for_lane(lanes[i].as_str(), graph, programs) {
            Ok(movement) => {
                add_lane(&mut groups, movement, lanes[i].as_str());
            },
            Err(_) => {},
        }
        i = i + 1;
    }
    assert(ids.take(ids.len() as int) =~= ids);
    groups
}

} // verus!
