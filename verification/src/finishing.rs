//! How what is drawn for a zone is finished: one part of it is kept, its rings
//! are cleaned, and it is cut where it still meets itself.

use crate::cleaning::{
    cleaned_or_kept, cutting_needles_ends, drifts, drop_needle_vertex, drop_negligible_vertices_everywhere_in,
    needle_step, optional_ring_views, part_without_negligible, polygon_left, rings_left, turn_at,
    turns, RingStep, RingStepView, Turn,
};
use crate::cutting::no_polygon;
use crate::double::Double;
use crate::plane::Coord;
use crate::polygons::{
    copy_polygon, copy_polygons, drop_slivers, keep_part_near, part_to_keep, parts_worth_keeping,
};
use crate::ring::{
    closed_if_any, drop_grazing_vertices, open_ring, opened, optional_coords, without_grazing,
};
use crate::splitting::{
    polygon_views, split_part, split_part_fully, Polygon, PolygonView, MAX_SPLIT_DEPTH,
};
use vstd::prelude::*;

verus! {

/// What is to be done next.
#[derive(Debug, PartialEq, Eq)]
pub enum FinishAction {
    /// Measure the area of each part, and tell whether it holds the stop line.
    Weigh(Vec<Polygon>),
    /// Measure each of these turns, in degrees.
    Measure(Vec<Turn>),
    /// Stop; these parts are left.
    Finish(Vec<Polygon>),
}

/// What a [`FinishAction`] says.
#[verifier::ext_equal]
pub enum FinishActionView {
    Weigh(Seq<PolygonView>),
    Measure(Seq<Turn>),
    Finish(Seq<PolygonView>),
}

impl View for FinishAction {
    type V = FinishActionView;

    open spec fn view(&self) -> FinishActionView {
        match self {
            FinishAction::Weigh(parts) => FinishActionView::Weigh(polygon_views(parts@)),
            FinishAction::Measure(turns) => FinishActionView::Measure(turns@),
            FinishAction::Finish(parts) => FinishActionView::Finish(polygon_views(parts@)),
        }
    }
}

/// What is being waited for.
#[derive(Clone, Copy, Debug, PartialEq, Eq, Structural)]
pub enum FinishStage {
    /// Which of the pieces of a part holds the stop line.
    Splitting,
    /// Which of the parts holds the stop line.
    Gathering,
    /// The turns of a ring.
    Turning,
    /// The areas of the part as it was and as it is when clean.
    Comparing,
    /// The areas of the pieces that the part falls into.
    Sifting,
    /// Which of the larger pieces holds the stop line.
    Choosing,
    /// Nothing.
    Ended,
}

/// A ring without the vertices that graze it; nothing where no triangle is
/// left.
pub open spec fn grazed(ring: Seq<Coord>) -> Option<Seq<Coord>> {
    closed_if_any(without_grazing(opened(ring)))
}

/// The rings of a part, the outer one first, without the vertices that graze
/// them.
pub open spec fn grazed_rings(part: PolygonView) -> Seq<Option<Seq<Coord>>> {
    seq![grazed(part.exterior)] + part.interiors.map_values(|ring: Seq<Coord>| grazed(ring))
}

/// The turns at the vertices of an open ring.
pub open spec fn turns_of(coords: Seq<Coord>) -> Seq<Turn> {
    Seq::new(coords.len(), |i: int| turn_at(coords, i))
}

/// The outer one of the rings of a part, if it is left.
pub open spec fn outer(rings: Seq<Option<Seq<Coord>>>) -> Option<Seq<Coord>> {
    if rings.len() == 0 {
        None
    } else {
        rings[0]
    }
}

/// How far the finishing of a zone has come.
#[verifier::ext_equal]
pub struct FinishingView {
    pub stage: FinishStage,
    /// The parts that have not been cut where they meet themselves.
    pub todo: Seq<PolygonView>,
    /// What is kept of those that have.
    pub done: Seq<PolygonView>,
    /// The parts that are being weighed.
    pub asked: Seq<PolygonView>,
    /// The part that is being cleaned.
    pub part: PolygonView,
    /// Those of its rings that may have needles.
    pub rest: Seq<Option<Seq<Coord>>>,
    /// The ring, open, whose turns are being measured.
    pub ring: Seq<Coord>,
    /// Those of its rings that have none, the outer one first.
    pub clean: Seq<Option<Seq<Coord>>>,
}

impl FinishingView {
    /// These parts are weighed.
    pub open spec fn weigh(self, stage: FinishStage, parts: Seq<PolygonView>) -> (
        FinishingView,
        FinishActionView,
    ) {
        (FinishingView { stage, asked: parts, ..self }, FinishActionView::Weigh(parts))
    }

    /// These parts are what is left.
    pub open spec fn finish(self, parts: Seq<PolygonView>) -> (FinishingView, FinishActionView) {
        (FinishingView { stage: FinishStage::Ended, ..self }, FinishActionView::Finish(parts))
    }

    /// The next part is cut where it meets itself. Where it falls into several
    /// pieces, one of them is kept. Spikes that cutting the zone has left are
    /// not taken off before that.
    pub open spec fn split_next(self) -> (FinishingView, FinishActionView)
        decreases self.todo.len(),
    {
        if self.todo.len() == 0 {
            self.gather()
        } else {
            let pieces = split_part(self.todo[0], MAX_SPLIT_DEPTH as nat);
            let next = FinishingView { todo: self.todo.skip(1), ..self };
            if pieces.len() > 1 {
                next.weigh(FinishStage::Splitting, pieces)
            } else {
                FinishingView { done: self.done + pieces, ..next }.split_next()
            }
        }
    }

    /// One of the parts is kept: a zone is one area that begins at its stop
    /// line.
    pub open spec fn gather(self) -> (FinishingView, FinishActionView) {
        if self.done.len() > 1 {
            self.weigh(FinishStage::Gathering, self.done)
        } else if self.done.len() == 1 {
            self.tidy(self.done[0])
        } else {
            self.finish(Seq::empty())
        }
    }

    /// The rings of a part are cleaned.
    pub open spec fn tidy(self, part: PolygonView) -> (FinishingView, FinishActionView) {
        FinishingView { part, rest: grazed_rings(part), clean: Seq::empty(), ..self }.next_ring()
    }

    /// The next ring is freed of needles. Where the outer ring is gone, the
    /// part stays as it was.
    pub open spec fn next_ring(self) -> (FinishingView, FinishActionView)
        decreases self.rest.len(),
    {
        if self.rest.len() == 0 || self.clean.len() > 0 && outer(self.clean) is None {
            let next = FinishingView { clean: Seq::empty(), ..self };
            match outer(self.clean) {
                Some(exterior) => next.weigh(
                    FinishStage::Comparing,
                    seq![
                        self.part,
                        PolygonView { exterior, interiors: rings_left(self.clean.skip(1)) },
                    ],
                ),
                None => next.sift(self.part),
            }
        } else {
            let next = FinishingView { rest: self.rest.skip(1), ..self };
            match self.rest[0] {
                Some(ring) => next.turn(opened(ring)),
                None => FinishingView { clean: self.clean.push(None), ..next }.next_ring(),
            }
        }
    }

    /// The turns of an open ring are measured.
    pub open spec fn turn(self, ring: Seq<Coord>) -> (FinishingView, FinishActionView) {
        (
            FinishingView { stage: FinishStage::Turning, ring, ..self },
            FinishActionView::Measure(turns_of(ring)),
        )
    }

    /// What follows when the turns of the ring measure `turned` degrees.
    pub open spec fn after_measuring(self, turned: Seq<Double>) -> (
        FinishingView,
        FinishActionView,
    ) {
        match needle_step(self.ring, turned) {
            RingStepView::Collapsed => FinishingView {
                clean: self.clean.push(None),
                ..self
            }.next_ring(),
            RingStepView::Next(left) => self.turn(left),
            RingStepView::Done(ring) => FinishingView {
                clean: self.clean.push(Some(ring)),
                ..self
            }.next_ring(),
        }
    }

    /// The part loses the vertices that hardly matter, and is cut where it
    /// meets itself.
    pub open spec fn sift(self, part: PolygonView) -> (FinishingView, FinishActionView) {
        self.weigh(
            FinishStage::Sifting,
            split_part(part_without_negligible(part), MAX_SPLIT_DEPTH as nat),
        )
    }

    /// The one of the weighed parts to keep.
    pub open spec fn chosen(self, held: Seq<bool>, areas: Seq<Double>) -> PolygonView {
        self.asked[part_to_keep(held, areas)]
    }

    /// What follows when the weighed parts have these areas, and hold the stop
    /// line or not.
    pub open spec fn after_weighing(self, held: Seq<bool>, areas: Seq<Double>) -> (
        FinishingView,
        FinishActionView,
    ) {
        match self.stage {
            FinishStage::Splitting => FinishingView {
                done: self.done.push(self.chosen(held, areas)),
                ..self
            }.split_next(),
            FinishStage::Gathering => self.tidy(self.chosen(held, areas)),
            FinishStage::Comparing => self.sift(
                if drifts(areas[0], areas[1]) {
                    self.asked[0]
                } else {
                    self.asked[1]
                },
            ),
            FinishStage::Sifting => {
                let kept = parts_worth_keeping(self.asked, areas, self.asked.len());
                if kept.len() > 1 {
                    self.weigh(FinishStage::Choosing, kept)
                } else {
                    self.finish(kept)
                }
            },
            _ => self.finish(seq![self.chosen(held, areas)]),
        }
    }

    /// Whether weights are waited for.
    pub open spec fn awaits_weights(self) -> bool {
        match self.stage {
            FinishStage::Splitting => self.asked.len() > 1,
            FinishStage::Gathering => self.asked.len() > 1,
            FinishStage::Turning => false,
            FinishStage::Comparing => self.asked.len() == 2,
            FinishStage::Sifting => true,
            FinishStage::Choosing => self.asked.len() > 1,
            FinishStage::Ended => false,
        }
    }
}

/// Where the finishing of a zone with these parts begins. A pedestrian zone is
/// not cut before one part of it is kept: its corners lie close together.
pub open spec fn finishing_start(parts: Seq<PolygonView>, pedestrian: bool) -> (
    FinishingView,
    FinishActionView,
) {
    let start = FinishingView {
        stage: FinishStage::Ended,
        todo: Seq::empty(),
        done: Seq::empty(),
        asked: Seq::empty(),
        part: no_polygon(),
        rest: Seq::empty(),
        ring: Seq::empty(),
        clean: Seq::empty(),
    };
    if pedestrian {
        FinishingView { done: parts, ..start }.gather()
    } else {
        FinishingView { todo: parts, ..start }.split_next()
    }
}

/// The finishing of a zone. It says what to do; whoever does it says what came
/// of it.
pub struct Finishing {
    stage: FinishStage,
    todo: Vec<Polygon>,
    done: Vec<Polygon>,
    asked: Vec<Polygon>,
    part: Polygon,
    rest: Vec<Option<Vec<Coord>>>,
    ring: Vec<Coord>,
    clean: Vec<Option<Vec<Coord>>>,
}

impl View for Finishing {
    type V = FinishingView;

    closed spec fn view(&self) -> FinishingView {
        FinishingView {
            stage: self.stage,
            todo: polygon_views(self.todo@),
            done: polygon_views(self.done@),
            asked: polygon_views(self.asked@),
            part: self.part@,
            rest: optional_ring_views(self.rest@),
            ring: self.ring@,
            clean: optional_ring_views(self.clean@),
        }
    }
}

impl Finishing {
    /// Begins to finish a zone with these parts.
    pub fn start(parts: Vec<Polygon>, pedestrian: bool) -> (begun: (Finishing, FinishAction))
        ensures
            (begun.0@, begun.1@) == finishing_start(polygon_views(parts@), pedestrian),
    {
        let mut finishing: Finishing = Finishing {
            stage: FinishStage::Ended,
            todo: Vec::new(),
            done: Vec::new(),
            asked: Vec::new(),
            part: Polygon { exterior: Vec::new(), interiors: Vec::new() },
            rest: Vec::new(),
            ring: Vec::new(),
            clean: Vec::new(),
        };
        proof {
            assert(polygon_views(finishing.todo@) =~= Seq::empty());
            assert(polygon_views(finishing.done@) =~= Seq::empty());
            assert(polygon_views(finishing.asked@) =~= Seq::empty());
            assert(optional_ring_views(finishing.rest@) =~= Seq::empty());
            assert(optional_ring_views(finishing.clean@) =~= Seq::empty());
            assert(finishing.part@ =~= no_polygon());
        }
        let action: FinishAction = if pedestrian {
            finishing.done = parts;
            finishing.gather()
        } else {
            finishing.todo = parts;
            finishing.split_next()
        };
        (finishing, action)
    }

    fn weigh(&mut self, stage: FinishStage, parts: Vec<Polygon>) -> (action: FinishAction)
        ensures
            (final(self)@, action@) == old(self)@.weigh(stage, polygon_views(parts@)),
    {
        self.stage = stage;
        self.asked = copy_polygons(&parts);
        FinishAction::Weigh(parts)
    }

    fn finish(&mut self, parts: Vec<Polygon>) -> (action: FinishAction)
        ensures
            (final(self)@, action@) == old(self)@.finish(polygon_views(parts@)),
    {
        self.stage = FinishStage::Ended;
        FinishAction::Finish(parts)
    }

    fn split_next(&mut self) -> (action: FinishAction)
        ensures
            (final(self)@, action@) == old(self)@.split_next(),
    {
        let ghost start = self@;
        while self.todo.len() > 0
            invariant
                start == old(self)@,
                self@.split_next() == start.split_next(),
            decreases self.todo@.len(),
        {
            let ghost before = self@;
            assert(before.todo.len() == self.todo@.len());
            let part: Polygon = self.todo.remove(0);
            assert(part@ == before.todo[0]);
            assert(polygon_views(self.todo@) =~= before.todo.skip(1));
            let mut pieces: Vec<Polygon> = split_part_fully(part, MAX_SPLIT_DEPTH);
            let ghost split = polygon_views(pieces@);
            assert(split.len() == pieces@.len());
            if pieces.len() > 1 {
                return self.weigh(FinishStage::Splitting, pieces);
            }
            self.done.append(&mut pieces);
            assert(polygon_views(self.done@) =~= before.done + split);
        }
        assert(self@.todo.len() == 0);
        self.gather()
    }

    fn gather(&mut self) -> (action: FinishAction)
        ensures
            (final(self)@, action@) == old(self)@.gather(),
    {
        assert(self@.done.len() == self.done@.len());
        if self.done.len() > 1 {
            let parts: Vec<Polygon> = copy_polygons(&self.done);
            self.weigh(FinishStage::Gathering, parts)
        } else if self.done.len() == 1 {
            let part: Polygon = copy_polygon(&self.done[0]);
            self.tidy(part)
        } else {
            let none: Vec<Polygon> = Vec::new();
            assert(polygon_views(none@) =~= Seq::empty());
            self.finish(none)
        }
    }

    fn tidy(&mut self, part: Polygon) -> (action: FinishAction)
        ensures
            (final(self)@, action@) == old(self)@.tidy(part@),
    {
        let mut rest: Vec<Option<Vec<Coord>>> = Vec::new();
        rest.push(drop_grazing_vertices(&part.exterior));
        let mut i: usize = 0;
        while i < part.interiors.len()
            invariant
                i <= part.interiors@.len(),
                rest@.len() == i + 1,
                optional_coords(rest@[0]) == grazed(part.exterior@),
                forall|k: int|
                    0 <= k < i ==> optional_coords(#[trigger] rest@[k + 1]) == grazed(
                        part.interiors@[k]@,
                    ),
            decreases part.interiors@.len() - i,
        {
            rest.push(drop_grazing_vertices(&part.interiors[i]));
            i = i + 1;
        }
        proof {
            let views = optional_ring_views(rest@);
            let wanted = grazed_rings(part@);
            assert forall|k: int| 0 <= k < views.len() implies views[k] == wanted[k] by {
                if k > 0 {
                    assert(optional_coords(rest@[(k - 1) + 1]) == grazed(part.interiors@[k - 1]@));
                }
            }
            assert(views =~= wanted);
        }
        self.part = part;
        self.rest = rest;
        self.clean = Vec::new();
        assert(optional_ring_views(self.clean@) =~= Seq::empty());
        self.next_ring()
    }

    fn next_ring(&mut self) -> (action: FinishAction)
        ensures
            (final(self)@, action@) == old(self)@.next_ring(),
    {
        let ghost start = self@;
        while self.rest.len() > 0 && !(self.clean.len() > 0 && self.clean[0].is_none())
            invariant
                start == old(self)@,
                self@.next_ring() == start.next_ring(),
            decreases self.rest@.len(),
        {
            let ghost before = self@;
            assert(before.rest.len() == self.rest@.len());
            assert(before.clean.len() == self.clean@.len());
            assert(before.clean.len() > 0 ==> before.clean[0] == optional_coords(self.clean@[0]));
            let ring: Option<Vec<Coord>> = self.rest.remove(0);
            assert(optional_coords(ring) == before.rest[0]);
            assert(optional_ring_views(self.rest@) =~= before.rest.skip(1));
            match ring {
                Some(ring) => {
                    let coords: Vec<Coord> = open_ring(&ring);
                    return self.turn(coords);
                },
                None => {
                    self.clean.push(None);
                    assert(optional_ring_views(self.clean@) =~= before.clean.push(None));
                },
            }
        }
        let ghost before = self@;
        assert(before.rest.len() == self.rest@.len());
        assert(before.clean.len() == self.clean@.len());
        assert(before.clean.len() > 0 ==> before.clean[0] == optional_coords(self.clean@[0]));
        let part: Polygon = copy_polygon(&self.part);
        let mut rings: Vec<Option<Vec<Coord>>> = Vec::new();
        std::mem::swap(&mut rings, &mut self.clean);
        assert(optional_ring_views(self.clean@) =~= Seq::empty());
        if rings.len() > 0 {
            let exterior: Option<Vec<Coord>> = rings.remove(0);
            assert(optional_coords(exterior) == before.clean[0]);
            assert(optional_ring_views(rings@) =~= before.clean.skip(1));
            match exterior {
                Some(exterior) => {
                    let candidate: Polygon = polygon_left(exterior, rings);
                    let ghost views = seq![part@, candidate@];
                    let mut pair: Vec<Polygon> = Vec::new();
                    pair.push(part);
                    pair.push(candidate);
                    assert(polygon_views(pair@) =~= views);
                    return self.weigh(FinishStage::Comparing, pair);
                },
                None => {},
            }
        }
        self.sift(part)
    }

    fn turn(&mut self, ring: Vec<Coord>) -> (action: FinishAction)
        ensures
            (final(self)@, action@) == old(self)@.turn(ring@),
    {
        let asked: Vec<Turn> = turns(&ring);
        assert(asked@ =~= turns_of(ring@));
        self.stage = FinishStage::Turning;
        self.ring = ring;
        FinishAction::Measure(asked)
    }

    fn sift(&mut self, part: Polygon) -> (action: FinishAction)
        ensures
            (final(self)@, action@) == old(self)@.sift(part@),
    {
        let left: Polygon = drop_negligible_vertices_everywhere_in(part);
        let pieces: Vec<Polygon> = split_part_fully(left, MAX_SPLIT_DEPTH);
        self.weigh(FinishStage::Sifting, pieces)
    }

    /// Tells what the turns measure, in degrees.
    pub fn measured(&mut self, turned: &Vec<Double>) -> (action: FinishAction)
        requires
            old(self)@.stage == FinishStage::Turning,
            turned@.len() == old(self)@.ring.len(),
        ensures
            (final(self)@, action@) == old(self)@.after_measuring(turned@),
    {
        let ghost before = self@;
        match drop_needle_vertex(&self.ring, turned) {
            RingStep::Collapsed => {
                self.clean.push(None);
                assert(optional_ring_views(self.clean@) =~= before.clean.push(None));
                self.next_ring()
            },
            RingStep::Next(left) => self.turn(left),
            RingStep::Done(ring) => {
                let ghost added = ring@;
                self.clean.push(Some(ring));
                assert(optional_ring_views(self.clean@) =~= before.clean.push(Some(added)));
                self.next_ring()
            },
        }
    }

    /// Tells whether each of the weighed parts holds the stop line, and its
    /// area.
    pub fn weighed(&mut self, held: &Vec<bool>, areas: &Vec<Double>) -> (action: FinishAction)
        requires
            old(self)@.awaits_weights(),
            held@.len() == old(self)@.asked.len(),
            areas@.len() == old(self)@.asked.len(),
        ensures
            (final(self)@, action@) == old(self)@.after_weighing(held@, areas@),
    {
        let ghost before = self@;
        let asked: Vec<Polygon> = copy_polygons(&self.asked);
        assert(polygon_views(asked@).len() == asked@.len());
        assert(before.asked == polygon_views(asked@));
        match self.stage {
            FinishStage::Splitting => {
                let mut kept: Vec<Polygon> = keep_part_near(asked, held, areas);
                let ghost added = polygon_views(kept@);
                self.done.append(&mut kept);
                assert(polygon_views(self.done@) =~= before.done + added);
                assert(before.done + added =~= before.done.push(before.chosen(held@, areas@)));
                self.split_next()
            },
            FinishStage::Gathering => {
                let mut kept: Vec<Polygon> = keep_part_near(asked, held, areas);
                assert(polygon_views(kept@)[0] == before.chosen(held@, areas@));
                assert(polygon_views(kept@).len() == kept@.len());
                let part: Polygon = kept.remove(0);
                self.tidy(part)
            },
            FinishStage::Comparing => {
                let part: Polygon = copy_polygon(&asked[0]);
                let cleaned: Polygon = copy_polygon(&asked[1]);
                assert(part@ == before.asked[0]);
                assert(cleaned@ == before.asked[1]);
                let kept: Polygon = cleaned_or_kept(part, cleaned, areas[0], areas[1]);
                self.sift(kept)
            },
            FinishStage::Sifting => {
                let kept: Vec<Polygon> = drop_slivers(asked, areas);
                assert(polygon_views(kept@).len() == kept@.len());
                if kept.len() > 1 {
                    self.weigh(FinishStage::Choosing, kept)
                } else {
                    self.finish(kept)
                }
            },
            _ => {
                let kept: Vec<Polygon> = keep_part_near(asked, held, areas);
                self.finish(kept)
            },
        }
    }
}

/// Whether at most one part is left where the finishing stops.
pub open spec fn leaves_one_part(step: (FinishingView, FinishActionView)) -> bool {
    match step.1 {
        FinishActionView::Finish(parts) => parts.len() <= 1,
        _ => true,
    }
}

proof fn next_ring_leaves_one_part(v: FinishingView)
    ensures
        leaves_one_part(v.next_ring()),
    decreases v.rest.len(),
{
    if v.rest.len() > 0 && v.rest[0] is None {
        next_ring_leaves_one_part(
            FinishingView { rest: v.rest.skip(1), clean: v.clean.push(None), ..v },
        );
    }
}

proof fn tidy_leaves_one_part(v: FinishingView, part: PolygonView)
    ensures
        leaves_one_part(v.tidy(part)),
{
    next_ring_leaves_one_part(
        FinishingView { part, rest: grazed_rings(part), clean: Seq::empty(), ..v },
    );
}

proof fn split_next_leaves_one_part(v: FinishingView)
    ensures
        leaves_one_part(v.split_next()),
    decreases v.todo.len(),
{
    if v.todo.len() == 0 {
        tidy_leaves_one_part(v, v.done[0]);
    } else {
        let pieces = split_part(v.todo[0], MAX_SPLIT_DEPTH as nat);
        split_next_leaves_one_part(
            FinishingView { todo: v.todo.skip(1), done: v.done + pieces, ..v },
        );
    }
}

/// A zone that is finished has one part at most, whatever is told of its parts
/// on the way.
pub proof fn at_most_one_part_is_left(
    v: FinishingView,
    parts: Seq<PolygonView>,
    pedestrian: bool,
    turned: Seq<Double>,
    held: Seq<bool>,
    areas: Seq<Double>,
)
    ensures
        leaves_one_part(finishing_start(parts, pedestrian)),
        leaves_one_part(v.after_measuring(turned)),
        leaves_one_part(v.after_weighing(held, areas)),
{
    let begun = FinishingView {
        stage: FinishStage::Ended,
        todo: Seq::empty(),
        done: Seq::empty(),
        asked: Seq::empty(),
        part: no_polygon(),
        rest: Seq::empty(),
        ring: Seq::empty(),
        clean: Seq::empty(),
    };
    split_next_leaves_one_part(FinishingView { todo: parts, ..begun });
    tidy_leaves_one_part(FinishingView { done: parts, ..begun }, parts[0]);
    next_ring_leaves_one_part(FinishingView { clean: v.clean.push(None), ..v });
    if let RingStepView::Done(ring) = needle_step(v.ring, turned) {
        next_ring_leaves_one_part(FinishingView { clean: v.clean.push(Some(ring)), ..v });
    }
    split_next_leaves_one_part(
        FinishingView { done: v.done.push(v.chosen(held, areas)), ..v },
    );
    tidy_leaves_one_part(v, v.chosen(held, areas));
}

/// How far the end is: the stages that are still to come, the parts or rings
/// that wait in this one, and the vertices of the ring at hand.
pub open spec fn distance_to_end(v: FinishingView) -> (nat, nat, nat) {
    match v.stage {
        FinishStage::Splitting => (6, v.todo.len(), 0),
        FinishStage::Gathering => (5, 0, 0),
        FinishStage::Turning => (4, v.rest.len(), v.ring.len()),
        FinishStage::Comparing => (3, 0, 0),
        FinishStage::Sifting => (2, 0, 0),
        FinishStage::Choosing => (1, 0, 0),
        FinishStage::Ended => (0, 0, 0),
    }
}

/// Whether one distance is less than another: what comes first weighs most.
pub open spec fn is_nearer(a: (nat, nat, nat), b: (nat, nat, nat)) -> bool {
    a.0 < b.0 || a.0 == b.0 && (a.1 < b.1 || a.1 == b.1 && a.2 < b.2)
}

proof fn next_ring_is_near(v: FinishingView, far: nat)
    requires
        v.rest.len() <= far,
    ensures
        is_nearer(distance_to_end(v.next_ring().0), (4, far, 0)),
    decreases v.rest.len(),
{
    if v.rest.len() > 0 && v.rest[0] is None {
        next_ring_is_near(
            FinishingView { rest: v.rest.skip(1), clean: v.clean.push(None), ..v },
            far,
        );
    }
}

proof fn tidy_is_near(v: FinishingView, part: PolygonView)
    ensures
        distance_to_end(v.tidy(part).0).0 <= 4,
{
    let rest = grazed_rings(part);
    next_ring_is_near(FinishingView { part, rest, clean: Seq::empty(), ..v }, rest.len());
}

proof fn split_next_is_near(v: FinishingView)
    ensures
        is_nearer(distance_to_end(v.split_next().0), (6, v.todo.len(), 0)),
    decreases v.todo.len(),
{
    if v.todo.len() == 0 {
        tidy_is_near(v, v.done[0]);
    } else {
        let pieces = split_part(v.todo[0], MAX_SPLIT_DEPTH as nat);
        split_next_is_near(FinishingView { todo: v.todo.skip(1), done: v.done + pieces, ..v });
    }
}

/// Whatever is told of a zone that is being finished, the end comes nearer.
pub proof fn finishing_ends(
    v: FinishingView,
    turned: Seq<Double>,
    held: Seq<bool>,
    areas: Seq<Double>,
)
    ensures
        v.stage == FinishStage::Turning ==> is_nearer(
            distance_to_end(v.after_measuring(turned).0),
            distance_to_end(v),
        ),
        v.awaits_weights() ==> is_nearer(
            distance_to_end(v.after_weighing(held, areas).0),
            distance_to_end(v),
        ),
{
    cutting_needles_ends(v.ring, turned);
    next_ring_is_near(FinishingView { clean: v.clean.push(None), ..v }, v.rest.len());
    if let RingStepView::Done(ring) = needle_step(v.ring, turned) {
        next_ring_is_near(FinishingView { clean: v.clean.push(Some(ring)), ..v }, v.rest.len());
    }
    split_next_is_near(FinishingView { done: v.done.push(v.chosen(held, areas)), ..v });
    tidy_is_near(v, v.chosen(held, areas));
}

} // verus!
