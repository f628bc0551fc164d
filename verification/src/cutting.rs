//! How ground is cut from a zone: part by part, and of what a part falls into
//! the piece at the stop line is kept.

use crate::double::{is_at_most, Double};
use crate::overlaps::OVERLAP_AREA_THRESHOLD_M2;
use crate::polygons::{
    copy_polygon, copy_polygons, drop_slivers, keep_part_near, part_to_keep, parts_worth_keeping,
};
use crate::splitting::{polygon_views, split_parts, split_self_intersections, Polygon, PolygonView};
use vstd::prelude::*;

verus! {

/// What is to be done next.
#[derive(Debug, PartialEq, Eq)]
pub enum CutAction {
    /// Measure what a part shares with the ground that is to be cut away.
    Share(Polygon),
    /// Cut the ground from a part.
    Subtract(Polygon),
    /// Measure the area of each part, and tell whether it holds the stop line.
    Weigh(Vec<Polygon>),
    /// Stop; these parts are left.
    Finish(Vec<Polygon>),
}

/// What a [`CutAction`] says.
#[verifier::ext_equal]
pub enum CutActionView {
    Share(PolygonView),
    Subtract(PolygonView),
    Weigh(Seq<PolygonView>),
    Finish(Seq<PolygonView>),
}

impl View for CutAction {
    type V = CutActionView;

    open spec fn view(&self) -> CutActionView {
        match self {
            CutAction::Share(part) => CutActionView::Share(part@),
            CutAction::Subtract(part) => CutActionView::Subtract(part@),
            CutAction::Weigh(parts) => CutActionView::Weigh(polygon_views(parts@)),
            CutAction::Finish(parts) => CutActionView::Finish(polygon_views(parts@)),
        }
    }
}

/// What is being waited for.
#[derive(Clone, Copy, Debug, PartialEq, Eq, Structural)]
pub enum CutStage {
    /// What the part shares with the ground that is to be cut away.
    Sharing,
    /// What is left of the part.
    Subtracting,
    /// The areas of the pieces that are left.
    Sifting,
    /// Which of the larger pieces holds the stop line.
    Choosing,
    /// Nothing.
    Ended,
}

/// Whether a part that shares this area is left as it is.
pub open spec fn is_left_alone(area: Double) -> bool {
    is_at_most(area, Double { bits: OVERLAP_AREA_THRESHOLD_M2 })
}

/// How far the cutting of a zone has come.
#[verifier::ext_equal]
pub struct CuttingView {
    pub stage: CutStage,
    /// The parts that have not been gone through.
    pub todo: Seq<PolygonView>,
    /// What is left of those that have.
    pub done: Seq<PolygonView>,
    /// The part that is being gone through.
    pub part: PolygonView,
    /// The pieces that are being weighed.
    pub asked: Seq<PolygonView>,
}

impl CuttingView {
    /// The next part, or the end.
    pub open spec fn next_part(self) -> (CuttingView, CutActionView) {
        if self.todo.len() == 0 {
            (CuttingView { stage: CutStage::Ended, ..self }, CutActionView::Finish(self.done))
        } else {
            (
                CuttingView {
                    stage: CutStage::Sharing,
                    todo: self.todo.skip(1),
                    part: self.todo[0],
                    ..self
                },
                CutActionView::Share(self.todo[0]),
            )
        }
    }

    /// The next part, where these are left of the present one.
    pub open spec fn left_with(self, parts: Seq<PolygonView>) -> (CuttingView, CutActionView) {
        CuttingView { done: self.done + parts, ..self }.next_part()
    }

    /// What follows when the part shares this area: it is cut where that is
    /// more than a trace.
    pub open spec fn after_sharing(self, area: Double) -> (CuttingView, CutActionView) {
        if is_left_alone(area) {
            self.left_with(seq![self.part])
        } else {
            (
                CuttingView { stage: CutStage::Subtracting, ..self },
                CutActionView::Subtract(self.part),
            )
        }
    }

    /// What follows when these pieces are left of the part.
    pub open spec fn after_subtracting(self, pieces: Seq<PolygonView>) -> (
        CuttingView,
        CutActionView,
    ) {
        let split = split_parts(pieces);
        if split.len() == 0 {
            self.next_part()
        } else {
            (
                CuttingView { stage: CutStage::Sifting, asked: split, ..self },
                CutActionView::Weigh(split),
            )
        }
    }

    /// What follows when the pieces have these areas, and hold the stop line
    /// or not: slivers are dropped, and one of the others is kept.
    pub open spec fn after_weighing(self, held: Seq<bool>, areas: Seq<Double>) -> (
        CuttingView,
        CutActionView,
    ) {
        if self.stage == CutStage::Sifting {
            let kept = parts_worth_keeping(self.asked, areas, self.asked.len());
            if kept.len() <= 1 {
                self.left_with(kept)
            } else {
                (
                    CuttingView { stage: CutStage::Choosing, asked: kept, ..self },
                    CutActionView::Weigh(kept),
                )
            }
        } else {
            self.left_with(seq![self.asked[part_to_keep(held, areas)]])
        }
    }

    /// Whether areas are waited for.
    pub open spec fn awaits_areas(self) -> bool {
        self.stage == CutStage::Sifting || self.stage == CutStage::Choosing && self.asked.len() > 1
    }
}

/// The cutting of a zone. It says what to do; whoever does it says what came
/// of it.
pub struct Cutting {
    stage: CutStage,
    todo: Vec<Polygon>,
    done: Vec<Polygon>,
    part: Polygon,
    asked: Vec<Polygon>,
}

impl View for Cutting {
    type V = CuttingView;

    closed spec fn view(&self) -> CuttingView {
        CuttingView {
            stage: self.stage,
            todo: polygon_views(self.todo@),
            done: polygon_views(self.done@),
            part: self.part@,
            asked: polygon_views(self.asked@),
        }
    }
}

/// The polygon of nothing.
pub open spec fn no_polygon() -> PolygonView {
    PolygonView { exterior: Seq::empty(), interiors: Seq::empty() }
}

/// Where the cutting of a zone with these parts begins.
pub open spec fn cutting_start(parts: Seq<PolygonView>) -> (CuttingView, CutActionView) {
    CuttingView {
        stage: CutStage::Ended,
        todo: parts,
        done: Seq::empty(),
        part: no_polygon(),
        asked: Seq::empty(),
    }.next_part()
}

impl Cutting {
    /// Begins to cut a zone with these parts.
    pub fn start(parts: Vec<Polygon>) -> (begun: (Cutting, CutAction))
        ensures
            (begun.0@, begun.1@) == cutting_start(polygon_views(parts@)),
    {
        let mut cutting: Cutting = Cutting {
            stage: CutStage::Ended,
            todo: parts,
            done: Vec::new(),
            part: Polygon { exterior: Vec::new(), interiors: Vec::new() },
            asked: Vec::new(),
        };
        proof {
            assert(polygon_views(cutting.done@) =~= Seq::empty());
            assert(polygon_views(cutting.asked@) =~= Seq::empty());
            assert(cutting.part@ =~= no_polygon());
        }
        let action: CutAction = cutting.go_on();
        (cutting, action)
    }

    fn go_on(&mut self) -> (action: CutAction)
        ensures
            (final(self)@, action@) == old(self)@.next_part(),
    {
        let ghost before = self@;
        if self.todo.len() == 0 {
            self.stage = CutStage::Ended;
            return CutAction::Finish(copy_polygons(&self.done));
        }
        let part: Polygon = self.todo.remove(0);
        assert(part@ == before.todo[0]);
        assert(polygon_views(self.todo@) =~= before.todo.skip(1));
        self.part = copy_polygon(&part);
        self.stage = CutStage::Sharing;
        CutAction::Share(part)
    }

    fn go_on_with(&mut self, left: Vec<Polygon>) -> (action: CutAction)
        ensures
            (final(self)@, action@) == old(self)@.left_with(polygon_views(left@)),
    {
        let ghost before = self@;
        let ghost added = polygon_views(left@);
        let mut left: Vec<Polygon> = left;
        self.done.append(&mut left);
        assert(polygon_views(self.done@) =~= before.done + added);
        self.go_on()
    }

    /// Tells what area the part shares with the ground that is to be cut away.
    pub fn shared(&mut self, area: Double) -> (action: CutAction)
        requires
            old(self)@.stage == CutStage::Sharing,
        ensures
            (final(self)@, action@) == old(self)@.after_sharing(area),
    {
        let part: Polygon = copy_polygon(&self.part);
        if area.at_most(Double { bits: OVERLAP_AREA_THRESHOLD_M2 }) {
            let mut left: Vec<Polygon> = Vec::new();
            left.push(part);
            assert(polygon_views(left@) =~= seq![self@.part]);
            self.go_on_with(left)
        } else {
            self.stage = CutStage::Subtracting;
            CutAction::Subtract(part)
        }
    }

    /// Tells what is left of the part.
    pub fn subtracted(&mut self, pieces: Vec<Polygon>) -> (action: CutAction)
        requires
            old(self)@.stage == CutStage::Subtracting,
        ensures
            (final(self)@, action@) == old(self)@.after_subtracting(polygon_views(pieces@)),
    {
        let split: Vec<Polygon> = split_self_intersections(pieces);
        assert(polygon_views(split@).len() == split@.len());
        if split.len() == 0 {
            self.go_on()
        } else {
            self.stage = CutStage::Sifting;
            self.asked = copy_polygons(&split);
            CutAction::Weigh(split)
        }
    }

    /// Tells whether each of the pieces holds the stop line, and its area.
    pub fn weighed(&mut self, held: &Vec<bool>, areas: &Vec<Double>) -> (action: CutAction)
        requires
            old(self)@.awaits_areas(),
            held@.len() == old(self)@.asked.len(),
            areas@.len() == old(self)@.asked.len(),
        ensures
            (final(self)@, action@) == old(self)@.after_weighing(held@, areas@),
    {
        let asked: Vec<Polygon> = copy_polygons(&self.asked);
        assert(polygon_views(asked@).len() == asked@.len());
        assert(polygon_views(self.asked@).len() == self.asked@.len());
        match self.stage {
            CutStage::Sifting => {
                let kept: Vec<Polygon> = drop_slivers(asked, areas);
                assert(polygon_views(kept@).len() == kept@.len());
                if kept.len() <= 1 {
                    self.go_on_with(kept)
                } else {
                    self.stage = CutStage::Choosing;
                    self.asked = copy_polygons(&kept);
                    CutAction::Weigh(kept)
                }
            },
            _ => {
                let kept: Vec<Polygon> = keep_part_near(asked, held, areas);
                self.go_on_with(kept)
            },
        }
    }
}

/// Whatever is told of a part, the end of the cutting comes nearer: a part is
/// gone through in four steps at most.
pub proof fn cutting_ends(
    v: CuttingView,
    area: Double,
    pieces: Seq<PolygonView>,
    held: Seq<bool>,
    areas: Seq<Double>,
)
    ensures
        v.stage == CutStage::Sharing ==> cuts_to_go(v.after_sharing(area).0) < cuts_to_go(v),
        v.stage == CutStage::Subtracting ==> cuts_to_go(v.after_subtracting(pieces).0)
            < cuts_to_go(v),
        v.stage == CutStage::Sifting || v.stage == CutStage::Choosing ==> cuts_to_go(
            v.after_weighing(held, areas).0,
        ) < cuts_to_go(v),
{
}

/// How many steps the cutting can still take.
pub open spec fn cuts_to_go(v: CuttingView) -> nat {
    4 * v.todo.len() + match v.stage {
        CutStage::Sharing => 4nat,
        CutStage::Subtracting => 3,
        CutStage::Sifting => 2,
        CutStage::Choosing => 1,
        CutStage::Ended => 0,
    }
}

/// A part that shares no more than a trace with the ground that is cut away is
/// kept as it is.
pub proof fn a_part_without_overlap_is_kept(v: CuttingView, area: Double)
    requires
        is_left_alone(area),
    ensures
        v.after_sharing(area).0.done == v.done.push(v.part),
{
    assert(v.done + seq![v.part] =~= v.done.push(v.part));
}

/// Of what is left of a part, one piece is kept at most.
pub proof fn at_most_one_piece_is_kept_of_a_part(
    v: CuttingView,
    area: Double,
    pieces: Seq<PolygonView>,
    held: Seq<bool>,
    areas: Seq<Double>,
)
    ensures
        v.after_sharing(area).0.done.len() <= v.done.len() + 1,
        v.after_subtracting(pieces).0.done.len() <= v.done.len() + 1,
        v.after_weighing(held, areas).0.done.len() <= v.done.len() + 1,
{
}

} // verus!
