//! How zones that overlap are parted: their padding is taken back first, and
//! what they then still share is cut from both.

use crate::double::{is_at_most, is_less, plus, zero, Double};
use crate::drawing::MIN_DRAWN_LANE_LENGTH_METERS;
use crate::overlaps::{
    is_overlap, near_pairs, near_pairs_are_those_that_meet, overlapping, overlaps, pairs_from,
    pairs_within, still_overlapping, Bounds, Pair,
};
use crate::plane::TWO;
use crate::product::over;
use crate::quoting::{quote, quoted};
use vstd::prelude::*;

verus! {

/// How many times the padding of a zone is halved in on.
pub const PAD_SEARCH_STEPS: u32 = 10;

/// How many rounds are made at most.
pub const MAX_RESOLUTION_ROUNDS: u32 = 8;

/// What is to be done next.
#[derive(Debug, PartialEq, Eq)]
pub enum Action {
    /// Measure what the zones of each pair share.
    Measure(Vec<Pair>),
    /// Measure what a zone, drawn at least `pad` metres long, would share with
    /// another.
    Probe { zone: usize, pad: Double, opposing: usize },
    /// Draw a zone anew, at least `pad` metres long.
    Redraw { zone: usize, pad: Double },
    /// Cut from the zones of each pair what they share.
    Cut(Vec<Pair>),
    /// Stop; these pairs still overlap.
    Finish(Vec<Pair>),
}

/// What an [`Action`] says.
#[verifier::ext_equal]
pub enum ActionView {
    Measure(Seq<Pair>),
    Probe { zone: int, pad: Double, opposing: int },
    Redraw { zone: int, pad: Double },
    Cut(Seq<Pair>),
    Finish(Seq<Pair>),
}

impl View for Action {
    type V = ActionView;

    open spec fn view(&self) -> ActionView {
        match self {
            Action::Measure(pairs) => ActionView::Measure(pairs@),
            Action::Probe { zone, pad, opposing } => ActionView::Probe {
                zone: zone as int,
                pad: *pad,
                opposing: opposing as int,
            },
            Action::Redraw { zone, pad } => ActionView::Redraw { zone: zone as int, pad: *pad },
            Action::Cut(pairs) => ActionView::Cut(pairs@),
            Action::Finish(pairs) => ActionView::Finish(pairs@),
        }
    }
}

/// What is being waited for.
#[derive(Clone, Copy, Debug, PartialEq, Eq, Structural)]
pub enum Stage {
    /// What every pair of near zones shares.
    Scanning,
    /// What the pairs share at the start of a round.
    Checking,
    /// What a zone with less padding would share.
    Probing,
    /// That a zone has been drawn anew.
    Redrawing,
    /// What the pairs share once their padding has been taken back.
    Rechecking,
    /// That zones have been cut.
    Cutting,
    /// What the pairs share at the end.
    Reporting,
    /// Nothing.
    Ended,
}

/// How far the parting of zones has come.
#[verifier::ext_equal]
pub struct ResolutionView {
    pub stage: Stage,
    /// The pairs that may overlap.
    pub candidates: Seq<Pair>,
    /// The length that each zone is drawn at least.
    pub pads: Seq<Double>,
    /// The rounds that are left.
    pub rounds: nat,
    /// Whether the round has changed anything.
    pub progressed: bool,
    /// The pairs that overlapped at the start of the round.
    pub overlaps: Seq<Pair>,
    /// The pair whose padding is being taken back, and whether it is the turn
    /// of its second zone.
    pub turn: nat,
    pub second: bool,
    /// A length that is free of overlap, or nothing; a length that is not; the
    /// length being tried; and how many lengths have been tried in between.
    pub lower: Double,
    pub upper: Double,
    pub probe: Double,
    pub steps: nat,
}

/// The zone of a pair whose turn it is.
pub open spec fn turning(pair: Pair, second: bool) -> int {
    if second {
        pair.1 as int
    } else {
        pair.0 as int
    }
}

/// The length half way between two.
pub open spec fn half_way(lower: Double, upper: Double) -> Double {
    over(plus(lower, upper), Double { bits: TWO })
}

impl ResolutionView {
    /// Whether the pairs are of known zones, and the turn is that of a pair.
    pub open spec fn well_formed(self) -> bool {
        &&& pairs_within(self.candidates, self.pads.len())
        &&& pairs_within(self.overlaps, self.pads.len())
        &&& self.rounds <= MAX_RESOLUTION_ROUNDS
        &&& self.steps <= PAD_SEARCH_STEPS
        &&& self.stage == Stage::Probing || self.stage == Stage::Redrawing ==> self.turn
            < self.overlaps.len()
    }

    /// Whether the shared areas of the candidates are waited for.
    pub open spec fn awaits_areas(self) -> bool {
        self.stage == Stage::Scanning || self.stage == Stage::Checking || self.stage
            == Stage::Rechecking || self.stage == Stage::Reporting
    }

    /// The zone whose padding is being taken back.
    pub open spec fn shrinking(self) -> int {
        turning(self.overlaps[self.turn as int], self.second)
    }

    /// The zone that it overlaps.
    pub open spec fn opposing(self) -> int {
        turning(self.overlaps[self.turn as int], !self.second)
    }

    /// The length being tried.
    pub open spec fn probing(self) -> (ResolutionView, ActionView) {
        (
            self,
            ActionView::Probe {
                zone: self.shrinking(),
                pad: self.probe,
                opposing: self.opposing(),
            },
        )
    }

    /// The end, with these pairs left.
    pub open spec fn finished(self, left: Seq<Pair>) -> (ResolutionView, ActionView) {
        (ResolutionView { stage: Stage::Ended, ..self }, ActionView::Finish(left))
    }

    /// The next round, or the report where none is left.
    pub open spec fn next_round(self) -> (ResolutionView, ActionView) {
        if self.rounds == 0 {
            self.report()
        } else {
            (
                ResolutionView {
                    stage: Stage::Checking,
                    rounds: (self.rounds - 1) as nat,
                    progressed: false,
                    ..self
                },
                ActionView::Measure(self.candidates),
            )
        }
    }

    /// The report on what is left.
    pub open spec fn report(self) -> (ResolutionView, ActionView) {
        (
            ResolutionView { stage: Stage::Reporting, ..self },
            ActionView::Measure(self.candidates),
        )
    }

    /// The next round, unless this one has changed nothing.
    pub open spec fn end_round(self) -> (ResolutionView, ActionView) {
        if self.progressed {
            self.next_round()
        } else {
            self.report()
        }
    }

    /// The turn of a zone: its padding is tried as it is, unless it has none.
    pub open spec fn take_turn(self, turn: nat, second: bool) -> (ResolutionView, ActionView)
        decreases
                self.overlaps.len() - turn,
                if second {
                    0int
                } else {
                    1int
                },
    {
        let at = ResolutionView { turn, second, ..self };
        let pad = self.pads[at.shrinking()];
        if turn >= self.overlaps.len() {
            (
                ResolutionView { stage: Stage::Rechecking, ..self },
                ActionView::Measure(self.candidates),
            )
        } else if !is_at_most(pad, zero()) {
            ResolutionView {
                stage: Stage::Probing,
                lower: zero(),
                upper: pad,
                probe: pad,
                steps: 0,
                ..at
            }.probing()
        } else if second {
            self.take_turn(turn + 1, false)
        } else {
            self.take_turn(turn, true)
        }
    }

    /// The turn after the present one.
    pub open spec fn next_turn(self) -> (ResolutionView, ActionView) {
        if self.second {
            self.take_turn(self.turn + 1, false)
        } else {
            self.take_turn(self.turn, true)
        }
    }

    /// What follows when the candidates have been found to share these areas.
    pub open spec fn after_measuring(self, areas: Seq<Double>) -> (ResolutionView, ActionView) {
        let left = overlapping(self.candidates, areas);
        if self.stage == Stage::Scanning {
            let found = ResolutionView { candidates: left, ..self };
            if left.len() == 0 {
                found.finished(left)
            } else {
                found.next_round()
            }
        } else if self.stage == Stage::Checking {
            if left.len() == 0 {
                self.finished(left)
            } else {
                ResolutionView { overlaps: left, ..self }.take_turn(0, false)
            }
        } else if self.stage == Stage::Rechecking {
            if left.len() == 0 {
                self.end_round()
            } else {
                (
                    ResolutionView { stage: Stage::Cutting, progressed: true, ..self },
                    ActionView::Cut(left),
                )
            }
        } else {
            self.finished(left)
        }
    }

    /// What follows when the zone, with the length being tried, would share
    /// this area.
    pub open spec fn after_probing(self, area: Double) -> (ResolutionView, ActionView) {
        let pad = self.pads[self.shrinking()];
        if self.steps == 0 && !is_overlap(area) {
            self.next_turn()
        } else {
            let narrowed = if is_overlap(area) {
                ResolutionView { upper: self.probe, ..self }
            } else {
                ResolutionView { lower: self.probe, ..self }
            };
            if self.steps < PAD_SEARCH_STEPS {
                ResolutionView {
                    probe: half_way(narrowed.lower, narrowed.upper),
                    steps: self.steps + 1,
                    ..narrowed
                }.probing()
            } else if is_less(narrowed.lower, pad) {
                (
                    ResolutionView {
                        stage: Stage::Redrawing,
                        pads: self.pads.update(self.shrinking(), narrowed.lower),
                        progressed: true,
                        ..narrowed
                    },
                    ActionView::Redraw { zone: self.shrinking(), pad: narrowed.lower },
                )
            } else {
                narrowed.next_turn()
            }
        }
    }
}

/// Where the parting of zones with these boxes around them begins.
pub open spec fn resolution_start(bounds: Seq<Option<Bounds>>) -> (ResolutionView, ActionView) {
    let pairs = pairs_from(bounds, 0);
    (
        ResolutionView {
            stage: Stage::Scanning,
            candidates: pairs,
            pads: Seq::new(
                bounds.len(),
                |i: int| Double { bits: MIN_DRAWN_LANE_LENGTH_METERS },
            ),
            rounds: MAX_RESOLUTION_ROUNDS as nat,
            progressed: false,
            overlaps: Seq::empty(),
            turn: 0,
            second: false,
            lower: zero(),
            upper: zero(),
            probe: zero(),
            steps: 0,
        },
        ActionView::Measure(pairs),
    )
}

/// The parting of zones that overlap. It says what to do; whoever does it says
/// what came of it.
pub struct Resolution {
    stage: Stage,
    candidates: Vec<Pair>,
    pads: Vec<Double>,
    rounds: u32,
    progressed: bool,
    overlaps: Vec<Pair>,
    turn: usize,
    second: bool,
    lower: Double,
    upper: Double,
    probe: Double,
    steps: u32,
}

impl View for Resolution {
    type V = ResolutionView;

    closed spec fn view(&self) -> ResolutionView {
        ResolutionView {
            stage: self.stage,
            candidates: self.candidates@,
            pads: self.pads@,
            rounds: self.rounds as nat,
            progressed: self.progressed,
            overlaps: self.overlaps@,
            turn: self.turn as nat,
            second: self.second,
            lower: self.lower,
            upper: self.upper,
            probe: self.probe,
            steps: self.steps as nat,
        }
    }
}

fn copy_pairs(pairs: &Vec<Pair>) -> (copy: Vec<Pair>)
    ensures
        copy@ == pairs@,
{
    let mut copy: Vec<Pair> = Vec::new();
    let mut i: usize = 0;
    while i < pairs.len()
        invariant
            i <= pairs@.len(),
            copy@ == pairs@.take(i as int),
        decreases pairs@.len() - i,
    {
        copy.push(pairs[i]);
        assert(copy@ =~= pairs@.take(i + 1));
        i = i + 1;
    }
    assert(pairs@.take(pairs@.len() as int) =~= pairs@);
    copy
}

proof fn lemma_overlapping_within(pairs: Seq<Pair>, areas: Seq<Double>, count: nat)
    requires
        pairs_within(pairs, count),
    ensures
        pairs_within(overlapping(pairs, areas), count),
    decreases pairs.len(),
{
    if pairs.len() > 0 {
        let rest = pairs.drop_last();
        assert forall|i: int| 0 <= i < rest.len() implies (#[trigger] rest[i]).0 < count
            && rest[i].1 < count by {
            assert(pairs[i].0 < count);
        }
        lemma_overlapping_within(rest, areas, count);
        assert(pairs[pairs.len() - 1].0 < count);
    }
}

impl Resolution {
    /// Begins to part zones with these boxes around them.
    pub fn start(bounds: &Vec<Option<Bounds>>) -> (begun: (Resolution, Action))
        ensures
            (begun.0@, begun.1@) == resolution_start(bounds@),
            begun.0@.well_formed(),
            begun.0@.awaits_areas(),
    {
        let candidates: Vec<Pair> = near_pairs(bounds);
        let asked: Vec<Pair> = copy_pairs(&candidates);
        let pad: Double = Double { bits: MIN_DRAWN_LANE_LENGTH_METERS };
        let nought: Double = Double { bits: 0 };
        let mut pads: Vec<Double> = Vec::new();
        let mut i: usize = 0;
        while i < bounds.len()
            invariant
                i <= bounds@.len(),
                pads@.len() == i,
                forall|k: int| 0 <= k < i ==> #[trigger] pads@[k] == pad,
            decreases bounds@.len() - i,
        {
            pads.push(pad);
            i = i + 1;
        }
        assert(pads@ =~= Seq::new(
            bounds@.len(),
            |i: int| Double { bits: MIN_DRAWN_LANE_LENGTH_METERS },
        ));
        let begun: Resolution = Resolution {
            stage: Stage::Scanning,
            candidates,
            pads,
            rounds: MAX_RESOLUTION_ROUNDS,
            progressed: false,
            overlaps: Vec::new(),
            turn: 0,
            second: false,
            lower: nought,
            upper: nought,
            probe: nought,
            steps: 0,
        };
        proof {
            near_pairs_are_those_that_meet(bounds@, 0);
            let pairs = begun@.candidates;
            assert forall|k: int| 0 <= k < pairs.len() implies (#[trigger] pairs[k]).0
                < bounds@.len() && pairs[k].1 < bounds@.len() by {
                assert(pairs.contains(pairs[k]));
            }
            assert(begun.overlaps@ =~= Seq::empty());
        }
        (begun, Action::Measure(asked))
    }

    fn round(&mut self) -> (action: Action)
        requires
            old(self)@.well_formed(),
        ensures
            (final(self)@, action@) == old(self)@.next_round(),
            final(self)@.well_formed(),
    {
        if self.rounds == 0 {
            self.stage = Stage::Reporting;
        } else {
            self.stage = Stage::Checking;
            self.rounds = self.rounds - 1;
            self.progressed = false;
        }
        Action::Measure(copy_pairs(&self.candidates))
    }

    fn close_round(&mut self) -> (action: Action)
        requires
            old(self)@.well_formed(),
        ensures
            (final(self)@, action@) == old(self)@.end_round(),
            final(self)@.well_formed(),
    {
        if self.progressed {
            self.round()
        } else {
            self.stage = Stage::Reporting;
            Action::Measure(copy_pairs(&self.candidates))
        }
    }

    fn turn_to(&mut self, turn: usize, second: bool) -> (action: Action)
        requires
            pairs_within(old(self)@.candidates, old(self)@.pads.len()),
            pairs_within(old(self)@.overlaps, old(self)@.pads.len()),
            old(self)@.rounds <= MAX_RESOLUTION_ROUNDS,
            old(self)@.steps <= PAD_SEARCH_STEPS,
            turn <= old(self)@.overlaps.len(),
        ensures
            (final(self)@, action@) == old(self)@.take_turn(turn as nat, second),
            final(self)@.well_formed(),
    {
        let ghost start = self@;
        let ghost goal = start.take_turn(turn as nat, second);
        let nought: Double = Double { bits: 0 };
        let mut at: usize = turn;
        let mut later: bool = second;
        while at < self.overlaps.len()
            invariant
                self@ == start,
                nought == zero(),
                at <= self.overlaps@.len(),
                pairs_within(start.candidates, start.pads.len()),
                pairs_within(start.overlaps, start.pads.len()),
                start.rounds <= MAX_RESOLUTION_ROUNDS,
                goal == start.take_turn(at as nat, later),
                goal == old(self)@.take_turn(turn as nat, second),
            decreases
                    self.overlaps@.len() - at,
                    if later {
                        0int
                    } else {
                        1int
                    },
        {
            let pair: Pair = self.overlaps[at];
            let (zone, opposing): (usize, usize) = if later {
                (pair.1, pair.0)
            } else {
                (pair.0, pair.1)
            };
            let pad: Double = self.pads[zone];
            if !pad.at_most(nought) {
                self.stage = Stage::Probing;
                self.turn = at;
                self.second = later;
                self.lower = nought;
                self.upper = pad;
                self.probe = pad;
                self.steps = 0;
                assert(self@ =~= ResolutionView {
                    stage: Stage::Probing,
                    turn: at as nat,
                    second: later,
                    lower: zero(),
                    upper: pad,
                    probe: pad,
                    steps: 0,
                    ..start
                });
                return Action::Probe { zone, pad, opposing };
            }
            if later {
                at = at + 1;
                later = false;
            } else {
                later = true;
            }
        }
        self.stage = Stage::Rechecking;
        Action::Measure(copy_pairs(&self.candidates))
    }

    fn turn_on(&mut self) -> (action: Action)
        requires
            old(self)@.well_formed(),
            old(self)@.turn < old(self)@.overlaps.len(),
        ensures
            (final(self)@, action@) == old(self)@.next_turn(),
            final(self)@.well_formed(),
    {
        let count: usize = self.overlaps.len();
        assert(self.turn < count);
        if self.second {
            self.turn_to(self.turn + 1, false)
        } else {
            self.turn_to(self.turn, true)
        }
    }

    /// Tells that the pairs that were to be measured share these areas.
    pub fn measured(&mut self, areas: &Vec<Double>) -> (action: Action)
        requires
            old(self)@.well_formed(),
            old(self)@.awaits_areas(),
            areas@.len() == old(self)@.candidates.len(),
        ensures
            (final(self)@, action@) == old(self)@.after_measuring(areas@),
            final(self)@.well_formed(),
    {
        proof {
            lemma_overlapping_within(self@.candidates, areas@, self@.pads.len());
        }
        let left: Vec<Pair> = still_overlapping(&self.candidates, areas);
        match self.stage {
            Stage::Scanning => {
                let none: bool = left.len() == 0;
                self.candidates = left;
                if none {
                    self.stage = Stage::Ended;
                    Action::Finish(copy_pairs(&self.candidates))
                } else {
                    self.round()
                }
            },
            Stage::Checking => {
                if left.len() == 0 {
                    self.stage = Stage::Ended;
                    Action::Finish(left)
                } else {
                    self.overlaps = left;
                    self.turn_to(0, false)
                }
            },
            Stage::Rechecking => {
                if left.len() == 0 {
                    self.close_round()
                } else {
                    self.stage = Stage::Cutting;
                    self.progressed = true;
                    Action::Cut(left)
                }
            },
            _ => {
                self.stage = Stage::Ended;
                Action::Finish(left)
            },
        }
    }

    /// Tells that the zone that was to be tried would share this area.
    pub fn probed(&mut self, area: Double) -> (action: Action)
        requires
            old(self)@.well_formed(),
            old(self)@.stage == Stage::Probing,
        ensures
            (final(self)@, action@) == old(self)@.after_probing(area),
            final(self)@.well_formed(),
    {
        let overlap: bool = overlaps(area);
        if self.steps == 0 && !overlap {
            return self.turn_on();
        }
        let pair: Pair = self.overlaps[self.turn];
        let (zone, opposing): (usize, usize) = if self.second {
            (pair.1, pair.0)
        } else {
            (pair.0, pair.1)
        };
        if overlap {
            self.upper = self.probe;
        } else {
            self.lower = self.probe;
        }
        if self.steps < PAD_SEARCH_STEPS {
            self.probe = self.lower.added_to(self.upper).divide(Double { bits: TWO });
            self.steps = self.steps + 1;
            Action::Probe { zone, pad: self.probe, opposing }
        } else if self.lower.less_than(self.pads[zone]) {
            self.stage = Stage::Redrawing;
            self.pads.set(zone, self.lower);
            self.progressed = true;
            Action::Redraw { zone, pad: self.lower }
        } else {
            self.turn_on()
        }
    }

    /// Tells that the zone has been drawn anew.
    pub fn redrawn(&mut self) -> (action: Action)
        requires
            old(self)@.well_formed(),
            old(self)@.stage == Stage::Redrawing,
        ensures
            (final(self)@, action@) == old(self)@.next_turn(),
            final(self)@.well_formed(),
    {
        self.turn_on()
    }

    /// Tells that the zones have been cut.
    pub fn cut(&mut self) -> (action: Action)
        requires
            old(self)@.well_formed(),
            old(self)@.stage == Stage::Cutting,
        ensures
            (final(self)@, action@) == old(self)@.end_round(),
            final(self)@.well_formed(),
    {
        self.close_round()
    }
}

/// The positions of the pairs, among the first `upto`, that zone `zone` is in.
pub open spec fn cuts_of(pairs: Seq<Pair>, zone: int, upto: nat) -> Seq<nat>
    decreases upto,
{
    if upto == 0 {
        Seq::empty()
    } else {
        let before = cuts_of(pairs, zone, (upto - 1) as nat);
        if pairs[upto - 1].0 == zone || pairs[upto - 1].1 == zone {
            before.push((upto - 1) as nat)
        } else {
            before
        }
    }
}

/// The positions of the pairs that zone `zone` is in. What the zones of those
/// pairs share is united, and then cut from the zone part by part.
pub fn cuts_for(pairs: &Vec<Pair>, zone: usize) -> (cuts: Vec<usize>)
    ensures
        cuts@.map_values(|k: usize| k as nat) == cuts_of(pairs@, zone as int, pairs@.len()),
{
    let mut cuts: Vec<usize> = Vec::new();
    let ghost positions = |k: usize| k as nat;
    assert(cuts@.map_values(positions) =~= Seq::empty());
    let mut i: usize = 0;
    while i < pairs.len()
        invariant
            i <= pairs@.len(),
            positions == (|k: usize| k as nat),
            cuts@.map_values(positions) == cuts_of(pairs@, zone as int, i as nat),
        decreases pairs@.len() - i,
    {
        if pairs[i].0 == zone || pairs[i].1 == zone {
            let ghost listed = cuts@.map_values(positions);
            cuts.push(i);
            assert(cuts@.map_values(positions) =~= listed.push(i as nat));
        }
        i = i + 1;
    }
    cuts
}

/// What tells that two zones, whose ids are shown like this, could not be
/// parted.
pub open spec fn unresolved_text(first: Seq<char>, second: Seq<char>) -> Seq<char> {
    "zones DetectorId("@ + first + ") and DetectorId("@ + second
        + ") still overlap after 8 resolution rounds \u{2014} left as-is"@
}

/// What tells that two zones, whose ids are shown like this, could not be
/// parted.
pub fn unresolved_message_of(first: &str, second: &str) -> (text: String)
    ensures
        text@ == unresolved_text(first@, second@),
{
    let mut text: String = "zones DetectorId(".to_owned();
    text.append(first);
    text.append(") and DetectorId(");
    text.append(second);
    text.append(") still overlap after 8 resolution rounds \u{2014} left as-is");
    text
}

/// What tells that the two zones with these ids could not be parted.
pub fn unresolved_message(first: &String, second: &String) -> (text: String)
    ensures
        text@ == unresolved_text(quoted(first@), quoted(second@)),
{
    let one: String = quote(first.as_str());
    let other: String = quote(second.as_str());
    unresolved_message_of(one.as_str(), other.as_str())
}

} // verus!
