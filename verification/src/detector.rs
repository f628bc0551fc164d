//! Waiting zones as SUMO knows them: multi-entry/multi-exit detectors.

use crate::double::Double;
use crate::network::Point;
use crate::order::optional_text;
use vstd::prelude::*;

verus! {

/// A place along a lane, in metres.
#[derive(Clone, Copy, Debug, PartialEq, Eq, Structural)]
pub enum LanePosition {
    FromStart(Double),
    FromEnd(Double),
}

/// An entry or an exit of a detector.
#[derive(Clone, Debug, PartialEq, Eq)]
pub struct DetectorGate {
    pub lane: String,
    pub position: LanePosition,
    /// Whether a position off the lane is moved onto it instead of refused.
    pub friendly_position: Option<bool>,
}

/// How a person moves who is detected beside vehicles.
#[derive(Clone, Copy, Debug, PartialEq, Eq, Structural)]
pub enum PersonMode {
    Walk,
    Bicycle,
}

/// A detector that watches the area between its entries and its exits.
#[derive(Clone, Debug, PartialEq, Eq)]
pub struct E3Detector {
    pub id: String,
    pub entries: Vec<DetectorGate>,
    pub exits: Vec<DetectorGate>,
    /// Where the simulation writes what the detector saw.
    pub file: String,
    pub period: Option<Double>,
    pub name: Option<String>,
    /// Where an editor draws the detector's icon.
    pub icon_position: Option<Point>,
    pub speed_threshold: Option<Double>,
    pub time_threshold: Option<Double>,
    pub open_entry: Option<bool>,
    /// The persons detected; empty for a detector of vehicles.
    pub detect_persons: Vec<PersonMode>,
}

/// What a [`DetectorGate`] says.
#[verifier::ext_equal]
pub struct GateView {
    pub lane: Seq<char>,
    pub position: LanePosition,
    pub friendly_position: Option<bool>,
}

/// What an [`E3Detector`] says.
#[verifier::ext_equal]
pub struct DetectorView {
    pub id: Seq<char>,
    pub entries: Seq<GateView>,
    pub exits: Seq<GateView>,
    pub file: Seq<char>,
    pub period: Option<Double>,
    pub name: Option<Seq<char>>,
    pub icon_position: Option<Point>,
    pub speed_threshold: Option<Double>,
    pub time_threshold: Option<Double>,
    pub open_entry: Option<bool>,
    pub detect_persons: Seq<PersonMode>,
}

impl View for DetectorGate {
    type V = GateView;

    open spec fn view(&self) -> GateView {
        GateView {
            lane: self.lane@,
            position: self.position,
            friendly_position: self.friendly_position,
        }
    }
}

/// What a list of gates says.
pub open spec fn gates(list: Seq<DetectorGate>) -> Seq<GateView> {
    Seq::new(list.len(), |i: int| list[i]@)
}

impl View for E3Detector {
    type V = DetectorView;

    open spec fn view(&self) -> DetectorView {
        DetectorView {
            id: self.id@,
            entries: gates(self.entries@),
            exits: gates(self.exits@),
            file: self.file@,
            period: self.period,
            name: optional_text(self.name),
            icon_position: self.icon_position,
            speed_threshold: self.speed_threshold,
            time_threshold: self.time_threshold,
            open_entry: self.open_entry,
            detect_persons: self.detect_persons@,
        }
    }
}

/// What a list of detectors says.
pub open spec fn detectors(list: Seq<E3Detector>) -> Seq<DetectorView> {
    Seq::new(list.len(), |i: int| list[i]@)
}

} // verus!
