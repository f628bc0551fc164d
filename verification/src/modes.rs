//! Who waits in a zone: people on foot, on bicycles, or in vehicles.

use crate::detector::{gates, DetectorGate, DetectorView, E3Detector, GateView};
use crate::lane_table::{lane_called, LaneTable};
use crate::network::Lane;
use sumo_types::domain::VClass;
use vstd::prelude::*;

verus! {

/// A vehicle class that a lane may be open to.
#[derive(Clone, Copy, Debug, PartialEq, Eq, Structural)]
pub enum VehicleClass {
    Bicycle,
    Passenger,
}

/// How a network spells a vehicle class.
pub open spec fn spelling(class: VehicleClass) -> Seq<char> {
    match class {
        VehicleClass::Bicycle => "bicycle"@,
        VehicleClass::Passenger => "passenger"@,
    }
}

/// Whether a list of classes holds this one, by its name or by `all`.
pub open spec fn names(list: Seq<String>, class: VehicleClass) -> bool {
    exists|i: int|
        0 <= i < list.len() && ((#[trigger] list[i])@ == "all"@ || list[i]@ == spelling(class))
}

/// Whether a class may use a lane with these lists: where there is a list of
/// allowed classes it alone decides, and otherwise the list of disallowed
/// ones.
pub open spec fn is_permitted(
    class: VehicleClass,
    allow: Seq<String>,
    disallow: Seq<String>,
) -> bool {
    if allow.len() == 0 {
        !names(disallow, class)
    } else {
        names(allow, class)
    }
}

/// `sumo_types::domain::VClass::permitted_on`. It is believed to go by the
/// list of allowed classes where that is not empty, and otherwise to refuse
/// what the list of disallowed classes holds; and to find a class in a list
/// where a token is `all` or the one spelling of the class.
#[verifier::external_body]
fn permitted_on(class: VehicleClass, allow: &Vec<String>, disallow: &Vec<String>) -> (permitted:
    bool)
    ensures
        permitted == is_permitted(class, allow@, disallow@),
{
    let class = match class {
        VehicleClass::Bicycle => VClass::Bicycle,
        VehicleClass::Passenger => VClass::Passenger,
    };
    class.permitted_on(allow, disallow)
}

/// Whether a lane is there for bicycles: they may use it and cars may not.
pub open spec fn is_bicycle_lane(lane: Lane) -> bool {
    is_permitted(VehicleClass::Bicycle, lane.allow@, lane.disallow@) && !is_permitted(
        VehicleClass::Passenger,
        lane.allow@,
        lane.disallow@,
    )
}

/// Whether the known lanes that a zone controls are all there for bicycles,
/// and there is one.
pub open spec fn is_bicycle_zone(exits: Seq<GateView>, lanes: Seq<Lane>) -> bool {
    &&& exists|i: int| 0 <= i < exits.len() && lane_called(lanes, (#[trigger] exits[i]).lane) is Some
    &&& forall|i: int|
        0 <= i < exits.len() ==> match lane_called(lanes, (#[trigger] exits[i]).lane) {
            Some(lane) => is_bicycle_lane(lane),
            None => true,
        }
}

/// Who waits in a zone.
pub open spec fn modes_of(zone: DetectorView, lanes: Seq<Lane>) -> Seq<Seq<char>> {
    if zone.detect_persons.len() > 0 {
        seq!["ON_FOOT"@]
    } else if is_bicycle_zone(zone.exits, lanes) {
        seq!["BICYCLE"@]
    } else {
        seq!["CAR"@, "MOTORCYCLE"@]
    }
}

/// What a list of names says.
pub open spec fn name_views(names: Seq<&'static str>) -> Seq<Seq<char>> {
    Seq::new(names.len(), |i: int| names[i]@)
}

/// Who waits in a zone: a zone of pedestrians is for people on foot whatever
/// its lanes allow, and a zone whose lanes are all there for bicycles is for
/// them.
pub fn zone_modes(zone: &E3Detector, lanes: &LaneTable) -> (modes: Vec<&'static str>)
    ensures
        name_views(modes@) == modes_of(zone@, lanes@),
{
    let mut modes: Vec<&'static str> = Vec::new();
    if zone.detect_persons.len() > 0 {
        modes.push("ON_FOOT");
        assert(name_views(modes@) =~= seq!["ON_FOOT"@]);
        return modes;
    }
    let ghost exits = gates(zone.exits@);
    let mut some_known: bool = false;
    let mut all_bicycle: bool = true;
    let mut i: usize = 0;
    while i < zone.exits.len()
        invariant
            i <= zone.exits@.len(),
            exits == gates(zone.exits@),
            some_known <==> exists|k: int|
                0 <= k < i && lane_called(lanes@, (#[trigger] exits[k]).lane) is Some,
            all_bicycle <==> forall|k: int|
                0 <= k < i ==> match lane_called(lanes@, (#[trigger] exits[k]).lane) {
                    Some(lane) => is_bicycle_lane(lane),
                    None => true,
                },
        decreases zone.exits@.len() - i,
    {
        let exit: &DetectorGate = &zone.exits[i];
        assert(exits[i as int].lane == exit.lane@);
        match lanes.get(exit.lane.as_str()) {
            Some(lane) => {
                some_known = true;
                let bicycle: bool = permitted_on(VehicleClass::Bicycle, &lane.allow, &lane.disallow)
                    && !permitted_on(VehicleClass::Passenger, &lane.allow, &lane.disallow);
                all_bicycle = all_bicycle && bicycle;
            },
            None => {},
        }
        i = i + 1;
    }
    if some_known && all_bicycle {
        modes.push("BICYCLE");
        assert(name_views(modes@) =~= seq!["BICYCLE"@]);
    } else {
        modes.push("CAR");
        modes.push("MOTORCYCLE");
        assert(name_views(modes@) =~= seq!["CAR"@, "MOTORCYCLE"@]);
    }
    modes
}

} // verus!
