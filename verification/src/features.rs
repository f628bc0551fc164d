//! What is published of a zone.

use crate::decimal::{add_digits, digits};
use crate::detector::{detectors, DetectorView, E3Detector, GateView};
use crate::lane_table::{junction_listing, JunctionTable, LaneTable};
use crate::modes::{modes_of, name_views, zone_modes};
use crate::network::{Junction, Lane, Point};
use crate::order::optional_text;
use crate::plane::Coord;
use crate::quoting::{quote, quoted};
use crate::ring::copy_coords;
use crate::splitting::{polygon_views, Polygon, PolygonView};
use crate::stop_lines::{nearest_candidate, published_stop_line};
use vstd::prelude::*;

verus! {

/// The junction that a zone's traffic waits at: the one that its first exit
/// leads to, where the network says so.
pub open spec fn intersection_of(exits: Seq<GateView>, junctions: Seq<Junction>) -> Option<
    Seq<char>,
> {
    if exits.len() == 0 {
        None
    } else {
        junction_listing(junctions, exits[0].lane)
    }
}

/// The junction that a zone's traffic waits at.
pub fn intersection_id(zone: &E3Detector, junctions: &JunctionTable) -> (id: Option<String>)
    ensures
        optional_text(id) == intersection_of(zone@.exits, junctions@),
{
    if zone.exits.len() == 0 {
        return None;
    }
    assert(zone@.exits[0].lane == zone.exits@[0].lane@);
    junctions.get(zone.exits[0].lane.as_str())
}

/// What is published of a zone, in the network's coordinates.
#[derive(Debug, PartialEq, Eq)]
pub struct ZoneFeature {
    pub waiting_zone_id: String,
    /// The junction that its traffic waits at, where the network says so.
    pub intersection_id: Option<String>,
    pub stop_line: Point,
    /// Who waits in it.
    pub modes: Vec<&'static str>,
    /// The ring around it.
    pub ring: Vec<Coord>,
}

/// What a [`ZoneFeature`] says.
#[verifier::ext_equal]
pub struct ZoneFeatureView {
    pub waiting_zone_id: Seq<char>,
    pub intersection_id: Option<Seq<char>>,
    pub stop_line: Point,
    pub modes: Seq<Seq<char>>,
    pub ring: Seq<Coord>,
}

impl View for ZoneFeature {
    type V = ZoneFeatureView;

    open spec fn view(&self) -> ZoneFeatureView {
        ZoneFeatureView {
            waiting_zone_id: self.waiting_zone_id@,
            intersection_id: optional_text(self.intersection_id),
            stop_line: self.stop_line,
            modes: name_views(self.modes@),
            ring: self.ring@,
        }
    }
}

/// What is published of a zone that is drawn as one part, with its stop line
/// at the best of the candidates.
pub open spec fn feature_of(
    zone: DetectorView,
    lanes: Seq<Lane>,
    junctions: Seq<Junction>,
    part: PolygonView,
    candidates: Seq<Point>,
    held: Seq<bool>,
) -> ZoneFeatureView {
    ZoneFeatureView {
        waiting_zone_id: zone.id,
        intersection_id: intersection_of(zone.exits, junctions),
        stop_line: candidates[nearest_candidate(
            candidates,
            seq![part],
            held,
            candidates.len(),
        )],
        modes: modes_of(zone, lanes),
        ring: part.exterior,
    }
}

/// A zone that is not drawn as one part.
#[derive(Debug, PartialEq, Eq)]
pub struct NotOnePart {
    pub zone: String,
    pub parts: usize,
}

/// What tells that a zone, whose id is shown like this, is drawn as so many
/// parts.
pub open spec fn not_one_part_text(zone: Seq<char>, parts: nat) -> Seq<char> {
    "zone DetectorId("@ + zone + ") resolved to "@ + digits(parts)
        + " polygon part(s), expected exactly 1 \u{2014} geojson_output only emits a Polygon, not a MultiPolygon"@
}

/// What tells that a zone, whose id is shown like this, is drawn as so many
/// parts.
pub fn not_one_part_message(zone: &str, parts: usize) -> (text: String)
    ensures
        text@ == not_one_part_text(zone@, parts as nat),
{
    let mut text: String = "zone DetectorId(".to_owned();
    text.append(zone);
    text.append(") resolved to ");
    add_digits(&mut text, parts as u64);
    text.append(
        " polygon part(s), expected exactly 1 \u{2014} geojson_output only emits a Polygon, not a MultiPolygon",
    );
    text
}

impl NotOnePart {
    /// What the error tells its reader.
    pub fn message(&self) -> (text: String)
        ensures
            text@ == not_one_part_text(quoted(self.zone@), self.parts as nat),
    {
        let zone: String = quote(self.zone.as_str());
        not_one_part_message(zone.as_str(), self.parts)
    }
}

/// What is published of a zone that is drawn as these parts, with its stop
/// line at the best of the candidates, which the parts hold or not. It fails
/// unless the zone is drawn as one part.
pub fn build_feature(
    zone: &E3Detector,
    lanes: &LaneTable,
    junctions: &JunctionTable,
    parts: &Vec<Polygon>,
    candidates: &Vec<Point>,
    held: &Vec<bool>,
) -> (feature: Result<ZoneFeature, NotOnePart>)
    requires
        candidates@.len() > 0,
        held@.len() == candidates@.len(),
    ensures
        match feature {
            Ok(f) => parts@.len() == 1 && f@ == feature_of(
                zone@,
                lanes@,
                junctions@,
                parts@[0]@,
                candidates@,
                held@,
            ),
            Err(e) => parts@.len() != 1 && e.zone@ == zone.id@ && e.parts == parts@.len(),
        },
{
    if parts.len() != 1 {
        return Err(NotOnePart { zone: zone.id.clone(), parts: parts.len() });
    }
    assert(polygon_views(parts@) =~= seq![parts@[0]@]);
    Ok(
        ZoneFeature {
            waiting_zone_id: zone.id.clone(),
            intersection_id: intersection_id(zone, junctions),
            stop_line: published_stop_line(candidates, parts, held),
            modes: zone_modes(zone, lanes),
            ring: copy_coords(&parts[0].exterior),
        },
    )
}

/// What tells that nothing is left of a zone whose id is shown like this.
pub open spec fn cut_away_text(zone: Seq<char>) -> Seq<char> {
    "zone DetectorId("@ + zone
        + ") was fully cut away by overlap resolution; omitted from the GeoJSON output"@
}

/// What tells that nothing is left of a zone whose id is shown like this.
pub fn cut_away_message_of(zone: &str) -> (text: String)
    ensures
        text@ == cut_away_text(zone@),
{
    let mut text: String = "zone DetectorId(".to_owned();
    text.append(zone);
    text.append(") was fully cut away by overlap resolution; omitted from the GeoJSON output");
    text
}

/// What tells that nothing is left of a zone.
pub fn cut_away_message(zone: &E3Detector) -> (text: String)
    ensures
        text@ == cut_away_text(quoted(zone.id@)),
{
    let shown: String = quote(zone.id.as_str());
    cut_away_message_of(shown.as_str())
}

/// Those of the zones that are of pedestrians, or those that are not.
pub open spec fn zones_of_kind(zones: Seq<DetectorView>, pedestrian: bool) -> Seq<DetectorView>
    decreases zones.len(),
{
    if zones.len() == 0 {
        Seq::empty()
    } else {
        let before = zones_of_kind(zones.drop_last(), pedestrian);
        if (zones.last().detect_persons.len() > 0) == pedestrian {
            before.push(zones.last())
        } else {
            before
        }
    }
}

/// The zones of pedestrians, and the zones of vehicles, each in order.
pub fn split_by_kind(zones: Vec<E3Detector>) -> (split: (Vec<E3Detector>, Vec<E3Detector>))
    ensures
        detectors(split.0@) == zones_of_kind(detectors(zones@), true),
        detectors(split.1@) == zones_of_kind(detectors(zones@), false),
{
    let ghost views = detectors(zones@);
    let mut rest: Vec<E3Detector> = zones;
    let mut pedestrian: Vec<E3Detector> = Vec::new();
    let mut vehicle: Vec<E3Detector> = Vec::new();
    let n: usize = rest.len();
    assert(views.take(0) =~= Seq::empty());
    assert(detectors(pedestrian@) =~= Seq::empty());
    assert(detectors(vehicle@) =~= Seq::empty());
    assert(views.skip(0) =~= views);
    let mut i: usize = 0;
    while i < n
        invariant
            i <= n,
            n == views.len(),
            detectors(rest@) == views.skip(i as int),
            detectors(pedestrian@) == zones_of_kind(views.take(i as int), true),
            detectors(vehicle@) == zones_of_kind(views.take(i as int), false),
        decreases n - i,
    {
        let ghost held = detectors(rest@);
        assert(held.len() == rest@.len());
        let zone: E3Detector = rest.remove(0);
        assert(zone@ == views.skip(i as int)[0]);
        assert(detectors(rest@) =~= held.skip(1));
        assert(held.skip(1) =~= views.skip(i + 1));
        assert(views.take(i + 1).drop_last() =~= views.take(i as int));
        assert(views.take(i + 1).last() == zone@);
        let ghost added = zone@;
        if zone.detect_persons.len() > 0 {
            let ghost listed = detectors(pedestrian@);
            pedestrian.push(zone);
            assert(detectors(pedestrian@) =~= listed.push(added));
        } else {
            let ghost listed = detectors(vehicle@);
            vehicle.push(zone);
            assert(detectors(vehicle@) =~= listed.push(added));
        }
        i = i + 1;
    }
    assert(views.take(views.len() as int) =~= views);
    (pedestrian, vehicle)
}

/// Every zone is either of pedestrians or of vehicles, so that splitting them
/// loses none and repeats none.
pub proof fn splitting_loses_no_zone(zones: Seq<DetectorView>)
    ensures
        zones_of_kind(zones, true).len() + zones_of_kind(zones, false).len() == zones.len(),
        forall|i: int|
            0 <= i < zones.len() ==> zones_of_kind(
                zones,
                (#[trigger] zones[i]).detect_persons.len() > 0,
            ).contains(zones[i]),
    decreases zones.len(),
{
    if zones.len() > 0 {
        let rest = zones.drop_last();
        splitting_loses_no_zone(rest);
        assert forall|i: int| 0 <= i < zones.len() implies zones_of_kind(
            zones,
            (#[trigger] zones[i]).detect_persons.len() > 0,
        ).contains(zones[i]) by {
            let kind = zones[i].detect_persons.len() > 0;
            let before = zones_of_kind(rest, kind);
            let after = zones_of_kind(zones, kind);
            if i < rest.len() {
                assert(before.contains(rest[i]));
                let k = choose|k: int| 0 <= k < before.len() && before[k] == rest[i];
                assert(after[k] == zones[i]);
            } else {
                assert(after[before.len() as int] == zones[i]);
            }
        }
    }
}

} // verus!
