//! Zones drawn, parted and described from networks built by hand.

use geo::{
    Area, BooleanOps, BoundingRect, Contains, Intersects, LineString, MultiPolygon, Simplify,
};
use i_overlay::mesh::stroke::offset::StrokeOffset;
use i_overlay::mesh::style::{LineCap, LineJoin, StrokeStyle};
use proj4rs::proj::Proj;
use proj4rs::transform::transform;
use sumo_types::additional::domain::{DetectorId, LaneRef};
use waiting_zones::cleaning::Turn;
use waiting_zones::cutting::{CutAction, Cutting};
use waiting_zones::detector::{DetectorGate, E3Detector, LanePosition, PersonMode};
use waiting_zones::double::Double;
use waiting_zones::drawing::{
    finish_drawing, plan_zone, LineEnd, Stroke, ZonePlan, MIN_DRAWN_LANE_LENGTH_METERS,
    ROUND_JOIN_SEGMENT_ANGLE_RADIANS,
};
use waiting_zones::features::{build_feature, cut_away_message, split_by_kind, ZoneFeature};
use waiting_zones::finishing::{FinishAction, Finishing};
use waiting_zones::lane_table::{JunctionTable, LaneTable};
use waiting_zones::network::{
    Connection, ConnectionDirection, Edge, EdgeFunction, Junction, JunctionKind, Lane, Location,
    Network, Point, Projection,
};
use waiting_zones::overlaps::{
    boxes_overlap, overlapping_zone_ids, overlapping_zone_ids_larger_than, Bounds, Pair,
};
use waiting_zones::path::suffixed;
use waiting_zones::plane::Coord;
use waiting_zones::polygons::{drop_interior_rings, shapes_to_multipolygon};
use waiting_zones::projection::has_breaking_angle;
use waiting_zones::reprojection::{
    invalid_projection_message, Reprojector, ReprojectionError, WGS84_LONLAT,
};
use waiting_zones::resolution::{cuts_for, Action, Resolution};
use waiting_zones::ring::find_near_touch;
use waiting_zones::splitting::{weld_near_touch_and_split, Polygon};
use waiting_zones::stop_lines::{
    stop_line_point, stop_line_points, zone_stop_line_candidates,
};
use waiting_zones::successors::{single_successors, Successors};

fn double(value: f64) -> Double {
    Double { bits: value.to_bits() }
}

fn number(value: Double) -> f64 {
    f64::from_bits(value.bits)
}

fn line(ring: &[Coord]) -> LineString<f64> {
    ring.iter().map(|c| (number(c.x), number(c.y))).collect()
}

fn ring(line: &LineString<f64>) -> Vec<Coord> {
    line.coords().map(|c| Coord { x: double(c.x), y: double(c.y) }).collect()
}

fn part_to_geo(part: &Polygon) -> geo::Polygon<f64> {
    geo::Polygon::new(line(&part.exterior), part.interiors.iter().map(|hole| line(hole)).collect())
}

fn to_geo(parts: &[Polygon]) -> MultiPolygon<f64> {
    MultiPolygon::new(parts.iter().map(part_to_geo).collect())
}

fn from_geo(drawn: &MultiPolygon<f64>) -> Vec<Polygon> {
    drawn
        .0
        .iter()
        .map(|part| Polygon {
            exterior: ring(part.exterior()),
            interiors: part.interiors().iter().map(ring).collect(),
        })
        .collect()
}

fn draw_stroke(stroke: &Stroke) -> MultiPolygon<f64> {
    if stroke.path.len() < 2 {
        return MultiPolygon::new(Vec::new());
    }
    let path: Vec<[f64; 2]> = stroke.path.iter().map(|p| [number(p.x), number(p.y)]).collect();
    let join = Double { bits: ROUND_JOIN_SEGMENT_ANGLE_RADIANS };
    let style = StrokeStyle::new(number(stroke.width))
        .line_join(LineJoin::Round(number(join)))
        .start_cap(LineCap::Butt)
        .end_cap(match stroke.end {
            LineEnd::Butt => LineCap::Butt,
            LineEnd::Square => LineCap::Square,
        });
    let shapes = path
        .stroke(style, false)
        .into_iter()
        .map(|contours| {
            contours
                .into_iter()
                .map(|contour| {
                    contour.into_iter().map(|[x, y]| Coord { x: double(x), y: double(y) }).collect()
                })
                .collect()
        })
        .collect();
    to_geo(&shapes_to_multipolygon(&shapes))
}

fn draw_outline(outline: &Option<Vec<Coord>>) -> MultiPolygon<f64> {
    match outline {
        Some(ring) => {
            let raw = MultiPolygon::new(vec![geo::Polygon::new(line(ring), Vec::new())]);
            raw.union(&raw)
        }
        None => MultiPolygon::new(Vec::new()),
    }
}

fn draw(plan: &ZonePlan) -> MultiPolygon<f64> {
    let pieces: Vec<MultiPolygon<f64>> = if plan.pedestrian {
        plan.outlines.iter().map(draw_outline).collect()
    } else {
        plan.core.iter().map(draw_stroke).collect()
    };
    let core = pieces
        .into_iter()
        .reduce(|drawn, piece| drawn.union(&piece))
        .unwrap_or_else(|| MultiPolygon::new(Vec::new()));
    let drawn = plan.chains.iter().fold(core, |drawn, chain| drawn.union(&draw_stroke(chain)));
    match plan.tolerance {
        Some(tolerance) => drawn.simplify(number(tolerance)),
        None => drawn,
    }
}

/// What is drawn for `zone`, at least `pad` metres long.
fn zone_polygon(
    zone: &E3Detector,
    lanes: &LaneTable,
    successors: &Successors,
    pad: Double,
) -> Result<Vec<Polygon>, String> {
    let plan = plan_zone(zone, lanes, successors, pad).map_err(|e| e.message())?;
    let parts = from_geo(&draw(&plan));
    let areas = areas(&drop_interior_rings(parts.clone()));
    Ok(finish_drawing(parts, &areas))
}

fn areas(parts: &[Polygon]) -> Vec<Double> {
    parts.iter().map(|part| double(part_to_geo(part).unsigned_area())).collect()
}

fn geo_point(c: Coord) -> geo::Point<f64> {
    geo::Point::new(number(c.x), number(c.y))
}

fn holds(parts: &[Polygon], point: Coord) -> bool {
    to_geo(parts).contains(&geo_point(point))
}

fn weigh(parts: &[Polygon], stop_point: Coord) -> (Vec<bool>, Vec<Double>) {
    let reference = geo_point(stop_point);
    let inside: Vec<bool> =
        parts.iter().map(|part| part_to_geo(part).contains(&reference)).collect();
    let held = if inside.contains(&true) {
        inside
    } else {
        parts.iter().map(|part| part_to_geo(part).intersects(&reference)).collect()
    };
    (held, areas(parts))
}

fn bounds(parts: &[Polygon]) -> Option<Bounds> {
    to_geo(parts).bounding_rect().map(|rect| Bounds {
        min_x: double(rect.min().x),
        min_y: double(rect.min().y),
        max_x: double(rect.max().x),
        max_y: double(rect.max().y),
    })
}

fn degrees(turns: &[Turn]) -> Vec<Double> {
    turns
        .iter()
        .map(|turn| double(number(turn.cross).atan2(number(turn.dot)).to_degrees()))
        .collect()
}

fn overlap_area_m2(a: &[Polygon], b: &[Polygon]) -> Double {
    if boxes_overlap(bounds(a), bounds(b)) {
        double(to_geo(a).intersection(&to_geo(b)).unsigned_area())
    } else {
        double(0.0)
    }
}

fn cut(parts: Vec<Polygon>, subtrahend: &MultiPolygon<f64>, stop_point: Coord) -> Vec<Polygon> {
    let taken = from_geo(subtrahend);
    let (mut cutting, mut action) = Cutting::start(parts);
    loop {
        action = match action {
            CutAction::Share(part) => cutting.shared(overlap_area_m2(&[part], &taken)),
            CutAction::Subtract(part) => {
                cutting.subtracted(from_geo(&to_geo(&[part]).difference(subtrahend)))
            }
            CutAction::Weigh(pieces) => {
                let (held, areas) = weigh(&pieces, stop_point);
                cutting.weighed(&held, &areas)
            }
            CutAction::Finish(left) => return left,
        }
    }
}

fn cut_zones(polygons: &mut [Vec<Polygon>], pairs: &Vec<Pair>, stop_points: &[Coord]) {
    let shared: Vec<MultiPolygon<f64>> = pairs
        .iter()
        .map(|&(i, j)| to_geo(&polygons[i]).intersection(&to_geo(&polygons[j])))
        .collect();
    for zone in 0..polygons.len() {
        let subtrahend = cuts_for(pairs, zone)
            .into_iter()
            .flat_map(|cut| shared[cut].0.iter().cloned())
            .map(|part| MultiPolygon::new(vec![part]))
            .reduce(|united, part| united.union(&part));
        if let Some(subtrahend) = subtrahend {
            let parts = std::mem::take(&mut polygons[zone]);
            polygons[zone] = cut(parts, &subtrahend, stop_points[zone]);
        }
    }
}

fn resolve_overlaps(
    zones: &[E3Detector],
    lanes: &LaneTable,
    successors: &Successors,
    stop_points: &[Coord],
    polygons: &mut [Vec<Polygon>],
) -> Result<Vec<Pair>, String> {
    let boxes = polygons.iter().map(|parts| bounds(parts)).collect();
    let (mut resolution, mut action) = Resolution::start(&boxes);
    loop {
        action = match action {
            Action::Measure(pairs) => {
                let areas = pairs
                    .iter()
                    .map(|&(i, j)| overlap_area_m2(&polygons[i], &polygons[j]))
                    .collect();
                resolution.measured(&areas)
            }
            Action::Probe { zone, pad, opposing } => {
                let drawn = zone_polygon(&zones[zone], lanes, successors, pad)?;
                resolution.probed(overlap_area_m2(&drawn, &polygons[opposing]))
            }
            Action::Redraw { zone, pad } => {
                polygons[zone] = zone_polygon(&zones[zone], lanes, successors, pad)?;
                resolution.redrawn()
            }
            Action::Cut(pairs) => {
                cut_zones(polygons, &pairs, stop_points);
                resolution.cut()
            }
            Action::Finish(left) => return Ok(left),
        }
    }
}

fn to_lon_lat(reproject: &Reprojector, point: Point) -> Result<[f64; 2], String> {
    let projected = reproject.projected(point);
    let mut coords = (number(projected.x), number(projected.y), 0.0);
    transform(reproject.from.proj(), reproject.to.proj(), &mut coords).map_err(|e| e.to_string())?;
    Ok([coords.0.to_degrees(), coords.1.to_degrees()])
}


/// What is published of a zone, in longitude and latitude.
#[derive(Debug)]
struct Published {
    feature: ZoneFeature,
    stop_line: [f64; 2],
    ring: Vec<[f64; 2]>,
}

fn publish(feature: ZoneFeature, reproject: &Reprojector) -> Result<Published, String> {
    let stop_line = to_lon_lat(reproject, feature.stop_line)?;
    let ring = feature
        .ring
        .iter()
        .map(|c| to_lon_lat(reproject, Point { x: c.x, y: c.y, z: double(0.0) }))
        .collect::<Result<Vec<[f64; 2]>, String>>()?;
    Ok(Published { feature, stop_line, ring })
}

fn published_zone(
    zone: &E3Detector,
    lanes: &LaneTable,
    junctions: &JunctionTable,
    parts: &Vec<Polygon>,
    reproject: &Reprojector,
) -> Result<Published, String> {
    let candidates = zone_stop_line_candidates(zone, lanes).map_err(|e| e.message())?;
    let held = candidates.iter().map(|p| holds(parts, Coord { x: p.x, y: p.y })).collect();
    let feature = build_feature(zone, lanes, junctions, parts, &candidates, &held)
        .map_err(|e| e.message())?;
    publish(feature, reproject)
}

fn finish(zone: &E3Detector, parts: Vec<Polygon>, stop_point: Coord) -> Vec<Polygon> {
    let (mut finishing, mut action) = Finishing::start(parts, !zone.detect_persons.is_empty());
    loop {
        action = match action {
            FinishAction::Weigh(parts) => {
                let (held, areas) = weigh(&parts, stop_point);
                finishing.weighed(&held, &areas)
            }
            FinishAction::Measure(turns) => finishing.measured(&degrees(&turns)),
            FinishAction::Finish(parts) => return parts,
        }
    }
}

fn to_feature_collection(network: &Network, zones: &[E3Detector]) -> Result<Vec<Published>, String> {
    let reproject = Reprojector::new(&network.location).map_err(|e| e.message())?;
    let lanes = LaneTable::of(network);
    let junctions = JunctionTable::of(network);
    let successors = single_successors(network);
    let pad = Double { bits: MIN_DRAWN_LANE_LENGTH_METERS };

    let mut polygons = zones
        .iter()
        .map(|zone| zone_polygon(zone, &lanes, &successors, pad))
        .collect::<Result<Vec<_>, String>>()?;
    let stop_points = zones
        .iter()
        .map(|zone| {
            let point = stop_line_point(zone, &lanes).map_err(|e| e.message())?;
            Ok(Coord { x: point.x, y: point.y })
        })
        .collect::<Result<Vec<Coord>, String>>()?;

    resolve_overlaps(zones, &lanes, &successors, &stop_points, &mut polygons)?;
    let finished: Vec<Vec<Polygon>> = zones
        .iter()
        .zip(polygons)
        .zip(&stop_points)
        .map(|((zone, parts), &stop_point)| finish(zone, parts, stop_point))
        .collect();

    let mut features = Vec::new();
    for (zone, parts) in zones.iter().zip(&finished) {
        if !parts.is_empty() {
            features.push(published_zone(zone, &lanes, &junctions, parts, &reproject)?);
        }
    }
    Ok(features)
}


/// The polygon of a published ring, in degrees.
fn published_polygon(published: &Published) -> MultiPolygon<f64> {
    let line: LineString<f64> = published.ring.iter().map(|p| (p[0], p[1])).collect();
    MultiPolygon::new(vec![geo::Polygon::new(line, Vec::new())])
}

/// Every pair of published zones, and the square degrees that it shares.
fn shared_square_degrees(published: &[Published]) -> (Vec<Option<String>>, Vec<Pair>, Vec<Double>) {
    let ids = published.iter().map(|p| Some(p.feature.waiting_zone_id.clone())).collect();
    let mut pairs = Vec::new();
    let mut shared = Vec::new();
    for i in 0..published.len() {
        for j in (i + 1)..published.len() {
            let a = published_polygon(&published[i]);
            let b = published_polygon(&published[j]);
            pairs.push((i, j));
            shared.push(double(a.intersection(&b).unsigned_area()));
        }
    }
    (ids, pairs, shared)
}

fn overlapping_ids(published: &[Published]) -> Vec<(String, String)> {
    let (ids, pairs, shared) = shared_square_degrees(published);
    overlapping_zone_ids(&ids, &pairs, &shared)
}

fn at(x: f64, y: f64) -> Point {
    Point { x: double(x), y: double(y), z: double(0.0) }
}

fn shape(points: &[(f64, f64)]) -> Vec<Point> {
    points.iter().map(|&(x, y)| at(x, y)).collect()
}

/// A straight, north-pointing lane 20m long, from `(0, 0)` to `(0, 20)`.
fn straight_lane(id: &str, width_m: f64) -> Lane {
    parallel_lane(id, width_m, 0.0)
}

/// [`straight_lane`], shifted `x_offset_m` east.
fn parallel_lane(id: &str, width_m: f64, x_offset_m: f64) -> Lane {
    Lane {
        id: id.to_string(),
        index: 0,
        length: double(20.0),
        width: double(width_m),
        shape: shape(&[(x_offset_m, 0.0), (x_offset_m, 20.0)]),
        allow: vec![],
        disallow: vec![],
    }
}

fn indexed_parallel_lane(id: &str, index: usize, width_m: f64, x_offset_m: f64) -> Lane {
    Lane { index, ..parallel_lane(id, width_m, x_offset_m) }
}

/// A straight, north-pointing lane `length_m` long.
fn short_lane(id: &str, length_m: f64, width_m: f64) -> Lane {
    Lane {
        length: double(length_m),
        shape: shape(&[(0.0, 0.0), (0.0, length_m)]),
        ..parallel_lane(id, width_m, 0.0)
    }
}

/// A straight lane from `from` to `to`.
fn segment_lane(id: &str, width_m: f64, from: (f64, f64), to: (f64, f64)) -> Lane {
    Lane {
        length: double((to.0 - from.0).hypot(to.1 - from.1)),
        shape: shape(&[from, to]),
        ..parallel_lane(id, width_m, 0.0)
    }
}

fn utm_31n_network(lanes: Vec<Lane>) -> Network {
    utm_31n_network_multi_edge(vec![("e0", lanes)])
}

fn utm_31n_network_multi_edge(edges: Vec<(&str, Vec<Lane>)>) -> Network {
    Network {
        location: Location {
            net_offset: at(-430_000.0, -4_582_000.0),
            projection: Projection::Proj4(
                "+proj=utm +zone=31 +ellps=WGS84 +datum=WGS84 +units=m +no_defs".to_string(),
            ),
        },
        edges: edges
            .into_iter()
            .map(|(id, lanes)| Edge {
                id: id.to_string(),
                function: EdgeFunction::Normal,
                from: None,
                lanes,
            })
            .collect(),
        junctions: vec![],
        connections: vec![],
        traffic_light_programs: vec![],
    }
}

fn plain_connection(from_edge: &str, to_edge: &str, via: Option<&str>) -> Connection {
    Connection {
        from_edge: from_edge.to_string(),
        to_edge: to_edge.to_string(),
        from_lane: 0,
        to_lane: 0,
        direction: ConnectionDirection::Straight,
        via: via.map(|via| via.to_string()),
        traffic_light: None,
        link_index: None,
    }
}

fn gate(lane: &str, from_start_m: f64) -> DetectorGate {
    DetectorGate {
        lane: lane.to_string(),
        position: LanePosition::FromStart(double(from_start_m)),
        friendly_position: Some(true),
    }
}

fn zone_between(id: &str, entries: Vec<DetectorGate>, exits: Vec<DetectorGate>) -> E3Detector {
    E3Detector {
        id: id.to_string(),
        entries,
        exits,
        file: String::new(),
        period: None,
        name: None,
        icon_position: None,
        speed_threshold: None,
        time_threshold: None,
        open_entry: None,
        detect_persons: Vec::new(),
    }
}

fn zone(id: &str, lane: &str) -> E3Detector {
    zone_spanning(id, lane, 20.0)
}

fn zone_spanning(id: &str, lane: &str, exit_m: f64) -> E3Detector {
    zone_between(id, vec![gate(lane, 0.0)], vec![gate(lane, exit_m)])
}

fn zone_multi(id: &str, lane_ids: &[&str]) -> E3Detector {
    zone_between(
        id,
        lane_ids.iter().map(|lane| gate(lane, 0.0)).collect(),
        lane_ids.iter().map(|lane| gate(lane, 20.0)).collect(),
    )
}

fn pedestrian(zone: E3Detector) -> E3Detector {
    E3Detector { detect_persons: vec![PersonMode::Walk], ..zone }
}

fn signed_area(ring: &[(f64, f64)]) -> f64 {
    let n = ring.len();
    if n < 3 {
        return 0.0;
    }
    (0..n)
        .map(|i| {
            let (x1, y1) = ring[i];
            let (x2, y2) = ring[(i + 1) % n];
            x1 * y2 - x2 * y1
        })
        .sum::<f64>()
        / 2.0
}

/// How deeply any two edges of a ring that are not next to each other cross:
/// the distance from the crossing to the nearest end of either.
fn ring_self_intersection_depth(points: &[(f64, f64)]) -> f64 {
    let n = points.len();
    let mut deepest: f64 = 0.0;
    for i in 0..n {
        for j in (i + 2)..n {
            if i == 0 && j == n - 1 {
                continue;
            }
            let (a1, a2) = (points[i], points[(i + 1) % n]);
            let (b1, b2) = (points[j], points[(j + 1) % n]);
            let (adx, ady) = (a2.0 - a1.0, a2.1 - a1.1);
            let (bdx, bdy) = (b2.0 - b1.0, b2.1 - b1.1);
            let denominator = adx * bdy - ady * bdx;
            if denominator == 0.0 {
                continue;
            }
            let (ex, ey) = (b1.0 - a1.0, b1.1 - a1.1);
            let t = (ex * bdy - ey * bdx) / denominator;
            let u = (ex * ady - ey * adx) / denominator;
            if !(0.0..=1.0).contains(&t) || !(0.0..=1.0).contains(&u) {
                continue;
            }
            let (a_length, b_length) = (adx.hypot(ady), bdx.hypot(bdy));
            let depth = (t * a_length)
                .min((1.0 - t) * a_length)
                .min(u * b_length)
                .min((1.0 - u) * b_length);
            deepest = deepest.max(depth);
        }
    }
    deepest
}

fn open_points(ring: &[[f64; 2]]) -> Vec<(f64, f64)> {
    ring[..ring.len().saturating_sub(1)].iter().map(|p| (p[0], p[1])).collect()
}

fn ring_self_intersects(ring: &[[f64; 2]]) -> bool {
    ring_self_intersection_depth(&open_points(ring)) > 0.0
}

fn spread(values: impl Iterator<Item = f64> + Clone) -> f64 {
    values.clone().fold(f64::MIN, f64::max) - values.fold(f64::MAX, f64::min)
}

/// How far a ring reaches from south to north, in metres.
fn lat_span_m(ring: &[[f64; 2]]) -> f64 {
    spread(ring.iter().map(|p| p[1])) * 111_320.0
}

fn ring_area_m2(ring: &[[f64; 2]]) -> f64 {
    signed_area(&open_points(ring)).abs() * 84_000.0 * 111_000.0
}

#[test]
fn rejects_an_unprojected_network() {
    let network = Network {
        location: Location { net_offset: at(0.0, 0.0), projection: Projection::Local },
        ..utm_31n_network(vec![])
    };

    let err = to_feature_collection(&network, &[]).unwrap_err();
    assert!(err.contains("not georeferenced"), "{err}");
}

#[test]
fn refuses_a_projection_that_cannot_be_made() {
    let location = Location {
        net_offset: at(0.0, 0.0),
        projection: Projection::Proj4("+proj=nonsense".to_string()),
    };
    let Err(error) = Reprojector::new(&location) else {
        panic!("there is no such projection");
    };
    assert_eq!(
        error.message(),
        "invalid PROJ4 string in .net.xml location: \"+proj=nonsense\""
    );
    let ReprojectionError::InvalidProjection { definition, cause } = error else {
        panic!("the network has a projection");
    };
    assert_eq!(definition, "+proj=nonsense");
    let expected = Proj::from_proj_string("+proj=nonsense").err().unwrap();
    assert_eq!(cause.to_string(), expected.to_string());

    let odd = "a \"quoted\\word\"\n".to_string();
    let shown = format!("invalid PROJ4 string in .net.xml location: {odd:?}");
    let error = ReprojectionError::InvalidProjection { definition: odd, cause };
    assert_eq!(error.message(), shown);
    assert_eq!(invalid_projection_message("x"), "invalid PROJ4 string in .net.xml location: x");
}

#[test]
fn minutes_behind_a_degree_sign_would_break_the_parser() {
    for text in ["+lon_0=38\u{b0}30'", "+lon_0=38\u{b0}30.5\"E", "\u{b0}'", "x\u{e9}7'y"] {
        assert!(has_breaking_angle(text), "{text}");
    }
    for text in ["", "'", "+lon_0=38d30'", "+lon_0=38\u{b0}", "\u{b0}3d'", "\u{b0}3 '", WGS84_LONLAT] {
        assert!(!has_breaking_angle(text), "{text}");
    }
    let definition = "+proj=longlat +lon_0=38d30' +lat_0=2\u{b0} +x_0=270000".to_string();
    let location =
        Location { net_offset: at(0.0, 0.0), projection: Projection::Proj4(definition) };
    assert!(Reprojector::new(&location).is_ok());
}

#[test]
fn plain_longitude_and_latitude_are_a_projection() {
    let location = Location {
        net_offset: at(1.0, 2.0),
        projection: Projection::Proj4(WGS84_LONLAT.to_string()),
    };
    let reproject = Reprojector::new(&location).ok().unwrap();
    assert_eq!(reproject.projected(at(3.5, 2.25)), Coord { x: double(2.5), y: double(0.25) });
}

#[test]
fn reprojects_the_lane_shape_into_a_plausible_lon_lat_box() {
    let network = utm_31n_network(vec![straight_lane("e0_0", 3.2)]);
    let zones = vec![zone("j0_0", "e0_0")];

    let collection = to_feature_collection(&network, &zones).unwrap();
    assert_eq!(collection.len(), 1);

    let published = &collection[0];
    assert_eq!(published.feature.waiting_zone_id, "j0_0");

    let ring = &published.ring;
    assert_eq!(ring.first(), ring.last(), "a linear ring must close");

    // Barcelona-ish: UTM 31N puts it around 2 degrees east, 41 north.
    for position in ring {
        assert!((1.0..3.0).contains(&position[0]), "lon {} out of range", position[0]);
        assert!((40.0..42.0).contains(&position[1]), "lat {} out of range", position[1]);
    }

    let stop_line = published.stop_line;
    assert!((1.0..3.0).contains(&stop_line[0]));
    assert!((40.0..42.0).contains(&stop_line[1]));
}

fn junction(id: &str, incoming: &[&str]) -> Junction {
    Junction {
        id: id.to_string(),
        position: at(0.0, 0.0),
        kind: JunctionKind::TrafficLight,
        incoming_lanes: incoming.iter().map(|lane| lane.to_string()).collect(),
    }
}

#[test]
fn reports_intersection_id_from_the_junction_listing_the_exit_lane_when_the_network_has_one() {
    let network = Network {
        junctions: vec![junction("j5", &["e0_0"])],
        ..utm_31n_network(vec![straight_lane("e0_0", 3.2)])
    };
    let zones = vec![zone("j0_0", "e0_0")];

    let collection = to_feature_collection(&network, &zones).unwrap();
    assert_eq!(collection[0].feature.intersection_id, Some("j5".to_string()));
}

#[test]
fn omits_intersection_id_when_the_network_does_not_say_which_junction() {
    let network = utm_31n_network(vec![straight_lane("e0_0", 3.2)]);
    let zones = vec![zone("j0_0", "e0_0")];

    let collection = to_feature_collection(&network, &zones).unwrap();
    assert!(collection[0].feature.intersection_id.is_none());
}

#[test]
fn the_last_junction_that_lists_a_lane_is_its_intersection() {
    let network = Network {
        junctions: vec![junction("j1", &["x", "e0_0"]), junction("j2", &["e0_0", "y"])],
        ..utm_31n_network(vec![straight_lane("e0_0", 3.2)])
    };
    let table = JunctionTable::of(&network);
    assert_eq!(table.get("e0_0"), Some("j2".to_string()));
    assert_eq!(table.get("x"), Some("j1".to_string()));
    assert_eq!(table.get("z"), None);
}

#[test]
fn zones_are_split_into_those_of_pedestrians_and_those_of_vehicles() {
    let walkingarea = Lane {
        shape: shape(&[(10.0, 0.0), (12.0, 0.0), (12.0, 2.0), (10.0, 2.0)]),
        ..straight_lane("e0_1", 3.2)
    };
    let network = utm_31n_network_multi_edge(vec![
        ("e0", vec![straight_lane("e0_0", 3.2)]),
        ("e1", vec![walkingarea]),
    ]);
    let zones = vec![zone("j0_0", "e0_0"), pedestrian(zone("j0_1", "e0_1"))];

    let (on_foot, driving) = split_by_kind(zones);
    let ids = |zones: &[E3Detector]| -> Vec<String> {
        let published = to_feature_collection(&network, zones).unwrap();
        published.into_iter().map(|p| p.feature.waiting_zone_id).collect()
    };
    assert_eq!(ids(&driving), vec!["j0_0"]);
    assert_eq!(ids(&on_foot), vec!["j0_1"]);
    assert_eq!(suffixed("zones.geojson", "vehicles"), "zones.vehicles.geojson");
    assert_eq!(suffixed("zones.geojson", "pedestrians"), "zones.pedestrians.geojson");
}

#[test]
fn a_default_lane_with_no_allow_or_disallow_is_a_generic_vehicle_zone() {
    let network = utm_31n_network(vec![straight_lane("e0_0", 3.2)]);
    let zones = vec![zone("j0_0", "e0_0")];

    let collection = to_feature_collection(&network, &zones).unwrap();
    assert_eq!(collection[0].feature.modes, vec!["CAR", "MOTORCYCLE"]);
}

#[test]
fn a_dedicated_bike_lane_is_bicycle_only() {
    let lane = Lane { allow: vec!["bicycle".to_string()], ..straight_lane("e0_0", 3.2) };
    let network = utm_31n_network(vec![lane]);
    let zones = vec![zone("j0_0", "e0_0")];

    let collection = to_feature_collection(&network, &zones).unwrap();
    assert_eq!(collection[0].feature.modes, vec!["BICYCLE"]);
}

#[test]
fn a_bus_only_lane_still_counts_as_a_generic_vehicle_zone() {
    let lane = Lane { allow: vec!["bus".to_string()], ..straight_lane("e0_0", 3.2) };
    let network = utm_31n_network(vec![lane]);
    let zones = vec![zone("j0_0", "e0_0")];

    let collection = to_feature_collection(&network, &zones).unwrap();
    assert_eq!(collection[0].feature.modes, vec!["CAR", "MOTORCYCLE"]);
}

#[test]
fn a_lane_disallowing_bicycles_is_still_a_generic_vehicle_zone() {
    let lane = Lane { disallow: vec!["bicycle".to_string()], ..straight_lane("e0_0", 3.2) };
    let network = utm_31n_network(vec![lane]);
    let zones = vec![zone("j0_0", "e0_0")];

    let collection = to_feature_collection(&network, &zones).unwrap();
    assert_eq!(collection[0].feature.modes, vec!["CAR", "MOTORCYCLE"]);
}

#[test]
fn a_lane_that_keeps_cars_off_is_there_for_bicycles() {
    let lane = Lane { disallow: vec!["passenger".to_string()], ..straight_lane("e0_0", 3.2) };
    let network = utm_31n_network(vec![lane]);
    let table = LaneTable::of(&network);
    let modes = waiting_zones::modes::zone_modes(&zone("j0_0", "e0_0"), &table);
    assert_eq!(modes, vec!["BICYCLE"]);
}

#[test]
fn a_lane_closed_to_all_is_not_there_for_bicycles() {
    let lane = Lane { disallow: vec!["all".to_string()], ..straight_lane("e0_0", 3.2) };
    let network = utm_31n_network(vec![lane]);
    let table = LaneTable::of(&network);
    let modes = waiting_zones::modes::zone_modes(&zone("j0_0", "e0_0"), &table);
    assert_eq!(modes, vec!["CAR", "MOTORCYCLE"]);
    let modes = waiting_zones::modes::zone_modes(&zone("j0_0", "unknown"), &table);
    assert_eq!(modes, vec!["CAR", "MOTORCYCLE"]);
}

#[test]
fn a_pedestrian_zone_is_always_on_foot_regardless_of_its_lanes_own_vclass() {
    let walkingarea = Lane {
        shape: shape(&[(0.0, 0.0), (2.0, 0.0), (2.0, 2.0), (0.0, 2.0)]),
        ..straight_lane("e0_0", 3.2)
    };
    let network = utm_31n_network(vec![walkingarea]);
    let ped_zone = pedestrian(zone("j0_0", "e0_0"));

    let collection = to_feature_collection(&network, &[ped_zone]).unwrap();
    assert_eq!(collection[0].feature.modes, vec!["ON_FOOT"]);
}

#[test]
fn a_multi_lane_zone_with_only_one_dedicated_bike_lane_is_still_a_generic_vehicle_zone() {
    let network = utm_31n_network(vec![
        indexed_parallel_lane("e0_0", 0, 3.2, 0.0),
        Lane {
            allow: vec!["bicycle".to_string()],
            ..indexed_parallel_lane("e0_1", 1, 3.2, 3.2)
        },
    ]);
    let zones = vec![zone_multi("j0_0", &["e0_0", "e0_1"])];

    let collection = to_feature_collection(&network, &zones).unwrap();
    assert_eq!(collection[0].feature.modes, vec!["CAR", "MOTORCYCLE"]);
}

#[test]
fn a_multi_lane_zone_where_every_lane_is_a_dedicated_bike_lane_is_bicycle_only() {
    let bike_lane = |id: &str, index: usize, x_offset_m: f64| Lane {
        allow: vec!["bicycle".to_string()],
        ..indexed_parallel_lane(id, index, 3.2, x_offset_m)
    };
    let network = utm_31n_network(vec![bike_lane("e0_0", 0, 0.0), bike_lane("e0_1", 1, 3.2)]);
    let zones = vec![zone_multi("j0_0", &["e0_0", "e0_1"])];

    let collection = to_feature_collection(&network, &zones).unwrap();
    assert_eq!(collection[0].feature.modes, vec!["BICYCLE"]);
}

#[test]
fn offsets_the_ring_by_roughly_half_the_lane_width() {
    let network = utm_31n_network(vec![straight_lane("e0_0", 3.2)]);
    let zones = vec![zone("j0_0", "e0_0")];

    let collection = to_feature_collection(&network, &zones).unwrap();
    let lon_span = spread(collection[0].ring.iter().map(|p| p[0]));
    assert!(lon_span > 0.00001, "expected a visible offset, got {lon_span}");
    assert!(lon_span < 0.001, "offset implausibly large for a 3.2m lane: {lon_span}");
}

#[test]
fn pads_a_lane_shorter_than_a_car_out_to_a_reasonable_minimum_length() {
    let network = utm_31n_network(vec![short_lane("e0_0", 1.0, 3.2)]);
    let zones = vec![zone_spanning("j0_0", "e0_0", 1.0)];

    let collection = to_feature_collection(&network, &zones).unwrap();
    let lat_span_m = lat_span_m(&collection[0].ring);
    let least = f64::from_bits(MIN_DRAWN_LANE_LENGTH_METERS);
    assert!(
        lat_span_m > least - 0.5,
        "expected the padded span to reach close to {least}m, got {lat_span_m:.2}m"
    );
}

#[test]
fn flags_two_zones_whose_rectangles_actually_overlap() {
    // 3.2m-wide lanes, centrelines 2m apart: they cover a shared strip 1.2m
    // wide down the middle.
    let network = utm_31n_network(vec![
        parallel_lane("e0_0", 3.2, 0.0),
        parallel_lane("e0_1", 3.2, 2.0),
    ]);
    let lanes = LaneTable::of(&network);
    let junctions = JunctionTable::of(&network);
    let successors = single_successors(&network);
    let reproject = Reprojector::new(&network.location).ok().unwrap();
    let pad = Double { bits: MIN_DRAWN_LANE_LENGTH_METERS };
    let collection: Vec<Published> = [zone("j0_0", "e0_0"), zone("j0_1", "e0_1")]
        .iter()
        .map(|zone| {
            let parts = zone_polygon(zone, &lanes, &successors, pad).unwrap();
            published_zone(zone, &lanes, &junctions, &parts, &reproject).unwrap()
        })
        .collect();

    assert_eq!(
        overlapping_ids(&collection),
        vec![("j0_0".to_string(), "j0_1".to_string())],
        "these two rectangles are built to overlap by construction"
    );

    // They share 24 square metres, give or take the scale of a degree.
    let (ids, pairs, shared) = shared_square_degrees(&collection);
    let larger_than = |square_metres: f64| {
        overlapping_zone_ids_larger_than(&ids, &pairs, &shared, double(square_metres)).len()
    };
    assert_eq!(larger_than(20.0), 1);
    assert_eq!(larger_than(30.0), 0);
    let nameless = vec![None, Some("j0_1".to_string())];
    assert!(overlapping_zone_ids(&nameless, &pairs, &shared).is_empty());
}

#[test]
fn to_feature_collection_shrinks_padding_just_enough_to_clear_a_real_neighbour() {
    // `e0_0` is 2m long, so its padding reaches back to y=-3; the northern
    // edge of `e1_0` is at y=-0.4. A length of about 2.4m clears it.
    let lane_a = short_lane("e0_0", 2.0, 3.2);
    let lane_b = Lane {
        shape: shape(&[(-5.0, -2.0), (5.0, -2.0)]),
        ..short_lane("e1_0", 10.0, 3.2)
    };
    let network = utm_31n_network_multi_edge(vec![("e0", vec![lane_a]), ("e1", vec![lane_b])]);
    let zones =
        vec![zone_spanning("j0_0", "e0_0", 2.0), zone_spanning("j0_1", "e1_0", 10.0)];

    let collection = to_feature_collection(&network, &zones).unwrap();
    assert_eq!(
        overlapping_ids(&collection),
        Vec::new(),
        "shrinking the stub's own padding should have been enough to clear e1_0"
    );

    let stub = collection.iter().find(|p| p.feature.waiting_zone_id == "j0_0").unwrap();
    let lat_span_m = lat_span_m(&stub.ring);
    assert!(lat_span_m > 2.0, "expected some padding to survive, got {lat_span_m:.2}m");
    assert!(lat_span_m < 2.45, "expected convergence tight against 2.4m, got {lat_span_m:.2}m");
}

#[test]
fn to_feature_collection_bisects_a_genuine_geometric_overlap_padding_cant_explain() {
    let network = utm_31n_network(vec![
        parallel_lane("e0_0", 3.2, 0.0),
        parallel_lane("e0_1", 3.2, 2.0),
    ]);
    let zones = vec![zone("j0_0", "e0_0"), zone("j0_1", "e0_1")];

    let collection = to_feature_collection(&network, &zones).unwrap();
    assert_eq!(
        overlapping_ids(&collection),
        Vec::new(),
        "the two rings should have been bisected apart"
    );
    assert_eq!(collection.len(), 2, "both zones should have survived the cut");
}

#[test]
fn to_feature_collection_clips_a_ring_contested_by_two_neighbours_in_one_pass() {
    let network = utm_31n_network(vec![
        parallel_lane("e0_0", 3.2, 0.0),
        parallel_lane("e0_1", 3.2, 2.0),
        parallel_lane("e0_2", 3.2, 4.0),
    ]);
    let zones = vec![zone("j0_0", "e0_0"), zone("j0_1", "e0_1"), zone("j0_2", "e0_2")];

    let collection = to_feature_collection(&network, &zones).unwrap();
    assert_eq!(overlapping_ids(&collection), Vec::new());

    let middle = collection.iter().find(|p| p.feature.waiting_zone_id == "j0_1").unwrap();
    assert!(
        !ring_self_intersects(&middle.ring),
        "clipping against two neighbours should stay simple: {:?}",
        middle.ring
    );
}

#[test]
fn extended_ancestor_chain_becomes_one_seamless_polygon_not_one_rectangle_per_lane() {
    let lane_e0 = segment_lane("e0_0", 3.2, (0.0, 0.0), (0.0, 20.0));
    let lane_e1 = segment_lane("e1_0", 3.2, (0.0, -20.0), (0.0, 0.0));
    let lane_e2 = segment_lane("e2_0", 3.2, (0.0, -40.0), (0.0, -20.0));
    let network = Network {
        connections: vec![
            plain_connection("e2", "e1", None),
            plain_connection("e1", "e0", None),
        ],
        ..utm_31n_network_multi_edge(vec![
            ("e0", vec![lane_e0]),
            ("e1", vec![lane_e1]),
            ("e2", vec![lane_e2]),
        ])
    };
    let zone = zone_between(
        "j0_0",
        vec![gate("e0_0", 0.0), gate("e1_0", 0.0), gate("e2_0", 0.0)],
        vec![gate("e0_0", 20.0)],
    );

    let collection = to_feature_collection(&network, &[zone]).unwrap();
    let ring = &collection[0].ring;
    assert!(!ring_self_intersects(ring), "{ring:?}");
    let lat_span_m = lat_span_m(ring);
    assert!(
        lat_span_m > 55.0,
        "expected the merged e0+e1+e2 ribbon to span close to 60m, got {lat_span_m:.1}m"
    );
}

fn y_merge() -> (Network, E3Detector) {
    let lane_e0 = segment_lane("e0_0", 3.2, (0.0, 0.0), (0.0, 20.0));
    let lane_mid = segment_lane("e_mid_0", 3.2, (0.0, -20.0), (0.0, 0.0));
    let lane_leaf_a = segment_lane("e_leaf_a_0", 3.2, (-20.0, -40.0), (0.0, -20.0));
    let lane_leaf_b = segment_lane("e_leaf_b_0", 3.2, (20.0, -40.0), (0.0, -20.0));
    let network = Network {
        connections: vec![
            plain_connection("e_leaf_a", "e_mid", None),
            plain_connection("e_leaf_b", "e_mid", None),
            plain_connection("e_mid", "e0", None),
        ],
        ..utm_31n_network_multi_edge(vec![
            ("e0", vec![lane_e0]),
            ("e_mid", vec![lane_mid]),
            ("e_leaf_a", vec![lane_leaf_a]),
            ("e_leaf_b", vec![lane_leaf_b]),
        ])
    };
    let zone = zone_between(
        "j0_0",
        vec![
            gate("e0_0", 0.0),
            gate("e_mid_0", 0.0),
            gate("e_leaf_a_0", 0.0),
            gate("e_leaf_b_0", 0.0),
        ],
        vec![gate("e0_0", 20.0)],
    );
    (network, zone)
}

#[test]
fn two_leaves_merging_into_a_shared_ancestor_produce_no_duplicated_ground() {
    let (network, zone) = y_merge();

    let collection = to_feature_collection(&network, &[zone]).unwrap();
    let ring = &collection[0].ring;
    assert!(!ring_self_intersects(ring), "{ring:?}");

    // 64 + 64 + 90.5 + 90.5 square metres, about 309.
    let area_m2 = ring_area_m2(ring);
    assert!(
        (270.0..340.0).contains(&area_m2),
        "expected the merged Y-shape's own real area close to 309m2, got {area_m2:.1}m2"
    );
}

#[test]
fn a_lane_that_several_lead_into_starts_a_chain_of_its_own() {
    let (network, zone) = y_merge();
    let lanes = LaneTable::of(&network);
    let successors = single_successors(&network);
    let plan = plan_zone(&zone, &lanes, &successors, double(5.0)).unwrap();

    assert!(!plan.pedestrian);
    assert_eq!(plan.tolerance, Some(double(0.05)));
    assert!(plan.outlines.is_empty());
    assert!(plan.core.is_empty(), "the one chain into e0_0 takes it in");
    let drawn: Vec<(Vec<Point>, f64, LineEnd)> = plan
        .chains
        .into_iter()
        .map(|stroke| (stroke.path, number(stroke.width), stroke.end))
        .collect();
    assert_eq!(
        drawn,
        vec![
            (shape(&[(-20.0, -40.0), (0.0, -20.0)]), 3.2, LineEnd::Square),
            (shape(&[(20.0, -40.0), (0.0, -20.0)]), 3.2, LineEnd::Square),
            (shape(&[(0.0, -20.0), (0.0, 0.0), (0.0, 20.0)]), 3.2, LineEnd::Butt),
        ]
    );
}

#[test]
fn does_not_flag_two_zones_that_share_an_edge_exactly() {
    let network = utm_31n_network(vec![
        parallel_lane("e0_0", 3.2, 0.0),
        parallel_lane("e0_1", 3.2, 3.2),
    ]);
    let zones = vec![zone("j0_0", "e0_0"), zone("j0_1", "e0_1")];

    let collection = to_feature_collection(&network, &zones).unwrap();
    assert_eq!(
        overlapping_ids(&collection),
        Vec::new(),
        "these rectangles are built to share an edge exactly, not to overlap"
    );
}

#[test]
fn does_not_flag_two_well_separated_zones() {
    let network = utm_31n_network(vec![
        parallel_lane("e0_0", 3.2, 0.0),
        parallel_lane("e0_1", 3.2, 50.0),
    ]);
    let zones = vec![zone("j0_0", "e0_0"), zone("j0_1", "e0_1")];

    let collection = to_feature_collection(&network, &zones).unwrap();
    assert_eq!(overlapping_ids(&collection), Vec::new());
}

/// A lane along `points`, as long as they are.
fn lane_along(id: &str, width_m: f64, points: &[(f64, f64)]) -> (Lane, f64) {
    let length: f64 =
        points.windows(2).map(|w| (w[1].0 - w[0].0).hypot(w[1].1 - w[0].1)).sum();
    let lane = Lane {
        length: double(length),
        shape: shape(points),
        ..parallel_lane(id, width_m, 0.0)
    };
    (lane, length)
}

#[test]
fn merges_two_adjacent_lanes_of_the_same_zone_into_a_single_polygon() {
    let network = utm_31n_network(vec![
        indexed_parallel_lane("e0_0", 0, 3.2, 0.0),
        indexed_parallel_lane("e0_1", 1, 3.2, 3.2),
    ]);
    let zones = vec![zone_multi("j0_0", &["e0_0", "e0_1"])];

    let collection = to_feature_collection(&network, &zones).unwrap();
    assert_eq!(collection.len(), 1);
    let ring = &collection[0].ring;
    assert!(!ring_self_intersects(ring));

    // Both lanes are in it: it is two lanes wide.
    let lanes = LaneTable::of(&network);
    let successors = single_successors(&network);
    let parts = zone_polygon(&zones[0], &lanes, &successors, double(5.0)).unwrap();
    assert_eq!(parts.len(), 1);
    let width = spread(parts[0].exterior.iter().map(|c| number(c.x)));
    assert!((width - 6.4).abs() < 0.001, "{width}");
}

#[test]
fn keeps_only_the_core_polygon_when_an_extended_ancestor_entry_does_not_touch_it() {
    let network = utm_31n_network_multi_edge(vec![
        ("e0", vec![indexed_parallel_lane("e0_0", 0, 3.2, 0.0)]),
        ("e1", vec![indexed_parallel_lane("e1_0", 0, 3.2, 50.0)]),
    ]);
    let zone = zone_between(
        "j0_0",
        vec![gate("e0_0", 0.0), gate("e1_0", 0.0)],
        vec![gate("e0_0", 20.0)],
    );

    let collection = to_feature_collection(&network, &[zone]).unwrap();
    let ring = &collection[0].ring;
    assert!(!ring_self_intersects(ring));

    let reproject = Reprojector::new(&network.location).ok().unwrap();
    let e0_lon = to_lon_lat(&reproject, at(0.0, 10.0)).unwrap()[0];
    let e1_lon = to_lon_lat(&reproject, at(50.0, 10.0)).unwrap()[0];
    let ring_lon = ring.iter().map(|p| p[0]).sum::<f64>() / ring.len() as f64;
    assert!(
        (ring_lon - e0_lon).abs() < (ring_lon - e1_lon).abs(),
        "the surviving polygon should be e0's own: {ring_lon}, e0 at {e0_lon}, e1 at {e1_lon}"
    );
}

#[test]
fn never_bridges_across_a_lane_gap_the_zone_does_not_actually_claim() {
    let network = utm_31n_network(vec![
        indexed_parallel_lane("e0_0", 0, 3.2, 0.0),
        indexed_parallel_lane("e0_1", 1, 3.2, 3.2),
        indexed_parallel_lane("e0_2", 2, 3.2, 6.4),
    ]);
    let zones = vec![zone_multi("j0_0", &["e0_0", "e0_2"])];

    let collection = to_feature_collection(&network, &zones).unwrap();
    let ring = &collection[0].ring;
    assert!(!ring_self_intersects(ring));

    let reproject = Reprojector::new(&network.location).ok().unwrap();
    let one_lane_width_deg = (to_lon_lat(&reproject, at(3.2, 10.0)).unwrap()[0]
        - to_lon_lat(&reproject, at(0.0, 10.0)).unwrap()[0])
        .abs();
    let ring_lon_span = spread(ring.iter().map(|p| p[0]));
    assert!(
        ring_lon_span < one_lane_width_deg * 1.5,
        "spans {ring_lon_span} degrees of longitude, more than one lane's {one_lane_width_deg}"
    );
}

#[test]
fn buffer_shape_never_self_intersects_on_a_short_wide_zigzag() {
    let (lane, length) = lane_along(
        "e0_0",
        4.0,
        &[
            (0.0, 0.0),
            (-2.0, 1.0),
            (-1.5, 2.0),
            (1.0, 3.5),
            (2.0, 2.5),
            (0.5, 1.0),
            (1.8, -0.5),
        ],
    );
    let network = utm_31n_network(vec![lane]);
    let zones = vec![zone_spanning("j0_0", "e0_0", length)];

    let collection = to_feature_collection(&network, &zones).unwrap();
    let ring = &collection[0].ring;
    assert!(!ring_self_intersects(ring), "a self-intersecting polygon for a zigzag: {ring:?}");
}

#[test]
fn buffer_shape_does_not_collapse_to_a_sliver_on_a_short_lane_with_tight_bends() {
    let (lane, length) = lane_along(
        "e0_0",
        3.2,
        &[
            (0.0, 0.0),
            (-0.14, -0.14),
            (-0.95, -1.73),
            (-0.77, -3.19),
            (-0.57, -4.67),
            (-1.35, -6.29),
        ],
    );
    let network = utm_31n_network(vec![lane]);
    let zones = vec![zone_spanning("j0_0", "e0_0", length)];

    let collection = to_feature_collection(&network, &zones).unwrap();
    let ring = &collection[0].ring;
    assert!(!ring_self_intersects(ring), "collapsed ring should still be simple: {ring:?}");

    let area_m2 = ring_area_m2(ring);
    let naive_area_m2 = length * 3.2;
    assert!(
        area_m2 > naive_area_m2 * 0.5,
        "ring area {area_m2:.3}m2 is far below {naive_area_m2:.3}m2: {ring:?}"
    );
}

fn coords(points: &[(f64, f64)]) -> Vec<Coord> {
    points.iter().map(|&(x, y)| Coord { x: double(x), y: double(y) }).collect()
}

fn closed(points: &[(f64, f64)]) -> Vec<Coord> {
    let mut ring = coords(points);
    ring.push(ring[0]);
    ring
}

fn coords_self_intersect(ring: &[Coord]) -> bool {
    let positions: Vec<[f64; 2]> = ring.iter().map(|c| [number(c.x), number(c.y)]).collect();
    ring_self_intersects(&positions)
}

fn has_zero_length_edge(ring: &[Coord]) -> bool {
    ring.windows(2).any(|w| w[0] == w[1])
}

#[test]
fn find_near_touch_locates_a_vertex_grazing_a_distant_edge_before_it_in_the_ring() {
    let points = [
        (5.0, 9.999), // F: touches B->C from below
        (0.0, 0.0),   // A
        (0.0, 10.0),  // B
        (10.0, 10.0), // C
        (10.0, 0.0),  // D
        (5.0, 0.0),   // E
    ];
    let (k, i, weld) =
        find_near_touch(&coords(&points)).expect("F should read as touching B->C");
    assert_eq!(k, 0, "F is the touching vertex");
    assert_eq!(i, 2, "B->C starts at index 2");
    assert!(
        (number(weld.x) - 5.0).abs() < 1e-9 && (number(weld.y) - 10.0).abs() < 1e-9,
        "weld point should land on B->C's own line: {weld:?}"
    );

    let (inner, outer) =
        weld_near_touch_and_split(&closed(&points)).expect("a near-touch should split");
    for part in [inner, outer] {
        assert!(!coords_self_intersect(&part), "{:?}", part);
        assert!(!has_zero_length_edge(&part), "{:?}", part);
    }
}

#[test]
fn find_near_touch_locates_a_vertex_grazing_a_distant_edge_after_it_in_the_ring() {
    let points = [
        (0.0, 0.0),   // A
        (0.0, 10.0),  // B
        (10.0, 10.0), // C
        (10.0, 0.0),  // D
        (5.0, 0.0),   // E
        (5.0, 9.999), // F: touches B->C from below
    ];
    let (k, i, _weld) =
        find_near_touch(&coords(&points)).expect("F should read as touching B->C");
    assert_eq!(k, 5, "F is the touching vertex");
    assert_eq!(i, 1, "B->C starts at index 1");

    let (inner, outer) =
        weld_near_touch_and_split(&closed(&points)).expect("a near-touch should split");
    for part in [inner, outer] {
        assert!(!coords_self_intersect(&part), "{:?}", part);
        assert!(
            !has_zero_length_edge(&part),
            "shared welded point double-counted into a zero-length edge: {:?}",
            part
        );
    }
}

#[test]
fn find_near_touch_ignores_a_real_pinch_far_above_the_margin() {
    let points = [
        (5.0, 9.85), // F: 15cm below B->C, not a near-touch
        (0.0, 0.0),
        (0.0, 10.0),
        (10.0, 10.0),
        (10.0, 0.0),
        (5.0, 0.0),
    ];
    assert!(
        find_near_touch(&coords(&points)).is_none(),
        "15cm of real clearance must not read as a near-touch"
    );
}

#[test]
fn find_near_touch_ignores_a_vertex_already_adjacent_to_the_near_edge() {
    let points = [
        (0.0, 0.0),   // A
        (0.0, 10.0),  // B
        (5.0, 9.999), // F: one ring-step from B, grazing B->C
        (10.0, 10.0), // C
        (10.0, 0.0),  // D
        (5.0, 0.0),   // E
    ];
    assert!(
        find_near_touch(&coords(&points)).is_none(),
        "a vertex already ring-adjacent to the near edge's own endpoint must not be welded"
    );
}

#[test]
fn a_zone_on_an_unknown_lane_cannot_be_drawn() {
    let network = utm_31n_network(vec![straight_lane("e0_0", 3.2)]);
    let error = to_feature_collection(&network, &[zone("j0_0", "gone_0")]).unwrap_err();
    assert_eq!(
        error,
        format!(
            "zone {:?} references lane {:?}, which isn't in the network",
            DetectorId("j0_0".to_string()),
            LaneRef("gone_0".to_string())
        )
    );

    let lanes = LaneTable::of(&network);
    let successors = single_successors(&network);
    let entry_gone = zone_between("z", vec![gate("away_0", 0.0)], vec![gate("e0_0", 20.0)]);
    let error = plan_zone(&entry_gone, &lanes, &successors, double(5.0)).unwrap_err();
    assert_eq!((error.zone.as_str(), error.lane.as_str()), ("z", "away_0"));
    assert!(stop_line_points(&entry_gone, &lanes).is_ok());
}

#[test]
fn a_zone_in_several_parts_is_not_published() {
    let network = utm_31n_network(vec![straight_lane("e0_0", 3.2)]);
    let lanes = LaneTable::of(&network);
    let junctions = JunctionTable::of(&network);
    let square = |x: f64| Polygon {
        exterior: closed(&[(x, 0.0), (x + 1.0, 0.0), (x + 1.0, 1.0), (x, 1.0)]),
        interiors: vec![],
    };
    let candidates = vec![at(0.5, 0.5)];
    let held = vec![true];
    let two = vec![square(0.0), square(2.0)];
    let refused =
        build_feature(&zone("j0_0", "e0_0"), &lanes, &junctions, &two, &candidates, &held);
    assert_eq!(
        refused.unwrap_err().message(),
        "zone DetectorId(\"j0_0\") resolved to 2 polygon part(s), expected exactly 1 \u{2014} geojson_output only emits a Polygon, not a MultiPolygon"
    );
    let one = vec![square(0.0)];
    let feature = build_feature(&zone("j0_0", "e0_0"), &lanes, &junctions, &one, &candidates, &held)
        .unwrap();
    assert_eq!(feature.stop_line, at(0.5, 0.5));
    assert_eq!(feature.ring, one[0].exterior);
    assert_eq!(
        cut_away_message(&zone("j0_0", "e0_0")),
        "zone DetectorId(\"j0_0\") was fully cut away by overlap resolution; omitted from the GeoJSON output"
    );
}

#[test]
fn a_stop_line_between_two_branches_is_published_on_one_of_them() {
    // Two lanes 20m apart: the middle of their ends lies on neither.
    let network = utm_31n_network(vec![
        indexed_parallel_lane("e0_0", 0, 3.2, 0.0),
        indexed_parallel_lane("e0_1", 1, 3.2, 20.0),
    ]);
    let zone = zone_multi("j0_0", &["e0_0", "e0_1"]);
    let lanes = LaneTable::of(&network);
    assert_eq!(stop_line_points(&zone, &lanes).unwrap(), shape(&[(0.0, 20.0), (20.0, 20.0)]));
    assert_eq!(
        zone_stop_line_candidates(&zone, &lanes).unwrap(),
        shape(&[(10.0, 20.0), (0.0, 20.0), (20.0, 20.0)])
    );
    assert_eq!(stop_line_point(&zone, &lanes).unwrap(), at(10.0, 20.0));

    let collection = to_feature_collection(&network, &[zone]).unwrap();
    let stop_line = collection[0].feature.stop_line;
    assert!(stop_line == at(0.0, 20.0) || stop_line == at(20.0, 20.0), "{stop_line:?}");
    let kept = &collection[0].feature.ring;
    assert!(spread(kept.iter().map(|c| number(c.x))) < 4.0, "one branch is kept");
}

#[test]
fn pedestrians_wait_in_the_middle_of_their_pavement() {
    let walkingarea = Lane {
        shape: shape(&[(0.0, 0.0), (2.0, 0.0), (2.0, 2.0), (0.0, 2.0)]),
        ..straight_lane("e0_0", 3.2)
    };
    let network = utm_31n_network(vec![walkingarea]);
    let ped_zone = pedestrian(zone("j0_0", "e0_0"));
    let lanes = LaneTable::of(&network);
    assert_eq!(stop_line_points(&ped_zone, &lanes).unwrap(), vec![at(1.0, 1.0)]);

    let successors = single_successors(&network);
    let plan = plan_zone(&ped_zone, &lanes, &successors, double(5.0)).unwrap();
    assert!(plan.pedestrian && plan.core.is_empty() && plan.chains.is_empty());
    assert_eq!(plan.tolerance, None);
    assert_eq!(
        plan.outlines,
        vec![Some(closed(&[(0.0, 0.0), (2.0, 0.0), (2.0, 2.0), (0.0, 2.0)]))]
    );
}
