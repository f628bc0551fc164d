//! Rings and parts: how they are made, cleaned, cut and kept.

use waiting_zones::cleaning::{
    cleaned_or_kept, drop_needle_vertex, drop_negligible_vertices_everywhere_in, polygon_left,
    turns, RingStep,
};
use waiting_zones::double::Double;
use waiting_zones::drawing::finish_drawing;
use waiting_zones::grid::snap_coords;
use waiting_zones::network::Point;
use waiting_zones::plane::{
    point_segment_distance, segment_intersection, snap_to_nearby_vertex, triangle_area, Coord,
};
use waiting_zones::polygons::{
    close_ring, distance_to_polygon, drop_interior_rings, drop_slivers, keep_part_near,
    pedestrian_outline, shapes_to_multipolygon,
};
use waiting_zones::ring::{
    drop_grazing_vertices, drop_negligible_vertices, open_ring, polygon_area, twice_signed_area,
};
use waiting_zones::shape::{
    centroid, padded_entry, point_and_tangent_at, shape_length, trimmed_path_points,
    trimmed_segments,
};
use waiting_zones::splitting::{
    split_part_fully, split_self_intersection, split_self_intersections, Polygon,
};
use waiting_zones::stop_lines::{published_stop_line, stop_line_candidates};

fn double(value: f64) -> Double {
    Double { bits: value.to_bits() }
}

fn number(value: Double) -> f64 {
    f64::from_bits(value.bits)
}

fn at(x: f64, y: f64) -> Coord {
    Coord { x: double(x), y: double(y) }
}

fn point(x: f64, y: f64) -> Point {
    Point { x: double(x), y: double(y), z: double(0.0) }
}

fn coords(points: &[(f64, f64)]) -> Vec<Coord> {
    points.iter().map(|&(x, y)| at(x, y)).collect()
}

fn closed(points: &[(f64, f64)]) -> Vec<Coord> {
    let mut ring = coords(points);
    ring.push(ring[0]);
    ring
}

fn solid(points: &[(f64, f64)]) -> Polygon {
    Polygon { exterior: closed(points), interiors: vec![] }
}

const SQUARE: [(f64, f64); 4] = [(0.0, 0.0), (10.0, 0.0), (10.0, 10.0), (0.0, 10.0)];

#[test]
fn rounding_to_the_grid_is_as_the_machine_rounds() {
    let mut values = vec![
        0.0,
        -0.0,
        0.5,
        -0.5,
        1.5,
        2.5,
        -2.5,
        0.49999999999999994,
        4503599627370495.5,
        9007199254740993.0,
        1e300,
        f64::INFINITY,
        f64::NEG_INFINITY,
        f64::MIN_POSITIVE,
        5e-324,
        431_234.567_85,
    ];
    let mut state: u64 = 88172645463325252;
    for _ in 0..2000 {
        state ^= state << 13;
        state ^= state >> 7;
        state ^= state << 17;
        values.push(f64::from_bits(state));
        values.push((state >> 11) as f64 / 1e9);
    }
    for value in values {
        let rounded = double(value).rounded();
        if value.is_nan() {
            assert!(number(rounded).is_nan());
        } else {
            assert_eq!(rounded.bits, value.round().to_bits(), "{value}");
        }
    }
    let snap = |v: f64| (v / 0.0001).round() * 0.0001;
    let part = Polygon {
        exterior: coords(&[(1.23456, -7.65432), (430_000.12345, 4_582_000.98765)]),
        interiors: vec![coords(&[(0.00005, 0.00015)])],
    };
    let snapped = snap_coords(&vec![part.clone()]);
    for (before, after) in part.exterior.iter().zip(&snapped[0].exterior) {
        assert_eq!(after.x.bits, snap(number(before.x)).to_bits());
        assert_eq!(after.y.bits, snap(number(before.y)).to_bits());
    }
    assert_eq!(snapped[0].interiors, vec![vec![at(snap(0.00005), snap(0.00015))]]);
}

#[test]
fn contours_become_closed_rings_with_holes() {
    let shapes = vec![
        vec![coords(&SQUARE), coords(&[(1.0, 1.0), (2.0, 1.0), (2.0, 2.0)])],
        vec![],
        vec![closed(&SQUARE)],
    ];
    let parts = shapes_to_multipolygon(&shapes);
    assert_eq!(parts.len(), 2);
    assert_eq!(parts[0].exterior, closed(&SQUARE));
    assert_eq!(parts[0].interiors, vec![closed(&[(1.0, 1.0), (2.0, 1.0), (2.0, 2.0)])]);
    assert_eq!(parts[1], solid(&SQUARE));
    assert_eq!(drop_interior_rings(parts), vec![solid(&SQUARE), solid(&SQUARE)]);
    assert_eq!(close_ring(&vec![]), vec![]);
    assert_eq!(open_ring(&closed(&SQUARE)), coords(&SQUARE));
}

#[test]
fn an_outline_takes_three_points() {
    let corner = vec![point(0.0, 0.0), point(2.0, 0.0)];
    assert_eq!(pedestrian_outline(&corner), None);
    let triangle = vec![point(0.0, 0.0), point(2.0, 0.0), point(0.0, 2.0)];
    assert_eq!(
        pedestrian_outline(&triangle),
        Some(closed(&[(0.0, 0.0), (2.0, 0.0), (0.0, 2.0)]))
    );
}

#[test]
fn slivers_are_dropped_and_nothing_else() {
    let parts = vec![solid(&SQUARE), solid(&SQUARE[..3]), solid(&SQUARE[1..])];
    let areas = vec![double(0.05), double(0.051), double(f64::NAN)];
    assert_eq!(drop_slivers(parts, &areas), vec![solid(&SQUARE[..3])]);
}

#[test]
fn the_part_at_the_stop_line_is_kept_or_else_the_largest() {
    let parts = || vec![solid(&SQUARE), solid(&SQUARE[..3]), solid(&SQUARE[1..])];
    let areas = vec![double(5.0), double(9.0), double(9.0)];
    let kept = keep_part_near(parts(), &vec![true, false, true], &areas);
    assert_eq!(kept, vec![solid(&SQUARE)]);
    let kept = keep_part_near(parts(), &vec![false, false, false], &areas);
    assert_eq!(kept, vec![solid(&SQUARE[1..])], "of two equally large the last");
    let one = vec![solid(&SQUARE)];
    assert_eq!(keep_part_near(one, &vec![false], &vec![double(0.0)]), vec![solid(&SQUARE)]);
    assert_eq!(keep_part_near(vec![], &vec![], &vec![]), vec![]);
}

#[test]
fn distance_is_nothing_inside_and_on_the_boundary() {
    let parts = vec![Polygon {
        exterior: closed(&SQUARE),
        interiors: vec![closed(&[(4.0, 4.0), (6.0, 4.0), (6.0, 6.0), (4.0, 6.0)])],
    }];
    assert_eq!(distance_to_polygon(at(2.0, 2.0), &parts, true), double(0.0));
    assert_eq!(distance_to_polygon(at(10.0, 3.0), &parts, false), double(0.0));
    assert_eq!(distance_to_polygon(at(13.0, 14.0), &parts, false), double(5.0));
    assert_eq!(distance_to_polygon(at(5.0, 4.5), &parts, false), double(0.5), "in the hole");
    assert_eq!(distance_to_polygon(at(0.0, 0.0), &vec![], false), double(f64::INFINITY));
}

#[test]
fn the_middle_is_published_where_the_zone_holds_it() {
    let parts = vec![solid(&SQUARE)];
    let candidates = stop_line_candidates(&vec![point(4.0, 10.0), point(6.0, 10.0)]);
    assert_eq!(candidates, vec![point(5.0, 10.0), point(4.0, 10.0), point(6.0, 10.0)]);
    let held = vec![false, false, false];
    assert_eq!(published_stop_line(&candidates, &parts, &held), point(5.0, 10.0));

    let apart = stop_line_candidates(&vec![point(-3.0, 0.0), point(40.0, 0.0), point(5.0, 11.0)]);
    let held = vec![false, false, false, false];
    assert_eq!(published_stop_line(&apart, &parts, &held), point(5.0, 11.0));
    let held = vec![true, false, false, true];
    assert_eq!(published_stop_line(&apart, &parts, &held), apart[0]);
}

fn measured(coords: &Vec<Coord>) -> Vec<Double> {
    turns(coords)
        .iter()
        .map(|turn| double(number(turn.cross).atan2(number(turn.dot)).to_degrees()))
        .collect()
}

#[test]
fn needles_are_cut_one_by_one() {
    // A square with a needle 20m out from its right side, in either winding.
    let spiky = [
        (0.0, 0.0),
        (10.0, 0.0),
        (10.0, 5.0),
        (30.0, 5.05),
        (10.0, 5.1),
        (10.0, 10.0),
        (0.0, 10.0),
    ];
    let mut backward = spiky.to_vec();
    backward.reverse();
    for ring in [spiky.to_vec(), backward] {
        let start = coords(&ring);
        let step = drop_needle_vertex(&start, &measured(&start));
        let RingStep::Next(left) = step else { panic!("there is a needle: {step:?}") };
        assert_eq!(left.len(), 6);
        assert!(!left.contains(&at(30.0, 5.05)));
        let step = drop_needle_vertex(&left, &measured(&left));
        let RingStep::Done(clean) = step else { panic!("no needle is left: {step:?}") };
        assert_eq!(clean.len(), 7);
        assert_eq!(clean[0], clean[6]);
    }
    let line = coords(&[(0.0, 0.0), (1.0, 0.0)]);
    assert_eq!(drop_needle_vertex(&line, &measured(&line)), RingStep::Collapsed);
}

#[test]
fn vertices_that_graze_an_edge_beside_them_go() {
    // The fourth vertex runs back along the side before it.
    let ring = closed(&[(0.0, 0.0), (10.0, 0.0), (10.0, 10.0), (10.001, 5.0), (0.0, 10.0)]);
    let left = drop_grazing_vertices(&ring).unwrap();
    assert!(left.len() < ring.len());
    assert_eq!(left.first(), left.last());
    assert!(left.iter().all(|vertex| ring.contains(vertex)));
    assert_eq!(drop_grazing_vertices(&left), Some(left.clone()), "none is left");
    assert_eq!(drop_grazing_vertices(&closed(&SQUARE)), Some(closed(&SQUARE)));
    assert_eq!(drop_grazing_vertices(&closed(&[(0.0, 0.0), (5.0, 0.0), (9.0, 0.0)])), None);
}

#[test]
fn vertices_that_hardly_matter_go_within_one_budget() {
    // 100 square metres: a vertex may cost 0.15 of them in all.
    let with_noise = |a: f64, b: f64| {
        closed(&[(0.0, 0.0), (5.0, -a), (10.0, 0.0), (10.0, 10.0), (5.0, 10.0 + b), (0.0, 10.0)])
    };
    let both = drop_negligible_vertices(&with_noise(0.01, 0.01)).unwrap();
    assert_eq!(both, closed(&SQUARE), "0.05 and 0.05 fit");
    let one = drop_negligible_vertices(&with_noise(0.016, 0.02)).unwrap();
    assert_eq!(
        one,
        closed(&[(0.0, 0.0), (10.0, 0.0), (10.0, 10.0), (5.0, 10.02), (0.0, 10.0)]),
        "0.08 fits, and 0.1 on top of it does not"
    );
    let none = drop_negligible_vertices(&with_noise(0.04, 0.05)).unwrap();
    assert_eq!(none, with_noise(0.04, 0.05));
    let triangle = closed(&[(0.0, 0.0), (10.0, 0.0), (5.0, 0.001)]);
    assert_eq!(drop_negligible_vertices(&triangle), Some(triangle.clone()));
    assert_eq!(drop_negligible_vertices(&vec![at(0.0, 0.0)]), None);

    let part = Polygon {
        exterior: with_noise(0.01, 0.01),
        interiors: vec![vec![at(1.0, 1.0)], closed(&[(1.0, 1.0), (2.0, 1.0), (2.0, 2.0)])],
    };
    let cleaned = drop_negligible_vertices_everywhere_in(part);
    assert_eq!(cleaned.exterior, closed(&SQUARE));
    assert_eq!(cleaned.interiors, vec![closed(&[(1.0, 1.0), (2.0, 1.0), (2.0, 2.0)])]);
    let speck = Polygon { exterior: vec![at(0.0, 0.0)], interiors: vec![] };
    assert_eq!(drop_negligible_vertices_everywhere_in(speck.clone()), speck);
}

#[test]
fn cleaning_that_changes_the_area_is_given_up() {
    let part = || solid(&SQUARE);
    let cleaned = || polygon_left(closed(&SQUARE[..3]), vec![None, Some(closed(&SQUARE))]);
    assert_eq!(cleaned().interiors, vec![closed(&SQUARE)]);
    assert_eq!(cleaned_or_kept(part(), cleaned(), double(5.0), double(5.009)), cleaned());
    assert_eq!(cleaned_or_kept(part(), cleaned(), double(5.0), double(4.991)), cleaned());
    assert_eq!(cleaned_or_kept(part(), cleaned(), double(5.0), double(5.02)), part());
    assert_eq!(cleaned_or_kept(part(), cleaned(), double(5.0), double(4.98)), part());
}

#[test]
fn a_ring_that_crosses_itself_falls_into_two() {
    let bowtie = [(0.0, 0.0), (10.0, 10.0), (10.0, 0.0), (0.0, 10.0)];
    let (inner, outer) = split_self_intersection(&closed(&bowtie)).unwrap();
    assert_eq!(inner, coords(&[(5.0, 5.0), (10.0, 10.0), (10.0, 0.0), (5.0, 5.0)]));
    assert_eq!(outer, coords(&[(5.0, 5.0), (0.0, 10.0), (0.0, 0.0), (5.0, 5.0)]));
    for vertex in coords(&bowtie) {
        assert!(inner.contains(&vertex) || outer.contains(&vertex));
    }
    assert_eq!(split_self_intersection(&closed(&SQUARE)), None);

    let parts = split_self_intersections(vec![solid(&bowtie), solid(&SQUARE)]);
    assert_eq!(parts.len(), 3);
    assert_eq!(parts[2], solid(&SQUARE));
    assert_eq!(split_part_fully(solid(&bowtie), 0), vec![solid(&bowtie)]);
}

#[test]
fn points_and_lines_meet_as_they_should() {
    let crossing =
        segment_intersection(at(0.0, 0.0), at(4.0, 4.0), at(0.0, 4.0), at(4.0, 0.0)).unwrap();
    assert_eq!(crossing, at(2.0, 2.0));
    assert_eq!(
        segment_intersection(at(0.0, 0.0), at(4.0, 0.0), at(0.0, 1.0), at(4.0, 1.0)),
        None,
        "parallel"
    );
    assert_eq!(
        segment_intersection(at(0.0, 0.0), at(1.0, 1.0), at(0.0, 4.0), at(4.0, 0.0)),
        None,
        "beyond the end"
    );
    let (apart, closest) = point_segment_distance(at(3.0, 4.0), at(0.0, 0.0), at(10.0, 0.0));
    assert_eq!((apart, closest), (double(4.0), at(3.0, 0.0)));
    let (apart, closest) = point_segment_distance(at(-3.0, 4.0), at(0.0, 0.0), at(10.0, 0.0));
    assert_eq!((apart, closest), (double(5.0), at(0.0, 0.0)));
    let (apart, closest) = point_segment_distance(at(3.0, 4.0), at(0.0, 0.0), at(0.0, 0.0));
    assert_eq!((apart, closest), (double(5.0), at(0.0, 0.0)));
    assert_eq!(triangle_area(at(0.0, 0.0), at(4.0, 0.0), at(0.0, 3.0)), double(6.0));
    assert_eq!(polygon_area(&coords(&SQUARE)), double(100.0));
    assert_eq!(twice_signed_area(&coords(&SQUARE)), double(200.0));
    assert_eq!(snap_to_nearby_vertex(at(10.009, 0.0), &coords(&SQUARE)), at(10.0, 0.0));
    assert_eq!(snap_to_nearby_vertex(at(10.02, 0.0), &coords(&SQUARE)), at(10.02, 0.0));
    assert_eq!(snap_to_nearby_vertex(at(1.0, 1.0), &vec![]), at(1.0, 1.0));
}

#[test]
fn lines_are_measured_and_trimmed() {
    let line = vec![point(0.0, 0.0), point(3.0, 4.0), point(3.0, 4.0), point(3.0, 14.0)];
    assert_eq!(shape_length(&line), double(15.0));
    let (place, tangent) = point_and_tangent_at(&line, double(10.0));
    assert_eq!(place, point(3.0, 4.0), "a segment of no length answers for what comes after it");
    assert_eq!(tangent, (double(1.0), double(0.0)));
    let (place, tangent) = point_and_tangent_at(&line, double(2.5));
    assert_eq!((place, tangent), (point(1.5, 2.0), (double(0.6), double(0.8))));
    let (place, _) = point_and_tangent_at(&line, double(-1.0));
    assert_eq!(place, point(0.0, 0.0));
    assert_eq!(point_and_tangent_at(&vec![], double(1.0)).0, point(0.0, 0.0));

    let straight = vec![point(0.0, 0.0), point(0.0, 10.0), point(0.0, 20.0)];
    assert_eq!(
        trimmed_path_points(&straight, double(5.0), double(15.0)),
        vec![point(0.0, 5.0), point(0.0, 10.0), point(0.0, 15.0)]
    );
    assert_eq!(
        trimmed_path_points(&straight, double(-3.0), double(5.0)),
        vec![point(0.0, -3.0), point(0.0, 0.0), point(0.0, 5.0)]
    );
    assert_eq!(
        trimmed_path_points(&straight, double(5.0), double(5.0)),
        vec![point(0.0, 5.0), point(0.0, 5.0)]
    );
    assert_eq!(trimmed_path_points(&straight, double(20.0), double(25.0)), vec![]);
    assert_eq!(padded_entry(double(0.0), double(1.0), double(5.0)), double(-4.0));
    assert_eq!(padded_entry(double(0.0), double(20.0), double(5.0)), double(0.0));
    assert_eq!(centroid(&straight), point(0.0, 10.0));
    assert_eq!(centroid(&vec![]), point(0.0, 0.0));
}

#[test]
fn the_pieces_of_a_part_meet_and_are_there_up_to_the_end_of_the_line() {
    let line = vec![point(0.0, 0.0), point(10.0, 0.0), point(10.0, 0.0), point(10.0, 10.0)];
    let pieces = trimmed_segments(&line, double(5.0), double(15.0));
    assert_eq!(pieces.len(), 2);
    assert_eq!((pieces[0].start, pieces[0].end), (point(5.0, 0.0), point(10.0, 0.0)));
    assert_eq!((pieces[1].start, pieces[1].end), (point(10.0, 0.0), point(10.0, 5.0)));
    assert_eq!(trimmed_segments(&line, double(19.5), double(30.0)).len(), 1);
    assert!(trimmed_segments(&line, double(20.0), double(30.0)).is_empty());
    assert!(trimmed_segments(&vec![point(1.0, 1.0)], double(0.0), double(1.0)).is_empty());
}

#[test]
fn a_drawing_is_finished_without_holes_and_slivers_and_on_the_grid() {
    let hole = closed(&[(4.0, 4.0), (5.0, 4.0), (5.0, 5.0), (4.0, 5.0)]);
    let drawn = Polygon {
        exterior: closed(&[(0.00004, 0.0), (10.00006, 0.0), (10.0, 10.0)]),
        interiors: vec![hole],
    };
    let sliver = solid(&[(20.0, 0.0), (20.1, 0.0), (20.1, 0.1)]);
    let finished = finish_drawing(vec![drawn, sliver], &vec![double(50.0), double(0.005)]);
    assert_eq!(finished.len(), 1);
    assert!(finished[0].interiors.is_empty());
    assert_eq!(number(finished[0].exterior[0].x), 0.0);
    assert!((number(finished[0].exterior[1].x) - 10.0001).abs() < 1e-9);
}
