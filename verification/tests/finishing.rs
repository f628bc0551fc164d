//! The cutting and the finishing of a zone, told by hand.

use waiting_zones::cleaning::Turn;
use waiting_zones::cutting::{CutAction, Cutting};
use waiting_zones::double::Double;
use waiting_zones::finishing::{FinishAction, Finishing};
use waiting_zones::plane::Coord;
use waiting_zones::splitting::Polygon;

fn double(value: f64) -> Double {
    Double { bits: value.to_bits() }
}

fn number(value: Double) -> f64 {
    f64::from_bits(value.bits)
}

fn ring(points: &[(f64, f64)]) -> Vec<Coord> {
    let mut ring: Vec<Coord> =
        points.iter().map(|&(x, y)| Coord { x: double(x), y: double(y) }).collect();
    ring.push(ring[0]);
    ring
}

fn solid(points: &[(f64, f64)]) -> Polygon {
    Polygon { exterior: ring(points), interiors: vec![] }
}

/// A square of this side whose lower left corner is at `(x, 0)`.
fn square(x: f64, side: f64) -> Polygon {
    solid(&[(x, 0.0), (x + side, 0.0), (x + side, side), (x, side)])
}

fn doubles(values: &[f64]) -> Vec<Double> {
    values.iter().map(|&value| double(value)).collect()
}

fn degrees(turns: &[Turn]) -> Vec<Double> {
    turns
        .iter()
        .map(|turn| double(number(turn.cross).atan2(number(turn.dot)).to_degrees()))
        .collect()
}

/// Measures turns until something else is asked for.
fn measure_all(finishing: &mut Finishing, mut action: FinishAction) -> FinishAction {
    while let FinishAction::Measure(turns) = action {
        action = finishing.measured(&degrees(&turns));
    }
    action
}

#[test]
fn a_part_that_shares_a_trace_is_left_as_it_is() {
    let (a, b) = (square(0.0, 10.0), square(20.0, 10.0));
    let (mut cutting, action) = Cutting::start(vec![a.clone(), b.clone()]);
    assert_eq!(action, CutAction::Share(a.clone()));
    assert_eq!(cutting.shared(double(0.000001)), CutAction::Share(b.clone()));
    assert_eq!(cutting.shared(double(0.0)), CutAction::Finish(vec![a, b]));
}

#[test]
fn a_part_is_cut_and_its_piece_at_the_stop_line_kept() {
    let (a, b) = (square(0.0, 10.0), square(20.0, 10.0));
    let pieces = vec![square(0.0, 4.0), square(5.0, 0.1), square(6.0, 4.0)];
    let (mut cutting, _) = Cutting::start(vec![a.clone(), b.clone()]);
    assert_eq!(cutting.shared(double(2.0)), CutAction::Subtract(a));
    assert_eq!(cutting.subtracted(pieces.clone()), CutAction::Weigh(pieces.clone()));
    let larger = vec![pieces[0].clone(), pieces[2].clone()];
    let action = cutting.weighed(&vec![false, true, false], &doubles(&[16.0, 0.01, 16.0]));
    assert_eq!(action, CutAction::Weigh(larger));
    let action = cutting.weighed(&vec![false, true], &doubles(&[16.0, 16.0]));
    assert_eq!(action, CutAction::Share(b.clone()));
    let action = cutting.shared(double(0.0));
    assert_eq!(action, CutAction::Finish(vec![pieces[2].clone(), b]));
}

#[test]
fn a_part_that_is_cut_away_leaves_nothing() {
    let (mut cutting, _) = Cutting::start(vec![square(0.0, 10.0)]);
    assert_eq!(cutting.shared(double(100.0)), CutAction::Subtract(square(0.0, 10.0)));
    assert_eq!(cutting.subtracted(vec![]), CutAction::Finish(vec![]));
    let (_, action) = Cutting::start(vec![]);
    assert_eq!(action, CutAction::Finish(vec![]));
}

#[test]
fn an_area_that_is_no_number_is_no_trace() {
    let (mut cutting, _) = Cutting::start(vec![square(0.0, 10.0)]);
    assert_eq!(cutting.shared(double(f64::NAN)), CutAction::Subtract(square(0.0, 10.0)));
}

#[test]
fn a_clean_square_stays_as_it_is() {
    let part = square(0.0, 10.0);
    for pedestrian in [false, true] {
        let (mut finishing, action) = Finishing::start(vec![part.clone()], pedestrian);
        let FinishAction::Measure(turns) = &action else { panic!("turns are measured first") };
        assert_eq!(turns.len(), 4);
        let action = measure_all(&mut finishing, action);
        assert_eq!(action, FinishAction::Weigh(vec![part.clone(), part.clone()]));
        let action = finishing.weighed(&vec![true, true], &doubles(&[100.0, 100.0]));
        assert_eq!(action, FinishAction::Weigh(vec![part.clone()]));
        let action = finishing.weighed(&vec![true], &doubles(&[100.0]));
        assert_eq!(action, FinishAction::Finish(vec![part.clone()]));
    }
}

#[test]
fn one_of_several_parts_is_finished() {
    let (a, b) = (square(0.0, 10.0), square(20.0, 10.0));
    let (mut finishing, action) = Finishing::start(vec![a.clone(), b.clone()], false);
    assert_eq!(action, FinishAction::Weigh(vec![a.clone(), b.clone()]));
    let action = finishing.weighed(&vec![false, true], &doubles(&[100.0, 100.0]));
    let action = measure_all(&mut finishing, action);
    assert_eq!(action, FinishAction::Weigh(vec![b.clone(), b.clone()]));
    let action = finishing.weighed(&vec![true, true], &doubles(&[100.0, 100.0]));
    assert_eq!(action, FinishAction::Weigh(vec![b.clone()]));
    let action = finishing.weighed(&vec![true], &doubles(&[100.0]));
    assert_eq!(action, FinishAction::Finish(vec![b]));
}

#[test]
fn a_bow_tie_of_vehicles_is_cut_before_one_part_is_kept() {
    let bow_tie = solid(&[(0.0, 0.0), (10.0, 10.0), (10.0, 0.0), (0.0, 10.0)]);
    let (mut finishing, action) = Finishing::start(vec![bow_tie.clone()], false);
    let FinishAction::Weigh(pieces) = action else { panic!("the pieces are weighed") };
    assert_eq!(pieces.len(), 2);
    let action = finishing.weighed(&vec![false, true], &doubles(&[25.0, 25.0]));
    measure_all(&mut finishing, action);
    finishing.weighed(&vec![true, true], &doubles(&[25.0, 25.0]));
    let action = finishing.weighed(&vec![true], &doubles(&[25.0]));
    let FinishAction::Finish(left) = action else { panic!("one piece is left") };
    assert_eq!(left.len(), 1);
    assert_eq!(left[0].exterior.first(), left[0].exterior.last());
    assert_eq!(left[0].exterior.len(), 4);
    let (_, action) = Finishing::start(vec![bow_tie], true);
    assert!(matches!(action, FinishAction::Measure(turns) if turns.len() == 4));
}

#[test]
fn a_needle_goes_unless_it_holds_ground() {
    let needle = solid(&[
        (0.0, 0.0),
        (10.0, 0.0),
        (10.0, 4.999),
        (20.0, 5.0),
        (10.0, 5.001),
        (10.0, 10.0),
        (0.0, 10.0),
    ]);
    let (mut finishing, action) = Finishing::start(vec![needle.clone()], true);
    let action = measure_all(&mut finishing, action);
    let FinishAction::Weigh(pair) = &action else { panic!("the cleaned part is weighed") };
    assert_eq!(pair[0], needle);
    assert!(pair[1].exterior.len() < needle.exterior.len());
    let cleaned = pair[1].clone();
    let action = finishing.weighed(&vec![true, true], &doubles(&[100.005, 100.0]));
    assert!(matches!(&action, FinishAction::Weigh(pieces) if pieces.len() == 1));
    let left = cleaned.exterior.len();
    let FinishAction::Weigh(pieces) = action else { panic!("the part is weighed") };
    assert!(pieces[0].exterior.len() <= left);

    let (mut finishing, action) = Finishing::start(vec![needle], true);
    measure_all(&mut finishing, action);
    let action = finishing.weighed(&vec![true, true], &doubles(&[100.02, 100.0]));
    let FinishAction::Weigh(kept) = action else { panic!("the part is weighed") };
    assert_ne!(kept, pieces);
}

#[test]
fn a_zone_of_a_sliver_is_dropped() {
    let sliver = square(0.0, 0.2);
    let (mut finishing, action) = Finishing::start(vec![sliver.clone()], true);
    measure_all(&mut finishing, action);
    finishing.weighed(&vec![true, true], &doubles(&[0.04, 0.04]));
    let action = finishing.weighed(&vec![true], &doubles(&[0.04]));
    assert_eq!(action, FinishAction::Finish(vec![]));
    let (_, action) = Finishing::start(vec![], false);
    assert_eq!(action, FinishAction::Finish(vec![]));
}
