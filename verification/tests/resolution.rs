//! The parting of zones that overlap, told by hand.

use waiting_zones::double::Double;
use waiting_zones::overlaps::{boxes_overlap, near_pairs, overlaps, still_overlapping, Bounds};
use waiting_zones::resolution::{cuts_for, unresolved_message, Action, Resolution};

fn double(value: f64) -> Double {
    Double { bits: value.to_bits() }
}

fn number(value: Double) -> f64 {
    f64::from_bits(value.bits)
}

fn bounds(min_x: f64, min_y: f64, max_x: f64, max_y: f64) -> Option<Bounds> {
    Some(Bounds {
        min_x: double(min_x),
        min_y: double(min_y),
        max_x: double(max_x),
        max_y: double(max_y),
    })
}

#[test]
fn boxes_that_touch_are_near() {
    let a = bounds(0.0, 0.0, 2.0, 2.0);
    assert!(boxes_overlap(a, bounds(2.0, 0.0, 3.0, 1.0)));
    assert!(!boxes_overlap(a, bounds(2.1, 0.0, 3.0, 1.0)));
    assert!(!boxes_overlap(a, bounds(0.0, 2.1, 1.0, 3.0)));
    assert!(!boxes_overlap(a, None));
    let boxes = vec![a, bounds(5.0, 0.0, 6.0, 1.0), None, bounds(1.0, 1.0, 5.5, 1.5)];
    assert_eq!(near_pairs(&boxes), vec![(0, 3), (1, 3)]);
}

#[test]
fn a_square_millimetre_is_no_overlap() {
    assert!(!overlaps(double(0.0)));
    assert!(!overlaps(double(0.000001)));
    assert!(overlaps(double(0.0000011)));
    assert!(!overlaps(double(f64::NAN)));
    let pairs = vec![(0, 1), (0, 2), (1, 2)];
    let areas = vec![double(1.0), double(0.0), double(2.0)];
    assert_eq!(still_overlapping(&pairs, &areas), vec![(0, 1), (1, 2)]);
}

#[test]
fn zones_far_apart_are_left_alone() {
    let (mut resolution, action) =
        Resolution::start(&vec![bounds(0.0, 0.0, 1.0, 1.0), bounds(5.0, 0.0, 6.0, 1.0)]);
    assert_eq!(action, Action::Measure(vec![]));
    assert_eq!(resolution.measured(&vec![]), Action::Finish(vec![]));
}

fn two_near() -> Vec<Option<Bounds>> {
    vec![bounds(0.0, 0.0, 2.0, 2.0), bounds(1.0, 0.0, 3.0, 2.0)]
}

/// Answers every probe of zone `zone` as one that overlaps beyond `safe`
/// metres, until something else is asked for.
fn search(resolution: &mut Resolution, action: Action, zone: usize, safe: f64) -> (Action, u32) {
    let mut action = action;
    let mut probes = 0;
    while let Action::Probe { zone: probed, pad, .. } = action {
        if probed != zone {
            break;
        }
        probes += 1;
        action = resolution.probed(double(if number(pad) > safe { 1.0 } else { 0.0 }));
    }
    (action, probes)
}

#[test]
fn padding_is_taken_back_just_far_enough() {
    let (mut resolution, action) = Resolution::start(&two_near());
    assert_eq!(action, Action::Measure(vec![(0, 1)]));
    let action = resolution.measured(&vec![double(3.0)]);
    assert_eq!(action, Action::Measure(vec![(0, 1)]), "the first round begins");
    let action = resolution.measured(&vec![double(3.0)]);
    assert_eq!(action, Action::Probe { zone: 0, pad: double(5.0), opposing: 1 });

    let (action, probes) = search(&mut resolution, action, 0, 2.4);
    assert_eq!(probes, 11);
    let Action::Redraw { zone: 0, pad } = action else { panic!("{action:?}") };
    let pad = number(pad);
    assert!(pad <= 2.4 && pad > 2.4 - 5.0 / 1024.0, "{pad}");

    let action = resolution.redrawn();
    assert_eq!(action, Action::Probe { zone: 1, pad: double(5.0), opposing: 0 });
    let action = resolution.probed(double(0.0));
    assert_eq!(action, Action::Measure(vec![(0, 1)]), "zone 1 keeps its padding");
    let action = resolution.measured(&vec![double(0.0)]);
    assert_eq!(action, Action::Measure(vec![(0, 1)]), "the second round begins");
    assert_eq!(resolution.measured(&vec![double(0.0)]), Action::Finish(vec![]));
}

#[test]
fn what_padding_cannot_part_is_cut() {
    let (mut resolution, _) = Resolution::start(&two_near());
    resolution.measured(&vec![double(3.0)]);
    let mut action = resolution.measured(&vec![double(3.0)]);
    for zone in 0..2 {
        let (next, probes) = search(&mut resolution, action, zone, -1.0);
        assert_eq!(probes, 11);
        let Action::Redraw { zone: redrawn, pad } = next else { panic!("{next:?}") };
        assert_eq!(redrawn, zone);
        assert!(number(pad) == 0.0);
        action = resolution.redrawn();
    }
    assert_eq!(action, Action::Measure(vec![(0, 1)]));
    assert_eq!(resolution.measured(&vec![double(3.0)]), Action::Cut(vec![(0, 1)]));
    assert_eq!(resolution.cut(), Action::Measure(vec![(0, 1)]));
    // Neither zone has padding left, so none is tried again.
    let action = resolution.measured(&vec![double(1.0)]);
    assert_eq!(action, Action::Measure(vec![(0, 1)]));
}

#[test]
fn it_ends_after_eight_rounds_and_tells_what_is_left() {
    let (mut resolution, mut action) = Resolution::start(&two_near());
    let mut cuts = 0;
    let mut last_pads = [5.0, 5.0];
    let left = loop {
        action = match action {
            Action::Measure(pairs) => {
                resolution.measured(&pairs.iter().map(|_| double(1.0)).collect())
            }
            Action::Probe { .. } => resolution.probed(double(1.0)),
            Action::Redraw { zone, pad } => {
                assert!(number(pad) < last_pads[zone], "padding never grows");
                last_pads[zone] = number(pad);
                resolution.redrawn()
            }
            Action::Cut(_) => {
                cuts += 1;
                resolution.cut()
            }
            Action::Finish(left) => break left,
        };
    };
    assert_eq!(cuts, 8);
    assert_eq!(left, vec![(0, 1)]);
    assert_eq!(
        unresolved_message(&"a".to_string(), &"b".to_string()),
        "zones DetectorId(\"a\") and DetectorId(\"b\") still overlap after 8 resolution rounds \
         \u{2014} left as-is"
    );
}

#[test]
fn a_zone_is_cut_by_every_pair_that_it_is_in() {
    let pairs = vec![(0, 1), (1, 2), (0, 3)];
    assert_eq!(cuts_for(&pairs, 0), vec![0, 2]);
    assert_eq!(cuts_for(&pairs, 1), vec![0, 1]);
    assert_eq!(cuts_for(&pairs, 4), Vec::<usize>::new());
}

#[test]
fn a_zone_that_overlaps_nothing_is_left_alone() {
    let boxes = vec![
        bounds(0.0, 0.0, 2.0, 2.0),
        bounds(1.0, 0.0, 3.0, 2.0),
        bounds(2.5, 0.0, 4.0, 2.0),
    ];
    let (mut resolution, mut action) = Resolution::start(&boxes);
    assert_eq!(action, Action::Measure(vec![(0, 1), (1, 2)]));
    loop {
        action = match action {
            Action::Measure(pairs) => {
                let areas =
                    pairs.iter().map(|&(_, j)| double(if j == 2 { 0.0 } else { 1.0 })).collect();
                resolution.measured(&areas)
            }
            Action::Probe { zone, opposing, .. } => {
                assert!(zone != 2 && opposing != 2);
                resolution.probed(double(1.0))
            }
            Action::Redraw { zone, .. } => {
                assert!(zone != 2);
                resolution.redrawn()
            }
            Action::Cut(pairs) => {
                assert_eq!(pairs, vec![(0, 1)]);
                resolution.cut()
            }
            Action::Finish(left) => {
                assert_eq!(left, vec![(0, 1)]);
                break;
            }
        };
    }
}
