//! Zones written out, and where they are written to.

use std::path::{Path, PathBuf};
use sumo_types::additional::domain as additional;
use sumo_types::uom::si::f64::Length;
use sumo_types::uom::si::length::meter;
use waiting_zones::detector::{DetectorGate, E3Detector, LanePosition};
use waiting_zones::double::Double;
use waiting_zones::network::Point;
use waiting_zones::path::{default_output, suffixed};
use waiting_zones::zone_output::to_additional;

fn double(value: f64) -> Double {
    Double { bits: value.to_bits() }
}

fn number(value: Double) -> f64 {
    f64::from_bits(value.bits)
}

fn point(x: f64, y: f64) -> Point {
    Point { x: double(x), y: double(y), z: double(0.0) }
}

fn zone(id: &str, entry: (&str, f64), exit: (&str, f64), icon: Point) -> E3Detector {
    let gate = |lane: &str, position_m: f64| DetectorGate {
        lane: lane.to_string(),
        position: LanePosition::FromStart(double(position_m)),
        friendly_position: None,
    };
    E3Detector {
        id: id.to_string(),
        entries: vec![gate(entry.0, entry.1)],
        exits: vec![gate(exit.0, exit.1)],
        file: String::new(),
        period: None,
        name: None,
        icon_position: Some(icon),
        speed_threshold: None,
        time_threshold: None,
        open_entry: None,
        detect_persons: vec![],
    }
}

#[test]
fn fills_in_the_output_file_path_from_the_detector_id() {
    let additional =
        to_additional(vec![zone("j0", ("e0_0", 10.0), ("e1_0", 2.5), point(0.0, 0.0))]);

    assert_eq!(additional.entry_exit_detectors.len(), 1);
    let detector = &additional.entry_exit_detectors[0];
    assert_eq!(detector.id, "j0");
    assert_eq!(detector.file, "detector_output/j0.xml");
    assert_eq!(detector.entries[0].lane, "e0_0");
    assert_eq!(detector.entries[0].position, LanePosition::FromStart(double(10.0)));
    assert_eq!(detector.exits[0].position, LanePosition::FromStart(double(2.5)));
}

#[test]
fn leaves_the_rest_of_the_detector_untouched() {
    let icon = point(12.5, -3.0);
    let additional = to_additional(vec![zone("j0_0", ("e0_0", 0.0), ("e0_0", 25.0), icon)]);

    assert_eq!(additional.entry_exit_detectors[0].icon_position, Some(icon));
}

fn written_gate(gate: &DetectorGate) -> additional::DetectorGate {
    let length = |value: Double| Length::new::<meter>(number(value));
    additional::DetectorGate {
        lane: additional::LaneRef(gate.lane.clone()),
        position: match gate.position {
            LanePosition::FromStart(metres) => {
                additional::LanePosition::FromStart(length(metres))
            }
            LanePosition::FromEnd(metres) => additional::LanePosition::FromEnd(length(metres)),
        },
        friendly_position: gate.friendly_position,
    }
}

fn written(zone: &E3Detector) -> additional::E3Detector {
    additional::E3Detector {
        id: additional::DetectorId(zone.id.clone()),
        entries: zone.entries.iter().map(written_gate).collect(),
        exits: zone.exits.iter().map(written_gate).collect(),
        file: zone.file.clone(),
        period: None,
        name: zone.name.clone(),
        icon_position: zone.icon_position.map(|p| additional::Point {
            x: number(p.x),
            y: number(p.y),
            z: number(p.z),
        }),
        speed_threshold: None,
        time_threshold: None,
        open_entry: zone.open_entry,
        detect_persons: vec![],
    }
}

#[test]
fn writes_the_element_shape_sumo_expects() {
    let zones = vec![zone("j0", ("e0_0", 10.0), ("e1_0", 2.5), point(12.5, -3.0))];
    let document = additional::Additional {
        entry_exit_detectors: to_additional(zones)
            .entry_exit_detectors
            .iter()
            .map(written)
            .collect(),
        ..additional::Additional::default()
    };

    let mut buf = Vec::new();
    sumo_types::additional::write_additional_to(&document, &mut buf).unwrap();
    let xml = String::from_utf8(buf).unwrap();

    assert!(
        xml.contains(r#"<e3Detector id="j0" file="detector_output/j0.xml" pos="12.5,-3">"#),
        "{xml}"
    );
    assert!(xml.contains(r#"<detEntry lane="e0_0" pos="10">"#), "{xml}");
    assert!(xml.contains(r#"<detExit lane="e1_0" pos="2.5">"#), "{xml}");
}

const PATHS: [&str; 22] = [
    "zones.geojson",
    "zones",
    "dir/zones.geojson",
    "/abs/dir.d/zones",
    "dir/.hidden",
    "a.b.c",
    "a.",
    ".a.b",
    "dir/",
    "dir//",
    "dir/./",
    "dir/x.net.xml/.",
    "x/..",
    "..",
    ".",
    "",
    "/",
    "//x.y",
    "net.xml",
    ".net.xml",
    "town.net.xml",
    "caf\u{e9}/pla\u{e7}a.net.xml",
];

#[test]
fn a_suffix_goes_before_the_extension_as_the_standard_library_has_it() {
    for path in PATHS {
        if Path::new(path).file_name().is_none() {
            assert_eq!(suffixed(path, "vehicles"), format!("{path}.vehicles"));
            continue;
        }
        let expected: PathBuf = match Path::new(path).extension().and_then(|ext| ext.to_str()) {
            Some(extension) => Path::new(path).with_extension(format!("vehicles.{extension}")),
            None => Path::new(path).with_extension("vehicles"),
        };
        assert_eq!(Path::new(&suffixed(path, "vehicles")), expected, "{path:?}");
    }
    assert_eq!(suffixed("/", "vehicles"), "/.vehicles");
    assert_eq!(suffixed("zones.geojson", "vehicles"), "zones.vehicles.geojson");
    assert_eq!(suffixed("zones", "vehicles"), "zones.vehicles");
}

#[test]
fn the_output_goes_beside_the_input() {
    for path in PATHS {
        let input = Path::new(path);
        let file_name = input.file_name().and_then(|name| name.to_str()).unwrap_or("output");
        let stem = file_name.strip_suffix(".net.xml").unwrap_or_else(|| {
            input.file_stem().and_then(|stem| stem.to_str()).unwrap_or(file_name)
        });
        let expected = input.with_file_name(format!("{stem}.waiting-zones.add.xml"));
        assert_eq!(Path::new(&default_output(path)), expected, "{path:?}");
    }
    assert_eq!(default_output("dir/town.net.xml"), "dir/town.waiting-zones.add.xml");
    assert_eq!(default_output("dir/town.xml"), "dir/town.waiting-zones.add.xml");
}

#[test]
fn the_paths_of_both_kinds_differ_from_each_other_and_from_the_path_itself() {
    for path in PATHS {
        let vehicles = suffixed(path, "vehicles");
        let pedestrians = suffixed(path, "pedestrians");
        assert_ne!(vehicles, pedestrians);
        assert_ne!(vehicles, path);
        assert_ne!(pedestrians, path);
    }
}
