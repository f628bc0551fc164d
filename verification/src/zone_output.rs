//! Prepares waiting zones to be written as a SUMO additional file.

use crate::detector::{detectors, DetectorView, E3Detector};
use vstd::prelude::*;

verus! {

/// What goes into an additional file.
#[derive(Debug, PartialEq, Eq)]
pub struct Additional {
    pub entry_exit_detectors: Vec<E3Detector>,
}

/// Where the detector that bears `id` writes its output: a file of its own, in
/// one directory for them all.
pub open spec fn output_file(id: Seq<char>) -> Seq<char> {
    "detector_output/"@ + id + ".xml"@
}

/// `zone` with its output file named.
pub open spec fn with_output_file(zone: DetectorView) -> DetectorView {
    DetectorView { file: output_file(zone.id), ..zone }
}

/// Names the output file of each zone, and leaves all else as it is.
pub fn to_additional(zones: Vec<E3Detector>) -> (additional: Additional)
    ensures
        detectors(additional.entry_exit_detectors@) == detectors(zones@).map_values(
            |zone: DetectorView| with_output_file(zone),
        ),
{
    let ghost views = detectors(zones@);
    let mut named: Vec<E3Detector> = zones;
    let mut i: usize = 0;
    while i < named.len()
        invariant
            i <= named@.len(),
            named@.len() == views.len(),
            forall|k: int| 0 <= k < i ==> (#[trigger] named@[k])@ == with_output_file(views[k]),
            forall|k: int| i <= k < named@.len() ==> (#[trigger] named@[k])@ == views[k],
        decreases named@.len() - i,
    {
        let mut file: String = "detector_output/".to_owned();
        file.append(named[i].id.as_str());
        file.append(".xml");
        assert(named@[i as int]@ == views[i as int]);
        named[i].file = file;
        assert(named@[i as int]@ =~= with_output_file(views[i as int]));
        i = i + 1;
    }
    assert(detectors(named@) =~= views.map_values(|zone: DetectorView| with_output_file(zone)));
    Additional { entry_exit_detectors: named }
}

} // verus!
