//! Show-wide settings.

use vstd::prelude::*;

verus! {

#[verifier::external_type_specification]
pub struct ExLevel(log::Level);

/// Relies on the derived Clone of log::Level, a Copy type: the clone is the
/// same level.
pub assume_specification[ <log::Level as Clone>::clone ](l: &log::Level) -> (r: log::Level)
    ensures
        r == *l,
;

/// Synthetic workloads the show can run in place of live input.
#[derive(Copy, Clone, Debug, PartialEq, Eq, Structural)]
pub enum TestMode {
    Stress,
    Rotation,
    Aliasing,
    MultiChannel,
}

/// How a show runs.
#[derive(Clone, Debug)]
pub struct Config {
    pub use_midi: bool,
    pub midi_devices: Vec<String>,
    pub report_framerate: bool,
    pub log_level: log::Level,
    pub test_mode: Option<TestMode>,
}

impl Default for Config {
    /// No control surfaces, no frame-rate reports, debug logging, live input.
    fn default() -> (r: Config)
        ensures
            !r.use_midi,
            r.midi_devices@.len() == 0,
            !r.report_framerate,
            r.test_mode is None,
            r.log_level == log::Level::Debug,
    {
        Config {
            use_midi: false,
            midi_devices: Vec::new(),
            report_framerate: false,
            log_level: log::Level::Debug,
            test_mode: None,
        }
    }
}

} // verus!
