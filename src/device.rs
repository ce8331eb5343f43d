//! The classes of control surface that the show talks to.

use vstd::prelude::*;

verus! {

/// Which class of physical device an event came from or goes to.
#[derive(Debug, Copy, Clone, Hash, PartialEq, Eq, Structural)]
pub enum Device {
    AkaiApc40,
    AkaiApc20,
    TouchOsc,
    BehringerCmdMM1,
}

} // verus!
