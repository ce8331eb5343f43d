//! Frame distribution and control-surface aggregation for a live light show.

pub mod midi;
pub mod snapshot;
pub mod receive;
pub mod device;
pub mod show;
pub mod manager;
