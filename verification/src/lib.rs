//! The event-shipping stage of a telemetry pipeline: events are encoded into
//! labelled records, corrected into non-decreasing timestamp order per
//! partition, grouped into batches, and assembled into wire requests.
use vstd::prelude::*;

pub mod batch;
pub mod builder;
pub mod clock;
pub mod corrector;
pub mod encoder;
pub mod event;
pub mod marks;
pub mod partition;
pub mod record;
pub mod serialize;
pub mod template;
pub mod text;

verus! {

/// Policy applied when a record's timestamp falls behind its partition's
/// high-water mark.
#[derive(Clone, Copy, PartialEq, Eq, Structural, Debug)]
pub enum OutOfOrderAction {
    Drop,
    RewriteTimestamp,
}

} // verus!
