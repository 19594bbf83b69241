//! A real-time audio processing engine: multi-channel sample buffers, an
//! audio graph with topological scheduling, per-quantum mixing, and the
//! control-side message protocol that drives the render side.
//!
//! Sample values are carried as plain 64-bit integers and timestamps as
//! integer nanosecond counts, so that every operation on them has an exact
//! arithmetic meaning.

use vstd::prelude::*;

pub mod buffer;
pub mod context;
pub mod control;
pub mod graph;
pub mod node;

verus! {

/// Number of sample frames processed per render quantum.
pub const BUFFER_SIZE: u32 = 128;

/// Sample rate of an audio asset or context, in Hertz.
#[derive(Clone, Copy, Debug, PartialEq, Eq, Structural)]
pub struct SampleRate(pub u32);

/// Error returned when a port number on a connect call is out of range.
#[derive(Clone, Copy, Debug, PartialEq, Eq, Structural)]
pub struct IndexSizeError;

/// Error returned by buffer operations on mismatched operands.
#[derive(Clone, Copy, Debug, PartialEq, Eq, Structural)]
pub enum BufferError {
    /// The channels handed to a buffer constructor differ in length.
    UnequalChannelLengths,
    /// The operands of a buffer operation differ in sample rate or
    /// channel count.
    IncompatibleBuffers,
}

/// Error produced by a media stream element.
#[derive(Clone, Copy, Debug, PartialEq, Eq, Structural)]
pub enum MediaError {
    /// Transient underflow: the source has no data ready; the consumer
    /// emits silence and keeps going.
    BufferDepleted,
    /// Fatal decoding failure: the consumer halts the source for good.
    Stream,
}

} // verus!
