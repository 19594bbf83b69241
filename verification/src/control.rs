//! User controls for audio playback: start/stop scheduling, looping and
//! seeking.
//!
//! Timestamps are integer nanosecond counts, so that scheduling
//! comparisons are exact; "not yet scheduled" is the largest
//! representable instant.

use vstd::prelude::*;

use crate::buffer::ChannelConfig;
use crate::node::Processor;

verus! {

/// An instant on the media timeline, in nanoseconds.
#[derive(Clone, Copy, Debug, PartialEq, Eq, Structural)]
pub struct Timestamp {
    /// Nanoseconds since the timeline origin.
    pub nanos: u64,
}

/// Nanoseconds per second.
pub const NANOS_PER_SECOND: u64 = 1_000_000_000;

impl Timestamp {
    /// The timeline origin.
    pub fn zero() -> (r: Self)
        ensures
            r.nanos == 0,
    {
        Timestamp { nanos: 0 }
    }

    /// The farthest representable instant; stands for "never".
    pub fn never() -> (r: Self)
        ensures
            r.nanos == u64::MAX,
    {
        Timestamp { nanos: u64::MAX }
    }

    /// An instant a whole number of nanoseconds from the origin.
    pub fn from_nanos(nanos: u64) -> (r: Self)
        ensures
            r.nanos == nanos,
    {
        Timestamp { nanos }
    }

    /// An instant a whole number of seconds from the origin.
    pub fn from_seconds(seconds: u64) -> (r: Self)
        requires
            seconds * NANOS_PER_SECOND <= u64::MAX,
        ensures
            r.nanos == seconds * NANOS_PER_SECOND,
    {
        Timestamp { nanos: seconds * NANOS_PER_SECOND }
    }
}

/// Helper struct to start and stop audio streams: a source is active
/// from its start time (inclusive) to its stop time (exclusive).
#[derive(Clone, Copy, Debug, PartialEq, Eq, Structural)]
pub struct Scheduler {
    start: Timestamp,
    stop: Timestamp,
}

impl Scheduler {
    /// The scheduled start time, as a spec-level value.
    pub closed spec fn spec_start(&self) -> Timestamp {
        self.start
    }

    /// The scheduled stop time, as a spec-level value.
    pub closed spec fn spec_stop(&self) -> Timestamp {
        self.stop
    }

    /// Whether the stream is active at timestamp `ts`:
    /// `start <= ts < stop`.
    pub open spec fn spec_is_active(&self, ts: Timestamp) -> bool {
        self.spec_start().nanos <= ts.nanos < self.spec_stop().nanos
    }

    /// Create a new scheduler; the initial playback state is inactive.
    pub fn new() -> (r: Self)
        ensures
            r.spec_start() == (Timestamp { nanos: u64::MAX }),
            r.spec_stop() == (Timestamp { nanos: u64::MAX }),
            forall|ts: Timestamp| !r.spec_is_active(ts),
    {
        Self { start: Timestamp { nanos: u64::MAX }, stop: Timestamp { nanos: u64::MAX } }
    }

    /// Whether the stream should be active at this timestamp.
    pub fn is_active(&self, ts: Timestamp) -> (r: bool)
        ensures
            r == self.spec_is_active(ts),
    {
        self.start.nanos <= ts.nanos && ts.nanos < self.stop.nanos
    }

    /// Schedule playback start at this timestamp.
    pub fn start_at(&mut self, start: Timestamp)
        ensures
            final(self).spec_start() == start,
            final(self).spec_stop() == old(self).spec_stop(),
    {
        self.start = start;
    }

    /// Stop playback at this timestamp.
    pub fn stop_at(&mut self, stop: Timestamp)
        ensures
            final(self).spec_stop() == stop,
            final(self).spec_start() == old(self).spec_start(),
    {
        self.stop = stop;
    }
}

impl Default for Scheduler {
    /// Same as [`Scheduler::new`]: inactive.
    fn default() -> (r: Self)
        ensures
            r.spec_start() == (Timestamp { nanos: u64::MAX }),
            r.spec_stop() == (Timestamp { nanos: u64::MAX }),
    {
        Self::new()
    }
}

/// Helper struct to control audio streams: scheduling plus looping and
/// one-shot seeking.
#[derive(Clone, Copy, Debug, PartialEq, Eq, Structural)]
pub struct Controller {
    scheduler: Scheduler,
    seek_pending: Option<Timestamp>,
    loop_enabled: bool,
    loop_start: Timestamp,
    loop_end: Timestamp,
}

impl Controller {
    /// The embedded scheduler, as a spec-level value.
    pub closed spec fn spec_scheduler(&self) -> Scheduler {
        self.scheduler
    }

    /// The pending seek request, as a spec-level value.
    pub closed spec fn spec_seek_pending(&self) -> Option<Timestamp> {
        self.seek_pending
    }

    /// Whether looping is enabled, as a spec-level value.
    pub closed spec fn spec_loop(&self) -> bool {
        self.loop_enabled
    }

    /// The loop region start, as a spec-level value.
    pub closed spec fn spec_loop_start(&self) -> Timestamp {
        self.loop_start
    }

    /// The loop region end, as a spec-level value.
    pub closed spec fn spec_loop_end(&self) -> Timestamp {
        self.loop_end
    }

    /// Create a new controller: inactive, not looping, no pending seek.
    pub fn new() -> (r: Self)
        ensures
            r.spec_scheduler().spec_start() == (Timestamp { nanos: u64::MAX }),
            r.spec_scheduler().spec_stop() == (Timestamp { nanos: u64::MAX }),
            r.spec_seek_pending() is None,
            !r.spec_loop(),
            r.spec_loop_start() == (Timestamp { nanos: 0 }),
            r.spec_loop_end() == (Timestamp { nanos: u64::MAX }),
    {
        Self {
            scheduler: Scheduler::new(),
            seek_pending: None,
            loop_enabled: false,
            loop_start: Timestamp { nanos: 0 },
            loop_end: Timestamp { nanos: u64::MAX },
        }
    }

    /// The embedded scheduler.
    pub fn scheduler(&self) -> (r: &Scheduler)
        ensures
            *r == self.spec_scheduler(),
    {
        &self.scheduler
    }

    /// The embedded scheduler, for mutation.
    pub fn scheduler_mut(&mut self) -> (r: &mut Scheduler)
        ensures
            *r == old(self).spec_scheduler(),
            final(self).spec_scheduler() == *final(r),
            final(self).spec_seek_pending() == old(self).spec_seek_pending(),
            final(self).spec_loop() == old(self).spec_loop(),
            final(self).spec_loop_start() == old(self).spec_loop_start(),
            final(self).spec_loop_end() == old(self).spec_loop_end(),
    {
        &mut self.scheduler
    }

    /// Whether looping is enabled.
    pub fn loop_(&self) -> (r: bool)
        ensures
            r == self.spec_loop(),
    {
        self.loop_enabled
    }

    /// Enable or disable looping.
    pub fn set_loop(&mut self, loop_: bool)
        ensures
            final(self).spec_loop() == loop_,
            final(self).spec_scheduler() == old(self).spec_scheduler(),
            final(self).spec_seek_pending() == old(self).spec_seek_pending(),
            final(self).spec_loop_start() == old(self).spec_loop_start(),
            final(self).spec_loop_end() == old(self).spec_loop_end(),
    {
        self.loop_enabled = loop_;
    }

    /// The loop region start.
    pub fn loop_start(&self) -> (r: Timestamp)
        ensures
            r == self.spec_loop_start(),
    {
        self.loop_start
    }

    /// Move the loop region start.
    pub fn set_loop_start(&mut self, loop_start: Timestamp)
        ensures
            final(self).spec_loop_start() == loop_start,
            final(self).spec_scheduler() == old(self).spec_scheduler(),
            final(self).spec_seek_pending() == old(self).spec_seek_pending(),
            final(self).spec_loop() == old(self).spec_loop(),
            final(self).spec_loop_end() == old(self).spec_loop_end(),
    {
        self.loop_start = loop_start;
    }

    /// The loop region end.
    pub fn loop_end(&self) -> (r: Timestamp)
        ensures
            r == self.spec_loop_end(),
    {
        self.loop_end
    }

    /// Move the loop region end.
    pub fn set_loop_end(&mut self, loop_end: Timestamp)
        ensures
            final(self).spec_loop_end() == loop_end,
            final(self).spec_scheduler() == old(self).spec_scheduler(),
            final(self).spec_seek_pending() == old(self).spec_seek_pending(),
            final(self).spec_loop() == old(self).spec_loop(),
            final(self).spec_loop_start() == old(self).spec_loop_start(),
    {
        self.loop_end = loop_end;
    }

    /// Request a one-shot seek to the given timestamp; a later request
    /// replaces an unconsumed earlier one.
    pub fn seek(&mut self, timestamp: Timestamp)
        ensures
            final(self).spec_seek_pending() == Some(timestamp),
            final(self).spec_scheduler() == old(self).spec_scheduler(),
            final(self).spec_loop() == old(self).spec_loop(),
            final(self).spec_loop_start() == old(self).spec_loop_start(),
            final(self).spec_loop_end() == old(self).spec_loop_end(),
    {
        self.seek_pending = Some(timestamp);
    }

    /// Consume the pending seek request, if any: returns the requested
    /// timestamp exactly once per request and clears it.
    pub fn should_seek(&mut self) -> (r: Option<Timestamp>)
        ensures
            r == old(self).spec_seek_pending(),
            final(self).spec_seek_pending() is None,
            final(self).spec_scheduler() == old(self).spec_scheduler(),
            final(self).spec_loop() == old(self).spec_loop(),
            final(self).spec_loop_start() == old(self).spec_loop_start(),
            final(self).spec_loop_end() == old(self).spec_loop_end(),
    {
        self.seek_pending.take()
    }
}

impl Default for Controller {
    /// Same as [`Controller::new`]: inactive, not looping, no pending
    /// seek.
    fn default() -> (r: Self)
        ensures
            r.spec_scheduler().spec_start() == (Timestamp { nanos: u64::MAX }),
            r.spec_scheduler().spec_stop() == (Timestamp { nanos: u64::MAX }),
            r.spec_seek_pending() is None,
            !r.spec_loop(),
            r.spec_loop_start() == (Timestamp { nanos: 0 }),
            r.spec_loop_end() == (Timestamp { nanos: u64::MAX }),
    {
        Self::new()
    }
}

/// The state transition [`Controller::should_seek`] performs: it hands
/// back the pending request and clears it, leaving everything else
/// untouched.
pub open spec fn should_seek_step(pre: Controller, post: Controller, r: Option<Timestamp>) -> bool {
    &&& r == pre.spec_seek_pending()
    &&& post.spec_seek_pending() is None
    &&& post.spec_scheduler() == pre.spec_scheduler()
    &&& post.spec_loop() == pre.spec_loop()
    &&& post.spec_loop_start() == pre.spec_loop_start()
    &&& post.spec_loop_end() == pre.spec_loop_end()
}

/// Law: a seek request is consumed at most once.  Whatever
/// [`Controller::seek`] stored, two consecutive calls of
/// [`Controller::should_seek`] (with no seek in between) cannot both
/// return a timestamp: the second call always returns `None`.
pub proof fn lemma_seek_one_shot(
    c0: Controller,
    c1: Controller,
    r1: Option<Timestamp>,
    c2: Controller,
    r2: Option<Timestamp>,
)
    requires
        should_seek_step(c0, c1, r1),
        should_seek_step(c1, c2, r2),
    ensures
        r2 is None,
{
}

} // verus!

verus! {

/// A command from the control side to the render side.  Commands are
/// queued in send order and applied before any audio of the next
/// quantum is produced.
pub enum ControlMessage {
    /// Store a new node and its processor under the given id.
    RegisterNode {
        /// The id the node will be stored under.
        id: u64,
        /// The render-side processor of the node.
        node: Processor,
        /// Declared number of input ports.
        inputs: usize,
        /// Declared number of output ports.
        outputs: usize,
        /// Channel mixing settings of the node.
        channel_config: ChannelConfig,
    },
    /// Connect an output port of one node to an input port of another.
    ConnectNode {
        /// Source node id.
        from: u64,
        /// Destination node id.
        to: u64,
        /// Output port on the source.
        output: u32,
        /// Input port on the destination.
        input: u32,
    },
    /// Remove every connection from one node to another.
    DisconnectNode {
        /// Source node id.
        from: u64,
        /// Destination node id.
        to: u64,
    },
    /// Remove every connection leaving a node.
    DisconnectAll {
        /// Source node id.
        from: u64,
    },
    /// Reclaim the node once it has no work left.
    FreeWhenFinished {
        /// The id of the node to reclaim.
        id: u64,
    },
    /// Replace the channel mixing settings of a registered node.
    SetChannelConfig {
        /// The id of the node to update.
        id: u64,
        /// The new channel settings.
        channel_config: ChannelConfig,
    },
    /// Schedule playback start of a source node.
    StartAt {
        /// The id of the source to schedule.
        id: u64,
        /// The start timestamp.
        start: Timestamp,
    },
    /// Schedule playback stop of a source node.
    StopAt {
        /// The id of the source to schedule.
        id: u64,
        /// The stop timestamp.
        stop: Timestamp,
    },
}

} // verus!
