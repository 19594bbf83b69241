//! The control-side context: issues node ids, queues control messages
//! for the render side, validates connections, and drives offline
//! rendering.

use vstd::prelude::*;

use crate::buffer::AudioBuffer;
use crate::buffer::ChannelConfig;
use crate::buffer::ChannelCountMode;
use crate::buffer::ChannelInterpretation;
use crate::control::ControlMessage;
use crate::control::Timestamp;
use crate::graph::processor_wf;
use crate::graph::time_of_frames;
use crate::graph::Graph;
use crate::graph::NodeIndex;
use crate::graph::RenderThread;
use crate::graph::MAX_PORT;
use crate::node::Processor;
use crate::IndexSizeError;
use crate::SampleRate;
use crate::BUFFER_SIZE;

verus! {

/// Reserved id of the destination node.
pub const DESTINATION_NODE_ID: u64 = 0;

/// Reserved id of the listener node.
pub const LISTENER_NODE_ID: u64 = 1;

/// First reserved listener-parameter id.
pub const LISTENER_PARAM_FIRST: u64 = 2;

/// One past the last reserved listener-parameter id: the nine listener
/// coordinates occupy the ids right after the listener node.
pub const LISTENER_PARAM_END: u64 = 11;

/// Whether an id belongs to one of the nodes created implicitly with
/// the context; their lifetime is tied to the context and they are
/// never reclaimed early.
pub open spec fn is_magic_id(id: u64) -> bool {
    ||| id == DESTINATION_NODE_ID
    ||| id == LISTENER_NODE_ID
    ||| (LISTENER_PARAM_FIRST <= id < LISTENER_PARAM_END)
}

/// Unique identifier for audio nodes; used for internal bookkeeping.
#[derive(Copy, Clone, PartialEq, Eq, Structural, Debug)]
pub struct AudioNodeId(pub u64);

/// Unique identifier for audio params.
#[derive(Copy, Clone, PartialEq, Eq, Structural, Debug)]
pub struct AudioParamId(pub u64);

impl From<&AudioParamId> for NodeIndex {
    /// Audio params render as graph nodes of their own; only this
    /// conversion can turn a param id back into a graph index.
    fn from(i: &AudioParamId) -> (r: Self)
    {
        NodeIndex(i.0)
    }
}

impl vstd::std_specs::convert::FromSpecImpl<&AudioParamId> for NodeIndex {
    open spec fn obeys_from_spec() -> bool {
        true
    }

    open spec fn from_spec(i: &AudioParamId) -> Self {
        NodeIndex(i.0)
    }
}

/// Control-side record of a registered node's declared port counts,
/// consulted when a connect call is validated.
#[derive(Copy, Clone, PartialEq, Eq, Structural, Debug)]
pub struct NodePorts {
    /// The node id.
    pub id: u64,
    /// Declared number of input ports.
    pub inputs: u32,
    /// Declared number of output ports.
    pub outputs: u32,
}

/// The control-side half of an audio processing context: allocates node
/// ids monotonically, records declared port counts, and queues control
/// messages for the render side.
pub struct BaseAudioContext {
    sample_rate: SampleRate,
    channels: u32,
    node_id_inc: u64,
    frames_played: u64,
    outbox: Vec<ControlMessage>,
    ports: Vec<NodePorts>,
}

impl BaseAudioContext {
    /// The context sample rate, as a spec-level value.
    pub closed spec fn spec_sample_rate(&self) -> SampleRate {
        self.sample_rate
    }

    /// The number of speaker output channels, as a spec-level value.
    pub closed spec fn spec_channels(&self) -> u32 {
        self.channels
    }

    /// The next node id to issue, as a spec-level value.
    pub closed spec fn spec_node_id_inc(&self) -> u64 {
        self.node_id_inc
    }

    /// The control-side mirror of the frame counter, as a spec-level
    /// value.
    pub closed spec fn spec_frames_played(&self) -> u64 {
        self.frames_played
    }

    /// The queued control messages, oldest first, as a spec-level
    /// value.
    pub closed spec fn spec_outbox(&self) -> Seq<ControlMessage> {
        self.outbox@
    }

    /// The registered port records, as a spec-level value.
    pub closed spec fn spec_ports(&self) -> Seq<NodePorts> {
        self.ports@
    }

    /// Whether a node with the given id has been registered.
    pub open spec fn registered(&self, id: u64) -> bool {
        exists|k: int| 0 <= k < self.spec_ports().len() && self.spec_ports()[k].id == id
    }

    /// The port record of a registered node.
    pub open spec fn ports_of(&self, id: u64) -> NodePorts {
        self.spec_ports()[choose|k: int|
            0 <= k < self.spec_ports().len() && self.spec_ports()[k].id == id]
    }

    /// Well-formedness: the rate is positive, at least one output
    /// channel is served, port records carry distinct ids, and every
    /// issued id lies below the allocator.
    pub open spec fn wf(&self) -> bool {
        &&& self.spec_sample_rate().0 >= 1
        &&& self.spec_channels() >= 1
        &&& forall|k: int, l: int|
            0 <= k < l < self.spec_ports().len() ==> (#[trigger] self.spec_ports()[k]).id != (
            #[trigger] self.spec_ports()[l]).id
        &&& forall|k: int|
            0 <= k < self.spec_ports().len() ==> (#[trigger] self.spec_ports()[k]).id
                < self.spec_node_id_inc()
    }

    /// Set up the control side: the destination and listener nodes are
    /// registered under their reserved ids, the listener is tied to the
    /// destination through the parameter port so it renders every
    /// quantum, and the listener-parameter ids are reserved.
    pub fn new(sample_rate: SampleRate, channels: u32) -> (r: Self)
        requires
            sample_rate.0 >= 1,
            channels >= 1,
        ensures
            r.wf(),
            r.spec_sample_rate() == sample_rate,
            r.spec_channels() == channels,
            r.spec_node_id_inc() == LISTENER_PARAM_END,
            r.spec_frames_played() == 0,
            r.spec_outbox().len() == 3,
            r.spec_outbox()[0] matches ControlMessage::RegisterNode {
                id,
                node,
                inputs,
                outputs,
                channel_config,
            } && id == DESTINATION_NODE_ID && node is Destination && inputs == 1 && outputs == 1
                && channel_config.spec_count() == channels,
            r.spec_outbox()[1] matches ControlMessage::RegisterNode { id, node, .. } && id
                == LISTENER_NODE_ID && node is Inert,
            r.spec_outbox()[2] == (ControlMessage::ConnectNode {
                from: LISTENER_NODE_ID,
                to: DESTINATION_NODE_ID,
                output: 0,
                input: MAX_PORT,
            }),
            r.registered(DESTINATION_NODE_ID),
            r.registered(LISTENER_NODE_ID),
            r.ports_of(DESTINATION_NODE_ID).inputs == 1,
            r.ports_of(DESTINATION_NODE_ID).outputs == 1,
    {
        let mut base = BaseAudioContext {
            sample_rate,
            channels,
            node_id_inc: 0,
            frames_played: 0,
            outbox: Vec::new(),
            ports: Vec::new(),
        };
        let dest_config = ChannelConfig {
            count: channels as usize,
            mode: ChannelCountMode::Explicit,
            interpretation: ChannelInterpretation::Speakers,
        };
        let dest = base.register(Processor::Destination, 1, 1, dest_config);
        let listener_config = ChannelConfig {
            count: 2,
            mode: ChannelCountMode::Max,
            interpretation: ChannelInterpretation::Speakers,
        };
        let listener = base.register(Processor::Inert, 1, 9, listener_config);
        base.connect(&listener, &dest, 0, MAX_PORT);
        base.node_id_inc = LISTENER_PARAM_END;
        proof {
            assert(base.spec_ports()[0].id == DESTINATION_NODE_ID);
            assert(base.registered(DESTINATION_NODE_ID));
            assert(base.spec_ports()[1].id == LISTENER_NODE_ID);
            assert(base.registered(LISTENER_NODE_ID));
            assert(base.ports_of(DESTINATION_NODE_ID) == base.spec_ports()[0]) by {
                let w = choose|k: int|
                    0 <= k < base.spec_ports().len() && base.spec_ports()[k].id
                        == DESTINATION_NODE_ID;
                assert(w == 0 || w == 1);
            }
        }
        base
    }

    /// The sample rate (in sample frames per second) at which the
    /// context handles audio.
    pub fn sample_rate(&self) -> (r: SampleRate)
        ensures
            r == self.spec_sample_rate(),
    {
        self.sample_rate
    }

    /// Number of channels of the audio destination.
    pub fn channels(&self) -> (r: u32)
        ensures
            r == self.spec_channels(),
    {
        self.channels
    }

    /// The time of the sample frame following the most recently
    /// rendered quantum, in saturating nanoseconds.
    pub fn current_time(&self) -> (r: Timestamp)
        requires
            self.wf(),
        ensures
            r.nanos == time_of_frames(self.spec_frames_played(), self.spec_sample_rate().0),
    {
        proof {
            assert((self.frames_played as u128) * 1_000_000_000u128
                < 0x1_0000_0000_0000_0000_0000_0000u128) by (nonlinear_arith)
                requires
                    (self.frames_played as u128) < 0x1_0000_0000_0000_0000u128,
            ;
        }
        let t: u128 = (self.frames_played as u128) * 1_000_000_000u128 / (
        self.sample_rate.0 as u128);
        if t > u64::MAX as u128 {
            Timestamp { nanos: u64::MAX }
        } else {
            Timestamp { nanos: t as u64 }
        }
    }

    /// Mirror the render thread's frame counter on the control side,
    /// so that [`BaseAudioContext::current_time`] reflects rendered
    /// audio.
    pub fn sync_frames_played(&mut self, frames: u64)
        ensures
            final(self).spec_frames_played() == frames,
            final(self).spec_sample_rate() == old(self).spec_sample_rate(),
            final(self).spec_channels() == old(self).spec_channels(),
            final(self).spec_node_id_inc() == old(self).spec_node_id_inc(),
            final(self).spec_outbox() == old(self).spec_outbox(),
            final(self).spec_ports() == old(self).spec_ports(),
    {
        self.frames_played = frames;
    }

    /// Register a node: allocate the next id, record the declared port
    /// counts, and queue the registration for the render side.
    pub fn register(
        &mut self,
        processor: Processor,
        inputs: u32,
        outputs: u32,
        channel_config: ChannelConfig,
    ) -> (r: AudioNodeId)
        requires
            old(self).wf(),
            old(self).spec_node_id_inc() < u64::MAX,
            channel_config.spec_count() >= 1,
            processor_wf(processor),
        ensures
            final(self).wf(),
            r.0 == old(self).spec_node_id_inc(),
            final(self).spec_node_id_inc() == old(self).spec_node_id_inc() + 1,
            final(self).spec_outbox() == old(self).spec_outbox().push(
                ControlMessage::RegisterNode {
                    id: r.0,
                    node: processor,
                    inputs: inputs as usize,
                    outputs: outputs as usize,
                    channel_config,
                },
            ),
            final(self).spec_ports() == old(self).spec_ports().push(
                NodePorts { id: r.0, inputs, outputs },
            ),
            final(self).spec_sample_rate() == old(self).spec_sample_rate(),
            final(self).spec_channels() == old(self).spec_channels(),
            final(self).spec_frames_played() == old(self).spec_frames_played(),
            final(self).registered(r.0),
            forall|x: u64|
                x != r.0 ==> #[trigger] final(self).registered(x) == old(self).registered(x),
    {
        let id = self.node_id_inc;
        self.node_id_inc = id + 1;
        self.outbox.push(
            ControlMessage::RegisterNode {
                id,
                node: processor,
                inputs: inputs as usize,
                outputs: outputs as usize,
                channel_config,
            },
        );
        self.ports.push(NodePorts { id, inputs, outputs });
        proof {
            let pos = self.spec_ports().len() - 1;
            assert(self.spec_ports()[pos].id == id);
            assert(self.registered(id));
            assert forall|x: u64| x != id implies #[trigger] self.registered(x) == old(
                self,
            ).registered(x) by {
                if old(self).registered(x) {
                    let w = choose|k: int|
                        0 <= k < old(self).spec_ports().len() && old(self).spec_ports()[k].id == x;
                    assert(self.spec_ports()[w].id == x);
                } else if self.registered(x) {
                    let w = choose|k: int|
                        0 <= k < self.spec_ports().len() && self.spec_ports()[k].id == x;
                    assert(w < pos);
                    assert(old(self).spec_ports()[w].id == x);
                }
            };
        }
        AudioNodeId(id)
    }

    /// Queue a connection from an output port of `from` to an input
    /// port of `to`, without validation.
    pub fn connect(&mut self, from: &AudioNodeId, to: &AudioNodeId, output: u32, input: u32)
        ensures
            final(self).spec_outbox() == old(self).spec_outbox().push(
                ControlMessage::ConnectNode { from: from.0, to: to.0, output, input },
            ),
            final(self).spec_sample_rate() == old(self).spec_sample_rate(),
            final(self).spec_channels() == old(self).spec_channels(),
            final(self).spec_node_id_inc() == old(self).spec_node_id_inc(),
            final(self).spec_frames_played() == old(self).spec_frames_played(),
            final(self).spec_ports() == old(self).spec_ports(),
    {
        self.outbox.push(ControlMessage::ConnectNode { from: from.0, to: to.0, output, input });
    }

    /// Connect a specific output of one node to a specific input of
    /// another, validating the port numbers against the declared
    /// counts.  Fails exactly when a node is unknown or a port number
    /// is out of range; nothing is queued then.
    pub fn connect_at(
        &mut self,
        from: &AudioNodeId,
        to: &AudioNodeId,
        output: u32,
        input: u32,
    ) -> (r: Result<(), IndexSizeError>)
        requires
            old(self).wf(),
        ensures
            final(self).wf(),
            r is Ok <==> (old(self).registered(from.0) && old(self).registered(to.0) && output
                < old(self).ports_of(from.0).outputs && input < old(self).ports_of(to.0).inputs),
            r is Ok ==> final(self).spec_outbox() == old(self).spec_outbox().push(
                ControlMessage::ConnectNode { from: from.0, to: to.0, output, input },
            ),
            r is Err ==> *final(self) == *old(self),
            final(self).spec_sample_rate() == old(self).spec_sample_rate(),
            final(self).spec_channels() == old(self).spec_channels(),
            final(self).spec_node_id_inc() == old(self).spec_node_id_inc(),
            final(self).spec_frames_played() == old(self).spec_frames_played(),
            final(self).spec_ports() == old(self).spec_ports(),
    {
        let from_ports = match self.find_ports(from.0) {
            Some(p) => p,
            None => {
                return Err(IndexSizeError);
            },
        };
        let to_ports = match self.find_ports(to.0) {
            Some(p) => p,
            None => {
                return Err(IndexSizeError);
            },
        };
        if output >= from_ports.outputs || input >= to_ports.inputs {
            return Err(IndexSizeError);
        }
        self.outbox.push(ControlMessage::ConnectNode { from: from.0, to: to.0, output, input });
        Ok(())
    }

    /// The registered port record of the given id, if any.
    fn find_ports(&self, id: u64) -> (r: Option<NodePorts>)
        requires
            self.wf(),
        ensures
            r is Some <==> self.registered(id),
            r matches Some(p) ==> p == self.ports_of(id),
    {
        let n = self.ports.len();
        let mut k: usize = 0;
        while k < n
            invariant
                k <= n,
                n == self.spec_ports().len(),
                self.wf(),
                forall|l: int| 0 <= l < k ==> (#[trigger] self.spec_ports()[l]).id != id,
            decreases n - k,
        {
            if self.ports[k].id == id {
                proof {
                    assert(self.registered(id));
                    let w = choose|l: int|
                        0 <= l < self.spec_ports().len() && self.spec_ports()[l].id == id;
                    if w < k as int {
                        assert(self.spec_ports()[w].id != id);
                    } else if (k as int) < w {
                        assert(self.spec_ports()[k as int].id != self.spec_ports()[w].id);
                    }
                }
                return Some(self.ports[k]);
            }
            k += 1;
        }
        proof {
            if self.registered(id) {
                let w = choose|l: int|
                    0 <= l < self.spec_ports().len() && self.spec_ports()[l].id == id;
                assert(self.spec_ports()[w].id != id);
            }
        }
        None
    }

    /// Queue the removal of every connection from `from` to `to`.
    pub fn disconnect(&mut self, from: &AudioNodeId, to: &AudioNodeId)
        ensures
            final(self).spec_outbox() == old(self).spec_outbox().push(
                ControlMessage::DisconnectNode { from: from.0, to: to.0 },
            ),
            final(self).spec_sample_rate() == old(self).spec_sample_rate(),
            final(self).spec_channels() == old(self).spec_channels(),
            final(self).spec_node_id_inc() == old(self).spec_node_id_inc(),
            final(self).spec_frames_played() == old(self).spec_frames_played(),
            final(self).spec_ports() == old(self).spec_ports(),
    {
        self.outbox.push(ControlMessage::DisconnectNode { from: from.0, to: to.0 });
    }

    /// Queue the removal of every connection leaving `from`.
    pub fn disconnect_all(&mut self, from: &AudioNodeId)
        ensures
            final(self).spec_outbox() == old(self).spec_outbox().push(
                ControlMessage::DisconnectAll { from: from.0 },
            ),
            final(self).spec_sample_rate() == old(self).spec_sample_rate(),
            final(self).spec_channels() == old(self).spec_channels(),
            final(self).spec_node_id_inc() == old(self).spec_node_id_inc(),
            final(self).spec_frames_played() == old(self).spec_frames_played(),
            final(self).spec_ports() == old(self).spec_ports(),
    {
        self.outbox.push(ControlMessage::DisconnectAll { from: from.0 });
    }

    /// Queue replacement of a registered node's channel mixing
    /// settings, so the render side mixes with them from the next
    /// quantum on.
    pub fn update_channel_config(&mut self, node: &AudioNodeId, channel_config: ChannelConfig)
        requires
            channel_config.spec_count() >= 1,
        ensures
            final(self).spec_outbox() == old(self).spec_outbox().push(
                ControlMessage::SetChannelConfig { id: node.0, channel_config },
            ),
            final(self).spec_sample_rate() == old(self).spec_sample_rate(),
            final(self).spec_channels() == old(self).spec_channels(),
            final(self).spec_node_id_inc() == old(self).spec_node_id_inc(),
            final(self).spec_frames_played() == old(self).spec_frames_played(),
            final(self).spec_ports() == old(self).spec_ports(),
    {
        self.outbox.push(ControlMessage::SetChannelConfig { id: node.0, channel_config });
    }

    /// Queue a playback start time for a source node; a start already
    /// in the past takes effect at the next quantum.
    pub fn start_at(&mut self, node: &AudioNodeId, start: Timestamp)
        ensures
            final(self).spec_outbox() == old(self).spec_outbox().push(
                ControlMessage::StartAt { id: node.0, start },
            ),
            final(self).spec_sample_rate() == old(self).spec_sample_rate(),
            final(self).spec_channels() == old(self).spec_channels(),
            final(self).spec_node_id_inc() == old(self).spec_node_id_inc(),
            final(self).spec_frames_played() == old(self).spec_frames_played(),
            final(self).spec_ports() == old(self).spec_ports(),
    {
        self.outbox.push(ControlMessage::StartAt { id: node.0, start });
    }

    /// Queue a playback stop time for a source node.
    pub fn stop_at(&mut self, node: &AudioNodeId, stop: Timestamp)
        ensures
            final(self).spec_outbox() == old(self).spec_outbox().push(
                ControlMessage::StopAt { id: node.0, stop },
            ),
            final(self).spec_sample_rate() == old(self).spec_sample_rate(),
            final(self).spec_channels() == old(self).spec_channels(),
            final(self).spec_node_id_inc() == old(self).spec_node_id_inc(),
            final(self).spec_frames_played() == old(self).spec_frames_played(),
            final(self).spec_ports() == old(self).spec_ports(),
    {
        self.outbox.push(ControlMessage::StopAt { id: node.0, stop });
    }

    /// Attach the nine listener coordinates to a panner node, one
    /// output per input port.
    pub fn connect_listener_to_panner(&mut self, panner: &AudioNodeId)
        ensures
            final(self).spec_outbox().len() == old(self).spec_outbox().len() + 9,
            forall|k: int|
                0 <= k < old(self).spec_outbox().len() ==> (#[trigger] final(self).spec_outbox()[
                    k
                ]) == old(self).spec_outbox()[k],
            forall|j: int|
                0 <= j < 9 ==> (#[trigger] final(self).spec_outbox()[old(
                    self,
                ).spec_outbox().len() + j]) == (ControlMessage::ConnectNode {
                    from: LISTENER_NODE_ID,
                    to: panner.0,
                    output: j as u32,
                    input: (j + 1) as u32,
                }),
            final(self).spec_sample_rate() == old(self).spec_sample_rate(),
            final(self).spec_channels() == old(self).spec_channels(),
            final(self).spec_node_id_inc() == old(self).spec_node_id_inc(),
            final(self).spec_frames_played() == old(self).spec_frames_played(),
            final(self).spec_ports() == old(self).spec_ports(),
    {
        let listener = AudioNodeId(LISTENER_NODE_ID);
        let mut j: u32 = 0;
        while j < 9
            invariant
                listener == AudioNodeId(LISTENER_NODE_ID),
                j <= 9,
                self.spec_outbox().len() == old(self).spec_outbox().len() + j,
                forall|k: int|
                    0 <= k < old(self).spec_outbox().len() ==> (#[trigger] self.spec_outbox()[k])
                        == old(self).spec_outbox()[k],
                forall|l: int|
                    0 <= l < j ==> (#[trigger] self.spec_outbox()[old(self).spec_outbox().len()
                        + l]) == (ControlMessage::ConnectNode {
                        from: LISTENER_NODE_ID,
                        to: panner.0,
                        output: l as u32,
                        input: (l + 1) as u32,
                    }),
                self.spec_sample_rate() == old(self).spec_sample_rate(),
                self.spec_channels() == old(self).spec_channels(),
                self.spec_node_id_inc() == old(self).spec_node_id_inc(),
                self.spec_frames_played() == old(self).spec_frames_played(),
                self.spec_ports() == old(self).spec_ports(),
            decreases 9 - j,
        {
            let ghost pre = self.spec_outbox();
            self.connect(&listener, panner, j, j + 1);
            proof {
                assert(self.spec_outbox() == pre.push(
                    ControlMessage::ConnectNode {
                        from: LISTENER_NODE_ID,
                        to: panner.0,
                        output: j,
                        input: (j + 1) as u32,
                    },
                ));
                assert forall|l: int|
                    0 <= l < j + 1 implies (#[trigger] self.spec_outbox()[old(
                    self,
                ).spec_outbox().len() + l]) == (ControlMessage::ConnectNode {
                    from: LISTENER_NODE_ID,
                    to: panner.0,
                    output: l as u32,
                    input: (l + 1) as u32,
                }) by {
                    if l < j {
                        assert(self.spec_outbox()[old(self).spec_outbox().len() + l] == pre[old(
                            self,
                        ).spec_outbox().len() + l]);
                    } else {
                        assert(self.spec_outbox()[old(self).spec_outbox().len() + l] == pre.push(
                            ControlMessage::ConnectNode {
                                from: LISTENER_NODE_ID,
                                to: panner.0,
                                output: j,
                                input: (j + 1) as u32,
                            },
                        )[pre.len() as int]);
                    }
                };
            }
            j += 1;
        }
    }

    /// Queue reclamation of a dropped node, unless its id is reserved:
    /// the magic nodes live as long as the context.
    pub fn unregister(&mut self, id: AudioNodeId)
        ensures
            is_magic_id(id.0) ==> *final(self) == *old(self),
            !is_magic_id(id.0) ==> final(self).spec_outbox() == old(self).spec_outbox().push(
                ControlMessage::FreeWhenFinished { id: id.0 },
            ),
            final(self).spec_sample_rate() == old(self).spec_sample_rate(),
            final(self).spec_channels() == old(self).spec_channels(),
            final(self).spec_node_id_inc() == old(self).spec_node_id_inc(),
            final(self).spec_frames_played() == old(self).spec_frames_played(),
            final(self).spec_ports() == old(self).spec_ports(),
    {
        let magic = id.0 == DESTINATION_NODE_ID || id.0 == LISTENER_NODE_ID || (
        LISTENER_PARAM_FIRST <= id.0 && id.0 < LISTENER_PARAM_END);
        if !magic {
            self.outbox.push(ControlMessage::FreeWhenFinished { id: id.0 });
        }
    }

    /// Hand the queued control messages over for delivery, oldest
    /// first, leaving the queue empty.
    pub fn take_outbox(&mut self) -> (r: Vec<ControlMessage>)
        ensures
            r@ == old(self).spec_outbox(),
            final(self).spec_outbox().len() == 0,
            final(self).spec_sample_rate() == old(self).spec_sample_rate(),
            final(self).spec_channels() == old(self).spec_channels(),
            final(self).spec_node_id_inc() == old(self).spec_node_id_inc(),
            final(self).spec_frames_played() == old(self).spec_frames_played(),
            final(self).spec_ports() == old(self).spec_ports(),
    {
        let mut out: Vec<ControlMessage> = Vec::new();
        core::mem::swap(&mut out, &mut self.outbox);
        out
    }
}

/// Renders an audio graph into a memory buffer as fast as it can,
/// rather than to the device hardware.
pub struct OfflineAudioContext {
    base: BaseAudioContext,
    length: usize,
    render: RenderThread,
}

impl OfflineAudioContext {
    /// The control side of this context, as a spec-level value.
    pub closed spec fn spec_base(&self) -> BaseAudioContext {
        self.base
    }

    /// The requested render length in sample frames, as a spec-level
    /// value.
    pub closed spec fn spec_length(&self) -> usize {
        self.length
    }

    /// The render half of this context, as a spec-level value.
    pub closed spec fn spec_render(&self) -> RenderThread {
        self.render
    }

    /// Well-formedness of both halves and of the requested length.
    pub open spec fn wf(&self) -> bool {
        &&& self.spec_base().wf()
        &&& self.spec_render().wf()
        &&& self.spec_render().spec_sample_rate() == self.spec_base().spec_sample_rate()
        &&& self.spec_render().spec_channels() == self.spec_base().spec_channels()
        &&& self.spec_length() <= u32::MAX
        &&& self.spec_length() <= usize::MAX - BUFFER_SIZE
    }

    /// Set up an offline context rendering `length` sample frames of
    /// `channels` channels at the given rate.
    pub fn new(channels: u32, length: usize, sample_rate: SampleRate) -> (r: Self)
        requires
            sample_rate.0 >= 1,
            channels >= 1,
            length <= u32::MAX,
            length <= usize::MAX - BUFFER_SIZE,
        ensures
            r.wf(),
            r.spec_length() == length,
            r.spec_base().spec_sample_rate() == sample_rate,
            r.spec_base().spec_channels() == channels,
    {
        let base = BaseAudioContext::new(sample_rate, channels);
        let render_config = ChannelConfig {
            count: channels as usize,
            mode: ChannelCountMode::Explicit,
            interpretation: ChannelInterpretation::Speakers,
        };
        let render = RenderThread::new(Processor::Destination, sample_rate, render_config);
        Self { base, length, render }
    }

    /// Drive the render thread synchronously until the requested
    /// number of frames has been produced, trimming the trailing
    /// partial quantum: the queued control messages are applied first,
    /// and the control-side clock is synchronised afterwards.
    pub fn start_rendering(&mut self) -> (r: AudioBuffer)
        requires
            old(self).wf(),
        ensures
            final(self).wf(),
            final(self).spec_length() == old(self).spec_length(),
            r.wf(),
            r@.len() == old(self).spec_base().spec_channels(),
            r.rate() == old(self).spec_base().spec_sample_rate(),
            r.spec_sample_len() == old(self).spec_length(),
            final(self).spec_base().spec_outbox().len() == 0,
            final(self).spec_base().spec_frames_played()
                == final(self).spec_render().spec_frames_played(),
            exists|g1: Graph, full: Seq<Seq<i64>>|
                {
                    &&& #[trigger] crate::graph::message_chain(
                        old(self).spec_render().spec_graph(),
                        old(self).spec_base().spec_outbox(),
                        g1,
                    )
                    &&& #[trigger] crate::graph::offline_rendered(
                        g1,
                        final(self).spec_render().spec_graph(),
                        old(self).spec_base().spec_channels() as int,
                        old(self).spec_base().spec_sample_rate(),
                        old(self).spec_render().spec_frames_played(),
                        (old(self).spec_length() + BUFFER_SIZE - 1) as int / BUFFER_SIZE as int,
                        full,
                    )
                    &&& forall|c: int|
                        0 <= c < r@.len() ==> (#[trigger] r@[c]) == full[c].take(
                            old(self).spec_length() as int,
                        )
                },
    {
        let msgs = self.base.take_outbox();
        self.render.handle_control_messages(msgs);
        let ghost g1 = self.render.spec_graph();
        let mut buf = self.render.render_audiobuffer(self.length);
        let ghost full = buf@;
        let _rest = buf.split_off(self.length as u32);
        let frames = self.render.frames_played();
        self.base.sync_frames_played(frames);
        proof {
            assert(forall|c: int|
                0 <= c < buf@.len() ==> (#[trigger] buf@[c]).len() == self.spec_length());
            assert(forall|c: int|
                0 <= c < buf@.len() ==> (#[trigger] buf@[c]) == full[c].take(
                    self.spec_length() as int,
                ));
        }
        buf
    }

    /// The time of the sample frame following the most recently
    /// rendered quantum, in saturating nanoseconds.
    pub fn current_time(&self) -> (r: Timestamp)
        requires
            self.wf(),
        ensures
            r.nanos == time_of_frames(
                self.spec_base().spec_frames_played(),
                self.spec_base().spec_sample_rate().0,
            ),
    {
        self.base.current_time()
    }

    /// The requested render length in sample frames.
    pub fn length(&self) -> (r: usize)
        ensures
            r == self.spec_length(),
    {
        self.length
    }
}

} // verus!
