//! The render-side processors: the closed set of per-quantum
//! computations a node can carry, and the control-side channel splitter
//! node.

use vstd::prelude::*;

use vstd::pervasive::VecAdditionalExecFns;

use crate::buffer::silent_channel;
use crate::buffer::AudioBuffer;
use crate::buffer::ChannelConfigOptions;
use crate::buffer::ChannelCountMode;
use crate::buffer::ChannelInterpretation;
use crate::control::Scheduler;
use crate::control::Timestamp;
use crate::BUFFER_SIZE;
use crate::MediaError;
use crate::SampleRate;

verus! {

/// Whether `b` is `a` with every sample silenced: same channel count,
/// same per-channel lengths, all zeros.
pub open spec fn silenced(a: Seq<Seq<i64>>, b: Seq<Seq<i64>>) -> bool {
    &&& b.len() == a.len()
    &&& forall|c: int| 0 <= c < a.len() ==> (#[trigger] b[c]) == silent_channel(a[c].len())
}

/// Renderer of a media stream source: plays the queued chunks of its
/// stream while its scheduler says it is active, emits silence on
/// transient underflow, and halts for good on a stream error or at the
/// end of the stream.
pub struct MediaStreamRenderer {
    /// The queued stream items, consumed front to back.
    pub stream: Vec<Result<AudioBuffer, MediaError>>,
    /// Position of the next item to consume.
    pub pos: usize,
    /// Start/stop schedule of this source.
    pub scheduler: Scheduler,
    /// Whether the stream has ended or failed.
    pub finished: bool,
}

/// Every queued `Ok` chunk is a well-formed quantum-sized buffer with
/// at least one channel.
pub open spec fn media_stream_wf(stream: Seq<Result<AudioBuffer, MediaError>>) -> bool {
    forall|k: int|
        0 <= k < stream.len() ==> ((#[trigger] stream[k]) matches Ok(b) ==> {
            &&& b.wf()
            &&& b@.len() >= 1
            &&& b.spec_sample_len() == BUFFER_SIZE
        })
}

impl MediaStreamRenderer {
    /// Well-formedness of the renderer state.
    pub open spec fn wf(&self) -> bool {
        &&& media_stream_wf(self.stream@)
        &&& self.pos <= self.stream@.len()
    }

    /// Wrap a queued stream and a scheduler into a renderer.
    pub fn new(stream: Vec<Result<AudioBuffer, MediaError>>, scheduler: Scheduler) -> (r: Self)
        requires
            media_stream_wf(stream@),
        ensures
            r.wf(),
            r.stream@ == stream@,
            r.pos == 0,
            r.scheduler == scheduler,
            r.finished == false,
    {
        Self { stream, pos: 0, scheduler, finished: false }
    }
}

/// Whether a processor may still produce audible output after its
/// inputs go silent: a media source that has not finished.
pub open spec fn spec_tail_time(p: Processor) -> bool {
    p matches Processor::MediaStream(m) && !m.finished
}


/// What one [`Processor::process`] call does: the step relation from
/// the processor and output buffers before the call to those after it,
/// given the mixed input buffers and the quantum timestamp.
pub open spec fn process_rel(
    pre: Processor,
    inputs: Seq<AudioBuffer>,
    outs_pre: Seq<AudioBuffer>,
    post: Processor,
    outs_post: Seq<AudioBuffer>,
    timestamp: Timestamp,
    sample_rate: SampleRate,
) -> bool {
    &&& outs_post.len() == outs_pre.len()
    &&& (pre matches Processor::Inert ==> post == pre && outs_post == outs_pre)
    &&& (pre matches Processor::Destination ==> {
        &&& post == pre
        &&& (inputs.len() >= 1 && outs_pre.len() >= 1 ==> outs_post[0]@ == inputs[0]@ && (
        forall|k: int| 1 <= k < outs_pre.len() ==> (#[trigger] outs_post[k]) == outs_pre[k]))
        &&& (inputs.len() == 0 || outs_pre.len() == 0 ==> outs_post == outs_pre)
    })
    &&& (pre matches Processor::Splitter(sp) ==> {
        &&& post == pre
        &&& (inputs.len() >= 1 ==> forall|k: int|
            0 <= k < outs_pre.len() ==> {
                &&& (#[trigger] outs_post[k])@.len() == 1
                &&& outs_post[k]@[0] == (if k < inputs[0]@.len() {
                    inputs[0]@[k]
                } else {
                    silent_channel(BUFFER_SIZE as nat)
                })
            })
        &&& (inputs.len() == 0 ==> outs_post == outs_pre)
    })
    &&& (pre matches Processor::MediaStream(m) ==> {
        let active = m.scheduler.spec_is_active(timestamp);
        &&& post matches Processor::MediaStream(m2) && {
            &&& m2.stream@ == m.stream@
            &&& m2.scheduler == m.scheduler
            &&& m2.wf()
            &&& (outs_pre.len() == 0 ==> outs_post == outs_pre)
            &&& (outs_pre.len() >= 1 && !active ==> {
                &&& m2.pos == m.pos
                &&& m2.finished == m.finished
                &&& silenced(outs_pre[0]@, outs_post[0]@)
            })
            &&& (outs_pre.len() >= 1 && active && m.pos == m.stream@.len() ==> {
                &&& m2.pos == m.pos
                &&& m2.finished == true
                &&& silenced(outs_pre[0]@, outs_post[0]@)
            })
            &&& (outs_pre.len() >= 1 && active && m.pos < m.stream@.len() ==> {
                &&& m2.pos == m.pos + 1
                &&& (m.stream@[m.pos as int] matches Ok(b) ==> m2.finished == m.finished
                    && outs_post[0]@ == b@)
                &&& (m.stream@[m.pos as int] == Err::<AudioBuffer, MediaError>(
                    MediaError::BufferDepleted,
                ) ==> m2.finished == m.finished && silenced(outs_pre[0]@, outs_post[0]@))
                &&& (m.stream@[m.pos as int] == Err::<AudioBuffer, MediaError>(
                    MediaError::Stream,
                ) ==> m2.finished == true && silenced(outs_pre[0]@, outs_post[0]@))
            })
            &&& (forall|k: int|
                1 <= k < outs_pre.len() ==> (#[trigger] outs_post[k]) == outs_pre[k])
        }
    })
}

/// The per-quantum computation of a node.  Processors form a closed,
/// tagged set, which keeps render-thread dispatch free of indirection.
pub enum Processor {
    /// Leaves its output buffers untouched.
    Inert,
    /// The destination sink: passes its first input through to its
    /// first output.
    Destination,
    /// Accessor to the individual channels of its input: output `i`
    /// carries channel `i` as a mono signal, or silence when the input
    /// has no such channel.
    Splitter(ChannelSplitterRenderer),
    /// A media stream source.
    MediaStream(MediaStreamRenderer),
}

impl Processor {
    /// Run one quantum.  `inputs` holds one mixed buffer per input
    /// port; the processor writes its output ports.
    pub fn process(
        &mut self,
        inputs: &Vec<AudioBuffer>,
        outputs: &mut Vec<AudioBuffer>,
        timestamp: Timestamp,
        sample_rate: SampleRate,
    )
        requires
            forall|k: int|
                0 <= k < inputs@.len() ==> {
                    &&& (#[trigger] inputs@[k]).wf()
                    &&& inputs@[k]@.len() >= 1
                    &&& inputs@[k].spec_sample_len() == BUFFER_SIZE
                },
            forall|k: int|
                0 <= k < old(outputs)@.len() ==> {
                    &&& (#[trigger] old(outputs)@[k]).wf()
                    &&& old(outputs)@[k]@.len() >= 1
                    &&& old(outputs)@[k].spec_sample_len() == BUFFER_SIZE
                },
            *old(self) matches Processor::MediaStream(m) ==> m.wf(),
        ensures
            final(outputs)@.len() == old(outputs)@.len(),
            forall|k: int|
                0 <= k < final(outputs)@.len() ==> {
                    &&& (#[trigger] final(outputs)@[k]).wf()
                    &&& final(outputs)@[k]@.len() >= 1
                    &&& final(outputs)@[k].spec_sample_len() == BUFFER_SIZE
                },
            process_rel(
                *old(self),
                inputs@,
                old(outputs)@,
                *final(self),
                final(outputs)@,
                timestamp,
                sample_rate,
            ),
    {
        match self {
            Processor::Inert => {},
            Processor::Destination => {
                if inputs.len() >= 1 && outputs.len() >= 1 {
                    let b = inputs[0].duplicate();
                    outputs.set(0, b);
                }
            },
            Processor::Splitter(_sp) => {
                if inputs.len() >= 1 {
                    let input = &inputs[0];
                    let in_ch = input.number_of_channels();
                    let qlen = input.sample_len();
                    let n = outputs.len();
                    let mut k: usize = 0;
                    while k < n
                        invariant
                            k <= n,
                            n == outputs@.len(),
                            inputs@.len() >= 1,
                            input == inputs@[0],
                            input.wf(),
                            in_ch == input@.len(),
                            qlen == input.spec_sample_len(),
                            qlen == BUFFER_SIZE,
                            forall|l: int|
                                0 <= l < n ==> {
                                    &&& (#[trigger] outputs@[l]).wf()
                                    &&& outputs@[l]@.len() >= 1
                                    &&& outputs@[l].spec_sample_len() == BUFFER_SIZE
                                },
                            forall|l: int|
                                0 <= l < k ==> {
                                    &&& (#[trigger] outputs@[l])@.len() == 1
                                    &&& outputs@[l]@[0] == (if l < input@.len() {
                                        input@[l]
                                    } else {
                                        silent_channel(BUFFER_SIZE as nat)
                                    })
                                },
                        decreases n - k,
                    {
                        let rate = outputs[k].sample_rate();
                        if k < in_ch {
                            let ch = input.cloned_channel(k);
                            let mut chans: Vec<crate::buffer::ChannelData> = Vec::new();
                            chans.push(ch);
                            let nb = match AudioBuffer::from_channels(chans, rate) {
                                Ok(nb) => nb,
                                Err(_) => {
                                    proof {
                                        assert(false);
                                    }
                                    AudioBuffer::new(1, 0, rate)
                                },
                            };
                            outputs.set(k, nb);
                        } else {
                            let mut nb = AudioBuffer::new(1, qlen, rate);
                            proof {
                                assert(nb@[0] =~= silent_channel(BUFFER_SIZE as nat));
                            }
                            outputs.set(k, nb);
                        }
                        k += 1;
                    }
                }
            },
            Processor::MediaStream(m) => {
                if outputs.len() >= 1 {
                    if !m.scheduler.is_active(timestamp) {
                        silence_first(outputs);
                    } else if m.pos == m.stream.len() {
                        m.finished = true;
                        silence_first(outputs);
                    } else {
                        let idx = m.pos;
                        m.pos = idx + 1;
                        match &m.stream[idx] {
                            Ok(b) => {
                                let nb = b.duplicate();
                                outputs.set(0, nb);
                            },
                            Err(e) => {
                                if *e == MediaError::Stream {
                                    m.finished = true;
                                }
                                silence_first(outputs);
                            },
                        }
                    }
                }
            },
        }
    }

    /// Whether the node may still produce audible output after its
    /// inputs go silent.
    pub fn tail_time(&self) -> (r: bool)
        ensures
            r == spec_tail_time(*self),
    {
        match self {
            Processor::MediaStream(m) => !m.finished,
            _ => false,
        }
    }
}

/// Silence the first output buffer in place.
fn silence_first(outputs: &mut Vec<AudioBuffer>)
    requires
        old(outputs)@.len() >= 1,
        forall|k: int|
            0 <= k < old(outputs)@.len() ==> {
                &&& (#[trigger] old(outputs)@[k]).wf()
                &&& old(outputs)@[k]@.len() >= 1
                &&& old(outputs)@[k].spec_sample_len() == BUFFER_SIZE
            },
    ensures
        final(outputs)@.len() == old(outputs)@.len(),
        forall|k: int|
            0 <= k < final(outputs)@.len() ==> {
                &&& (#[trigger] final(outputs)@[k]).wf()
                &&& final(outputs)@[k]@.len() >= 1
                &&& final(outputs)@[k].spec_sample_len() == BUFFER_SIZE
            },
        silenced(old(outputs)@[0]@, final(outputs)@[0]@),
        final(outputs)@[0].rate() == old(outputs)@[0].rate(),
        forall|k: int|
            1 <= k < old(outputs)@.len() ==> (#[trigger] final(outputs)@[k]) == old(outputs)@[k],
{
    let n = outputs[0].number_of_channels();
    let qlen = outputs[0].sample_len();
    let rate = outputs[0].sample_rate();
    let nb = AudioBuffer::new(n, qlen, rate);
    proof {
        assert forall|c: int| 0 <= c < old(outputs)@[0]@.len() implies (#[trigger] nb@[c])
            == silent_channel(old(outputs)@[0]@[c].len()) by {
            assert(nb@[c] =~= silent_channel(old(outputs)@[0]@[c].len()));
        };
    }
    outputs.set(0, nb);
}

/// Renderer side of the channel splitter.
#[derive(Debug)]
pub struct ChannelSplitterRenderer {
    /// How many mono outputs the splitter serves.
    pub number_of_outputs: usize,
}

/// Options for constructing a channel splitter node.
pub struct ChannelSplitterOptions {
    /// How many mono outputs the splitter serves.
    pub number_of_outputs: u32,
    /// Channel mixing settings; the count is forced to the number of
    /// outputs on construction.
    pub channel_config: ChannelConfigOptions,
}

impl Default for ChannelSplitterOptions {
    /// Six mono outputs, discrete interpretation.
    fn default() -> (r: Self)
        ensures
            r.number_of_outputs == 6,
            r.channel_config.count == 6,
            r.channel_config.mode == ChannelCountMode::Explicit,
            r.channel_config.interpretation == ChannelInterpretation::Discrete,
    {
        Self {
            number_of_outputs: 6,
            channel_config: ChannelConfigOptions {
                count: 6,
                mode: ChannelCountMode::Explicit,
                interpretation: ChannelInterpretation::Discrete,
            },
        }
    }
}

} // verus!

verus! {

impl Processor {
    /// Whether this processor value is storable: any internal stream
    /// state must be well formed.  Used to screen incoming registration
    /// commands.
    pub fn storable(&self) -> (r: bool)
        ensures
            r == crate::graph::processor_wf(*self),
    {
        match self {
            Processor::MediaStream(m) => {
                if m.pos > m.stream.len() {
                    return false;
                }
                let n = m.stream.len();
                let mut k: usize = 0;
                while k < n
                    invariant
                        *self matches Processor::MediaStream(mm) && mm == *m,
                        m.pos <= m.stream@.len(),
                        k <= n,
                        n == m.stream@.len(),
                        forall|l: int|
                            0 <= l < k ==> ((#[trigger] m.stream@[l]) matches Ok(b) ==> {
                                &&& b.wf()
                                &&& b@.len() >= 1
                                &&& b.spec_sample_len() == BUFFER_SIZE
                            }),
                    decreases n - k,
                {
                    match &m.stream[k] {
                        Ok(b) => {
                            let wf_ok = b.is_well_formed();
                            if !wf_ok {
                                proof {
                                    if media_stream_wf(m.stream@) {
                                        assert(m.stream@[k as int] matches Ok(bb) ==> bb.wf());
                                        assert(false);
                                    }
                                }
                                return false;
                            }
                            if b.number_of_channels() == 0 {
                                proof {
                                    if media_stream_wf(m.stream@) {
                                        assert(m.stream@[k as int] is Ok);
                                        assert(m.stream@[k as int]->Ok_0 == *b);
                                        assert(m.stream@[k as int] matches Ok(bb) ==> bb@.len()
                                            >= 1);
                                        assert(false);
                                    }
                                }
                                return false;
                            }
                            if b.sample_len() != BUFFER_SIZE as usize {
                                proof {
                                    if media_stream_wf(m.stream@) {
                                        assert(m.stream@[k as int] is Ok);
                                        assert(m.stream@[k as int]->Ok_0 == *b);
                                        assert(m.stream@[k as int] matches Ok(bb)
                                            ==> bb.spec_sample_len() == BUFFER_SIZE);
                                        assert(false);
                                    }
                                }
                                return false;
                            }
                        },
                        Err(_) => {},
                    }
                    k += 1;
                }
                true
            },
            _ => true,
        }
    }
}

} // verus!


verus! {

/// AudioNode for accessing the individual channels of an audio stream
/// in the routing graph.
pub struct ChannelSplitterNode {
    id: crate::context::AudioNodeId,
    channel_config: crate::buffer::ChannelConfig,
}

impl ChannelSplitterNode {
    /// The node's id, as a spec-level value.
    pub closed spec fn spec_id(&self) -> crate::context::AudioNodeId {
        self.id
    }

    /// The node's channel settings, as a spec-level value.
    pub closed spec fn spec_config(&self) -> crate::buffer::ChannelConfig {
        self.channel_config
    }

    /// Register a channel splitter with its context: the channel count
    /// is forced to the number of outputs, and the render side receives
    /// a splitter processor under the fresh id.
    pub fn new(
        context: &mut crate::context::BaseAudioContext,
        options: ChannelSplitterOptions,
    ) -> (r: Self)
        requires
            old(context).wf(),
            old(context).spec_node_id_inc() < u64::MAX,
            options.number_of_outputs >= 1,
        ensures
            final(context).wf(),
            r.spec_id().0 == old(context).spec_node_id_inc(),
            r.spec_config().spec_count() == options.number_of_outputs,
            r.spec_config().spec_count_mode() == options.channel_config.mode,
            r.spec_config().spec_interpretation() == options.channel_config.interpretation,
            final(context).spec_outbox() == old(context).spec_outbox().push(
                crate::control::ControlMessage::RegisterNode {
                    id: r.spec_id().0,
                    node: Processor::Splitter(
                        ChannelSplitterRenderer {
                            number_of_outputs: options.number_of_outputs as usize,
                        },
                    ),
                    inputs: 1,
                    outputs: options.number_of_outputs as usize,
                    channel_config: r.spec_config(),
                },
            ),
            final(context).spec_node_id_inc() == old(context).spec_node_id_inc() + 1,
            final(context).spec_sample_rate() == old(context).spec_sample_rate(),
            final(context).spec_channels() == old(context).spec_channels(),
    {
        let n = options.number_of_outputs;
        let channel_config = crate::buffer::ChannelConfig {
            count: n as usize,
            mode: options.channel_config.mode,
            interpretation: options.channel_config.interpretation,
        };
        let render = ChannelSplitterRenderer { number_of_outputs: n as usize };
        let id = context.register(Processor::Splitter(render), 1, n, channel_config);
        ChannelSplitterNode { id, channel_config }
    }

    /// The node's id in its context.
    pub fn id(&self) -> (r: crate::context::AudioNodeId)
        ensures
            r == self.spec_id(),
    {
        self.id
    }

    /// The number of inputs feeding into this node.
    pub fn number_of_inputs(&self) -> (r: u32)
        ensures
            r == 1,
    {
        1
    }

    /// The number of outputs coming out of this node.
    pub fn number_of_outputs(&self) -> (r: usize)
        ensures
            r == self.spec_config().spec_count(),
    {
        self.channel_config.count
    }

    /// The channel count of this node; always its number of outputs.
    pub fn channel_count(&self) -> (r: usize)
        ensures
            r == self.spec_config().spec_count(),
    {
        self.channel_config.count
    }
}

} // verus!
