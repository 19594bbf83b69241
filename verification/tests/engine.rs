//! The rendering pipeline: channel mixing, processors, the render
//! thread and the offline context.

use web_audio_api::buffer::AudioBuffer;
use web_audio_api::buffer::ChannelConfig;
use web_audio_api::buffer::ChannelCountMode;
use web_audio_api::buffer::ChannelData;
use web_audio_api::buffer::ChannelInterpretation;
use web_audio_api::context::AudioNodeId;
use web_audio_api::context::BaseAudioContext;
use web_audio_api::context::OfflineAudioContext;
use web_audio_api::control::ControlMessage;
use web_audio_api::control::Scheduler;
use web_audio_api::control::Timestamp;
use web_audio_api::graph::Graph;
use web_audio_api::graph::NodeIndex;
use web_audio_api::graph::RenderThread;
use web_audio_api::node::ChannelSplitterNode;
use web_audio_api::node::ChannelSplitterOptions;
use web_audio_api::node::MediaStreamRenderer;
use web_audio_api::node::Processor;
use web_audio_api::IndexSizeError;
use web_audio_api::MediaError;
use web_audio_api::SampleRate;
use web_audio_api::BUFFER_SIZE;

fn mono(samples: Vec<i64>) -> AudioBuffer {
    AudioBuffer::from_channels(vec![ChannelData::from(samples)], SampleRate(44_100)).unwrap()
}

#[test]
fn test_mix_discrete_truncates_and_pads() {
    let mut b = AudioBuffer::from_channels(
        vec![
            ChannelData::from(vec![1, 2]),
            ChannelData::from(vec![3, 4]),
            ChannelData::from(vec![5, 6]),
        ],
        SampleRate(44_100),
    )
    .unwrap();
    b.mix(2, ChannelInterpretation::Discrete);
    assert_eq!(b.number_of_channels(), 2);
    assert_eq!(b.channel_data(0).as_slice(), &[1, 2][..]);
    assert_eq!(b.channel_data(1).as_slice(), &[3, 4][..]);
    b.mix(4, ChannelInterpretation::Discrete);
    assert_eq!(b.number_of_channels(), 4);
    assert_eq!(b.channel_data(2).as_slice(), &[0, 0][..]);
    assert_eq!(b.channel_data(3).as_slice(), &[0, 0][..]);
}

#[test]
fn test_mix_speakers_mono_to_stereo() {
    let mut b = mono(vec![1, 2, 3]);
    b.mix(2, ChannelInterpretation::Speakers);
    assert_eq!(b.number_of_channels(), 2);
    assert_eq!(b.channel_data(0).as_slice(), &[1, 2, 3][..]);
    assert_eq!(b.channel_data(1).as_slice(), &[1, 2, 3][..]);
}

#[test]
fn test_mix_speakers_stereo_down() {
    let mut b = AudioBuffer::from_channels(
        vec![ChannelData::from(vec![2, 5]), ChannelData::from(vec![4, 6])],
        SampleRate(44_100),
    )
    .unwrap();
    b.mix(1, ChannelInterpretation::Speakers);
    assert_eq!(b.number_of_channels(), 1);
    // the floor-average of the two front channels
    assert_eq!(b.channel_data(0).as_slice(), &[3, 5][..]);
}

#[test]
fn test_add_sums_elementwise_after_upmix() {
    let a = AudioBuffer::from_channels(
        vec![ChannelData::from(vec![1, 2]), ChannelData::from(vec![3, 4])],
        SampleRate(44_100),
    )
    .unwrap();
    let b = mono(vec![10, 20]);
    // the mono operand is spread to both speaker channels first
    let sum = a.add(&b, ChannelInterpretation::Speakers);
    assert_eq!(sum.number_of_channels(), 2);
    assert_eq!(sum.channel_data(0).as_slice(), &[11, 22][..]);
    assert_eq!(sum.channel_data(1).as_slice(), &[13, 24][..]);
}

#[test]
fn test_add_saturates_at_the_limits() {
    let a = mono(vec![i64::MAX, i64::MIN]);
    let b = mono(vec![1, -1]);
    let sum = a.add(&b, ChannelInterpretation::Discrete);
    assert_eq!(sum.channel_data(0).as_slice(), &[i64::MAX, i64::MIN][..]);
}

fn quantum(value: i64) -> AudioBuffer {
    AudioBuffer::from_channels(
        vec![ChannelData::from(vec![value; BUFFER_SIZE as usize])],
        SampleRate(44_100),
    )
    .unwrap()
}

#[test]
fn test_render_thread_plays_media_source() {
    let config = ChannelConfig {
        count: 1,
        mode: ChannelCountMode::Max,
        interpretation: ChannelInterpretation::Speakers,
    };
    let mut rt = RenderThread::new(Processor::Destination, SampleRate(44_100), config);

    let mut scheduler = Scheduler::new();
    scheduler.start_at(Timestamp::zero());
    let media = MediaStreamRenderer::new(vec![Ok(quantum(7)), Ok(quantum(9))], scheduler);

    let messages = vec![
        ControlMessage::RegisterNode {
            id: 5,
            node: Processor::MediaStream(media),
            inputs: 0,
            outputs: 1,
            channel_config: config,
        },
        ControlMessage::ConnectNode { from: 5, to: 0, output: 0, input: 0 },
    ];
    rt.handle_control_messages(messages);

    let mut data = vec![0i64; BUFFER_SIZE as usize];
    rt.render(&mut data);
    assert_eq!(data, vec![7i64; BUFFER_SIZE as usize]);
    assert_eq!(rt.frames_played(), BUFFER_SIZE as u64);

    rt.render(&mut data);
    assert_eq!(data, vec![9i64; BUFFER_SIZE as usize]);

    // the stream is exhausted: silence from here on
    rt.render(&mut data);
    assert_eq!(data, vec![0i64; BUFFER_SIZE as usize]);
}

#[test]
fn test_media_source_inactive_until_started() {
    let config = ChannelConfig {
        count: 1,
        mode: ChannelCountMode::Max,
        interpretation: ChannelInterpretation::Speakers,
    };
    let mut rt = RenderThread::new(Processor::Destination, SampleRate(44_100), config);
    // never started: the scheduler keeps the source inactive
    let media = MediaStreamRenderer::new(vec![Ok(quantum(7))], Scheduler::new());
    rt.handle_control_messages(vec![
        ControlMessage::RegisterNode {
            id: 5,
            node: Processor::MediaStream(media),
            inputs: 0,
            outputs: 1,
            channel_config: config,
        },
        ControlMessage::ConnectNode { from: 5, to: 0, output: 0, input: 0 },
    ]);
    let mut data = vec![1i64; BUFFER_SIZE as usize];
    rt.render(&mut data);
    assert_eq!(data, vec![0i64; BUFFER_SIZE as usize]);
}

#[test]
fn test_process_called_at_most_once_per_quantum() {
    let config = ChannelConfig {
        count: 2,
        mode: ChannelCountMode::Explicit,
        interpretation: ChannelInterpretation::Speakers,
    };
    let mut graph = Graph::new(Processor::Inert, config);
    graph.add_node(NodeIndex(1), Processor::Inert, 1, 1, config);
    graph.add_node(NodeIndex(2), Processor::Inert, 1, 1, config);
    // a diamond: both paths reach node 2, yet it renders once
    graph.add_edge((NodeIndex(1), 0), (NodeIndex(0), 0));
    graph.add_edge((NodeIndex(2), 0), (NodeIndex(0), 0));
    graph.add_edge((NodeIndex(2), 0), (NodeIndex(1), 0));

    graph.render(Timestamp::zero(), SampleRate(44_100));
    assert_eq!(graph.node_quanta(0), Some(1));
    assert_eq!(graph.node_quanta(1), Some(1));
    assert_eq!(graph.node_quanta(2), Some(1));

    graph.render(Timestamp::zero(), SampleRate(44_100));
    assert_eq!(graph.node_quanta(2), Some(2));
}

#[test]
fn test_splitter_processor_splits_channels() {
    let mut p = Processor::Splitter(web_audio_api::node::ChannelSplitterRenderer {
        number_of_outputs: 3,
    });
    let input = AudioBuffer::from_channels(
        vec![
            ChannelData::from(vec![1; BUFFER_SIZE as usize]),
            ChannelData::from(vec![2; BUFFER_SIZE as usize]),
        ],
        SampleRate(44_100),
    )
    .unwrap();
    let inputs = vec![input];
    let mut outputs = vec![
        AudioBuffer::new(1, BUFFER_SIZE as usize, SampleRate(44_100)),
        AudioBuffer::new(1, BUFFER_SIZE as usize, SampleRate(44_100)),
        AudioBuffer::new(1, BUFFER_SIZE as usize, SampleRate(44_100)),
    ];
    p.process(
        &inputs,
        &mut outputs,
        Timestamp::zero(),
        SampleRate(44_100),
    );
    assert_eq!(outputs[0].channel_data(0).as_slice(), &[1; BUFFER_SIZE as usize][..]);
    assert_eq!(outputs[1].channel_data(0).as_slice(), &[2; BUFFER_SIZE as usize][..]);
    // the input has no third channel: silence
    assert_eq!(outputs[2].channel_data(0).as_slice(), &[0; BUFFER_SIZE as usize][..]);
}

#[test]
fn test_offline_context_renders_requested_length() {
    let mut ctx = OfflineAudioContext::new(2, 300, SampleRate(44_100));
    assert_eq!(ctx.length(), 300);
    let buf = ctx.start_rendering();
    assert_eq!(buf.number_of_channels(), 2);
    assert_eq!(buf.sample_len(), 300);
    assert_eq!(buf.sample_rate().0, 44_100);
    assert_eq!(buf.channel_data(0).as_slice(), &[0i64; 300][..]);
    assert_eq!(buf.channel_data(1).as_slice(), &[0i64; 300][..]);
}

#[test]
fn test_connect_at_validates_ports() {
    let mut base = BaseAudioContext::new(SampleRate(44_100), 2);
    let config = ChannelConfig {
        count: 1,
        mode: ChannelCountMode::Max,
        interpretation: ChannelInterpretation::Speakers,
    };
    let source = base.register(Processor::Inert, 1, 2, config);
    let dest = AudioNodeId(0);
    assert_eq!(base.connect_at(&source, &dest, 0, 0), Ok(()));
    assert_eq!(base.connect_at(&source, &dest, 1, 0), Ok(()));
    // output port out of range
    assert_eq!(base.connect_at(&source, &dest, 2, 0), Err(IndexSizeError));
    // input port out of range on the destination
    assert_eq!(base.connect_at(&source, &dest, 0, 1), Err(IndexSizeError));
    // unknown node
    assert_eq!(
        base.connect_at(&AudioNodeId(99), &dest, 0, 0),
        Err(IndexSizeError)
    );
}

#[test]
fn test_unregister_spares_magic_nodes() {
    let mut base = BaseAudioContext::new(SampleRate(44_100), 2);
    let before = base.take_outbox().len();
    assert_eq!(before, 3);
    base.unregister(AudioNodeId(0));
    base.unregister(AudioNodeId(1));
    base.unregister(AudioNodeId(5));
    base.unregister(AudioNodeId(10));
    assert_eq!(base.take_outbox().len(), 0);
    base.unregister(AudioNodeId(11));
    let msgs = base.take_outbox();
    assert_eq!(msgs.len(), 1);
    assert!(matches!(
        msgs[0],
        ControlMessage::FreeWhenFinished { id: 11 }
    ));
}

#[test]
fn test_splitter_node_registration() {
    let mut base = BaseAudioContext::new(SampleRate(44_100), 2);
    let _setup = base.take_outbox();
    let node = ChannelSplitterNode::new(&mut base, ChannelSplitterOptions::default());
    assert_eq!(node.id().0, 11);
    assert_eq!(node.number_of_inputs(), 1);
    assert_eq!(node.number_of_outputs(), 6);
    assert_eq!(node.channel_count(), 6);
    let msgs = base.take_outbox();
    assert_eq!(msgs.len(), 1);
    assert!(matches!(
        &msgs[0],
        ControlMessage::RegisterNode { id: 11, inputs: 1, outputs: 6, .. }
    ));
}

#[test]
fn test_media_stream_error_handling() {
    let mut scheduler = Scheduler::new();
    scheduler.start_at(Timestamp::zero());
    let media = MediaStreamRenderer::new(
        vec![
            Err(MediaError::BufferDepleted),
            Ok(quantum(3)),
            Err(MediaError::Stream),
            Ok(quantum(4)),
        ],
        scheduler,
    );
    let mut p = Processor::MediaStream(media);
    let inputs: Vec<AudioBuffer> = Vec::new();
    let mut outputs = vec![AudioBuffer::new(1, BUFFER_SIZE as usize, SampleRate(44_100))];
    let silent = vec![0i64; BUFFER_SIZE as usize];

    // transient underflow: silence, playback goes on
    p.process(&inputs, &mut outputs, Timestamp::zero(), SampleRate(44_100));
    assert_eq!(outputs[0].channel_data(0).as_slice(), &silent[..]);
    assert!(p.tail_time());

    p.process(&inputs, &mut outputs, Timestamp::zero(), SampleRate(44_100));
    assert_eq!(
        outputs[0].channel_data(0).as_slice(),
        &[3; BUFFER_SIZE as usize][..]
    );

    // a fatal stream error halts the source for good
    p.process(&inputs, &mut outputs, Timestamp::zero(), SampleRate(44_100));
    assert_eq!(outputs[0].channel_data(0).as_slice(), &silent[..]);
    assert!(!p.tail_time());
}

#[test]
fn test_free_when_finished_reclaims_exhausted_source() {
    let config = ChannelConfig {
        count: 1,
        mode: ChannelCountMode::Max,
        interpretation: ChannelInterpretation::Speakers,
    };
    let mut rt = RenderThread::new(Processor::Destination, SampleRate(44_100), config);
    let mut scheduler = Scheduler::new();
    scheduler.start_at(Timestamp::zero());
    let media = MediaStreamRenderer::new(vec![Ok(quantum(7))], scheduler);
    rt.handle_control_messages(vec![
        ControlMessage::RegisterNode {
            id: 5,
            node: Processor::MediaStream(media),
            inputs: 0,
            outputs: 1,
            channel_config: config,
        },
        ControlMessage::ConnectNode { from: 5, to: 0, output: 0, input: 0 },
        ControlMessage::FreeWhenFinished { id: 5 },
    ]);

    // still playing: the source reports tail time and is kept
    rt.reclaim_finished();
    assert!(rt.graph().node_quanta(5).is_some());

    let mut data = vec![0i64; BUFFER_SIZE as usize];
    rt.render(&mut data); // plays the single chunk
    rt.render(&mut data); // stream exhausted: the source finishes

    rt.reclaim_finished();
    assert_eq!(rt.graph().node_quanta(5), None);
    assert_eq!(rt.graph().edges().len(), 0);
    // the destination itself is never reclaimed
    assert!(rt.graph().node_quanta(0).is_some());
}

#[test]
fn test_max_mode_follows_source_channel_count() {
    // a mono source into a destination configured for two channels under
    // `Max`: the effective count follows the source, so the second
    // device channel stays silent
    let config = ChannelConfig {
        count: 2,
        mode: ChannelCountMode::Max,
        interpretation: ChannelInterpretation::Speakers,
    };
    let mut rt = RenderThread::new(Processor::Destination, SampleRate(44_100), config);
    let mut scheduler = Scheduler::new();
    scheduler.start_at(Timestamp::zero());
    let media = MediaStreamRenderer::new(vec![Ok(quantum(7))], scheduler);
    rt.handle_control_messages(vec![
        ControlMessage::RegisterNode {
            id: 5,
            node: Processor::MediaStream(media),
            inputs: 0,
            outputs: 1,
            channel_config: config,
        },
        ControlMessage::ConnectNode { from: 5, to: 0, output: 0, input: 0 },
    ]);
    let mut data = vec![1i64; 2 * BUFFER_SIZE as usize];
    rt.render(&mut data);
    for f in 0..BUFFER_SIZE as usize {
        assert_eq!(data[2 * f], 7);
        assert_eq!(data[2 * f + 1], 0);
    }
}

#[test]
fn test_live_channel_config_update() {
    // a mono source under `Max` leaves the second device channel
    // silent; switching the destination to `Explicit` two-channel mid
    // stream up-mixes from the next quantum on
    let config = ChannelConfig {
        count: 2,
        mode: ChannelCountMode::Max,
        interpretation: ChannelInterpretation::Speakers,
    };
    let mut rt = RenderThread::new(Processor::Destination, SampleRate(44_100), config);
    let mut scheduler = Scheduler::new();
    scheduler.start_at(Timestamp::zero());
    let media = MediaStreamRenderer::new(vec![Ok(quantum(7)), Ok(quantum(9))], scheduler);
    rt.handle_control_messages(vec![
        ControlMessage::RegisterNode {
            id: 5,
            node: Processor::MediaStream(media),
            inputs: 0,
            outputs: 1,
            channel_config: config,
        },
        ControlMessage::ConnectNode { from: 5, to: 0, output: 0, input: 0 },
    ]);
    let mut data = vec![0i64; 2 * BUFFER_SIZE as usize];
    rt.render(&mut data);
    assert_eq!(data[0], 7);
    assert_eq!(data[1], 0);

    rt.handle_control_messages(vec![ControlMessage::SetChannelConfig {
        id: 0,
        channel_config: ChannelConfig {
            count: 2,
            mode: ChannelCountMode::Explicit,
            interpretation: ChannelInterpretation::Speakers,
        },
    }]);
    rt.render(&mut data);
    assert_eq!(data[0], 9);
    assert_eq!(data[1], 9);
}

#[test]
fn test_live_scheduling_messages() {
    let config = ChannelConfig {
        count: 1,
        mode: ChannelCountMode::Max,
        interpretation: ChannelInterpretation::Speakers,
    };
    let mut rt = RenderThread::new(Processor::Destination, SampleRate(44_100), config);
    // registered inactive: no start time yet
    let media = MediaStreamRenderer::new(
        vec![Ok(quantum(7)), Ok(quantum(9)), Ok(quantum(3))],
        Scheduler::new(),
    );
    rt.handle_control_messages(vec![
        ControlMessage::RegisterNode {
            id: 5,
            node: Processor::MediaStream(media),
            inputs: 0,
            outputs: 1,
            channel_config: config,
        },
        ControlMessage::ConnectNode { from: 5, to: 0, output: 0, input: 0 },
    ]);
    let mut data = vec![0i64; BUFFER_SIZE as usize];
    rt.render(&mut data);
    assert_eq!(data, vec![0i64; BUFFER_SIZE as usize]);

    // start now, stop two quanta later
    let start = Timestamp::from_nanos(0);
    let stop = Timestamp::from_nanos(
        2 * (BUFFER_SIZE as u64) * 1_000_000_000 / 44_100 + 1,
    );
    rt.handle_control_messages(vec![
        ControlMessage::StartAt { id: 5, start },
        ControlMessage::StopAt { id: 5, stop },
    ]);
    rt.render(&mut data);
    assert_eq!(data, vec![7i64; BUFFER_SIZE as usize]);
    rt.render(&mut data);
    assert_eq!(data, vec![9i64; BUFFER_SIZE as usize]);
    // stopped again: the third chunk is never played
    rt.render(&mut data);
    assert_eq!(data, vec![0i64; BUFFER_SIZE as usize]);
}

#[test]
fn test_render_two_quanta_in_one_call() {
    let config = ChannelConfig {
        count: 1,
        mode: ChannelCountMode::Max,
        interpretation: ChannelInterpretation::Speakers,
    };
    let mut rt = RenderThread::new(Processor::Destination, SampleRate(44_100), config);
    let mut scheduler = Scheduler::new();
    scheduler.start_at(Timestamp::zero());
    let media = MediaStreamRenderer::new(vec![Ok(quantum(7)), Ok(quantum(9))], scheduler);
    rt.handle_control_messages(vec![
        ControlMessage::RegisterNode {
            id: 5,
            node: Processor::MediaStream(media),
            inputs: 0,
            outputs: 1,
            channel_config: config,
        },
        ControlMessage::ConnectNode { from: 5, to: 0, output: 0, input: 0 },
    ]);
    // a single device callback spanning two quanta drives the graph twice
    let mut data = vec![0i64; 2 * BUFFER_SIZE as usize];
    rt.render(&mut data);
    assert_eq!(&data[..BUFFER_SIZE as usize], &[7i64; BUFFER_SIZE as usize][..]);
    assert_eq!(&data[BUFFER_SIZE as usize..], &[9i64; BUFFER_SIZE as usize][..]);
    assert_eq!(rt.frames_played(), 2 * BUFFER_SIZE as u64);
}
