//! Buffer, resampling and re-chunking behaviour.

use web_audio_api::buffer::AudioBuffer;
use web_audio_api::buffer::ChannelData;
use web_audio_api::buffer::Resampler;
use web_audio_api::MediaError;
use web_audio_api::SampleRate;

#[test]
fn test_silent() {
    let b = AudioBuffer::new(2, 10, SampleRate(44_100));

    assert_eq!(b.sample_len(), 10);
    assert_eq!(b.number_of_channels(), 2);
    assert_eq!(b.sample_rate().0, 44_100);
    assert_eq!(b.channel_data(0).as_slice(), &[0i64; 10][..]);
    assert_eq!(b.channel_data(1).as_slice(), &[0i64; 10][..]);
    assert_eq!(b.channels().get(2), None);
}

#[test]
fn test_concat_split() {
    let mut b1 = AudioBuffer::new(2, 5, SampleRate(44_100));
    let b2 = AudioBuffer::new(2, 5, SampleRate(44_100));
    b1.extend(&b2).unwrap();

    assert_eq!(b1.sample_len(), 10);
    assert_eq!(b1.number_of_channels(), 2);
    assert_eq!(b1.sample_rate().0, 44_100);

    let channel_data = ChannelData::from(vec![1i64; 5]);
    let b3 = AudioBuffer::from_channels(vec![channel_data; 2], SampleRate(44_100)).unwrap();

    b1.extend(&b3).unwrap();

    assert_eq!(b1.sample_len(), 15);
    assert_eq!(b1.number_of_channels(), 2);
    assert_eq!(b1.sample_rate().0, 44_100);
    assert_eq!(
        b1.channel_data(0).as_slice(),
        &[0, 0, 0, 0, 0, 0, 0, 0, 0, 0, 1, 1, 1, 1, 1][..]
    );

    let split = b1.split(8);
    assert_eq!(
        split[0].channel_data(0).as_slice(),
        &[0, 0, 0, 0, 0, 0, 0, 0][..]
    );
    assert_eq!(
        split[1].channel_data(0).as_slice(),
        &[0, 0, 1, 1, 1, 1, 1][..]
    );
}

#[test]
fn test_resample_upmix() {
    let channel = ChannelData::from(vec![1, 2, 3, 4, 5]);
    let mut buffer = AudioBuffer::from_channels(vec![channel], SampleRate(100)).unwrap();
    buffer.resample(SampleRate(200));
    assert_eq!(
        buffer.channel_data(0).as_slice(),
        &[1, 1, 2, 2, 3, 3, 4, 4, 5, 5][..]
    );
    assert_eq!(buffer.sample_rate().0, 200);
}

#[test]
fn test_resample_downmix() {
    let channel = ChannelData::from(vec![1, 2, 3, 4, 5]);
    let mut buffer = AudioBuffer::from_channels(vec![channel], SampleRate(200)).unwrap();
    buffer.resample(SampleRate(100));
    assert_eq!(buffer.channel_data(0).as_slice(), &[2, 4][..]);
    assert_eq!(buffer.sample_rate().0, 100);
}

#[test]
fn test_resampler_concat() {
    let channel = ChannelData::from(vec![1, 2, 3, 4, 5]);
    let input_buf = AudioBuffer::from_channels(vec![channel], SampleRate(44_100)).unwrap();
    let input: Vec<Result<AudioBuffer, MediaError>> =
        vec![input_buf.clone(), input_buf.clone(), input_buf]
            .into_iter()
            .map(Ok)
            .collect();
    let mut resampler = Resampler::new(SampleRate(44_100), 10, input);

    let next = resampler.next().unwrap().unwrap();
    assert_eq!(next.sample_len(), 10);
    assert_eq!(
        next.channel_data(0).as_slice(),
        &[1, 2, 3, 4, 5, 1, 2, 3, 4, 5][..]
    );

    let next = resampler.next().unwrap().unwrap();
    assert_eq!(next.sample_len(), 10);
    assert_eq!(
        next.channel_data(0).as_slice(),
        &[1, 2, 3, 4, 5, 0, 0, 0, 0, 0][..]
    );

    assert!(resampler.next().is_none());
}

#[test]
fn test_resampler_split() {
    let channel = ChannelData::from(vec![1, 2, 3, 4, 5, 6, 7, 8, 9, 10]);
    let input_buf = Ok(AudioBuffer::from_channels(vec![channel], SampleRate(44_100)).unwrap());
    let input = vec![input_buf];
    let mut resampler = Resampler::new(SampleRate(44_100), 5, input);

    let next = resampler.next().unwrap().unwrap();
    assert_eq!(next.sample_len(), 5);
    assert_eq!(next.channel_data(0).as_slice(), &[1, 2, 3, 4, 5][..]);

    let next = resampler.next().unwrap().unwrap();
    assert_eq!(next.sample_len(), 5);
    assert_eq!(next.channel_data(0).as_slice(), &[6, 7, 8, 9, 10][..]);

    assert!(resampler.next().is_none());
}

#[test]
fn test_from_channels_unequal_lengths() {
    let a = ChannelData::from(vec![1, 2, 3]);
    let b = ChannelData::from(vec![1, 2]);
    let r = AudioBuffer::from_channels(vec![a, b], SampleRate(44_100));
    assert_eq!(r.unwrap_err(), web_audio_api::BufferError::UnequalChannelLengths);
}

#[test]
fn test_extend_incompatible() {
    let mut b1 = AudioBuffer::new(2, 5, SampleRate(44_100));
    let b2 = AudioBuffer::new(2, 5, SampleRate(48_000));
    assert_eq!(
        b1.extend(&b2).unwrap_err(),
        web_audio_api::BufferError::IncompatibleBuffers
    );
    let b3 = AudioBuffer::new(3, 5, SampleRate(44_100));
    assert_eq!(
        b1.extend(&b3).unwrap_err(),
        web_audio_api::BufferError::IncompatibleBuffers
    );
    // failed calls leave the buffer untouched
    assert_eq!(b1.sample_len(), 5);
    assert_eq!(b1.number_of_channels(), 2);
}

#[test]
fn test_split_off_recovers_both_halves() {
    let c0 = ChannelData::from(vec![1, 2, 3, 4, 5, 6]);
    let c1 = ChannelData::from(vec![7, 8, 9, 10, 11, 12]);
    let mut b = AudioBuffer::from_channels(vec![c0, c1], SampleRate(8_000)).unwrap();
    let rest = b.split_off(4);
    assert_eq!(b.channel_data(0).as_slice(), &[1, 2, 3, 4][..]);
    assert_eq!(b.channel_data(1).as_slice(), &[7, 8, 9, 10][..]);
    assert_eq!(rest.channel_data(0).as_slice(), &[5, 6][..]);
    assert_eq!(rest.channel_data(1).as_slice(), &[11, 12][..]);
    assert_eq!(rest.sample_rate().0, 8_000);
}

#[test]
fn test_extend_then_split_off_roundtrip() {
    let mut b1 = AudioBuffer::from_channels(
        vec![ChannelData::from(vec![1, 2, 3])],
        SampleRate(44_100),
    )
    .unwrap();
    let b2 = AudioBuffer::from_channels(
        vec![ChannelData::from(vec![4, 5])],
        SampleRate(44_100),
    )
    .unwrap();
    let mut joined = b1.clone();
    joined.extend(&b2).unwrap();
    let back = joined.split_off(b1.sample_len() as u32);
    assert_eq!(joined.channel_data(0), b1.channel_data(0));
    assert_eq!(back.channel_data(0), b2.channel_data(0));
    // the seam is where the first operand ended
    b1.extend(&b2).unwrap();
    assert_eq!(b1.channel_data(0).as_slice(), &[1, 2, 3, 4, 5][..]);
}

#[test]
fn test_resampler_error_passthrough() {
    let channel = ChannelData::from(vec![1i64; 10]);
    let ok = Ok(AudioBuffer::from_channels(vec![channel], SampleRate(44_100)).unwrap());
    let input = vec![Err(MediaError::Stream), ok];
    let mut resampler = Resampler::new(SampleRate(44_100), 10, input);
    assert_eq!(resampler.next().unwrap().unwrap_err(), MediaError::Stream);
    let next = resampler.next().unwrap().unwrap();
    assert_eq!(next.channel_data(0).as_slice(), &[1i64; 10][..]);
    assert!(resampler.next().is_none());
}

#[test]
fn test_from_buffers_concatenates() {
    let a = AudioBuffer::from_channels(
        vec![ChannelData::from(vec![1, 2]), ChannelData::from(vec![5, 6])],
        SampleRate(44_100),
    )
    .unwrap();
    let b = AudioBuffer::from_channels(
        vec![ChannelData::from(vec![3, 4]), ChannelData::from(vec![7, 8])],
        SampleRate(44_100),
    )
    .unwrap();
    let joined = AudioBuffer::from_buffers(vec![a, b]);
    assert_eq!(joined.number_of_channels(), 2);
    assert_eq!(joined.sample_rate().0, 44_100);
    assert_eq!(joined.channel_data(0).as_slice(), &[1, 2, 3, 4][..]);
    assert_eq!(joined.channel_data(1).as_slice(), &[5, 6, 7, 8][..]);

    let empty = AudioBuffer::from_buffers(Vec::new());
    assert_eq!(empty.number_of_channels(), 0);
}

#[test]
fn test_resampler_converts_rates() {
    // a 100 Hz buffer pulled through a 200 Hz re-chunker is stretched
    // before chunking
    let channel = ChannelData::from(vec![1, 2, 3]);
    let input_buf = AudioBuffer::from_channels(vec![channel], SampleRate(100)).unwrap();
    let mut resampler = Resampler::new(SampleRate(200), 4, vec![Ok(input_buf)]);

    let next = resampler.next().unwrap().unwrap();
    assert_eq!(next.sample_rate().0, 200);
    assert_eq!(next.channel_data(0).as_slice(), &[1, 1, 2, 2][..]);

    let next = resampler.next().unwrap().unwrap();
    assert_eq!(next.channel_data(0).as_slice(), &[3, 3, 0, 0][..]);

    assert!(resampler.next().is_none());
}
