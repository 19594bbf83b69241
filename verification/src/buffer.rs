//! General purpose audio signal data structures.
//!
//! Sample values are plain 64-bit integers; a channel is a vector of
//! samples, and an audio buffer an ordered sequence of equally long
//! channels together with a sample rate.

use vstd::prelude::*;

use vstd::arithmetic::div_mod::lemma_div_is_ordered;
use vstd::pervasive::VecAdditionalExecFns;

use crate::BufferError;
use crate::MediaError;
use crate::SampleRate;

verus! {

/// Position in the resampled signal at which the stretch of the `i`-th
/// input sample begins, for a conversion from `old_rate` to `new_rate`:
/// the `i`-th input sample occupies the output positions
/// `resample_pos(i, ..) .. resample_pos(i + 1, ..)`.
pub open spec fn resample_pos(i: int, new_rate: int, old_rate: int) -> int {
    (i * new_rate) / old_rate
}

/// `resample_pos` grows monotonically in the input position.
pub proof fn lemma_resample_pos_ordered(i: int, j: int, new_rate: int, old_rate: int)
    requires
        0 <= i <= j,
        new_rate >= 0,
        old_rate > 0,
    ensures
        resample_pos(i, new_rate, old_rate) <= resample_pos(j, new_rate, old_rate),
        0 <= resample_pos(i, new_rate, old_rate),
{
    vstd::arithmetic::mul::lemma_mul_inequality(i, j, new_rate);
    lemma_div_is_ordered(i * new_rate, j * new_rate, old_rate);
    vstd::arithmetic::mul::lemma_mul_nonnegative(i, new_rate);
    lemma_div_is_ordered(0, i * new_rate, old_rate);
}

/// The nearest-neighbour stretch of a channel from rate `old_rate` to
/// `new_rate`: the `i`-th input sample fills the output positions
/// `resample_pos(i, ..) .. resample_pos(i + 1, ..)`, so the output is
/// `resample_pos(len, ..)` samples long.
pub open spec fn stretch(ch: Seq<i64>, new_rate: int, old_rate: int) -> Seq<i64>
    decreases ch.len(),
{
    if ch.len() == 0 {
        Seq::empty()
    } else {
        stretch(ch.drop_last(), new_rate, old_rate) + Seq::new(
            (resample_pos(ch.len() as int, new_rate, old_rate) - resample_pos(
                ch.len() - 1,
                new_rate,
                old_rate,
            )) as nat,
            |j: int| ch.last(),
        )
    }
}

/// Single channel of audio samples.
#[derive(Clone, Debug)]
pub struct ChannelData {
    data: Vec<i64>,
}

impl View for ChannelData {
    type V = Seq<i64>;

    closed spec fn view(&self) -> Seq<i64> {
        self.data@
    }
}

impl ChannelData {
    /// Allocate a silent channel with the given number of samples.
    pub fn new(length: usize) -> (r: Self)
        ensures
            r@.len() == length,
            forall|i: int| 0 <= i < length ==> r@[i] == 0i64,
    {
        let data: Vec<i64> = vec![0i64; length];
        Self { data }
    }

    /// Wrap a vector of samples as a channel.
    pub fn from(data: Vec<i64>) -> (r: Self)
        ensures
            r@ == data@,
    {
        Self { data }
    }

    /// Number of samples in this channel.
    pub fn len(&self) -> (r: usize)
        ensures
            r == self@.len(),
    {
        self.data.len()
    }

    /// Whether the channel holds no samples.
    pub fn is_empty(&self) -> (r: bool)
        ensures
            r == (self@.len() == 0),
    {
        self.data.is_empty()
    }

    /// The samples as a slice.
    pub fn as_slice(&self) -> (r: &[i64])
        ensures
            r@ == self@,
    {
        self.data.as_slice()
    }

    /// The sample at the given position.
    pub fn sample(&self, i: usize) -> (r: i64)
        requires
            i < self@.len(),
        ensures
            r == self@[i as int],
    {
        self.data[i]
    }
}

impl PartialEq for ChannelData {
    fn eq(&self, other: &Self) -> (r: bool)
    {
        let mut i: usize = 0;
        if self.data.len() != other.data.len() {
            return false;
        }
        while i < self.data.len()
            invariant
                i <= self.data@.len(),
                self.data@.len() == other.data@.len(),
                forall|j: int| 0 <= j < i ==> self.data@[j] == other.data@[j],
            decreases self.data@.len() - i,
        {
            if self.data[i] != other.data[i] {
                return false;
            }
            i += 1;
        }
        proof {
            assert(self.data@ =~= other.data@);
        }
        true
    }
}

impl vstd::std_specs::cmp::PartialEqSpecImpl for ChannelData {
    open spec fn obeys_eq_spec() -> bool {
        true
    }

    open spec fn eq_spec(&self, other: &Self) -> bool {
        self@ == other@
    }
}

impl Eq for ChannelData {}

/// Memory-resident audio asset: a matrix of channels times samples.
#[derive(Clone, Debug)]
pub struct AudioBuffer {
    channels: Vec<ChannelData>,
    sample_rate: SampleRate,
}

impl View for AudioBuffer {
    type V = Seq<Seq<i64>>;

    closed spec fn view(&self) -> Seq<Seq<i64>> {
        self.channels@.map_values(|c: ChannelData| c@)
    }
}

impl AudioBuffer {
    /// The sample rate, as a spec-level value.
    pub closed spec fn rate(&self) -> SampleRate {
        self.sample_rate
    }

    /// Length in samples of every channel, as a spec-level value.
    pub open spec fn spec_sample_len(&self) -> nat {
        if self@.len() == 0 {
            0
        } else {
            self@[0].len()
        }
    }

    /// Every channel of the buffer holds the same number of samples.
    pub open spec fn wf(&self) -> bool {
        forall|i: int| 0 <= i < self@.len() ==> (#[trigger] self@[i]).len() == self.spec_sample_len()
    }

    /// Allocate a silent audio buffer with the given channel and sample count.
    pub fn new(channels: usize, len: usize, sample_rate: SampleRate) -> (r: Self)
        ensures
            r.wf(),
            r@.len() == channels,
            r.spec_sample_len() == (if channels == 0 { 0nat } else { len as nat }),
            r.rate() == sample_rate,
            forall|c: int, i: int| 0 <= c < channels && 0 <= i < len ==> r@[c][i] == 0i64,
    {
        let mut chans: Vec<ChannelData> = Vec::new();
        let mut c: usize = 0;
        while c < channels
            invariant
                c <= channels,
                chans@.len() == c,
                forall|k: int| 0 <= k < c ==> (#[trigger] chans@[k])@.len() == len,
                forall|k: int, i: int| 0 <= k < c && 0 <= i < len ==> chans@[k]@[i] == 0i64,
            decreases channels - c,
        {
            chans.push(ChannelData::new(len));
            c += 1;
        }
        let r = Self { channels: chans, sample_rate };
        r
    }

    /// Create a multi-channel audio buffer from the given channels.
    ///
    /// Fails when the channels differ in length.
    pub fn from_channels(channels: Vec<ChannelData>, sample_rate: SampleRate) -> (r: Result<
        Self,
        BufferError,
    >)
        ensures
            r is Ok <==> (forall|i: int|
                0 <= i < channels@.len() ==> (#[trigger] channels@[i])@.len()
                    == channels@[0]@.len()),
            r matches Ok(b) ==> {
                &&& b.wf()
                &&& b@ == channels@.map_values(|c: ChannelData| c@)
                &&& b.rate() == sample_rate
            },
            r matches Err(e) ==> e == BufferError::UnequalChannelLengths,
    {
        let mut i: usize = 0;
        while i < channels.len()
            invariant
                i <= channels@.len(),
                forall|k: int|
                    0 <= k < i ==> (#[trigger] channels@[k])@.len() == channels@[0]@.len(),
            decreases channels@.len() - i,
        {
            if channels[i].len() != channels[0].len() {
                return Err(BufferError::UnequalChannelLengths);
            }
            i += 1;
        }
        let r = Self { channels, sample_rate };
        Ok(r)
    }

    /// Number of channels in this buffer.
    pub fn number_of_channels(&self) -> (r: usize)
        ensures
            r == self@.len(),
    {
        self.channels.len()
    }

    /// Number of samples per channel in this buffer.
    pub fn sample_len(&self) -> (r: usize)
        requires
            self.wf(),
        ensures
            r == self.spec_sample_len(),
    {
        if self.channels.len() == 0 {
            0
        } else {
            self.channels[0].len()
        }
    }

    /// Sample rate of this buffer in Hertz.
    pub fn sample_rate(&self) -> (r: SampleRate)
        ensures
            r == self.rate(),
    {
        self.sample_rate
    }

    /// Channel data as a slice.
    pub fn channels(&self) -> (r: &Vec<ChannelData>)
        ensures
            r@.map_values(|c: ChannelData| c@) == self@,
    {
        &self.channels
    }

    /// The samples of one specific channel.
    pub fn channel_data(&self, index: usize) -> (r: &ChannelData)
        requires
            index < self@.len(),
        ensures
            r@ == self@[index as int],
    {
        &self.channels[index]
    }

    /// Extend this buffer with the contents of another.
    ///
    /// Fails when the sample rates or the channel counts differ.
    pub fn extend(&mut self, other: &Self) -> (r: Result<(), BufferError>)
        requires
            old(self).wf(),
            other.wf(),
        ensures
            final(self).wf(),
            r is Ok <==> (old(self).rate() == other.rate() && old(self)@.len() == other@.len()),
            r is Ok ==> {
                &&& final(self)@.len() == old(self)@.len()
                &&& final(self).rate() == old(self).rate()
                &&& forall|c: int|
                    0 <= c < old(self)@.len() ==> final(self)@[c] == old(self)@[c] + other@[c]
                &&& final(self).spec_sample_len() == old(self).spec_sample_len()
                    + other.spec_sample_len()
            },
            r is Err ==> *final(self) == *old(self),
            r matches Err(e) ==> e == BufferError::IncompatibleBuffers,
    {
        if self.sample_rate.0 != other.sample_rate.0 || self.channels.len()
            != other.channels.len() {
            return Err(BufferError::IncompatibleBuffers);
        }
        let n = self.channels.len();
        let mut new_chans: Vec<ChannelData> = Vec::new();
        let mut c: usize = 0;
        while c < n
            invariant
                c <= n,
                n == self@.len(),
                other@.len() == n,
                *self == *old(self),
                new_chans@.len() == c,
                forall|k: int|
                    0 <= k < c ==> (#[trigger] new_chans@[k])@ == self@[k] + other@[k],
            decreases n - c,
        {
            let mut data: Vec<i64> = Vec::new();
            let alen = self.channels[c].len();
            let mut i: usize = 0;
            while i < alen
                invariant
                    i <= alen,
                    c < n,
                    n == self@.len(),
                    alen == self@[c as int].len(),
                    data@ == self@[c as int].take(i as int),
                decreases alen - i,
            {
                data.push(self.channels[c].data[i]);
                proof {
                    assert(data@ =~= self@[c as int].take(i + 1));
                }
                i += 1;
            }
            proof {
                assert(self@[c as int].take(alen as int) =~= self@[c as int]);
            }
            let olen = other.channels[c].len();
            let mut j: usize = 0;
            while j < olen
                invariant
                    j <= olen,
                    c < n,
                    n == other@.len(),
                    olen == other@[c as int].len(),
                    data@ == self@[c as int] + other@[c as int].take(j as int),
            decreases olen - j,
            {
                data.push(other.channels[c].data[j]);
                proof {
                    assert(data@ =~= self@[c as int] + other@[c as int].take(j + 1));
                }
                j += 1;
            }
            proof {
                assert(other@[c as int].take(olen as int) =~= other@[c as int]);
            }
            new_chans.push(ChannelData { data });
            c += 1;
        }
        self.channels = new_chans;
        proof {
            assert(forall|k: int|
                0 <= k < n ==> (#[trigger] self@[k]).len() == old(self)@[k].len()
                    + other@[k].len());
        }
        Ok(())
    }

    /// Split this buffer in two at the given sample index: the buffer keeps
    /// the samples before `index`, the returned buffer holds the rest.
    pub fn split_off(&mut self, index: u32) -> (r: AudioBuffer)
        requires
            old(self).wf(),
            index as nat <= old(self).spec_sample_len(),
        ensures
            final(self).wf(),
            r.wf(),
            final(self)@.len() == old(self)@.len(),
            r@.len() == old(self)@.len(),
            final(self).rate() == old(self).rate(),
            r.rate() == old(self).rate(),
            forall|c: int|
                0 <= c < old(self)@.len() ==> (#[trigger] final(self)@[c]) == old(
                    self,
                )@[c].take(index as int),
            forall|c: int|
                0 <= c < old(self)@.len() ==> (#[trigger] r@[c]) == old(self)@[c].skip(
                    index as int,
                ),
    {
        let idx = index as usize;
        let n = self.channels.len();
        let mut front: Vec<ChannelData> = Vec::new();
        let mut back: Vec<ChannelData> = Vec::new();
        let mut c: usize = 0;
        while c < n
            invariant
                c <= n,
                n == self@.len(),
                *self == *old(self),
                old(self).wf(),
                idx as nat <= old(self).spec_sample_len(),
                front@.len() == c,
                back@.len() == c,
                forall|k: int|
                    0 <= k < c ==> (#[trigger] front@[k])@ == self@[k].take(idx as int),
                forall|k: int|
                    0 <= k < c ==> (#[trigger] back@[k])@ == self@[k].skip(idx as int),
            decreases n - c,
        {
            let clen = self.channels[c].len();
            let mut pre: Vec<i64> = Vec::new();
            let mut i: usize = 0;
            while i < idx
                invariant
                    i <= idx,
                    c < n,
                    n == self@.len(),
                    idx <= self@[c as int].len(),
                    pre@ == self@[c as int].take(i as int),
                decreases idx - i,
            {
                pre.push(self.channels[c].data[i]);
                proof {
                    assert(pre@ =~= self@[c as int].take(i + 1));
                }
                i += 1;
            }
            let mut suf: Vec<i64> = Vec::new();
            let mut j: usize = idx;
            while j < clen
                invariant
                    idx <= j <= clen,
                    c < n,
                    n == self@.len(),
                    clen == self@[c as int].len(),
                    suf@ == self@[c as int].subrange(idx as int, j as int),
                decreases clen - j,
            {
                suf.push(self.channels[c].data[j]);
                proof {
                    assert(suf@ =~= self@[c as int].subrange(idx as int, j + 1));
                }
                j += 1;
            }
            front.push(ChannelData { data: pre });
            back.push(ChannelData { data: suf });
            c += 1;
        }
        let sample_rate = self.sample_rate;
        self.channels = front;
        AudioBuffer { channels: back, sample_rate }
    }

    /// Split this buffer into chunks of `sample_len` samples each; the last
    /// chunk may be shorter.
    pub fn split(self, sample_len: u32) -> (r: Vec<AudioBuffer>)
        requires
            self.wf(),
            sample_len > 0,
        ensures
            r@.len() == (self.spec_sample_len() + sample_len - 1) as int / sample_len as int,
            forall|k: int| 0 <= k < r@.len() ==> (#[trigger] r@[k]).wf(),
            forall|k: int| 0 <= k < r@.len() ==> (#[trigger] r@[k]).rate() == self.rate(),
            forall|k: int| 0 <= k < r@.len() ==> (#[trigger] r@[k])@.len() == self@.len(),
            forall|k: int, c: int|
                0 <= k < r@.len() && 0 <= c < self@.len() ==> (#[trigger] r@[k]@[c])
                    == self@[c].subrange(
                    k * sample_len,
                    if (k + 1) * sample_len <= self.spec_sample_len() {
                        (k + 1) * (sample_len as int)
                    } else {
                        self.spec_sample_len() as int
                    },
                ),
    {
        let chunk = sample_len as usize;
        let n = self.channels.len();
        let total = self.sample_len();
        let nchunks: usize = if total == 0 {
            0
        } else {
            (total - 1) / chunk + 1
        };
        proof {
            assert(nchunks == (self.spec_sample_len() + sample_len - 1) as int
                / sample_len as int) by (nonlinear_arith)
                requires
                    nchunks == if total == 0 { 0int } else { (total - 1) as int / chunk as int + 1 },
                    total == self.spec_sample_len(),
                    chunk == sample_len,
                    chunk > 0,
                    total >= 0,
            ;
            assert(nchunks * chunk >= total && ((nchunks - 1) * chunk < total || nchunks == 0))
                by (nonlinear_arith)
                requires
                    nchunks == if total == 0 { 0int } else { (total - 1) as int / chunk as int + 1 },
                    chunk > 0,
                    total >= 0,
            ;
        }
        let mut r: Vec<AudioBuffer> = Vec::new();
        let mut k: usize = 0;
        while k < nchunks
            invariant
                k <= nchunks,
                n == self@.len(),
                total == self.spec_sample_len(),
                chunk == sample_len,
                chunk > 0,
                self.wf(),
                nchunks * chunk >= total,
                (nchunks - 1) * chunk < total || nchunks == 0,
                r@.len() == k,
                forall|q: int| 0 <= q < k ==> (#[trigger] r@[q]).wf(),
                forall|q: int| 0 <= q < k ==> (#[trigger] r@[q]).rate() == self.rate(),
                forall|q: int| 0 <= q < k ==> (#[trigger] r@[q])@.len() == n,
                forall|q: int, c: int|
                    0 <= q < k && 0 <= c < n ==> (#[trigger] r@[q]@[c]) == self@[c].subrange(
                        q * chunk,
                        if (q + 1) * chunk <= total {
                            (q + 1) * (chunk as int)
                        } else {
                            total as int
                        },
                    ),
            decreases nchunks - k,
        {
            proof {
                assert(k * chunk < total) by (nonlinear_arith)
                    requires
                        0 <= k < nchunks,
                        chunk > 0,
                        (nchunks - 1) * chunk < total,
                ;
            }
            let start = k * chunk;
            let end = if chunk <= total - start {
                start + chunk
            } else {
                total
            };
            let mut chans: Vec<ChannelData> = Vec::new();
            let mut c: usize = 0;
            while c < n
                invariant
                    c <= n,
                    n == self@.len(),
                    self.wf(),
                    total == self.spec_sample_len(),
                    start < total,
                    start <= end <= total,
                    chans@.len() == c,
                    forall|p: int|
                        0 <= p < c ==> (#[trigger] chans@[p])@ == self@[p].subrange(
                            start as int,
                            end as int,
                        ),
                decreases n - c,
            {
                let mut data: Vec<i64> = Vec::new();
                let mut i: usize = start;
                while i < end
                    invariant
                        start <= i <= end,
                        c < n,
                        n == self@.len(),
                        end <= self@[c as int].len(),
                        data@ == self@[c as int].subrange(start as int, i as int),
                    decreases end - i,
                {
                    data.push(self.channels[c].data[i]);
                    proof {
                        assert(data@ =~= self@[c as int].subrange(start as int, i + 1));
                    }
                    i += 1;
                }
                chans.push(ChannelData { data });
                c += 1;
            }
            r.push(AudioBuffer { channels: chans, sample_rate: self.sample_rate });
            proof {
                if (k + 1) * chunk <= total {
                    assert(end == (k + 1) * (chunk as int)) by (nonlinear_arith)
                        requires
                            start == k * chunk,
                            end == if chunk <= total - start { (start + chunk) as int } else { total as int },
                            (k + 1) * chunk <= total,
                            chunk > 0,
                    ;
                } else {
                    assert(end == total) by (nonlinear_arith)
                        requires
                            start == k * chunk,
                            end == if chunk <= total - start { (start + chunk) as int } else { total as int },
                            (k + 1) * chunk > total,
                            chunk > 0,
                    ;
                }
            }
            k += 1;
        }
        r
    }

    /// Resample to the desired sample rate by nearest-neighbour stretching:
    /// for a conversion from rate `f` to rate `g`, the `i`-th input sample
    /// occupies the output positions `i * g / f .. (i + 1) * g / f`, so the
    /// output is `len * g / f` samples long.  When rates match, the buffer
    /// is left untouched.
    pub fn resample(&mut self, sample_rate: SampleRate)
        requires
            old(self).wf(),
            old(self).rate() != sample_rate ==> old(self).rate().0 > 0,
            old(self).rate() != sample_rate ==> resample_pos(
                old(self).spec_sample_len() as int,
                sample_rate.0 as int,
                old(self).rate().0 as int,
            ) <= usize::MAX,
        ensures
            final(self).wf(),
            final(self)@.len() == old(self)@.len(),
            final(self).rate() == sample_rate,
            old(self).rate() == sample_rate ==> *final(self) == *old(self),
            old(self).rate() != sample_rate ==> forall|c: int|
                0 <= c < old(self)@.len() ==> (#[trigger] final(self)@[c]).len() == resample_pos(
                    old(self)@[c].len() as int,
                    sample_rate.0 as int,
                    old(self).rate().0 as int,
                ),
            old(self).rate() != sample_rate ==> forall|c: int, i: int, j: int|
                #![trigger final(self)@[c][j], resample_pos(i, sample_rate.0 as int, old(self).rate().0 as int)]
                0 <= c < old(self)@.len() && 0 <= i < old(self)@[c].len() && resample_pos(
                    i,
                    sample_rate.0 as int,
                    old(self).rate().0 as int,
                ) <= j < resample_pos(i + 1, sample_rate.0 as int, old(self).rate().0 as int)
                    ==> final(self)@[c][j] == old(self)@[c][i],
            old(self).rate() != sample_rate ==> forall|c: int|
                0 <= c < old(self)@.len() ==> (#[trigger] final(self)@[c]) == stretch(
                    old(self)@[c],
                    sample_rate.0 as int,
                    old(self).rate().0 as int,
                ),
    {
        if self.sample_rate.0 == sample_rate.0 {
            return ;
        }
        let oldr = self.sample_rate.0;
        let newr = sample_rate.0;
        let n = self.channels.len();
        let ghost total = self.spec_sample_len();
        let mut new_chans: Vec<ChannelData> = Vec::new();
        let mut c: usize = 0;
        while c < n
            invariant
                c <= n,
                n == self@.len(),
                *self == *old(self),
                self.wf(),
                oldr == self.rate().0,
                newr == sample_rate.0,
                oldr > 0,
                total == self.spec_sample_len(),
                resample_pos(total as int, newr as int, oldr as int) <= usize::MAX,
                new_chans@.len() == c,
                forall|k: int|
                    0 <= k < c ==> (#[trigger] new_chans@[k])@.len() == resample_pos(
                        self@[k].len() as int,
                        newr as int,
                        oldr as int,
                    ),
                forall|k: int, i: int, j: int|
                    #![trigger new_chans@[k]@[j], resample_pos(i, newr as int, oldr as int)]
                    0 <= k < c && 0 <= i < self@[k].len() && resample_pos(
                        i,
                        newr as int,
                        oldr as int,
                    ) <= j < resample_pos(i + 1, newr as int, oldr as int)
                        ==> new_chans@[k]@[j] == self@[k][i],
                forall|k: int|
                    0 <= k < c ==> (#[trigger] new_chans@[k])@ == stretch(
                        self@[k],
                        newr as int,
                        oldr as int,
                    ),
            decreases n - c,
        {
            let clen = self.channels[c].len();
            proof {
                assert(self@[c as int].len() == self.spec_sample_len());
                assert(clen == self.spec_sample_len());
                assert(stretch(self@[c as int].take(0), newr as int, oldr as int)
                    == Seq::<i64>::empty()) by {
                    assert(self@[c as int].take(0) =~= Seq::<i64>::empty());
                }
            }
            let mut data: Vec<i64> = Vec::new();
            let mut i: usize = 0;
            while i < clen
                invariant
                    i <= clen,
                    c < n,
                    n == self@.len(),
                    self.wf(),
                    oldr == self.rate().0,
                    oldr > 0,
                    clen == self@[c as int].len(),
                    clen == self.spec_sample_len(),
                    resample_pos(clen as int, newr as int, oldr as int) <= usize::MAX,
                    data@.len() == resample_pos(i as int, newr as int, oldr as int),
                    data@ == stretch(self@[c as int].take(i as int), newr as int, oldr as int),
                    forall|p: int, j: int|
                        #![trigger data@[j], resample_pos(p, newr as int, oldr as int)]
                        0 <= p < i && resample_pos(p, newr as int, oldr as int) <= j
                            < resample_pos(p + 1, newr as int, oldr as int)
                            ==> data@[j] == self@[c as int][p],
                decreases clen - i,
            {
                proof {
                    lemma_resample_pos_ordered(i + 1, clen as int, newr as int, oldr as int);
                    lemma_resample_pos_ordered(i as int, i + 1, newr as int, oldr as int);
                    assert(((i + 1) as u128) * (newr as u128) < 0x1_0000_0000_0000_0000_0000_0000u128)
                        by (nonlinear_arith)
                        requires
                            0 <= i + 1 <= 0x1_0000_0000_0000_0000u128,
                            0 <= newr < 0x1_0000_0000u128,
                    ;
                }
                let target128: u128 = ((i as u128) + 1) * (newr as u128) / (oldr as u128);
                proof {
                    assert(target128 == resample_pos(i + 1, newr as int, oldr as int));
                }
                let target: usize = target128 as usize;
                let v = self.channels[c].data[i];
                let ghost data0 = data@;
                while data.len() < target
                    invariant
                        data0.len() == resample_pos(i as int, newr as int, oldr as int),
                        data@.len() >= data0.len(),
                        data@.take(data0.len() as int) == data0,
                        c < n,
                        n == self@.len(),
                        oldr > 0,
                        i < clen,
                        clen == self@[c as int].len(),
                        v == self@[c as int][i as int],
                        resample_pos(i as int, newr as int, oldr as int) <= data@.len()
                            <= target,
                        target == resample_pos(i + 1, newr as int, oldr as int),
                        forall|p: int, j: int|
                            #![trigger data@[j], resample_pos(p, newr as int, oldr as int)]
                            0 <= p < i && resample_pos(p, newr as int, oldr as int) <= j
                                < resample_pos(p + 1, newr as int, oldr as int)
                                ==> data@[j] == self@[c as int][p],
                        forall|j: int|
                            resample_pos(i as int, newr as int, oldr as int) <= j < data@.len()
                                ==> (#[trigger] data@[j]) == self@[c as int][i as int],
                    decreases target - data@.len(),
                {
                    let ghost pre = data@;
                    data.push(v);
                    proof {
                        assert forall|p: int, j: int|
                            #![trigger data@[j], resample_pos(p, newr as int, oldr as int)]
                            0 <= p < i && resample_pos(p, newr as int, oldr as int) <= j
                                < resample_pos(p + 1, newr as int, oldr as int)
                                implies data@[j] == self@[c as int][p] by {
                            lemma_resample_pos_ordered(p + 1, i as int, newr as int, oldr as int);
                            assert(j < pre.len());
                            assert(data@[j] == pre[j]);
                        };
                        assert forall|j: int|
                            resample_pos(i as int, newr as int, oldr as int) <= j < data@.len()
                                implies #[trigger] data@[j] == self@[c as int][i as int] by {
                            if j < pre.len() {
                                assert(data@[j] == pre[j]);
                            } else {
                                assert(data@[j] == v);
                            }
                        };
                        assert(data@.take(data0.len() as int) =~= pre.take(data0.len() as int));
                    }
                }
                proof {
                    // the channel consumed one more input sample: the data
                    // now is the stretch of the longer prefix
                    let ch = self@[c as int];
                    let rp_i = resample_pos(i as int, newr as int, oldr as int);
                    let rp_i1 = resample_pos(i + 1, newr as int, oldr as int);
                    assert(ch.take(i + 1).drop_last() =~= ch.take(i as int));
                    assert(ch.take(i + 1).last() == ch[i as int]);
                    assert(stretch(ch.take(i + 1), newr as int, oldr as int) == stretch(
                        ch.take(i as int),
                        newr as int,
                        oldr as int,
                    ) + Seq::new((rp_i1 - rp_i) as nat, |j: int| ch[i as int]));
                    assert(data@ =~= stretch(ch.take(i + 1), newr as int, oldr as int)) by {
                        assert forall|j: int| 0 <= j < rp_i implies data@[j] == stretch(
                            ch.take(i as int),
                            newr as int,
                            oldr as int,
                        )[j] by {
                            assert(data@[j] == data@.take(data0.len() as int)[j]);
                            assert(data0[j] == stretch(
                                ch.take(i as int),
                                newr as int,
                                oldr as int,
                            )[j]);
                        };
                    }
                }
                i += 1;
            }
            proof {
                assert(self@[c as int].take(clen as int) =~= self@[c as int]);
            }
            new_chans.push(ChannelData { data });
            c += 1;
        }
        self.channels = new_chans;
        self.sample_rate = sample_rate;
    }
}

} // verus!

verus! {

/// Clamp a mathematical integer into the representable sample range.
pub open spec fn sat64(x: int) -> i64 {
    if x > i64::MAX {
        i64::MAX
    } else if x < i64::MIN {
        i64::MIN
    } else {
        x as i64
    }
}

/// Sum of two samples, saturating at the representable limits.
pub open spec fn sat_add(a: i64, b: i64) -> i64 {
    sat64(a + b)
}

/// Average of two samples, rounded towards negative infinity; always fits.
pub open spec fn avg2(a: i64, b: i64) -> i64 {
    ((a + b) / 2) as i64
}

/// Average of four samples, rounded towards negative infinity; always fits.
pub open spec fn avg4(a: i64, b: i64, c: i64, d: i64) -> i64 {
    ((a + b + c + d) / 4) as i64
}

/// A silent channel of the given length.
pub open spec fn silent_channel(len: nat) -> Seq<i64> {
    Seq::new(len, |i: int| 0i64)
}

/// Elementwise two-channel average.
pub open spec fn avg2_seq(a: Seq<i64>, b: Seq<i64>) -> Seq<i64> {
    Seq::new(a.len(), |i: int| avg2(a[i], b[i]))
}

/// Elementwise four-channel average.
pub open spec fn avg4_seq(a: Seq<i64>, b: Seq<i64>, c: Seq<i64>, d: Seq<i64>) -> Seq<i64> {
    Seq::new(a.len(), |i: int| avg4(a[i], b[i], c[i], d[i]))
}

/// Discrete channel coercion: keep the first `target` channels, pad
/// missing ones with silence of `len` samples.
pub open spec fn mix_discrete(chs: Seq<Seq<i64>>, len: nat, target: nat) -> Seq<Seq<i64>> {
    Seq::new(target, |c: int| if c < chs.len() { chs[c] } else { silent_channel(len) })
}

/// Speaker-aware channel coercion.
///
/// The exactly representable members of the standard up/down-mix family
/// are applied: mono to stereo, quad or 5.1 duplicates or places the
/// signal (the 5.1 target puts it on the centre channel), stereo to quad
/// or 5.1 keeps the front pair, and the stereo and quad down-mixes
/// average the contributing channels.  The 5.1 down-mixes scale by
/// irrational speaker weights, which the integer sample domain cannot
/// express; those pairs, and every pair outside the family, fall back to
/// the discrete rule.
pub open spec fn mix_speakers(chs: Seq<Seq<i64>>, len: nat, target: nat) -> Seq<Seq<i64>> {
    let m = chs.len();
    if m == 1 && target == 2 {
        seq![chs[0], chs[0]]
    } else if m == 1 && target == 4 {
        seq![chs[0], chs[0], silent_channel(len), silent_channel(len)]
    } else if m == 1 && target == 6 {
        seq![
            silent_channel(len),
            silent_channel(len),
            chs[0],
            silent_channel(len),
            silent_channel(len),
            silent_channel(len),
        ]
    } else if m == 2 && target == 4 {
        seq![chs[0], chs[1], silent_channel(len), silent_channel(len)]
    } else if m == 2 && target == 6 {
        seq![
            chs[0],
            chs[1],
            silent_channel(len),
            silent_channel(len),
            silent_channel(len),
            silent_channel(len),
        ]
    } else if m == 2 && target == 1 {
        seq![avg2_seq(chs[0], chs[1])]
    } else if m == 4 && target == 1 {
        seq![avg4_seq(chs[0], chs[1], chs[2], chs[3])]
    } else if m == 4 && target == 2 {
        seq![avg2_seq(chs[0], chs[2]), avg2_seq(chs[1], chs[3])]
    } else {
        mix_discrete(chs, len, target)
    }
}

/// Channel coercion of `chs` (each channel `len` samples long) to
/// `target` channels under the given interpretation.
pub open spec fn mix_spec(
    chs: Seq<Seq<i64>>,
    len: nat,
    target: nat,
    interp: ChannelInterpretation,
) -> Seq<Seq<i64>> {
    match interp {
        ChannelInterpretation::Speakers => mix_speakers(chs, len, target),
        ChannelInterpretation::Discrete => mix_discrete(chs, len, target),
    }
}

/// Sum of two samples, saturating at the representable limits.
fn sat_add_exec(a: i64, b: i64) -> (r: i64)
    ensures
        r == sat_add(a, b),
{
    let s: i128 = a as i128 + b as i128;
    if s > i64::MAX as i128 {
        i64::MAX
    } else if s < i64::MIN as i128 {
        i64::MIN
    } else {
        s as i64
    }
}

/// Average of two samples, rounded towards negative infinity.
fn avg2_exec(a: i64, b: i64) -> (r: i64)
    ensures
        r == avg2(a, b),
{
    let s: i128 = a as i128 + b as i128;
    if s >= 0 {
        (((s as u128) / 2) as u64) as i64
    } else {
        let t: u128 = (-s) as u128;
        let h: u128 = (t + 1) / 2;
        if h >= 0x8000_0000_0000_0000u128 {
            i64::MIN
        } else {
            0i64 - (h as i64)
        }
    }
}

/// Average of four samples, rounded towards negative infinity.
fn avg4_exec(a: i64, b: i64, c: i64, d: i64) -> (r: i64)
    ensures
        r == avg4(a, b, c, d),
{
    let s: i128 = a as i128 + b as i128 + c as i128 + d as i128;
    if s >= 0 {
        (((s as u128) / 4) as u64) as i64
    } else {
        let t: u128 = (-s) as u128;
        let h: u128 = (t + 3) / 4;
        if h >= 0x8000_0000_0000_0000u128 {
            i64::MIN
        } else {
            0i64 - (h as i64)
        }
    }
}

} // verus!

verus! {

/// How channels must be matched between a node's inputs and outputs.
#[derive(Copy, Clone, PartialEq, Eq, Structural, Debug)]
pub enum ChannelCountMode {
    /// The computed channel count is the maximum of the channel counts of
    /// all connections; the configured count is ignored.
    Max,
    /// As `Max`, then clamped to the configured count.
    ClampedMax,
    /// Exactly the configured count.
    Explicit,
}

/// The meaning of the channels, defining how up- and down-mixing happen.
#[derive(Copy, Clone, PartialEq, Eq, Structural, Debug)]
pub enum ChannelInterpretation {
    /// Standard speaker mixes where exactly representable, discrete
    /// otherwise.
    Speakers,
    /// Truncate extra channels, zero-fill missing ones.
    Discrete,
}

/// Options for constructing a [`ChannelConfig`].
#[derive(Copy, Clone, Debug)]
pub struct ChannelConfigOptions {
    /// Channel count used when up- or down-mixing connections.
    pub count: usize,
    /// How the effective channel count is computed.
    pub mode: ChannelCountMode,
    /// How channels are combined.
    pub interpretation: ChannelInterpretation,
}

impl Default for ChannelConfigOptions {
    /// Two speaker channels under the `Max` mode.
    fn default() -> (r: Self)
        ensures
            r.count == 2,
            r.mode == ChannelCountMode::Max,
            r.interpretation == ChannelInterpretation::Speakers,
    {
        Self {
            count: 2,
            mode: ChannelCountMode::Max,
            interpretation: ChannelInterpretation::Speakers,
        }
    }
}

/// Per-node channel mixing settings, written by the control side and read
/// by the render side.
#[derive(Copy, Clone, Debug)]
pub struct ChannelConfig {
    /// Channel count used when up- or down-mixing connections.
    pub count: usize,
    /// How the effective channel count is computed.
    pub mode: ChannelCountMode,
    /// How channels are combined.
    pub interpretation: ChannelInterpretation,
}

impl ChannelConfig {
    /// The configured channel count, as a spec-level value.
    pub open spec fn spec_count(&self) -> usize {
        self.count
    }

    /// The configured count mode, as a spec-level value.
    pub open spec fn spec_count_mode(&self) -> ChannelCountMode {
        self.mode
    }

    /// The configured interpretation, as a spec-level value.
    pub open spec fn spec_interpretation(&self) -> ChannelInterpretation {
        self.interpretation
    }

    /// How the effective channel count is computed.
    pub fn count_mode(&self) -> (r: ChannelCountMode)
        ensures
            r == self.spec_count_mode(),
    {
        self.mode
    }

    /// Change how the effective channel count is computed.
    pub fn set_count_mode(&mut self, v: ChannelCountMode)
        ensures
            final(self).spec_count_mode() == v,
            final(self).spec_count() == old(self).spec_count(),
            final(self).spec_interpretation() == old(self).spec_interpretation(),
    {
        self.mode = v;
    }

    /// How channels are combined during up- and down-mixing.
    pub fn interpretation(&self) -> (r: ChannelInterpretation)
        ensures
            r == self.spec_interpretation(),
    {
        self.interpretation
    }

    /// Change how channels are combined.
    pub fn set_interpretation(&mut self, v: ChannelInterpretation)
        ensures
            final(self).spec_interpretation() == v,
            final(self).spec_count() == old(self).spec_count(),
            final(self).spec_count_mode() == old(self).spec_count_mode(),
    {
        self.interpretation = v;
    }

    /// The channel count used when up- or down-mixing connections.
    pub fn count(&self) -> (r: usize)
        ensures
            r == self.spec_count(),
    {
        self.count
    }

    /// Change the channel count used when up- or down-mixing.
    pub fn set_count(&mut self, v: usize)
        ensures
            final(self).spec_count() == v,
            final(self).spec_count_mode() == old(self).spec_count_mode(),
            final(self).spec_interpretation() == old(self).spec_interpretation(),
    {
        self.count = v;
    }
}

impl From<ChannelConfigOptions> for ChannelConfig {
    /// Freeze the options into a live configuration record.
    fn from(opts: ChannelConfigOptions) -> (r: Self)
    {
        ChannelConfig { count: opts.count, mode: opts.mode, interpretation: opts.interpretation }
    }
}

impl vstd::std_specs::convert::FromSpecImpl<ChannelConfigOptions> for ChannelConfig {
    open spec fn obeys_from_spec() -> bool {
        true
    }

    open spec fn from_spec(opts: ChannelConfigOptions) -> Self {
        ChannelConfig { count: opts.count, mode: opts.mode, interpretation: opts.interpretation }
    }
}

} // verus!

verus! {

/// Elementwise saturating sum of two channel matrices, after the one
/// with fewer channels is mixed up to the channel count of the other
/// under the given interpretation.
pub open spec fn add_spec(
    a: Seq<Seq<i64>>,
    b: Seq<Seq<i64>>,
    len: nat,
    interp: ChannelInterpretation,
) -> Seq<Seq<i64>> {
    let target = if a.len() >= b.len() {
        a.len()
    } else {
        b.len()
    };
    let am = mix_spec(a, len, target, interp);
    let bm = mix_spec(b, len, target, interp);
    Seq::new(target, |c: int| Seq::new(len, |i: int| sat_add(am[c][i], bm[c][i])))
}

/// A channel of `len` zero samples, tied to [`silent_channel`].
fn silent_data(len: usize) -> (r: ChannelData)
    ensures
        r@ == silent_channel(len as nat),
{
    let r = ChannelData::new(len);
    proof {
        assert(r@ =~= silent_channel(len as nat));
    }
    r
}

impl AudioBuffer {
    /// Copy of the samples of one channel.
    fn copy_channel(&self, c: usize) -> (r: ChannelData)
        requires
            c < self@.len(),
        ensures
            r@ == self@[c as int],
    {
        let clen = self.channels[c].len();
        let mut data: Vec<i64> = Vec::new();
        let mut i: usize = 0;
        while i < clen
            invariant
                i <= clen,
                c < self@.len(),
                clen == self@[c as int].len(),
                data@ == self@[c as int].take(i as int),
            decreases clen - i,
        {
            data.push(self.channels[c].data[i]);
            proof {
                assert(data@ =~= self@[c as int].take(i + 1));
            }
            i += 1;
        }
        proof {
            assert(self@[c as int].take(clen as int) =~= self@[c as int]);
        }
        ChannelData { data }
    }

    /// Elementwise floor-average of two channels.
    fn avg2_channel(&self, c0: usize, c1: usize) -> (r: ChannelData)
        requires
            c0 < self@.len(),
            c1 < self@.len(),
            self@[c1 as int].len() == self@[c0 as int].len(),
        ensures
            r@ == avg2_seq(self@[c0 as int], self@[c1 as int]),
    {
        let clen = self.channels[c0].len();
        let mut data: Vec<i64> = Vec::new();
        let mut i: usize = 0;
        while i < clen
            invariant
                i <= clen,
                c0 < self@.len(),
                c1 < self@.len(),
                clen == self@[c0 as int].len(),
                clen == self@[c1 as int].len(),
                data@.len() == i,
                forall|j: int|
                    0 <= j < i ==> (#[trigger] data@[j]) == avg2(
                        self@[c0 as int][j],
                        self@[c1 as int][j],
                    ),
            decreases clen - i,
        {
            data.push(avg2_exec(self.channels[c0].data[i], self.channels[c1].data[i]));
            i += 1;
        }
        proof {
            assert(data@ =~= avg2_seq(self@[c0 as int], self@[c1 as int]));
        }
        ChannelData { data }
    }

    /// Elementwise floor-average of four channels.
    fn avg4_channel(&self, c0: usize, c1: usize, c2: usize, c3: usize) -> (r: ChannelData)
        requires
            c0 < self@.len(),
            c1 < self@.len(),
            c2 < self@.len(),
            c3 < self@.len(),
            self@[c1 as int].len() == self@[c0 as int].len(),
            self@[c2 as int].len() == self@[c0 as int].len(),
            self@[c3 as int].len() == self@[c0 as int].len(),
        ensures
            r@ == avg4_seq(
                self@[c0 as int],
                self@[c1 as int],
                self@[c2 as int],
                self@[c3 as int],
            ),
    {
        let clen = self.channels[c0].len();
        let mut data: Vec<i64> = Vec::new();
        let mut i: usize = 0;
        while i < clen
            invariant
                i <= clen,
                c0 < self@.len(),
                c1 < self@.len(),
                c2 < self@.len(),
                c3 < self@.len(),
                clen == self@[c0 as int].len(),
                clen == self@[c1 as int].len(),
                clen == self@[c2 as int].len(),
                clen == self@[c3 as int].len(),
                data@.len() == i,
                forall|j: int|
                    0 <= j < i ==> (#[trigger] data@[j]) == avg4(
                        self@[c0 as int][j],
                        self@[c1 as int][j],
                        self@[c2 as int][j],
                        self@[c3 as int][j],
                    ),
            decreases clen - i,
        {
            data.push(
                avg4_exec(
                    self.channels[c0].data[i],
                    self.channels[c1].data[i],
                    self.channels[c2].data[i],
                    self.channels[c3].data[i],
                ),
            );
            i += 1;
        }
        proof {
            assert(data@ =~= avg4_seq(
                self@[c0 as int],
                self@[c1 as int],
                self@[c2 as int],
                self@[c3 as int],
            ));
        }
        ChannelData { data }
    }

    /// A copy of this buffer with the same channels and rate, with that
    /// stated as its contract (unlike the derived `clone`).
    pub fn duplicate(&self) -> (r: Self)
        ensures
            r@ == self@,
            r.rate() == self.rate(),
    {
        let n = self.channels.len();
        let mut chans: Vec<ChannelData> = Vec::new();
        let mut c: usize = 0;
        while c < n
            invariant
                c <= n,
                n == self@.len(),
                chans@.len() == c,
                forall|k: int| 0 <= k < c ==> (#[trigger] chans@[k])@ == self@[k],
            decreases n - c,
        {
            chans.push(self.copy_channel(c));
            c += 1;
        }
        let r = AudioBuffer { channels: chans, sample_rate: self.sample_rate };
        proof {
            assert(r@ =~= self@);
        }
        r
    }

    /// Coerce this buffer to `target` channels under the given
    /// interpretation (see [`mix_spec`]).
    pub fn mix(&mut self, target: usize, interp: ChannelInterpretation)
        requires
            old(self).wf(),
        ensures
            final(self).wf(),
            final(self).rate() == old(self).rate(),
            final(self)@.len() == target,
            final(self)@ == mix_spec(
                old(self)@,
                old(self).spec_sample_len(),
                target as nat,
                interp,
            ),
            target > 0 ==> final(self).spec_sample_len() == old(self).spec_sample_len(),
    {
        let m = self.channels.len();
        let len = self.sample_len();
        let ghost glen = self.spec_sample_len();
        let speakers = interp == ChannelInterpretation::Speakers;
        let mut chans: Vec<ChannelData> = Vec::new();
        if speakers && m == 1 && target == 2 {
            chans.push(self.copy_channel(0));
            chans.push(self.copy_channel(0));
        } else if speakers && m == 1 && target == 4 {
            chans.push(self.copy_channel(0));
            chans.push(self.copy_channel(0));
            chans.push(silent_data(len));
            chans.push(silent_data(len));
        } else if speakers && m == 1 && target == 6 {
            chans.push(silent_data(len));
            chans.push(silent_data(len));
            chans.push(self.copy_channel(0));
            chans.push(silent_data(len));
            chans.push(silent_data(len));
            chans.push(silent_data(len));
        } else if speakers && m == 2 && target == 4 {
            chans.push(self.copy_channel(0));
            chans.push(self.copy_channel(1));
            chans.push(silent_data(len));
            chans.push(silent_data(len));
        } else if speakers && m == 2 && target == 6 {
            chans.push(self.copy_channel(0));
            chans.push(self.copy_channel(1));
            chans.push(silent_data(len));
            chans.push(silent_data(len));
            chans.push(silent_data(len));
            chans.push(silent_data(len));
        } else if speakers && m == 2 && target == 1 {
            chans.push(self.avg2_channel(0, 1));
        } else if speakers && m == 4 && target == 1 {
            chans.push(self.avg4_channel(0, 1, 2, 3));
        } else if speakers && m == 4 && target == 2 {
            chans.push(self.avg2_channel(0, 2));
            chans.push(self.avg2_channel(1, 3));
        } else {
            let mut c: usize = 0;
            while c < target
                invariant
                    c <= target,
                    m == self@.len(),
                    self.wf(),
                    glen == self.spec_sample_len(),
                    len == glen,
                    chans@.len() == c,
                    forall|k: int|
                        0 <= k < c ==> (#[trigger] chans@[k])@ == mix_discrete(
                            self@,
                            glen,
                            target as nat,
                        )[k],
                decreases target - c,
            {
                if c < m {
                    chans.push(self.copy_channel(c));
                } else {
                    chans.push(silent_data(len));
                }
                c += 1;
            }
        }
        self.channels = chans;
        proof {
            assert(forall|i: int|
                0 <= i < silent_channel(glen).len() ==> silent_channel(glen)[i] == 0i64);
            assert(self@ =~= mix_spec(old(self)@, glen, target as nat, interp));
        }
    }

    /// Elementwise saturating sum with another buffer of the same sample
    /// length; the operand with fewer channels is first mixed up to the
    /// channel count of the other under the given interpretation.
    pub fn add(&self, other: &AudioBuffer, interp: ChannelInterpretation) -> (r: AudioBuffer)
        requires
            self.wf(),
            other.wf(),
            other.spec_sample_len() == self.spec_sample_len(),
        ensures
            r.wf(),
            r.rate() == self.rate(),
            r@ == add_spec(self@, other@, self.spec_sample_len(), interp),
            r@.len() == if self@.len() >= other@.len() { self@.len() } else { other@.len() },
    {
        let target = if self.channels.len() >= other.channels.len() {
            self.channels.len()
        } else {
            other.channels.len()
        };
        let len = self.sample_len();
        let ghost glen = self.spec_sample_len();
        let mut a = self.duplicate();
        a.mix(target, interp);
        let mut b = other.duplicate();
        b.mix(target, interp);
        proof {
            assert(a@ == mix_spec(self@, glen, target as nat, interp));
            assert(b@ == mix_spec(other@, glen, target as nat, interp));
        }
        let mut chans: Vec<ChannelData> = Vec::new();
        let mut c: usize = 0;
        while c < target
            invariant
                c <= target,
                target > 0 ==> a.spec_sample_len() == glen,
                target > 0 ==> b.spec_sample_len() == glen,
                a.wf(),
                b.wf(),
                a@.len() == target,
                b@.len() == target,
                len == glen,
                chans@.len() == c,
                forall|k: int, i: int|
                    0 <= k < c && 0 <= i < glen ==> (#[trigger] chans@[k]@[i]) == sat_add(
                        a@[k][i],
                        b@[k][i],
                    ),
                forall|k: int| 0 <= k < c ==> (#[trigger] chans@[k])@.len() == glen,
            decreases target - c,
        {
            let mut data: Vec<i64> = Vec::new();
            let mut i: usize = 0;
            while i < len
                invariant
                    i <= len,
                    c < target,
                    a@.len() == target,
                    b@.len() == target,
                    a@[c as int].len() == len,
                    b@[c as int].len() == len,
                    data@.len() == i,
                    forall|j: int|
                        0 <= j < i ==> (#[trigger] data@[j]) == sat_add(a@[c as int][j], b@[c as int][j]),
                decreases len - i,
            {
                data.push(sat_add_exec(a.channels[c].data[i], b.channels[c].data[i]));
                i += 1;
            }
            chans.push(ChannelData { data });
            c += 1;
        }
        let r = AudioBuffer { channels: chans, sample_rate: self.sample_rate };
        proof {
            assert forall|k: int| 0 <= k < target implies (#[trigger] r@[k]) == add_spec(
                self@,
                other@,
                glen,
                interp,
            )[k] by {
                assert(r@[k] =~= add_spec(self@, other@, glen, interp)[k]);
            };
            assert(r@ =~= add_spec(self@, other@, glen, interp));
        }
        r
    }

    /// Overwrite every sample with silence, keeping the shape and rate.
    pub fn make_silent(&mut self)
        ensures
            final(self)@.len() == old(self)@.len(),
            final(self).rate() == old(self).rate(),
            forall|c: int|
                0 <= c < old(self)@.len() ==> (#[trigger] final(self)@[c]) == silent_channel(
                    old(self)@[c].len(),
                ),
    {
        let n = self.channels.len();
        let mut chans: Vec<ChannelData> = Vec::new();
        let mut c: usize = 0;
        while c < n
            invariant
                c <= n,
                n == self@.len(),
                chans@.len() == c,
                forall|k: int|
                    0 <= k < c ==> (#[trigger] chans@[k])@ == silent_channel(self@[k].len()),
            decreases n - c,
        {
            let clen = self.channels[c].len();
            chans.push(silent_data(clen));
            c += 1;
        }
        self.channels = chans;
    }

    /// Truncate or silently extend this buffer to `n` channels.
    pub fn set_number_of_channels(&mut self, n: usize)
        requires
            old(self).wf(),
        ensures
            final(self).wf(),
            final(self).rate() == old(self).rate(),
            final(self)@.len() == n,
            forall|c: int|
                0 <= c < n && c < old(self)@.len() ==> (#[trigger] final(self)@[c]) == old(
                    self,
                )@[c],
            forall|c: int|
                old(self)@.len() <= c < n ==> (#[trigger] final(self)@[c]) == silent_channel(
                    old(self).spec_sample_len(),
                ),
            n > 0 && old(self)@.len() > 0 ==> final(self).spec_sample_len() == old(
                self,
            ).spec_sample_len(),
    {
        let m = self.channels.len();
        let len = self.sample_len();
        let ghost glen = self.spec_sample_len();
        let mut chans: Vec<ChannelData> = Vec::new();
        let mut c: usize = 0;
        while c < n
            invariant
                c <= n,
                m == self@.len(),
                self.wf(),
                glen == self.spec_sample_len(),
                len == glen,
                chans@.len() == c,
                forall|k: int| 0 <= k < c && k < m ==> (#[trigger] chans@[k])@ == self@[k],
                forall|k: int|
                    m <= k < c ==> (#[trigger] chans@[k])@ == silent_channel(glen),
            decreases n - c,
        {
            if c < m {
                chans.push(self.copy_channel(c));
            } else {
                chans.push(silent_data(len));
            }
            c += 1;
        }
        self.channels = chans;
    }

    /// Restamp this buffer with a new sample rate, leaving the samples
    /// untouched.
    pub fn set_sample_rate(&mut self, sample_rate: SampleRate)
        ensures
            final(self)@ == old(self)@,
            final(self).rate() == sample_rate,
    {
        self.sample_rate = sample_rate;
    }

    /// Whether every channel holds the same number of samples.
    pub fn is_well_formed(&self) -> (r: bool)
        ensures
            r == self.wf(),
    {
        let n = self.channels.len();
        if n == 0 {
            return true;
        }
        let len0 = self.channels[0].len();
        let mut c: usize = 1;
        while c < n
            invariant
                1 <= c <= n,
                n == self@.len(),
                len0 == self@[0].len(),
                forall|k: int| 0 <= k < c ==> (#[trigger] self@[k]).len() == len0,
            decreases n - c,
        {
            if self.channels[c].len() != len0 {
                proof {
                    if self.wf() {
                        assert(self@[c as int].len() == self.spec_sample_len());
                        assert(self@[0].len() == self.spec_sample_len());
                    }
                }
                return false;
            }
            c += 1;
        }
        true
    }

    /// A copy of the samples of one channel.
    pub fn cloned_channel(&self, index: usize) -> (r: ChannelData)
        requires
            index < self@.len(),
        ensures
            r@ == self@[index as int],
    {
        self.copy_channel(index)
    }

    /// Replace the samples of one channel.
    pub fn set_channel_data(&mut self, index: usize, data: ChannelData)
        requires
            index < old(self)@.len(),
        ensures
            final(self)@ == old(self)@.update(index as int, data@),
            final(self).rate() == old(self).rate(),
    {
        self.channels.set(index, data);
        proof {
            assert(self@ =~= old(self)@.update(index as int, data@));
        }
    }

    /// Reduce this buffer to its first channel.
    pub fn force_mono(&mut self)
        requires
            old(self).wf(),
            old(self)@.len() >= 1,
        ensures
            final(self).wf(),
            final(self).rate() == old(self).rate(),
            final(self)@.len() == 1,
            final(self)@[0] == old(self)@[0],
            final(self).spec_sample_len() == old(self).spec_sample_len(),
    {
        self.set_number_of_channels(1);
    }
}

} // verus!

verus! {

/// Law: extending a buffer with another and then splitting at the seam is
/// the identity on both operands.
///
/// [`AudioBuffer::extend`] on compatible buffers makes every channel
/// `a[c] + b[c]`; [`AudioBuffer::split_off`] at the first operand's sample
/// length `len` takes and skips each channel there, which recovers `a[c]`
/// and `b[c]` exactly.
pub proof fn lemma_extend_split_off_round_trip(a: Seq<Seq<i64>>, b: Seq<Seq<i64>>, len: int)
    requires
        forall|c: int| 0 <= c < a.len() ==> (#[trigger] a[c]).len() == len,
        a.len() == b.len(),
    ensures
        forall|c: int| 0 <= c < a.len() ==> (#[trigger] (a[c] + b[c])).take(len) == a[c],
        forall|c: int| 0 <= c < a.len() ==> (#[trigger] (a[c] + b[c])).skip(len) == b[c],
{
    assert forall|c: int| 0 <= c < a.len() implies (#[trigger] (a[c] + b[c])).take(len) == a[c]
        && (a[c] + b[c]).skip(len) == b[c] by {
        assert((a[c] + b[c]).take(len) =~= a[c]);
        assert((a[c] + b[c]).skip(len) =~= b[c]);
    };
}

/// Law: converting a channel of length `len` from rate `r0` to `r1` and
/// then to `r2` leaves the rate at `r2` (by [`AudioBuffer::resample`]'s
/// contract) and a length of `len1 * r2 / r1` samples, where
/// `len1 == len * r1 / r0` is the length after the first conversion; the
/// floor in the first conversion can only lose samples, so the result
/// never exceeds the single-step conversion `len * r2 / r0`.
pub proof fn lemma_resample_twice(len: int, r0: int, r1: int, r2: int)
    requires
        len >= 0,
        r0 > 0,
        r1 > 0,
        r2 >= 0,
    ensures
        resample_pos(resample_pos(len, r1, r0), r2, r1) <= resample_pos(len, r2, r0),
{
    let l1 = resample_pos(len, r1, r0);
    let a = resample_pos(l1, r2, r1);
    // l1 * r0 <= len * r1
    vstd::arithmetic::div_mod::lemma_fundamental_div_mod(len * r1, r0);
    vstd::arithmetic::div_mod::lemma_mod_bound(len * r1, r0);
    vstd::arithmetic::mul::lemma_mul_nonnegative(len, r1);
    assert(l1 * r0 <= len * r1) by (nonlinear_arith)
        requires
            len * r1 == r0 * l1 + (len * r1) % r0,
            (len * r1) % r0 >= 0,
            r0 > 0,
    ;
    // a * r1 <= l1 * r2
    vstd::arithmetic::div_mod::lemma_fundamental_div_mod(l1 * r2, r1);
    vstd::arithmetic::div_mod::lemma_mod_bound(l1 * r2, r1);
    vstd::arithmetic::mul::lemma_mul_nonnegative(l1, r2);
    assert(a * r1 <= l1 * r2) by (nonlinear_arith)
        requires
            l1 * r2 == r1 * a + (l1 * r2) % r1,
            (l1 * r2) % r1 >= 0,
            r1 > 0,
    ;
    // hence a * r0 <= len * r2
    assert(a * r0 * r1 <= len * r2 * r1) by (nonlinear_arith)
        requires
            a * r1 <= l1 * r2,
            l1 * r0 <= len * r1,
            r0 > 0,
            r1 > 0,
            r2 >= 0,
            l1 >= 0,
    ;
    assert(a * r0 <= len * r2) by (nonlinear_arith)
        requires
            a * r0 * r1 <= len * r2 * r1,
            r1 > 0,
    ;
    // and so a <= (len * r2) / r0
    vstd::arithmetic::div_mod::lemma_div_multiples_vanish(a, r0);
    vstd::arithmetic::div_mod::lemma_div_is_ordered(a * r0, len * r2, r0);
}

} // verus!

verus! {

/// Channel `c` of one stream item as it enters the running buffer: a
/// buffer already at the target rate passes unchanged, any other is
/// stretched to the target rate (see [`stretch`]).
pub open spec fn chunk_channel(
    item: Result<AudioBuffer, MediaError>,
    rate: SampleRate,
    c: int,
) -> Seq<i64> {
    let b = item->Ok_0;
    if b.rate() == rate {
        b@[c]
    } else {
        stretch(b@[c], rate.0 as int, b.rate().0 as int)
    }
}

/// Channel `c` of the concatenation of the `Ok` buffers of
/// `input[from..to]`, oldest first, each converted to `rate`.
pub open spec fn concat_ok(
    input: Seq<Result<AudioBuffer, MediaError>>,
    rate: SampleRate,
    from: int,
    to: int,
    c: int,
) -> Seq<i64>
    decreases to - from,
{
    if to <= from {
        Seq::empty()
    } else {
        concat_ok(input, rate, from, to - 1, c) + chunk_channel(input[to - 1], rate, c)
    }
}

/// Sample rate converter and buffer chunk splitter.
///
/// Wraps a finite stream of audio buffers (or media errors) and yields
/// buffers of exactly the desired sample length at the desired rate:
/// each incoming buffer is resampled to the target rate, a running
/// internal buffer accumulates the stream, underflow at the end of the
/// stream is padded with silence, and overflow is stashed for the next
/// pull.
pub struct Resampler {
    /// desired sample rate
    sample_rate: SampleRate,
    /// desired sample length
    sample_len: u32,
    /// input stream, consumed front to back
    input: Vec<Result<AudioBuffer, MediaError>>,
    /// position of the next input item to consume
    pos: usize,
    /// internal buffer
    buffer: Option<AudioBuffer>,
}

impl Resampler {
    /// The target sample rate, as a spec-level value.
    pub closed spec fn spec_rate(&self) -> SampleRate {
        self.sample_rate
    }

    /// The target chunk length, as a spec-level value.
    pub closed spec fn spec_chunk(&self) -> u32 {
        self.sample_len
    }

    /// The input stream, as a spec-level value.
    pub closed spec fn spec_input(&self) -> Seq<Result<AudioBuffer, MediaError>> {
        self.input@
    }

    /// How many input items have been consumed, as a spec-level value.
    pub closed spec fn spec_pos(&self) -> int {
        self.pos as int
    }

    /// The stashed remainder, as a spec-level value.
    pub closed spec fn spec_pending(&self) -> Option<AudioBuffer> {
        self.buffer
    }

    /// Channel `c` of the stashed remainder, or the empty sequence.
    pub open spec fn pending_channel(&self, c: int) -> Seq<i64> {
        match self.spec_pending() {
            Some(b) => b@[c],
            None => Seq::empty(),
        }
    }

    /// What a well-formed input item looks like: a media error, or a
    /// well-formed buffer with at least one channel that the target rate
    /// can be reached from.
    pub open spec fn ok_item(&self, item: Result<AudioBuffer, MediaError>) -> bool {
        item matches Ok(b) ==> {
            &&& b.wf()
            &&& b@.len() >= 1
            &&& (b.rate() == self.spec_rate() || (b.rate().0 > 0 && resample_pos(
                b.spec_sample_len() as int,
                self.spec_rate().0 as int,
                b.rate().0 as int,
            ) <= usize::MAX))
        }
    }

    /// Well-formedness: the chunk length is positive, the consumption
    /// position is in range, every remaining `Ok` buffer is well formed
    /// and shares one channel count, and the stashed remainder (already
    /// at the target rate) shares it too.
    pub open spec fn wf(&self) -> bool {
        &&& self.spec_chunk() >= 1
        &&& 0 <= self.spec_pos() <= self.spec_input().len()
        &&& forall|k: int|
            self.spec_pos() <= k < self.spec_input().len() ==> self.ok_item(
                #[trigger] self.spec_input()[k],
            )
        &&& forall|k: int, l: int|
            self.spec_pos() <= k < self.spec_input().len() && self.spec_pos() <= l
                < self.spec_input().len() && self.spec_input()[k] is Ok && self.spec_input()[l] is Ok
                ==> (#[trigger] self.spec_input()[k]->Ok_0)@.len() == (
            #[trigger] self.spec_input()[l]->Ok_0)@.len()
        &&& self.spec_pending() matches Some(b) ==> {
            &&& b.wf()
            &&& b@.len() >= 1
            &&& b.rate() == self.spec_rate()
            &&& forall|k: int|
                self.spec_pos() <= k < self.spec_input().len() && self.spec_input()[k] is Ok
                    ==> (#[trigger] self.spec_input()[k]->Ok_0)@.len() == b@.len()
        }
    }

    /// Wrap a stream in a resampler producing chunks of `sample_len`
    /// samples at rate `sample_rate`.
    pub fn new(
        sample_rate: SampleRate,
        sample_len: u32,
        input: Vec<Result<AudioBuffer, MediaError>>,
    ) -> (r: Self)
        requires
            sample_len >= 1,
            forall|k: int|
                0 <= k < input@.len() ==> ((#[trigger] input@[k]) matches Ok(b) ==> {
                    &&& b.wf()
                    &&& b@.len() >= 1
                    &&& (b.rate() == sample_rate || (b.rate().0 > 0 && resample_pos(
                        b.spec_sample_len() as int,
                        sample_rate.0 as int,
                        b.rate().0 as int,
                    ) <= usize::MAX))
                }),
            forall|k: int, l: int|
                0 <= k < input@.len() && 0 <= l < input@.len() && input@[k] is Ok
                    && input@[l] is Ok ==> (#[trigger] input@[k]->Ok_0)@.len() == (
                #[trigger] input@[l]->Ok_0)@.len(),
        ensures
            r.wf(),
            r.spec_rate() == sample_rate,
            r.spec_chunk() == sample_len,
            r.spec_input() == input@,
            r.spec_pos() == 0,
            r.spec_pending() is None,
    {
        Self { sample_rate, sample_len, input, pos: 0, buffer: None }
    }
}

} // verus!

verus! {

impl Resampler {
    /// Channel `c` of everything available to a pull that consumes the
    /// input up to (excluding) `to`: the stashed remainder followed by
    /// the consumed buffers.
    pub open spec fn stream_channel(&self, to: int, c: int) -> Seq<i64> {
        self.pending_channel(c) + concat_ok(
            self.spec_input(),
            self.spec_rate(),
            self.spec_pos(),
            to,
            c,
        )
    }

    /// Pull the next chunk.
    ///
    /// Returns `None` once the stream is exhausted, hands a stream error
    /// through as it is reached, and otherwise yields a well-formed
    /// buffer of exactly the configured chunk length at the target rate:
    /// the next window of the concatenated stream with every consumed
    /// buffer converted to the target rate, the overflow stashed for the
    /// next pull, silence padded only once the input is exhausted, and
    /// no more input consumed than the chunk needs: without the last
    /// consumed item the window would have been short.
    pub fn next(&mut self) -> (r: Option<Result<AudioBuffer, MediaError>>)
        requires
            old(self).wf(),
        ensures
            final(self).wf(),
            final(self).spec_rate() == old(self).spec_rate(),
            final(self).spec_chunk() == old(self).spec_chunk(),
            final(self).spec_input() == old(self).spec_input(),
            old(self).spec_pos() <= final(self).spec_pos() <= old(self).spec_input().len(),
            r is None <==> (old(self).spec_pending() is None && old(self).spec_pos() == old(
                self,
            ).spec_input().len()),
            r is None ==> *final(self) == *old(self),
            r matches Some(Err(e)) ==> {
                &&& final(self).spec_pos() > old(self).spec_pos()
                &&& old(self).spec_input()[final(self).spec_pos() - 1] == Err::<
                    AudioBuffer,
                    MediaError,
                >(e)
                &&& forall|k: int|
                    old(self).spec_pos() <= k < final(self).spec_pos() - 1 ==> old(
                        self,
                    ).spec_input()[k] is Ok
                &&& final(self).spec_pending() is None
            },
            r matches Some(Ok(b)) ==> {
                &&& b.wf()
                &&& b.rate() == old(self).spec_rate()
                &&& b@.len() >= 1
                &&& b.spec_sample_len() == old(self).spec_chunk()
                &&& forall|k: int|
                    old(self).spec_pos() <= k < final(self).spec_pos() ==> old(
                        self,
                    ).spec_input()[k] is Ok
            },
            r matches Some(Ok(b)) ==> {
                let chunk = old(self).spec_chunk() as int;
                let slen = old(self).stream_channel(final(self).spec_pos(), 0).len() as int;
                &&& forall|c: int|
                    0 <= c < b@.len() ==> (#[trigger] b@[c]) == (if slen >= chunk {
                        old(self).stream_channel(final(self).spec_pos(), c).take(chunk)
                    } else {
                        old(self).stream_channel(final(self).spec_pos(), c) + silent_channel(
                            (chunk - slen) as nat,
                        )
                    })
                &&& slen > chunk ==> (final(self).spec_pending() matches Some(p) && p@.len()
                    == b@.len() && (forall|c: int|
                    0 <= c < b@.len() ==> (#[trigger] p@[c]) == old(self).stream_channel(
                        final(self).spec_pos(),
                        c,
                    ).skip(chunk)))
                &&& slen <= chunk ==> final(self).spec_pending() is None
                &&& (slen < chunk ==> final(self).spec_pos() == old(self).spec_input().len())
                &&& (final(self).spec_pos() == old(self).spec_pos() || old(self).stream_channel(
                    final(self).spec_pos() - 1,
                    0,
                ).len() < chunk)
            },
    {
        let chunk = self.sample_len as usize;
        let ghost start = self.pos as int;
        let ghost inp = self.input@;
        let ghost target = self.sample_rate;
        let ghost pend0 = *old(self);
        let taken = self.buffer.take();
        let mut buffer: AudioBuffer;
        match taken {
            None => {
                if self.pos == self.input.len() {
                    return None;
                }
                let idx = self.pos;
                let item: Result<AudioBuffer, MediaError> = match &self.input[idx] {
                    Ok(d) => Ok(d.duplicate()),
                    Err(e) => Err(*e),
                };
                self.pos = idx + 1;
                match item {
                    Err(e) => {
                        return Some(Err(e));
                    },
                    Ok(mut d) => {
                        d.resample(self.sample_rate);
                        buffer = d;
                    },
                }
            },
            Some(b) => {
                buffer = b;
            },
        }
        proof {
            assert forall|c: int| 0 <= c < buffer@.len() implies #[trigger] buffer@[c]
                == pend0.stream_channel(self.pos as int, c) by {
                assert(concat_ok(inp, target, start, start, c) == Seq::<i64>::empty());
                if pend0.spec_pending() is None {
                    assert(concat_ok(inp, target, start, start + 1, c) == concat_ok(
                        inp,
                        target,
                        start,
                        start,
                        c,
                    ) + chunk_channel(inp[start], target, c));
                    assert(buffer@[c] == chunk_channel(inp[start], target, c));
                    assert(buffer@[c] =~= pend0.stream_channel(self.pos as int, c));
                } else {
                    assert(buffer@[c] =~= pend0.stream_channel(self.pos as int, c));
                }
            };
            if self.pos as int != start {
                // the first item was consumed against an empty window
                assert(concat_ok(inp, target, start, start, 0) == Seq::<i64>::empty());
                assert(pend0.stream_channel(start, 0) =~= Seq::<i64>::empty());
            }
        }
        while buffer.sample_len() < chunk
            invariant
                pend0 == *old(self),
                pend0.spec_pending() is Some || start < inp.len(),
                self.wf(),
                self.spec_rate() == target,
                self.spec_chunk() == pend0.spec_chunk(),
                chunk == self.spec_chunk() as int,
                self.spec_input() == inp,
                self.spec_pending() is None,
                start <= self.spec_pos() <= inp.len(),
                pend0.spec_input() == inp,
                pend0.spec_pos() == start,
                pend0.spec_rate() == target,
                buffer.wf(),
                buffer.rate() == target,
                buffer@.len() >= 1,
                forall|k: int| start <= k < self.spec_pos() ==> inp[k] is Ok,
                forall|k: int|
                    self.spec_pos() <= k < inp.len() && inp[k] is Ok ==> (
                    #[trigger] inp[k]->Ok_0)@.len() == buffer@.len(),
                forall|c: int|
                    0 <= c < buffer@.len() ==> (#[trigger] buffer@[c]) == pend0.stream_channel(
                        self.spec_pos(),
                        c,
                    ),
                self.spec_pos() == start || pend0.stream_channel(
                    self.spec_pos() - 1,
                    0,
                ).len() < chunk,
            decreases inp.len() - self.spec_pos(),
        {
            if self.pos == self.input.len() {
                let pad = AudioBuffer::new(
                    buffer.number_of_channels(),
                    chunk - buffer.sample_len(),
                    self.sample_rate,
                );
                let res = buffer.extend(&pad);
                proof {
                    assert(res is Ok);
                    let slen = pend0.stream_channel(self.spec_pos(), 0).len() as int;
                    assert forall|c: int| 0 <= c < buffer@.len() implies #[trigger] buffer@[c]
                        == pend0.stream_channel(self.spec_pos(), c) + silent_channel(
                        (chunk - slen) as nat,
                    ) by {
                        assert(pad@[c] =~= silent_channel((chunk - slen) as nat));
                    };
                }
                return Some(Ok(buffer));
            }
            let idx = self.pos;
            let item: Result<AudioBuffer, MediaError> = match &self.input[idx] {
                Ok(d) => Ok(d.duplicate()),
                Err(e) => Err(*e),
            };
            self.pos = idx + 1;
            match item {
                Err(e) => {
                    return Some(Err(e));
                },
                Ok(mut d) => {
                    let ghost bpre = buffer@;
                    let ghost dpre = d;
                    proof {
                        // the window was short of a chunk, or this item
                        // would not be consumed
                        assert(buffer@[0] == pend0.stream_channel(idx as int, 0));
                        assert(buffer@[0].len() < chunk);
                    }
                    d.resample(self.sample_rate);
                    proof {
                        assert forall|c: int| 0 <= c < d@.len() implies #[trigger] d@[c]
                            == chunk_channel(inp[idx as int], target, c) by {
                            assert(dpre@ == inp[idx as int]->Ok_0@);
                            assert(dpre.rate() == inp[idx as int]->Ok_0.rate());
                        };
                    }
                    let res = buffer.extend(&d);
                    proof {
                        assert(res is Ok);
                        assert forall|c: int| 0 <= c < buffer@.len() implies
                            #[trigger] buffer@[c] == pend0.stream_channel(
                            self.spec_pos(),
                            c,
                        ) by {
                            assert(concat_ok(inp, target, start, idx + 1, c) == concat_ok(
                                inp,
                                target,
                                start,
                                idx as int,
                                c,
                            ) + chunk_channel(inp[idx as int], target, c));
                            assert(buffer@[c] == bpre[c] + d@[c]);
                            assert(buffer@[c] =~= pend0.stream_channel(idx + 1, c));
                        };
                    }
                },
            }
        }
        if buffer.sample_len() == chunk {
            proof {
                let slen = pend0.stream_channel(self.spec_pos(), 0).len() as int;
                assert(slen == chunk);
                assert forall|c: int| 0 <= c < buffer@.len() implies #[trigger] buffer@[c]
                    == pend0.stream_channel(self.spec_pos(), c).take(chunk as int) by {
                    assert(buffer@[c] == pend0.stream_channel(self.spec_pos(), c));
                    assert(buffer@[c].len() == chunk);
                    assert(pend0.stream_channel(self.spec_pos(), c).take(chunk as int)
                        =~= pend0.stream_channel(self.spec_pos(), c));
                };
            }
            return Some(Ok(buffer));
        }
        let rest = buffer.split_off(self.sample_len);
        self.buffer = Some(rest);
        Some(Ok(buffer))
    }
}

} // verus!

verus! {

/// Channel `c` of the concatenation of the first `upto` buffers.
pub open spec fn concat_channels(bufs: Seq<AudioBuffer>, upto: int, c: int) -> Seq<i64>
    decreases upto,
{
    if upto <= 0 {
        Seq::empty()
    } else {
        concat_channels(bufs, upto - 1, c) + bufs[upto - 1]@[c]
    }
}

impl AudioBuffer {
    /// Concatenate a batch of compatible buffers into one; an empty
    /// batch yields the empty buffer.
    pub fn from_buffers(buffers: Vec<AudioBuffer>) -> (r: AudioBuffer)
        requires
            forall|k: int| 0 <= k < buffers@.len() ==> (#[trigger] buffers@[k]).wf(),
            forall|k: int|
                0 <= k < buffers@.len() ==> (#[trigger] buffers@[k]).rate() == buffers@[0].rate(),
            forall|k: int|
                0 <= k < buffers@.len() ==> (#[trigger] buffers@[k])@.len() == buffers@[0]@.len(),
        ensures
            r.wf(),
            buffers@.len() == 0 ==> r@.len() == 0 && r.rate() == SampleRate(0),
            buffers@.len() >= 1 ==> {
                &&& r@.len() == buffers@[0]@.len()
                &&& r.rate() == buffers@[0].rate()
                &&& forall|c: int|
                    0 <= c < r@.len() ==> (#[trigger] r@[c]) == concat_channels(
                        buffers@,
                        buffers@.len() as int,
                        c,
                    )
            },
    {
        let ghost orig = buffers@;
        let mut buffers = buffers;
        if buffers.len() == 0 {
            return AudioBuffer::new(0, 0, SampleRate(0));
        }
        let mut acc = buffers.remove(0);
        proof {
            assert forall|c: int| 0 <= c < acc@.len() implies #[trigger] acc@[c]
                == concat_channels(orig, 1, c) by {
                assert(concat_channels(orig, 0, c) == Seq::<i64>::empty());
                assert(concat_channels(orig, 1, c) == Seq::<i64>::empty() + orig[0]@[c]);
                assert(Seq::<i64>::empty() + orig[0]@[c] =~= orig[0]@[c]);
            };
        }
        let n = buffers.len();
        let mut k: usize = 0;
        while k < n
            invariant
                k <= n,
                n == orig.len() - 1,
                buffers@ == orig.skip(1),
                forall|l: int| 0 <= l < orig.len() ==> (#[trigger] orig[l]).wf(),
                forall|l: int| 0 <= l < orig.len() ==> (#[trigger] orig[l]).rate() == orig[0].rate(),
                forall|l: int| 0 <= l < orig.len() ==> (#[trigger] orig[l])@.len() == orig[0]@.len(),
                acc.wf(),
                acc@.len() == orig[0]@.len(),
                acc.rate() == orig[0].rate(),
                forall|c: int|
                    0 <= c < acc@.len() ==> (#[trigger] acc@[c]) == concat_channels(
                        orig,
                        k + 1,
                        c,
                    ),
            decreases n - k,
        {
            let ghost pre = acc@;
            let res = acc.extend(&buffers[k]);
            proof {
                assert(buffers@[k as int] == orig[k + 1]);
                assert(res is Ok);
                assert forall|c: int| 0 <= c < acc@.len() implies #[trigger] acc@[c]
                    == concat_channels(orig, k + 2, c) by {
                    assert(acc@[c] == pre[c] + orig[k + 1]@[c]);
                };
            }
            k += 1;
        }
        acc
    }
}

} // verus!
