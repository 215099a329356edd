use vstd::prelude::*;
use vstd::arithmetic::div_mod::{lemma_fundamental_div_mod, lemma_mod_multiples_vanish, lemma_small_mod};

verus! {

/// Decoded audio: one vector of samples per channel.
///
/// The sample type is left open; the application stores 32-bit float
/// samples. `channels` is the channel count reported by the decoder and is
/// kept as given: it is not forced to equal `samples.len()`.
pub struct AudioBuffer<S> {
    pub samples: Vec<Vec<S>>,
    pub sample_rate: u32,
    pub channels: usize,
}

/// The contents of a vector of channels, as a sequence of sequences.
pub open spec fn channels_view<S>(samples: Seq<Vec<S>>) -> Seq<Seq<S>> {
    samples.map_values(|ch: Vec<S>| ch@)
}

/// Replacing one channel vector replaces that channel's contents and
/// leaves the others as they were.
pub proof fn lemma_channels_view_update<S>(samples: Seq<Vec<S>>, c: int, v: Vec<S>)
    requires
        0 <= c < samples.len(),
    ensures
        channels_view(samples.update(c, v)) == channels_view(samples).update(c, v@),
{
    assert(channels_view(samples.update(c, v)) =~= channels_view(samples).update(c, v@));
}

/// Number of frames of a buffer: the length of its first channel, or 0
/// when it has no channel.
pub open spec fn frame_count<S>(chs: Seq<Seq<S>>) -> nat {
    if chs.len() == 0 { 0 } else { chs[0].len() }
}

/// Error of assembling decoded channels into a buffer.
#[derive(Debug, Clone, Copy, PartialEq, Eq, Structural)]
pub enum DecodeError {
    /// Every channel came out without a single sample.
    EmptyAudio,
}

/// True when no channel holds a sample.
pub open spec fn all_channels_empty<S>(chs: Seq<Seq<S>>) -> bool {
    forall|c: int| 0 <= c < chs.len() ==> #[trigger] chs[c].len() == 0
}

/// A channel holding a sample, whichever channel it is, makes the audio
/// non-empty; and audio that is not all empty has such a channel.
pub proof fn lemma_all_channels_empty<S>(chs: Seq<Seq<S>>)
    ensures
        all_channels_empty(chs) <==> !(exists|c: int| 0 <= c < chs.len() && #[trigger] chs[c].len() > 0),
        chs.len() > 0 && chs[0].len() > 0 ==> !all_channels_empty(chs),
        chs.len() == 0 ==> all_channels_empty(chs),
{
    if chs.len() > 0 && chs[0].len() > 0 {
        assert(chs[0].len() > 0);
    }
}

/// The view of a vector of channels has one entry per channel: its samples.
pub proof fn lemma_channels_view<S>(samples: Seq<Vec<S>>)
    ensures
        channels_view(samples).len() == samples.len(),
        forall|c: int| 0 <= c < samples.len() ==> #[trigger] channels_view(samples)[c] == samples[c]@,
        frame_count(channels_view(samples)) == (if samples.len() == 0 { 0 } else { samples[0]@.len() }),
{
}

impl<S> AudioBuffer<S> {
    /// Builds a buffer from decoded channels, refusing audio in which every
    /// channel is empty (this includes a buffer without channels).
    pub fn from_decoded(samples: Vec<Vec<S>>, sample_rate: u32, channels: usize) -> (r: Result<
        AudioBuffer<S>,
        DecodeError,
    >)
        ensures
            r is Err <==> all_channels_empty(channels_view(samples@)),
            r is Err <==> forall|c: int| 0 <= c < samples@.len() ==> #[trigger] samples@[c]@.len() == 0,
            r matches Err(e) ==> e == DecodeError::EmptyAudio,
            r matches Ok(b) ==> b.samples@ == samples@ && b.sample_rate == sample_rate
                && b.channels == channels,
    {
        let n = samples.len();
        let mut c: usize = 0;
        while c < n
            invariant
                n == samples@.len(),
                c <= n,
                forall|k: int| 0 <= k < c ==> #[trigger] samples@[k]@.len() == 0,
            decreases n - c,
        {
            if samples[c].len() > 0 {
                assert(channels_view(samples@)[c as int].len() > 0);
                return Ok(AudioBuffer { samples, sample_rate, channels });
            }
            c = c + 1;
        }
        assert(all_channels_empty(channels_view(samples@)));
        assert(forall|c: int| 0 <= c < samples@.len() ==> #[trigger] samples@[c]@.len() == 0);
        Err(DecodeError::EmptyAudio)
    }

    /// The samples of every channel.
    pub open spec fn data(&self) -> Seq<Seq<S>> {
        channels_view(self.samples@)
    }

    /// Number of frames: the length of the first channel (0 without channels).
    pub fn num_frames(&self) -> (n: usize)
        ensures
            n == frame_count(self.data()),
            self.samples@.len() == 0 ==> n == 0,
            self.samples@.len() > 0 ==> n == self.samples@[0]@.len(),
    {
        if self.samples.len() == 0 {
            0
        } else {
            self.samples[0].len()
        }
    }
}

/// The samples of frame `f`: one per channel, for channels `0..n`.
pub open spec fn frame_at<S>(chs: Seq<Seq<S>>, n: nat, f: int) -> Seq<S> {
    Seq::new(n, |c: int| chs[c][f])
}

/// The interleaved stream of the first `frames` frames of channels `0..n`:
/// frame after frame, each frame holding one sample per channel in channel
/// order.
pub open spec fn interleaved<S>(chs: Seq<Seq<S>>, n: nat, frames: nat) -> Seq<S>
    decreases frames,
{
    if frames == 0 {
        Seq::empty()
    } else {
        interleaved(chs, n, (frames - 1) as nat) + frame_at(chs, n, frames - 1)
    }
}

/// The samples that channel `c` receives when the interleaved stream `s` is
/// split over `n` channels: sample `i` goes to channel `i % n`, in order.
pub open spec fn deinterleaved<S>(s: Seq<S>, n: nat, c: nat) -> Seq<S>
    decreases s.len(),
{
    if s.len() == 0 {
        Seq::empty()
    } else {
        let before = deinterleaved(s.drop_last(), n, c);
        if (s.len() - 1) % (n as int) == c {
            before.push(s.last())
        } else {
            before
        }
    }
}

/// Writes the frames of a buffer as one interleaved stream: for each frame
/// in turn, the sample of channel `0`, then channel `1`, up to channel
/// `channels - 1`. This is the sample order of a WAV file.
///
/// With frames to write, the declared channels must exist and hold at least
/// as many samples as the first channel.
pub fn interleave<S: Copy>(buf: &AudioBuffer<S>) -> (out: Vec<S>)
    requires
        frame_count(buf.data()) > 0 ==> buf.channels <= buf.samples@.len(),
        frame_count(buf.data()) > 0 ==> forall|c: int|
            0 <= c < buf.channels ==> #[trigger] buf.data()[c].len() >= frame_count(buf.data()),
    ensures
        out@ == interleaved(buf.data(), buf.channels as nat, frame_count(buf.data())),
        buf.samples@.len() == 0 ==> out@.len() == 0,
        buf.samples@.len() > 0 ==> out@.len() == buf.channels * buf.samples@[0]@.len(),
        buf.samples@.len() > 0 ==> forall|f: int, c: int|
            0 <= f < buf.samples@[0]@.len() && 0 <= c < buf.channels ==> #[trigger] out@[f
                * buf.channels + c] == buf.samples@[c]@[f],
{
    let frames = buf.num_frames();
    let n = buf.channels;
    let ghost chs = buf.data();
    let mut out: Vec<S> = Vec::new();
    let mut f: usize = 0;
    while f < frames
        invariant
            frames == frame_count(chs),
            chs == buf.data(),
            n == buf.channels,
            frames > 0 ==> n <= buf.samples@.len(),
            frames > 0 ==> forall|c: int| 0 <= c < n ==> #[trigger] chs[c].len() >= frames,
            f <= frames,
            out@ == interleaved(chs, n as nat, f as nat),
        decreases frames - f,
    {
        let mut c: usize = 0;
        while c < n
            invariant
                frames == frame_count(chs),
                chs == buf.data(),
                n == buf.channels,
                n <= buf.samples@.len(),
                forall|c: int| 0 <= c < n ==> #[trigger] chs[c].len() >= frames,
                f < frames,
                c <= n,
                out@ == interleaved(chs, n as nat, f as nat) + frame_at(chs, n as nat, f as int).take(c as int),
            decreases n - c,
        {
            assert(chs[c as int] == buf.samples@[c as int]@);
            let x = buf.samples[c][f];
            let ghost prev = out@;
            out.push(x);
            assert(frame_at(chs, n as nat, f as int).take(c + 1) =~= frame_at(chs, n as nat, f as int).take(c as int).push(x));
            assert(out@ =~= interleaved(chs, n as nat, f as nat) + frame_at(chs, n as nat, f as int).take(c + 1));
            c = c + 1;
        }
        assert(frame_at(chs, n as nat, f as int).take(n as int) =~= frame_at(chs, n as nat, f as int));
        f = f + 1;
    }
    proof {
        lemma_channels_view(buf.samples@);
        lemma_interleaved_len(chs, n as nat, frames as nat);
        assert forall|f: int, c: int|
            0 <= f < frames && 0 <= c < n implies #[trigger] out@[f * n + c] == chs[c][f] by {
            lemma_interleaved_index(chs, n as nat, frames as nat, f, c);
        }
        if buf.samples@.len() == 0 {
            assert(n * frames == 0) by (nonlinear_arith)
                requires
                    frames == 0,
            ;
        }
    }
    out
}

/// Appends an interleaved stream of samples to the channels it belongs to:
/// sample `i` is pushed onto channel `i % n_ch`, in stream order. This is how
/// decoded packets are split into channels.
///
/// Every index `i % n_ch` must name an existing channel (the stream is empty,
/// or `n_ch > 0` and either `n_ch` or the stream's length is at most the
/// number of channels).
pub fn push_interleaved<S: Copy>(channel_samples: &mut Vec<Vec<S>>, samples: &[S], n_ch: usize)
    requires
        samples@.len() == 0 || (n_ch > 0 && (n_ch <= old(channel_samples)@.len()
            || samples@.len() <= old(channel_samples)@.len())),
    ensures
        final(channel_samples)@.len() == old(channel_samples)@.len(),
        forall|c: int|
            0 <= c < old(channel_samples)@.len() ==> #[trigger] final(channel_samples)@[c]@
                == old(channel_samples)@[c]@ + deinterleaved(samples@, n_ch as nat, c as nat),
        forall|c: int, k: int|
            0 <= c < old(channel_samples)@.len() && 0 <= k < old(channel_samples)@[c]@.len()
                ==> #[trigger] final(channel_samples)@[c]@[k] == old(channel_samples)@[c]@[k],
        forall|c: int|
            0 <= c < old(channel_samples)@.len() ==> old(channel_samples)@[c]@.len()
                <= #[trigger] final(channel_samples)@[c]@.len(),
        forall|c: int, k: int|
            0 <= c < old(channel_samples)@.len() && old(channel_samples)@[c]@.len() <= k
                < final(channel_samples)@[c]@.len() ==> #[trigger] final(channel_samples)@[c]@[k]
                == samples@[(k - old(channel_samples)@[c]@.len()) * n_ch + c],
        forall|c: int|
            0 <= c < old(channel_samples)@.len() && old(channel_samples)@[c]@.len()
                < #[trigger] final(channel_samples)@[c]@.len() ==> (final(channel_samples)@[c]@.len()
                - old(channel_samples)@[c]@.len() - 1) * n_ch + c < samples@.len(),
        forall|c: int|
            0 <= c < old(channel_samples)@.len() && c < n_ch ==> samples@.len() <= (
            #[trigger] final(channel_samples)@[c]@.len() - old(channel_samples)@[c]@.len()) * n_ch + c,
        forall|c: int|
            0 <= c < old(channel_samples)@.len() && c >= n_ch ==> #[trigger] final(channel_samples)@[c]@
                == old(channel_samples)@[c]@,
{
    let ghost start = channels_view(channel_samples@);
    let len = samples.len();
    let mut i: usize = 0;
    while i < len
        invariant
            len == samples@.len(),
            i <= len,
            len == 0 || (n_ch > 0 && (n_ch <= start.len() || len <= start.len())),
            channel_samples@.len() == start.len(),
            forall|c: int|
                0 <= c < start.len() ==> #[trigger] channel_samples@[c]@ == start[c]
                    + deinterleaved(samples@.take(i as int), n_ch as nat, c as nat),
        decreases len - i,
    {
        let k = i % n_ch;
        assert(k <= i) by (nonlinear_arith)
            requires
                n_ch > 0,
                k == i % n_ch,
        ;
        let x = samples[i];
        channel_samples[k].push(x);
        assert(samples@.take(i + 1).drop_last() =~= samples@.take(i as int));
        i = i + 1;
    }
    assert(samples@.take(len as int) =~= samples@);
    proof {
        assert forall|c: int, k: int|
            0 <= c < start.len() && start[c].len() <= k < channel_samples@[c]@.len() implies #[trigger] channel_samples@[c]@[k]
                == samples@[(k - start[c].len()) * n_ch + c] by {
            lemma_split_stream(samples@, n_ch as nat, c as nat);
        }
        assert forall|c: int|
            0 <= c < start.len() && start[c].len() < #[trigger] channel_samples@[c]@.len() implies (
            channel_samples@[c]@.len() - start[c].len() - 1) * n_ch + c < samples@.len() by {
            lemma_split_stream(samples@, n_ch as nat, c as nat);
        }
        assert forall|c: int| 0 <= c < start.len() && c < n_ch implies samples@.len() <= (
            #[trigger] channel_samples@[c]@.len() - start[c].len()) * n_ch + c by {
            lemma_split_stream(samples@, n_ch as nat, c as nat);
        }
        assert forall|c: int| 0 <= c < start.len() && c >= n_ch implies #[trigger] channel_samples@[c]@ == start[c] by {
            lemma_split_stream(samples@, n_ch as nat, c as nat);
            assert(channel_samples@[c]@ =~= start[c]);
        }
        assert forall|c: int, k: int|
            0 <= c < start.len() && 0 <= k < start[c].len() implies #[trigger] channel_samples@[c]@[k] == start[c][k] by {
        }
    }
}

/// The facts of `lemma_deinterleaved_index` for a split that can happen:
/// over at least one channel, or of an empty stream.
proof fn lemma_split_stream<S>(s: Seq<S>, n: nat, c: nat)
    requires
        n > 0 || s.len() == 0,
    ensures
        forall|k: int|
            0 <= k < deinterleaved(s, n, c).len() ==> #[trigger] deinterleaved(s, n, c)[k] == s[k * n
                + c],
        deinterleaved(s, n, c).len() > 0 ==> (deinterleaved(s, n, c).len() - 1) * n + c < s.len(),
        c < n ==> s.len() <= deinterleaved(s, n, c).len() * n + c,
        c >= n ==> deinterleaved(s, n, c).len() == 0,
{
    if n > 0 {
        lemma_deinterleaved_index(s, n, c);
    }
}


/// What channel `c` receives from a stream split over `n` channels: its
/// `k`-th sample is the stream's sample `k * n + c`, and it receives every
/// such sample of the stream (none at all when `c >= n`).
pub proof fn lemma_deinterleaved_index<S>(s: Seq<S>, n: nat, c: nat)
    requires
        n > 0,
    ensures
        forall|k: int|
            0 <= k < deinterleaved(s, n, c).len() ==> #[trigger] deinterleaved(s, n, c)[k] == s[k * n
                + c],
        deinterleaved(s, n, c).len() > 0 ==> (deinterleaved(s, n, c).len() - 1) * n + c < s.len(),
        c < n ==> s.len() <= deinterleaved(s, n, c).len() * n + c,
        c >= n ==> deinterleaved(s, n, c).len() == 0,
    decreases s.len(),
{
    if s.len() > 0 {
        let last = s.len() - 1;
        let prev = deinterleaved(s.drop_last(), n, c);
        lemma_deinterleaved_index(s.drop_last(), n, c);
        lemma_fundamental_div_mod(last, n as int);
        let q = last / (n as int);
        let p = prev.len() as int;
        if last % (n as int) == c {
            assert(deinterleaved(s, n, c) == prev.push(s.last()));
            assert(last == q * n + c) by (nonlinear_arith)
                requires
                    last == (n as int) * q + last % (n as int),
                    last % (n as int) == c,
            ;
            assert(p >= q) by (nonlinear_arith)
                requires
                    p * n + c >= last,
                    last == q * n + c,
                    n > 0,
            ;
            if p > 0 {
                assert(p <= q) by (nonlinear_arith)
                    requires
                        (p - 1) * n + c < last,
                        last == q * n + c,
                        n > 0,
                ;
            } else {
                assert(q >= 0) by (nonlinear_arith)
                    requires
                        last >= 0,
                        n > 0,
                        q == last / (n as int),
                ;
            }
            assert((p + 1) * n + c >= last + 1) by (nonlinear_arith)
                requires
                    last == p * n + c,
                    n > 0,
            ;
            assert forall|k: int| 0 <= k < deinterleaved(s, n, c).len() implies #[trigger] deinterleaved(
                s,
                n,
                c,
            )[k] == s[k * n + c] by {
                if k < p {
                    assert(prev[k] == s.drop_last()[k * n + c]);
                    assert(k * n + c < last) by (nonlinear_arith)
                        requires
                            k < p,
                            (p - 1) * n + c < last,
                            n > 0,
                    ;
                }
            }
        } else {
            assert(deinterleaved(s, n, c) == prev);
            assert forall|k: int| 0 <= k < deinterleaved(s, n, c).len() implies #[trigger] deinterleaved(
                s,
                n,
                c,
            )[k] == s[k * n + c] by {
                assert(prev[k] == s.drop_last()[k * n + c]);
                assert(k * n + c < last) by (nonlinear_arith)
                    requires
                        k < p,
                        (p - 1) * n + c < last,
                        n > 0,
                ;
            }
            if c < n {
                if p * n + c == last {
                    lemma_mod_multiples_vanish(p, c as int, n as int);
                    lemma_small_mod(c, n);
                    assert(n * p == p * n) by (nonlinear_arith);
                    assert(false);
                }
            }
        }
    }
}

/// Length of an interleaved stream: one sample per channel per frame.
pub proof fn lemma_interleaved_len<S>(chs: Seq<Seq<S>>, n: nat, frames: nat)
    ensures
        interleaved(chs, n, frames).len() == n * frames,
    decreases frames,
{
    if frames > 0 {
        let f1 = (frames - 1) as nat;
        lemma_interleaved_len(chs, n, f1);
        assert(n * frames == n * f1 + n) by (nonlinear_arith)
            requires
                f1 + 1 == frames,
        ;
        assert(frame_at(chs, n, f1 as int).len() == n);
        assert(interleaved(chs, n, frames) == interleaved(chs, n, f1) + frame_at(chs, n, f1 as int));
    } else {
        assert(n * frames == 0) by (nonlinear_arith)
            requires
                frames == 0,
        ;
    }
}

/// In the interleaved stream, the sample of channel `c` at frame `f` sits at
/// index `f * n + c`.
pub proof fn lemma_interleaved_index<S>(chs: Seq<Seq<S>>, n: nat, frames: nat, f: int, c: int)
    requires
        0 <= f < frames,
        0 <= c < n,
    ensures
        interleaved(chs, n, frames)[f * n + c] == chs[c][f],
    decreases frames,
{
    let f1 = (frames - 1) as nat;
    lemma_interleaved_len(chs, n, f1);
    if f < f1 {
        lemma_interleaved_index(chs, n, f1, f, c);
        assert(f * n + c < n * f1) by (nonlinear_arith)
            requires
                0 <= f < f1,
                0 <= c < n,
        ;
    } else {
        assert(f * n == n * f1) by (nonlinear_arith)
            requires
                f == f1,
        ;
    }
}

/// Splitting a stream that ends on a frame boundary and a following stream
/// gives each channel what the two give it on their own.
proof fn lemma_deinterleaved_append<S>(s: Seq<S>, t: Seq<S>, n: nat, q: nat, c: nat)
    requires
        n > 0,
        s.len() == n * q,
    ensures
        deinterleaved(s + t, n, c) == deinterleaved(s, n, c) + deinterleaved(t, n, c),
    decreases t.len(),
{
    if t.len() == 0 {
        assert(s + t =~= s);
    } else {
        lemma_deinterleaved_append(s, t.drop_last(), n, q, c);
        assert((s + t).drop_last() =~= s + t.drop_last());
        lemma_mod_multiples_vanish(q as int, t.len() - 1, n as int);
        assert((n * q + (t.len() - 1)) == (s + t).len() - 1);
    }
}

/// A stream of at most one frame gives channel `c` its sample at index `c`.
proof fn lemma_deinterleaved_short<S>(t: Seq<S>, n: nat, c: nat)
    requires
        n > 0,
        t.len() <= n,
    ensures
        deinterleaved(t, n, c) == (if c < t.len() { seq![t[c as int]] } else { Seq::<S>::empty() }),
    decreases t.len(),
{
    if t.len() > 0 {
        lemma_deinterleaved_short(t.drop_last(), n, c);
        lemma_small_mod((t.len() - 1) as nat, n);
    }
}

/// Splitting the interleaved stream of `frames` frames over the same number
/// of channels gives each channel back its first `frames` samples.
pub proof fn lemma_deinterleave_interleaved<S>(chs: Seq<Seq<S>>, frames: nat, c: nat)
    requires
        c < chs.len(),
        forall|k: int| 0 <= k < chs.len() ==> #[trigger] chs[k].len() >= frames,
    ensures
        deinterleaved(interleaved(chs, chs.len(), frames), chs.len(), c) == chs[c as int].take(frames as int),
    decreases frames,
{
    let n = chs.len();
    if frames == 0 {
        assert(chs[c as int].take(0) =~= Seq::<S>::empty());
    } else {
        let f1 = (frames - 1) as nat;
        lemma_deinterleave_interleaved(chs, f1, c);
        lemma_interleaved_len(chs, n, f1);
        lemma_deinterleaved_append(interleaved(chs, n, f1), frame_at(chs, n, f1 as int), n, f1, c);
        lemma_deinterleaved_short(frame_at(chs, n, f1 as int), n, c);
        assert(chs[c as int].take(frames as int) =~= chs[c as int].take(f1 as int).push(chs[c as int][f1 as int]));
    }
}

} // verus!
