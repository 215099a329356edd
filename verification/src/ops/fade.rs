use vstd::prelude::*;
use crate::audio::{AudioBuffer, lemma_channels_view, lemma_channels_view_update, frame_count};

verus! {

/// Error of a fade.
#[derive(Debug, Clone, Copy, PartialEq, Eq, Structural)]
pub enum FadeError {
    /// The fade is longer than the audio.
    TooLong,
}

/// Channel `ch` after the samples at `from..to` have been passed through
/// `scale`: the sample at `j` becomes one that `scale` may return for the
/// old sample, the offset `j - from` and `n`; the others are unchanged.
pub open spec fn scaled_from<S, F: Fn(S, usize, usize) -> S>(
    old_ch: Seq<S>,
    new_ch: Seq<S>,
    from: int,
    to: int,
    n: usize,
    scale: F,
) -> bool {
    &&& new_ch.len() == old_ch.len()
    &&& forall|j: int|
        0 <= j < old_ch.len() && !(from <= j < to) ==> #[trigger] new_ch[j] == old_ch[j]
    &&& forall|j: int|
        from <= j < to ==> call_ensures(scale, (old_ch[j], (j - from) as usize, n), #[trigger] new_ch[j])
}

/// Within the window `from..to` each new sample is what `scale` gives for
/// the old sample at the same index and its offset `j - from` in the
/// window; outside it the sample is unchanged; the length is kept.
pub proof fn lemma_scaled_from<S, F: Fn(S, usize, usize) -> S>(
    old_ch: Seq<S>,
    new_ch: Seq<S>,
    from: int,
    to: int,
    n: usize,
    scale: F,
    j: int,
)
    requires
        scaled_from(old_ch, new_ch, from, to, n, scale),
        0 <= j < old_ch.len(),
    ensures
        new_ch.len() == old_ch.len(),
        from <= j < to ==> call_ensures(scale, (old_ch[j], (j - from) as usize, n), new_ch[j]),
        !(from <= j < to) ==> new_ch[j] == old_ch[j],
{
}

/// Copy of `ch` with the samples at `from..to` passed through `scale`.
fn scale_range<S: Copy, F: Fn(S, usize, usize) -> S>(
    ch: &Vec<S>,
    from: usize,
    to: usize,
    n: usize,
    scale: &F,
) -> (out: Vec<S>)
    requires
        from <= to <= ch@.len(),
        forall|x: S, i: usize| i < to - from ==> #[trigger] call_requires(*scale, (x, i, n)),
    ensures
        scaled_from(ch@, out@, from as int, to as int, n, *scale),
        out@.len() == ch@.len(),
        forall|j: int|
            from <= j < to ==> call_ensures(*scale, (ch@[j], (j - from) as usize, n), #[trigger] out@[j]),
{
    let len = ch.len();
    let mut out: Vec<S> = Vec::new();
    let mut j: usize = 0;
    while j < len
        invariant
            len == ch@.len(),
            from <= to <= len,
            j <= len,
            forall|x: S, i: usize| i < to - from ==> #[trigger] call_requires(*scale, (x, i, n)),
            out@.len() == j,
            forall|k: int| 0 <= k < j && !(from <= k < to) ==> #[trigger] out@[k] == ch@[k],
            forall|k: int|
                from <= k < j && k < to ==> call_ensures(
                    *scale,
                    (ch@[k], (k - from) as usize, n),
                    #[trigger] out@[k],
                ),
        decreases len - j,
    {
        let x = ch[j];
        if from <= j && j < to {
            let y = scale(x, j - from, n);
            out.push(y);
        } else {
            out.push(x);
        }
        j = j + 1;
    }
    out
}

/// Fades the audio in over its first `fade_frames` frames: in every
/// channel the sample at frame `i < fade_frames` is replaced by
/// `scale(sample, i, fade_frames)`, the caller's gain for the position
/// `i / fade_frames`; later samples are unchanged.
///
/// Refused, with the buffer untouched, when the fade is longer than the
/// audio (`fade_frames` above the frame count).
pub fn fade_in<S: Copy, F: Fn(S, usize, usize) -> S>(
    buf: &mut AudioBuffer<S>,
    fade_frames: usize,
    scale: F,
) -> (r: Result<(), FadeError>)
    requires
        fade_frames <= frame_count(old(buf).data()) ==> forall|c: int|
            0 <= c < old(buf).data().len() ==> fade_frames <= #[trigger] old(buf).data()[c].len(),
        forall|x: S, i: usize| i < fade_frames ==> #[trigger] call_requires(scale, (x, i, fade_frames)),
    ensures
        r is Err <==> fade_frames > frame_count(old(buf).data()),
        r matches Err(e) ==> e == FadeError::TooLong && *final(buf) == *old(buf),
        r is Ok ==> final(buf).data().len() == old(buf).data().len(),
        r is Ok ==> forall|c: int|
            0 <= c < old(buf).data().len() ==> scaled_from(
                old(buf).data()[c],
                #[trigger] final(buf).data()[c],
                0,
                fade_frames as int,
                fade_frames,
                scale,
            ),
        r is Err <==> (if old(buf).samples@.len() == 0 {
            fade_frames > 0
        } else {
            fade_frames > old(buf).samples@[0]@.len()
        }),
        r is Ok ==> final(buf).samples@.len() == old(buf).samples@.len(),
        r is Ok ==> forall|c: int|
            0 <= c < old(buf).samples@.len() ==> #[trigger] final(buf).samples@[c]@.len()
                == old(buf).samples@[c]@.len(),
        r is Ok ==> forall|c: int, i: int|
            0 <= c < old(buf).samples@.len() && 0 <= i < fade_frames ==> call_ensures(
                scale,
                (old(buf).samples@[c]@[i], i as usize, fade_frames),
                #[trigger] final(buf).samples@[c]@[i],
            ),
        r is Ok ==> forall|c: int, j: int|
            0 <= c < old(buf).samples@.len() && fade_frames <= j < old(buf).samples@[c]@.len()
                ==> #[trigger] final(buf).samples@[c]@[j] == old(buf).samples@[c]@[j],
        final(buf).sample_rate == old(buf).sample_rate,
        final(buf).channels == old(buf).channels,
{
    let frames = buf.num_frames();
    proof {
        lemma_channels_view(buf.samples@);
    }
    if fade_frames > frames {
        return Err(FadeError::TooLong);
    }
    let ghost before = buf.data();
    let n = buf.samples.len();
    let mut c: usize = 0;
    while c < n
        invariant
            n == before.len(),
            buf.samples@.len() == n,
            c <= n,
            forall|k: int| 0 <= k < n ==> fade_frames <= #[trigger] before[k].len(),
            forall|x: S, i: usize| i < fade_frames ==> #[trigger] call_requires(scale, (x, i, fade_frames)),
            forall|k: int| c <= k < n ==> #[trigger] buf.data()[k] == before[k],
            forall|k: int|
                0 <= k < c ==> scaled_from(
                    before[k],
                    #[trigger] buf.data()[k],
                    0,
                    fade_frames as int,
                    fade_frames,
                    scale,
                ),
            buf.sample_rate == old(buf).sample_rate,
            buf.channels == old(buf).channels,
        decreases n - c,
    {
        assert(buf.data()[c as int] == buf.samples@[c as int]@);
        let faded = scale_range(&buf.samples[c], 0, fade_frames, fade_frames, &scale);
        let ghost prev = buf.samples@;
        buf.samples.set(c, faded);
        proof {
            lemma_channels_view_update(prev, c as int, faded);
        }
        assert(buf.data()[c as int] == faded@);
        c = c + 1;
    }
    proof {
        lemma_channels_view(old(buf).samples@);
        lemma_channels_view(buf.samples@);
        assert(before == old(buf).data());
        assert forall|c: int, i: int|
            0 <= c < old(buf).samples@.len() && 0 <= i < fade_frames implies call_ensures(
            scale,
            (old(buf).samples@[c]@[i], i as usize, fade_frames),
            #[trigger] buf.samples@[c]@[i],
        ) by {
            assert(scaled_from(before[c], buf.data()[c], 0, fade_frames as int, fade_frames, scale));
            assert((i - 0) as usize == i as usize);
        }
        assert forall|c: int, j: int|
            0 <= c < old(buf).samples@.len() && fade_frames <= j < old(buf).samples@[c]@.len()
            implies #[trigger] buf.samples@[c]@[j] == old(buf).samples@[c]@[j] by {
            assert(scaled_from(before[c], buf.data()[c], 0, fade_frames as int, fade_frames, scale));
        }
        assert forall|c: int| 0 <= c < old(buf).samples@.len() implies #[trigger] buf.samples@[c]@.len()
            == old(buf).samples@[c]@.len() by {
            assert(scaled_from(before[c], buf.data()[c], 0, fade_frames as int, fade_frames, scale));
        }
    }
    Ok(())
}

/// Fades the audio out over its last `fade_frames` frames: with
/// `start = frames - fade_frames`, in every channel the sample at index
/// `j >= start` is replaced by `scale(sample, j - start, fade_frames)`, the
/// caller's gain for the position `(j - start) / fade_frames`; earlier
/// samples are unchanged. A channel longer than the first one is faded up
/// to its own end.
///
/// Refused, with the buffer untouched, when the fade is longer than the
/// audio.
pub fn fade_out<S: Copy, F: Fn(S, usize, usize) -> S>(
    buf: &mut AudioBuffer<S>,
    fade_frames: usize,
    scale: F,
) -> (r: Result<(), FadeError>)
    requires
        fade_frames <= frame_count(old(buf).data()) ==> forall|c: int|
            0 <= c < old(buf).data().len() ==> frame_count(old(buf).data()) - fade_frames
                <= #[trigger] old(buf).data()[c].len(),
        forall|x: S, i: usize| #[trigger] call_requires(scale, (x, i, fade_frames)),
    ensures
        r is Err <==> fade_frames > frame_count(old(buf).data()),
        r matches Err(e) ==> e == FadeError::TooLong && *final(buf) == *old(buf),
        r is Ok ==> final(buf).data().len() == old(buf).data().len(),
        r is Ok ==> forall|c: int|
            0 <= c < old(buf).data().len() ==> scaled_from(
                old(buf).data()[c],
                #[trigger] final(buf).data()[c],
                frame_count(old(buf).data()) - fade_frames,
                old(buf).data()[c].len() as int,
                fade_frames,
                scale,
            ),
        r is Err <==> (if old(buf).samples@.len() == 0 {
            fade_frames > 0
        } else {
            fade_frames > old(buf).samples@[0]@.len()
        }),
        r is Ok ==> final(buf).samples@.len() == old(buf).samples@.len(),
        r is Ok ==> forall|c: int|
            0 <= c < old(buf).samples@.len() ==> #[trigger] final(buf).samples@[c]@.len()
                == old(buf).samples@[c]@.len(),
        r is Ok ==> forall|c: int, j: int|
            0 <= c < old(buf).samples@.len() && old(buf).samples@[0]@.len() - fade_frames <= j
                < old(buf).samples@[c]@.len() ==> call_ensures(
                scale,
                (old(buf).samples@[c]@[j], (j - (old(buf).samples@[0]@.len() - fade_frames)) as usize, fade_frames),
                #[trigger] final(buf).samples@[c]@[j],
            ),
        r is Ok ==> forall|c: int, j: int|
            0 <= c < old(buf).samples@.len() && 0 <= j < old(buf).samples@[0]@.len() - fade_frames
                && j < old(buf).samples@[c]@.len() ==> #[trigger] final(buf).samples@[c]@[j]
                == old(buf).samples@[c]@[j],
        final(buf).sample_rate == old(buf).sample_rate,
        final(buf).channels == old(buf).channels,
{
    let frames = buf.num_frames();
    proof {
        lemma_channels_view(buf.samples@);
    }
    if fade_frames > frames {
        return Err(FadeError::TooLong);
    }
    let start = frames - fade_frames;
    let ghost before = buf.data();
    let n = buf.samples.len();
    let mut c: usize = 0;
    while c < n
        invariant
            n == before.len(),
            buf.samples@.len() == n,
            c <= n,
            start == frame_count(before) - fade_frames,
            forall|k: int| 0 <= k < n ==> start <= #[trigger] before[k].len(),
            forall|x: S, i: usize| #[trigger] call_requires(scale, (x, i, fade_frames)),
            forall|k: int| c <= k < n ==> #[trigger] buf.data()[k] == before[k],
            forall|k: int|
                0 <= k < c ==> scaled_from(
                    before[k],
                    #[trigger] buf.data()[k],
                    start as int,
                    before[k].len() as int,
                    fade_frames,
                    scale,
                ),
            buf.sample_rate == old(buf).sample_rate,
            buf.channels == old(buf).channels,
        decreases n - c,
    {
        assert(buf.data()[c as int] == buf.samples@[c as int]@);
        let len = buf.samples[c].len();
        let faded = scale_range(&buf.samples[c], start, len, fade_frames, &scale);
        let ghost prev = buf.samples@;
        buf.samples.set(c, faded);
        proof {
            lemma_channels_view_update(prev, c as int, faded);
        }
        assert(buf.data()[c as int] == faded@);
        c = c + 1;
    }
    proof {
        lemma_channels_view(old(buf).samples@);
        lemma_channels_view(buf.samples@);
        assert(before == old(buf).data());
        assert forall|c: int, j: int|
            0 <= c < old(buf).samples@.len() && old(buf).samples@[0]@.len() - fade_frames <= j
                < old(buf).samples@[c]@.len() implies call_ensures(
            scale,
            (old(buf).samples@[c]@[j], (j - (old(buf).samples@[0]@.len() - fade_frames)) as usize, fade_frames),
            #[trigger] buf.samples@[c]@[j],
        ) by {
            assert(scaled_from(before[c], buf.data()[c], start as int, before[c].len() as int, fade_frames, scale));
        }
        assert forall|c: int, j: int|
            0 <= c < old(buf).samples@.len() && 0 <= j < old(buf).samples@[0]@.len() - fade_frames
                && j < old(buf).samples@[c]@.len() implies #[trigger] buf.samples@[c]@[j]
            == old(buf).samples@[c]@[j] by {
            assert(scaled_from(before[c], buf.data()[c], start as int, before[c].len() as int, fade_frames, scale));
        }
        assert forall|c: int| 0 <= c < old(buf).samples@.len() implies #[trigger] buf.samples@[c]@.len()
            == old(buf).samples@[c]@.len() by {
            assert(scaled_from(before[c], buf.data()[c], start as int, before[c].len() as int, fade_frames, scale));
        }
    }
    Ok(())
}

} // verus!
