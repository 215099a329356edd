use vstd::prelude::*;

verus! {

/// Number of frames fed to the resampler at a time.
pub const RESAMPLE_CHUNK: usize = 1024;

/// The frame range of input chunk `k`: `chunk` frames from `k * chunk`, cut
/// at the end of the audio.
pub open spec fn chunk_span(frames: int, chunk: int, k: int) -> (int, int) {
    let end = (k + 1) * chunk;
    (k * chunk, if end < frames { end } else { frames })
}

/// Chunk `k` of a pass starts at `k * chunk` and holds `chunk` frames, or
/// the frames left when fewer remain.
pub proof fn lemma_chunk_span_size(frames: int, chunk: int, k: int)
    requires
        chunk > 0,
        0 <= k,
        k * chunk <= frames,
    ensures
        chunk_span(frames, chunk, k).0 == k * chunk,
        chunk_span(frames, chunk, k).1 - chunk_span(frames, chunk, k).0 == (if frames - k * chunk
            < chunk {
            frames - k * chunk
        } else {
            chunk
        }),
{
    assert((k + 1) * chunk == k * chunk + chunk) by (nonlinear_arith);
}

/// The input chunks of a resampling pass over `frames` frames: consecutive
/// ranges of `chunk` frames from frame 0, the last one cut at the end of the
/// audio and the first one present even when the audio is empty. The pass
/// stops at the first chunk that reaches the end.
pub fn chunk_spans(frames: usize, chunk: usize) -> (r: Vec<(usize, usize)>)
    requires
        chunk > 0,
    ensures
        r@.len() >= 1,
        forall|k: int|
            0 <= k < r@.len() ==> (#[trigger] r@[k]).0 == chunk_span(frames as int, chunk as int, k).0
                && r@[k].1 == chunk_span(frames as int, chunk as int, k).1,
        r@[r@.len() - 1].1 == frames,
        forall|k: int| 0 <= k < r@.len() - 1 ==> (#[trigger] r@[k]).1 < frames,
        r@[0].0 == 0,
        forall|k: int| 0 <= k < r@.len() - 1 ==> (#[trigger] r@[k]).1 == r@[k + 1].0,
        forall|k: int| 0 <= k < r@.len() ==> (#[trigger] r@[k]).0 <= r@[k].1,
        forall|k: int| 0 <= k < r@.len() - 1 ==> (#[trigger] r@[k]).1 - r@[k].0 == chunk,
        r@[r@.len() - 1].1 - r@[r@.len() - 1].0 <= chunk,
        frames == 0 ==> r@.len() == 1,
        frames > 0 ==> (r@.len() - 1) * chunk < frames <= r@.len() * chunk,
{
    let mut out: Vec<(usize, usize)> = Vec::new();
    let mut pos: usize = 0;
    let ghost mut k: int = 0;
    loop
        invariant_except_break
            chunk > 0,
            out@.len() == k,
            pos == k * chunk,
            pos <= frames,
            k == 0 || pos < frames,
            forall|m: int|
                0 <= m < k ==> (#[trigger] out@[m]).0 == chunk_span(frames as int, chunk as int, m).0
                    && out@[m].1 == chunk_span(frames as int, chunk as int, m).1,
            forall|m: int| 0 <= m < k ==> (#[trigger] out@[m]).1 < frames,
        ensures
            out@.len() >= 1,
            forall|m: int|
                0 <= m < out@.len() ==> (#[trigger] out@[m]).0 == chunk_span(frames as int, chunk as int, m).0
                    && out@[m].1 == chunk_span(frames as int, chunk as int, m).1,
            out@[out@.len() - 1].1 == frames,
            forall|m: int| 0 <= m < out@.len() - 1 ==> (#[trigger] out@[m]).1 < frames,
        decreases frames - pos,
    {
        assert((k + 1) * chunk == k * chunk + chunk) by (nonlinear_arith);
        let end = if frames - pos > chunk { pos + chunk } else { frames };
        out.push((pos, end));
        if end == frames {
            break;
        }
        pos = pos + chunk;
        proof {
            k = k + 1;
        }
    }
    proof {
        assert forall|m: int| 0 <= m < out@.len() - 1 implies (#[trigger] out@[m]).1 == out@[m + 1].0 by {
            assert((m + 1) * chunk == m * chunk + chunk) by (nonlinear_arith);
        }
        assert forall|m: int| 0 <= m < out@.len() implies (#[trigger] out@[m]).0 <= out@[m].1 by {
            if m < out@.len() - 1 {
                assert((m + 1) * chunk == m * chunk + chunk) by (nonlinear_arith);
            } else if m > 0 {
                assert(m * chunk == (m - 1) * chunk + chunk) by (nonlinear_arith);
                assert(out@[m - 1].1 == chunk_span(frames as int, chunk as int, m - 1).1);
            }
        }
        assert forall|m: int| 0 <= m < out@.len() - 1 implies (#[trigger] out@[m]).1 - out@[m].0 == chunk by {
            assert((m + 1) * chunk == m * chunk + chunk) by (nonlinear_arith);
        }
        let last = out@.len() - 1;
        assert((last + 1) * chunk == last * chunk + chunk) by (nonlinear_arith);
        assert(out@[last].0 == last * chunk);
        assert(frames <= (last + 1) * chunk);
        if frames > 0 && last > 0 {
            assert(out@[last - 1].1 == out@[last].0);
        }
        if frames == 0 && last > 0 {
            assert(out@[0].1 < frames);
        }
        assert(out@.len() * chunk == (last + 1) * chunk);
        assert(last == 0 ==> last * chunk == 0) by (nonlinear_arith);
    }
    out
}

/// Input chunk for the resampler: the samples `start..end` of a channel,
/// followed by `zero` up to `chunk` samples when they are fewer.
pub fn padded_chunk<S: Copy>(channel: &Vec<S>, start: usize, end: usize, chunk: usize, zero: S) -> (v: Vec<S>)
    requires
        start <= end <= channel@.len(),
    ensures
        v@ == (if end - start < chunk {
            channel@.subrange(start as int, end as int) + Seq::new((chunk - (end - start)) as nat, |i: int| zero)
        } else {
            channel@.subrange(start as int, end as int)
        }),
        v@.len() == (if end - start < chunk { chunk as int } else { end - start }),
{
    let mut v: Vec<S> = Vec::new();
    let mut j = start;
    while j < end
        invariant
            start <= j <= end <= channel@.len(),
            v@ == channel@.subrange(start as int, j as int),
        decreases end - j,
    {
        v.push(channel[j]);
        assert(v@ =~= channel@.subrange(start as int, j + 1));
        j = j + 1;
    }
    let have = end - start;
    if have < chunk {
        let ghost body = v@;
        let mut k: usize = have;
        while k < chunk
            invariant
                have <= k <= chunk,
                body == channel@.subrange(start as int, end as int),
                body.len() == have,
                v@ == body + Seq::new((k - have) as nat, |i: int| zero),
            decreases chunk - k,
        {
            v.push(zero);
            assert(v@ =~= body + Seq::new((k + 1 - have) as nat, |i: int| zero));
            k = k + 1;
        }
    }
    v
}

/// Appends each resampled channel to the output channel of the same index:
/// output channel `c` grows by `produced[c]` for every `c` below
/// `produced.len()`; the others are unchanged.
pub fn append_channels<S: Copy>(output: &mut Vec<Vec<S>>, produced: &Vec<Vec<S>>)
    requires
        produced@.len() <= old(output)@.len(),
    ensures
        final(output)@.len() == old(output)@.len(),
        forall|c: int|
            0 <= c < produced@.len() ==> #[trigger] final(output)@[c]@ == old(output)@[c]@ + produced@[c]@,
        forall|c: int|
            produced@.len() <= c < old(output)@.len() ==> #[trigger] final(output)@[c] == old(output)@[c],
{
    let ghost start = output@;
    let n = produced.len();
    let mut c: usize = 0;
    while c < n
        invariant
            n == produced@.len(),
            n <= start.len(),
            output@.len() == start.len(),
            c <= n,
            forall|m: int| 0 <= m < c ==> #[trigger] output@[m]@ == start[m]@ + produced@[m]@,
            forall|m: int| c <= m < start.len() ==> #[trigger] output@[m] == start[m],
        decreases n - c,
    {
        let len = produced[c].len();
        let mut j: usize = 0;
        while j < len
            invariant
                n == produced@.len(),
                c < n <= start.len(),
                output@.len() == start.len(),
                len == produced@[c as int]@.len(),
                j <= len,
                output@[c as int]@ == start[c as int]@ + produced@[c as int]@.take(j as int),
                forall|m: int| 0 <= m < c ==> #[trigger] output@[m]@ == start[m]@ + produced@[m]@,
                forall|m: int| c < m < start.len() ==> #[trigger] output@[m] == start[m],
            decreases len - j,
        {
            let x = produced[c][j];
            output[c].push(x);
            assert(produced@[c as int]@.take(j + 1) =~= produced@[c as int]@.take(j as int).push(x));
            assert(output@[c as int]@ =~= start[c as int]@ + produced@[c as int]@.take(j + 1));
            j = j + 1;
        }
        assert(produced@[c as int]@.take(len as int) =~= produced@[c as int]@);
        c = c + 1;
    }
}

/// Cuts every channel to at most `len` samples.
pub fn truncate_channels<S>(output: &mut Vec<Vec<S>>, len: usize)
    ensures
        final(output)@.len() == old(output)@.len(),
        forall|c: int|
            0 <= c < old(output)@.len() ==> #[trigger] final(output)@[c]@ == (if len <= old(output)@[c]@.len() {
                old(output)@[c]@.take(len as int)
            } else {
                old(output)@[c]@
            }),
{
    let ghost start = output@;
    let n = output.len();
    let mut c: usize = 0;
    while c < n
        invariant
            n == start.len(),
            output@.len() == n,
            c <= n,
            forall|m: int|
                0 <= m < c ==> #[trigger] output@[m]@ == (if len <= start[m]@.len() {
                    start[m]@.take(len as int)
                } else {
                    start[m]@
                }),
            forall|m: int| c <= m < n ==> #[trigger] output@[m] == start[m],
        decreases n - c,
    {
        output[c].truncate(len);
        c = c + 1;
    }
}

} // verus!
