use vstd::prelude::*;

verus! {

/// Frames per overview point: `frames / points`, but at least one.
pub open spec fn overview_chunk(frames: nat, points: nat) -> nat {
    if frames / points > 1 { frames / points } else { 1 }
}

/// The frame range summarised by overview point `i`: `chunk` frames from
/// `i * chunk`, cut at the end of the audio.
pub open spec fn overview_range(frames: nat, points: nat, i: int) -> (int, int) {
    let chunk = overview_chunk(frames, points);
    let end = (i + 1) * chunk;
    (i * chunk, if end < frames { end } else { frames as int })
}

/// The frame ranges of a waveform overview with `points` points of audio
/// with `frames` frames: none for silent-length audio, else one range per
/// point, each holding `max(frames / points, 1)` frames but cut at the end of
/// the audio. The peak of each range is the height of its point.
///
/// For audio with frames, `points` must be positive and at most one more
/// than the frame count, so that every range starts inside the audio.
pub fn overview_ranges(frames: usize, points: usize) -> (r: Vec<(usize, usize)>)
    requires
        frames == 0 || (0 < points && points <= frames + 1),
    ensures
        frames == 0 ==> r@.len() == 0,
        frames > 0 ==> r@.len() == points,
        forall|i: int|
            0 <= i < r@.len() ==> (#[trigger] r@[i]).0 == overview_range(frames as nat, points as nat, i).0
                && r@[i].1 == overview_range(frames as nat, points as nat, i).1,
        forall|i: int| 0 <= i < r@.len() ==> (#[trigger] r@[i]).0 <= r@[i].1 <= frames,
        forall|i: int, j: int| 0 <= i < j < r@.len() ==> (#[trigger] r@[i]).1 <= (#[trigger] r@[j]).0,
        r@.len() > 0 ==> r@[0].0 == 0,
        forall|i: int|
            0 <= i < r@.len() - 1 ==> (#[trigger] r@[i + 1]).0 == r@[i].0 + (if frames / points > 1 {
                frames / points
            } else {
                1
            }),
        forall|i: int|
            0 <= i < r@.len() ==> (#[trigger] r@[i]).1 == (if r@[i].0 + (if frames / points > 1 {
                frames / points
            } else {
                1
            }) < frames {
                r@[i].0 + (if frames / points > 1 { frames / points } else { 1 })
            } else {
                frames as int
            }),
{
    let mut out: Vec<(usize, usize)> = Vec::new();
    if frames == 0 {
        return out;
    }
    let q = frames / points;
    let chunk = if q > 1 { q } else { 1 };
    let ghost bound: int = if chunk == 1 { points as int } else { frames as int };
    assert(points * chunk <= bound) by (nonlinear_arith)
        requires
            0 < points,
            q == frames / points,
            chunk == (if q > 1 { q } else { 1 }),
            bound == (if chunk == 1 { points as int } else { frames as int }),
    ;
    let mut i: usize = 0;
    let mut start: usize = 0;
    while i < points
        invariant
            0 < points <= frames + 1,
            chunk == overview_chunk(frames as nat, points as nat),
            points * chunk <= bound <= usize::MAX,
            bound == (if chunk == 1 { points as int } else { frames as int }),
            i <= points,
            start == i * chunk,
            out@.len() == i,
            forall|k: int|
                0 <= k < i ==> (#[trigger] out@[k]).0 == overview_range(frames as nat, points as nat, k).0
                    && out@[k].1 == overview_range(frames as nat, points as nat, k).1,
            forall|k: int| 0 <= k < i ==> (#[trigger] out@[k]).0 <= out@[k].1 <= frames,
            forall|k: int| 0 <= k < i ==> (#[trigger] out@[k]).1 <= start,
            forall|k: int, m: int| 0 <= k < m < i ==> (#[trigger] out@[k]).1 <= (#[trigger] out@[m]).0,
        decreases points - i,
    {
        assert((i + 1) * chunk <= points * chunk) by (nonlinear_arith)
            requires
                i + 1 <= points,
        ;
        assert((i + 1) * chunk == i * chunk + chunk) by (nonlinear_arith);
        assert(start <= frames) by (nonlinear_arith)
            requires
                start == i * chunk,
                i + 1 <= points,
                points * chunk <= bound,
                bound == (if chunk == 1 { points as int } else { frames as int }),
                points <= frames + 1,
                chunk >= 1,
        ;
        let next = start + chunk;
        let end = if next < frames { next } else { frames };
        out.push((start, end));
        start = next;
        i = i + 1;
    }
    proof {
        assert forall|k: int| 0 <= k < out@.len() - 1 implies (#[trigger] out@[k + 1]).0 == out@[k].0 + chunk by {
            assert((k + 1) * chunk == k * chunk + chunk) by (nonlinear_arith);
        }
        assert forall|k: int| 0 <= k < out@.len() implies (#[trigger] out@[k]).1 == (if out@[k].0 + chunk < frames {
            out@[k].0 + chunk
        } else {
            frames as int
        }) by {
            assert((k + 1) * chunk == k * chunk + chunk) by (nonlinear_arith);
        }
        if out@.len() > 0 {
            assert(0 * chunk == 0) by (nonlinear_arith);
        }
    }
    out
}

/// The frames per overview point are the whole quotient `frames / points`
/// when that is at least one, and one otherwise: `chunk * points` frames
/// fit in the audio and one more chunk per point would not.
pub proof fn lemma_overview_chunk(frames: nat, points: nat)
    requires
        points > 0,
    ensures
        overview_chunk(frames, points) >= 1,
        frames < points ==> overview_chunk(frames, points) == 1,
        frames >= points ==> overview_chunk(frames, points) * points <= frames
            < (overview_chunk(frames, points) + 1) * points,
{
    let q = frames / points;
    assert(q * points <= frames < (q + 1) * points) by (nonlinear_arith)
        requires
            points > 0,
            q == frames / points,
    ;
    if frames >= points {
        assert(q >= 1) by (nonlinear_arith)
            requires
                points > 0,
                frames >= points,
                q == frames / points,
        ;
    } else {
        assert(q == 0) by (nonlinear_arith)
            requires
                points > 0,
                frames < points,
                q == frames / points,
        ;
    }
}

} // verus!
