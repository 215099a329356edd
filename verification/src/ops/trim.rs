use vstd::prelude::*;
use crate::audio::{AudioBuffer, lemma_channels_view, lemma_channels_view_update, channels_view, frame_count};

verus! {

/// The end frame of a trim: the requested end, but no further than the last
/// frame of the buffer.
pub open spec fn clamped_end(end_frame: int, frames: int) -> int {
    if end_frame < frames { end_frame } else { frames }
}

/// The clamped end is the smaller of the requested end and the frame count.
pub proof fn lemma_clamped_end(end_frame: int, frames: int)
    ensures
        clamped_end(end_frame, frames) <= end_frame,
        clamped_end(end_frame, frames) <= frames,
        clamped_end(end_frame, frames) == end_frame || clamped_end(end_frame, frames) == frames,
{
}

/// Keeps frames `start_frame..end` of every channel, where `end` is
/// `end_frame` clamped to the buffer's frame count.
///
/// The range must be well formed and lie inside every channel (a buffer
/// without channels accepts any range).
pub fn trim<S: Copy>(buf: &mut AudioBuffer<S>, start_frame: usize, end_frame: usize)
    requires
        old(buf).data().len() > 0 ==> start_frame <= clamped_end(end_frame as int, frame_count(old(buf).data()) as int),
        forall|c: int|
            0 <= c < old(buf).data().len() ==> clamped_end(
                end_frame as int,
                frame_count(old(buf).data()) as int,
            ) <= #[trigger] old(buf).data()[c].len(),
    ensures
        final(buf).data().len() == old(buf).data().len(),
        forall|c: int|
            0 <= c < old(buf).data().len() ==> #[trigger] final(buf).data()[c] == old(
                buf,
            ).data()[c].subrange(
                start_frame as int,
                clamped_end(end_frame as int, frame_count(old(buf).data()) as int),
            ),
        old(buf).data().len() > 0 ==> frame_count(final(buf).data()) == clamped_end(
            end_frame as int,
            frame_count(old(buf).data()) as int,
        ) - start_frame,
        final(buf).samples@.len() == old(buf).samples@.len(),
        forall|c: int|
            0 <= c < old(buf).samples@.len() && end_frame <= old(buf).samples@[0]@.len()
                ==> #[trigger] final(buf).samples@[c]@ == old(buf).samples@[c]@.subrange(
                start_frame as int,
                end_frame as int,
            ),
        forall|c: int|
            0 <= c < old(buf).samples@.len() && old(buf).samples@[0]@.len() <= end_frame
                ==> #[trigger] final(buf).samples@[c]@ == old(buf).samples@[c]@.subrange(
                start_frame as int,
                old(buf).samples@[0]@.len() as int,
            ),
        old(buf).samples@.len() > 0 && end_frame <= old(buf).samples@[0]@.len()
            ==> final(buf).samples@[0]@.len() == end_frame - start_frame,
        final(buf).sample_rate == old(buf).sample_rate,
        final(buf).channels == old(buf).channels,
{
    let frames = buf.num_frames();
    let end = if end_frame < frames { end_frame } else { frames };
    let ghost before = buf.data();
    let n = buf.samples.len();
    let mut c: usize = 0;
    while c < n
        invariant
            n == before.len(),
            buf.samples@.len() == n,
            c <= n,
            n > 0 ==> start_frame <= end,
            forall|k: int| 0 <= k < n ==> end <= #[trigger] before[k].len(),
            forall|k: int| c <= k < n ==> #[trigger] buf.data()[k] == before[k],
            forall|k: int|
                0 <= k < c ==> #[trigger] buf.data()[k] == before[k].subrange(
                    start_frame as int,
                    end as int,
                ),
            buf.sample_rate == old(buf).sample_rate,
            buf.channels == old(buf).channels,
        decreases n - c,
    {
        let mut piece: Vec<S> = Vec::new();
        let mut j = start_frame;
        while j < end
            invariant
                start_frame <= j <= end,
                c < n,
                buf.samples@.len() == n,
                end <= buf.data()[c as int].len(),
                piece@ == buf.data()[c as int].subrange(start_frame as int, j as int),
            decreases end - j,
        {
            assert(buf.data()[c as int] == buf.samples@[c as int]@);
            piece.push(buf.samples[c][j]);
            assert(piece@ =~= buf.data()[c as int].subrange(start_frame as int, j + 1));
            j = j + 1;
        }
        let ghost prev = buf.samples@;
        buf.samples.set(c, piece);
        proof {
            lemma_channels_view_update(prev, c as int, piece);
        }
        assert(buf.data()[c as int] == before[c as int].subrange(start_frame as int, end as int));
        c = c + 1;
    }
    if n > 0 {
        assert(buf.data()[0] == before[0].subrange(start_frame as int, end as int));
    }
    proof {
        lemma_channels_view(old(buf).samples@);
        lemma_channels_view(buf.samples@);
        assert(before == old(buf).data());
        assert forall|c: int| 0 <= c < n implies #[trigger] buf.samples@[c]@ == old(buf).samples@[c]@.subrange(
            start_frame as int,
            end as int,
        ) by {
            assert(buf.data()[c] == before[c].subrange(start_frame as int, end as int));
        }
    }
}

} // verus!
