use vstd::prelude::*;
use vstd::string::*;
use crate::text::spells;
use crate::audio::{AudioBuffer, frame_count, lemma_channels_view, lemma_channels_view_update};

verus! {

/// A biquad filter request: a low-pass or high-pass cutoff, or a band-pass
/// center and bandwidth, all in hertz. The field type is that of the
/// numbers: their text as written in a spec string, or their value.
#[derive(Debug, PartialEq)]
pub enum FilterSpec<N> {
    LowPass { cutoff_hz: N },
    HighPass { cutoff_hz: N },
    BandPass { center_hz: N, bandwidth_hz: N },
}

impl<N: View> View for FilterSpec<N> {
    type V = FilterSpec<N::V>;

    open spec fn view(&self) -> FilterSpec<N::V> {
        match self {
            FilterSpec::LowPass { cutoff_hz } => FilterSpec::LowPass { cutoff_hz: cutoff_hz@ },
            FilterSpec::HighPass { cutoff_hz } => FilterSpec::HighPass { cutoff_hz: cutoff_hz@ },
            FilterSpec::BandPass { center_hz, bandwidth_hz } => FilterSpec::BandPass {
                center_hz: center_hz@,
                bandwidth_hz: bandwidth_hz@,
            },
        }
    }
}

/// Error of reading a filter spec string.
#[derive(Debug, Clone, Copy, PartialEq, Eq, Structural)]
pub enum FilterSpecError {
    /// The text is none of `lowpass:<hz>`, `highpass:<hz>`,
    /// `bandpass:<hz>:<bw_hz>`.
    InvalidSpec,
}

/// Index of the first `':'` in `s`, or `s.len()` when there is none.
pub open spec fn colon_index(s: Seq<char>) -> int
    decreases s.len(),
{
    if s.len() == 0 {
        0
    } else if s[0] == ':' {
        0
    } else {
        1 + colon_index(s.drop_first())
    }
}

/// The fields of `s` split at `':'` into at most three: the text before the
/// first colon, the text between the first and the second, and all the rest
/// (which may hold further colons).
pub open spec fn split_fields(s: Seq<char>) -> Seq<Seq<char>> {
    let i = colon_index(s);
    if i == s.len() {
        seq![s]
    } else {
        let rest = s.subrange(i + 1, s.len() as int);
        let j = colon_index(rest);
        if j == rest.len() {
            seq![s.subrange(0, i), rest]
        } else {
            seq![s.subrange(0, i), rest.subrange(0, j), rest.subrange(j + 1, rest.len() as int)]
        }
    }
}

/// The filter that a spec string denotes, with its numbers as text, or
/// `None` when the string is malformed.
pub open spec fn parsed_filter(s: Seq<char>) -> Option<FilterSpec<Seq<char>>> {
    let p = split_fields(s);
    if p.len() == 2 && p[0] == "lowpass"@ {
        Some(FilterSpec::LowPass { cutoff_hz: p[1] })
    } else if p.len() == 2 && p[0] == "highpass"@ {
        Some(FilterSpec::HighPass { cutoff_hz: p[1] })
    } else if p.len() == 3 && p[0] == "bandpass"@ {
        Some(FilterSpec::BandPass { center_hz: p[1], bandwidth_hz: p[2] })
    } else {
        None
    }
}

/// The spec string that writes a filter: `lowpass:<hz>`, `highpass:<hz>` or
/// `bandpass:<hz>:<bw_hz>`.
spec fn filter_text(f: FilterSpec<Seq<char>>) -> Seq<char> {
    match f {
        FilterSpec::LowPass { cutoff_hz } => "lowpass"@ + seq![':'] + cutoff_hz,
        FilterSpec::HighPass { cutoff_hz } => "highpass"@ + seq![':'] + cutoff_hz,
        FilterSpec::BandPass { center_hz, bandwidth_hz } => "bandpass"@ + seq![':'] + center_hz
            + seq![':'] + bandwidth_hz,
    }
}

/// True when no character of `s` is a colon.
pub open spec fn no_colon(s: Seq<char>) -> bool {
    forall|k: int| 0 <= k < s.len() ==> #[trigger] s[k] != ':'
}

/// What `colon_index` finds: no colon before it, and a colon at it unless
/// it is the end.
pub proof fn lemma_colon_index(s: Seq<char>)
    ensures
        0 <= colon_index(s) <= s.len(),
        no_colon(s.subrange(0, colon_index(s))),
        colon_index(s) < s.len() ==> s[colon_index(s)] == ':',
    decreases s.len(),
{
    if s.len() > 0 && s[0] != ':' {
        lemma_colon_index(s.drop_first());
        let i = colon_index(s);
        assert forall|k: int| 0 <= k < i implies #[trigger] s.subrange(0, i)[k] != ':' by {
            if k > 0 {
                assert(s.subrange(0, i)[k] == s.drop_first().subrange(0, i - 1)[k - 1]);
            }
        }
    }
}

/// A position with no colon before it and a colon (or the end) at it is
/// the one `colon_index` finds.
pub proof fn lemma_colon_index_at(s: Seq<char>, i: int)
    requires
        0 <= i <= s.len(),
        no_colon(s.subrange(0, i)),
        i < s.len() ==> s[i] == ':',
    ensures
        colon_index(s) == i,
{
    lemma_colon_index(s);
    let c = colon_index(s);
    if c < i {
        assert(s.subrange(0, i)[c] == s[c]);
    } else if i < c {
        assert(s.subrange(0, c)[i] == s[i]);
    }
}

/// Index of the first colon of `s` at or after `from`, or the length of `s`.
fn find_colon(s: &str, len: usize, from: usize) -> (r: usize)
    requires
        len == s@.len(),
        from <= len,
    ensures
        r == from + colon_index(s@.subrange(from as int, len as int)),
{
    let mut j = from;
    while j < len && s.get_char(j) != ':'
        invariant
            len == s@.len(),
            from <= j <= len,
            colon_index(s@.subrange(from as int, len as int)) == (j - from) + colon_index(
                s@.subrange(j as int, len as int),
            ),
        decreases len - j,
    {
        assert(s@.subrange(j as int, len as int).drop_first() =~= s@.subrange(j + 1, len as int));
        j = j + 1;
    }
    if j < len {
        assert(s@.subrange(j as int, len as int)[0] == ':');
    }
    j
}

/// Every accepted spec string is the spelling of the filter read from it.
pub proof fn lemma_parsed_filter_spells_input(s: Seq<char>)
    ensures
        parsed_filter(s) matches Some(f) ==> s == (match f {
            FilterSpec::LowPass { cutoff_hz } => "lowpass"@ + seq![':'] + cutoff_hz,
            FilterSpec::HighPass { cutoff_hz } => "highpass"@ + seq![':'] + cutoff_hz,
            FilterSpec::BandPass { center_hz, bandwidth_hz } => "bandpass"@ + seq![':'] + center_hz
                + seq![':'] + bandwidth_hz,
        }),
        parsed_filter(s) matches Some(FilterSpec::LowPass { cutoff_hz }) ==> forall|k: int|
            0 <= k < cutoff_hz.len() ==> cutoff_hz[k] != ':',
        parsed_filter(s) matches Some(FilterSpec::HighPass { cutoff_hz }) ==> forall|k: int|
            0 <= k < cutoff_hz.len() ==> cutoff_hz[k] != ':',
        parsed_filter(s) matches Some(FilterSpec::BandPass { center_hz, .. }) ==> forall|k: int|
            0 <= k < center_hz.len() ==> center_hz[k] != ':',
{
    if let Some(f) = parsed_filter(s) {
        lemma_colon_index(s);
        let i = colon_index(s);
        let rest = s.subrange(i + 1, s.len() as int);
        lemma_colon_index(rest);
        let j = colon_index(rest);
        let p = split_fields(s);
        assert(i < s.len());
        assert(s =~= s.subrange(0, i) + seq![':'] + rest);
        if j < rest.len() {
            assert(rest =~= rest.subrange(0, j) + seq![':'] + rest.subrange(j + 1, rest.len() as int));
            assert(filter_text(f) =~= s.subrange(0, i) + seq![':'] + rest.subrange(0, j) + seq![':']
                + rest.subrange(j + 1, rest.len() as int));
        } else {
            assert(filter_text(f) =~= s.subrange(0, i) + seq![':'] + rest);
            assert(rest.subrange(0, rest.len() as int) =~= rest);
        }
    }
}

/// The spelling of a filter reads back as that filter, provided a
/// low-pass or high-pass cutoff, or a band-pass center, holds no colon (a
/// bandwidth may hold any text).
pub proof fn lemma_filter_text_parses(f: FilterSpec<Seq<char>>)
    requires
        match f {
            FilterSpec::LowPass { cutoff_hz } => forall|k: int|
                0 <= k < cutoff_hz.len() ==> cutoff_hz[k] != ':',
            FilterSpec::HighPass { cutoff_hz } => forall|k: int|
                0 <= k < cutoff_hz.len() ==> cutoff_hz[k] != ':',
            FilterSpec::BandPass { center_hz, .. } => forall|k: int|
                0 <= k < center_hz.len() ==> center_hz[k] != ':',
        },
    ensures
        parsed_filter(
            match f {
                FilterSpec::LowPass { cutoff_hz } => "lowpass"@ + seq![':'] + cutoff_hz,
                FilterSpec::HighPass { cutoff_hz } => "highpass"@ + seq![':'] + cutoff_hz,
                FilterSpec::BandPass { center_hz, bandwidth_hz } => "bandpass"@ + seq![':'] + center_hz
                    + seq![':'] + bandwidth_hz,
            },
        ) == Some(f),
{
    reveal_strlit("lowpass");
    reveal_strlit("highpass");
    reveal_strlit("bandpass");
    let s = filter_text(f);
    match f {
        FilterSpec::LowPass { cutoff_hz } => {
            let w = "lowpass"@;
            assert(s.subrange(0, w.len() as int) =~= w);
            lemma_colon_index_at(s, w.len() as int);
            let rest = s.subrange(w.len() as int + 1, s.len() as int);
            assert(rest =~= cutoff_hz);
            lemma_colon_index_at(rest, rest.len() as int);
            assert(rest.subrange(0, rest.len() as int) =~= rest);
            assert(split_fields(s) =~= seq![w, cutoff_hz]);
        },
        FilterSpec::HighPass { cutoff_hz } => {
            let w = "highpass"@;
            assert(s.subrange(0, w.len() as int) =~= w);
            lemma_colon_index_at(s, w.len() as int);
            let rest = s.subrange(w.len() as int + 1, s.len() as int);
            assert(rest =~= cutoff_hz);
            lemma_colon_index_at(rest, rest.len() as int);
            assert(rest.subrange(0, rest.len() as int) =~= rest);
            assert(split_fields(s) =~= seq![w, cutoff_hz]);
            assert(w[0] != "lowpass"@[0]);
        },
        FilterSpec::BandPass { center_hz, bandwidth_hz } => {
            let w = "bandpass"@;
            assert(s.subrange(0, w.len() as int) =~= w);
            lemma_colon_index_at(s, w.len() as int);
            let rest = s.subrange(w.len() as int + 1, s.len() as int);
            assert(rest =~= center_hz + seq![':'] + bandwidth_hz);
            assert(rest.subrange(0, center_hz.len() as int) =~= center_hz);
            lemma_colon_index_at(rest, center_hz.len() as int);
            assert(rest.subrange(center_hz.len() as int + 1, rest.len() as int) =~= bandwidth_hz);
            assert(split_fields(s) =~= seq![w, center_hz, bandwidth_hz]);
        },
    }
}

impl FilterSpec<String> {
    /// Reads a filter spec string: `lowpass:<hz>`, `highpass:<hz>` or
    /// `bandpass:<hz>:<bw_hz>`. The numbers are returned as written; turning
    /// them into values is left to the caller. The text is split at its first
    /// two colons, so a band-pass bandwidth keeps any later colons.
    pub fn parse(s: &str) -> (r: Result<FilterSpec<String>, FilterSpecError>)
        ensures
            match parsed_filter(s@) {
                Some(f) => r matches Ok(g) && g@ == f,
                None => r == Err::<FilterSpec<String>, FilterSpecError>(FilterSpecError::InvalidSpec),
            },
            r matches Ok(FilterSpec::LowPass { cutoff_hz }) ==> s@ == "lowpass"@ + seq![':'] + cutoff_hz@
                && forall|k: int| 0 <= k < cutoff_hz@.len() ==> cutoff_hz@[k] != ':',
            r matches Ok(FilterSpec::HighPass { cutoff_hz }) ==> s@ == "highpass"@ + seq![':']
                + cutoff_hz@ && forall|k: int| 0 <= k < cutoff_hz@.len() ==> cutoff_hz@[k] != ':',
            r matches Ok(FilterSpec::BandPass { center_hz, bandwidth_hz }) ==> s@ == "bandpass"@ + seq![
                ':',
            ] + center_hz@ + seq![':'] + bandwidth_hz@ && forall|k: int|
                0 <= k < center_hz@.len() ==> center_hz@[k] != ':',
    {
        proof {
            lemma_parsed_filter_spells_input(s@);
        }
        let len = s.unicode_len();
        let i = find_colon(s, len, 0);
        assert(s@.subrange(0, len as int) =~= s@);
        proof {
            lemma_colon_index(s@);
        }
        if i == len {
            return Err(FilterSpecError::InvalidSpec);
        }
        let ghost rest = s@.subrange(i + 1, len as int);
        let j = find_colon(s, len, i + 1);
        proof {
            lemma_colon_index(rest);
        }
        let ghost p = split_fields(s@);
        if j == len {
            assert(p =~= seq![s@.subrange(0, i as int), rest]);
            let value = s.substring_char(i + 1, len).to_owned();
            if spells(s, 0, i, "lowpass") {
                return Ok(FilterSpec::LowPass { cutoff_hz: value });
            } else if spells(s, 0, i, "highpass") {
                return Ok(FilterSpec::HighPass { cutoff_hz: value });
            } else {
                return Err(FilterSpecError::InvalidSpec);
            }
        }
        assert(rest.subrange(0, j - (i + 1)) =~= s@.subrange(i + 1, j as int));
        assert(rest.subrange(j - (i + 1) + 1, rest.len() as int) =~= s@.subrange(j + 1, len as int));
        assert(p =~= seq![s@.subrange(0, i as int), s@.subrange(i + 1, j as int), s@.subrange(j + 1, len as int)]);
        if spells(s, 0, i, "bandpass") {
            let center = s.substring_char(i + 1, j).to_owned();
            let width = s.substring_char(j + 1, len).to_owned();
            Ok(FilterSpec::BandPass { center_hz: center, bandwidth_hz: width })
        } else {
            Err(FilterSpecError::InvalidSpec)
        }
    }
}

/// Channel `new_ch` is channel `old_ch` after `step` has been run over its
/// first `frames` samples from the state `init`: `states` is the sequence of
/// filter states, starting at `init`, and step `f` turns state `f` and the
/// old sample `f` into state `f + 1` and the new sample `f`. Later samples
/// are unchanged.
pub open spec fn filtered_by<S, St, F: Fn(St, S) -> (St, S)>(
    old_ch: Seq<S>,
    new_ch: Seq<S>,
    frames: int,
    init: St,
    states: Seq<St>,
    step: F,
) -> bool {
    &&& new_ch.len() == old_ch.len()
    &&& states.len() == frames + 1
    &&& states[0] == init
    &&& forall|f: int|
        0 <= f < frames ==> call_ensures(step, (states[f], old_ch[f]), (#[trigger] states[f + 1], new_ch[f]))
    &&& forall|j: int| frames <= j < old_ch.len() ==> #[trigger] new_ch[j] == old_ch[j]
}

/// Channel `new_ch` is channel `old_ch` after `step` has been run over its
/// first `frames` samples from the state `init`, through some sequence of
/// states.
pub open spec fn filtered_from<S, St, F: Fn(St, S) -> (St, S)>(
    old_ch: Seq<S>,
    new_ch: Seq<S>,
    frames: int,
    init: St,
    step: F,
) -> bool {
    exists|states: Seq<St>| filtered_by(old_ch, new_ch, frames, init, states, step)
}

/// `y` is an output that `step` can give for the sample `x` from the state
/// `state`, whatever state it moves to.
pub open spec fn first_output<S, St, F: Fn(St, S) -> (St, S)>(step: F, state: St, x: S, y: S) -> bool {
    exists|next: St| call_ensures(step, (state, x), (next, y))
}

/// Runs one filter per channel over the buffer's frames: channel `c` (for
/// `c` below `states.len()`) is filtered from the state `states[c]`, sample
/// by sample with `step`, which returns the next state and the output
/// sample. Frames are processed in order, and within a frame the channels
/// in order. Channels without a filter and samples past the frame count are
/// unchanged.
///
/// With frames to process, every filtered channel must exist and hold at
/// least as many samples as the first channel.
pub fn apply_filter<S: Copy, St: Copy, F: Fn(St, S) -> (St, S)>(
    buf: &mut AudioBuffer<S>,
    states: Vec<St>,
    step: F,
)
    requires
        frame_count(old(buf).data()) > 0 ==> states@.len() <= old(buf).data().len(),
        frame_count(old(buf).data()) > 0 ==> forall|c: int|
            0 <= c < states@.len() ==> frame_count(old(buf).data()) <= #[trigger] old(buf).data()[c].len(),
        forall|st: St, x: S| #[trigger] call_requires(step, (st, x)),
    ensures
        final(buf).data().len() == old(buf).data().len(),
        forall|c: int|
            0 <= c < states@.len() && c < old(buf).data().len() ==> filtered_from(
                old(buf).data()[c],
                #[trigger] final(buf).data()[c],
                frame_count(old(buf).data()) as int,
                states@[c],
                step,
            ),
        forall|c: int|
            states@.len() <= c < old(buf).data().len() ==> #[trigger] final(buf).data()[c] == old(
                buf,
            ).data()[c],
        final(buf).sample_rate == old(buf).sample_rate,
        final(buf).channels == old(buf).channels,
        final(buf).samples@.len() == old(buf).samples@.len(),
        forall|c: int|
            0 <= c < old(buf).samples@.len() ==> #[trigger] final(buf).samples@[c]@.len() == old(
                buf,
            ).samples@[c]@.len(),
        forall|c: int, j: int|
            0 <= c < old(buf).samples@.len() && old(buf).samples@[0]@.len() <= j
                < old(buf).samples@[c]@.len() ==> #[trigger] final(buf).samples@[c]@[j] == old(
                buf,
            ).samples@[c]@[j],
        forall|c: int|
            0 <= c < states@.len() && c < old(buf).samples@.len() && old(buf).samples@[0]@.len() > 0
                ==> first_output(step, states@[c], old(buf).samples@[c]@[0], #[trigger] final(buf).samples@[c]@[0]),
{
    let frames = buf.num_frames();
    let ghost before = buf.data();
    let ghost init = states@;
    let n = states.len();
    let mut current = states;
    let ghost mut traces: Seq<Seq<St>> = Seq::new(n as nat, |c: int| seq![init[c]]);
    let mut f: usize = 0;
    while f < frames
        invariant
            frames == frame_count(before),
            n == init.len(),
            current@.len() == n,
            f <= frames,
            frames > 0 ==> n <= before.len(),
            frames > 0 ==> forall|c: int| 0 <= c < n ==> frames <= #[trigger] before[c].len(),
            forall|st: St, x: S| #[trigger] call_requires(step, (st, x)),
            buf.data().len() == before.len(),
            traces.len() == n,
            forall|c: int|
                0 <= c < n ==> {
                    &&& (#[trigger] traces[c]).len() == f + 1
                    &&& traces[c][0] == init[c]
                    &&& traces[c][f as int] == current@[c]
                    &&& buf.data()[c].len() == before[c].len()
                    &&& forall|g: int|
                        0 <= g < f ==> call_ensures(
                            step,
                            (traces[c][g], before[c][g]),
                            (#[trigger] traces[c][g + 1], buf.data()[c][g]),
                        )
                    &&& forall|j: int| f <= j < before[c].len() ==> #[trigger] buf.data()[c][j] == before[c][j]
                },
            forall|c: int| n <= c < before.len() ==> #[trigger] buf.data()[c] == before[c],
            buf.sample_rate == old(buf).sample_rate,
            buf.channels == old(buf).channels,
        decreases frames - f,
    {
        let mut c: usize = 0;
        while c < n
            invariant
                frames == frame_count(before),
                n == init.len(),
                current@.len() == n,
                f < frames,
                n <= before.len(),
                forall|k: int| 0 <= k < n ==> frames <= #[trigger] before[k].len(),
                forall|st: St, x: S| #[trigger] call_requires(step, (st, x)),
                buf.data().len() == before.len(),
                traces.len() == n,
                c <= n,
                forall|k: int|
                    0 <= k < n ==> {
                        &&& (#[trigger] traces[k]).len() == (if k < c { f + 2 } else { f + 1 })
                        &&& traces[k][0] == init[k]
                        &&& traces[k][traces[k].len() - 1] == current@[k]
                        &&& buf.data()[k].len() == before[k].len()
                        &&& forall|g: int|
                            0 <= g < traces[k].len() - 1 ==> call_ensures(
                                step,
                                (traces[k][g], before[k][g]),
                                (#[trigger] traces[k][g + 1], buf.data()[k][g]),
                            )
                        &&& forall|j: int|
                            traces[k].len() - 1 <= j < before[k].len() ==> #[trigger] buf.data()[k][j]
                                == before[k][j]
                    },
                forall|k: int| n <= k < before.len() ==> #[trigger] buf.data()[k] == before[k],
                buf.sample_rate == old(buf).sample_rate,
                buf.channels == old(buf).channels,
            decreases n - c,
        {
            assert(buf.data()[c as int] == buf.samples@[c as int]@);
            assert(traces[c as int].len() == f + 1);
            let x = buf.samples[c][f];
            let (next, y) = step(current[c], x);
            let ghost prev_samples = buf.samples@;
            let ghost prev_data = buf.data();
            let ghost prev_trace = traces[c as int];
            buf.samples[c].set(f, y);
            current.set(c, next);
            proof {
                lemma_channels_view_update(prev_samples, c as int, buf.samples@[c as int]);
                assert(buf.samples@ == prev_samples.update(c as int, buf.samples@[c as int]));
                assert(buf.data()[c as int] == prev_data[c as int].update(f as int, y));
                traces = traces.update(c as int, prev_trace.push(next));
            }
            c = c + 1;
        }
        f = f + 1;
    }
    assert forall|c: int| 0 <= c < init.len() && c < before.len() implies filtered_from(
        before[c],
        #[trigger] buf.data()[c],
        frames as int,
        init[c],
        step,
    ) by {
        assert(filtered_by(before[c], buf.data()[c], frames as int, init[c], traces[c], step));
    }
    proof {
        lemma_channels_view(old(buf).samples@);
        lemma_channels_view(buf.samples@);
        assert(before == old(buf).data());
        assert(init == states@);
        assert forall|c: int|
            0 <= c < states@.len() && c < old(buf).samples@.len() && old(buf).samples@[0]@.len() > 0
                implies first_output(step, states@[c], old(buf).samples@[c]@[0], #[trigger] buf.samples@[c]@[0]) by {
            assert(traces[c][0] == init[c]);
            assert(traces[c].len() == frames + 1);
            assert(frames > 0);
            assert(call_ensures(step, (traces[c][0], before[c][0]), (traces[c][0int + 1], buf.data()[c][0])));
        }
        assert forall|c: int, j: int|
            0 <= c < old(buf).samples@.len() && old(buf).samples@[0]@.len() <= j
                < old(buf).samples@[c]@.len() implies #[trigger] buf.samples@[c]@[j] == old(buf).samples@[c]@[j] by {
            if c < n {
                assert(traces[c].len() == frames + 1);
                assert(buf.data()[c][j] == before[c][j]);
            } else {
                assert(buf.data()[c] == before[c]);
            }
        }
        assert forall|c: int| 0 <= c < old(buf).samples@.len() implies #[trigger] buf.samples@[c]@.len()
            == old(buf).samples@[c]@.len() by {
            if c < n {
                assert(traces[c].len() == frames + 1);
            } else {
                assert(buf.data()[c] == before[c]);
            }
        }
    }
}

/// What running a filter means, step by step: the states start at `init`;
/// step `f` takes state `f` and the old sample `f` to state `f + 1` and the
/// new sample `f`; the length is kept and the samples from `frames` on are
/// unchanged.
pub proof fn lemma_filtered_by<S, St, F: Fn(St, S) -> (St, S)>(
    old_ch: Seq<S>,
    new_ch: Seq<S>,
    frames: int,
    init: St,
    states: Seq<St>,
    step: F,
)
    requires
        filtered_by(old_ch, new_ch, frames, init, states, step),
    ensures
        states.len() == frames + 1,
        states[0] == init,
        new_ch.len() == old_ch.len(),
        forall|f: int|
            0 <= f < frames ==> call_ensures(step, (states[f], old_ch[f]), (states[f + 1], #[trigger] new_ch[f])),
        forall|j: int| frames <= j < old_ch.len() ==> #[trigger] new_ch[j] == old_ch[j],
{
    assert forall|f: int| 0 <= f < frames implies call_ensures(
        step,
        (states[f], old_ch[f]),
        (states[f + 1], #[trigger] new_ch[f]),
    ) by {
        assert(call_ensures(step, (states[f], old_ch[f]), (states[f + 1], new_ch[f])));
    }
}

} // verus!
