//! The timing converter: coalesces the chronological sample record into a
//! minimal list of timed input-change events in the output clock domain.

use vstd::prelude::*;

use vstd::arithmetic::div_mod::lemma_div_is_ordered;
use vstd::arithmetic::div_mod::lemma_div_nonincreasing;
use vstd::arithmetic::div_mod::lemma_div_plus_one;
use vstd::arithmetic::div_mod::lemma_div_pos_is_pos;

use crate::input::Input;

verus! {

/// The fixed per-device startup latency, in samples. The conversion
/// formula deliberately adds it to the sample index twice; the doubled
/// addition is what the consuming device expects.
pub const SAMPLE_OFFSET: u64 = 484500;

/// The power-of-two scale factor between samples and output time units.
pub const TIME_DIVISOR: u64 = 1024;

/// The largest sample index the converter accepts: any index up to here
/// keeps the conversion arithmetic inside `u64`.
pub const MAX_SAMPLE_INDEX: u64 = 0x7fff_ffff_ffff_ffff - 484500;

/// The smallest gap, in samples, between two adjacent records of unequal
/// state under which output times are guaranteed strictly increasing.
pub const MIN_CHANGE_SPACING: u64 = 512;

/// The neutral input state.
pub open spec fn neutral() -> Input {
    Input { bits: 0 }
}

/// A raw sample index converted to the output clock domain: the startup
/// latency is added to the index twice, then the sum is divided (integer
/// floor) by the scale factor.
pub open spec fn convert_time(s: int) -> int {
    (s + SAMPLE_OFFSET + s + SAMPLE_OFFSET) / (TIME_DIVISOR as int)
}

/// The subsequence of `s[i..]` at which the state changes, starting from
/// previous state `last`: each record whose state differs from the state
/// last kept, with the index it occurs at.
pub open spec fn change_points(s: Seq<(u64, Input)>, i: int, last: Input) -> Seq<(u64, Input)>
    decreases s.len() - i,
    when 0 <= i
{
    if i >= s.len() {
        Seq::empty()
    } else if s[i].1 == last {
        change_points(s, i + 1, last)
    } else {
        seq![s[i]] + change_points(s, i + 1, s[i].1)
    }
}

/// The full output event list for a sample record: the forced initial
/// `(0, neutral)` event, then one converted event per state change.
pub open spec fn spec_output_events(s: Seq<(u64, Input)>) -> Seq<(u64, Input)> {
    seq![(0u64, neutral())] + change_points(s, 0, neutral()).map_values(
        |p: (u64, Input)| ((convert_time(p.0 as int) as u64), p.1),
    )
}

/// The record is in chronological (non-decreasing sample index) order.
pub open spec fn sorted_by_index(s: Seq<(u64, Input)>) -> bool {
    forall|a: int, b: int| 0 <= a <= b < s.len() ==> s[a].0 <= s[b].0
}

/// Adjacent records of unequal state lie at least `gap` samples apart.
pub open spec fn changes_spaced(s: Seq<(u64, Input)>, gap: int) -> bool {
    forall|a: int|
        0 <= a + 1 < s.len() && (#[trigger] s[a]).1 != s[a + 1].1 ==> s[a].0 + gap <= s[a + 1].0
}

/// Walk the chronological sample record and emit an event at the first
/// sample of every state change, in the output clock domain. The first
/// event is always `(0, neutral)`, unconditionally.
pub fn convert_to_output_events(samples: &Vec<(u64, Input)>) -> (r: Vec<(u64, Input)>)
    requires
        forall|k: int| 0 <= k < samples@.len() ==> (#[trigger] samples@[k]).0 <= MAX_SAMPLE_INDEX,
    ensures
        r@ == spec_output_events(samples@),
{
    let ghost map_time = |p: (u64, Input)| ((convert_time(p.0 as int) as u64), p.1);
    let mut out: Vec<(u64, Input)> = Vec::new();
    out.push((0u64, Input::empty()));
    let mut last: Input = Input::empty();
    let ghost mut emitted: Seq<(u64, Input)> = Seq::empty();
    proof {
        assert(out@ =~= seq![(0u64, neutral())] + emitted.map_values(map_time));
    }
    let mut i: usize = 0;
    while i < samples.len()
        invariant
            i <= samples@.len(),
            forall|k: int|
                0 <= k < samples@.len() ==> (#[trigger] samples@[k]).0 <= MAX_SAMPLE_INDEX,
            map_time == (|p: (u64, Input)| ((convert_time(p.0 as int) as u64), p.1)),
            change_points(samples@, 0, neutral()) == emitted + change_points(
                samples@,
                i as int,
                last,
            ),
            out@ == seq![(0u64, neutral())] + emitted.map_values(map_time),
        decreases samples@.len() - i,
    {
        let (s, input) = samples[i];
        if input != last {
            proof {
                assert(s + SAMPLE_OFFSET + s + SAMPLE_OFFSET <= u64::MAX);
            }
            let num: u64 = s + SAMPLE_OFFSET + s + SAMPLE_OFFSET;
            let t: u64 = num >> 10;
            proof {
                assert(num >> 10u64 == num / 1024u64) by (bit_vector);
                assert(t == convert_time(s as int) as u64);
            }
            out.push((t, input));
            proof {
                let ghost prev = emitted;
                emitted = emitted.push(samples@[i as int]);
                assert(emitted.map_values(map_time) =~= prev.map_values(map_time).push(
                    map_time(samples@[i as int]),
                ));
                assert(out@ =~= seq![(0u64, neutral())] + emitted.map_values(map_time));
                assert(change_points(samples@, i as int, last) == seq![samples@[i as int]]
                    + change_points(samples@, i as int + 1, input));
                assert((prev + (seq![samples@[i as int]] + change_points(
                    samples@,
                    i as int + 1,
                    input,
                ))) =~= emitted + change_points(samples@, i as int + 1, input));
            }
            last = input;
        } else {
            proof {
                assert(change_points(samples@, i as int, last) == change_points(
                    samples@,
                    i as int + 1,
                    last,
                ));
            }
        }
        i = i + 1;
    }
    proof {
        assert(change_points(samples@, i as int, last) == Seq::<(u64, Input)>::empty());
        assert(change_points(samples@, 0, neutral()) =~= emitted);
        assert(out@ =~= spec_output_events(samples@));
    }
    out
}

proof fn lemma_change_points_distinct(s: Seq<(u64, Input)>, i: int, last: Input)
    requires
        0 <= i,
    ensures
        change_points(s, i, last).len() > 0 ==> change_points(s, i, last)[0].1 != last,
        forall|m: int|
            0 <= m && m + 1 < change_points(s, i, last).len() ==> (#[trigger] change_points(
                s,
                i,
                last,
            )[m]).1 != change_points(s, i, last)[m + 1].1,
    decreases s.len() - i,
{
    if i < s.len() {
        if s[i].1 == last {
            lemma_change_points_distinct(s, i + 1, last);
        } else {
            lemma_change_points_distinct(s, i + 1, s[i].1);
            let cp = change_points(s, i, last);
            let tail = change_points(s, i + 1, s[i].1);
            assert forall|m: int| 0 <= m && m + 1 < cp.len() implies (#[trigger] cp[m]).1 != cp[m + 1].1 by {
                if m == 0 {
                    assert(cp[0] == s[i]);
                    assert(cp[1] == tail[0]);
                } else {
                    assert(cp[m] == tail[m - 1]);
                    assert(cp[m + 1] == tail[m]);
                }
            }
        }
    }
}

/// The output event list always begins with the forced `(0, neutral)`
/// event, and no two consecutive events carry the same input state.
pub proof fn lemma_output_no_consecutive_equal(samples: Seq<(u64, Input)>)
    ensures
        spec_output_events(samples).len() >= 1,
        spec_output_events(samples)[0] == (0u64, neutral()),
        forall|m: int|
            0 <= m && m + 1 < spec_output_events(samples).len() ==> (#[trigger] spec_output_events(
                samples,
            )[m]).1 != spec_output_events(samples)[m + 1].1,
{
    lemma_change_points_distinct(samples, 0, neutral());
    let cp = change_points(samples, 0, neutral());
    let mapped = cp.map_values(|p: (u64, Input)| ((convert_time(p.0 as int) as u64), p.1));
    let out = spec_output_events(samples);
    assert forall|m: int| 0 <= m && m + 1 < out.len() implies (#[trigger] out[m]).1 != out[m + 1].1 by {
        if m == 0 {
            assert(out[1] == mapped[0]);
            assert(mapped[0].1 == cp[0].1);
        } else {
            assert(out[m] == mapped[m - 1]);
            assert(out[m + 1] == mapped[m]);
            assert(mapped[m - 1].1 == cp[m - 1].1);
            assert(mapped[m].1 == cp[m].1);
        }
    }
}

proof fn lemma_change_points_spaced(s: Seq<(u64, Input)>, i: int, last: Input, gap: int)
    requires
        0 <= i,
        0 <= gap,
        sorted_by_index(s),
        changes_spaced(s, gap),
    ensures
        forall|m: int|
            0 <= m < change_points(s, i, last).len() ==> i < s.len() && s[i].0 <= (
            #[trigger] change_points(s, i, last)[m]).0,
        forall|m: int|
            0 <= m && m + 1 < change_points(s, i, last).len() ==> (#[trigger] change_points(
                s,
                i,
                last,
            )[m]).0 + gap <= (change_points(s, i, last)[m + 1]).0,
        i < s.len() && last == s[i].1 && change_points(s, i, last).len() > 0 ==> s[i].0 + gap
            <= change_points(s, i, last)[0].0,
    decreases s.len() - i,
{
    if i < s.len() {
        let cp = change_points(s, i, last);
        if s[i].1 == last {
            lemma_change_points_spaced(s, i + 1, last, gap);
            let tail = change_points(s, i + 1, last);
            if tail.len() > 0 {
                assert(i + 1 < s.len());
                assert(s[i].0 <= s[i + 1].0);
                if s[i + 1].1 == last {
                    assert(s[i + 1].0 + gap <= tail[0].0);
                } else {
                    assert(s[i].0 + gap <= s[i + 1].0);
                    assert(s[i + 1].0 <= tail[0].0);
                }
            }
        } else {
            lemma_change_points_spaced(s, i + 1, s[i].1, gap);
            let tail = change_points(s, i + 1, s[i].1);
            assert(cp[0] == s[i]);
            if tail.len() > 0 {
                assert(i + 1 < s.len());
                if s[i + 1].1 == s[i].1 {
                    assert(s[i + 1].0 + gap <= tail[0].0);
                    assert(s[i].0 <= s[i + 1].0);
                } else {
                    assert(s[i].0 + gap <= s[i + 1].0);
                    assert(s[i + 1].0 <= tail[0].0);
                }
            }
            assert forall|m: int| 0 <= m < cp.len() implies i < s.len() && s[i].0 <= (
            #[trigger] cp[m]).0 by {
                if m > 0 {
                    assert(cp[m] == tail[m - 1]);
                    assert(s[i + 1].0 <= tail[m - 1].0);
                }
            }
            assert forall|m: int| 0 <= m && m + 1 < cp.len() implies (#[trigger] cp[m]).0 + gap <= (cp[m
                + 1]).0 by {
                if m == 0 {
                    assert(cp[1] == tail[0]);
                } else {
                    assert(cp[m] == tail[m - 1]);
                    assert(cp[m + 1] == tail[m]);
                }
            }
        }
    }
}

proof fn lemma_change_points_bounded(s: Seq<(u64, Input)>, i: int, last: Input, bound: u64)
    requires
        0 <= i,
        forall|k: int| 0 <= k < s.len() ==> (#[trigger] s[k]).0 <= bound,
    ensures
        forall|m: int|
            0 <= m < change_points(s, i, last).len() ==> (#[trigger] change_points(
                s,
                i,
                last,
            )[m]).0 <= bound,
    decreases s.len() - i,
{
    if i < s.len() {
        if s[i].1 == last {
            lemma_change_points_bounded(s, i + 1, last, bound);
        } else {
            lemma_change_points_bounded(s, i + 1, s[i].1, bound);
            let cp = change_points(s, i, last);
            let tail = change_points(s, i + 1, s[i].1);
            assert forall|m: int| 0 <= m < cp.len() implies (#[trigger] cp[m]).0 <= bound by {
                if m == 0 {
                    assert(cp[0] == s[i]);
                } else {
                    assert(cp[m] == tail[m - 1]);
                }
            }
        }
    }
}

/// Converted output times are strictly increasing, provided the record is
/// chronological and adjacent records of unequal state lie at least
/// `MIN_CHANGE_SPACING` samples apart (half the scale factor, since the
/// conversion doubles the sample index).
pub proof fn lemma_output_strictly_increasing(samples: Seq<(u64, Input)>)
    requires
        sorted_by_index(samples),
        changes_spaced(samples, MIN_CHANGE_SPACING as int),
        forall|k: int| 0 <= k < samples.len() ==> (#[trigger] samples[k]).0 <= MAX_SAMPLE_INDEX,
    ensures
        forall|m: int|
            0 <= m && m + 1 < spec_output_events(samples).len() ==> (#[trigger] spec_output_events(
                samples,
            )[m]).0 < (spec_output_events(samples)[m + 1]).0,
{
    lemma_change_points_spaced(samples, 0, neutral(), MIN_CHANGE_SPACING as int);
    lemma_change_points_bounded(samples, 0, neutral(), MAX_SAMPLE_INDEX);
    let cp = change_points(samples, 0, neutral());
    let mapped = cp.map_values(|p: (u64, Input)| ((convert_time(p.0 as int) as u64), p.1));
    let out = spec_output_events(samples);
    assert forall|m: int| 0 <= m && m + 1 < out.len() implies (#[trigger] out[m]).0 < (out[m + 1]).0 by {
        if m == 0 {
            assert(out[1] == mapped[0]);
            let s0 = cp[0].0 as int;
            assert(0 <= s0 <= MAX_SAMPLE_INDEX);
            lemma_div_is_ordered(
                2 * (SAMPLE_OFFSET as int),
                s0 + SAMPLE_OFFSET + s0 + SAMPLE_OFFSET,
                TIME_DIVISOR as int,
            );
            assert((2 * (SAMPLE_OFFSET as int)) / (TIME_DIVISOR as int) >= 1);
            assert(convert_time(s0) >= 1);
            lemma_div_nonincreasing(s0 + SAMPLE_OFFSET + s0 + SAMPLE_OFFSET, TIME_DIVISOR as int);
            assert(convert_time(s0) <= (s0 + SAMPLE_OFFSET + s0 + SAMPLE_OFFSET));
            assert(out[1].0 == convert_time(s0) as u64);
            assert(out[0].0 == 0);
        } else {
            assert(out[m] == mapped[m - 1]);
            assert(out[m + 1] == mapped[m]);
            let a = cp[m - 1].0 as int;
            let b = cp[m].0 as int;
            assert(a + MIN_CHANGE_SPACING <= b);
            assert(0 <= a <= MAX_SAMPLE_INDEX);
            assert(0 <= b <= MAX_SAMPLE_INDEX);
            let na = a + SAMPLE_OFFSET + a + SAMPLE_OFFSET;
            let nb = b + SAMPLE_OFFSET + b + SAMPLE_OFFSET;
            assert(na + TIME_DIVISOR <= nb);
            lemma_div_plus_one(na, TIME_DIVISOR as int);
            lemma_div_is_ordered(na + TIME_DIVISOR, nb, TIME_DIVISOR as int);
            assert(convert_time(a) < convert_time(b));
            lemma_div_pos_is_pos(na, TIME_DIVISOR as int);
            lemma_div_nonincreasing(nb, TIME_DIVISOR as int);
            assert(0 <= convert_time(a));
            assert(convert_time(b) <= nb);
        }
    }
}

} // verus!
