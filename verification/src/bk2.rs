//! Reading the movie container: the input log member decodes to an ordered
//! sequence of input states, and the settings member resolves to the sync
//! settings, with documented defaults for the optional fields.

use vstd::prelude::*;

use crate::input::Input;

verus! {

/// The byte that marks a log line as a frame.
pub const FRAME_MARKER: u8 = 124;

/// Line feed, the log's line separator.
pub const LINE_FEED: u8 = 10;

// ---------------------------------------------------------------------------
// Input log decoding
// ---------------------------------------------------------------------------

/// Some byte in `s[lo..hi]` equals `b`.
pub open spec fn contains_in(s: Seq<u8>, lo: int, hi: int, b: u8) -> bool {
    exists|k: int| lo <= k < hi && k < s.len() && s[k] == b
}

/// The end of the line that starts at `start`: the first line feed at or
/// after `start`, or the end of the text.
pub open spec fn line_end(s: Seq<u8>, start: int) -> int
    decreases s.len() - start,
    when 0 <= start
{
    if start >= s.len() {
        start
    } else if s[start] == LINE_FEED {
        start
    } else {
        line_end(s, start + 1)
    }
}

/// The line `s[lo..hi]` counts as a frame: it is non-empty and begins with
/// the frame marker.
pub open spec fn is_frame_at(s: Seq<u8>, lo: int, hi: int) -> bool {
    lo < hi && lo < s.len() && s[lo] == FRAME_MARKER
}

/// The input bits a log line in `s[lo..hi]` decodes to: one bit per
/// per-button marker byte present anywhere in the line. Matching is
/// case-sensitive: `S` is Start, `s` is Select.
pub open spec fn decode_range_bits(s: Seq<u8>, lo: int, hi: int) -> u8 {
    (if contains_in(s, lo, hi, 68) {
        0x80u8
    } else {
        0u8
    }) | (if contains_in(s, lo, hi, 85) {
        0x40u8
    } else {
        0u8
    }) | (if contains_in(s, lo, hi, 76) {
        0x20u8
    } else {
        0u8
    }) | (if contains_in(s, lo, hi, 82) {
        0x10u8
    } else {
        0u8
    }) | (if contains_in(s, lo, hi, 83) {
        0x08u8
    } else {
        0u8
    }) | (if contains_in(s, lo, hi, 115) {
        0x04u8
    } else {
        0u8
    }) | (if contains_in(s, lo, hi, 66) {
        0x02u8
    } else {
        0u8
    }) | (if contains_in(s, lo, hi, 65) {
        0x01u8
    } else {
        0u8
    })
}

/// Every frame line of `s` from position `start` on, decoded in order.
/// Lines that do not begin with the frame marker contribute nothing.
pub open spec fn frames_from(s: Seq<u8>, start: int) -> Seq<u8>
    decreases s.len() - start,
    when 0 <= start
    via frames_from_decreases
{
    if start >= s.len() {
        Seq::empty()
    } else {
        let e = line_end(s, start);
        let head = if is_frame_at(s, start, e) {
            seq![decode_range_bits(s, start, e)]
        } else {
            Seq::empty()
        };
        if e + 1 <= s.len() {
            head + frames_from(s, e + 1)
        } else {
            head
        }
    }
}

#[via_fn]
proof fn frames_from_decreases(s: Seq<u8>, start: int) {
    if 0 <= start < s.len() {
        lemma_line_end(s, start);
    }
}

/// How many lines of `s` from position `start` on begin with the frame
/// marker.
pub open spec fn frame_line_count(s: Seq<u8>, start: int) -> nat
    decreases s.len() - start,
    when 0 <= start
    via frame_line_count_decreases
{
    if start >= s.len() {
        0
    } else {
        let e = line_end(s, start);
        let c: nat = if is_frame_at(s, start, e) {
            1
        } else {
            0
        };
        if e + 1 <= s.len() {
            c + frame_line_count(s, e + 1)
        } else {
            c
        }
    }
}

#[via_fn]
proof fn frame_line_count_decreases(s: Seq<u8>, start: int) {
    if 0 <= start < s.len() {
        lemma_line_end(s, start);
    }
}

/// The end of a line lies between its start and the end of the text, sits
/// on a line feed unless it is the end of the text, and no line feed comes
/// before it.
pub proof fn lemma_line_end(s: Seq<u8>, start: int)
    requires
        0 <= start <= s.len(),
    ensures
        start <= line_end(s, start) <= s.len(),
        line_end(s, start) < s.len() ==> s[line_end(s, start)] == LINE_FEED,
        forall|k: int| start <= k < line_end(s, start) ==> s[k] != LINE_FEED,
    decreases s.len() - start,
{
    if start < s.len() && s[start] != LINE_FEED {
        lemma_line_end(s, start + 1);
    }
}

/// The decoded frame sequence has exactly one entry per frame line: lines
/// without the marker contribute nothing.
pub proof fn lemma_frame_count(s: Seq<u8>)
    ensures
        frames_from(s, 0).len() == frame_line_count(s, 0),
{
    lemma_frame_count_from(s, 0);
}

proof fn lemma_frame_count_from(s: Seq<u8>, start: int)
    requires
        0 <= start,
    ensures
        frames_from(s, start).len() == frame_line_count(s, start),
    decreases s.len() - start,
{
    if start < s.len() {
        lemma_line_end(s, start);
        let e = line_end(s, start);
        if e + 1 <= s.len() {
            lemma_frame_count_from(s, e + 1);
        }
    }
}

/// A standalone line: no line feed anywhere in it.
pub open spec fn line_wf(l: Seq<u8>) -> bool {
    forall|k: int| 0 <= k < l.len() ==> l[k] != LINE_FEED
}

/// A standalone line counts as a frame: non-empty, begins with the marker.
pub open spec fn is_frame_line(l: Seq<u8>) -> bool {
    is_frame_at(l, 0, l.len() as int)
}

/// The input bits a standalone line decodes to.
pub open spec fn decode_line_bits(l: Seq<u8>) -> u8 {
    decode_range_bits(l, 0, l.len() as int)
}

/// A log text assembled from standalone lines, each ended by a line feed.
pub open spec fn join_lines(lines: Seq<Seq<u8>>) -> Seq<u8>
    decreases lines.len(),
{
    if lines.len() == 0 {
        Seq::empty()
    } else {
        lines[0] + seq![LINE_FEED] + join_lines(lines.drop_first())
    }
}

/// Every line of the list is free of line feeds.
pub open spec fn lines_wf(lines: Seq<Seq<u8>>) -> bool {
    forall|i: int| 0 <= i < lines.len() ==> line_wf(#[trigger] lines[i])
}

/// The frame lines of the list, in order.
pub open spec fn frame_lines_only(lines: Seq<Seq<u8>>) -> Seq<Seq<u8>>
    decreases lines.len(),
{
    if lines.len() == 0 {
        Seq::empty()
    } else if is_frame_line(lines[0]) {
        seq![lines[0]] + frame_lines_only(lines.drop_first())
    } else {
        frame_lines_only(lines.drop_first())
    }
}

proof fn lemma_line_end_at(s: Seq<u8>, start: int, e: int)
    requires
        0 <= start <= e <= s.len(),
        forall|k: int| start <= k < e ==> s[k] != LINE_FEED,
        e == s.len() || s[e] == LINE_FEED,
    ensures
        line_end(s, start) == e,
    decreases e - start,
{
    if start < e {
        lemma_line_end_at(s, start + 1, e);
    }
}

proof fn lemma_contains_shift(u: Seq<u8>, t: Seq<u8>, off: int, lo: int, hi: int)
    requires
        0 <= off,
        0 <= lo,
        hi <= t.len(),
        off + t.len() <= u.len(),
        forall|k: int| 0 <= k < t.len() ==> u[off + k] == #[trigger] t[k],
    ensures
        forall|c: u8| #[trigger] contains_in(u, off + lo, off + hi, c) == contains_in(t, lo, hi, c),
{
    assert forall|c: u8| #[trigger] contains_in(u, off + lo, off + hi, c) == contains_in(
        t,
        lo,
        hi,
        c,
    ) by {
        if contains_in(t, lo, hi, c) {
            let k = choose|k: int| lo <= k < hi && k < t.len() && t[k] == c;
            assert(u[off + k] == c);
        }
        if contains_in(u, off + lo, off + hi, c) {
            let k = choose|k: int| off + lo <= k < off + hi && k < u.len() && u[k] == c;
            assert(u[off + (k - off)] == t[k - off]);
            assert(t[k - off] == c);
        }
    }
}

proof fn lemma_frames_from_shift(u: Seq<u8>, t: Seq<u8>, off: int, j: int)
    requires
        0 <= j,
        0 <= off,
        u.len() == off + t.len(),
        forall|k: int| 0 <= k < t.len() ==> u[off + k] == #[trigger] t[k],
    ensures
        frames_from(u, off + j) == frames_from(t, j),
    decreases t.len() - j,
{
    if j >= t.len() {
        assert(frames_from(t, j) == Seq::<u8>::empty());
        assert(frames_from(u, off + j) == Seq::<u8>::empty());
    } else {
        lemma_line_end(t, j);
        let e = line_end(t, j);
        assert forall|k: int| off + j <= k < off + e implies u[k] != LINE_FEED by {
            assert(u[off + (k - off)] == t[k - off]);
        }
        if e < t.len() {
            assert(u[off + e] == t[e]);
        }
        lemma_line_end_at(u, off + j, off + e);
        lemma_contains_shift(u, t, off, j, e);
        assert(u[off + j] == t[j]);
        assert(is_frame_at(u, off + j, off + e) == is_frame_at(t, j, e));
        assert(decode_range_bits(u, off + j, off + e) == decode_range_bits(t, j, e));
        if e + 1 <= t.len() {
            lemma_frames_from_shift(u, t, off, e + 1);
        }
    }
}

/// Decoding a joined log is decoding its frame lines alone: every line
/// that does not begin with the marker contributes nothing, wherever in
/// the log it stands.
pub proof fn lemma_frames_of_joined_lines(lines: Seq<Seq<u8>>)
    requires
        lines_wf(lines),
    ensures
        frames_from(join_lines(lines), 0) == frame_lines_only(lines).map_values(
            |l: Seq<u8>| decode_line_bits(l),
        ),
    decreases lines.len(),
{
    let dec = |l: Seq<u8>| decode_line_bits(l);
    if lines.len() == 0 {
        assert(frames_from(join_lines(lines), 0) == Seq::<u8>::empty());
        assert(frame_lines_only(lines).map_values(dec) =~= Seq::<u8>::empty());
    } else {
        let l = lines[0];
        let rest = lines.drop_first();
        assert forall|i: int| 0 <= i < rest.len() implies line_wf(#[trigger] rest[i]) by {
            assert(rest[i] == lines[i + 1]);
        }
        lemma_frames_of_joined_lines(rest);
        let u = join_lines(lines);
        let t = join_lines(rest);
        assert(u == l + seq![LINE_FEED] + t);
        assert forall|k: int| 0 <= k < l.len() implies u[k] != LINE_FEED by {
            assert(u[k] == l[k]);
        }
        assert(u[l.len() as int] == LINE_FEED);
        lemma_line_end_at(u, 0, l.len() as int);
        assert forall|k: int| 0 <= k < l.len() implies u[0 + k] == #[trigger] l[k] by {}
        lemma_contains_shift(u, l, 0, 0, l.len() as int);
        assert(is_frame_at(u, 0, l.len() as int) == is_frame_line(l));
        assert(decode_range_bits(u, 0, l.len() as int) == decode_line_bits(l));
        assert forall|k: int| 0 <= k < t.len() implies u[l.len() + 1 + k] == #[trigger] t[k] by {}
        lemma_frames_from_shift(u, t, l.len() as int + 1, 0);
        let head: Seq<u8> = if is_frame_line(l) {
            seq![decode_line_bits(l)]
        } else {
            Seq::empty()
        };
        assert(frames_from(u, 0) == head + frames_from(t, 0));
        if is_frame_line(l) {
            assert(frame_lines_only(lines) == seq![l] + frame_lines_only(rest));
            assert((seq![l] + frame_lines_only(rest)).map_values(dec) =~= seq![dec(l)]
                + frame_lines_only(rest).map_values(dec));
        } else {
            assert(frame_lines_only(lines) == frame_lines_only(rest));
            assert(frames_from(u, 0) =~= frame_lines_only(lines).map_values(dec));
        }
    }
}

/// Two logs whose frame lines agree decode identically: inserting or
/// deleting lines that do not begin with the marker changes nothing.
pub proof fn lemma_ignored_lines_change_nothing(a: Seq<Seq<u8>>, b: Seq<Seq<u8>>)
    requires
        lines_wf(a),
        lines_wf(b),
        frame_lines_only(a) == frame_lines_only(b),
    ensures
        frames_from(join_lines(a), 0) == frames_from(join_lines(b), 0),
{
    lemma_frames_of_joined_lines(a);
    lemma_frames_of_joined_lines(b);
}

/// Whether some byte of `data[start..end]` equals `b`.
fn contains_byte_range(data: &Vec<u8>, start: usize, end: usize, b: u8) -> (r: bool)
    requires
        start <= end <= data@.len(),
    ensures
        r == contains_in(data@, start as int, end as int, b),
{
    let mut i: usize = start;
    while i < end
        invariant
            start <= i <= end <= data@.len(),
            forall|k: int| start <= k < i ==> data@[k] != b,
        decreases end - i,
    {
        if data[i] == b {
            proof {
                assert(start <= i < end && (i as int) < data@.len() && data@[i as int] == b);
            }
            return true;
        }
        i = i + 1;
    }
    false
}

/// Decode the log line in `data[start..end]` to packed input bits.
fn decode_line_range(data: &Vec<u8>, start: usize, end: usize) -> (r: u8)
    requires
        start <= end <= data@.len(),
    ensures
        r == decode_range_bits(data@, start as int, end as int),
{
    let t_down: u8 = if contains_byte_range(data, start, end, 68) {
        0x80
    } else {
        0
    };
    let t_up: u8 = if contains_byte_range(data, start, end, 85) {
        0x40
    } else {
        0
    };
    let t_left: u8 = if contains_byte_range(data, start, end, 76) {
        0x20
    } else {
        0
    };
    let t_right: u8 = if contains_byte_range(data, start, end, 82) {
        0x10
    } else {
        0
    };
    let t_start: u8 = if contains_byte_range(data, start, end, 83) {
        0x08
    } else {
        0
    };
    let t_select: u8 = if contains_byte_range(data, start, end, 115) {
        0x04
    } else {
        0
    };
    let t_b: u8 = if contains_byte_range(data, start, end, 66) {
        0x02
    } else {
        0
    };
    let t_a: u8 = if contains_byte_range(data, start, end, 65) {
        0x01
    } else {
        0
    };
    t_down | t_up | t_left | t_right | t_start | t_select | t_b | t_a
}

/// Decode a raw input log: one input state per line that begins with the
/// frame marker, in order; every other line is ignored.
pub fn decode_input_log(data: &Vec<u8>) -> (r: Vec<Input>)
    ensures
        r@.map_values(|x: Input| x.bits) == frames_from(data@, 0),
{
    let mut result: Vec<Input> = Vec::new();
    let mut start: usize = 0;
    proof {
        assert(result@.map_values(|x: Input| x.bits) =~= Seq::<u8>::empty());
    }
    while start < data.len()
        invariant
            start <= data@.len(),
            frames_from(data@, 0) == result@.map_values(|x: Input| x.bits) + frames_from(
                data@,
                start as int,
            ),
        decreases data@.len() + 1 - start,
    {
        let ghost prev_map = result@.map_values(|x: Input| x.bits);
        let mut e: usize = start;
        while e < data.len() && data[e] != LINE_FEED
            invariant
                start <= e <= data@.len(),
                line_end(data@, start as int) == line_end(data@, e as int),
            decreases data@.len() - e,
        {
            proof {
                assert(line_end(data@, e as int) == line_end(data@, e as int + 1));
            }
            e = e + 1;
        }
        proof {
            assert(line_end(data@, e as int) == e);
            assert(line_end(data@, start as int) == e);
        }
        let is_frame = e > start && data[start] == FRAME_MARKER;
        proof {
            assert(is_frame == is_frame_at(data@, start as int, e as int));
        }
        if is_frame {
            let bits = decode_line_range(data, start, e);
            result.push(Input { bits });
            proof {
                assert(result@.map_values(|x: Input| x.bits) =~= prev_map.push(bits));
                assert(prev_map.push(bits) =~= prev_map + seq![bits]);
            }
        }
        proof {
            let s = data@;
            let st = start as int;
            let head: Seq<u8> = if is_frame_at(s, st, e as int) {
                seq![decode_range_bits(s, st, e as int)]
            } else {
                Seq::empty()
            };
            assert(result@.map_values(|x: Input| x.bits) =~= prev_map + head);
            if e as int + 1 <= s.len() {
                assert(frames_from(s, st) == head + frames_from(s, e as int + 1));
                assert((prev_map + head) + frames_from(s, e as int + 1) =~= prev_map + (head
                    + frames_from(s, e as int + 1)));
            } else {
                assert(frames_from(s, st) == head);
                assert(frames_from(s, e as int) == Seq::<u8>::empty());
                assert((prev_map + head) + frames_from(s, e as int) =~= prev_map + head);
            }
        }
        if e < data.len() {
            start = e + 1;
        } else {
            start = e;
        }
    }
    proof {
        assert(frames_from(data@, start as int) == Seq::<u8>::empty());
        assert(result@.map_values(|x: Input| x.bits) =~= frames_from(data@, 0));
    }
    result
}

// ---------------------------------------------------------------------------
// The marker alphabet round trip
// ---------------------------------------------------------------------------

/// A singleton line piece: present when `cond` holds, empty otherwise.
pub open spec fn piece(cond: bool, x: u8) -> Seq<u8> {
    if cond {
        seq![x]
    } else {
        Seq::empty()
    }
}

/// The canonical frame line for a set of input bits: the frame marker
/// followed by exactly the marker byte of each pressed button.
pub open spec fn marker_line(bits: u8) -> Seq<u8> {
    seq![FRAME_MARKER] + piece(bits & 0x80u8 != 0, 68) + piece(bits & 0x40u8 != 0, 85) + piece(
        bits & 0x20u8 != 0,
        76,
    ) + piece(bits & 0x10u8 != 0, 82) + piece(bits & 0x08u8 != 0, 83) + piece(
        bits & 0x04u8 != 0,
        115,
    ) + piece(bits & 0x02u8 != 0, 66) + piece(bits & 0x01u8 != 0, 65)
}

proof fn lemma_contains_concat_all(a: Seq<u8>, b: Seq<u8>)
    ensures
        forall|c: u8|
            #[trigger] contains_in(a + b, 0, (a + b).len() as int, c) == (contains_in(
                a,
                0,
                a.len() as int,
                c,
            ) || contains_in(b, 0, b.len() as int, c)),
{
    assert forall|c: u8|
        #[trigger] contains_in(a + b, 0, (a + b).len() as int, c) == (contains_in(
            a,
            0,
            a.len() as int,
            c,
        ) || contains_in(b, 0, b.len() as int, c)) by {
        let ab = a + b;
        if contains_in(a, 0, a.len() as int, c) {
            let k = choose|k: int| 0 <= k < a.len() && k < a.len() && a[k] == c;
            assert(ab[k] == c);
        }
        if contains_in(b, 0, b.len() as int, c) {
            let k = choose|k: int| 0 <= k < b.len() && k < b.len() && b[k] == c;
            assert(ab[a.len() + k] == c);
        }
        if contains_in(ab, 0, ab.len() as int, c) {
            let k = choose|k: int| 0 <= k < ab.len() && k < ab.len() && ab[k] == c;
            if k < a.len() {
                assert(a[k] == c);
            } else {
                assert(b[k - a.len()] == c);
            }
        }
    }
}

proof fn lemma_contains_piece_all(cond: bool, x: u8)
    ensures
        forall|c: u8|
            #[trigger] contains_in(piece(cond, x), 0, piece(cond, x).len() as int, c) == (cond && x
                == c),
{
    assert forall|c: u8|
        #[trigger] contains_in(piece(cond, x), 0, piece(cond, x).len() as int, c) == (cond && x
            == c) by {
        if cond && x == c {
            assert(piece(cond, x)[0] == c);
        }
        if contains_in(piece(cond, x), 0, piece(cond, x).len() as int, c) {
            let k = choose|k: int|
                0 <= k < piece(cond, x).len() && k < piece(cond, x).len() && piece(cond, x)[k] == c;
            assert(piece(cond, x)[k] == c);
        }
    }
}

/// Decoding the canonical frame line of any input state yields exactly
/// that state: the marker alphabet round-trips.
#[verifier::rlimit(100)]
pub proof fn lemma_marker_line_roundtrip(bits: u8)
    ensures
        is_frame_at(marker_line(bits), 0, marker_line(bits).len() as int),
        decode_range_bits(marker_line(bits), 0, marker_line(bits).len() as int) == bits,
{
    let p0 = seq![FRAME_MARKER];
    let p1 = piece(bits & 0x80u8 != 0, 68);
    let p2 = piece(bits & 0x40u8 != 0, 85);
    let p3 = piece(bits & 0x20u8 != 0, 76);
    let p4 = piece(bits & 0x10u8 != 0, 82);
    let p5 = piece(bits & 0x08u8 != 0, 83);
    let p6 = piece(bits & 0x04u8 != 0, 115);
    let p7 = piece(bits & 0x02u8 != 0, 66);
    let p8 = piece(bits & 0x01u8 != 0, 65);
    let q1 = p0 + p1;
    let q2 = q1 + p2;
    let q3 = q2 + p3;
    let q4 = q3 + p4;
    let q5 = q4 + p5;
    let q6 = q5 + p6;
    let q7 = q6 + p7;
    let q8 = q7 + p8;
    assert(marker_line(bits) == q8);
    lemma_contains_piece_all(bits & 0x80u8 != 0, 68);
    lemma_contains_piece_all(bits & 0x40u8 != 0, 85);
    lemma_contains_piece_all(bits & 0x20u8 != 0, 76);
    lemma_contains_piece_all(bits & 0x10u8 != 0, 82);
    lemma_contains_piece_all(bits & 0x08u8 != 0, 83);
    lemma_contains_piece_all(bits & 0x04u8 != 0, 115);
    lemma_contains_piece_all(bits & 0x02u8 != 0, 66);
    lemma_contains_piece_all(bits & 0x01u8 != 0, 65);
    assert forall|c: u8| #[trigger] contains_in(p0, 0, p0.len() as int, c) == (c
        == FRAME_MARKER) by {
        if c == FRAME_MARKER {
            assert(p0[0] == c);
        }
        if contains_in(p0, 0, p0.len() as int, c) {
            let k = choose|k: int| 0 <= k < p0.len() && k < p0.len() && p0[k] == c;
            assert(p0[k] == c);
        }
    }
    lemma_contains_concat_all(p0, p1);
    lemma_contains_concat_all(q1, p2);
    lemma_contains_concat_all(q2, p3);
    lemma_contains_concat_all(q3, p4);
    lemma_contains_concat_all(q4, p5);
    lemma_contains_concat_all(q5, p6);
    lemma_contains_concat_all(q6, p7);
    lemma_contains_concat_all(q7, p8);
    assert(q8[0] == FRAME_MARKER);
    assert(contains_in(q8, 0, q8.len() as int, 68) == (bits & 0x80u8 != 0));
    assert(contains_in(q8, 0, q8.len() as int, 85) == (bits & 0x40u8 != 0));
    assert(contains_in(q8, 0, q8.len() as int, 76) == (bits & 0x20u8 != 0));
    assert(contains_in(q8, 0, q8.len() as int, 82) == (bits & 0x10u8 != 0));
    assert(contains_in(q8, 0, q8.len() as int, 83) == (bits & 0x08u8 != 0));
    assert(contains_in(q8, 0, q8.len() as int, 115) == (bits & 0x04u8 != 0));
    assert(contains_in(q8, 0, q8.len() as int, 66) == (bits & 0x02u8 != 0));
    assert(contains_in(q8, 0, q8.len() as int, 65) == (bits & 0x01u8 != 0));
    assert(((if bits & 0x80u8 != 0 {
        0x80u8
    } else {
        0u8
    }) | (if bits & 0x40u8 != 0 {
        0x40u8
    } else {
        0u8
    }) | (if bits & 0x20u8 != 0 {
        0x20u8
    } else {
        0u8
    }) | (if bits & 0x10u8 != 0 {
        0x10u8
    } else {
        0u8
    }) | (if bits & 0x08u8 != 0 {
        0x08u8
    } else {
        0u8
    }) | (if bits & 0x04u8 != 0 {
        0x04u8
    } else {
        0u8
    }) | (if bits & 0x02u8 != 0 {
        0x02u8
    } else {
        0u8
    }) | (if bits & 0x01u8 != 0 {
        0x01u8
    } else {
        0u8
    })) == bits) by (bit_vector);
}

// ---------------------------------------------------------------------------
// Sync settings
// ---------------------------------------------------------------------------

/// The resolved sync settings of a movie.
#[derive(Clone, Copy, PartialEq, Eq, Structural, Debug)]
pub struct SyncSettings {
    /// Exact cadence when true, legacy cadence when false.
    pub equal_length_frames: bool,
    /// Offset applied to the engine's real-time-clock divisor.
    pub rtc_divisor_offset: i32,
}

/// Which optional settings fields were absent or ill-typed and fell back
/// to their documented default; the caller should warn about each.
#[derive(Clone, Copy, PartialEq, Eq, Structural, Debug)]
pub struct SettingsWarnings {
    /// The divisor offset was missing or not an integer; 0 was used.
    pub rtc_defaulted: bool,
    /// The cadence flag was missing or not a boolean; false was used.
    pub equal_length_defaulted: bool,
}

/// Why a movie container could not be decoded.
#[derive(Clone, Copy, PartialEq, Eq, Structural, Debug)]
pub enum Bk2Error {
    /// The archive could not be read, or a required member is absent.
    MemberMissing,
    /// The settings document is not readable as the expected structure.
    SettingsUnreadable,
    /// The settings type discriminator does not name a Gambatte movie.
    WrongMovieType,
    /// The movie does not use CGB-in-GBA mode.
    NotCgbMode,
}

/// The needle occurs in `h` starting at position `i`.
pub open spec fn matches_at(h: Seq<u8>, n: Seq<u8>, i: int) -> bool {
    0 <= i && i + n.len() <= h.len() && (forall|k: int| 0 <= k < n.len() ==> h[i + k] == n[k])
}

/// The needle occurs somewhere in `h`.
pub open spec fn seq_contains_sub(h: Seq<u8>, n: Seq<u8>) -> bool {
    exists|i: int| matches_at(h, n, i)
}

/// The label the settings type discriminator must contain:
/// the bytes of `GambatteSyncSettings`.
pub open spec fn gambatte_label() -> Seq<u8> {
    seq![
        71u8,
        97u8,
        109u8,
        98u8,
        97u8,
        116u8,
        116u8,
        101u8,
        83u8,
        121u8,
        110u8,
        99u8,
        83u8,
        101u8,
        116u8,
        116u8,
        105u8,
        110u8,
        103u8,
        115u8,
    ]
}

fn gambatte_label_vec() -> (r: Vec<u8>)
    ensures
        r@ == gambatte_label(),
{
    let mut v: Vec<u8> = Vec::new();
    v.push(71);
    v.push(97);
    v.push(109);
    v.push(98);
    v.push(97);
    v.push(116);
    v.push(116);
    v.push(101);
    v.push(83);
    v.push(121);
    v.push(110);
    v.push(99);
    v.push(83);
    v.push(101);
    v.push(116);
    v.push(116);
    v.push(105);
    v.push(110);
    v.push(103);
    v.push(115);
    proof {
        assert(v@ =~= gambatte_label());
    }
    v
}

fn matches_at_exec(h: &Vec<u8>, n: &Vec<u8>, i: usize) -> (r: bool)
    requires
        i + n@.len() <= h@.len(),
    ensures
        r == matches_at(h@, n@, i as int),
{
    let hlen: usize = h.len();
    let mut k: usize = 0;
    while k < n.len()
        invariant
            i + n@.len() <= h@.len(),
            hlen == h@.len(),
            k <= n@.len(),
            forall|m: int| 0 <= m < k ==> h@[i + m] == n@[m],
        decreases n@.len() - k,
    {
        if h[i + k] != n[k] {
            proof {
                assert(h@[i as int + k as int] != n@[k as int]);
            }
            return false;
        }
        k = k + 1;
    }
    true
}

/// Whether `n` occurs as a contiguous run of bytes anywhere in `h`.
pub fn contains_subsequence(h: &Vec<u8>, n: &Vec<u8>) -> (r: bool)
    ensures
        r == seq_contains_sub(h@, n@),
{
    if n.len() > h.len() {
        proof {
            assert forall|i: int| !matches_at(h@, n@, i) by {}
        }
        return false;
    }
    if n.len() == 0 {
        proof {
            assert(matches_at(h@, n@, 0));
        }
        return true;
    }
    let bound: usize = h.len() - n.len();
    let mut i: usize = 0;
    while i <= bound
        invariant
            1 <= n@.len() <= h@.len(),
            h@.len() <= usize::MAX,
            bound == h@.len() - n@.len(),
            i <= bound + 1,
            forall|j: int| 0 <= j < i ==> !matches_at(h@, n@, j),
        decreases bound + 1 - i,
    {
        if matches_at_exec(h, n, i) {
            proof {
                assert(matches_at(h@, n@, i as int));
            }
            return true;
        }
        i = i + 1;
    }
    proof {
        assert forall|j: int| !matches_at(h@, n@, j) by {
            if 0 <= j < i {
            } else if j > bound {
                assert(j + n@.len() > h@.len());
            }
        }
    }
    false
}

/// The plain field values drawn out of a settings document: the type
/// discriminator's bytes, the CGB-in-GBA flag, the divisor offset's
/// decimal parts, and the cadence flag, each absent when missing or of
/// the wrong type.
pub struct RawSyncFields {
    /// Bytes of `o.$type`, when it is a string.
    pub type_label: Option<Vec<u8>>,
    /// `o.GBACGB`, when it is a boolean.
    pub gba_cgb: Option<bool>,
    /// The decimal parts (sign, mantissa, ten's exponent) of
    /// `o.RTCDivisorOffset`, when it is a number.
    pub rtc_divisor_offset: Option<(bool, u64, i16)>,
    /// `o.EqualLengthFrames`, when it is a boolean.
    pub equal_length_frames: Option<bool>,
}

impl View for RawSyncFields {
    type V = (Option<Seq<u8>>, Option<bool>, Option<(bool, u64, i16)>, Option<bool>);

    open spec fn view(&self) -> Self::V {
        (
            (match self.type_label {
                Some(v) => Some(v@),
                None => None,
            }),
            self.gba_cgb,
            self.rtc_divisor_offset,
            self.equal_length_frames,
        )
    }
}

/// The field values a settings document holds, as a function of its raw
/// text alone.
pub uninterp spec fn sync_fields_of(text: Seq<u8>) -> (
    Option<Seq<u8>>,
    Option<bool>,
    Option<(bool, u64, i16)>,
    Option<bool>,
);

/// Relies on `json::parse` and `JsonValue`'s accessors (`Index<&str>`,
/// `as_str`, `as_bool`, `as_number`, `Number::as_parts`): which fields a
/// settings document yields depends on the document text alone. A
/// document that is not UTF-8 or not JSON yields no fields, as parsing an
/// empty string would.
#[verifier::external_body]
fn extract_sync_fields(doc: &Vec<u8>) -> (r: RawSyncFields)
    ensures
        r@ == sync_fields_of(doc@),
{
    let text: &str = std::str::from_utf8(doc).unwrap_or("");
    match json::parse(text) {
        Err(_) => RawSyncFields {
            type_label: None,
            gba_cgb: None,
            rtc_divisor_offset: None,
            equal_length_frames: None,
        },
        Ok(v) => RawSyncFields {
            type_label: v["o"]["$type"].as_str().map(|t| t.as_bytes().to_vec()),
            gba_cgb: v["o"]["GBACGB"].as_bool(),
            rtc_divisor_offset: v["o"]["RTCDivisorOffset"].as_number().map(|n| n.as_parts()),
            equal_length_frames: v["o"]["EqualLengthFrames"].as_bool(),
        },
    }
}

/// The `i32` a decimal number given as (sign, mantissa, ten's exponent)
/// denotes: present exactly when the exponent is zero and the signed
/// value fits in `i32`.
pub open spec fn spec_parts_to_i32(positive: bool, mantissa: u64, exponent: i16) -> Option<i32> {
    if exponent != 0 {
        None
    } else if positive && mantissa <= i32::MAX {
        Some(mantissa as i32)
    } else if !positive && mantissa <= 0x8000_0000u64 {
        Some((-(mantissa as int)) as i32)
    } else {
        None
    }
}

/// Executable counterpart of `spec_parts_to_i32`: the checked conversion
/// of a decimal number's parts to `i32`.
pub fn parts_to_i32(positive: bool, mantissa: u64, exponent: i16) -> (r: Option<i32>)
    ensures
        r == spec_parts_to_i32(positive, mantissa, exponent),
{
    if exponent != 0 {
        None
    } else if positive {
        if mantissa <= 0x7fff_ffff {
            Some(mantissa as i32)
        } else {
            None
        }
    } else {
        if mantissa <= 0x7fff_ffff {
            Some(-(mantissa as i32))
        } else if mantissa == 0x8000_0000 {
            Some(i32::MIN)
        } else {
            None
        }
    }
}

/// What a set of raw settings fields resolves to: the hard requirements
/// (a type discriminator containing the expected label, and the CGB flag
/// exactly true) abort with an error; the optional fields fall back to
/// their documented defaults with a warning flag.
pub open spec fn spec_resolve_settings(
    fields: (Option<Seq<u8>>, Option<bool>, Option<(bool, u64, i16)>, Option<bool>),
) -> Result<(SyncSettings, SettingsWarnings), Bk2Error> {
    match fields.0 {
        None => Err(Bk2Error::SettingsUnreadable),
        Some(t) => if !seq_contains_sub(t, gambatte_label()) {
            Err(Bk2Error::WrongMovieType)
        } else if fields.1 != Some(true) {
            Err(Bk2Error::NotCgbMode)
        } else {
            let rtc = match fields.2 {
                Some(p) => spec_parts_to_i32(p.0, p.1, p.2),
                None => None,
            };
            Ok(
                (
                    SyncSettings {
                        equal_length_frames: match fields.3 {
                            Some(b) => b,
                            None => false,
                        },
                        rtc_divisor_offset: match rtc {
                            Some(v) => v,
                            None => 0,
                        },
                    },
                    SettingsWarnings {
                        rtc_defaulted: rtc is None,
                        equal_length_defaulted: fields.3 is None,
                    },
                ),
            )
        },
    }
}

/// Resolve raw settings fields: exactly `spec_resolve_settings`.
pub fn resolve_sync_settings(fields: &RawSyncFields) -> (r: Result<
    (SyncSettings, SettingsWarnings),
    Bk2Error,
>)
    ensures
        r == spec_resolve_settings(fields@),
{
    match &fields.type_label {
        None => Err(Bk2Error::SettingsUnreadable),
        Some(t) => {
            let label = gambatte_label_vec();
            let is_cgb = match fields.gba_cgb {
                Some(b) => b,
                None => false,
            };
            if !contains_subsequence(t, &label) {
                Err(Bk2Error::WrongMovieType)
            } else if !is_cgb {
                Err(Bk2Error::NotCgbMode)
            } else {
                let converted = match fields.rtc_divisor_offset {
                    Some((p, m, e)) => parts_to_i32(p, m, e),
                    None => None,
                };
                let (rtc, rtc_defaulted) = match converted {
                    Some(v) => (v, false),
                    None => (0, true),
                };
                let (efl, efl_defaulted) = match fields.equal_length_frames {
                    Some(b) => (b, false),
                    None => (false, true),
                };
                Ok(
                    (
                        SyncSettings { equal_length_frames: efl, rtc_divisor_offset: rtc },
                        SettingsWarnings { rtc_defaulted, equal_length_defaulted: efl_defaulted },
                    ),
                )
            }
        },
    }
}

/// Parse and resolve a settings document.
pub fn parse_sync_settings(doc: &Vec<u8>) -> (r: Result<(SyncSettings, SettingsWarnings), Bk2Error>)
    ensures
        r == spec_resolve_settings(sync_fields_of(doc@)),
{
    let fields = extract_sync_fields(doc);
    resolve_sync_settings(&fields)
}

// ---------------------------------------------------------------------------
// The archive
// ---------------------------------------------------------------------------

/// The bytes of the named member of a zip archive, as a function of the
/// archive bytes and the name alone; absent when the archive cannot be
/// read or holds no member of that name.
pub uninterp spec fn zip_member_of(archive: Seq<u8>, name: Seq<char>) -> Option<Seq<u8>>;

/// Relies on `zip::ZipArchive::new` (over an in-memory cursor),
/// `ZipArchive::by_name` and `Read::read_to_end` on the returned member:
/// which bytes a named member holds depends on the archive bytes and the
/// name alone.
#[verifier::external_body]
fn zip_member(archive: &Vec<u8>, name: &str) -> (r: Option<Vec<u8>>)
    ensures
        (match r {
            Some(v) => Some(v@),
            None => None,
        }) == zip_member_of(archive@, name@),
{
    let cursor = std::io::Cursor::new(archive.as_slice());
    let mut za = match zip::ZipArchive::new(cursor) {
        Ok(z) => z,
        Err(_) => return None,
    };
    let mut file = match za.by_name(name) {
        Ok(f) => f,
        Err(_) => return None,
    };
    let mut buf: Vec<u8> = Vec::new();
    match std::io::Read::read_to_end(&mut file, &mut buf) {
        Ok(_) => Some(buf),
        Err(_) => None,
    }
}

/// Read the recorded input sequence out of a movie archive: decode the
/// input log member, one input state per frame line.
pub fn read_bk2_inputs(archive: &Vec<u8>) -> (r: Result<Vec<Input>, Bk2Error>)
    ensures
        zip_member_of(archive@, "Input Log.txt"@) is None ==> r == Err::<Vec<Input>, Bk2Error>(
            Bk2Error::MemberMissing,
        ),
        (match zip_member_of(archive@, "Input Log.txt"@) {
            Some(log) => r matches Ok(v) && v@.map_values(|x: Input| x.bits) == frames_from(log, 0),
            None => true,
        }),
{
    match zip_member(archive, "Input Log.txt") {
        None => Err(Bk2Error::MemberMissing),
        Some(log) => Ok(decode_input_log(&log)),
    }
}

/// Read the sync settings out of a movie archive: resolve the settings
/// member, with documented defaults for the optional fields.
pub fn read_bk2_sync_settings(archive: &Vec<u8>) -> (r: Result<
    (SyncSettings, SettingsWarnings),
    Bk2Error,
>)
    ensures
        zip_member_of(archive@, "SyncSettings.json"@) is None ==> r == Err::<
            (SyncSettings, SettingsWarnings),
            Bk2Error,
        >(Bk2Error::MemberMissing),
        (match zip_member_of(archive@, "SyncSettings.json"@) {
            Some(doc) => r == spec_resolve_settings(sync_fields_of(doc)),
            None => true,
        }),
{
    match zip_member(archive, "SyncSettings.json") {
        None => Err(Bk2Error::MemberMissing),
        Some(doc) => parse_sync_settings(&doc),
    }
}

} // verus!
