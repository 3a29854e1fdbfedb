//! The timing model: a piecewise-constant tempo map parsed from a
//! `beat=bpm,beat=bpm,...` string, and the conversion of chart ticks
//! (48 per beat) to elapsed microseconds.
//!
//! Beats and tempos are in millionths (micro-beats, micro-bpm). Positions
//! are handled in "microticks" (a tick is a million microticks, a beat is
//! 48 million), so that tick positions and change positions share one
//! integer unit. A segment of `d` microticks at tempo `b` micro-bpm lasts
//! `d * 1_250_000_000 / b` nanoseconds.

use vstd::prelude::*;

use crate::util::{
    find_byte, lemma_find_byte_found, lemma_find_byte_ge, sorted, spec_parse_decimal_micro,
    spec_trim, parse_decimal_micro, trim_bstr,
};

verus! {

/// A chart identity inside a pack, the key of the external metadata store.
#[derive(Debug, PartialEq, Eq, Hash)]
pub struct SongId {
    pub pack: String,
    pub song: String,
}

/// One tempo change: from `beat_micro` micro-beats on, the tempo is
/// `bpm_micro` micro-bpm.
#[derive(Clone, Copy, Debug, PartialEq, Eq, Structural)]
pub struct BpmChange {
    pub beat_micro: i64,
    pub bpm_micro: i64,
}

/// The tempo string could not be read: a pair without an equals sign, an
/// unparsable number, or no change at beat zero.
#[derive(Clone, Copy, Debug, PartialEq, Eq, Structural)]
pub struct MalformedTimingData;

/// A parsed tempo map: the tempo at beat zero and the ordered list of
/// changes after it.
#[derive(Debug)]
pub struct TimingInfo {
    pub first_bpm_micro: i64,
    pub changes: Vec<BpmChange>,
}

/// The fields of `s` split at every comma (an empty string is one empty
/// field).
pub open spec fn split_commas(s: Seq<u8>) -> Seq<Seq<u8>>
    decreases s.len() via split_commas_decreases
{
    let e = find_byte(s, 44, 0);
    if e >= s.len() {
        seq![s]
    } else {
        seq![s.take(e)] + split_commas(s.subrange(e + 1, s.len() as int))
    }
}

#[via_fn]
proof fn split_commas_decreases(s: Seq<u8>) {
    lemma_find_byte_ge(s, 44, 0);
}

/// One `beat=bpm` pair, trimmed and parsed.
pub open spec fn parse_pair(p: Seq<u8>) -> Option<(i64, i64)> {
    let eq = find_byte(p, 61, 0);
    if eq >= p.len() {
        Option::None
    } else {
        let beat = spec_parse_decimal_micro(spec_trim(p.take(eq)));
        let bpm = spec_parse_decimal_micro(spec_trim(p.subrange(eq + 1, p.len() as int)));
        if beat is Some && bpm is Some {
            Option::Some((beat.unwrap(), bpm.unwrap()))
        } else {
            Option::None
        }
    }
}

/// All pairs of a field list, or nothing if any fails.
pub open spec fn parse_all_pairs(fields: Seq<Seq<u8>>) -> Option<Seq<(i64, i64)>>
    decreases fields.len(),
{
    if fields.len() == 0 {
        Option::Some(Seq::empty())
    } else {
        match (parse_all_pairs(fields.drop_last()), parse_pair(fields.last())) {
            (Option::Some(rest), Option::Some(p)) => Option::Some(rest + seq![p]),
            _ => Option::None,
        }
    }
}

/// Insert after every element whose beat is not larger: the stable
/// insertion step.
pub open spec fn sorted_insert(s: Seq<(i64, i64)>, x: (i64, i64)) -> Seq<(i64, i64)>
    decreases s.len(),
{
    if s.len() == 0 {
        seq![x]
    } else if s.last().0 <= x.0 {
        s + seq![x]
    } else {
        sorted_insert(s.drop_last(), x) + seq![s.last()]
    }
}

/// Stable sort by beat, as repeated insertion in input order.
pub open spec fn stable_sort_by_beat(s: Seq<(i64, i64)>) -> Seq<(i64, i64)>
    decreases s.len(),
{
    if s.len() == 0 {
        Seq::empty()
    } else {
        sorted_insert(stable_sort_by_beat(s.drop_last()), s.last())
    }
}

/// Collapse runs of equal beats, keeping each run's last entry: with the
/// stable ordering that is the entry written last, whose tempo a
/// zero-length segment walk would leave in force anyway.
pub open spec fn dedup_by_beat(s: Seq<(i64, i64)>) -> Seq<(i64, i64)>
    decreases s.len(),
{
    if s.len() <= 1 {
        s
    } else if s[0].0 == s[1].0 {
        dedup_by_beat(s.drop_first())
    } else {
        seq![s[0]] + dedup_by_beat(s.drop_first())
    }
}

/// On a beat-ordered list the collapse leaves strictly increasing beats,
/// keeps the first beat value, and is empty only for an empty input.
proof fn lemma_dedup_props(s: Seq<(i64, i64)>)
    requires
        beats_sorted(s),
    ensures
        forall|k1: int, k2: int|
            0 <= k1 < k2 < dedup_by_beat(s).len() ==> (#[trigger] dedup_by_beat(s)[k1]).0 < (
            #[trigger] dedup_by_beat(s)[k2]).0,
        s.len() > 0 ==> dedup_by_beat(s).len() > 0 && dedup_by_beat(s)[0].0 == s[0].0,
        s.len() == 0 ==> dedup_by_beat(s).len() == 0,
        forall|k: int|
            0 <= k < dedup_by_beat(s).len() ==> (#[trigger] dedup_by_beat(s)[k]).0 >= s[0].0,
    decreases s.len(),
{
    if s.len() > 1 {
        let d = s.drop_first();
        assert(forall|i: int| 0 <= i < d.len() ==> #[trigger] d[i] == s[i + 1]);
        assert(beats_sorted(d));
        lemma_dedup_props(d);
        if s[0].0 == s[1].0 {
            assert(s[0].0 == d[0].0);
        } else {
            assert(s[0].0 < s[1].0);
            let r = seq![s[0]] + dedup_by_beat(d);
            assert(r[0] == s[0]);
            assert(forall|k: int|
                1 <= k < r.len() ==> #[trigger] r[k] == dedup_by_beat(d)[k - 1]);
        }
    }
}

/// Non-decreasing beats.
pub open spec fn beats_sorted(s: Seq<(i64, i64)>) -> bool {
    forall|i: int, j: int| 0 <= i <= j < s.len() ==> (#[trigger] s[i]).0 <= (#[trigger] s[j]).0
}

/// What the whole tempo string denotes: the beat-zero tempo and the later
/// changes, in beat order, or nothing when malformed.
pub open spec fn spec_from_bpm_string(s: Seq<u8>) -> Option<(i64, Seq<(i64, i64)>)> {
    match parse_all_pairs(split_commas(s)) {
        Option::None => Option::None,
        Option::Some(pairs) => {
            let dd = dedup_by_beat(stable_sort_by_beat(pairs));
            if dd.len() == 0 || dd[0].0 != 0 {
                Option::None
            } else {
                Option::Some((dd[0].1, dd.subrange(1, dd.len() as int)))
            }
        },
    }
}

impl TimingInfo {
    /// The changes' view as beat/bpm pairs.
    pub open spec fn pairs(self) -> Seq<(i64, i64)> {
        self.changes@.map_values(|c: BpmChange| (c.beat_micro, c.bpm_micro))
    }

    /// What parsing guarantees of the beats: non-negative, in
    /// non-decreasing order.
    pub open spec fn beats_wf(self) -> bool {
        &&& forall|i: int|
            0 <= i < self.changes@.len() ==> (#[trigger] self.changes@[i]).beat_micro >= 0
        &&& forall|i: int, j: int|
            0 <= i <= j < self.changes@.len() ==> (#[trigger] self.changes@[i]).beat_micro <= (
            #[trigger] self.changes@[j]).beat_micro
    }

    /// Fit to drive conversion: ordered beats and positive tempos. Parsing
    /// accepts any tempo the chart wrote, so a caller checks this (with
    /// `is_wf`) before converting.
    pub open spec fn wf(self) -> bool {
        &&& self.beats_wf()
        &&& self.first_bpm_micro >= 1
        &&& forall|i: int|
            0 <= i < self.changes@.len() ==> (#[trigger] self.changes@[i]).bpm_micro >= 1
    }

    /// Whether the map can drive conversion: every tempo is positive and
    /// the beats are ordered.
    pub fn is_wf(&self) -> (r: bool)
        ensures
            r == self.wf(),
    {
        if self.first_bpm_micro < 1 {
            return false;
        }
        let n = self.changes.len();
        let mut i: usize = 0;
        while i < n
            invariant
                0 <= i <= n == self.changes@.len(),
                forall|k: int|
                    0 <= k < i ==> (#[trigger] self.changes@[k]).bpm_micro >= 1
                        && self.changes@[k].beat_micro >= 0,
                forall|k: int|
                    1 <= k < i ==> (#[trigger] self.changes@[k]).beat_micro >= self.changes@[k
                        - 1].beat_micro,
            decreases n - i,
        {
            let c = self.changes[i];
            if c.bpm_micro < 1 || c.beat_micro < 0 {
                return false;
            }
            if i >= 1 {
                if self.changes[i - 1].beat_micro > c.beat_micro {
                    return false;
                }
            }
            i += 1;
        }
        proof {
            assert forall|a: int, b: int|
                0 <= a <= b < self.changes@.len() implies (#[trigger] self.changes@[a]).beat_micro
                <= (#[trigger] self.changes@[b]).beat_micro by {
                lemma_changes_adjacent_sorted(self.changes@, a, b);
            }
        }
        true
    }
}

proof fn lemma_changes_adjacent_sorted(s: Seq<BpmChange>, i: int, j: int)
    requires
        forall|k: int|
            1 <= k < s.len() ==> (#[trigger] s[k]).beat_micro >= s[k - 1].beat_micro,
        0 <= i <= j < s.len(),
    ensures
        s[i].beat_micro <= s[j].beat_micro,
    decreases j - i,
{
    if i < j {
        assert(s[j].beat_micro >= s[j - 1].beat_micro);
        lemma_changes_adjacent_sorted(s, i, j - 1);
    }
}

/// Position of a tick in microticks.
pub open spec fn tick_microticks(tick: u64) -> int {
    tick * 1_000_000
}

/// Position of a change in microticks.
pub open spec fn change_microticks(c: BpmChange) -> int {
    c.beat_micro * 48
}

/// Nanoseconds spent crossing `delta` microticks at `bpm` micro-bpm.
pub open spec fn seg_time_ns(delta: int, bpm: int) -> int {
    delta * 1_250_000_000 / bpm
}

/// The tempo in force between change `j - 1` and change `j`.
pub open spec fn seg_bpm(ti: TimingInfo, j: int) -> int {
    if j <= 0 {
        ti.first_bpm_micro as int
    } else {
        ti.changes@[j - 1].bpm_micro as int
    }
}

/// The cursor position after the first `j` changes, in microticks.
pub open spec fn cursor_beat(ti: TimingInfo, j: int) -> int {
    if j <= 0 {
        0
    } else {
        change_microticks(ti.changes@[j - 1])
    }
}

/// The elapsed time at the cursor after the first `j` changes, in
/// nanoseconds.
pub open spec fn cursor_ns(ti: TimingInfo, j: int) -> int
    decreases j,
{
    if j <= 0 {
        0
    } else {
        cursor_ns(ti, j - 1) + seg_time_ns(
            change_microticks(ti.changes@[j - 1]) - cursor_beat(ti, j - 1),
            seg_bpm(ti, j - 1),
        )
    }
}

/// The segment a position falls in: the first change strictly after it,
/// scanning from `j`.
pub open spec fn seg_of_from(ti: TimingInfo, pos: int, j: int) -> int
    decreases ti.changes@.len() - j,
{
    if j < 0 || j >= ti.changes@.len() {
        ti.changes@.len() as int
    } else if pos < change_microticks(ti.changes@[j]) {
        j
    } else {
        seg_of_from(ti, pos, j + 1)
    }
}

/// Elapsed nanoseconds at a tick: the cursor of its segment plus the linear
/// remainder at that segment's tempo.
pub open spec fn spec_tick_ns(ti: TimingInfo, tick: u64) -> int {
    let pos = tick_microticks(tick);
    let j = seg_of_from(ti, pos, 0);
    cursor_ns(ti, j) + seg_time_ns(pos - cursor_beat(ti, j), seg_bpm(ti, j))
}

/// Elapsed microseconds at a tick, clipped into `u64`.
pub open spec fn spec_tick_us(ti: TimingInfo, tick: u64) -> u64 {
    let ns = spec_tick_ns(ti, tick);
    if ns / 1000 > u64::MAX {
        u64::MAX
    } else {
        (ns / 1000) as u64
    }
}


proof fn lemma_seg_time_props(delta: int, bpm: int)
    requires
        delta >= 0,
        bpm >= 1,
    ensures
        0 <= seg_time_ns(delta, bpm) <= delta * 1_250_000_000,
{
    assert(0 <= delta * 1_250_000_000) by (nonlinear_arith)
        requires
            delta >= 0,
    ;
    assert(delta * 1_250_000_000 / bpm >= 0) by (nonlinear_arith)
        requires
            delta * 1_250_000_000 >= 0,
            bpm >= 1,
    ;
    assert(delta * 1_250_000_000 / bpm <= delta * 1_250_000_000) by (nonlinear_arith)
        requires
            delta * 1_250_000_000 >= 0,
            bpm >= 1,
    ;
}

/// Crossing more microticks at the same tempo takes at least as long.
proof fn lemma_seg_time_mono(d1: int, d2: int, bpm: int)
    requires
        0 <= d1 <= d2,
        bpm >= 1,
    ensures
        seg_time_ns(d1, bpm) <= seg_time_ns(d2, bpm),
{
    assert(d1 * 1_250_000_000 <= d2 * 1_250_000_000) by (nonlinear_arith)
        requires
            d1 <= d2,
    ;
    assert(d1 * 1_250_000_000 / bpm <= d2 * 1_250_000_000 / bpm) by (nonlinear_arith)
        requires
            d1 * 1_250_000_000 <= d2 * 1_250_000_000,
            bpm >= 1,
    ;
}

/// Cursors stay non-negative and below the linear bound at the slowest
/// tempo, which keeps the arithmetic inside `i128`.
proof fn lemma_cursor_props(ti: TimingInfo, j: int)
    requires
        ti.wf(),
        0 <= j <= ti.changes@.len(),
    ensures
        0 <= cursor_beat(ti, j),
        0 <= cursor_ns(ti, j) <= cursor_beat(ti, j) * 1_250_000_000,
    decreases j,
{
    if j > 0 {
        lemma_cursor_props(ti, j - 1);
        let prev_beat = cursor_beat(ti, j - 1);
        let this_beat = cursor_beat(ti, j);
        assert(this_beat >= prev_beat) by {
            if j - 1 > 0 {
                assert(ti.changes@[j - 2].beat_micro <= ti.changes@[j - 1].beat_micro);
                assert(ti.changes@[j - 2].beat_micro * 48 <= ti.changes@[j - 1].beat_micro * 48)
                    by (nonlinear_arith)
                    requires
                        ti.changes@[j - 2].beat_micro <= ti.changes@[j - 1].beat_micro,
                ;
            } else {
                assert(ti.changes@[j - 1].beat_micro >= 0);
                assert(ti.changes@[j - 1].beat_micro * 48 >= 0) by (nonlinear_arith)
                    requires
                        ti.changes@[j - 1].beat_micro >= 0,
                ;
            }
        }
        lemma_seg_time_props(this_beat - prev_beat, seg_bpm(ti, j - 1));
        assert(prev_beat * 1_250_000_000 + (this_beat - prev_beat) * 1_250_000_000 == this_beat
            * 1_250_000_000) by (nonlinear_arith);
    }
}

/// The cursor time never decreases as changes are crossed.
proof fn lemma_cursor_mono(ti: TimingInfo, j1: int, j2: int)
    requires
        ti.wf(),
        0 <= j1 <= j2 <= ti.changes@.len(),
    ensures
        cursor_ns(ti, j1) <= cursor_ns(ti, j2),
    decreases j2 - j1,
{
    if j1 < j2 {
        lemma_cursor_mono(ti, j1, j2 - 1);
        lemma_cursor_props(ti, j2 - 1);
        lemma_cursor_props(ti, j2);
        let prev_beat = cursor_beat(ti, j2 - 1);
        let this_beat = cursor_beat(ti, j2);
        assert(this_beat >= prev_beat) by {
            if j2 - 1 > 0 {
                assert(ti.changes@[j2 - 2].beat_micro <= ti.changes@[j2 - 1].beat_micro);
                assert(ti.changes@[j2 - 2].beat_micro * 48 <= ti.changes@[j2 - 1].beat_micro * 48)
                    by (nonlinear_arith)
                    requires
                        ti.changes@[j2 - 2].beat_micro <= ti.changes@[j2 - 1].beat_micro,
                ;
            } else {
                assert(ti.changes@[j2 - 1].beat_micro * 48 >= 0) by (nonlinear_arith)
                    requires
                        ti.changes@[j2 - 1].beat_micro >= 0,
                ;
            }
        }
        lemma_seg_time_props(this_beat - prev_beat, seg_bpm(ti, j2 - 1));
    }
}

/// Pin the segment scan's answer from its characteristic conditions.
proof fn lemma_seg_of_found(ti: TimingInfo, pos: int, i: int, j: int)
    requires
        0 <= i <= j <= ti.changes@.len(),
        forall|k: int| i <= k < j ==> pos >= change_microticks(ti.changes@[k]),
        j < ti.changes@.len() ==> pos < change_microticks(ti.changes@[j]),
    ensures
        seg_of_from(ti, pos, i) == j,
    decreases j - i,
{
    if i < j {
        lemma_seg_of_found(ti, pos, i + 1, j);
    }
}

/// What holds of the segment the scan picks.
proof fn lemma_seg_of_props(ti: TimingInfo, pos: int, i: int)
    requires
        0 <= i,
    ensures
        i <= ti.changes@.len() ==> i <= seg_of_from(ti, pos, i) <= ti.changes@.len(),
        forall|k: int|
            i <= k < seg_of_from(ti, pos, i) ==> pos >= change_microticks(ti.changes@[k]),
        seg_of_from(ti, pos, i) < ti.changes@.len() ==> pos < change_microticks(
            ti.changes@[seg_of_from(ti, pos, i)],
        ),
    decreases ti.changes@.len() - i,
{
    if i < ti.changes@.len() && pos >= change_microticks(ti.changes@[i]) {
        lemma_seg_of_props(ti, pos, i + 1);
    }
}

/// A position inside segment `j` is at or past the segment's cursor.
proof fn lemma_pos_ge_cursor(ti: TimingInfo, pos: int, j: int)
    requires
        ti.wf(),
        pos >= 0,
        j == seg_of_from(ti, pos, 0),
    ensures
        pos >= cursor_beat(ti, j),
{
    lemma_seg_of_props(ti, pos, 0);
    if j > 0 {
        assert(pos >= change_microticks(ti.changes@[j - 1]));
    }
}

/// The elapsed time at a tick never decreases as the tick grows: later
/// chart positions are later in time.
proof fn lemma_tick_ns_mono(ti: TimingInfo, t1: u64, t2: u64)
    requires
        ti.wf(),
        t1 <= t2,
    ensures
        0 <= spec_tick_ns(ti, t1) <= spec_tick_ns(ti, t2),
{
    let pos1 = tick_microticks(t1);
    let pos2 = tick_microticks(t2);
    assert(0 <= pos1 <= pos2) by (nonlinear_arith)
        requires
            t1 <= t2,
            pos1 == t1 * 1_000_000,
            pos2 == t2 * 1_000_000,
    ;
    let j1 = seg_of_from(ti, pos1, 0);
    let j2 = seg_of_from(ti, pos2, 0);
    lemma_seg_of_props(ti, pos1, 0);
    lemma_seg_of_props(ti, pos2, 0);
    lemma_pos_ge_cursor(ti, pos1, j1);
    lemma_pos_ge_cursor(ti, pos2, j2);
    lemma_cursor_props(ti, j1);
    lemma_cursor_props(ti, j2);
    lemma_seg_time_props(pos1 - cursor_beat(ti, j1), seg_bpm(ti, j1));
    lemma_seg_time_props(pos2 - cursor_beat(ti, j2), seg_bpm(ti, j2));
    assert(j1 <= j2) by {
        if j1 > j2 {
            // Then change j2 exists (j2 < j1 <= len) and pos2 < change(j2)
            // while pos1 >= change(j2), contradicting pos1 <= pos2.
            assert(pos1 >= change_microticks(ti.changes@[j2]));
        }
    }
    if j1 == j2 {
        lemma_seg_time_mono(pos1 - cursor_beat(ti, j1), pos2 - cursor_beat(ti, j1), seg_bpm(
            ti,
            j1,
        ));
    } else {
        // Up to the end of segment j1, then across whole segments, then into
        // segment j2.
        assert(pos1 < change_microticks(ti.changes@[j1]));
        lemma_seg_time_mono(
            pos1 - cursor_beat(ti, j1),
            change_microticks(ti.changes@[j1]) - cursor_beat(ti, j1),
            seg_bpm(ti, j1),
        );
        assert(cursor_ns(ti, j1 + 1) == cursor_ns(ti, j1) + seg_time_ns(
            change_microticks(ti.changes@[j1]) - cursor_beat(ti, j1),
            seg_bpm(ti, j1),
        ));
        lemma_cursor_mono(ti, j1 + 1, j2);
    }
}

/// Later ticks convert to at-least-as-late microsecond values.
pub proof fn lemma_tick_us_mono(ti: TimingInfo, t1: u64, t2: u64)
    requires
        ti.wf(),
        t1 <= t2,
    ensures
        spec_tick_us(ti, t1) <= spec_tick_us(ti, t2),
{
    lemma_tick_ns_mono(ti, t1, t2);
    let ns1 = spec_tick_ns(ti, t1);
    let ns2 = spec_tick_ns(ti, t2);
    assert(ns1 / 1000 <= ns2 / 1000) by (nonlinear_arith)
        requires
            0 <= ns1 <= ns2,
    ;
}

/// One tick's conversion: the cursor's time plus the linear remainder,
/// truncated to microseconds and clipped into `u64`.
fn tick_time_us(cursor_ns_e: i128, cursor_beat_e: i128, bpm: i64, tick: u64) -> (r: u64)
    requires
        bpm >= 1,
        0 <= cursor_beat_e <= tick_microticks(tick),
        0 <= cursor_ns_e <= cursor_beat_e * 1_250_000_000,
    ensures
        ({
            let ns = cursor_ns_e + seg_time_ns(tick_microticks(tick) - cursor_beat_e, bpm as int);
            r == if ns / 1000 > u64::MAX {
                u64::MAX
            } else {
                (ns / 1000) as u64
            }
        }),
{
    let pos = (tick as i128) * 1_000_000;
    let delta = pos - cursor_beat_e;
    proof {
        assert(pos <= 0x10000000000000000_0000000000000000) by (nonlinear_arith)
            requires
                pos == (tick as i128) * 1_000_000,
                tick <= u64::MAX,
        ;
        assert(0 <= delta * 1_250_000_000
            <= 0x10000000000000000_0000000000000000_0000000000 as int) by (nonlinear_arith)
            requires
                0 <= delta <= 0x10000000000000000_0000000000000000,
        ;
        lemma_seg_time_props(delta as int, bpm as int);
        assert(cursor_beat_e * 1_250_000_000
            <= 0x10000000000000000_0000000000000000_0000000000 as int) by (nonlinear_arith)
            requires
                0 <= cursor_beat_e <= 0x10000000000000000_0000000000000000,
        ;
    }
    let time = delta * 1_250_000_000 / (bpm as i128);
    let ns = cursor_ns_e + time;
    let us = ns / 1000;
    if us > u64::MAX as i128 {
        u64::MAX
    } else {
        us as u64
    }
}

impl TimingInfo {
    /// Convert a sorted tick list to elapsed microseconds by one walk down
    /// the change list. The output has one value per tick, each the clipped
    /// microsecond time of its tick, and is itself sorted.
    #[verifier::loop_isolation(false)]
    pub fn ticks_to_seconds(&self, ticks: &Vec<u64>) -> (r: Vec<u64>)
        requires
            self.wf(),
            sorted(ticks@),
        ensures
            r@.len() == ticks@.len(),
            forall|i: int| 0 <= i < r@.len() ==> r@[i] == spec_tick_us(*self, ticks@[i]),
            sorted(r@),
    {
        let m = self.changes.len();
        let n = ticks.len();
        let mut out: Vec<u64> = Vec::new();
        let mut ticks_i: usize = 0;
        let mut cursor_beat_e: i128 = 0;
        let mut cursor_ns_e: i128 = 0;
        let mut bpm: i64 = self.first_bpm_micro;
        let mut ci: usize = 0;
        proof {
            lemma_cursor_props(*self, 0);
        }
        while ci < m
            invariant
                0 <= ci <= m,
                0 <= ticks_i <= n,
                cursor_beat_e == cursor_beat(*self, ci as int),
                cursor_ns_e == cursor_ns(*self, ci as int),
                bpm == seg_bpm(*self, ci as int),
                out@.len() == ticks_i,
                forall|k: int|
                    0 <= k < ticks_i ==> out@[k] == spec_tick_us(*self, ticks@[k]),
                forall|k: int|
                    ticks_i <= k < n ==> tick_microticks(ticks@[k]) >= cursor_beat(
                        *self,
                        ci as int,
                    ),
            decreases m - ci,
        {
            let cb_i64 = self.changes[ci].beat_micro;
            let cb = (cb_i64 as i128) * 48;
            proof {
                lemma_cursor_props(*self, ci as int);
                lemma_cursor_props(*self, ci + 1);
            }
            while ticks_i < n && (ticks[ticks_i] as i128) * 1_000_000 < cb
                invariant
                    0 <= ticks_i <= n,
                    cb == change_microticks(self.changes@[ci as int]),
                    out@.len() == ticks_i,
                    forall|k: int|
                        0 <= k < ticks_i ==> out@[k] == spec_tick_us(*self, ticks@[k]),
                    forall|k: int|
                        ticks_i <= k < n ==> tick_microticks(ticks@[k]) >= cursor_beat(
                            *self,
                            ci as int,
                        ),
                decreases n - ticks_i,
            {
                let tick = ticks[ticks_i];
                proof {
                    assert forall|k: int| 0 <= k < ci implies tick_microticks(ticks@[ticks_i as int])
                        >= change_microticks(self.changes@[k]) by {
                        if k < ci {
                            assert(self.changes@[k].beat_micro <= self.changes@[ci as int - 0]
                                .beat_micro);
                            if ci as int - 1 >= 0 {
                                assert(self.changes@[k].beat_micro
                                    <= self.changes@[ci - 1].beat_micro);
                                assert(self.changes@[k].beat_micro * 48
                                    <= self.changes@[ci - 1].beat_micro * 48) by (nonlinear_arith)
                                    requires
                                        self.changes@[k].beat_micro
                                            <= self.changes@[ci - 1].beat_micro,
                                ;
                            }
                        }
                    }
                    lemma_seg_of_found(*self, tick_microticks(tick), 0, ci as int);
                }
                let us = tick_time_us(cursor_ns_e, cursor_beat_e, bpm, tick);
                out.push(us);
                ticks_i += 1;
            }
            proof {
                assert forall|k: int| ticks_i <= k < n implies tick_microticks(ticks@[k])
                    >= cursor_beat(*self, ci + 1) by {
                    if ticks_i < n {
                        assert(ticks@[ticks_i as int] <= ticks@[k]);
                        assert(tick_microticks(ticks@[ticks_i as int]) <= tick_microticks(
                            ticks@[k],
                        )) by (nonlinear_arith)
                            requires
                                ticks@[ticks_i as int] <= ticks@[k],
                        ;
                    }
                }
            }
            cursor_ns_e = cursor_ns_e + (cb - cursor_beat_e) * 1_250_000_000 / (bpm as i128);
            proof {
                lemma_seg_time_props(
                    cb - cursor_beat_e as int,
                    seg_bpm(*self, ci as int),
                );
            }
            cursor_beat_e = cb;
            bpm = self.changes[ci].bpm_micro;
            ci += 1;
        }
        while ticks_i < n
            invariant
                0 <= ticks_i <= n,
                ci == m,
                out@.len() == ticks_i,
                forall|k: int|
                    0 <= k < ticks_i ==> out@[k] == spec_tick_us(*self, ticks@[k]),
                forall|k: int|
                    ticks_i <= k < n ==> tick_microticks(ticks@[k]) >= cursor_beat(
                        *self,
                        ci as int,
                    ),
            decreases n - ticks_i,
        {
            let tick = ticks[ticks_i];
            proof {
                lemma_cursor_props(*self, m as int);
                assert forall|k: int| 0 <= k < m implies tick_microticks(ticks@[ticks_i as int])
                    >= change_microticks(self.changes@[k]) by {
                    if m >= 1 {
                        assert(self.changes@[k].beat_micro <= self.changes@[m - 1].beat_micro);
                        assert(self.changes@[k].beat_micro * 48 <= self.changes@[m - 1].beat_micro
                            * 48) by (nonlinear_arith)
                            requires
                                self.changes@[k].beat_micro <= self.changes@[m - 1].beat_micro,
                        ;
                    }
                }
                lemma_seg_of_found(*self, tick_microticks(tick), 0, m as int);
            }
            let us = tick_time_us(cursor_ns_e, cursor_beat_e, bpm, tick);
            out.push(us);
            ticks_i += 1;
        }
        proof {
            assert forall|a: int, b: int| 0 <= a <= b < out@.len() implies out@[a] <= out@[b] by {
                lemma_tick_us_mono(*self, ticks@[a], ticks@[b]);
            }
        }
        out
    }
}


/// Pointwise reading of `parse_all_pairs`: it succeeds exactly when every
/// field parses, and then gives each field's pair in order.
proof fn lemma_parse_all_pointwise(fields: Seq<Seq<u8>>)
    ensures
        parse_all_pairs(fields) is Some <==> (forall|i: int|
            0 <= i < fields.len() ==> parse_pair(#[trigger] fields[i]) is Some),
        parse_all_pairs(fields) is Some ==> parse_all_pairs(fields).unwrap().len()
            == fields.len(),
        parse_all_pairs(fields) is Some ==> forall|i: int|
            0 <= i < fields.len() ==> parse_all_pairs(fields).unwrap()[i] == parse_pair(
                #[trigger] fields[i],
            ).unwrap(),
    decreases fields.len(),
{
    if fields.len() > 0 {
        let d = fields.drop_last();
        lemma_parse_all_pointwise(d);
        assert(forall|i: int| 0 <= i < fields.len() - 1 ==> #[trigger] d[i] == fields[i]);
        assert(fields.last() == fields[fields.len() - 1]);
        if parse_all_pairs(d) is Some && parse_pair(fields.last()) is Some {
            let rest = parse_all_pairs(d).unwrap();
            let p = parse_pair(fields.last()).unwrap();
            assert(parse_all_pairs(fields) == Some(rest + seq![p]));
            assert forall|i: int| 0 <= i < fields.len() implies parse_all_pairs(
                fields,
            ).unwrap()[i] == parse_pair(#[trigger] fields[i]).unwrap() by {
                if i < fields.len() - 1 {
                    assert((rest + seq![p])[i] == rest[i]);
                    assert(parse_pair(d[i]) is Some);
                } else {
                    assert((rest + seq![p])[i] == p);
                }
            }
            assert forall|i: int| 0 <= i < fields.len() implies parse_pair(
                #[trigger] fields[i],
            ) is Some by {
                if i < fields.len() - 1 {
                    assert(parse_pair(d[i]) is Some);
                }
            }
        } else {
            assert(parse_all_pairs(fields) is None);
            if parse_pair(fields.last()) is Some {
                assert(parse_all_pairs(d) is None);
                assert(!(forall|i: int| 0 <= i < d.len() ==> parse_pair(#[trigger] d[i]) is Some));
                let w = choose|i: int| 0 <= i < d.len() && !(parse_pair(#[trigger] d[i]) is Some);
                assert(!(parse_pair(fields[w]) is Some));
            }
        }
    }
}

/// The insertion step inserts exactly at the boundary index.
proof fn lemma_sorted_insert_at(s: Seq<(i64, i64)>, x: (i64, i64), k: int)
    requires
        0 <= k <= s.len(),
        forall|i: int| 0 <= i < k ==> (#[trigger] s[i]).0 <= x.0,
        forall|i: int| k <= i < s.len() ==> (#[trigger] s[i]).0 > x.0,
    ensures
        sorted_insert(s, x) == s.insert(k, x),
    decreases s.len(),
{
    if s.len() == 0 {
        assert(sorted_insert(s, x) =~= s.insert(0, x));
    } else if s.last().0 <= x.0 {
        assert(k == s.len());
        assert(sorted_insert(s, x) =~= s.insert(k, x));
    } else {
        let d = s.drop_last();
        assert(forall|i: int| 0 <= i < d.len() ==> #[trigger] d[i] == s[i]);
        lemma_sorted_insert_at(d, x, k);
        assert(sorted_insert(s, x) =~= s.insert(k, x));
    }
}

impl TimingInfo {
    /// Parse a comma-separated `beat=bpm` list: trim and read each pair,
    /// order by beat (equal beats keep input order, then collapse to their
    /// last entry, leaving strictly increasing beats), take the beat-zero
    /// entry as the opening tempo and the rest as the change list.
    /// Malformed exactly when a pair lacks an equals sign, a number does
    /// not parse, or the earliest beat is not zero. Tempos are taken as
    /// written; `is_wf` tells whether the map can drive conversion.
    #[verifier::loop_isolation(false)]
    #[verifier::rlimit(100)]
    pub fn from_sm_bpm_string(string: &[u8]) -> (r: Result<TimingInfo, MalformedTimingData>)
        requires
            string@.len() < usize::MAX,
        ensures
            match r {
                Ok(ti) => ti.beats_wf() && (forall|i: int, j: int|
                    0 <= i < j < ti.changes@.len() ==> (#[trigger] ti.changes@[i]).beat_micro < (
                    #[trigger] ti.changes@[j]).beat_micro) && spec_from_bpm_string(string@)
                    == Some((ti.first_bpm_micro, ti.pairs())),
                Err(_) => spec_from_bpm_string(string@) is None,
            },
    {
        let n = string.len();
        let ghost fields = split_commas(string@);
        let mut pairs: Vec<(i64, i64)> = Vec::new();
        let ghost mut fi: int = 0;
        let mut pos: usize = 0;
        proof {
            assert(string@.subrange(0, n as int) =~= string@);
            assert(fields.subrange(0, fields.len() as int) =~= fields);
        }
        while pos <= n
            invariant
                0 <= pos <= n + 1,
                0 <= fi <= fields.len(),
                pairs@.len() == fi,
                forall|i: int| 0 <= i < fi ==> parse_pair(#[trigger] fields[i]) is Some,
                forall|i: int|
                    0 <= i < fi ==> pairs@[i] == parse_pair(#[trigger] fields[i]).unwrap(),
                pos <= n ==> fields.subrange(fi, fields.len() as int) == split_commas(
                    string@.subrange(pos as int, n as int),
                ),
                pos == n + 1 ==> fi == fields.len(),
            decreases n + 1 - pos,
        {
            let ghost suffix = string@.subrange(pos as int, n as int);
            // Find the end of this field.
            let mut e: usize = pos;
            while e < n && string[e] != 44
                invariant
                    pos <= e <= n,
                    forall|k: int| pos <= k < e ==> string@[k] != 44,
                decreases n - e,
            {
                e += 1;
            }
            proof {
                assert(forall|k: int|
                    0 <= k < suffix.len() ==> #[trigger] suffix[k] == string@[pos + k]);
                lemma_find_byte_found(suffix, 44, 0, e - pos as int);
                assert(suffix.take(e - pos as int) =~= string@.subrange(pos as int, e as int));
                if e < n {
                    assert(suffix.subrange(e - pos + 1, suffix.len() as int) =~= string@.subrange(
                        e + 1,
                        n as int,
                    ));
                    assert(split_commas(suffix) == seq![suffix.take(e - pos as int)]
                        + split_commas(string@.subrange(e + 1, n as int)));
                } else {
                    assert(suffix.take(e - pos as int) =~= suffix);
                    assert(split_commas(suffix) == seq![suffix]);
                }
                assert(fields.subrange(fi, fields.len() as int)[0] == fields[fi]);
                assert(split_commas(suffix)[0] == suffix.take(e - pos as int));
                assert(fields[fi] == string@.subrange(pos as int, e as int));
            }
            let field = &string[pos..e];
            let ghost fseq = string@.subrange(pos as int, e as int);
            // Find the equals sign inside the field.
            let mut eq: usize = 0;
            let flen = e - pos;
            while eq < flen && field[eq] != 61
                invariant
                    0 <= eq <= flen,
                    field@ == fseq,
                    flen == fseq.len(),
                    forall|k: int| 0 <= k < eq ==> fseq[k] != 61,
                decreases flen - eq,
            {
                eq += 1;
            }
            proof {
                lemma_find_byte_found(fseq, 61, 0, eq as int);
            }
            if eq == flen {
                proof {
                    lemma_parse_all_pointwise(fields);
                }
                return Err(MalformedTimingData);
            }
            let beat_b = trim_bstr(&field[0..eq]);
            let bpm_b = trim_bstr(&field[eq + 1..flen]);
            proof {
                assert(field@.subrange(0, eq as int) =~= fseq.take(eq as int));
                assert(field@.subrange(eq + 1, flen as int) =~= fseq.subrange(
                    eq + 1,
                    fseq.len() as int,
                ));
            }
            let beat = match parse_decimal_micro(beat_b.as_slice()) {
                Some(v) => v,
                None => {
                    proof {
                        lemma_parse_all_pointwise(fields);
                    }
                    return Err(MalformedTimingData);
                },
            };
            let bpm = match parse_decimal_micro(bpm_b.as_slice()) {
                Some(v) => v,
                None => {
                    proof {
                        lemma_parse_all_pointwise(fields);
                    }
                    return Err(MalformedTimingData);
                },
            };
            pairs.push((beat, bpm));
            proof {
                assert(parse_pair(fields[fi]) == Some((beat, bpm)));
                fi = fi + 1;
                if e < n {
                    assert(fields.subrange(fi, fields.len() as int) == split_commas(
                        string@.subrange(e + 1, n as int),
                    )) by {
                        assert(split_commas(suffix) == seq![fseq] + split_commas(
                            string@.subrange(e + 1, n as int),
                        ));
                        assert(fields.subrange(fi - 1, fields.len() as int).drop_first()
                            =~= fields.subrange(fi, fields.len() as int));
                        assert((seq![fseq] + split_commas(string@.subrange(e + 1, n as int)))
                            .drop_first() =~= split_commas(string@.subrange(e + 1, n as int)));
                    }
                } else {
                    assert(split_commas(suffix) =~= seq![fseq]);
                    assert(fi == fields.len());
                }
            }
            pos = e + 1;
        }
        proof {
            lemma_parse_all_pointwise(fields);
            assert(parse_all_pairs(fields) is Some);
            let all = parse_all_pairs(fields).unwrap();
            assert forall|i: int| 0 <= i < all.len() implies all[i] == pairs@[i] by {
                assert(all[i] == parse_pair(fields[i]).unwrap());
                assert(pairs@[i] == parse_pair(fields[i]).unwrap());
            }
            assert(all =~= pairs@);
        }
        // Order the pairs by beat, keeping equal beats in input order.
        let np = pairs.len();
        let mut ordered: Vec<(i64, i64)> = Vec::new();
        let mut i: usize = 0;
        while i < np
            invariant
                0 <= i <= np == pairs@.len(),
                ordered@ == stable_sort_by_beat(pairs@.take(i as int)),
                ordered@.len() == i,
                beats_sorted(ordered@),
            decreases np - i,
        {
            let x = pairs[i];
            // Scan from the end for the insertion point.
            let mut k: usize = ordered.len();
            while k > 0 && ordered[k - 1].0 > x.0
                invariant
                    0 <= k <= ordered@.len(),
                    forall|t: int| k <= t < ordered@.len() ==> (#[trigger] ordered@[t]).0 > x.0,
                decreases k,
            {
                k -= 1;
            }
            proof {
                assert(forall|t: int| 0 <= t < k ==> (#[trigger] ordered@[t]).0 <= x.0) by {
                    if k > 0 {
                        assert(ordered@[k - 1].0 <= x.0);
                        assert(forall|t: int|
                            0 <= t < k ==> (#[trigger] ordered@[t]).0 <= ordered@[k - 1].0);
                    }
                }
                lemma_sorted_insert_at(ordered@, x, k as int);
                assert(pairs@.take(i + 1).drop_last() =~= pairs@.take(i as int));
                assert(pairs@.take(i + 1).last() == pairs@[i as int]);
            }
            ordered.insert(k, x);
            i += 1;
        }
        proof {
            assert(pairs@.take(np as int) =~= pairs@);
            lemma_dedup_props(ordered@);
        }
        // Collapse runs of equal beats, keeping each run's last entry.
        let mut deduped: Vec<(i64, i64)> = Vec::new();
        let mut t: usize = 0;
        let no = ordered.len();
        proof {
            assert(ordered@.subrange(0, no as int) =~= ordered@);
        }
        while t < no
            invariant
                0 <= t <= no == ordered@.len(),
                dedup_by_beat(ordered@) == deduped@ + dedup_by_beat(
                    ordered@.subrange(t as int, no as int),
                ),
            decreases no - t,
        {
            let ghost suf = ordered@.subrange(t as int, no as int);
            proof {
                assert(suf[0] == ordered@[t as int]);
                if t + 1 < no {
                    assert(suf.drop_first() =~= ordered@.subrange(t + 1, no as int));
                    assert(suf[1] == ordered@[t + 1]);
                } else {
                    assert(suf =~= seq![ordered@[t as int]]);
                    assert(suf.drop_first() =~= ordered@.subrange(t + 1, no as int));
                }
            }
            let keep = if t + 1 < no {
                ordered[t].0 != ordered[t + 1].0
            } else {
                true
            };
            if keep {
                deduped.push(ordered[t]);
                proof {
                    if suf.len() > 1 {
                        assert(dedup_by_beat(suf) == seq![suf[0]] + dedup_by_beat(
                            suf.drop_first(),
                        ));
                    } else {
                        assert(dedup_by_beat(suf) == suf);
                        assert(suf =~= seq![suf[0]] + dedup_by_beat(suf.drop_first()));
                    }
                    assert(deduped@ + dedup_by_beat(ordered@.subrange(t + 1, no as int))
                        =~= deduped@.drop_last() + dedup_by_beat(suf));
                }
            } else {
                proof {
                    assert(dedup_by_beat(suf) == dedup_by_beat(suf.drop_first()));
                }
            }
            t += 1;
        }
        proof {
            assert(ordered@.subrange(no as int, no as int) =~= Seq::<(i64, i64)>::empty());
            assert(dedup_by_beat(ordered@) =~= deduped@);
        }
        if deduped.len() == 0 {
            return Err(MalformedTimingData);
        }
        let anchor = deduped[0];
        if anchor.0 != 0 {
            return Err(MalformedTimingData);
        }
        let first_bpm_micro = anchor.1;
        // The entries after the beat-zero anchor become the change list.
        let mut changes: Vec<BpmChange> = Vec::new();
        let mut j: usize = 1;
        let nd = deduped.len();
        while j < nd
            invariant
                1 <= j <= nd == deduped@.len(),
                changes@.len() == j - 1,
                forall|t2: int|
                    0 <= t2 < j - 1 ==> (#[trigger] changes@[t2]).beat_micro == deduped@[t2 + 1].0
                        && changes@[t2].bpm_micro == deduped@[t2 + 1].1,
            decreases nd - j,
        {
            let p = deduped[j];
            changes.push(BpmChange { beat_micro: p.0, bpm_micro: p.1 });
            j += 1;
        }
        let ti = TimingInfo { first_bpm_micro, changes };
        proof {
            let dd = dedup_by_beat(stable_sort_by_beat(pairs@));
            assert(dd == deduped@);
            assert(ti.pairs() =~= dd.subrange(1, dd.len() as int));
            assert(forall|t2: int|
                0 <= t2 < ti.changes@.len() ==> (#[trigger] ti.changes@[t2]).beat_micro
                    == deduped@[t2 + 1].0 && ti.changes@[t2].bpm_micro == deduped@[t2 + 1].1);
            assert(ti.beats_wf());
            assert(forall|i: int, j2: int|
                0 <= i < j2 < ti.changes@.len() ==> (#[trigger] ti.changes@[i]).beat_micro < (
                #[trigger] ti.changes@[j2]).beat_micro);
        }
        Ok(ti)
    }
}

} // verus!
