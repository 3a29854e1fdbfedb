//! Per-replay statistics: the replay-log parser, offset histograms, the
//! fastest-window searches, one replay's full analysis and the batch
//! reduction over many replays.
//!
//! Wife points are scaled to a maximum of one point, in millionths.

use vstd::prelude::*;

use crate::ratio::{rat_ge, rat_gt, Ratio, RAT_DEN_BOUND, RAT_NUM_BOUND};
use crate::timing_info::{spec_tick_us, TimingInfo};
use crate::wife::Wife;
use crate::util::{
    all_digits, digits_val, find_byte, lemma_find_byte_found, lemma_sort_u64_len, sort_u64,
    sort_ticks, sorted,
    spec_parse_decimal_micro, spec_split_newlines, parse_decimal_micro, split_newlines,
};

verus! {

/// Half-width of the offset histogram in milliseconds: buckets span
/// -180 ms to +180 ms.
pub const OFFSET_BUCKET_RANGE: u64 = 180;

/// Number of histogram buckets.
pub const NUM_OFFSET_BUCKETS: u64 = 361;

/// Supported magnitude of a note or hit time, in microseconds (about six
/// days). Times beyond it yield no speed records.
pub const MAX_TIME_MICROS: i64 = 549_755_813_888;

/// Supported note count of one replay for the speed searches.
pub const MAX_NOTES: usize = 1_048_576;

/// Supported playback rate, in millionths (an eight-times rate).
pub const MAX_RATE_MICRO: u64 = 8_000_000;

/// Relies on btoi::btou for u64: a non-empty all-decimal-digit string parses
/// to its base-ten value; empty, non-digit or overflowing input is an error.
#[verifier::external_body]
fn btou_u64(bytes: &[u8]) -> (r: Option<u64>)
    ensures
        r == (if bytes@.len() > 0 && all_digits(bytes@) && digits_val(bytes@) <= u64::MAX {
            Some(digits_val(bytes@) as u64)
        } else {
            Option::<u64>::None
        }),
{
    btoi::btou(bytes).ok()
}

/// Parse a replay deviation field: a plain decimal in seconds, yielding
/// microseconds.
pub fn parse_sm_float(string: &[u8]) -> (r: Option<i64>)
    ensures
        r == spec_parse_decimal_micro(string@),
{
    parse_decimal_micro(string)
}

/// One parsed replay event: tick, deviation in microseconds, column.
pub type ReplayEvent = (u64, i64, u8);

/// What one line denotes: skipped when it is blank, a header, lacks its
/// three fields, has a malformed tick or deviation, or is not an ordinary
/// tap (note kind one).
pub open spec fn parse_event(line: Seq<u8>) -> Option<ReplayEvent> {
    if line.len() == 0 || line[0] == 72 {
        Option::None
    } else {
        let sp1 = find_byte(line, 32, 0);
        let sp2 = find_byte(line, 32, sp1 + 1);
        if sp1 >= line.len() || sp2 >= line.len() {
            Option::None
        } else {
            let tick_b = line.take(sp1);
            let dev_b = line.subrange(sp1 + 1, sp2);
            let rem = line.subrange(sp2 + 1, line.len() as int);
            if !(tick_b.len() > 0 && all_digits(tick_b) && digits_val(tick_b) <= u64::MAX) {
                Option::None
            } else if spec_parse_decimal_micro(dev_b) is None {
                Option::None
            } else if rem.len() == 0 {
                Option::None
            } else {
                let column = ((rem[0] - 48) % 256) as u8;
                let kind = if rem.len() >= 3 {
                    ((rem[2] - 48) % 256) as u8
                } else {
                    1u8
                };
                if kind != 1 {
                    Option::None
                } else {
                    Option::Some(
                        (
                            digits_val(tick_b) as u64,
                            spec_parse_decimal_micro(dev_b).unwrap(),
                            column,
                        ),
                    )
                }
            }
        }
    }
}

/// The events of the given line ranges, in order, skipped lines omitted.
pub open spec fn events_of(bytes: Seq<u8>, lines: Seq<(int, int)>) -> Seq<ReplayEvent>
    decreases lines.len(),
{
    if lines.len() == 0 {
        Seq::empty()
    } else {
        events_of(bytes, lines.drop_last()) + (
        match parse_event(bytes.subrange(lines.last().0, lines.last().1)) {
            Option::Some(e) => seq![e],
            Option::None => Seq::empty(),
        })
    }
}

/// All events of a replay log, under the minimum-line-length split.
pub open spec fn replay_events(bytes: Seq<u8>) -> Seq<ReplayEvent> {
    events_of(bytes, spec_split_newlines(bytes, 5, 0))
}

/// Parse one line into an event, following `parse_event` exactly.
#[verifier::loop_isolation(false)]
fn parse_event_line(line: &[u8]) -> (r: Option<ReplayEvent>)
    ensures
        r == parse_event(line@),
{
    let n = line.len();
    if n == 0 || line[0] == 72 {
        return None;
    }
    let mut sp1: usize = 0;
    while sp1 < n && line[sp1] != 32
        invariant
            0 <= sp1 <= n,
            forall|k: int| 0 <= k < sp1 ==> line@[k] != 32,
        decreases n - sp1,
    {
        sp1 += 1;
    }
    proof {
        lemma_find_byte_found(line@, 32, 0, sp1 as int);
    }
    if sp1 == n {
        return None;
    }
    let mut sp2: usize = sp1 + 1;
    while sp2 < n && line[sp2] != 32
        invariant
            sp1 + 1 <= sp2 <= n,
            forall|k: int| sp1 + 1 <= k < sp2 ==> line@[k] != 32,
        decreases n - sp2,
    {
        sp2 += 1;
    }
    proof {
        lemma_find_byte_found(line@, 32, sp1 + 1, sp2 as int);
    }
    if sp2 == n {
        return None;
    }
    let tick = match btou_u64(&line[0..sp1]) {
        Some(v) => v,
        None => {
            proof {
                assert(line@.subrange(0, sp1 as int) =~= line@.take(sp1 as int));
            }
            return None;
        },
    };
    proof {
        assert(line@.subrange(0, sp1 as int) =~= line@.take(sp1 as int));
    }
    let deviation = match parse_sm_float(&line[sp1 + 1..sp2]) {
        Some(v) => v,
        None => {
            return None;
        },
    };
    // The remainder holds the column digit and, when present, the note kind
    // digit two places later.
    let rem_len = n - (sp2 + 1);
    if rem_len == 0 {
        return None;
    }
    let c0 = line[sp2 + 1];
    let column: u8 = if c0 >= 48 {
        c0 - 48
    } else {
        c0 + 208
    };
    proof {
        assert(column == ((line@.subrange(sp2 + 1, n as int)[0] - 48) % 256));
    }
    let kind: u8 = if rem_len >= 3 {
        let c2 = line[sp2 + 3];
        if c2 >= 48 {
            c2 - 48
        } else {
            c2 + 208
        }
    } else {
        1
    };
    proof {
        if rem_len >= 3 {
            assert(kind == ((line@.subrange(sp2 + 1, n as int)[2] - 48) % 256));
        }
    }
    if kind != 1 {
        return None;
    }
    Some((tick, deviation, column))
}

/// Parse a whole replay log into parallel tick, deviation and column lists:
/// one entry per ordinary tap line, in file order.
#[verifier::loop_isolation(false)]
pub fn parse_replay(bytes: &[u8]) -> (r: (Vec<u64>, Vec<i64>, Vec<u8>))
    requires
        bytes@.len() + 5 < usize::MAX,
    ensures
        r.0@.len() == replay_events(bytes@).len(),
        r.1@.len() == replay_events(bytes@).len(),
        r.2@.len() == replay_events(bytes@).len(),
        forall|i: int|
            0 <= i < r.0@.len() ==> (r.0@[i], r.1@[i], r.2@[i]) == replay_events(bytes@)[i],
{
    let ghost all_lines = spec_split_newlines(bytes@, 5, 0);
    let lines = split_newlines(bytes, 5);
    let mut ticks: Vec<u64> = Vec::new();
    let mut deviations: Vec<i64> = Vec::new();
    let mut columns: Vec<u8> = Vec::new();
    let nl = lines.len();
    let mut li: usize = 0;
    while li < nl
        invariant
            0 <= li <= nl == lines@.len(),
            ticks@.len() == deviations@.len() == columns@.len(),
            ticks@.len() == events_of(bytes@, all_lines.take(li as int)).len(),
            forall|i: int|
                0 <= i < ticks@.len() ==> (ticks@[i], deviations@[i], columns@[i]) == events_of(
                    bytes@,
                    all_lines.take(li as int),
                )[i],
        decreases nl - li,
    {
        let (a, b) = lines[li];
        let line = &bytes[a..b];
        let ghost lseq = bytes@.subrange(all_lines[li as int].0, all_lines[li as int].1);
        proof {
            assert(line@ == lseq);
            assert(all_lines.take(li + 1).drop_last() =~= all_lines.take(li as int));
            assert(all_lines.take(li + 1).last() == all_lines[li as int]);
        }
        match parse_event_line(line) {
            Some(e) => {
                ticks.push(e.0);
                deviations.push(e.1);
                columns.push(e.2);
            },
            None => {},
        }
        li += 1;
    }
    proof {
        assert(all_lines.take(nl as int) =~= all_lines);
    }
    (ticks, deviations, columns)
}

/// Signed millisecond offset of a deviation, half values rounded away from
/// zero.
pub open spec fn round_to_ms(d: int) -> int {
    if d >= 0 {
        (d + 500) / 1000
    } else {
        -((-d + 500) / 1000)
    }
}

/// The histogram bucket a deviation falls in, if any.
pub open spec fn bucket_of(d: int) -> Option<int> {
    let idx = round_to_ms(d) + OFFSET_BUCKET_RANGE;
    if 0 <= idx < NUM_OFFSET_BUCKETS {
        Option::Some(idx)
    } else {
        Option::None
    }
}

/// How many of the deviations fall in bucket `k`.
pub open spec fn bucket_count(devs: Seq<i64>, k: int) -> int
    decreases devs.len(),
{
    if devs.len() == 0 {
        0
    } else {
        bucket_count(devs.drop_last(), k) + (
        if bucket_of(devs.last() as int) == Some(k) {
            1int
        } else {
            0int
        })
    }
}

proof fn lemma_bucket_count_le(devs: Seq<i64>, k: int)
    ensures
        0 <= bucket_count(devs, k) <= devs.len(),
    decreases devs.len(),
{
    if devs.len() > 0 {
        lemma_bucket_count_le(devs.drop_last(), k);
    }
}

/// Histogram of deviations at millisecond resolution over ±180 ms;
/// deviations outside the range are not counted.
#[verifier::loop_isolation(false)]
pub fn put_deviations_into_buckets(deviations: &Vec<i64>) -> (r: Vec<u64>)
    requires
        deviations@.len() <= u64::MAX,
    ensures
        r@.len() == NUM_OFFSET_BUCKETS,
        forall|k: int| 0 <= k < NUM_OFFSET_BUCKETS ==> r@[k] == bucket_count(deviations@, k),
{
    let mut offset_buckets: Vec<u64> = Vec::new();
    let mut z: usize = 0;
    while z < 361
        invariant
            offset_buckets@.len() == z <= 361,
            forall|k: int| 0 <= k < z ==> offset_buckets@[k] == 0,
        decreases 361 - z,
    {
        offset_buckets.push(0);
        z += 1;
    }
    let n = deviations.len();
    let mut i: usize = 0;
    while i < n
        invariant
            0 <= i <= n,
            offset_buckets@.len() == NUM_OFFSET_BUCKETS,
            forall|k: int|
                0 <= k < NUM_OFFSET_BUCKETS ==> offset_buckets@[k] == bucket_count(
                    deviations@.take(i as int),
                    k,
                ),
        decreases n - i,
    {
        let d = deviations[i];
        proof {
            assert(deviations@.take(i + 1).drop_last() =~= deviations@.take(i as int));
            assert(deviations@.take(i + 1).last() == deviations@[i as int]);
            lemma_bucket_count_le(deviations@.take(i as int), 0);
        }
        let ms: i64 = if d >= 0 {
            if d > 400_000_000 {
                // Far outside every bucket either way; avoid the overflow.
                400_000
            } else {
                (d + 500) / 1000
            }
        } else {
            if d < -400_000_000 {
                -400_000
            } else {
                -((-d + 500) / 1000)
            }
        };
        proof {
            if d > 400_000_000 {
                assert((d + 500) / 1000 >= 400_000) by (nonlinear_arith)
                    requires
                        d > 400_000_000,
                ;
            }
            if d < -400_000_000 {
                assert((-d + 500) / 1000 >= 400_000) by (nonlinear_arith)
                    requires
                        d < -400_000_000,
                ;
            }
        }
        let idx = ms + 180;
        if idx >= 0 && idx < 361 {
            proof {
                assert(bucket_of(d as int) == Some(idx as int));
                assert forall|k: int| 0 <= k < NUM_OFFSET_BUCKETS implies bucket_count(
                    deviations@.take(i + 1),
                    k,
                ) == bucket_count(deviations@.take(i as int), k) + (if k == idx {
                    1int
                } else {
                    0int
                }) by {
                    lemma_bucket_count_le(deviations@.take(i as int), k);
                }
                assert(bucket_count(deviations@.take(i as int), idx as int) < u64::MAX) by {
                    lemma_bucket_count_le(deviations@.take(i as int), idx as int);
                }
            }
            let old_v = offset_buckets[idx as usize];
            offset_buckets.set(idx as usize, old_v + 1);
        } else {
            proof {
                assert(bucket_of(d as int) is None);
            }
        }
        i += 1;
    }
    proof {
        assert(deviations@.take(n as int) =~= deviations@);
    }
    offset_buckets
}

/// Sum of bucket-value times count over a histogram prefix, the value of
/// bucket `i` being `i - range`.
pub open spec fn hist_value_sum(buckets: Seq<u64>, range: int, i: int) -> int
    decreases i,
{
    if i <= 0 {
        0
    } else {
        hist_value_sum(buckets, range, i - 1) + (i - 1 - range) * buckets[i - 1]
    }
}

/// Total count of a histogram prefix.
pub open spec fn hist_count(buckets: Seq<u64>, i: int) -> int
    decreases i,
{
    if i <= 0 {
        0
    } else {
        hist_count(buckets, i - 1) + buckets[i - 1]
    }
}

/// Sum of count-weighted squared differences from `mean` over a prefix.
pub open spec fn hist_sq_sum(buckets: Seq<u64>, range: int, mean: int, i: int) -> int
    decreases i,
{
    if i <= 0 {
        0
    } else {
        hist_sq_sum(buckets, range, mean, i - 1) + (i - 1 - range - mean) * (i - 1 - range - mean)
            * buckets[i - 1]
    }
}

/// The Bessel-corrected variance of a histogram: squared differences from
/// the mean (the count-weighted value sum over the count, truncated toward
/// zero) over one less than the count. Zero over zero with fewer than two
/// values.
pub open spec fn spec_variance(buckets: Seq<u64>, range: int) -> (int, int) {
    let n = hist_count(buckets, buckets.len() as int);
    if n < 2 {
        (0, 0)
    } else {
        let mean = crate::numeric::div_trunc(hist_value_sum(buckets, range, buckets.len() as int), n);
        (hist_sq_sum(buckets, range, mean, buckets.len() as int), n - 1)
    }
}



/// A speed record: a window's bounds in microseconds, its note count and
/// its rate (notes or points per second) as an exact ratio.
#[derive(Clone, Copy, Debug, PartialEq, Eq, Structural)]
pub struct FastestComboInfo {
    pub start_second: i64,
    pub end_second: i64,
    pub length: u64,
    pub speed: Ratio,
}

impl FastestComboInfo {
    pub open spec fn wf(self) -> bool {
        self.speed.wf()
    }
}

/// Non-decreasing values.
pub open spec fn sorted_i64(s: Seq<i64>) -> bool {
    forall|i: int, j: int| 0 <= i <= j < s.len() ==> s[i] <= s[j]
}

/// All magnitudes within the supported time range.
pub open spec fn times_bounded(s: Seq<i64>) -> bool {
    forall|i: int| 0 <= i < s.len() ==> -MAX_TIME_MICROS <= #[trigger] s[i] <= MAX_TIME_MICROS
}

/// All magnitudes within the curve-point range.
pub open spec fn pts_bounded(s: Seq<i64>) -> bool {
    forall|i: int| 0 <= i < s.len() ==> -4_000_000 <= #[trigger] s[i] <= 4_000_000
}

/// Sum of `s[i..j)`.
pub open spec fn sum_range(s: Seq<i64>, i: int, j: int) -> int
    decreases j - i,
{
    if j <= i {
        0
    } else {
        sum_range(s, i, j - 1) + s[j - 1]
    }
}

proof fn lemma_sum_range_front(s: Seq<i64>, i: int, j: int)
    requires
        0 <= i < j <= s.len(),
    ensures
        sum_range(s, i, j) == s[i] + sum_range(s, i + 1, j),
    decreases j - i,
{
    assert(sum_range(s, i, j) == sum_range(s, i, j - 1) + s[j - 1]);
    if i + 1 < j {
        lemma_sum_range_front(s, i, j - 1);
        assert(sum_range(s, i + 1, j) == sum_range(s, i + 1, j - 1) + s[j - 1]);
    } else {
        assert(sum_range(s, i, i) == 0);
        assert(sum_range(s, i + 1, j) == 0);
    }
}

proof fn lemma_sum_range_bound(s: Seq<i64>, i: int, j: int, b: int)
    requires
        0 <= i <= j <= s.len(),
        b >= 0,
        forall|k: int| i <= k < j ==> -b <= #[trigger] s[k] <= b,
    ensures
        -b * (j - i) <= sum_range(s, i, j) <= b * (j - i),
    decreases j - i,
{
    if i < j {
        lemma_sum_range_bound(s, i, j - 1, b);
        assert(sum_range(s, i, j) == sum_range(s, i, j - 1) + s[j - 1]);
        assert(-b <= s[j - 1] <= b);
        assert(-b * (j - i) == -b * (j - 1 - i) + -b) by (nonlinear_arith);
        assert(b * (j - i) == b * (j - 1 - i) + b) by (nonlinear_arith);
    } else {
        assert(-b * 0 <= 0 <= b * 0) by (nonlinear_arith);
        assert(-b * (j - i) <= 0 <= b * (j - i)) by (nonlinear_arith)
            requires
                b >= 0,
                j == i,
        ;
    }
}

/// The no-window result: zero speed at zero.
pub open spec fn spec_fci_zero() -> FastestComboInfo {
    FastestComboInfo {
        start_second: 0,
        end_second: 0,
        length: 0,
        speed: Ratio { num: 0, den: 1 },
    }
}

/// A note-count rate over a window, in notes per second: a million counts
/// over the window's microseconds.
pub open spec fn window_count_rat(seconds: Seq<i64>, n: int, i: int) -> (int, int) {
    (n * 1_000_000, seconds[i + n] - seconds[i])
}

/// A point-weighted rate over a window, in points per second.
pub open spec fn window_pts_rat(seconds: Seq<i64>, pts: Seq<i64>, n: int, i: int) -> (int, int) {
    (sum_range(pts, i, i + n), seconds[i + n] - seconds[i])
}

/// One candidate window folded into the running best, replacing it on a
/// `>=` comparison so that later, larger windows win ties.
pub open spec fn ffns_step(
    seconds: Seq<i64>,
    pts: Option<Seq<i64>>,
    n: int,
    i: int,
    best: FastestComboInfo,
) -> FastestComboInfo {
    let (num, den) = match pts {
        Option::Some(p) => window_pts_rat(seconds, p, n, i),
        Option::None => window_count_rat(seconds, n, i),
    };
    if rat_ge(num, den, best.speed.num as int, best.speed.den as int) {
        FastestComboInfo {
            start_second: seconds[i],
            end_second: seconds[i + n],
            length: n as u64,
            speed: Ratio { num: num as i128, den: den as i128 },
        }
    } else {
        best
    }
}

/// All windows of size `n` from position `i` on, folded in position order.
pub open spec fn ffns_positions(
    seconds: Seq<i64>,
    pts: Option<Seq<i64>>,
    n: int,
    i: int,
    best: FastestComboInfo,
) -> FastestComboInfo
    decreases seconds.len() - n - i,
{
    if i > seconds.len() - n - 1 || n < 0 || i < 0 {
        best
    } else {
        ffns_positions(seconds, pts, n, i + 1, ffns_step(seconds, pts, n, i, best))
    }
}

/// All window sizes from `n` up to (excluding) `end_n`, folded in size
/// order.
pub open spec fn ffns_sizes(
    seconds: Seq<i64>,
    pts: Option<Seq<i64>>,
    end_n: int,
    n: int,
    best: FastestComboInfo,
) -> FastestComboInfo
    decreases end_n - n,
{
    if n >= end_n {
        best
    } else {
        ffns_sizes(seconds, pts, end_n, n + 1, ffns_positions(seconds, pts, n, 0, best))
    }
}

/// The fastest window of `seconds` over the allowed sizes, under the fold
/// order above; the zero result when the list is no longer than the minimum.
pub open spec fn spec_find_fastest_note_subset(
    seconds: Seq<i64>,
    pts: Option<Seq<i64>>,
    min_num_notes: int,
    max_num_notes: int,
) -> FastestComboInfo {
    if seconds.len() <= min_num_notes {
        spec_fci_zero()
    } else {
        let end_n = if max_num_notes + 1 <= seconds.len() {
            max_num_notes + 1
        } else {
            seconds.len() as int
        };
        ffns_sizes(seconds, pts, end_n, min_num_notes, spec_fci_zero())
    }
}

/// The fastest contiguous note subset by plain note rate, sizes between the
/// given bounds (inclusive), ties resolved toward the later and larger
/// window. The caller scales the rate afterward.
#[verifier::loop_isolation(false)]
pub fn find_fastest_note_subset(seconds: &[i64], min_num_notes: u64, max_num_notes: u64) -> (r:
    FastestComboInfo)
    requires
        sorted_i64(seconds@),
        times_bounded(seconds@),
        seconds@.len() <= MAX_NOTES,
        min_num_notes <= max_num_notes,
    ensures
        r == spec_find_fastest_note_subset(
            seconds@,
            Option::None,
            min_num_notes as int,
            max_num_notes as int,
        ),
        r.wf(),
        speed_small(r),
{
    let mut fastest = FastestComboInfo {
        start_second: 0,
        end_second: 0,
        length: 0,
        speed: Ratio { num: 0, den: 1 },
    };
    let len = seconds.len();
    if len as u64 <= min_num_notes {
        return fastest;
    }
    let ghost spec_r = spec_find_fastest_note_subset(
        seconds@,
        Option::None,
        min_num_notes as int,
        max_num_notes as int,
    );
    let end_n: usize = if max_num_notes >= len as u64 {
        len
    } else {
        (max_num_notes + 1) as usize
    };
    let mut n: usize = min_num_notes as usize;
    while n < end_n
        invariant
            min_num_notes <= n <= end_n,
            fastest.wf(),
            speed_small(fastest),
            spec_r == ffns_sizes(seconds@, Option::None, end_n as int, n as int, fastest),
        decreases end_n - n,
    {
        let mut i: usize = 0;
        while i <= len - n - 1
            invariant
                0 <= i <= len - n,
                n < end_n,
                fastest.wf(),
                speed_small(fastest),
                spec_r == ffns_sizes(
                    seconds@,
                    Option::None,
                    end_n as int,
                    n + 1,
                    ffns_positions(seconds@, Option::None, n as int, i as int, fastest),
                ),
            decreases len - n - i,
        {
            let end_i = i + n;
            let num: i128 = (n as i128) * 1_000_000;
            let den: i128 = (seconds[end_i] as i128) - (seconds[i] as i128);
            proof {
                assert(num <= 1_048_576_000_000_000_000) by (nonlinear_arith)
                    requires
                        0 <= n <= 1_048_576,
                        num == n as i128 * 1_000_000,
                ;
                assert(den >= 0);
            }
            let cand = Ratio { num, den };
            if cand.ge(&fastest.speed) {
                fastest = FastestComboInfo {
                    length: n as u64,
                    start_second: seconds[i],
                    end_second: seconds[end_i],
                    speed: cand,
                };
            }
            i += 1;
        }
        n += 1;
    }
    fastest
}

/// The fastest contiguous note subset by point-weighted rate: the window's
/// curve-point sum per second, maintained as a rolling sum. Same tie rule as
/// the plain search.
#[verifier::loop_isolation(false)]
pub fn find_fastest_note_subset_wife_pts(
    seconds: &[i64],
    min_num_notes: u64,
    max_num_notes: u64,
    wife_pts: &[i64],
) -> (r: FastestComboInfo)
    requires
        sorted_i64(seconds@),
        times_bounded(seconds@),
        seconds@.len() <= MAX_NOTES,
        min_num_notes <= max_num_notes,
        wife_pts@.len() == seconds@.len(),
        pts_bounded(wife_pts@),
    ensures
        r == spec_find_fastest_note_subset(
            seconds@,
            Option::Some(wife_pts@),
            min_num_notes as int,
            max_num_notes as int,
        ),
        r.wf(),
        speed_small(r),
{
    let mut fastest = FastestComboInfo {
        start_second: 0,
        end_second: 0,
        length: 0,
        speed: Ratio { num: 0, den: 1 },
    };
    let len = seconds.len();
    if len as u64 <= min_num_notes {
        return fastest;
    }
    let ghost spec_r = spec_find_fastest_note_subset(
        seconds@,
        Option::Some(wife_pts@),
        min_num_notes as int,
        max_num_notes as int,
    );
    let ghost pts = wife_pts@;
    let end_n: usize = if max_num_notes >= len as u64 {
        len
    } else {
        (max_num_notes + 1) as usize
    };
    // Rolling sum of the first window of the current size.
    let mut wife_pts_sum_start: i64 = 0;
    let mut z: usize = 0;
    let min_n = min_num_notes as usize;
    while z < min_n
        invariant
            0 <= z <= min_n < len,
            wife_pts_sum_start == sum_range(pts, 0, z as int),
            -4_000_000 * z <= wife_pts_sum_start <= 4_000_000 * z,
        decreases min_n - z,
    {
        wife_pts_sum_start = wife_pts_sum_start + wife_pts[z];
        z += 1;
    }
    let mut n: usize = min_n;
    while n < end_n
        invariant
            min_n <= n <= end_n,
            fastest.wf(),
            speed_small(fastest),
            wife_pts_sum_start == sum_range(pts, 0, n as int),
            -4_000_000 * n <= wife_pts_sum_start <= 4_000_000 * n,
            spec_r == ffns_sizes(seconds@, Option::Some(pts), end_n as int, n as int, fastest),
        decreases end_n - n,
    {
        let mut wife_pts_sum: i64 = wife_pts_sum_start;
        let mut i: usize = 0;
        while i <= len - n - 1
            invariant
                0 <= i <= len - n,
                n < end_n,
                fastest.wf(),
                speed_small(fastest),
                wife_pts_sum == sum_range(pts, i as int, i + n),
                -4_000_000 * n <= wife_pts_sum <= 4_000_000 * n,
                spec_r == ffns_sizes(
                    seconds@,
                    Option::Some(pts),
                    end_n as int,
                    n + 1,
                    ffns_positions(seconds@, Option::Some(pts), n as int, i as int, fastest),
                ),
            decreases len - n - i,
        {
            let end_i = i + n;
            let num: i128 = wife_pts_sum as i128;
            let den: i128 = (seconds[end_i] as i128) - (seconds[i] as i128);
            proof {
                assert(num <= RAT_NUM_BOUND && -RAT_NUM_BOUND <= num) by (nonlinear_arith)
                    requires
                        -4_000_000 * (n as i128) <= num <= 4_000_000 * (n as i128),
                        0 <= n <= 1_048_576,
                        RAT_NUM_BOUND == 73_786_976_294_838_206_464,
                ;
                assert(den >= 0);
            }
            let cand = Ratio { num, den };
            if cand.ge(&fastest.speed) {
                fastest = FastestComboInfo {
                    length: n as u64,
                    start_second: seconds[i],
                    end_second: seconds[end_i],
                    speed: cand,
                };
            }
            // Move the window one place forward.
            proof {
                if n > 0 {
                    lemma_sum_range_front(pts, i as int, i + n);
                }
                lemma_sum_range_bound(pts, i as int, i + n, 4_000_000);
                lemma_sum_range_bound(pts, i + 1, i + n + 1, 4_000_000);
                if n > 0 {
                    assert(sum_range(pts, i + 1, i + n + 1) == sum_range(pts, i + 1, i + n)
                        + pts[i + n]);
                } else {
                    assert(sum_range(pts, i + 1, i + n + 1) == 0);
                    assert(sum_range(pts, i as int, i + n) == 0);
                }
            }
            wife_pts_sum = wife_pts_sum - wife_pts[i] + wife_pts[end_i];
            i += 1;
        }
        proof {
            lemma_sum_range_bound(pts, 0, n + 1, 4_000_000);
            assert(sum_range(pts, 0, n + 1) == sum_range(pts, 0, n as int) + pts[n as int]);
        }
        wife_pts_sum_start = wife_pts_sum_start + wife_pts[n];
        n += 1;
    }
    fastest
}


/// Tight numerator/denominator bounds of an unscaled speed record, leaving
/// room for the rate factor.
pub open spec fn speed_small(f: FastestComboInfo) -> bool {
    &&& -4_398_046_511_104 <= f.speed.num <= 4_398_046_511_104
    &&& 0 <= f.speed.den <= 1_099_511_627_776
}

/// The matching window of a point list, when one is present.
pub open spec fn pts_window(pts: Option<Seq<i64>>, a: int, b: int) -> Option<Seq<i64>> {
    match pts {
        Option::Some(p) => Option::Some(p.subrange(a, b)),
        Option::None => Option::None,
    }
}

/// Search one combo-break-free segment and keep the strictly faster of it
/// and the best so far.
pub open spec fn seg_step(
    seconds: Seq<i64>,
    pts: Option<Seq<i64>>,
    min: int,
    max: int,
    a: int,
    b: int,
    best: FastestComboInfo,
) -> FastestComboInfo {
    let cand = spec_find_fastest_note_subset(
        seconds.subrange(a, b),
        pts_window(pts, a, b),
        min,
        max,
    );
    if rat_gt(
        cand.speed.num as int,
        cand.speed.den as int,
        best.speed.num as int,
        best.speed.den as int,
    ) {
        cand
    } else {
        best
    }
}

/// Walk the combo-break flags: a break ends the current segment at its
/// index (the breaking note excluded), the end of the list ends the last
/// segment.
pub open spec fn combo_fold(
    seconds: Seq<i64>,
    are_cbs: Seq<bool>,
    pts: Option<Seq<i64>>,
    min: int,
    max: int,
    i: int,
    start: int,
    best: FastestComboInfo,
) -> FastestComboInfo
    decreases seconds.len() - i,
{
    if i < 0 || i >= seconds.len() {
        seg_step(seconds, pts, min, max, start, seconds.len() as int, best)
    } else if are_cbs[i] {
        combo_fold(
            seconds,
            are_cbs,
            pts,
            min,
            max,
            i + 1,
            i + 1,
            seg_step(seconds, pts, min, max, start, i, best),
        )
    } else {
        combo_fold(seconds, are_cbs, pts, min, max, i + 1, start, best)
    }
}

/// A speed record with its rate applied: the playback rate scales the
/// speed and nothing else.
pub open spec fn scale_by_rate(best: FastestComboInfo, rate: int) -> FastestComboInfo {
    FastestComboInfo {
        start_second: best.start_second,
        end_second: best.end_second,
        length: best.length,
        speed: Ratio { num: (best.speed.num * rate) as i128, den: (best.speed.den * 1_000_000) as i128 },
    }
}

/// The fastest window over all combo-break-free segments, rate applied last.
pub open spec fn spec_find_fastest_combo_in_score(
    seconds: Seq<i64>,
    are_cbs: Seq<bool>,
    pts: Option<Seq<i64>>,
    min: int,
    max: int,
    rate: int,
) -> FastestComboInfo {
    scale_by_rate(combo_fold(seconds, are_cbs, pts, min, max, 0, 0, spec_fci_zero()), rate)
}

/// Search each combo-break-free segment of a score for its fastest window
/// (optionally point-weighted), keep the strictly fastest, and scale the
/// resulting speed by the playback rate.
#[verifier::loop_isolation(false)]
pub fn find_fastest_combo_in_score(
    seconds: &Vec<i64>,
    are_cbs: &Vec<bool>,
    min_num_notes: u64,
    max_num_notes: u64,
    wife_pts: Option<&Vec<i64>>,
    rate_micro: u64,
) -> (r: FastestComboInfo)
    requires
        sorted_i64(seconds@),
        times_bounded(seconds@),
        seconds@.len() <= MAX_NOTES,
        min_num_notes <= max_num_notes,
        are_cbs@.len() == seconds@.len(),
        match wife_pts {
            Some(p) => p@.len() == seconds@.len() && pts_bounded(p@),
            None => true,
        },
        1 <= rate_micro <= MAX_RATE_MICRO,
    ensures
        r == spec_find_fastest_combo_in_score(
            seconds@,
            are_cbs@,
            match wife_pts {
                Some(p) => Option::Some(p@),
                None => Option::<Seq<i64>>::None,
            },
            min_num_notes as int,
            max_num_notes as int,
            rate_micro as int,
        ),
        r.wf(),
{
    let ghost pts = match wife_pts {
        Some(p) => Option::Some(p@),
        None => Option::<Seq<i64>>::None,
    };
    let ghost folded = combo_fold(
        seconds@,
        are_cbs@,
        pts,
        min_num_notes as int,
        max_num_notes as int,
        0,
        0,
        spec_fci_zero(),
    );
    let mut fastest_combo = FastestComboInfo {
        start_second: 0,
        end_second: 0,
        length: 0,
        speed: Ratio { num: 0, den: 1 },
    };
    let n = seconds.len();
    let mut combo_start: usize = 0;
    let mut i: usize = 0;
    while i < n
        invariant
            0 <= combo_start <= i <= n,
            speed_small(fastest_combo),
            fastest_combo.wf(),
            folded == combo_fold(
                seconds@,
                are_cbs@,
                pts,
                min_num_notes as int,
                max_num_notes as int,
                i as int,
                combo_start as int,
                fastest_combo,
            ),
        decreases n - i,
    {
        if are_cbs[i] {
            fastest_combo = search_segment(
                seconds,
                wife_pts,
                combo_start,
                i,
                min_num_notes,
                max_num_notes,
                fastest_combo,
            );
            combo_start = i + 1;
        }
        i += 1;
    }
    fastest_combo = search_segment(
        seconds,
        wife_pts,
        combo_start,
        n,
        min_num_notes,
        max_num_notes,
        fastest_combo,
    );
    proof {
        assert(-35_184_372_088_832_000_000 <= fastest_combo.speed.num * (rate_micro as i128)
            <= 35_184_372_088_832_000_000) by (nonlinear_arith)
            requires
                -4_398_046_511_104 <= fastest_combo.speed.num <= 4_398_046_511_104,
                1 <= rate_micro <= 8_000_000,
        ;
        assert(0 <= fastest_combo.speed.den * 1_000_000 <= 1_152_921_504_606_846_976)
            by (nonlinear_arith)
            requires
                0 <= fastest_combo.speed.den <= 1_099_511_627_776,
        ;
    }
    let num = fastest_combo.speed.num * (rate_micro as i128);
    let den = fastest_combo.speed.den * 1_000_000;
    FastestComboInfo {
        start_second: fastest_combo.start_second,
        end_second: fastest_combo.end_second,
        length: fastest_combo.length,
        speed: Ratio { num, den },
    }
}

/// One segment search: the exec mirror of `seg_step`.
#[verifier::loop_isolation(false)]
fn search_segment(
    seconds: &Vec<i64>,
    wife_pts: Option<&Vec<i64>>,
    a: usize,
    b: usize,
    min_num_notes: u64,
    max_num_notes: u64,
    best: FastestComboInfo,
) -> (r: FastestComboInfo)
    requires
        a <= b <= seconds@.len(),
        sorted_i64(seconds@),
        times_bounded(seconds@),
        seconds@.len() <= MAX_NOTES,
        min_num_notes <= max_num_notes,
        match wife_pts {
            Some(p) => p@.len() == seconds@.len() && pts_bounded(p@),
            None => true,
        },
        speed_small(best),
        best.wf(),
    ensures
        r == seg_step(
            seconds@,
            match wife_pts {
                Some(p) => Option::Some(p@),
                None => Option::<Seq<i64>>::None,
            },
            min_num_notes as int,
            max_num_notes as int,
            a as int,
            b as int,
            best,
        ),
        speed_small(r),
        r.wf(),
{
    let seg = &seconds.as_slice()[a..b];
    proof {
        assert(seg@ == seconds@.subrange(a as int, b as int));
        assert(sorted_i64(seg@));
        assert(times_bounded(seg@));
    }
    let cand = match wife_pts {
        Some(p) => {
            let pseg = &p.as_slice()[a..b];
            proof {
                assert(pseg@ == p@.subrange(a as int, b as int));
                assert(pts_bounded(pseg@));
            }
            find_fastest_note_subset_wife_pts(seg, min_num_notes, max_num_notes, pseg)
        },
        None => find_fastest_note_subset(seg, min_num_notes, max_num_notes),
    };
    if cand.speed.gt(&best.speed) {
        cand
    } else {
        best
    }
}

/// Number of consecutive taps a single-finger speed window spans, less one.
pub const FASTEST_JACK_WINDOW_SIZE: u64 = 30;

/// A jack window's rate: thirty notes over the window's span, the sign
/// moved into the numerator when the span runs backward.
pub open spec fn jack_rat(delta: int) -> (int, int) {
    if delta >= 0 {
        (30_000_000, delta)
    } else {
        (-30_000_000, -delta)
    }
}

/// Fold the fixed-size windows of a finger's hit times, replacing the best
/// only on strict improvement.
pub open spec fn jack_fold(hits: Seq<i64>, i: int, best: FastestComboInfo) -> FastestComboInfo
    decreases hits.len() - i,
{
    if i < 0 || i + 30 >= hits.len() {
        best
    } else {
        let (num, den) = jack_rat(hits[i + 30] - hits[i]);
        let next = if rat_gt(num, den, best.speed.num as int, best.speed.den as int) {
            FastestComboInfo {
                start_second: hits[i],
                end_second: hits[i + 30],
                length: 30u64,
                speed: Ratio { num: num as i128, den: den as i128 },
            }
        } else {
            best
        };
        jack_fold(hits, i + 1, next)
    }
}

/// Scan a finger's hit times with a thirty-note window for the fastest
/// strictly-improving rate.
#[verifier::loop_isolation(false)]
pub fn find_fastest_jack(hits: &Vec<i64>, best: FastestComboInfo) -> (r: FastestComboInfo)
    requires
        times_bounded(hits@),
        hits@.len() <= MAX_NOTES,
        speed_small(best),
        best.wf(),
    ensures
        r == jack_fold(hits@, 0, best),
        speed_small(r),
        r.wf(),
{
    let n = hits.len();
    let mut fastest = best;
    let mut i: usize = 0;
    while i + 30 < n
        invariant
            0 <= i <= n,
            speed_small(fastest),
            fastest.wf(),
            jack_fold(hits@, 0, best) == jack_fold(hits@, i as int, fastest),
        decreases n - i,
    {
        let delta = hits[i + 30] - hits[i];
        let cand = if delta >= 0 {
            Ratio { num: 30_000_000, den: delta as i128 }
        } else {
            Ratio { num: -30_000_000, den: (-delta) as i128 }
        };
        if cand.gt(&fastest.speed) {
            fastest = FastestComboInfo {
                start_second: hits[i],
                end_second: hits[i + 30],
                length: 30,
                speed: cand,
            };
        }
        i += 1;
    }
    fastest
}

/// The Bessel-corrected variance of the millisecond offset histogram, as an
/// exact ratio; its square root is the standard deviation, left to the
/// caller. Zero over zero with fewer than two counted values.
#[verifier::loop_isolation(false)]
pub fn calculate_standard_deviation(offset_buckets: &Vec<u64>, offset_bucket_range: u64) -> (r:
    Ratio)
    requires
        offset_buckets@.len() == 2 * offset_bucket_range + 1,
        1 <= offset_bucket_range <= 100_000,
    ensures
        r.num == spec_variance(offset_buckets@, offset_bucket_range as int).0,
        r.den == spec_variance(offset_buckets@, offset_bucket_range as int).1,
{
    let nb = offset_buckets.len();
    let ghost range = offset_bucket_range as int;
    let mut values_sum: i128 = 0;
    let mut num_values: i128 = 0;
    let mut i: usize = 0;
    while i < nb
        invariant
            0 <= i <= nb == offset_buckets@.len(),
            nb <= 200_001,
            values_sum == hist_value_sum(offset_buckets@, range, i as int),
            num_values == hist_count(offset_buckets@, i as int),
            0 <= num_values <= i * 0xffff_ffff_ffff_ffff,
            -200_001 * num_values <= values_sum <= 200_001 * num_values,
        decreases nb - i,
    {
        let value: i128 = (i as i128) - (offset_bucket_range as i128);
        let count: i128 = offset_buckets[i] as i128;
        proof {
            assert(-200_001 <= value <= 200_001);
            assert(-200_001 * count <= value * count <= 200_001 * count) by (nonlinear_arith)
                requires
                    -200_001 <= value <= 200_001,
                    count >= 0,
            ;
            assert((i + 1) * 0xffff_ffff_ffff_ffff == i * 0xffff_ffff_ffff_ffff
                + 0xffff_ffff_ffff_ffff) by (nonlinear_arith);
            assert(-200_001 * (num_values + count) == -200_001 * num_values + -200_001 * count)
                by (nonlinear_arith);
            assert(200_001 * (num_values + count) == 200_001 * num_values + 200_001 * count)
                by (nonlinear_arith);
        }
        values_sum = values_sum + value * count;
        num_values = num_values + count;
        i += 1;
    }
    if num_values < 2 {
        return Ratio { num: 0, den: 0 };
    }
    let mean = crate::numeric::div_trunc_i128(values_sum, num_values);
    proof {
        assert(-400_002 <= mean <= 400_002) by (nonlinear_arith)
            requires
                -200_001 * num_values <= values_sum <= 200_001 * num_values,
                num_values >= 2,
                mean == crate::numeric::div_trunc(values_sum as int, num_values as int),
        ;
    }
    let mut squared_differences_sum: i128 = 0;
    let mut j: usize = 0;
    while j < nb
        invariant
            0 <= j <= nb == offset_buckets@.len(),
            nb <= 200_001,
            -400_002 <= mean <= 400_002,
            mean == crate::numeric::div_trunc(
                hist_value_sum(offset_buckets@, range, nb as int),
                hist_count(offset_buckets@, nb as int),
            ),
            squared_differences_sum == hist_sq_sum(offset_buckets@, range, mean as int, j as int),
            0 <= squared_differences_sum <= j * 0x100_0000_0000_0000_0000_0000_0000,
        decreases nb - j,
    {
        let value: i128 = (j as i128) - (offset_bucket_range as i128);
        let diff = value - mean;
        let count: i128 = offset_buckets[j] as i128;
        proof {
            assert(-600_003 <= diff <= 600_003);
            assert(0 <= diff * diff <= 360_003_600_009) by (nonlinear_arith)
                requires
                    -600_003 <= diff <= 600_003,
            ;
            assert(0 <= diff * diff * count <= 0x100_0000_0000_0000_0000_0000_0000)
                by (nonlinear_arith)
                requires
                    0 <= diff * diff <= 360_003_600_009,
                    0 <= count <= 0xffff_ffff_ffff_ffff,
            ;
            assert((j + 1) * 0x100_0000_0000_0000_0000_0000_0000 == j
                * 0x100_0000_0000_0000_0000_0000_0000 + 0x100_0000_0000_0000_0000_0000_0000)
                by (nonlinear_arith);
        }
        squared_differences_sum = squared_differences_sum + diff * diff * count;
        j += 1;
    }
    Ratio { num: squared_differences_sum, den: num_values - 1 }
}


/// A deviation large enough to break the combo.
pub open spec fn is_cb_dev(d: int) -> bool {
    d > 90_000 || d < -90_000
}

/// A deviation within the marvelous window.
pub open spec fn is_marv_dev(d: int) -> bool {
    -22_500 <= d <= 22_500
}

/// Notes on column `c`.
pub open spec fn count_notes_col(events: Seq<ReplayEvent>, c: int) -> int
    decreases events.len(),
{
    if events.len() == 0 {
        0
    } else {
        count_notes_col(events.drop_last(), c) + if events.last().2 == c {
            1int
        } else {
            0int
        }
    }
}

/// Combo breaks on column `c`.
pub open spec fn count_cbs_col(events: Seq<ReplayEvent>, c: int) -> int
    decreases events.len(),
{
    if events.len() == 0 {
        0
    } else {
        count_cbs_col(events.drop_last(), c) + if events.last().2 == c && is_cb_dev(
            events.last().1 as int,
        ) {
            1int
        } else {
            0int
        }
    }
}

/// Adjacent event pairs whose ticks run backward: evidence of manipulation.
pub open spec fn count_manipped(events: Seq<ReplayEvent>) -> int
    decreases events.len(),
{
    if events.len() <= 1 {
        0
    } else {
        count_manipped(events.drop_last()) + if events[events.len() - 2].0
            > events[events.len() - 1].0 {
            1int
        } else {
            0int
        }
    }
}

/// Sum of the non-combo-breaking deviations.
pub open spec fn dev_mean_sum(events: Seq<ReplayEvent>) -> int
    decreases events.len(),
{
    if events.len() == 0 {
        0
    } else {
        dev_mean_sum(events.drop_last()) + if !is_cb_dev(events.last().1 as int) {
            events.last().1 as int
        } else {
            0int
        }
    }
}

/// Count of the non-combo-breaking deviations.
pub open spec fn dev_mean_count(events: Seq<ReplayEvent>) -> int
    decreases events.len(),
{
    if events.len() == 0 {
        0
    } else {
        dev_mean_count(events.drop_last()) + if !is_cb_dev(events.last().1 as int) {
            1int
        } else {
            0int
        }
    }
}

/// Running `(longest, current)` marvelous-combo fold: a non-marvelous hit
/// records the run and resets it.
pub open spec fn mcombo_fold(events: Seq<ReplayEvent>, i: int) -> (int, int)
    decreases i,
{
    if i <= 0 {
        (0, 0)
    } else {
        let (longest, current) = mcombo_fold(events, i - 1);
        if is_marv_dev(events[i - 1].1 as int) {
            (longest, current + 1)
        } else if current > longest {
            (current, 0)
        } else {
            (longest, 0)
        }
    }
}

/// Longest run of marvelous hits, a trailing run included.
pub open spec fn spec_longest_mcombo(events: Seq<ReplayEvent>) -> int {
    let (longest, current) = mcombo_fold(events, events.len() as int);
    if current > longest {
        current
    } else {
        longest
    }
}

/// The deviations of an event list.
pub open spec fn devs_of(events: Seq<ReplayEvent>) -> Seq<i64> {
    events.map_values(|e: ReplayEvent| e.1)
}

/// The ticks of an event list.
pub open spec fn ticks_of(events: Seq<ReplayEvent>) -> Seq<u64> {
    events.map_values(|e: ReplayEvent| e.0)
}

/// Combo-break flags of an event list, in event order.
pub open spec fn cbs_of(events: Seq<ReplayEvent>) -> Seq<bool> {
    events.map_values(|e: ReplayEvent| is_cb_dev(e.1 as int))
}

/// Primary-curve points of an event list, in event order.
pub open spec fn pts_of(events: Seq<ReplayEvent>) -> Seq<i64> {
    events.map_values(|e: ReplayEvent| crate::wife::spec_wife3(e.1 as int) as i64)
}

/// A clipped microsecond time squeezed into `i64`, leaving room for a
/// deviation offset.
pub open spec fn sat_time(us: u64) -> i64 {
    if us > 9_223_372_036_854_575_807 {
        9_223_372_036_854_575_807i64
    } else {
        us as i64
    }
}

/// A finger's hit times: its taps' chart times in tick order, each offset
/// by that tap's deviation in accumulation order.
pub open spec fn jack_hits(ti: TimingInfo, finger: Seq<(u64, i64)>) -> Seq<i64> {
    let sorted_ticks = sort_u64(finger.map_values(|p: (u64, i64)| p.0));
    Seq::new(
        finger.len(),
        |j: int| (sat_time(spec_tick_us(ti, sorted_ticks[j])) + finger[j].1) as i64,
    )
}

/// Close out one finger's accumulated taps: without a timing map, or out of
/// the supported range, no record is taken.
pub open spec fn jack_flush(
    ti: Option<TimingInfo>,
    finger: Seq<(u64, i64)>,
    best: FastestComboInfo,
) -> FastestComboInfo {
    match ti {
        Option::None => best,
        Option::Some(t) => {
            let hits = jack_hits(t, finger);
            if finger.len() <= MAX_NOTES && times_bounded(hits) {
                jack_fold(hits, 0, best)
            } else {
                best
            }
        },
    }
}

/// Walk the events accumulating consecutive in-tolerance taps per column;
/// an out-of-tolerance tap closes its column's run, and the end of the
/// events closes all four columns in order.
pub open spec fn jack_scan(
    events: Seq<ReplayEvent>,
    ti: Option<TimingInfo>,
    i: int,
    st: Seq<Seq<(u64, i64)>>,
    best: FastestComboInfo,
) -> FastestComboInfo
    decreases events.len() - i,
{
    if i < 0 || i >= events.len() {
        let b0 = jack_flush(ti, st[0], best);
        let b1 = jack_flush(ti, st[1], b0);
        let b2 = jack_flush(ti, st[2], b1);
        jack_flush(ti, st[3], b2)
    } else {
        let e = events[i];
        if e.2 < 4 {
            if -180_000 <= e.1 <= 180_000 {
                jack_scan(
                    events,
                    ti,
                    i + 1,
                    st.update(e.2 as int, st[e.2 as int].push((e.0, e.1))),
                    best,
                )
            } else {
                jack_scan(
                    events,
                    ti,
                    i + 1,
                    st.update(e.2 as int, Seq::empty()),
                    jack_flush(ti, st[e.2 as int], best),
                )
            }
        } else {
            jack_scan(events, ti, i + 1, st, best)
        }
    }
}

/// The fastest single-finger jack of a replay, rate applied, or nothing
/// when no window was recorded.
pub open spec fn spec_fastest_jack(
    events: Seq<ReplayEvent>,
    ti: Option<TimingInfo>,
    rate: int,
) -> Option<FastestComboInfo> {
    let st0: Seq<Seq<(u64, i64)>> = seq![Seq::empty(), Seq::empty(), Seq::empty(), Seq::empty()];
    let f = jack_scan(events, ti, 0, st0, spec_fci_zero());
    let scaled = scale_by_rate(f, rate);
    if scaled.speed.num == 0 {
        Option::None
    } else {
        Option::Some(scaled)
    }
}

/// The chart times of a replay's notes, in tick order.
pub open spec fn spec_note_seconds(ti: TimingInfo, events: Seq<ReplayEvent>) -> Seq<i64> {
    let st = sort_u64(ticks_of(events));
    Seq::new(events.len(), |j: int| sat_time(spec_tick_us(ti, st[j])))
}

/// The fastest overall combo, when a timing map exists and the replay is
/// within the supported size and time range.
pub open spec fn spec_fastest_combo(
    events: Seq<ReplayEvent>,
    ti: Option<TimingInfo>,
    rate: int,
) -> Option<FastestComboInfo> {
    match ti {
        Option::None => Option::None,
        Option::Some(t) => {
            let secs = spec_note_seconds(t, events);
            if events.len() <= MAX_NOTES && times_bounded(secs) {
                Option::Some(
                    spec_find_fastest_combo_in_score(
                        secs,
                        cbs_of(events),
                        Option::None,
                        100,
                        130,
                        rate,
                    ),
                )
            } else {
                Option::None
            }
        },
    }
}

/// The fastest accuracy-weighted combo, under the same conditions.
pub open spec fn spec_fastest_acc(
    events: Seq<ReplayEvent>,
    ti: Option<TimingInfo>,
    rate: int,
) -> Option<FastestComboInfo> {
    match ti {
        Option::None => Option::None,
        Option::Some(t) => {
            let secs = spec_note_seconds(t, events);
            if events.len() <= MAX_NOTES && times_bounded(secs) {
                Option::Some(
                    spec_find_fastest_combo_in_score(
                        secs,
                        cbs_of(events),
                        Option::Some(pts_of(events)),
                        100,
                        130,
                        rate,
                    ),
                )
            } else {
                Option::None
            }
        },
    }
}

/// One replay's statistics.
pub struct ScoreAnalysis {
    /// Fraction of notes hit out of chart order.
    pub manipulation: Ratio,
    /// Mean non-combo-breaking deviation, in microseconds.
    pub deviation_mean: Ratio,
    /// How many deviations the mean counts.
    pub num_deviation_notes: u64,
    /// Taps per column (four columns).
    pub notes_per_column: Vec<u64>,
    /// Combo breaks per column.
    pub cbs_per_column: Vec<u64>,
    /// Longest run of marvelous hits.
    pub longest_mcombo: u64,
    /// Millisecond offset histogram over ±180 ms.
    pub offset_buckets: Vec<u64>,
    /// Fastest plain combo window, when timing was known.
    pub fastest_combo: Option<FastestComboInfo>,
    /// Fastest single-finger window, when one was recorded.
    pub fastest_jack: Option<FastestComboInfo>,
    /// Fastest point-weighted combo window, when timing was known.
    pub fastest_acc: Option<FastestComboInfo>,
}

impl ScoreAnalysis {
    /// Shapes and bounds the batch reduction relies on.
    pub open spec fn wf(self) -> bool {
        &&& self.notes_per_column@.len() == 4
        &&& self.cbs_per_column@.len() == 4
        &&& self.offset_buckets@.len() == NUM_OFFSET_BUCKETS
        &&& 0 <= self.deviation_mean.den <= 0xffff_ffff_ffff_ffff
        &&& -90_000 * self.deviation_mean.den <= self.deviation_mean.num <= 90_000
            * self.deviation_mean.den
        &&& match self.fastest_combo {
            Option::Some(f) => f.wf(),
            Option::None => true,
        }
        &&& match self.fastest_jack {
            Option::Some(f) => f.wf(),
            Option::None => true,
        }
        &&& match self.fastest_acc {
            Option::Some(f) => f.wf(),
            Option::None => true,
        }
    }
}

/// Counting pass: per-column note and break counts, the marvelous-combo
/// record, the manipulation count and the mean-deviation sums.
#[verifier::loop_isolation(false)]
fn scan_basic(
    ticks: &Vec<u64>,
    deviations: &Vec<i64>,
    columns: &Vec<u8>,
    Ghost(events): Ghost<Seq<ReplayEvent>>,
) -> (r: (Vec<u64>, Vec<u64>, u64, u64, i128, u64))
    requires
        ticks@.len() == events.len(),
        deviations@.len() == events.len(),
        columns@.len() == events.len(),
        forall|i: int|
            0 <= i < events.len() ==> (ticks@[i], deviations@[i], columns@[i]) == #[trigger] events[i],
        events.len() < u64::MAX,
    ensures
        r.0@.len() == 4 && r.1@.len() == 4,
        forall|c: int| 0 <= c < 4 ==> r.0@[c] == count_notes_col(events, c),
        forall|c: int| 0 <= c < 4 ==> r.1@[c] == count_cbs_col(events, c),
        r.2 == spec_longest_mcombo(events),
        r.3 == count_manipped(events),
        r.4 == dev_mean_sum(events),
        r.5 == dev_mean_count(events),
{
    let n = ticks.len();
    let mut notes: Vec<u64> = Vec::new();
    let mut cbs: Vec<u64> = Vec::new();
    let mut z: usize = 0;
    while z < 4
        invariant
            notes@.len() == z <= 4,
            cbs@.len() == z,
            forall|c: int| 0 <= c < z ==> notes@[c] == 0 && cbs@[c] == 0,
        decreases 4 - z,
    {
        notes.push(0);
        cbs.push(0);
        z += 1;
    }
    let mut longest_mcombo: u64 = 0;
    let mut mcombo: u64 = 0;
    let mut num_manipped: u64 = 0;
    let mut dev_sum: i128 = 0;
    let mut dev_count: u64 = 0;
    let mut i: usize = 0;
    while i < n
        invariant
            0 <= i <= n == events.len(),
            notes@.len() == 4 && cbs@.len() == 4,
            forall|c: int| 0 <= c < 4 ==> notes@[c] == count_notes_col(events.take(i as int), c),
            forall|c: int| 0 <= c < 4 ==> cbs@[c] == count_cbs_col(events.take(i as int), c),
            (longest_mcombo as int, mcombo as int) == mcombo_fold(events, i as int),
            mcombo <= i && longest_mcombo <= i,
            num_manipped == count_manipped(events.take(i as int)),
            num_manipped < u64::MAX,
            dev_sum == dev_mean_sum(events.take(i as int)),
            dev_count == dev_mean_count(events.take(i as int)),
            dev_count <= i,
            -90_000 * (dev_count as int) <= dev_sum <= 90_000 * (dev_count as int),
        decreases n - i,
    {
        let tick = ticks[i];
        let dev = deviations[i];
        let col = columns[i];
        proof {
            assert(events.take(i + 1).drop_last() =~= events.take(i as int));
            assert(events.take(i + 1).last() == events[i as int]);
            lemma_count_bounds(events.take(i as int));
            if i >= 1 {
                assert(events.take(i + 1)[i - 1] == events[i - 1]);
            }
        }
        if col < 4 {
            let c = col as usize;
            let old_notes = notes[c];
            notes.set(c, old_notes + 1);
            if dev > 90_000 || dev < -90_000 {
                let old_cbs = cbs[c];
                cbs.set(c, old_cbs + 1);
            }
        }
        if dev >= -22_500 && dev <= 22_500 {
            mcombo += 1;
        } else {
            if mcombo > longest_mcombo {
                longest_mcombo = mcombo;
            }
            mcombo = 0;
        }
        if i >= 1 {
            if ticks[i - 1] > tick {
                num_manipped += 1;
            }
        }
        if !(dev > 90_000 || dev < -90_000) {
            dev_sum = dev_sum + dev as i128;
            dev_count += 1;
        }
        i += 1;
    }
    proof {
        assert(events.take(n as int) =~= events);
    }
    if mcombo > longest_mcombo {
        longest_mcombo = mcombo;
    }
    (notes, cbs, longest_mcombo, num_manipped, dev_sum, dev_count)
}

/// Per-column counts never pass the event count.
proof fn lemma_count_bounds(events: Seq<ReplayEvent>)
    ensures
        forall|c: int| 0 <= #[trigger] count_notes_col(events, c) <= events.len(),
        forall|c: int| 0 <= #[trigger] count_cbs_col(events, c) <= events.len(),
        0 <= count_manipped(events) <= events.len(),
        0 <= dev_mean_count(events) <= events.len(),
    decreases events.len(),
{
    if events.len() > 0 {
        lemma_count_bounds(events.drop_last());
        assert forall|c: int| 0 <= #[trigger] count_notes_col(events, c) <= events.len() by {
            assert(0 <= count_notes_col(events.drop_last(), c) <= events.len() - 1);
        }
        assert forall|c: int| 0 <= #[trigger] count_cbs_col(events, c) <= events.len() by {
            assert(0 <= count_cbs_col(events.drop_last(), c) <= events.len() - 1);
        }
    }
}


/// Close out one finger: order its taps by tick, convert them through the
/// timing map, offset each by its deviation and scan for the fastest
/// window; the list is emptied.
#[verifier::loop_isolation(false)]
fn flush_finger(
    timing_info: Option<&TimingInfo>,
    finger: &mut Vec<(u64, i64)>,
    best: FastestComboInfo,
) -> (r: FastestComboInfo)
    requires
        match timing_info {
            Some(t) => t.wf(),
            None => true,
        },
        forall|j: int|
            0 <= j < old(finger)@.len() ==> -180_000 <= (#[trigger] old(finger)@[j]).1 <= 180_000,
        speed_small(best),
        best.wf(),
    ensures
        r == jack_flush(
            match timing_info {
                Some(t) => Option::Some(*t),
                None => Option::<TimingInfo>::None,
            },
            old(finger)@,
            best,
        ),
        final(finger)@.len() == 0,
        speed_small(r),
        r.wf(),
{
    let ti = match timing_info {
        Some(t) => t,
        None => {
            finger.clear();
            return best;
        },
    };
    let nf = finger.len();
    let mut tick_list: Vec<u64> = Vec::new();
    let mut i: usize = 0;
    while i < nf
        invariant
            0 <= i <= nf == finger@.len(),
            finger@ == old(finger)@,
            tick_list@ == finger@.take(i as int).map_values(|p: (u64, i64)| p.0),
        decreases nf - i,
    {
        proof {
            assert(finger@.take(i + 1).drop_last() =~= finger@.take(i as int));
            assert(finger@.take(i + 1).map_values(|p: (u64, i64)| p.0).drop_last()
                =~= finger@.take(i as int).map_values(|p: (u64, i64)| p.0));
        }
        tick_list.push(finger[i].0);
        proof {
            assert(tick_list@ =~= finger@.take(i + 1).map_values(|p: (u64, i64)| p.0));
        }
        i += 1;
    }
    proof {
        assert(finger@.take(nf as int) =~= finger@);
        lemma_sort_u64_len(tick_list@);
    }
    let sorted_list = sort_ticks(&tick_list);
    let seconds = ti.ticks_to_seconds(&sorted_list);
    let ghost hits_spec = jack_hits(*ti, finger@);
    let mut hits: Vec<i64> = Vec::new();
    let mut ok = true;
    let mut j: usize = 0;
    while j < nf
        invariant
            0 <= j <= nf == finger@.len(),
            finger@ == old(finger)@,
            seconds@.len() == nf,
            hits_spec.len() == nf,
            forall|t: int| 0 <= t < nf ==> #[trigger] hits_spec[t] == (sat_time(seconds@[t])
                + finger@[t].1) as i64,
            hits@ == hits_spec.take(j as int),
            ok == times_bounded(hits_spec.take(j as int)),
        decreases nf - j,
    {
        let us = seconds[j];
        let sat: i64 = if us > 9_223_372_036_854_575_807 {
            9_223_372_036_854_575_807
        } else {
            us as i64
        };
        let h = sat + finger[j].1;
        if h < -MAX_TIME_MICROS || h > MAX_TIME_MICROS {
            ok = false;
        }
        proof {
            assert(hits_spec.take(j + 1).drop_last() =~= hits_spec.take(j as int));
            assert(hits_spec.take(j + 1).last() == hits_spec[j as int]);
        }
        hits.push(h);
        proof {
            assert(hits@ =~= hits_spec.take(j + 1));
        }
        j += 1;
    }
    proof {
        assert(hits_spec.take(nf as int) =~= hits_spec);
        assert(hits@ == hits_spec);
    }
    let r = if ok && nf <= MAX_NOTES {
        find_fastest_jack(&hits, best)
    } else {
        best
    };
    finger.clear();
    r
}

/// Jack pass: accumulate in-tolerance taps per column and take the fastest
/// thirty-note single-finger window, unscaled.
#[verifier::loop_isolation(false)]
fn scan_jack(
    ticks: &Vec<u64>,
    deviations: &Vec<i64>,
    columns: &Vec<u8>,
    timing_info: Option<&TimingInfo>,
    Ghost(events): Ghost<Seq<ReplayEvent>>,
) -> (r: FastestComboInfo)
    requires
        ticks@.len() == events.len(),
        deviations@.len() == events.len(),
        columns@.len() == events.len(),
        forall|i: int|
            0 <= i < events.len() ==> (ticks@[i], deviations@[i], columns@[i]) == #[trigger] events[i],
        match timing_info {
            Some(t) => t.wf(),
            None => true,
        },
    ensures
        r == jack_scan(
            events,
            match timing_info {
                Some(t) => Option::Some(*t),
                None => Option::<TimingInfo>::None,
            },
            0,
            seq![Seq::empty(), Seq::empty(), Seq::empty(), Seq::empty()],
            spec_fci_zero(),
        ),
        speed_small(r),
        r.wf(),
{
    let ghost ti = match timing_info {
        Some(t) => Option::Some(*t),
        None => Option::<TimingInfo>::None,
    };
    let mut f0: Vec<(u64, i64)> = Vec::new();
    let mut f1: Vec<(u64, i64)> = Vec::new();
    let mut f2: Vec<(u64, i64)> = Vec::new();
    let mut f3: Vec<(u64, i64)> = Vec::new();
    let mut best = FastestComboInfo {
        start_second: 0,
        end_second: 0,
        length: 0,
        speed: Ratio { num: 0, den: 1 },
    };
    let ghost target = jack_scan(
        events,
        ti,
        0,
        seq![Seq::empty(), Seq::empty(), Seq::empty(), Seq::empty()],
        spec_fci_zero(),
    );
    let n = ticks.len();
    let mut i: usize = 0;
    proof {
        assert(seq![f0@, f1@, f2@, f3@] =~= seq![
            Seq::<(u64, i64)>::empty(),
            Seq::<(u64, i64)>::empty(),
            Seq::<(u64, i64)>::empty(),
            Seq::<(u64, i64)>::empty(),
        ]);
    }
    while i < n
        invariant
            0 <= i <= n == events.len(),
            speed_small(best),
            best.wf(),
            forall|j: int| 0 <= j < f0@.len() ==> -180_000 <= (#[trigger] f0@[j]).1 <= 180_000,
            forall|j: int| 0 <= j < f1@.len() ==> -180_000 <= (#[trigger] f1@[j]).1 <= 180_000,
            forall|j: int| 0 <= j < f2@.len() ==> -180_000 <= (#[trigger] f2@[j]).1 <= 180_000,
            forall|j: int| 0 <= j < f3@.len() ==> -180_000 <= (#[trigger] f3@[j]).1 <= 180_000,
            target == jack_scan(events, ti, i as int, seq![f0@, f1@, f2@, f3@], best),
        decreases n - i,
    {
        let tick = ticks[i];
        let dev = deviations[i];
        let col = columns[i];
        let ghost st = seq![f0@, f1@, f2@, f3@];
        if col < 4 {
            if dev >= -180_000 && dev <= 180_000 {
                if col == 0 {
                    f0.push((tick, dev));
                } else if col == 1 {
                    f1.push((tick, dev));
                } else if col == 2 {
                    f2.push((tick, dev));
                } else {
                    f3.push((tick, dev));
                }
                proof {
                    assert(seq![f0@, f1@, f2@, f3@] =~= st.update(
                        col as int,
                        st[col as int].push((tick, dev)),
                    ));
                }
            } else {
                if col == 0 {
                    best = flush_finger(timing_info, &mut f0, best);
                } else if col == 1 {
                    best = flush_finger(timing_info, &mut f1, best);
                } else if col == 2 {
                    best = flush_finger(timing_info, &mut f2, best);
                } else {
                    best = flush_finger(timing_info, &mut f3, best);
                }
                proof {
                    assert(f0@.len() == 0 ==> f0@ =~= Seq::<(u64, i64)>::empty());
                    assert(f1@.len() == 0 ==> f1@ =~= Seq::<(u64, i64)>::empty());
                    assert(f2@.len() == 0 ==> f2@ =~= Seq::<(u64, i64)>::empty());
                    assert(f3@.len() == 0 ==> f3@ =~= Seq::<(u64, i64)>::empty());
                    assert(seq![f0@, f1@, f2@, f3@] =~= st.update(
                        col as int,
                        Seq::<(u64, i64)>::empty(),
                    ));
                }
            }
        }
        i += 1;
    }
    let best = flush_finger(timing_info, &mut f0, best);
    let best = flush_finger(timing_info, &mut f1, best);
    let best = flush_finger(timing_info, &mut f2, best);
    let best = flush_finger(timing_info, &mut f3, best);
    best
}


/// Window-statistics pass: the chart seconds in tick order, with the
/// combo-break flags and curve points in event order, searched for the
/// fastest plain and point-weighted windows.
#[verifier::loop_isolation(false)]
fn scan_windows(
    ticks: &Vec<u64>,
    deviations: &Vec<i64>,
    timing_info: Option<&TimingInfo>,
    rate_micro: u64,
    Ghost(events): Ghost<Seq<ReplayEvent>>,
) -> (r: (Option<FastestComboInfo>, Option<FastestComboInfo>))
    requires
        ticks@.len() == events.len(),
        deviations@.len() == events.len(),
        forall|i: int|
            0 <= i < events.len() ==> ticks@[i] == (#[trigger] events[i]).0 && deviations@[i]
                == events[i].1,
        match timing_info {
            Some(t) => t.wf(),
            None => true,
        },
        1 <= rate_micro <= MAX_RATE_MICRO,
    ensures
        ({
            let ti = match timing_info {
                Some(t) => Option::Some(*t),
                None => Option::<TimingInfo>::None,
            };
            r.0 == spec_fastest_combo(events, ti, rate_micro as int) && r.1 == spec_fastest_acc(
                events,
                ti,
                rate_micro as int,
            ) && (match r.0 {
                Option::Some(f) => f.wf(),
                Option::None => true,
            }) && (match r.1 {
                Option::Some(f) => f.wf(),
                Option::None => true,
            })
        }),
{
    let t = match timing_info {
        Some(t) => t,
        None => {
            return (None, None);
        },
    };
    let n = ticks.len();
    if n > MAX_NOTES {
        return (None, None);
    }
    proof {
        assert(ticks@ =~= ticks_of(events));
        lemma_sort_u64_len(ticks_of(events));
    }
    let sorted_list = sort_ticks(ticks);
    let seconds_us = t.ticks_to_seconds(&sorted_list);
    let ghost secs_spec = spec_note_seconds(*t, events);
    let mut seconds: Vec<i64> = Vec::new();
    let mut ok = true;
    let mut j: usize = 0;
    while j < n
        invariant
            0 <= j <= n == events.len(),
            seconds_us@.len() == n,
            secs_spec.len() == n,
            forall|k: int|
                0 <= k < n ==> #[trigger] secs_spec[k] == sat_time(seconds_us@[k]),
            seconds@ == secs_spec.take(j as int),
            ok == times_bounded(secs_spec.take(j as int)),
        decreases n - j,
    {
        let us = seconds_us[j];
        let sat: i64 = if us > 9_223_372_036_854_575_807 {
            9_223_372_036_854_575_807
        } else {
            us as i64
        };
        if sat < -MAX_TIME_MICROS || sat > MAX_TIME_MICROS {
            ok = false;
        }
        proof {
            assert(secs_spec.take(j + 1).drop_last() =~= secs_spec.take(j as int));
            assert(secs_spec.take(j + 1).last() == secs_spec[j as int]);
        }
        seconds.push(sat);
        proof {
            assert(seconds@ =~= secs_spec.take(j + 1));
        }
        j += 1;
    }
    proof {
        assert(secs_spec.take(n as int) =~= secs_spec);
    }
    if !ok {
        return (None, None);
    }
    // The seconds are sorted because ticks were sorted and conversion is
    // monotone.
    proof {
        assert forall|a: int, b: int| 0 <= a <= b < n implies seconds@[a] <= seconds@[b] by {
            crate::timing_info::lemma_tick_us_mono(*t, sorted_list@[a], sorted_list@[b]);
        }
    }
    let mut are_cbs: Vec<bool> = Vec::new();
    let mut wife_pts: Vec<i64> = Vec::new();
    let mut k: usize = 0;
    while k < n
        invariant
            0 <= k <= n == events.len(),
            deviations@.len() == n,
            forall|i: int| 0 <= i < n ==> deviations@[i] == (#[trigger] events[i]).1,
            are_cbs@ == cbs_of(events).take(k as int),
            wife_pts@ == pts_of(events).take(k as int),
            pts_bounded(wife_pts@),
        decreases n - k,
    {
        let dev = deviations[k];
        proof {
            assert(cbs_of(events).take(k + 1).drop_last() =~= cbs_of(events).take(k as int));
            assert(pts_of(events).take(k + 1).drop_last() =~= pts_of(events).take(k as int));
            assert(cbs_of(events)[k as int] == is_cb_dev(events[k as int].1 as int));
            assert(pts_of(events)[k as int] == crate::wife::spec_wife3(
                events[k as int].1 as int,
            ) as i64);
            crate::wife::Wife3::lemma_bounds(dev as int);
        }
        are_cbs.push(dev > 90_000 || dev < -90_000);
        wife_pts.push(crate::wife::wife3(dev));
        proof {
            assert(are_cbs@ =~= cbs_of(events).take(k + 1));
            assert(wife_pts@ =~= pts_of(events).take(k + 1));
        }
        k += 1;
    }
    proof {
        assert(cbs_of(events).take(n as int) =~= cbs_of(events));
        assert(pts_of(events).take(n as int) =~= pts_of(events));
        assert(seconds@ == secs_spec);
    }
    let fastest_combo = find_fastest_combo_in_score(
        &seconds,
        &are_cbs,
        100,
        130,
        None,
        rate_micro,
    );
    let fastest_acc = find_fastest_combo_in_score(
        &seconds,
        &are_cbs,
        100,
        130,
        Some(&wife_pts),
        rate_micro,
    );
    (Some(fastest_combo), Some(fastest_acc))
}

/// Analyze one replay log: every per-replay statistic of the batch
/// reduction, computed from the parsed events, the chart's timing map (when
/// known) and its playback rate.
#[verifier::loop_isolation(false)]
pub fn analyze(bytes: &[u8], timing_info: Option<&TimingInfo>, rate_micro: u64) -> (r:
    ScoreAnalysis)
    requires
        bytes@.len() + 5 < usize::MAX,
        match timing_info {
            Some(t) => t.wf(),
            None => true,
        },
        1 <= rate_micro <= MAX_RATE_MICRO,
    ensures
        ({
            let events = replay_events(bytes@);
            let ti = match timing_info {
                Some(t) => Option::Some(*t),
                None => Option::<TimingInfo>::None,
            };
            &&& r.manipulation == (Ratio {
                num: count_manipped(events) as i128,
                den: events.len() as i128,
            })
            &&& r.deviation_mean == (Ratio {
                num: dev_mean_sum(events) as i128,
                den: dev_mean_count(events) as i128,
            })
            &&& r.num_deviation_notes == dev_mean_count(events)
            &&& r.notes_per_column@.len() == 4
            &&& r.cbs_per_column@.len() == 4
            &&& forall|c: int| 0 <= c < 4 ==> r.notes_per_column@[c] == count_notes_col(events, c)
            &&& forall|c: int| 0 <= c < 4 ==> r.cbs_per_column@[c] == count_cbs_col(events, c)
            &&& r.longest_mcombo == spec_longest_mcombo(events)
            &&& r.offset_buckets@.len() == NUM_OFFSET_BUCKETS
            &&& forall|k: int|
                0 <= k < NUM_OFFSET_BUCKETS ==> r.offset_buckets@[k] == bucket_count(
                    devs_of(events),
                    k,
                )
            &&& r.fastest_combo == spec_fastest_combo(events, ti, rate_micro as int)
            &&& r.fastest_acc == spec_fastest_acc(events, ti, rate_micro as int)
            &&& r.fastest_jack == spec_fastest_jack(events, ti, rate_micro as int)
            &&& r.wf()
        }),
{
    let ghost events = replay_events(bytes@);
    proof {
        lemma_split_len(bytes@, 5, 0);
        lemma_events_len(bytes@, spec_split_newlines(bytes@, 5, 0));
    }
    let (ticks, deviations, columns) = parse_replay(bytes);
    let (notes_per_column, cbs_per_column, longest_mcombo, num_manipped, dev_sum, dev_count) =
        scan_basic(&ticks, &deviations, &columns, Ghost(events));
    proof {
        assert(deviations@ =~= devs_of(events));
    }
    let offset_buckets = put_deviations_into_buckets(&deviations);
    let jack_unscaled = scan_jack(&ticks, &deviations, &columns, timing_info, Ghost(events));
    proof {
        assert(-35_184_372_088_832_000_000 <= jack_unscaled.speed.num * (rate_micro as i128)
            <= 35_184_372_088_832_000_000) by (nonlinear_arith)
            requires
                -4_398_046_511_104 <= jack_unscaled.speed.num <= 4_398_046_511_104,
                1 <= rate_micro <= 8_000_000,
        ;
        assert(0 <= jack_unscaled.speed.den * 1_000_000 <= 1_152_921_504_606_846_976)
            by (nonlinear_arith)
            requires
                0 <= jack_unscaled.speed.den <= 1_099_511_627_776,
        ;
    }
    let jack_scaled = FastestComboInfo {
        start_second: jack_unscaled.start_second,
        end_second: jack_unscaled.end_second,
        length: jack_unscaled.length,
        speed: Ratio {
            num: jack_unscaled.speed.num * (rate_micro as i128),
            den: jack_unscaled.speed.den * 1_000_000,
        },
    };
    let fastest_jack = if jack_scaled.speed.num == 0 {
        None
    } else {
        Some(jack_scaled)
    };
    let (fastest_combo, fastest_acc) = scan_windows(
        &ticks,
        &deviations,
        timing_info,
        rate_micro,
        Ghost(events),
    );
    proof {
        lemma_count_bounds(events);
        lemma_dev_mean_bounds(events);
    }
    ScoreAnalysis {
        manipulation: Ratio { num: num_manipped as i128, den: ticks.len() as i128 },
        deviation_mean: Ratio { num: dev_sum, den: dev_count as i128 },
        num_deviation_notes: dev_count,
        notes_per_column,
        cbs_per_column,
        longest_mcombo,
        offset_buckets,
        fastest_combo,
        fastest_jack,
        fastest_acc,
    }
}

/// The mean-deviation sums stay within the non-break window times the
/// count.
proof fn lemma_dev_mean_bounds(events: Seq<ReplayEvent>)
    ensures
        -90_000 * dev_mean_count(events) <= dev_mean_sum(events) <= 90_000 * dev_mean_count(
            events,
        ),
    decreases events.len(),
{
    if events.len() > 0 {
        lemma_dev_mean_bounds(events.drop_last());
        let c = dev_mean_count(events.drop_last());
        assert(-90_000 * (c + 1) == -90_000 * c + -90_000) by (nonlinear_arith);
        assert(90_000 * (c + 1) == 90_000 * c + 90_000) by (nonlinear_arith);
    }
}


/// The split yields at most one line per byte.
proof fn lemma_split_len(s: Seq<u8>, min: int, pos: int)
    requires
        0 <= pos,
        min >= 0,
    ensures
        spec_split_newlines(s, min, pos).len() <= s.len() - pos || spec_split_newlines(
            s,
            min,
            pos,
        ).len() == 0,
    decreases s.len() + 1 - pos,
{
    if 0 <= pos < s.len() {
        crate::util::lemma_find_newline_ge(s, pos + min);
        let e = crate::util::find_newline(s, pos + min);
        assert(pos <= e <= s.len());
        lemma_split_len(s, min, e + 1);
        assert(spec_split_newlines(s, min, pos) == seq![(pos, e)] + spec_split_newlines(
            s,
            min,
            e + 1,
        ));
        assert(spec_split_newlines(s, min, pos).len() == 1 + spec_split_newlines(
            s,
            min,
            e + 1,
        ).len());
    }
}

/// At most one event per line.
proof fn lemma_events_len(bytes: Seq<u8>, lines: Seq<(int, int)>)
    ensures
        events_of(bytes, lines).len() <= lines.len(),
    decreases lines.len(),
{
    if lines.len() > 0 {
        lemma_events_len(bytes, lines.drop_last());
    }
}


/// One replay's contribution to a batch: the score key, its analysis and
/// the wifescore the game recorded, in millionths.
pub type ScoreEntry = (String, ScoreAnalysis, u64);

/// Addition clipped into `u64`.
pub open spec fn sat_add64(a: int, b: int) -> int {
    if a + b > u64::MAX {
        u64::MAX as int
    } else {
        a + b
    }
}

/// Indices of the entries that produced an analysis, over the first `i`.
pub open spec fn spec_score_indices(inputs: Seq<Option<ScoreEntry>>, i: int) -> Seq<u64>
    decreases i,
{
    if i <= 0 {
        Seq::empty()
    } else {
        spec_score_indices(inputs, i - 1) + (match inputs[i - 1] {
            Option::Some(_) => seq![(i - 1) as u64],
            Option::None => Seq::empty(),
        })
    }
}

/// The manipulation ratios of the analyzed entries, in order.
pub open spec fn spec_manipulations(inputs: Seq<Option<ScoreEntry>>, i: int) -> Seq<Ratio>
    decreases i,
{
    if i <= 0 {
        Seq::empty()
    } else {
        spec_manipulations(inputs, i - 1) + (match inputs[i - 1] {
            Option::Some(e) => seq![e.1.manipulation],
            Option::None => Seq::empty(),
        })
    }
}

/// How many entries produced an analysis.
pub open spec fn spec_count_some(inputs: Seq<Option<ScoreEntry>>, i: int) -> int
    decreases i,
{
    if i <= 0 {
        0
    } else {
        spec_count_some(inputs, i - 1) + (match inputs[i - 1] {
            Option::Some(_) => 1int,
            Option::None => 0int,
        })
    }
}

/// A ratio truncated toward zero, or zero when undefined.
pub open spec fn ratio_trunc(r: Ratio) -> int {
    if r.den > 0 {
        crate::numeric::div_trunc(r.num as int, r.den as int)
    } else {
        0
    }
}

/// Sum of the truncated per-replay mean deviations.
pub open spec fn spec_dev_mean_total(inputs: Seq<Option<ScoreEntry>>, i: int) -> int
    decreases i,
{
    if i <= 0 {
        0
    } else {
        spec_dev_mean_total(inputs, i - 1) + (match inputs[i - 1] {
            Option::Some(e) => ratio_trunc(e.1.deviation_mean),
            Option::None => 0int,
        })
    }
}

/// Clipped per-column totals.
pub open spec fn spec_notes_total(inputs: Seq<Option<ScoreEntry>>, i: int, c: int) -> int
    decreases i,
{
    if i <= 0 {
        0
    } else {
        match inputs[i - 1] {
            Option::Some(e) => sat_add64(
                spec_notes_total(inputs, i - 1, c),
                e.1.notes_per_column@[c] as int,
            ),
            Option::None => spec_notes_total(inputs, i - 1, c),
        }
    }
}

pub open spec fn spec_cbs_total(inputs: Seq<Option<ScoreEntry>>, i: int, c: int) -> int
    decreases i,
{
    if i <= 0 {
        0
    } else {
        match inputs[i - 1] {
            Option::Some(e) => sat_add64(
                spec_cbs_total(inputs, i - 1, c),
                e.1.cbs_per_column@[c] as int,
            ),
            Option::None => spec_cbs_total(inputs, i - 1, c),
        }
    }
}

/// Clipped merged histogram.
pub open spec fn spec_buckets_total(inputs: Seq<Option<ScoreEntry>>, i: int, k: int) -> int
    decreases i,
{
    if i <= 0 {
        0
    } else {
        match inputs[i - 1] {
            Option::Some(e) => sat_add64(
                spec_buckets_total(inputs, i - 1, k),
                e.1.offset_buckets@[k] as int,
            ),
            Option::None => spec_buckets_total(inputs, i - 1, k),
        }
    }
}

/// Clipped merged histogram of the below-93% entries.
pub open spec fn spec_sub93_total(inputs: Seq<Option<ScoreEntry>>, i: int, k: int) -> int
    decreases i,
{
    if i <= 0 {
        0
    } else {
        match inputs[i - 1] {
            Option::Some(e) => if e.2 < 930_000 {
                sat_add64(spec_sub93_total(inputs, i - 1, k), e.1.offset_buckets@[k] as int)
            } else {
                spec_sub93_total(inputs, i - 1, k)
            },
            Option::None => spec_sub93_total(inputs, i - 1, k),
        }
    }
}

/// The longest marvelous combo and its holder, strict improvement only.
pub open spec fn spec_longest_mcombo_record(inputs: Seq<Option<ScoreEntry>>, i: int) -> (
    int,
    Seq<char>,
)
    decreases i,
{
    if i <= 0 {
        (0, "<no chart>"@)
    } else {
        let prev = spec_longest_mcombo_record(inputs, i - 1);
        match inputs[i - 1] {
            Option::Some(e) => if e.1.longest_mcombo > prev.0 {
                (e.1.longest_mcombo as int, e.0@)
            } else {
                prev
            },
            Option::None => prev,
        }
    }
}

/// A speed record and its holder, strict improvement only.
pub open spec fn spec_speed_record(
    records: Seq<Option<(Option<FastestComboInfo>, Seq<char>)>>,
    i: int,
) -> (FastestComboInfo, Seq<char>)
    decreases i,
{
    if i <= 0 {
        (spec_fci_zero(), Seq::empty())
    } else {
        let prev = spec_speed_record(records, i - 1);
        match records[i - 1] {
            Option::Some(rec) => match rec.0 {
                Option::Some(f) => if rat_gt(
                    f.speed.num as int,
                    f.speed.den as int,
                    prev.0.speed.num as int,
                    prev.0.speed.den as int,
                ) {
                    (f, rec.1)
                } else {
                    prev
                },
                Option::None => prev,
            },
            Option::None => prev,
        }
    }
}

/// The per-entry view feeding one of the three speed records.
pub open spec fn combo_records(inputs: Seq<Option<ScoreEntry>>) -> Seq<
    Option<(Option<FastestComboInfo>, Seq<char>)>,
> {
    inputs.map_values(
        |o: Option<ScoreEntry>|
            match o {
                Option::Some(e) => Option::Some((e.1.fastest_combo, e.0@)),
                Option::None => Option::None,
            },
    )
}

pub open spec fn acc_records(inputs: Seq<Option<ScoreEntry>>) -> Seq<
    Option<(Option<FastestComboInfo>, Seq<char>)>,
> {
    inputs.map_values(
        |o: Option<ScoreEntry>|
            match o {
                Option::Some(e) => Option::Some((e.1.fastest_acc, e.0@)),
                Option::None => Option::None,
            },
    )
}

pub open spec fn jack_records(inputs: Seq<Option<ScoreEntry>>) -> Seq<
    Option<(Option<FastestComboInfo>, Seq<char>)>,
> {
    inputs.map_values(
        |o: Option<ScoreEntry>|
            match o {
                Option::Some(e) => Option::Some((e.1.fastest_jack, e.0@)),
                Option::None => Option::None,
            },
    )
}

/// Batch totals over many replays, with the record holders.
pub struct ReplaysAnalysis {
    /// Indices of the entries whose analysis succeeded.
    pub score_indices: Vec<u64>,
    /// Their manipulation ratios, in order.
    pub manipulations: Vec<Ratio>,
    /// Mean of the truncated per-replay mean deviations, in microseconds.
    pub deviation_mean: Ratio,
    /// Clipped per-column note totals.
    pub notes_per_column: Vec<u64>,
    /// Clipped per-column combo-break totals.
    pub cbs_per_column: Vec<u64>,
    /// The longest marvelous combo and the score that holds it.
    pub longest_mcombo: (u64, String),
    /// Merged offset histogram.
    pub offset_buckets: Vec<u64>,
    /// Merged histogram of the entries below a 93% wifescore.
    pub sub_93_offset_buckets: Vec<u64>,
    /// Bessel-corrected variance of the merged histogram (its square root
    /// is the standard deviation).
    pub standard_deviation: Ratio,
    pub fastest_combo: FastestComboInfo,
    pub fastest_combo_scorekey: String,
    pub fastest_jack: FastestComboInfo,
    pub fastest_jack_scorekey: String,
    pub fastest_acc: FastestComboInfo,
    pub fastest_acc_scorekey: String,
}

impl ReplaysAnalysis {
    /// Fold per-replay results into batch totals, in input order: sums and
    /// merged histograms over the analyzed entries, records replaced only on
    /// strict improvement so that the earliest holder is kept.
    #[verifier::loop_isolation(false)]
    #[verifier::rlimit(100)]
    pub fn create(score_analyses: Vec<Option<ScoreEntry>>) -> (r: ReplaysAnalysis)
        requires
            score_analyses@.len() < u64::MAX,
            forall|i: int|
                0 <= i < score_analyses@.len() ==> match #[trigger] score_analyses@[i] {
                    Option::Some(e) => e.1.wf(),
                    Option::None => true,
                },
        ensures
            ({
                let inputs = score_analyses@;
                let n = inputs.len() as int;
                &&& r.score_indices@ == spec_score_indices(inputs, n)
                &&& r.manipulations@ == spec_manipulations(inputs, n)
                &&& r.deviation_mean == (Ratio {
                    num: spec_dev_mean_total(inputs, n) as i128,
                    den: spec_count_some(inputs, n) as i128,
                })
                &&& r.notes_per_column@.len() == 4
                &&& r.cbs_per_column@.len() == 4
                &&& forall|c: int| 0 <= c < 4 ==> r.notes_per_column@[c] == spec_notes_total(
                    inputs,
                    n,
                    c,
                )
                &&& forall|c: int| 0 <= c < 4 ==> r.cbs_per_column@[c] == spec_cbs_total(
                    inputs,
                    n,
                    c,
                )
                &&& r.longest_mcombo.0 == spec_longest_mcombo_record(inputs, n).0
                &&& r.longest_mcombo.1@ == spec_longest_mcombo_record(inputs, n).1
                &&& r.offset_buckets@.len() == NUM_OFFSET_BUCKETS
                &&& r.sub_93_offset_buckets@.len() == NUM_OFFSET_BUCKETS
                &&& forall|k: int|
                    0 <= k < NUM_OFFSET_BUCKETS ==> r.offset_buckets@[k] == spec_buckets_total(
                        inputs,
                        n,
                        k,
                    )
                &&& forall|k: int|
                    0 <= k < NUM_OFFSET_BUCKETS ==> r.sub_93_offset_buckets@[k]
                        == spec_sub93_total(inputs, n, k)
                &&& r.standard_deviation.num == spec_variance(
                    r.offset_buckets@,
                    OFFSET_BUCKET_RANGE as int,
                ).0
                &&& r.standard_deviation.den == spec_variance(
                    r.offset_buckets@,
                    OFFSET_BUCKET_RANGE as int,
                ).1
                &&& r.fastest_combo == spec_speed_record(combo_records(inputs), n).0
                &&& r.fastest_combo_scorekey@ == spec_speed_record(combo_records(inputs), n).1
                &&& r.fastest_acc == spec_speed_record(acc_records(inputs), n).0
                &&& r.fastest_acc_scorekey@ == spec_speed_record(acc_records(inputs), n).1
                &&& r.fastest_jack == spec_speed_record(jack_records(inputs), n).0
                &&& r.fastest_jack_scorekey@ == spec_speed_record(jack_records(inputs), n).1
            }),
    {
        let ghost inputs = score_analyses@;
        let n = score_analyses.len();
        let mut score_indices: Vec<u64> = Vec::new();
        let mut manipulations: Vec<Ratio> = Vec::new();
        let mut dev_mean_total: i128 = 0;
        let mut count_some: u64 = 0;
        let mut notes_per_column: Vec<u64> = Vec::new();
        let mut cbs_per_column: Vec<u64> = Vec::new();
        let mut z: usize = 0;
        while z < 4
            invariant
                notes_per_column@.len() == z <= 4,
                cbs_per_column@.len() == z,
                forall|c: int| 0 <= c < z ==> notes_per_column@[c] == 0 && cbs_per_column@[c] == 0,
            decreases 4 - z,
        {
            notes_per_column.push(0);
            cbs_per_column.push(0);
            z += 1;
        }
        let mut offset_buckets: Vec<u64> = Vec::new();
        let mut sub_93_offset_buckets: Vec<u64> = Vec::new();
        let mut y: usize = 0;
        while y < 361
            invariant
                offset_buckets@.len() == y <= 361,
                sub_93_offset_buckets@.len() == y,
                forall|k: int|
                    0 <= k < y ==> offset_buckets@[k] == 0 && sub_93_offset_buckets@[k] == 0,
            decreases 361 - y,
        {
            offset_buckets.push(0);
            sub_93_offset_buckets.push(0);
            y += 1;
        }
        let mut longest_mcombo: u64 = 0;
        let mut longest_mcombo_scorekey: String = "<no chart>".to_owned();
        let mut fastest_combo = FastestComboInfo {
            start_second: 0,
            end_second: 0,
            length: 0,
            speed: Ratio { num: 0, den: 1 },
        };
        let mut fastest_combo_scorekey: String = "".to_owned();
        let mut fastest_acc = fastest_combo;
        let mut fastest_acc_scorekey: String = "".to_owned();
        let mut fastest_jack = fastest_combo;
        let mut fastest_jack_scorekey: String = "".to_owned();
        proof {
            reveal_strlit("");
            assert(fastest_combo_scorekey@ =~= Seq::<char>::empty());
        }
        let mut i: usize = 0;
        while i < n
            invariant
                0 <= i <= n == inputs.len() < u64::MAX,
                forall|t: int|
                    0 <= t < inputs.len() ==> match #[trigger] inputs[t] {
                        Option::Some(e) => e.1.wf(),
                        Option::None => true,
                    },
                score_indices@ == spec_score_indices(inputs, i as int),
                manipulations@ == spec_manipulations(inputs, i as int),
                count_some == spec_count_some(inputs, i as int),
                count_some <= i,
                dev_mean_total == spec_dev_mean_total(inputs, i as int),
                -90_000 * (count_some as int) <= dev_mean_total <= 90_000 * (count_some as int),
                notes_per_column@.len() == 4,
                cbs_per_column@.len() == 4,
                forall|c: int|
                    0 <= c < 4 ==> notes_per_column@[c] == spec_notes_total(inputs, i as int, c),
                forall|c: int|
                    0 <= c < 4 ==> cbs_per_column@[c] == spec_cbs_total(inputs, i as int, c),
                offset_buckets@.len() == NUM_OFFSET_BUCKETS,
                sub_93_offset_buckets@.len() == NUM_OFFSET_BUCKETS,
                forall|k: int|
                    0 <= k < NUM_OFFSET_BUCKETS ==> offset_buckets@[k] == spec_buckets_total(
                        inputs,
                        i as int,
                        k,
                    ),
                forall|k: int|
                    0 <= k < NUM_OFFSET_BUCKETS ==> sub_93_offset_buckets@[k] == spec_sub93_total(
                        inputs,
                        i as int,
                        k,
                    ),
                longest_mcombo == spec_longest_mcombo_record(inputs, i as int).0,
                longest_mcombo_scorekey@ == spec_longest_mcombo_record(inputs, i as int).1,
                fastest_combo == spec_speed_record(combo_records(inputs), i as int).0,
                fastest_combo_scorekey@ == spec_speed_record(combo_records(inputs), i as int).1,
                fastest_combo.wf(),
                fastest_acc == spec_speed_record(acc_records(inputs), i as int).0,
                fastest_acc_scorekey@ == spec_speed_record(acc_records(inputs), i as int).1,
                fastest_acc.wf(),
                fastest_jack == spec_speed_record(jack_records(inputs), i as int).0,
                fastest_jack_scorekey@ == spec_speed_record(jack_records(inputs), i as int).1,
                fastest_jack.wf(),
            decreases n - i,
        {
            proof {
                assert(combo_records(inputs)[i as int] == match inputs[i as int] {
                    Option::Some(e) => Option::Some((e.1.fastest_combo, e.0@)),
                    Option::None => Option::<(Option<FastestComboInfo>, Seq<char>)>::None,
                });
                assert(acc_records(inputs)[i as int] == match inputs[i as int] {
                    Option::Some(e) => Option::Some((e.1.fastest_acc, e.0@)),
                    Option::None => Option::<(Option<FastestComboInfo>, Seq<char>)>::None,
                });
                assert(jack_records(inputs)[i as int] == match inputs[i as int] {
                    Option::Some(e) => Option::Some((e.1.fastest_jack, e.0@)),
                    Option::None => Option::<(Option<FastestComboInfo>, Seq<char>)>::None,
                });
            }
            match &score_analyses[i] {
                Some(entry) => {
                    let scorekey = &entry.0;
                    let score = &entry.1;
                    let wifescore = entry.2;
                    score_indices.push(i as u64);
                    manipulations.push(score.manipulation);
                    // Batch mean of the per-replay truncated means.
                    let trunc: i128 = if score.deviation_mean.den > 0 {
                        proof {
                            lemma_ratio_trunc_bound(score.deviation_mean);
                            assert(score.deviation_mean.num > i128::MIN) by (nonlinear_arith)
                                requires
                                    -90_000 * score.deviation_mean.den <= score.deviation_mean.num,
                                    0 <= score.deviation_mean.den <= 0xffff_ffff_ffff_ffff,
                            ;
                        }
                        crate::numeric::div_trunc_i128(
                            score.deviation_mean.num,
                            score.deviation_mean.den,
                        )
                    } else {
                        0
                    };
                    proof {
                        lemma_ratio_trunc_bound(score.deviation_mean);
                    }
                    dev_mean_total = dev_mean_total + trunc;
                    count_some = count_some + 1;
                    let mut c: usize = 0;
                    while c < 4
                        invariant
                            0 <= c <= 4,
                            i < inputs.len(),
                            inputs[i as int] == Option::Some(*entry),
                            entry.1.wf(),
                            notes_per_column@.len() == 4,
                            cbs_per_column@.len() == 4,
                            forall|t: int|
                                c <= t < 4 ==> notes_per_column@[t] == spec_notes_total(
                                    inputs,
                                    i as int,
                                    t,
                                ) && cbs_per_column@[t] == spec_cbs_total(inputs, i as int, t),
                            forall|t: int|
                                0 <= t < c ==> notes_per_column@[t] == spec_notes_total(
                                    inputs,
                                    i + 1,
                                    t,
                                ) && cbs_per_column@[t] == spec_cbs_total(inputs, i + 1, t),
                        decreases 4 - c,
                    {
                        let old_n = notes_per_column[c];
                        let add_n = score.notes_per_column[c];
                        let new_n = if old_n <= u64::MAX - add_n {
                            old_n + add_n
                        } else {
                            u64::MAX
                        };
                        notes_per_column.set(c, new_n);
                        let old_b = cbs_per_column[c];
                        let add_b = score.cbs_per_column[c];
                        let new_b = if old_b <= u64::MAX - add_b {
                            old_b + add_b
                        } else {
                            u64::MAX
                        };
                        cbs_per_column.set(c, new_b);
                        c += 1;
                    }
                    let mut k: usize = 0;
                    while k < 361
                        invariant
                            0 <= k <= 361,
                            i < inputs.len(),
                            inputs[i as int] == Option::Some(*entry),
                            entry.1.wf(),
                            wifescore == entry.2,
                            offset_buckets@.len() == NUM_OFFSET_BUCKETS,
                            sub_93_offset_buckets@.len() == NUM_OFFSET_BUCKETS,
                            forall|t: int|
                                k <= t < NUM_OFFSET_BUCKETS ==> offset_buckets@[t]
                                    == spec_buckets_total(inputs, i as int, t)
                                    && sub_93_offset_buckets@[t] == spec_sub93_total(
                                    inputs,
                                    i as int,
                                    t,
                                ),
                            forall|t: int|
                                0 <= t < k ==> offset_buckets@[t] == spec_buckets_total(
                                    inputs,
                                    i + 1,
                                    t,
                                ) && sub_93_offset_buckets@[t] == spec_sub93_total(
                                    inputs,
                                    i + 1,
                                    t,
                                ),
                        decreases 361 - k,
                    {
                        let old_v = offset_buckets[k];
                        let add_v = score.offset_buckets[k];
                        let new_v = if old_v <= u64::MAX - add_v {
                            old_v + add_v
                        } else {
                            u64::MAX
                        };
                        offset_buckets.set(k, new_v);
                        if wifescore < 930_000 {
                            let old_s = sub_93_offset_buckets[k];
                            let new_s = if old_s <= u64::MAX - add_v {
                                old_s + add_v
                            } else {
                                u64::MAX
                            };
                            sub_93_offset_buckets.set(k, new_s);
                        }
                        k += 1;
                    }
                    if score.longest_mcombo > longest_mcombo {
                        longest_mcombo = score.longest_mcombo;
                        longest_mcombo_scorekey = scorekey.clone();
                    }
                    match &score.fastest_combo {
                        Some(fc) => {
                            if fc.speed.gt(&fastest_combo.speed) {
                                fastest_combo = *fc;
                                fastest_combo_scorekey = scorekey.clone();
                            }
                        },
                        None => {},
                    }
                    match &score.fastest_acc {
                        Some(fc) => {
                            if fc.speed.gt(&fastest_acc.speed) {
                                fastest_acc = *fc;
                                fastest_acc_scorekey = scorekey.clone();
                            }
                        },
                        None => {},
                    }
                    match &score.fastest_jack {
                        Some(fc) => {
                            if fc.speed.gt(&fastest_jack.speed) {
                                fastest_jack = *fc;
                                fastest_jack_scorekey = scorekey.clone();
                            }
                        },
                        None => {},
                    }
                },
                None => {},
            }
            i += 1;
        }
        let standard_deviation = calculate_standard_deviation(&offset_buckets, OFFSET_BUCKET_RANGE);
        ReplaysAnalysis {
            score_indices,
            manipulations,
            deviation_mean: Ratio { num: dev_mean_total, den: count_some as i128 },
            notes_per_column,
            cbs_per_column,
            longest_mcombo: (longest_mcombo, longest_mcombo_scorekey),
            offset_buckets,
            sub_93_offset_buckets,
            standard_deviation,
            fastest_combo,
            fastest_combo_scorekey,
            fastest_jack,
            fastest_jack_scorekey,
            fastest_acc,
            fastest_acc_scorekey,
        }
    }
}

/// A well-formed mean deviation truncates into the non-break window.
proof fn lemma_ratio_trunc_bound(r: Ratio)
    requires
        r.den >= 0,
        -90_000 * r.den <= r.num <= 90_000 * r.den,
    ensures
        -90_000 <= ratio_trunc(r) <= 90_000,
{
    if r.den > 0 {
        if r.num >= 0 {
            assert(r.num / r.den <= 90_000) by (nonlinear_arith)
                requires
                    r.num <= 90_000 * r.den,
                    r.den > 0,
                    r.num >= 0,
            ;
            assert(r.num / r.den >= 0) by (nonlinear_arith)
                requires
                    r.num >= 0,
                    r.den > 0,
            ;
        } else {
            assert((-(r.num as int)) / (r.den as int) <= 90_000) by (nonlinear_arith)
                requires
                    -90_000 * r.den <= r.num,
                    r.den > 0,
                    r.num < 0,
            ;
            assert((-(r.num as int)) / (r.den as int) >= 0) by (nonlinear_arith)
                requires
                    r.num < 0,
                    r.den > 0,
            ;
        }
    }
}

} // verus!
