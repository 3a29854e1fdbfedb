//! Byte-slice helpers shared by the parsers: whitespace trimming, newline
//! splitting with a minimum-line-length skip, and small sequence statistics.

use vstd::prelude::*;

verus! {

/// The six ASCII bytes this crate treats as whitespace: space, tab, line
/// feed, carriage return, form feed and vertical tab.
pub open spec fn is_ws(c: u8) -> bool {
    c == 32 || c == 9 || c == 10 || c == 13 || c == 12 || c == 11
}

pub fn is_ascii_whitespace(c: u8) -> (r: bool)
    ensures
        r == is_ws(c),
{
    c == 32 || c == 9 || c == 10 || c == 13 || c == 12 || c == 11
}

/// Index of the first non-whitespace byte at or after `i`, or `s.len()` if
/// there is none.
pub open spec fn first_non_ws(s: Seq<u8>, i: int) -> int
    decreases s.len() - i,
{
    if i < 0 || i >= s.len() {
        s.len() as int
    } else if !is_ws(s[i]) {
        i
    } else {
        first_non_ws(s, i + 1)
    }
}

/// Index of the last non-whitespace byte at or before `i`, or `-1` if there
/// is none.
pub open spec fn last_non_ws(s: Seq<u8>, i: int) -> int
    decreases i + 1,
{
    if i < 0 {
        -1
    } else if i >= s.len() {
        last_non_ws(s, s.len() - 1)
    } else if !is_ws(s[i]) {
        i
    } else {
        last_non_ws(s, i - 1)
    }
}

/// The trimmed view of `s`: everything from the first to the last
/// non-whitespace byte, or empty if `s` is all whitespace.
pub open spec fn spec_trim(s: Seq<u8>) -> Seq<u8> {
    if first_non_ws(s, 0) == s.len() {
        Seq::empty()
    } else {
        s.subrange(first_non_ws(s, 0), last_non_ws(s, s.len() - 1) + 1)
    }
}

proof fn lemma_first_non_ws_found(s: Seq<u8>, i: int, j: int)
    requires
        0 <= i <= j <= s.len(),
        forall|k: int| i <= k < j ==> is_ws(s[k]),
        j < s.len() ==> !is_ws(s[j]),
    ensures
        first_non_ws(s, i) == j,
    decreases j - i,
{
    if i < j {
        lemma_first_non_ws_found(s, i + 1, j);
    }
}

proof fn lemma_last_non_ws_found(s: Seq<u8>, i: int, j: int)
    requires
        -1 <= j <= i < s.len(),
        forall|k: int| j < k <= i ==> is_ws(s[k]),
        j >= 0 ==> !is_ws(s[j]),
    ensures
        last_non_ws(s, i) == j,
    decreases i - j,
{
    if j < i {
        lemma_last_non_ws_found(s, i - 1, j);
    }
}

/// Copy of `bstr` with leading and trailing ASCII whitespace removed.
pub fn trim_bstr(bstr: &[u8]) -> (r: Vec<u8>)
    ensures
        r@ == spec_trim(bstr@),
{
    let n = bstr.len();
    let mut start: usize = 0;
    while start < n && is_ascii_whitespace(bstr[start])
        invariant
            0 <= start <= n == bstr@.len(),
            forall|k: int| 0 <= k < start ==> is_ws(bstr@[k]),
        decreases n - start,
    {
        start += 1;
    }
    proof {
        lemma_first_non_ws_found(bstr@, 0, start as int);
    }
    if start == n {
        return Vec::new();
    }
    // There is a non-whitespace byte at `start`, so the backward scan stops
    // at or after it.
    let mut last: usize = n - 1;
    while last > start && is_ascii_whitespace(bstr[last])
        invariant
            start <= last < n == bstr@.len(),
            !is_ws(bstr@[start as int]),
            forall|k: int| last < k < n ==> is_ws(bstr@[k]),
        decreases last,
    {
        last -= 1;
    }
    proof {
        lemma_last_non_ws_found(bstr@, n as int - 1, last as int);
    }
    let mut r: Vec<u8> = Vec::new();
    let mut i: usize = start;
    while i <= last
        invariant
            start <= i <= last + 1,
            last < n == bstr@.len(),
            r@ == bstr@.subrange(start as int, i as int),
        decreases last + 1 - i,
    {
        r.push(bstr[i]);
        proof {
            assert(r@ =~= bstr@.subrange(start as int, i + 1));
        }
        i += 1;
    }
    r
}

/// A sequence is sorted when every element is at most each later one.
pub open spec fn sorted(s: Seq<u64>) -> bool {
    forall|i: int, j: int| 0 <= i <= j < s.len() ==> s[i] <= s[j]
}

proof fn lemma_adjacent_sorted(s: Seq<u64>, i: int, j: int)
    requires
        forall|k: int| 0 <= k < s.len() - 1 ==> #[trigger] s[k] <= s[k + 1],
        0 <= i <= j < s.len(),
    ensures
        s[i] <= s[j],
    decreases j - i,
{
    if i < j {
        assert(s[j - 1] <= s[j]);
        lemma_adjacent_sorted(s, i, j - 1);
    }
}

/// Does exactly what it says on the box.
pub fn is_sorted(data: &[u64]) -> (r: bool)
    ensures
        r == sorted(data@),
{
    let n = data.len();
    let mut i: usize = 0;
    while i + 1 < n
        invariant
            0 <= i < n || (i == 0 && n == 0),
            n == data@.len(),
            forall|k: int| 0 <= k < i ==> #[trigger] data@[k] <= data@[k + 1],
        decreases n - i,
    {
        if data[i] > data[i + 1] {
            return false;
        }
        i += 1;
    }
    proof {
        assert forall|a: int, b: int| 0 <= a <= b < data@.len() implies data@[a] <= data@[b] by {
            lemma_adjacent_sorted(data@, a, b);
        }
    }
    true
}

/// First element, last element and total count of a slice. With fewer than
/// two elements there is no distinct pair, so `None` is returned with the
/// count.
pub fn first_and_last_and_count<T: Copy>(data: &[T]) -> (r: (Option<(T, T)>, u64))
    ensures
        data@.len() == 0 ==> r == (Option::<(T, T)>::None, 0u64),
        data@.len() == 1 ==> r == (Option::<(T, T)>::None, 1u64),
        data@.len() >= 2 ==> r == (
            Option::<(T, T)>::Some((data@[0], data@[data@.len() - 1])),
            data@.len() as u64,
        ),
{
    let n = data.len();
    if n == 0 {
        (None, 0)
    } else if n == 1 {
        (None, 1)
    } else {
        (Some((data[0], data[n - 1])), n as u64)
    }
}

/// Running fold of the longest-run scan: `(longest, current)` after the
/// first `i` elements. A `false` element records the finished run when it
/// beats the longest so far, and always resets the counter.
pub open spec fn longest_true_fold(s: Seq<bool>, i: int) -> (int, int)
    decreases i,
{
    if i <= 0 {
        (0, 0)
    } else {
        let (longest, current) = longest_true_fold(s, i - 1);
        if s[i - 1] {
            (longest, current + 1)
        } else if current > longest {
            (current, 0)
        } else {
            (longest, 0)
        }
    }
}

/// Length of the longest contiguous run of `true` values, a trailing run
/// included.
pub open spec fn spec_longest_true_sequence(s: Seq<bool>) -> int {
    let (longest, current) = longest_true_fold(s, s.len() as int);
    if current > longest {
        current
    } else {
        longest
    }
}

pub fn longest_true_sequence(data: &[bool]) -> (r: u64)
    requires
        data@.len() <= u64::MAX,
    ensures
        r == spec_longest_true_sequence(data@),
{
    let n = data.len();
    let mut longest_so_far: u64 = 0;
    let mut current_run: u64 = 0;
    let mut i: usize = 0;
    while i < n
        invariant
            0 <= i <= n == data@.len() <= u64::MAX,
            longest_true_fold(data@, i as int) == (longest_so_far as int, current_run as int),
            current_run <= i,
            longest_so_far <= i,
        decreases n - i,
    {
        if data[i] {
            current_run += 1;
        } else {
            if current_run > longest_so_far {
                longest_so_far = current_run;
            }
            current_run = 0;
        }
        i += 1;
    }
    if current_run > longest_so_far {
        longest_so_far = current_run;
    }
    longest_so_far
}

/// Index of the first line feed at or after `i`, or `s.len()` if there is
/// none.
pub open spec fn find_newline(s: Seq<u8>, i: int) -> int
    decreases s.len() - i,
{
    if i < 0 || i >= s.len() {
        s.len() as int
    } else if s[i] == 10 {
        i
    } else {
        find_newline(s, i + 1)
    }
}

pub proof fn lemma_find_newline_ge(s: Seq<u8>, i: int)
    requires
        0 <= i,
    ensures
        find_newline(s, i) <= s.len(),
        i <= s.len() ==> i <= find_newline(s, i),
    decreases s.len() - i,
{
    if i < s.len() && s[i] != 10 {
        lemma_find_newline_ge(s, i + 1);
    }
}

proof fn lemma_find_newline_found(s: Seq<u8>, i: int, j: int)
    requires
        0 <= i <= j <= s.len(),
        forall|k: int| i <= k < j ==> s[k] != 10,
        j < s.len() ==> s[j] == 10,
    ensures
        find_newline(s, i) == j,
    decreases j - i,
{
    if i < j {
        lemma_find_newline_found(s, i + 1, j);
    }
}

/// The line ranges produced by the minimum-length newline split, starting at
/// `pos`: each line runs to the first line feed at or after `pos + min`,
/// clipped to the end of the buffer, and the line feed is consumed.
pub open spec fn spec_split_newlines(s: Seq<u8>, min: int, pos: int) -> Seq<(int, int)>
    decreases s.len() + 1 - pos when min >= 0 via split_newlines_decreases
{
    if pos < 0 || pos >= s.len() {
        Seq::empty()
    } else {
        let end = find_newline(s, pos + min);
        seq![(pos, end)] + spec_split_newlines(s, min, end + 1)
    }
}

#[via_fn]
proof fn split_newlines_decreases(s: Seq<u8>, min: int, pos: int) {
    if 0 <= pos < s.len() {
        lemma_find_newline_ge(s, pos + min);
    }
}

/// Like splitting a byte buffer at line feeds, but the first `min_line_length`
/// bytes of each line are skipped before the next line feed is searched, so a
/// line feed inside that prefix is kept in the line. An empty trailing line
/// after a final line feed is not reported.
pub fn split_newlines(bytes: &[u8], min_line_length: usize) -> (r: Vec<(usize, usize)>)
    requires
        bytes@.len() + min_line_length < usize::MAX,
    ensures
        r@.len() == spec_split_newlines(bytes@, min_line_length as int, 0).len(),
        forall|k: int|
            0 <= k < r@.len() ==> (#[trigger] r@[k]).0
                == spec_split_newlines(bytes@, min_line_length as int, 0)[k].0 && r@[k].1
                == spec_split_newlines(bytes@, min_line_length as int, 0)[k].1,
        forall|k: int|
            0 <= k < r@.len() ==> 0 <= (#[trigger] r@[k]).0 <= r@[k].1 <= bytes@.len(),
{
    let ghost lines = spec_split_newlines(bytes@, min_line_length as int, 0);
    let n = bytes.len();
    let mut r: Vec<(usize, usize)> = Vec::new();
    let mut pos: usize = 0;
    while pos < n
        invariant
            bytes@.len() + min_line_length < usize::MAX,
            n == bytes@.len(),
            0 <= pos <= n + 1,
            lines == spec_split_newlines(bytes@, min_line_length as int, 0),
            lines =~= r@.map_values(|p: (usize, usize)| (p.0 as int, p.1 as int))
                + spec_split_newlines(bytes@, min_line_length as int, pos as int),
            forall|k: int| 0 <= k < r@.len() ==> 0 <= (#[trigger] r@[k]).0 <= r@[k].1 <= bytes@.len(),
        decreases n + 1 - pos,
    {
        let start = pos;
        let mut cur = if start + min_line_length < n {
            start + min_line_length
        } else {
            n
        };
        while cur < n && bytes[cur] != 10
            invariant
                start + min_line_length <= cur || cur == n,
                cur <= n == bytes@.len(),
                forall|k: int| start + min_line_length <= k < cur ==> bytes@[k] != 10,
            decreases n - cur,
        {
            cur += 1;
        }
        proof {
            if start + min_line_length <= n {
                lemma_find_newline_found(bytes@, start + min_line_length, cur as int);
            }
        }
        r.push((start, cur));
        pos = cur + 1;
        proof {
            assert(lines =~= r@.map_values(|p: (usize, usize)| (p.0 as int, p.1 as int))
                + spec_split_newlines(bytes@, min_line_length as int, pos as int));
        }
    }
    proof {
        assert(lines =~= r@.map_values(|p: (usize, usize)| (p.0 as int, p.1 as int)));
        assert forall|k: int| 0 <= k < r@.len() implies (#[trigger] r@[k]).0 == lines[k].0
            && r@[k].1 == lines[k].1 by {
            assert(lines[k] == r@.map_values(|p: (usize, usize)| (p.0 as int, p.1 as int))[k]);
        }
    }
    r
}


/// ASCII digit test.
pub open spec fn is_digit(c: u8) -> bool {
    48 <= c <= 57
}

pub open spec fn all_digits(s: Seq<u8>) -> bool {
    forall|i: int| 0 <= i < s.len() ==> is_digit(#[trigger] s[i])
}

/// Value of a digit string read in base ten (zero when empty).
pub open spec fn digits_val(s: Seq<u8>) -> int
    decreases s.len(),
{
    if s.len() == 0 {
        0
    } else {
        digits_val(s.drop_last()) * 10 + (s.last() - 48)
    }
}

/// Index of the first occurrence of `c` at or after `i`, or `s.len()` if
/// there is none.
pub open spec fn find_byte(s: Seq<u8>, c: u8, i: int) -> int
    decreases s.len() - i,
{
    if i < 0 || i >= s.len() {
        s.len() as int
    } else if s[i] == c {
        i
    } else {
        find_byte(s, c, i + 1)
    }
}

pub proof fn lemma_find_byte_ge(s: Seq<u8>, c: u8, i: int)
    requires
        0 <= i,
    ensures
        find_byte(s, c, i) <= s.len(),
        i <= s.len() ==> i <= find_byte(s, c, i),
    decreases s.len() - i,
{
    if i < s.len() && s[i] != c {
        lemma_find_byte_ge(s, c, i + 1);
    }
}

pub proof fn lemma_find_byte_found(s: Seq<u8>, c: u8, i: int, j: int)
    requires
        0 <= i <= j <= s.len(),
        forall|k: int| i <= k < j ==> s[k] != c,
        j < s.len() ==> s[j] == c,
    ensures
        find_byte(s, c, i) == j,
    decreases j - i,
{
    if i < j {
        lemma_find_byte_found(s, c, i + 1, j);
    }
}

pub open spec fn pow10(k: int) -> int
    decreases k,
{
    if k <= 0 {
        1
    } else {
        10 * pow10(k - 1)
    }
}

proof fn lemma_pow10_pos(k: int)
    ensures
        pow10(k) >= 1,
    decreases k,
{
    if k > 0 {
        lemma_pow10_pos(k - 1);
    }
}

proof fn lemma_pow10_mono(a: int, b: int)
    requires
        a <= b,
    ensures
        pow10(a) <= pow10(b),
    decreases b,
{
    if a < b && b > 0 {
        lemma_pow10_mono(a, b - 1);
        lemma_pow10_pos(b - 1);
    }
}

proof fn lemma_pow10_le13(k: int)
    requires
        0 <= k <= 13,
    ensures
        1 <= pow10(k) <= 10_000_000_000_000,
{
    reveal_with_fuel(pow10, 15);
    lemma_pow10_pos(k);
    lemma_pow10_mono(k, 13);
}

proof fn lemma_pow10_small(k: int)
    requires
        0 <= k <= 6,
    ensures
        1 <= pow10(k) <= 1_000_000,
        pow10(6) == 1_000_000,
{
    reveal_with_fuel(pow10, 8);
    lemma_pow10_pos(k);
    lemma_pow10_mono(k, 6);
}

/// Restriction of `all_digits` to a subrange.
proof fn lemma_all_digits_subrange(s: Seq<u8>, a: int, b: int)
    requires
        all_digits(s),
        0 <= a <= b <= s.len(),
    ensures
        all_digits(s.subrange(a, b)),
{
    assert forall|i: int| 0 <= i < b - a implies is_digit(#[trigger] s.subrange(a, b)[i]) by {
        assert(s.subrange(a, b)[i] == s[a + i]);
        assert(is_digit(s[a + i]));
    }
}

/// Leading zeros do not change a digit string's value.
proof fn lemma_digits_val_leading_zeros(s: Seq<u8>, k: int)
    requires
        0 <= k <= s.len(),
        forall|i: int| 0 <= i < k ==> s[i] == 48,
    ensures
        digits_val(s) == digits_val(s.subrange(k, s.len() as int)),
    decreases s.len(),
{
    if k == 0 {
        assert(s.subrange(0, s.len() as int) =~= s);
    } else {
        let d = s.drop_last();
        assert(forall|i: int| 0 <= i < d.len() ==> #[trigger] d[i] == s[i]);
        if k == s.len() {
            lemma_digits_val_leading_zeros(d, k - 1);
            assert(d.subrange(k - 1, d.len() as int) =~= Seq::<u8>::empty());
            assert(s.subrange(k, s.len() as int) =~= Seq::<u8>::empty());
            assert(s.last() == 48);
        } else {
            lemma_digits_val_leading_zeros(d, k);
            assert(d.subrange(k, d.len() as int) =~= s.subrange(k, s.len() as int).drop_last());
            assert(s.subrange(k, s.len() as int).last() == s.last());
        }
    }
}

/// Step of the left-to-right digit accumulation.
proof fn lemma_digits_val_push(s: Seq<u8>, i: int)
    requires
        0 <= i < s.len(),
    ensures
        digits_val(s.take(i + 1)) == digits_val(s.take(i)) * 10 + (s[i] - 48),
{
    assert(s.take(i + 1).drop_last() =~= s.take(i));
    assert(s.take(i + 1).last() == s[i]);
}

/// A digit string with a leading non-zero digit is worth at least
/// `pow10(len - 1)`.
proof fn lemma_digits_min_length(s: Seq<u8>)
    requires
        all_digits(s),
        s.len() > 0,
        s[0] != 48,
    ensures
        digits_val(s) >= pow10(s.len() - 1),
    decreases s.len(),
{
    assert(is_digit(s[s.len() - 1]));
    if s.len() == 1 {
        assert(is_digit(s[0]));
        assert(s.drop_last() =~= Seq::<u8>::empty());
        assert(digits_val(Seq::<u8>::empty()) == 0);
        assert(digits_val(s) == 0 * 10 + (s.last() - 48));
        assert(pow10(0) == 1);
    } else {
        let d = s.drop_last();
        assert(forall|i: int| 0 <= i < d.len() ==> #[trigger] d[i] == s[i]);
        assert(all_digits(d));
        lemma_digits_min_length(d);
        assert(d.len() == s.len() - 1);
        assert(digits_val(d) >= pow10(s.len() - 2));
        assert(digits_val(d) * 10 >= pow10(s.len() - 2) * 10) by (nonlinear_arith)
            requires
                digits_val(d) >= pow10(s.len() - 2),
        ;
        assert(digits_val(s) == digits_val(d) * 10 + (s.last() - 48));
        assert(s.last() >= 48);
        assert(pow10(s.len() - 1) == 10 * pow10(s.len() - 2));
    }
}

/// A digit string of more than thirteen digits with a non-zero lead is
/// worth more than a trillion.
proof fn lemma_digits_val_lower(s: Seq<u8>)
    requires
        all_digits(s),
        s.len() >= 14,
        s[0] != 48,
    ensures
        digits_val(s) > 1_000_000_000_000,
    decreases s.len(),
{
    assert(is_digit(s[s.len() - 1]));
    let d = s.drop_last();
    assert(forall|i: int| 0 <= i < d.len() ==> #[trigger] d[i] == s[i]);
    assert(all_digits(d));
    if s.len() > 14 {
        lemma_digits_val_lower(d);
    } else {
        lemma_digits_min_length(d);
        reveal_with_fuel(pow10, 14);
        assert(pow10(12) == 1_000_000_000_000);
    }
}

/// Scan a digit run and accumulate its value. `None` when a byte is not a
/// digit or the value is past a trillion.
#[verifier::loop_isolation(false)]
fn digits_to_val(s: &[u8], start: usize, end: usize) -> (r: Option<i64>)
    requires
        0 <= start <= end <= s@.len(),
    ensures
        match r {
            Some(v) => all_digits(s@.subrange(start as int, end as int)) && v == digits_val(
                s@.subrange(start as int, end as int),
            ) && 0 <= v <= 1_000_000_000_000,
            None => !all_digits(s@.subrange(start as int, end as int)) || digits_val(
                s@.subrange(start as int, end as int),
            ) > 1_000_000_000_000,
        },
{
    let ghost whole = s@.subrange(start as int, end as int);
    // Skip leading zeros so that only the significant digits are length
    // limited.
    let mut i = start;
    while i < end && s[i] == 48
        invariant
            start <= i <= end <= s@.len(),
            forall|k: int| start <= k < i ==> s@[k] == 48,
        decreases end - i,
    {
        i += 1;
    }
    let sig_start = i;
    let mut val: i64 = 0;
    while i < end
        invariant
            start <= sig_start <= i <= end <= s@.len(),
            forall|k: int| start <= k < sig_start ==> s@[k] == 48,
            i > sig_start ==> s@[sig_start as int] != 48,
            all_digits(s@.subrange(sig_start as int, i as int)),
            val == digits_val(s@.subrange(sig_start as int, i as int)),
            i - sig_start <= 13,
            0 <= val < pow10(i - sig_start),
            pow10(i - sig_start) <= 10_000_000_000_000,
        decreases end - i,
    {
        let c = s[i];
        if c < 48 || c > 57 {
            proof {
                assert(whole[i - start as int] == s@[i as int]);
                assert(!is_digit(whole[i - start as int]));
            }
            return None;
        }
        if i - sig_start == 13 {
            // A fourteenth significant digit: past the accepted range for
            // sure, whatever follows.
            proof {
                if all_digits(whole) {
                    let sig = s@.subrange(sig_start as int, end as int);
                    assert(forall|k: int|
                        0 <= k < whole.len() ==> #[trigger] whole[k] == s@[start + k]);
                    assert(forall|k: int|
                        0 <= k < sig.len() ==> #[trigger] sig[k] == s@[sig_start + k]);
                    assert(all_digits(sig)) by {
                        assert(forall|k: int|
                            0 <= k < sig.len() ==> sig[k] == whole[k + sig_start - start]);
                    }
                    assert(sig[0] == s@[sig_start as int]);
                    lemma_digits_val_lower(sig);
                    lemma_digits_val_leading_zeros(whole, sig_start - start as int);
                    assert(whole.subrange(sig_start - start, whole.len() as int) =~= sig);
                }
            }
            return None;
        }
        proof {
            lemma_digits_val_push(s@.subrange(sig_start as int, end as int), i - sig_start);
            assert(s@.subrange(sig_start as int, end as int).take(i - sig_start) =~= s@.subrange(
                sig_start as int,
                i as int,
            ));
            assert(s@.subrange(sig_start as int, end as int).take(i - sig_start + 1)
                =~= s@.subrange(sig_start as int, i + 1));
            assert(s@.subrange(sig_start as int, end as int)[i - sig_start] == s@[i as int]);
            assert(pow10(i + 1 - sig_start) == 10 * pow10(i - sig_start));
            lemma_pow10_le13(i + 1 - sig_start);
            assert(forall|k: int|
                0 <= k < i + 1 - sig_start ==> #[trigger] s@.subrange(sig_start as int, i + 1)[k]
                    == s@[sig_start + k]);
        }
        val = val * 10 + (c - 48) as i64;
        i += 1;
    }
    proof {
        let sig = s@.subrange(sig_start as int, end as int);
        assert(sig =~= s@.subrange(sig_start as int, i as int));
        lemma_digits_val_leading_zeros(whole, sig_start - start as int);
        assert(whole.subrange(sig_start - start, whole.len() as int) =~= sig);
        if val <= 1_000_000_000_000 {
            assert(all_digits(whole)) by {
                assert(forall|k: int|
                    0 <= k < whole.len() ==> #[trigger] whole[k] == s@[start + k]);
                assert(forall|k: int|
                    0 <= k < sig.len() ==> #[trigger] sig[k] == s@[sig_start + k]);
                assert(forall|k: int|
                    0 <= k < whole.len() ==> is_digit(whole[k])) by {
                    assert(forall|k: int|
                        0 <= k < sig_start - start ==> whole[k] == 48);
                    assert(forall|k: int|
                        sig_start - start <= k < whole.len() ==> whole[k] == sig[k - (sig_start
                            - start)]);
                }
            }
        }
    }
    if val > 1_000_000_000_000 {
        None
    } else {
        Some(val)
    }
}

/// Index of the first exponent marker (`e` or `E`) at or after `i`, or
/// `s.len()` if there is none.
pub open spec fn find_exp_marker(s: Seq<u8>, i: int) -> int
    decreases s.len() - i,
{
    if i < 0 || i >= s.len() {
        s.len() as int
    } else if s[i] == 101 || s[i] == 69 {
        i
    } else {
        find_exp_marker(s, i + 1)
    }
}

pub proof fn lemma_find_exp_marker_found(s: Seq<u8>, i: int, j: int)
    requires
        0 <= i <= j <= s.len(),
        forall|k: int| i <= k < j ==> s[k] != 101 && s[k] != 69,
        j < s.len() ==> s[j] == 101 || s[j] == 69,
    ensures
        find_exp_marker(s, i) == j,
    decreases j - i,
{
    if i < j {
        lemma_find_exp_marker_found(s, i + 1, j);
    }
}

/// The exponent after the marker: an optional sign, then at least one
/// digit; zero when there is no marker at all.
pub open spec fn spec_parse_exponent(body: Seq<u8>, epos: int) -> Option<int> {
    if epos >= body.len() {
        Option::Some(0)
    } else {
        let ex = body.subrange(epos + 1, body.len() as int);
        let esigned = ex.len() > 0 && (ex[0] == 45 || ex[0] == 43);
        let ed = if esigned {
            ex.subrange(1, ex.len() as int)
        } else {
            ex
        };
        if ed.len() == 0 || !all_digits(ed) {
            Option::None
        } else if ex[0] == 45 {
            Option::Some(-digits_val(ed))
        } else {
            Option::Some(digits_val(ed))
        }
    }
}

/// Exact scaled-decimal grammar: an optional minus sign, digits with at
/// most one point among them (at least one digit in all), and an optional
/// exponent of ten. The value is in millionths; the mantissa is truncated
/// toward zero at the sixth fractional digit before the exponent shifts
/// it, and the shift itself truncates toward zero. A whole part above a
/// trillion, or a shifted magnitude above two trillion seconds, is outside
/// the fixed-point range and rejected.
pub open spec fn spec_parse_decimal_micro(s: Seq<u8>) -> Option<i64> {
    let neg = s.len() > 0 && s[0] == 45;
    let body = if neg {
        s.subrange(1, s.len() as int)
    } else {
        s
    };
    let epos = find_exp_marker(body, 0);
    let mant = body.subrange(0, epos);
    let dot = find_byte(mant, 46, 0);
    let ipart = mant.subrange(0, dot);
    let fpart = if dot < mant.len() {
        mant.subrange(dot + 1, mant.len() as int)
    } else {
        Seq::empty()
    };
    if !(all_digits(ipart) && all_digits(fpart)) {
        Option::None
    } else if ipart.len() + fpart.len() == 0 {
        Option::None
    } else if digits_val(ipart) > 1_000_000_000_000 {
        Option::None
    } else {
        match spec_parse_exponent(body, epos) {
            Option::None => Option::None,
            Option::Some(e) => {
                let m = digits_val(ipart) * 1_000_000 + frac_micro(fpart);
                let v = if e >= 0 {
                    m * pow10(e)
                } else {
                    m / pow10(-e)
                };
                if v > 2_000_000_000_000_000_000 {
                    Option::None
                } else if neg {
                    Option::Some((-v) as i64)
                } else {
                    Option::Some(v as i64)
                }
            },
        }
    }
}

/// The first six fractional digits, scaled to millionths.
pub open spec fn frac_micro(fpart: Seq<u8>) -> int {
    if fpart.len() >= 6 {
        digits_val(fpart.take(6))
    } else {
        digits_val(fpart) * pow10(6 - fpart.len())
    }
}

proof fn lemma_pow10_vals()
    ensures
        pow10(17) == 100_000_000_000_000_000,
        pow10(18) == 1_000_000_000_000_000_000,
        pow10(19) == 10_000_000_000_000_000_000,
{
    reveal_with_fuel(pow10, 21);
}

/// `pow10` for small exponents, as a machine value.
fn pow10_i128(k: usize) -> (r: i128)
    requires
        k <= 18,
    ensures
        r == pow10(k as int),
        1 <= r <= 1_000_000_000_000_000_000,
{
    let mut p: i128 = 1;
    let mut t: usize = 0;
    while t < k
        invariant
            0 <= t <= k <= 18,
            p == pow10(t as int),
            1 <= p,
        decreases k - t,
    {
        proof {
            assert(pow10(t + 1) == 10 * pow10(t as int));
            lemma_pow10_mono(t as int, 17);
            lemma_pow10_vals();
        }
        p = p * 10;
        t += 1;
    }
    proof {
        lemma_pow10_pos(k as int);
        lemma_pow10_mono(k as int, 18);
        lemma_pow10_vals();
    }
    p
}

/// Parse a scaled decimal: optional minus, digits, optional point and
/// fractional digits, optional exponent of ten, yielding millionths
/// truncated toward zero.
#[verifier::loop_isolation(false)]
#[verifier::rlimit(100)]
pub fn parse_decimal_micro(s: &[u8]) -> (r: Option<i64>)
    ensures
        r == spec_parse_decimal_micro(s@),
{
    let n = s.len();
    let neg = n > 0 && s[0] == 45;
    let body_start: usize = if neg {
        1
    } else {
        0
    };
    let ghost body = if neg {
        s@.subrange(1, n as int)
    } else {
        s@
    };
    proof {
        assert(forall|k: int|
            0 <= k < body.len() ==> #[trigger] body[k] == s@[body_start + k]);
    }
    // Locate the exponent marker, then the decimal point before it.
    let mut epos = body_start;
    while epos < n && s[epos] != 101 && s[epos] != 69
        invariant
            body_start <= epos <= n == s@.len(),
            forall|k: int| body_start <= k < epos ==> s@[k] != 101 && s@[k] != 69,
        decreases n - epos,
    {
        epos += 1;
    }
    let ghost spec_epos = find_exp_marker(body, 0);
    proof {
        lemma_find_exp_marker_found(body, 0, epos - body_start as int);
        assert(spec_epos == epos - body_start);
    }
    let ghost mant = body.subrange(0, spec_epos);
    proof {
        assert(mant =~= s@.subrange(body_start as int, epos as int));
    }
    let (ipart_val, scaled) = match parse_mantissa(s, body_start, epos, Ghost(mant)) {
        Some(pair) => pair,
        None => {
            return None;
        },
    };
    let ghost spec_dot = find_byte(mant, 46, 0);
    let ghost ipart = mant.subrange(0, spec_dot);
    let ghost fpart = if spec_dot < mant.len() {
        mant.subrange(spec_dot + 1, mant.len() as int)
    } else {
        Seq::<u8>::empty()
    };
    // Read the exponent field, then shift the mantissa by it.
    let ghost spec_e = spec_parse_exponent(body, spec_epos);
    proof {
        assert(body =~= s@.subrange(body_start as int, n as int));
    }
    let (eneg, e_sat) = match read_exponent(s, body_start, epos, Ghost(body)) {
        Some(pair) => pair,
        None => {
            return None;
        },
    };
    let m: i128 = (ipart_val as i128) * 1_000_000 + (scaled as i128);
    let ghost spec_m = digits_val(ipart) * 1_000_000 + frac_micro(fpart);
    let ghost e_val = spec_e.unwrap();
    proof {
        assert(m == spec_m);
        assert(0 <= m <= 1_000_000_000_000_999_999);
    }
    let v = match shift_exponent(m, eneg, e_sat, Ghost(e_val)) {
        Some(x) => x,
        None => {
            return None;
        },
    };
    if neg {
        Some((-v) as i64)
    } else {
        Some(v as i64)
    }
}


/// Parse the mantissa bytes `[body_start, epos)` of `s`: whole digits, an
/// optional point, fractional digits truncated at six places. Yields the
/// whole part's value and the fraction in millionths.
#[verifier::loop_isolation(false)]
#[verifier::rlimit(100)]
fn parse_mantissa(s: &[u8], body_start: usize, epos: usize, Ghost(mant): Ghost<Seq<u8>>) -> (r:
    Option<(i64, i64)>)
    requires
        body_start <= epos <= s@.len(),
        mant == s@.subrange(body_start as int, epos as int),
    ensures
        ({
            let dot = find_byte(mant, 46, 0);
            let ipart = mant.subrange(0, dot);
            let fpart = if dot < mant.len() {
                mant.subrange(dot + 1, mant.len() as int)
            } else {
                Seq::<u8>::empty()
            };
            match r {
                Some(pair) => all_digits(ipart) && all_digits(fpart) && ipart.len() + fpart.len()
                    > 0 && digits_val(ipart) <= 1_000_000_000_000 && pair.0 == digits_val(ipart)
                    && pair.1 == frac_micro(fpart) && 0 <= pair.0 <= 1_000_000_000_000 && 0
                    <= pair.1 <= 999_999,
                None => !(all_digits(ipart) && all_digits(fpart)) || ipart.len() + fpart.len()
                    == 0 || digits_val(ipart) > 1_000_000_000_000,
            }
        }),
{
    let ghost spec_epos = epos - body_start as int;
    proof {
        assert(forall|k: int|
            0 <= k < mant.len() ==> #[trigger] mant[k] == s@[body_start + k]);
    }
    let mut dot = body_start;
    while dot < epos && s[dot] != 46
        invariant
            body_start <= dot <= epos,
            forall|k: int| body_start <= k < dot ==> s@[k] != 46,
        decreases epos - dot,
    {
        dot += 1;
    }
    let ghost spec_dot = find_byte(mant, 46, 0);
    proof {
        lemma_find_byte_found(mant, 46, 0, dot - body_start as int);
        assert(spec_dot == dot - body_start);
    }
    let ghost ipart = mant.subrange(0, spec_dot);
    let ghost fpart = if spec_dot < mant.len() {
        mant.subrange(spec_dot + 1, mant.len() as int)
    } else {
        Seq::<u8>::empty()
    };
    let ipart_val = match digits_to_val(s, body_start, dot) {
        Some(v) => v,
        None => {
            proof {
                assert(s@.subrange(body_start as int, dot as int) =~= ipart);
            }
            return None;
        },
    };
    proof {
        assert(s@.subrange(body_start as int, dot as int) =~= ipart);
    }
    let fpart_start = if dot < epos {
        dot + 1
    } else {
        dot
    };
    proof {
        assert(fpart.len() == epos - fpart_start);
        assert(forall|k: int|
            0 <= k < fpart.len() ==> #[trigger] fpart[k] == s@[fpart_start + k]);
    }
    // At most the first six fractional digits matter; the rest must still
    // be digits.
    let mut frac: i64 = 0;
    let mut fcount: usize = 0;
    let mut j = fpart_start;
    while j < epos
        invariant
            fpart_start <= j <= epos,
            fpart.len() == epos - fpart_start,
            forall|k: int| 0 <= k < fpart.len() ==> #[trigger] fpart[k] == s@[fpart_start + k],
            fcount == if j - fpart_start <= 6 {
                j - fpart_start
            } else {
                6
            },
            all_digits(fpart.take(j - fpart_start)),
            frac == digits_val(fpart.take(fcount as int)),
            0 <= frac < pow10(fcount as int),
            pow10(fcount as int) <= 1_000_000,
        decreases epos - j,
    {
        let c = s[j];
        if c < 48 || c > 57 {
            proof {
                assert(fpart[j - fpart_start] == s@[j as int]);
                assert(!is_digit(fpart[j - fpart_start]));
            }
            return None;
        }
        proof {
            assert(fpart.take(j - fpart_start + 1).drop_last() =~= fpart.take(j - fpart_start));
            assert(fpart.take(j - fpart_start + 1).last() == fpart[j - fpart_start]);
            assert(forall|k: int|
                0 <= k < j - fpart_start + 1 ==> #[trigger] fpart.take(j - fpart_start + 1)[k]
                    == fpart[k]);
        }
        if fcount < 6 {
            proof {
                lemma_digits_val_push(fpart.take(j - fpart_start + 1), fcount as int);
                assert(fpart.take(j - fpart_start + 1).take(fcount as int) =~= fpart.take(
                    fcount as int,
                ));
                assert(fpart.take(j - fpart_start + 1).take(fcount + 1) =~= fpart.take(
                    fcount + 1,
                ));
                assert(fpart.take(j - fpart_start + 1)[fcount as int] == fpart[fcount as int]);
                assert(pow10(fcount + 1) == 10 * pow10(fcount as int));
                lemma_pow10_small(fcount + 1);
            }
            frac = frac * 10 + (c - 48) as i64;
            fcount += 1;
        }
        j += 1;
    }
    proof {
        assert(fpart.take(fpart.len() as int) =~= fpart);
    }
    // Scale a short fraction up to six places.
    let mut scaled = frac;
    let mut k = fcount;
    proof {
        assert(pow10(0) == 1);
        assert(frac * pow10(0) == frac) by (nonlinear_arith)
            requires
                pow10(0) == 1,
        ;
    }
    while k < 6
        invariant
            fcount <= k <= 6,
            frac == digits_val(fpart.take(fcount as int)),
            scaled == digits_val(fpart.take(fcount as int)) * pow10(k - fcount),
            0 <= scaled < pow10(k as int),
            pow10(k as int) <= 1_000_000,
        decreases 6 - k,
    {
        proof {
            assert(pow10(k + 1 - fcount) == 10 * pow10(k - fcount));
            assert(pow10(k + 1) == 10 * pow10(k as int));
            lemma_pow10_small(k + 1);
            assert(digits_val(fpart.take(fcount as int)) * pow10(k + 1 - fcount) == digits_val(
                fpart.take(fcount as int),
            ) * pow10(k - fcount) * 10) by (nonlinear_arith)
                requires
                    pow10(k + 1 - fcount) == 10 * pow10(k - fcount),
            ;
        }
        scaled = scaled * 10;
        k += 1;
    }
    proof {
        if fpart.len() >= 6 {
            assert(fcount == 6);
            assert(scaled == frac);
            assert(scaled == frac_micro(fpart));
        } else {
            assert(fcount == fpart.len());
            assert(fpart.take(fcount as int) =~= fpart);
            assert(scaled == frac_micro(fpart));
        }
        lemma_pow10_small(6);
    }
    if dot == body_start && fcount == 0 {
        // Neither whole nor fractional digits.
        return None;
    }
    Some((ipart_val, scaled))
}

/// Read the exponent field after the marker at `epos`: an optional sign
/// and at least one digit, the magnitude clipped at nineteen, beyond which
/// every representable value has left the fixed-point range anyway.
#[verifier::loop_isolation(false)]
fn read_exponent(s: &[u8], body_start: usize, epos: usize, Ghost(body): Ghost<Seq<u8>>) -> (r:
    Option<(bool, i64)>)
    requires
        body_start <= epos <= s@.len(),
        body == s@.subrange(body_start as int, s@.len() as int),
    ensures
        ({
            let se = spec_parse_exponent(body, epos - body_start);
            match r {
                Some(pair) => se is Some && 0 <= pair.1 <= 189 && (pair.0 ==> se.unwrap() <= 0 && (
                (pair.1 <= 18 && se.unwrap() == -pair.1) || (pair.1 >= 19 && se.unwrap() <= -19)))
                    && (!pair.0 ==> se.unwrap() >= 0 && ((pair.1 <= 18 && se.unwrap() == pair.1)
                    || (pair.1 >= 19 && se.unwrap() >= 19))),
                None => se is None,
            }
        }),
{
    let n = s.len();
    let ghost spec_epos = epos - body_start as int;
    let ghost spec_e = spec_parse_exponent(body, spec_epos);
    if epos == n {
        return Some((false, 0));
    }
    let ghost ex = body.subrange(spec_epos + 1, body.len() as int);
    proof {
        assert(forall|k: int| 0 <= k < ex.len() ==> #[trigger] ex[k] == s@[epos + 1 + k]);
    }
    let mut eneg = false;
    let mut ei = epos + 1;
    if ei < n && (s[ei] == 45 || s[ei] == 43) {
        eneg = s[ei] == 45;
        ei += 1;
    }
    let ghost ed = if ex.len() > 0 && (ex[0] == 45 || ex[0] == 43) {
        ex.subrange(1, ex.len() as int)
    } else {
        ex
    };
    proof {
        assert(ed.len() == n - ei);
        assert(forall|k: int| 0 <= k < ed.len() ==> #[trigger] ed[k] == s@[ei + k]);
    }
    if ei == n {
        proof {
            assert(spec_e is None);
        }
        return None;
    }
    let mut e_sat: i64 = 0;
    let mut j2 = ei;
    while j2 < n
        invariant
            ei <= j2 <= n,
            all_digits(ed.take(j2 - ei)),
            (digits_val(ed.take(j2 - ei)) <= 18 && e_sat == digits_val(ed.take(j2 - ei))) || (19
                <= e_sat <= 189 && digits_val(ed.take(j2 - ei)) >= 19),
            0 <= e_sat <= 189,
        decreases n - j2,
    {
        let c = s[j2];
        if c < 48 || c > 57 {
            proof {
                assert(ed[j2 - ei] == s@[j2 as int]);
                assert(!is_digit(ed[j2 - ei]));
            }
            return None;
        }
        proof {
            assert(ed.take(j2 - ei + 1).drop_last() =~= ed.take(j2 - ei));
            assert(ed.take(j2 - ei + 1).last() == ed[j2 - ei]);
            assert(forall|k: int|
                0 <= k < j2 - ei + 1 ==> #[trigger] ed.take(j2 - ei + 1)[k] == ed[k]);
            assert(digits_val(ed.take(j2 - ei + 1)) == digits_val(ed.take(j2 - ei)) * 10 + (ed[j2
                - ei] - 48));
        }
        if e_sat < 19 {
            e_sat = e_sat * 10 + (c - 48) as i64;
        }
        j2 += 1;
    }
    proof {
        assert(ed.take(ed.len() as int) =~= ed);
        assert(all_digits(ed));
        assert(spec_e is Some);
    }
    Some((eneg, e_sat))
}

/// Shift a mantissa in millionths by a power of ten, truncating toward
/// zero; nothing is returned when the result leaves the fixed-point range.
fn shift_exponent(m: i128, eneg: bool, e_sat: i64, Ghost(e_val): Ghost<int>) -> (r: Option<i128>)
    requires
        0 <= m <= 1_000_000_000_000_999_999,
        0 <= e_sat <= 189,
        eneg ==> e_val <= 0 && ((e_sat <= 18 && e_val == -e_sat) || (e_sat >= 19 && e_val
            <= -19)),
        !eneg ==> e_val >= 0 && ((e_sat <= 18 && e_val == e_sat) || (e_sat >= 19 && e_val >= 19)),
    ensures
        ({
            let v = if e_val >= 0 {
                (m as int) * pow10(e_val)
            } else {
                (m as int) / pow10(-e_val)
            };
            match r {
                Some(x) => x == v && 0 <= x <= 2_000_000_000_000_000_000,
                None => v > 2_000_000_000_000_000_000,
            }
        }),
{
    let v: i128 = if !eneg {
        if e_sat >= 19 {
            if m == 0 {
                proof {
                    assert((m as int) * pow10(e_val) == 0);
                }
                0
            } else {
                proof {
                    lemma_pow10_mono(19, e_val);
                    lemma_pow10_vals();
                    assert((m as int) * pow10(e_val) >= pow10(e_val)) by (nonlinear_arith)
                        requires
                            m as int >= 1,
                            pow10(e_val) >= 1,
                    ;
                }
                return None;
            }
        } else {
            let p = pow10_i128(e_sat as usize);
            proof {
                assert(0 <= m * p <= 2_000_000_000_000_000_000_000_000_000_000_000_000)
                    by (nonlinear_arith)
                    requires
                        0 <= m <= 1_000_000_000_000_999_999,
                        1 <= p <= 1_000_000_000_000_000_000,
                ;
            }
            m * p
        }
    } else {
        if e_sat >= 19 {
            proof {
                lemma_pow10_mono(19, -e_val);
                lemma_pow10_vals();
                assert((m as int) / pow10(-e_val) == 0) by (nonlinear_arith)
                    requires
                        0 <= (m as int) < pow10(-e_val),
                ;
            }
            0
        } else {
            let p = pow10_i128(e_sat as usize);
            if e_sat == 0 {
                m
            } else {
                m / p
            }
        }
    };
    if v > 2_000_000_000_000_000_000 {
        None
    } else {
        Some(v)
    }
}


/// Insert after every element not larger: the sorting step for tick lists.
pub open spec fn sorted_insert_u64(s: Seq<u64>, x: u64) -> Seq<u64>
    decreases s.len(),
{
    if s.len() == 0 {
        seq![x]
    } else if s.last() <= x {
        s + seq![x]
    } else {
        sorted_insert_u64(s.drop_last(), x) + seq![s.last()]
    }
}

/// The ascending ordering of a tick list.
pub open spec fn sort_u64(s: Seq<u64>) -> Seq<u64>
    decreases s.len(),
{
    if s.len() == 0 {
        Seq::empty()
    } else {
        sorted_insert_u64(sort_u64(s.drop_last()), s.last())
    }
}

proof fn lemma_sorted_insert_u64_at(s: Seq<u64>, x: u64, k: int)
    requires
        0 <= k <= s.len(),
        forall|i: int| 0 <= i < k ==> #[trigger] s[i] <= x,
        forall|i: int| k <= i < s.len() ==> #[trigger] s[i] > x,
    ensures
        sorted_insert_u64(s, x) == s.insert(k, x),
    decreases s.len(),
{
    if s.len() == 0 {
        assert(sorted_insert_u64(s, x) =~= s.insert(0, x));
    } else if s.last() <= x {
        assert(k == s.len());
        assert(sorted_insert_u64(s, x) =~= s.insert(k, x));
    } else {
        let d = s.drop_last();
        assert(forall|i: int| 0 <= i < d.len() ==> #[trigger] d[i] == s[i]);
        lemma_sorted_insert_u64_at(d, x, k);
        assert(sorted_insert_u64(s, x) =~= s.insert(k, x));
    }
}

/// Sort a tick list ascending (insertion sort; the result is `sort_u64` of
/// the input and is sorted).
#[verifier::loop_isolation(false)]
pub fn sort_ticks(ticks: &Vec<u64>) -> (r: Vec<u64>)
    ensures
        r@ == sort_u64(ticks@),
        sorted(r@),
        r@.len() == ticks@.len(),
{
    let n = ticks.len();
    let mut out: Vec<u64> = Vec::new();
    let mut i: usize = 0;
    while i < n
        invariant
            0 <= i <= n == ticks@.len(),
            out@ == sort_u64(ticks@.take(i as int)),
            out@.len() == i,
            sorted(out@),
        decreases n - i,
    {
        let x = ticks[i];
        let mut k: usize = out.len();
        while k > 0 && out[k - 1] > x
            invariant
                0 <= k <= out@.len(),
                forall|t: int| k <= t < out@.len() ==> #[trigger] out@[t] > x,
            decreases k,
        {
            k -= 1;
        }
        proof {
            assert(forall|t: int| 0 <= t < k ==> #[trigger] out@[t] <= x) by {
                if k > 0 {
                    assert(out@[k - 1] <= x);
                    assert(forall|t: int| 0 <= t < k ==> #[trigger] out@[t] <= out@[k - 1]);
                }
            }
            lemma_sorted_insert_u64_at(out@, x, k as int);
            assert(ticks@.take(i + 1).drop_last() =~= ticks@.take(i as int));
            assert(ticks@.take(i + 1).last() == ticks@[i as int]);
        }
        out.insert(k, x);
        i += 1;
    }
    proof {
        assert(ticks@.take(n as int) =~= ticks@);
    }
    out
}

/// Sorting preserves length.
pub proof fn lemma_sort_u64_len(s: Seq<u64>)
    ensures
        sort_u64(s).len() == s.len(),
    decreases s.len(),
{
    if s.len() > 0 {
        lemma_sort_u64_len(s.drop_last());
        lemma_sorted_insert_u64_len(sort_u64(s.drop_last()), s.last());
    }
}

proof fn lemma_sorted_insert_u64_len(s: Seq<u64>, x: u64)
    ensures
        sorted_insert_u64(s, x).len() == s.len() + 1,
    decreases s.len(),
{
    if s.len() > 0 && !(s.last() <= x) {
        lemma_sorted_insert_u64_len(s.drop_last(), x);
    }
}


/// Index of the first occurrence of `needle` in `haystack` at or after `i`.
pub open spec fn find_sub(haystack: Seq<u8>, needle: Seq<u8>, i: int) -> Option<int>
    decreases haystack.len() + 1 - i,
{
    if i < 0 || i + needle.len() > haystack.len() {
        Option::None
    } else if haystack.subrange(i, i + needle.len()) == needle {
        Option::Some(i)
    } else {
        find_sub(haystack, needle, i + 1)
    }
}

pub proof fn lemma_find_sub_props(haystack: Seq<u8>, needle: Seq<u8>, i: int)
    requires
        0 <= i,
    ensures
        match find_sub(haystack, needle, i) {
            Option::Some(k) => i <= k && k + needle.len() <= haystack.len(),
            Option::None => true,
        },
    decreases haystack.len() + 1 - i,
{
    if i + needle.len() <= haystack.len() && haystack.subrange(i, i + needle.len()) != needle {
        lemma_find_sub_props(haystack, needle, i + 1);
    }
}

/// Relies on twoway::find_bytes: the index of the first occurrence of the
/// pattern in the text, or nothing; an empty pattern is found at zero.
#[verifier::external_body]
fn find_bytes(text: &[u8], pattern: &[u8]) -> (r: Option<usize>)
    ensures
        match r {
            Some(k) => find_sub(text@, pattern@, 0) == Option::Some(k as int),
            None => find_sub(text@, pattern@, 0) is None,
        },
{
    twoway::find_bytes(text, pattern)
}

/// The bytes between the first occurrence of `before` and the next
/// occurrence of `after`, or nothing when either is missing.
pub open spec fn spec_extract_bstr(s: Seq<u8>, before: Seq<u8>, after: Seq<u8>) -> Option<
    Seq<u8>,
> {
    match find_sub(s, before, 0) {
        Option::None => Option::None,
        Option::Some(bi) => {
            let start = bi + before.len();
            match find_sub(s.subrange(start, s.len() as int), after, 0) {
                Option::None => Option::None,
                Option::Some(ei) => Option::Some(s.subrange(start, start + ei)),
            }
        },
    }
}

/// Extract the slice between a prefix and a postfix: everything after the
/// first occurrence of `before` up to the next occurrence of `after`.
pub fn extract_bstr<'a>(string: &'a [u8], before: &[u8], after: &[u8]) -> (r: Option<&'a [u8]>)
    ensures
        match r {
            Some(v) => spec_extract_bstr(string@, before@, after@) == Option::Some(v@),
            None => spec_extract_bstr(string@, before@, after@) is None,
        },
{
    let n = string.len();
    let before_index = match find_bytes(string, before) {
        Some(k) => k,
        None => {
            return None;
        },
    };
    proof {
        lemma_find_sub_props(string@, before@, 0);
        assert(before_index + before@.len() <= n);
    }
    let start_index = before_index + before.len();
    let tail = &string[start_index..n];
    let end_offset = match find_bytes(tail, after) {
        Some(k) => k,
        None => {
            return None;
        },
    };
    proof {
        lemma_find_sub_props(string@.subrange(start_index as int, string@.len() as int), after@, 0);
    }
    Some(&string[start_index..start_index + end_offset])
}

} // verus!
