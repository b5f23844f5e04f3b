use vstd::prelude::*;
use vstd::slice::slice_to_vec;

verus! {

/// Whether two byte strings are the same.
pub fn bytes_eq(a: &[u8], b: &[u8]) -> (same: bool)
    ensures
        same == (a@ == b@),
{
    if a.len() != b.len() {
        return false;
    }
    let mut i: usize = 0;
    while i < a.len()
        invariant
            0 <= i <= a.len(),
            a@.len() == b@.len(),
            forall|j: int| 0 <= j < i ==> a@[j] == b@[j],
        decreases a.len() - i,
    {
        if a[i] != b[i] {
            return false;
        }
        i = i + 1;
    }
    assert(a@ =~= b@);
    true
}

/// A copy of a byte string.
pub fn clone_bytes(a: &[u8]) -> (copy: Vec<u8>)
    ensures
        copy@ == a@,
{
    slice_to_vec(a)
}

/// Whether the byte `x` occurs in `a`.
pub fn bytes_contain(a: &[u8], x: u8) -> (found: bool)
    ensures
        found == a@.contains(x),
{
    let mut i: usize = 0;
    while i < a.len()
        invariant
            0 <= i <= a.len(),
            forall|j: int| 0 <= j < i ==> a@[j] != x,
        decreases a.len() - i,
    {
        if a[i] == x {
            return true;
        }
        i = i + 1;
    }
    false
}

/// Where the first segment of `b` ends: at its first separator, or at the end.
pub open spec fn spec_segment_end(b: Seq<u8>, sep: u8) -> int
    decreases b.len(),
{
    if b.len() == 0 || b[0] == sep {
        0
    } else {
        1 + spec_segment_end(b.drop_first(), sep)
    }
}

/// The segments of a barcode: what stands between its separators. A barcode
/// with `k` separators has `k + 1` segments, some of which may be empty.
pub open spec fn spec_segments(b: Seq<u8>, sep: u8) -> Seq<Seq<u8>>
    decreases b.len(),
{
    let n = spec_segment_end(b, sep);
    if 0 <= n < b.len() {
        seq![b.take(n)] + spec_segments(b.skip(n + 1), sep)
    } else {
        seq![b]
    }
}

/// A segment ends at the first separator, or with the bytes.
pub proof fn lemma_segment_end(b: Seq<u8>, sep: u8)
    ensures
        0 <= spec_segment_end(b, sep) <= b.len(),
        spec_segment_end(b, sep) < b.len() ==> b[spec_segment_end(b, sep)] == sep,
        forall|i: int| 0 <= i < spec_segment_end(b, sep) ==> b[i] != sep,
    decreases b.len(),
{
    if !(b.len() == 0 || b[0] == sep) {
        lemma_segment_end(b.drop_first(), sep);
        let n = spec_segment_end(b.drop_first(), sep);
        assert forall|i: int| 0 <= i < 1 + n implies b[i] != sep by {
            if i > 0 {
                assert(b.drop_first()[i - 1] == b[i]);
            }
        }
        if 1 + n < b.len() {
            assert(b.drop_first()[n] == b[1 + n]);
        }
    }
}

/// The end of the first segment is the first separator at or after its start.
pub proof fn lemma_segment_end_is(b: Seq<u8>, sep: u8, n: int)
    requires
        0 <= n <= b.len(),
        forall|i: int| 0 <= i < n ==> b[i] != sep,
        n < b.len() ==> b[n] == sep,
    ensures
        spec_segment_end(b, sep) == n,
{
    lemma_segment_end(b, sep);
    let m = spec_segment_end(b, sep);
    if m < n {
        assert(b[m] == sep);
    }
    if n < m {
        assert(b[n] != sep);
    }
}

/// Bytes have at least one segment.
pub proof fn lemma_segments_nonempty(b: Seq<u8>, sep: u8)
    ensures
        spec_segments(b, sep).len() >= 1,
{
}

/// The places of the segments of `line` between its separators: for each
/// segment where it starts and where it ends.
pub fn split_ranges(line: &[u8], sep: u8) -> (ranges: Vec<(usize, usize)>)
    ensures
        ranges@.len() == spec_segments(line@, sep).len(),
        forall|k: int|
            0 <= k < ranges@.len() ==> (#[trigger] ranges@[k]).0 <= ranges@[k].1 <= line@.len()
                && line@.subrange(ranges@[k].0 as int, ranges@[k].1 as int) == spec_segments(
                line@,
                sep,
            )[k],
        forall|k: int|
            0 <= k < ranges@.len() - 1 ==> (#[trigger] ranges@[k]).1 < line@.len()
                && line@[ranges@[k].1 as int] == sep,
{
    let ghost segments = spec_segments(line@, sep);
    let mut ranges: Vec<(usize, usize)> = Vec::new();
    let mut pos: usize = 0;
    let mut more = true;
    assert(line@.skip(0) =~= line@);
    assert(segments.skip(0) =~= segments);
    while more
        invariant
            0 <= pos <= line.len(),
            segments == spec_segments(line@, sep),
            ranges@.len() <= segments.len(),
            more ==> segments.skip(ranges@.len() as int) == spec_segments(line@.skip(pos as int), sep),
            !more ==> ranges@.len() == segments.len(),
            forall|k: int|
                0 <= k < ranges@.len() ==> (#[trigger] ranges@[k]).0 <= ranges@[k].1 <= line@.len()
                    && line@.subrange(ranges@[k].0 as int, ranges@[k].1 as int) == segments[k],
            forall|k: int|
                0 <= k < ranges@.len() - 1 ==> (#[trigger] ranges@[k]).1 < line@.len()
                    && line@[ranges@[k].1 as int] == sep,
            more && ranges@.len() > 0 ==> ranges@[ranges@.len() - 1].1 < line@.len()
                && line@[ranges@[ranges@.len() - 1].1 as int] == sep,
        decreases line.len() - pos + if more {
            1int
        } else {
            0int
        },
    {
        let mut end: usize = pos;
        while end < line.len() && line[end] != sep
            invariant
                pos <= end <= line.len(),
                forall|i: int| pos <= i < end ==> line@[i] != sep,
            decreases line.len() - end,
        {
            end = end + 1;
        }
        let ghost w = ranges@.len() as int;
        proof {
            let rest = line@.skip(pos as int);
            let part = line@.subrange(pos as int, end as int);
            assert forall|i: int| 0 <= i < end - pos implies rest[i] != sep by {
                assert(rest[i] == line@[pos + i]);
            }
            if end - pos < rest.len() {
                assert(rest[end - pos] == line@[end as int]);
            }
            lemma_segment_end_is(rest, sep, end - pos);
            assert(part =~= rest.take(end - pos));
            lemma_segments_nonempty(rest, sep);
            if end < line.len() {
                assert(rest.skip(end - pos + 1) =~= line@.skip(end + 1));
                assert(spec_segments(rest, sep) == seq![part] + spec_segments(
                    line@.skip(end + 1),
                    sep,
                ));
                assert(segments.skip(w)[0] == part);
                assert(segments.skip(w + 1) =~= segments.skip(w).skip(1));
                assert(segments.skip(w).skip(1) =~= spec_segments(line@.skip(end + 1), sep));
            } else {
                assert(part =~= rest);
                assert(spec_segments(rest, sep) == seq![part]);
                assert(segments.skip(w)[0] == part);
                assert(segments.skip(w).len() == 1);
            }
            assert(segments[w] == part);
        }
        ranges.push((pos, end));
        if end == line.len() {
            more = false;
        } else {
            pos = end + 1;
        }
    }
    ranges
}

/// Whether a byte is white space: a blank, a tab, a line feed, a vertical
/// tab, a form feed or a carriage return.
pub open spec fn spec_is_space(b: u8) -> bool {
    b == 32 || (9 <= b <= 13)
}

/// Whether the byte is ASCII white space.
pub fn is_space(b: u8) -> (r: bool)
    ensures
        r == spec_is_space(b),
{
    b == 32 || (b >= 9 && b <= 13)
}

/// The bytes without the white space at their start.
pub open spec fn spec_trim_start(b: Seq<u8>) -> Seq<u8>
    decreases b.len(),
{
    if b.len() > 0 && spec_is_space(b[0]) {
        spec_trim_start(b.drop_first())
    } else {
        b
    }
}

/// The bytes without the white space at their end.
pub open spec fn spec_trim_end(b: Seq<u8>) -> Seq<u8>
    decreases b.len(),
{
    if b.len() > 0 && spec_is_space(b.last()) {
        spec_trim_end(b.drop_last())
    } else {
        b
    }
}

/// The bytes without the bytes `x` at their start.
pub open spec fn spec_strip_start(b: Seq<u8>, x: u8) -> Seq<u8>
    decreases b.len(),
{
    if b.len() > 0 && b[0] == x {
        spec_strip_start(b.drop_first(), x)
    } else {
        b
    }
}

/// The bytes without the bytes `x` at their end.
pub open spec fn spec_strip_end(b: Seq<u8>, x: u8) -> Seq<u8>
    decreases b.len(),
{
    if b.len() > 0 && b.last() == x {
        spec_strip_end(b.drop_last(), x)
    } else {
        b
    }
}

/// Where the bytes `[from, to)` of `line` start once the white space at
/// their start is left out.
pub fn trim_start(line: &[u8], from: usize, to: usize) -> (start: usize)
    requires
        from <= to <= line@.len(),
    ensures
        from <= start <= to,
        line@.subrange(start as int, to as int) == spec_trim_start(
            line@.subrange(from as int, to as int),
        ),
{
    let mut start = from;
    while start < to && is_space(line[start])
        invariant
            from <= start <= to <= line@.len(),
            spec_trim_start(line@.subrange(start as int, to as int)) == spec_trim_start(
                line@.subrange(from as int, to as int),
            ),
        decreases to - start,
    {
        proof {
            let cur = line@.subrange(start as int, to as int);
            assert(cur[0] == line@[start as int]);
            assert(cur.drop_first() =~= line@.subrange(start + 1, to as int));
        }
        start = start + 1;
    }
    proof {
        let cur = line@.subrange(start as int, to as int);
        if start < to {
            assert(cur[0] == line@[start as int]);
        }
    }
    start
}

/// Where the bytes `[from, to)` of `line` end once the white space at their
/// end is left out.
pub fn trim_end(line: &[u8], from: usize, to: usize) -> (end: usize)
    requires
        from <= to <= line@.len(),
    ensures
        from <= end <= to,
        line@.subrange(from as int, end as int) == spec_trim_end(
            line@.subrange(from as int, to as int),
        ),
{
    let mut end = to;
    while end > from && is_space(line[end - 1])
        invariant
            from <= end <= to <= line@.len(),
            spec_trim_end(line@.subrange(from as int, end as int)) == spec_trim_end(
                line@.subrange(from as int, to as int),
            ),
        decreases end - from,
    {
        proof {
            let cur = line@.subrange(from as int, end as int);
            assert(cur.last() == line@[end - 1]);
            assert(cur.drop_last() =~= line@.subrange(from as int, end - 1));
        }
        end = end - 1;
    }
    proof {
        let cur = line@.subrange(from as int, end as int);
        if end > from {
            assert(cur.last() == line@[end - 1]);
        }
    }
    end
}

/// The place of the bytes `[from, to)` of `line` once the bytes `x` at
/// their start and at their end are left out.
pub fn strip_both(line: &[u8], from: usize, to: usize, x: u8) -> (r: (usize, usize))
    requires
        from <= to <= line@.len(),
    ensures
        from <= r.0 <= r.1 <= to,
        line@.subrange(r.0 as int, r.1 as int) == spec_strip_end(
            spec_strip_start(line@.subrange(from as int, to as int), x),
            x,
        ),
{
    let mut start = from;
    while start < to && line[start] == x
        invariant
            from <= start <= to <= line@.len(),
            spec_strip_start(line@.subrange(start as int, to as int), x) == spec_strip_start(
                line@.subrange(from as int, to as int),
                x,
            ),
        decreases to - start,
    {
        proof {
            let cur = line@.subrange(start as int, to as int);
            assert(cur[0] == line@[start as int]);
            assert(cur.drop_first() =~= line@.subrange(start + 1, to as int));
        }
        start = start + 1;
    }
    proof {
        let cur = line@.subrange(start as int, to as int);
        if start < to {
            assert(cur[0] == line@[start as int]);
        }
    }
    let mut end = to;
    while end > start && line[end - 1] == x
        invariant
            start <= end <= to <= line@.len(),
            spec_strip_end(line@.subrange(start as int, end as int), x) == spec_strip_end(
                line@.subrange(start as int, to as int),
                x,
            ),
        decreases end - start,
    {
        proof {
            let cur = line@.subrange(start as int, end as int);
            assert(cur.last() == line@[end - 1]);
            assert(cur.drop_last() =~= line@.subrange(start as int, end - 1));
        }
        end = end - 1;
    }
    proof {
        let cur = line@.subrange(start as int, end as int);
        if end > start {
            assert(cur.last() == line@[end - 1]);
        }
    }
    (start, end)
}

/// The number that decimal digits stand for.
pub open spec fn spec_digits_value(digits: Seq<u8>) -> int
    decreases digits.len(),
{
    if digits.len() == 0 {
        0
    } else {
        spec_digits_value(digits.drop_last()) * 10 + (digits.last() - 48)
    }
}

/// Whether all bytes are decimal digits.
pub open spec fn spec_all_digits(digits: Seq<u8>) -> bool {
    forall|i: int| 0 <= i < digits.len() ==> 48 <= #[trigger] digits[i] <= 57
}

/// The number that text stands for: decimal digits, after a plus sign or
/// without sign, with a value that 64 bits can hold.
pub open spec fn spec_parse_u64(text: Seq<u8>) -> Option<u64> {
    let digits = if text.len() > 0 && text[0] == 43 {
        text.drop_first()
    } else {
        text
    };
    if digits.len() > 0 && spec_all_digits(digits) && spec_digits_value(digits) <= u64::MAX {
        Some(spec_digits_value(digits) as u64)
    } else {
        None
    }
}

proof fn lemma_digits_value_grows(digits: Seq<u8>, n: int)
    requires
        0 <= n <= digits.len(),
        spec_all_digits(digits),
    ensures
        0 <= spec_digits_value(digits.take(n)) <= spec_digits_value(digits),
    decreases digits.len() - n,
{
    if n < digits.len() {
        lemma_digits_value_grows(digits, n + 1);
        let longer = digits.take(n + 1);
        assert(longer.drop_last() =~= digits.take(n));
        assert(longer.last() == digits[n]);
        lemma_digits_value_nonnegative(digits.take(n));
    } else {
        assert(digits.take(n) =~= digits);
        lemma_digits_value_nonnegative(digits);
    }
}

proof fn lemma_digits_value_nonnegative(digits: Seq<u8>)
    requires
        spec_all_digits(digits),
    ensures
        0 <= spec_digits_value(digits),
    decreases digits.len(),
{
    if digits.len() > 0 {
        assert(spec_all_digits(digits.drop_last())) by {
            assert forall|i: int| 0 <= i < digits.drop_last().len() implies 48
                <= #[trigger] digits.drop_last()[i] <= 57 by {
                assert(digits.drop_last()[i] == digits[i]);
            }
        }
        lemma_digits_value_nonnegative(digits.drop_last());
        assert(48 <= digits[digits.len() - 1] <= 57);
    }
}

/// The number that the bytes `[from, to)` of `line` stand for.
pub fn parse_u64(line: &[u8], from: usize, to: usize) -> (r: Option<u64>)
    requires
        from <= to <= line@.len(),
    ensures
        r == spec_parse_u64(line@.subrange(from as int, to as int)),
{
    let ghost text = line@.subrange(from as int, to as int);
    let mut i: usize = from;
    if i < to && line[i] == 43 {
        assert(text[0] == line@[from as int]);
        i = i + 1;
    } else if i < to {
        assert(text[0] == line@[from as int]);
    }
    let first = i;
    let ghost digits = line@.subrange(first as int, to as int);
    proof {
        if first > from {
            assert(digits =~= text.drop_first());
        } else {
            assert(digits =~= text);
        }
    }
    if first == to {
        return None;
    }
    let mut value: u64 = 0;
    assert(digits.take(0) =~= Seq::<u8>::empty());
    while i < to
        invariant
            from <= first <= i <= to <= line@.len(),
            first < to,
            text == line@.subrange(from as int, to as int),
            digits == line@.subrange(first as int, to as int),
            digits == if text.len() > 0 && text[0] == 43 {
                text.drop_first()
            } else {
                text
            },
            spec_all_digits(digits.take(i - first)),
            value == spec_digits_value(digits.take(i - first)),
        decreases to - i,
    {
        let b = line[i];
        assert(digits[i - first] == b);
        if b < 48 || b > 57 {
            assert(!spec_all_digits(digits));
            return None;
        }
        let ghost next = digits.take(i - first + 1);
        proof {
            assert(next.drop_last() =~= digits.take(i - first));
            assert(next.last() == b);
            assert(spec_all_digits(next)) by {
                assert forall|k: int| 0 <= k < next.len() implies 48 <= #[trigger] next[k] <= 57 by {
                    if k < i - first {
                        assert(digits.take(i - first)[k] == next[k]);
                    }
                }
            }
        }
        let d = (b - 48) as u64;
        let next_value = match value.checked_mul(10) {
            Some(v) => match v.checked_add(d) {
                Some(w) => Some(w),
                None => None,
            },
            None => None,
        };
        match next_value {
            Some(w) => {
                value = w;
            },
            None => {
                proof {
                    assert(spec_digits_value(next) > u64::MAX);
                    if spec_all_digits(digits) {
                        lemma_digits_value_grows(digits, i - first + 1);
                    }
                }
                return None;
            },
        }
        i = i + 1;
    }
    proof {
        assert(digits.take(to - first) =~= digits);
    }
    Some(value)
}

} // verus!
