use crate::bam_ext::Record;
use crate::bytes::{
    bytes_eq, clone_bytes, lemma_segment_end, lemma_segment_end_is, lemma_segments_nonempty,
    spec_segment_end, spec_segments, spec_trim_end, spec_trim_start, split_ranges, trim_end,
    trim_start,
};
use vstd::slice::slice_to_vec;
use crate::extractors::{same_extract, ExtractError, UMIExtraction};
use vstd::prelude::*;
use vstd::slice::slice_subrange;

verus! {

/// The acceptable byte strings for one segment of a barcode, in the order of
/// the whitelist file's lines.
pub type Whitelist = Vec<Vec<u8>>;

/// Cell barcodes: how they are taken from a read and which are acceptable.
pub struct CellBarcodes {
    pub extract: UMIExtraction,
    pub separator_char: u8,
    pub max_hamming: u16,
    pub whitelist_files: Vec<String>,
    pub whitelists: Vec<Whitelist>,
}

/// Number of positions at which two equally long byte strings differ.
pub open spec fn mismatches(a: Seq<u8>, b: Seq<u8>) -> nat
    decreases a.len(),
{
    if a.len() == 0 || b.len() != a.len() {
        0
    } else {
        mismatches(a.drop_last(), b.drop_last()) + if a.last() != b.last() {
            1nat
        } else {
            0nat
        }
    }
}

/// `hamming` of bio: the number of positions at which two texts differ. The
/// outside function panics on texts of different lengths.
#[verifier::external_body]
fn hamming(alpha: &[u8], beta: &[u8]) -> (d: u64)
    requires
        alpha@.len() == beta@.len(),
    ensures
        d == mismatches(alpha@, beta@),
{
    bio::alignment::distance::hamming(alpha, beta)
}

/// Whether `entry` may stand for `part`: it is as long and differs in at
/// most `max_hamming` positions.
pub open spec fn spec_close(entry: Seq<u8>, part: Seq<u8>, max_hamming: u16) -> bool {
    entry.len() == part.len() && mismatches(entry, part) <= max_hamming
}

/// The place of the first entry of the whitelist that may stand for `part`;
/// the whitelist's length if there is none.
pub open spec fn spec_first_close(whitelist: Seq<Vec<u8>>, part: Seq<u8>, max_hamming: u16) -> int
    decreases whitelist.len(),
{
    if whitelist.len() == 0 {
        0
    } else if spec_close(whitelist[0]@, part, max_hamming) {
        0
    } else {
        1 + spec_first_close(whitelist.drop_first(), part, max_hamming)
    }
}

/// Whether the whitelist holds `part` as it is.
pub open spec fn spec_listed(whitelist: Seq<Vec<u8>>, part: Seq<u8>) -> bool {
    exists|i: int| 0 <= i < whitelist.len() && (#[trigger] whitelist[i])@ == part
}

/// One segment corrected: itself if the whitelist holds it; else, if
/// approximate matching is on, the first entry of the whitelist that may
/// stand for it; else nothing.
pub open spec fn spec_correct_segment(part: Seq<u8>, whitelist: Seq<Vec<u8>>, max_hamming: u16) -> Option<
    Seq<u8>,
> {
    if spec_listed(whitelist, part) {
        Some(part)
    } else if max_hamming == 0 {
        None
    } else {
        let i = spec_first_close(whitelist, part, max_hamming);
        if i < whitelist.len() {
            Some(whitelist[i]@)
        } else {
            None
        }
    }
}

/// The first `k` segments corrected, each against the whitelist of its
/// place; nothing if one of them cannot be corrected.
pub open spec fn spec_corrected(
    segments: Seq<Seq<u8>>,
    whitelists: Seq<Whitelist>,
    max_hamming: u16,
    k: int,
) -> Option<Seq<Seq<u8>>>
    decreases k,
{
    if k <= 0 {
        Some(Seq::empty())
    } else {
        match spec_corrected(segments, whitelists, max_hamming, k - 1) {
            None => None,
            Some(before) => match spec_correct_segment(
                segments[k - 1],
                whitelists[k - 1]@,
                max_hamming,
            ) {
                None => None,
                Some(c) => Some(before.push(c)),
            },
        }
    }
}

/// The first `k` parts put together: a separator stands before a part
/// unless nothing stands before it yet.
pub open spec fn spec_join(parts: Seq<Seq<u8>>, sep: u8, k: int) -> Seq<u8>
    decreases k,
{
    if k <= 0 {
        Seq::empty()
    } else {
        let before = spec_join(parts, sep, k - 1);
        if before.len() > 0 {
            before.push(sep) + parts[k - 1]
        } else {
            parts[k - 1]
        }
    }
}

proof fn lemma_corrected_stays_nothing(
    segments: Seq<Seq<u8>>,
    whitelists: Seq<Whitelist>,
    max_hamming: u16,
    j: int,
    k: int,
)
    requires
        j <= k,
        spec_corrected(segments, whitelists, max_hamming, j).is_none(),
    ensures
        spec_corrected(segments, whitelists, max_hamming, k).is_none(),
    decreases k - j,
{
    if j < k {
        lemma_corrected_stays_nothing(segments, whitelists, max_hamming, j, k - 1);
    }
}

fn first_close(whitelist: &Whitelist, part: &[u8], max_hamming: u16) -> (r: Option<usize>)
    ensures
        0 <= spec_first_close(whitelist@, part@, max_hamming) <= whitelist@.len(),
        r.is_some() <==> spec_first_close(whitelist@, part@, max_hamming) < whitelist@.len(),
        r.is_some() ==> r.unwrap() == spec_first_close(whitelist@, part@, max_hamming),
{
    let mut i: usize = 0;
    assert(whitelist@.skip(0) =~= whitelist@);
    while i < whitelist.len()
        invariant
            0 <= i <= whitelist.len(),
            spec_first_close(whitelist@, part@, max_hamming) == i + spec_first_close(
                whitelist@.skip(i as int),
                part@,
                max_hamming,
            ),
        decreases whitelist.len() - i,
    {
        proof {
            assert(whitelist@.skip(i as int)[0] == whitelist@[i as int]);
            assert(whitelist@.skip(i as int).drop_first() =~= whitelist@.skip(i as int + 1));
        }
        let entry = whitelist[i].as_slice();
        if entry.len() == part.len() && hamming(entry, part) <= max_hamming as u64 {
            return Some(i);
        }
        i = i + 1;
    }
    None
}

fn listed(whitelist: &Whitelist, part: &[u8]) -> (r: bool)
    ensures
        r == spec_listed(whitelist@, part@),
{
    let mut i: usize = 0;
    while i < whitelist.len()
        invariant
            0 <= i <= whitelist.len(),
            forall|j: int| 0 <= j < i ==> (#[trigger] whitelist@[j])@ != part@,
        decreases whitelist.len() - i,
    {
        if bytes_eq(whitelist[i].as_slice(), part) {
            return true;
        }
        i = i + 1;
    }
    false
}

impl CellBarcodes {
    /// Nothing in the configuration can contradict the cell barcodes.
    pub fn check(&self) -> (r: Result<(), ExtractError>)
        ensures
            r is Ok,
    {
        Ok(())
    }

    pub open spec fn wf(&self) -> bool {
        self.extract.wf()
    }

    /// The raw barcode of a read.
    pub fn extract(&self, read: &Record) -> (r: Result<Option<Vec<u8>>, ExtractError>)
        requires
            self.wf(),
        ensures
            same_extract(r, self.extract.spec_extract(read)),
    {
        self.extract.extract(read)
    }

    /// The corrected barcode. Without whitelists a barcode stands as it is,
    /// unless it is empty. With whitelists its segments are corrected one by
    /// one, as many as there are whitelists, and put together again; if one
    /// segment cannot be corrected there is no corrected barcode.
    pub open spec fn spec_correct(&self, barcode: Seq<u8>) -> Option<Seq<u8>> {
        if self.whitelists@.len() == 0 {
            if barcode.len() == 0 {
                None
            } else {
                Some(barcode)
            }
        } else {
            let segments = spec_segments(barcode, self.separator_char);
            let k = if segments.len() < self.whitelists@.len() {
                segments.len() as int
            } else {
                self.whitelists@.len() as int
            };
            match spec_corrected(segments, self.whitelists@, self.max_hamming, k) {
                None => None,
                Some(c) => Some(spec_join(c, self.separator_char, k)),
            }
        }
    }

    /// The first entry of the whitelist that differs from `part` in at most
    /// `max_hamming` positions; entries of another length never match, and
    /// with `max_hamming` zero nothing does.
    pub fn find_closest_by_hamming<'a>(&self, part: &[u8], whitelist: &'a Whitelist) -> (r: Option<
        &'a Vec<u8>,
    >)
        ensures
            r.is_some() <==> (self.max_hamming != 0 && spec_first_close(
                whitelist@,
                part@,
                self.max_hamming,
            ) < whitelist@.len()),
            r.is_some() ==> *r.unwrap() == whitelist@[spec_first_close(
                whitelist@,
                part@,
                self.max_hamming,
            )],
    {
        if self.max_hamming == 0 {
            return None;
        }
        match first_close(whitelist, part, self.max_hamming) {
            Some(i) => Some(&whitelist[i]),
            None => None,
        }
    }

    fn correct_segment(&self, part: &[u8], whitelist: &Whitelist) -> (r: Option<Vec<u8>>)
        ensures
            r.is_some() == spec_correct_segment(part@, whitelist@, self.max_hamming).is_some(),
            r.is_some() ==> r.unwrap()@ == spec_correct_segment(
                part@,
                whitelist@,
                self.max_hamming,
            ).unwrap(),
    {
        if listed(whitelist, part) {
            Some(clone_bytes(part))
        } else {
            match self.find_closest_by_hamming(part, whitelist) {
                Some(corrected) => Some(clone_bytes(corrected.as_slice())),
                None => None,
            }
        }
    }

    pub fn correct(&self, barcode: &[u8]) -> (r: Option<Vec<u8>>)
        ensures
            r.is_some() == self.spec_correct(barcode@).is_some(),
            r.is_some() ==> r.unwrap()@ == self.spec_correct(barcode@).unwrap(),
    {
        if self.whitelists.len() == 0 {
            if barcode.len() == 0 {
                return None;
            } else {
                return Some(clone_bytes(barcode));
            }
        }
        let sep = self.separator_char;
        let ghost segments = spec_segments(barcode@, sep);
        let ghost mut done: Seq<Seq<u8>> = Seq::empty();
        let mut out: Vec<u8> = Vec::new();
        let mut pos: usize = 0;
        let mut w: usize = 0;
        let mut more = true;
        assert(barcode@.skip(0) =~= barcode@);
        assert(segments.skip(0) =~= segments);
        while more && w < self.whitelists.len()
            invariant
                0 <= w <= self.whitelists.len(),
                0 <= pos <= barcode.len(),
                sep == self.separator_char,
                segments == spec_segments(barcode@, sep),
                w <= segments.len(),
                more ==> segments.skip(w as int) == spec_segments(barcode@.skip(pos as int), sep),
                !more ==> w == segments.len(),
                spec_corrected(segments, self.whitelists@, self.max_hamming, w as int) == Some(done),
                done.len() == w,
                out@ == spec_join(done, sep, w as int),
            decreases self.whitelists.len() - w,
        {
            let mut end: usize = pos;
            while end < barcode.len() && barcode[end] != sep
                invariant
                    pos <= end <= barcode.len(),
                    forall|i: int| pos <= i < end ==> barcode@[i] != sep,
                decreases barcode.len() - end,
            {
                end = end + 1;
            }
            let part = slice_subrange(barcode, pos, end);
            proof {
                let rest = barcode@.skip(pos as int);
                assert forall|i: int| 0 <= i < end - pos implies rest[i] != sep by {
                    assert(rest[i] == barcode@[pos + i]);
                }
                if end - pos < rest.len() {
                    assert(rest[end - pos] == barcode@[end as int]);
                }
                lemma_segment_end_is(rest, sep, end - pos);
                assert(part@ =~= rest.take(end - pos));
                if end < barcode.len() {
                    assert(rest.skip(end - pos + 1) =~= barcode@.skip(end + 1));
                    assert(spec_segments(rest, sep) == seq![part@] + spec_segments(
                        barcode@.skip(end + 1),
                        sep,
                    ));
                    assert(segments.skip(w as int)[0] == part@);
                    assert(segments.skip(w as int + 1) =~= segments.skip(w as int).skip(1));
                    assert(segments.skip(w as int).skip(1) =~= spec_segments(
                        barcode@.skip(end + 1),
                        sep,
                    ));
                } else {
                    assert(part@ =~= rest);
                    assert(spec_segments(rest, sep) == seq![part@]);
                    assert(segments.skip(w as int)[0] == part@);
                    assert(segments.skip(w as int).len() == 1);
                }
                assert(segments[w as int] == part@);
            }
            match self.correct_segment(part, &self.whitelists[w]) {
                None => {
                    proof {
                        let k = if segments.len() < self.whitelists@.len() {
                            segments.len() as int
                        } else {
                            self.whitelists@.len() as int
                        };
                        assert(spec_corrected(
                            segments,
                            self.whitelists@,
                            self.max_hamming,
                            w + 1,
                        ).is_none());
                        lemma_corrected_stays_nothing(
                            segments,
                            self.whitelists@,
                            self.max_hamming,
                            w + 1,
                            k,
                        );
                    }
                    return None;
                },
                Some(corrected) => {
                    if out.len() > 0 {
                        out.push(sep);
                    }
                    let mut j: usize = 0;
                    let ghost base = out@;
                    while j < corrected.len()
                        invariant
                            0 <= j <= corrected.len(),
                            out@ == base + corrected@.take(j as int),
                        decreases corrected.len() - j,
                    {
                        out.push(corrected[j]);
                        proof {
                            assert(corrected@.take(j + 1) =~= corrected@.take(j as int).push(
                                corrected@[j as int],
                            ));
                            assert(out@ =~= base + corrected@.take(j + 1));
                        }
                        j = j + 1;
                    }
                    proof {
                        assert(corrected@.take(corrected@.len() as int) =~= corrected@);
                        let next = done.push(corrected@);
                        assert(spec_corrected(segments, self.whitelists@, self.max_hamming, w + 1)
                            == Some(next));
                        lemma_join_prefix(done, next, sep, w as int);
                        assert(out@ =~= spec_join(next, sep, w + 1));
                        done = next;
                    }
                },
            }
            w = w + 1;
            if end == barcode.len() {
                more = false;
            } else {
                pos = end + 1;
            }
        }
        proof {
            if more {
                lemma_segments_nonempty(barcode@.skip(pos as int), sep);
                assert(segments.skip(w as int).len() >= 1);
            }
        }
        Some(out)
    }
}

/// Putting parts together does not look at the parts that follow.
proof fn lemma_join_prefix(a: Seq<Seq<u8>>, b: Seq<Seq<u8>>, sep: u8, k: int)
    requires
        0 <= k <= a.len(),
        k <= b.len(),
        forall|i: int| 0 <= i < k ==> a[i] == b[i],
    ensures
        spec_join(a, sep, k) == spec_join(b, sep, k),
    decreases k,
{
    if k > 0 {
        lemma_join_prefix(a, b, sep, k - 1);
    }
}

/// The first `k` parts with a separator between each two of them.
pub open spec fn spec_join_all(parts: Seq<Seq<u8>>, sep: u8, k: int) -> Seq<u8>
    decreases k,
{
    if k <= 0 {
        Seq::empty()
    } else if k == 1 {
        parts[0]
    } else {
        spec_join_all(parts, sep, k - 1).push(sep) + parts[k - 1]
    }
}

proof fn lemma_join_all_after_first(x: Seq<u8>, rest: Seq<Seq<u8>>, sep: u8, n: int)
    requires
        1 <= n <= rest.len(),
    ensures
        spec_join_all(seq![x] + rest, sep, n + 1) == x.push(sep) + spec_join_all(rest, sep, n),
    decreases n,
{
    let all = seq![x] + rest;
    assert(all[0] == x);
    assert(all[n] == rest[n - 1]);
    if n == 1 {
        assert(spec_join_all(all, sep, 1) == x);
        assert(spec_join_all(all, sep, 2) =~= x.push(sep) + rest[0]);
    } else {
        lemma_join_all_after_first(x, rest, sep, n - 1);
        assert(spec_join_all(all, sep, n + 1) =~= x.push(sep) + spec_join_all(rest, sep, n));
    }
}

/// Putting the segments of a barcode together with separators gives the
/// barcode back.
pub proof fn lemma_join_all_segments(b: Seq<u8>, sep: u8)
    ensures
        spec_join_all(spec_segments(b, sep), sep, spec_segments(b, sep).len() as int) == b,
    decreases b.len(),
{
    lemma_segment_end(b, sep);
    let n = spec_segment_end(b, sep);
    if 0 <= n < b.len() {
        let rest = spec_segments(b.skip(n + 1), sep);
        lemma_join_all_segments(b.skip(n + 1), sep);
        lemma_join_all_after_first(b.take(n), rest, sep, rest.len() as int);
        assert(b.take(n).push(sep) + b.skip(n + 1) =~= b);
    }
}

proof fn lemma_join_with_first_nonempty(parts: Seq<Seq<u8>>, sep: u8, k: int)
    requires
        1 <= k <= parts.len(),
        parts[0].len() > 0,
    ensures
        spec_join(parts, sep, k) == spec_join_all(parts, sep, k),
        spec_join(parts, sep, k).len() > 0,
    decreases k,
{
    if k > 1 {
        lemma_join_with_first_nonempty(parts, sep, k - 1);
    } else {
        assert(spec_join(parts, sep, 0) =~= Seq::<u8>::empty());
        assert(spec_join(parts, sep, 1) == parts[0]);
    }
}

proof fn lemma_corrected_of_listed(
    segments: Seq<Seq<u8>>,
    whitelists: Seq<Whitelist>,
    max_hamming: u16,
    k: int,
)
    requires
        0 <= k <= segments.len(),
        k <= whitelists.len(),
        forall|i: int| 0 <= i < k ==> spec_listed(whitelists[i]@, #[trigger] segments[i]),
    ensures
        spec_corrected(segments, whitelists, max_hamming, k) == Some(segments.take(k)),
    decreases k,
{
    if k > 0 {
        lemma_corrected_of_listed(segments, whitelists, max_hamming, k - 1);
        assert(segments.take(k) =~= segments.take(k - 1).push(segments[k - 1]));
    } else {
        assert(segments.take(0) =~= Seq::<Seq<u8>>::empty());
    }
}

/// Correction is idempotent on acceptable barcodes: a barcode whose segments
/// all stand in the whitelists of their places is returned as it is. This
/// holds of barcodes with at most as many segments as there are whitelists
/// and a first segment that is not empty; without whitelists it holds of
/// every barcode that is not empty.
pub proof fn lemma_correct_keeps_whitelisted(cb: CellBarcodes, barcode: Seq<u8>)
    requires
        cb.whitelists@.len() == 0 ==> barcode.len() > 0,
        cb.whitelists@.len() > 0 ==> {
            let segments = spec_segments(barcode, cb.separator_char);
            &&& segments.len() <= cb.whitelists@.len()
            &&& segments[0].len() > 0
            &&& forall|i: int|
                0 <= i < segments.len() ==> spec_listed(cb.whitelists@[i]@, #[trigger] segments[i])
        },
    ensures
        cb.spec_correct(barcode) == Some(barcode),
{
    if cb.whitelists@.len() > 0 {
        let sep = cb.separator_char;
        let segments = spec_segments(barcode, sep);
        let k = segments.len() as int;
        lemma_segments_nonempty(barcode, sep);
        lemma_corrected_of_listed(segments, cb.whitelists@, cb.max_hamming, k);
        assert(segments.take(k) =~= segments);
        lemma_join_with_first_nonempty(segments, sep, k);
        lemma_join_all_segments(barcode, sep);
    }
}

/// The entries of the first `n` lines of a whitelist file: each line without
/// the white space around it, each entry once, in the order of first
/// appearance. What follows the last line feed is a line if it is not empty.
pub open spec fn spec_whitelist(text: Seq<u8>, n: int) -> Seq<Seq<u8>>
    decreases n,
{
    if n <= 0 {
        Seq::empty()
    } else {
        let before = spec_whitelist(text, n - 1);
        let entry = spec_trim_end(spec_trim_start(spec_segments(text, 10)[n - 1]));
        if before.contains(entry) {
            before
        } else {
            before.push(entry)
        }
    }
}

/// The number of lines of a text.
pub open spec fn spec_line_count(text: Seq<u8>) -> int {
    let parts = spec_segments(text, 10);
    if parts.len() > 0 && parts.last().len() == 0 {
        parts.len() - 1
    } else {
        parts.len() as int
    }
}

/// The entries of a whitelist file.
pub fn parse_whitelist(text: &[u8]) -> (entries: Whitelist)
    ensures
        entries@.map_values(|e: Vec<u8>| e@) == spec_whitelist(text@, spec_line_count(text@)),
{
    let ranges = split_ranges(text, 10);
    let ghost parts = spec_segments(text@, 10);
    let count = if ranges.len() > 0 && ranges[ranges.len() - 1].0 == ranges[ranges.len() - 1].1 {
        ranges.len() - 1
    } else {
        ranges.len()
    };
    proof {
        if ranges@.len() > 0 {
            let last = ranges@[ranges@.len() - 1];
            assert(text@.subrange(last.0 as int, last.1 as int) == parts.last());
        }
    }
    let mut entries: Whitelist = Vec::new();
    let mut n: usize = 0;
    assert(entries@.map_values(|e: Vec<u8>| e@) =~= Seq::empty());
    while n < count
        invariant
            0 <= n <= count <= ranges@.len(),
            parts == spec_segments(text@, 10),
            forall|k: int|
                0 <= k < ranges@.len() ==> (#[trigger] ranges@[k]).0 <= ranges@[k].1 <= text@.len()
                    && text@.subrange(ranges@[k].0 as int, ranges@[k].1 as int) == parts[k],
            entries@.map_values(|e: Vec<u8>| e@) == spec_whitelist(text@, n as int),
        decreases count - n,
    {
        let (from, to) = ranges[n];
        let start = trim_start(text, from, to);
        let end = trim_end(text, start, to);
        let entry = vstd::slice::slice_subrange(text, start, end);
        let ghost views = entries@.map_values(|e: Vec<u8>| e@);
        proof {
            assert(entry@ == spec_trim_end(spec_trim_start(parts[n as int])));
        }
        let known = listed(&entries, entry);
        proof {
            if views.contains(entry@) {
                let i = choose|i: int| 0 <= i < views.len() && views[i] == entry@;
                assert(entries@[i]@ == entry@);
            }
            if spec_listed(entries@, entry@) {
                let i = choose|i: int| 0 <= i < entries@.len() && (#[trigger] entries@[i])@ == entry@;
                assert(views[i] == entry@);
            }
        }
        if !known {
            entries.push(slice_to_vec(entry));
            assert(entries@.map_values(|e: Vec<u8>| e@) =~= views.push(entry@));
        }
        n = n + 1;
    }
    entries
}

impl CellBarcodes {
    /// Takes the whitelists from the contents of the whitelist files, in
    /// the order of the files.
    pub fn init(&mut self, files: &Vec<Vec<u8>>)
        ensures
            final(self).extract == old(self).extract,
            final(self).separator_char == old(self).separator_char,
            final(self).max_hamming == old(self).max_hamming,
            final(self).whitelist_files == old(self).whitelist_files,
            final(self).whitelists@.len() == files@.len(),
            forall|i: int|
                0 <= i < files@.len() ==> (#[trigger] final(self).whitelists@[i])@.map_values(
                    |e: Vec<u8>| e@,
                ) == spec_whitelist(files@[i]@, spec_line_count(files@[i]@)),
    {
        let mut whitelists: Vec<Whitelist> = Vec::new();
        let mut i: usize = 0;
        while i < files.len()
            invariant
                0 <= i <= files.len(),
                whitelists@.len() == i,
                forall|j: int|
                    0 <= j < i ==> (#[trigger] whitelists@[j])@.map_values(|e: Vec<u8>| e@)
                        == spec_whitelist(files@[j]@, spec_line_count(files@[j]@)),
            decreases files.len() - i,
        {
            whitelists.push(parse_whitelist(files[i].as_slice()));
            i = i + 1;
        }
        self.whitelists = whitelists;
    }
}

} // verus!
