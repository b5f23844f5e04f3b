use crate::bytes::{bytes_eq, clone_bytes};
use vstd::prelude::*;

verus! {

/// The tokens of the identifiers that a read is credited to.
#[derive(Debug)]
pub struct Hits {
    pub correct: Vec<u32>,
    pub reverse: Vec<u32>,
}

/// What is kept of a read that counts.
#[derive(Debug)]
pub struct AnnotatedReadInfo {
    /// The position corrected for clipping; it may be negative.
    pub corrected_position: i32,
    pub hits: Hits,
    pub umi: Option<Vec<u8>>,
    pub barcode: Option<Vec<u8>>,
    pub mapping_priority: (u8, u8),
    pub reverse: bool,
}

/// What became of one alignment of the input.
#[derive(Debug)]
pub enum AnnotatedRead {
    /// A filter removed it.
    Filtered,
    /// It was fetched with the chunk's window but lies outside the chunk.
    NotInRegion,
    /// It contributes to the tallies.
    Counted(Box<AnnotatedReadInfo>),
    /// It lost the contest of its bucket.
    Duplicate,
    NoBarcode,
    NoUMI,
    /// Its barcode, given here as extracted, matches no whitelist.
    BarcodeNotInWhitelist(Vec<u8>),
}

/// The categories of the statistics.
#[derive(Debug, Clone, Copy, PartialEq, Eq, Structural)]
pub enum StatCategory {
    Correct,
    Reverse,
    Ambiguous,
    Outside,
    Filtered,
    Duplicate,
    NoBarcode,
    NoUmi,
    BarcodeNotInWhitelist,
}

/// How many reads fell into each category. A counter stays at `usize::MAX`
/// once it is there.
#[derive(Debug, Clone, Copy, PartialEq, Eq, Structural)]
pub struct Stats {
    pub correct: usize,
    pub reverse: usize,
    pub ambiguous: usize,
    pub outside: usize,
    pub filtered: usize,
    pub duplicate: usize,
    pub no_barcode: usize,
    pub no_umi: usize,
    pub barcode_not_in_whitelist: usize,
}

/// Addition that stops at `usize::MAX`.
pub open spec fn sat_add(a: int, b: int) -> usize {
    if a + b > usize::MAX {
        usize::MAX
    } else {
        (a + b) as usize
    }
}

impl AnnotatedRead {
    /// The category that the read is counted in; none for a read outside
    /// the chunk, which another chunk counts.
    pub open spec fn spec_category(&self) -> Option<StatCategory> {
        match self {
            AnnotatedRead::Counted(info) => Some(
                if info.hits.correct@.len() == 0 && info.hits.reverse@.len() == 0 {
                    StatCategory::Outside
                } else if info.hits.reverse@.len() == 0 {
                    StatCategory::Correct
                } else if info.hits.correct@.len() == 0 {
                    StatCategory::Reverse
                } else {
                    StatCategory::Ambiguous
                },
            ),
            AnnotatedRead::Filtered => Some(StatCategory::Filtered),
            AnnotatedRead::NotInRegion => None,
            AnnotatedRead::Duplicate => Some(StatCategory::Duplicate),
            AnnotatedRead::NoBarcode => Some(StatCategory::NoBarcode),
            AnnotatedRead::NoUMI => Some(StatCategory::NoUmi),
            AnnotatedRead::BarcodeNotInWhitelist(_) => Some(StatCategory::BarcodeNotInWhitelist),
        }
    }

    pub fn category(&self) -> (c: Option<StatCategory>)
        ensures
            c == self.spec_category(),
    {
        match self {
            AnnotatedRead::Counted(info) => {
                match (info.hits.correct.len() == 0, info.hits.reverse.len() == 0) {
                    (true, true) => Some(StatCategory::Outside),
                    (false, true) => Some(StatCategory::Correct),
                    (true, false) => Some(StatCategory::Reverse),
                    (false, false) => Some(StatCategory::Ambiguous),
                }
            },
            AnnotatedRead::Filtered => Some(StatCategory::Filtered),
            AnnotatedRead::NotInRegion => None,
            AnnotatedRead::Duplicate => Some(StatCategory::Duplicate),
            AnnotatedRead::NoBarcode => Some(StatCategory::NoBarcode),
            AnnotatedRead::NoUMI => Some(StatCategory::NoUmi),
            AnnotatedRead::BarcodeNotInWhitelist(_) => Some(StatCategory::BarcodeNotInWhitelist),
        }
    }
}

impl Stats {
    pub fn new() -> (s: Stats)
        ensures
            s.spec_total() == 0,
            forall|c: StatCategory| s.spec_get(c) == 0,
    {
        Stats {
            correct: 0,
            reverse: 0,
            ambiguous: 0,
            outside: 0,
            filtered: 0,
            duplicate: 0,
            no_barcode: 0,
            no_umi: 0,
            barcode_not_in_whitelist: 0,
        }
    }

    pub open spec fn spec_get(&self, c: StatCategory) -> usize {
        match c {
            StatCategory::Correct => self.correct,
            StatCategory::Reverse => self.reverse,
            StatCategory::Ambiguous => self.ambiguous,
            StatCategory::Outside => self.outside,
            StatCategory::Filtered => self.filtered,
            StatCategory::Duplicate => self.duplicate,
            StatCategory::NoBarcode => self.no_barcode,
            StatCategory::NoUmi => self.no_umi,
            StatCategory::BarcodeNotInWhitelist => self.barcode_not_in_whitelist,
        }
    }

    pub fn get(&self, c: StatCategory) -> (n: usize)
        ensures
            n == self.spec_get(c),
    {
        match c {
            StatCategory::Correct => self.correct,
            StatCategory::Reverse => self.reverse,
            StatCategory::Ambiguous => self.ambiguous,
            StatCategory::Outside => self.outside,
            StatCategory::Filtered => self.filtered,
            StatCategory::Duplicate => self.duplicate,
            StatCategory::NoBarcode => self.no_barcode,
            StatCategory::NoUmi => self.no_umi,
            StatCategory::BarcodeNotInWhitelist => self.barcode_not_in_whitelist,
        }
    }

    /// The sum over all categories.
    pub open spec fn spec_total(&self) -> int {
        self.correct + self.reverse + self.ambiguous + self.outside + self.filtered
            + self.duplicate + self.no_barcode + self.no_umi + self.barcode_not_in_whitelist
    }

    /// The sum over all categories.
    pub fn total(&self) -> (n: u128)
        ensures
            n == self.spec_total(),
    {
        self.correct as u128 + self.reverse as u128 + self.ambiguous as u128 + self.outside as u128
            + self.filtered as u128 + self.duplicate as u128 + self.no_barcode as u128
            + self.no_umi as u128 + self.barcode_not_in_whitelist as u128
    }

    /// The statistics with `n` more reads in category `c`.
    pub open spec fn spec_plus(&self, c: StatCategory, n: int) -> Stats {
        match c {
            StatCategory::Correct => Stats { correct: sat_add(self.correct as int, n), ..*self },
            StatCategory::Reverse => Stats { reverse: sat_add(self.reverse as int, n), ..*self },
            StatCategory::Ambiguous => Stats {
                ambiguous: sat_add(self.ambiguous as int, n),
                ..*self
            },
            StatCategory::Outside => Stats { outside: sat_add(self.outside as int, n), ..*self },
            StatCategory::Filtered => Stats { filtered: sat_add(self.filtered as int, n), ..*self },
            StatCategory::Duplicate => Stats {
                duplicate: sat_add(self.duplicate as int, n),
                ..*self
            },
            StatCategory::NoBarcode => Stats {
                no_barcode: sat_add(self.no_barcode as int, n),
                ..*self
            },
            StatCategory::NoUmi => Stats { no_umi: sat_add(self.no_umi as int, n), ..*self },
            StatCategory::BarcodeNotInWhitelist => Stats {
                barcode_not_in_whitelist: sat_add(self.barcode_not_in_whitelist as int, n),
                ..*self
            },
        }
    }

    /// The statistics after one read was counted.
    pub open spec fn spec_count(&self, read: &AnnotatedRead) -> Stats {
        match read.spec_category() {
            Some(c) => self.spec_plus(c, 1),
            None => *self,
        }
    }

    /// The statistics after the first `n` reads were counted.
    pub open spec fn spec_count_all(&self, reads: Seq<(AnnotatedRead, usize)>, n: int) -> Stats
        decreases n,
    {
        if n <= 0 {
            *self
        } else {
            self.spec_count_all(reads, n - 1).spec_count(&reads[n - 1].0)
        }
    }

    /// The sum of two statistics, category by category.
    pub open spec fn spec_merge(&self, other: &Stats) -> Stats {
        Stats {
            correct: sat_add(self.correct as int, other.correct as int),
            reverse: sat_add(self.reverse as int, other.reverse as int),
            ambiguous: sat_add(self.ambiguous as int, other.ambiguous as int),
            outside: sat_add(self.outside as int, other.outside as int),
            filtered: sat_add(self.filtered as int, other.filtered as int),
            duplicate: sat_add(self.duplicate as int, other.duplicate as int),
            no_barcode: sat_add(self.no_barcode as int, other.no_barcode as int),
            no_umi: sat_add(self.no_umi as int, other.no_umi as int),
            barcode_not_in_whitelist: sat_add(
                self.barcode_not_in_whitelist as int,
                other.barcode_not_in_whitelist as int,
            ),
        }
    }

    /// Counts one more read in category `c`.
    pub fn record(&mut self, c: StatCategory)
        ensures
            *final(self) == old(self).spec_plus(c, 1),
    {
        match c {
            StatCategory::Correct => {
                self.correct = self.correct.saturating_add(1);
            },
            StatCategory::Reverse => {
                self.reverse = self.reverse.saturating_add(1);
            },
            StatCategory::Ambiguous => {
                self.ambiguous = self.ambiguous.saturating_add(1);
            },
            StatCategory::Outside => {
                self.outside = self.outside.saturating_add(1);
            },
            StatCategory::Filtered => {
                self.filtered = self.filtered.saturating_add(1);
            },
            StatCategory::Duplicate => {
                self.duplicate = self.duplicate.saturating_add(1);
            },
            StatCategory::NoBarcode => {
                self.no_barcode = self.no_barcode.saturating_add(1);
            },
            StatCategory::NoUmi => {
                self.no_umi = self.no_umi.saturating_add(1);
            },
            StatCategory::BarcodeNotInWhitelist => {
                self.barcode_not_in_whitelist = self.barcode_not_in_whitelist.saturating_add(1);
            },
        }
    }

    /// Adds another tally, category by category.
    pub fn merge(&mut self, other: &Stats)
        ensures
            *final(self) == old(self).spec_merge(other),
    {
        self.correct = self.correct.saturating_add(other.correct);
        self.reverse = self.reverse.saturating_add(other.reverse);
        self.ambiguous = self.ambiguous.saturating_add(other.ambiguous);
        self.outside = self.outside.saturating_add(other.outside);
        self.filtered = self.filtered.saturating_add(other.filtered);
        self.duplicate = self.duplicate.saturating_add(other.duplicate);
        self.no_barcode = self.no_barcode.saturating_add(other.no_barcode);
        self.no_umi = self.no_umi.saturating_add(other.no_umi);
        self.barcode_not_in_whitelist = self.barcode_not_in_whitelist.saturating_add(
            other.barcode_not_in_whitelist,
        );
    }
}

/// How many of the first `n` reads are counted in some category: all but
/// those that lie outside the chunk.
pub open spec fn spec_counted_reads(reads: Seq<(AnnotatedRead, usize)>, n: int) -> int
    decreases n,
{
    if n <= 0 {
        0
    } else {
        spec_counted_reads(reads, n - 1) + if reads[n - 1].0.spec_category().is_some() {
            1int
        } else {
            0int
        }
    }
}

/// Count conservation: every read that is counted raises exactly one
/// category by one, and a read outside the chunk raises none. So, as long as
/// no counter reaches `usize::MAX`, the sum over all categories grows by the
/// number of reads that do not lie outside the chunk.
pub proof fn lemma_count_conservation(stats: Stats, reads: Seq<(AnnotatedRead, usize)>, n: int)
    requires
        0 <= n <= reads.len(),
        stats.spec_total() + n <= usize::MAX,
    ensures
        stats.spec_count_all(reads, n).spec_total() == stats.spec_total() + spec_counted_reads(
            reads,
            n,
        ),
        0 <= spec_counted_reads(reads, n) <= n,
    decreases n,
{
    if n > 0 {
        lemma_count_conservation(stats, reads, n - 1);
    }
}

/// How many of the first `n` reads fall into the category `c`.
pub open spec fn spec_reads_in(reads: Seq<(AnnotatedRead, usize)>, c: StatCategory, n: int) -> int
    decreases n,
{
    if n <= 0 {
        0
    } else {
        spec_reads_in(reads, c, n - 1) + if reads[n - 1].0.spec_category() == Some(c) {
            1int
        } else {
            0int
        }
    }
}

/// Count conservation, whatever the counters hold: after the reads every
/// category stands at what it held plus the number of reads that fall into
/// it, or at `usize::MAX` where that is more. Every read that does not lie
/// outside the chunk falls into exactly one category, so the numbers of all
/// categories add up to the number of these reads.
pub proof fn lemma_count_by_category(stats: Stats, reads: Seq<(AnnotatedRead, usize)>, n: int)
    requires
        0 <= n <= reads.len(),
    ensures
        forall|c: StatCategory| #[trigger]
            stats.spec_count_all(reads, n).spec_get(c) == sat_add(
                stats.spec_get(c) as int,
                spec_reads_in(reads, c, n),
            ),
        forall|c: StatCategory| 0 <= #[trigger] spec_reads_in(reads, c, n),
        spec_reads_in(reads, StatCategory::Correct, n) + spec_reads_in(
            reads,
            StatCategory::Reverse,
            n,
        ) + spec_reads_in(reads, StatCategory::Ambiguous, n) + spec_reads_in(
            reads,
            StatCategory::Outside,
            n,
        ) + spec_reads_in(reads, StatCategory::Filtered, n) + spec_reads_in(
            reads,
            StatCategory::Duplicate,
            n,
        ) + spec_reads_in(reads, StatCategory::NoBarcode, n) + spec_reads_in(
            reads,
            StatCategory::NoUmi,
            n,
        ) + spec_reads_in(reads, StatCategory::BarcodeNotInWhitelist, n) == spec_counted_reads(
            reads,
            n,
        ),
    decreases n,
{
    if n > 0 {
        lemma_count_by_category(stats, reads, n - 1);
        let before = stats.spec_count_all(reads, n - 1);
        assert forall|c: StatCategory| #[trigger]
            stats.spec_count_all(reads, n).spec_get(c) == sat_add(
                stats.spec_get(c) as int,
                spec_reads_in(reads, c, n),
            ) by {
            lemma_one_category_per_read(before, reads[n - 1].0, c);
            assert(before.spec_get(c) == sat_add(
                stats.spec_get(c) as int,
                spec_reads_in(reads, c, n - 1),
            ));
        }
    }
}

/// One read raises the category it falls into by one and leaves the others.
pub proof fn lemma_one_category_per_read(stats: Stats, read: AnnotatedRead, c: StatCategory)
    ensures
        stats.spec_count(&read).spec_get(c) == if read.spec_category() == Some(c) {
            sat_add(stats.spec_get(c) as int, 1)
        } else {
            stats.spec_get(c)
        },
{
}

/// How often the token `t` stands among the first `n` of `tokens`.
pub open spec fn occurrences(tokens: Seq<u32>, t: u32, n: int) -> int
    decreases n,
{
    if n <= 0 {
        0
    } else {
        occurrences(tokens, t, n - 1) + if tokens[n - 1] == t {
            1int
        } else {
            0int
        }
    }
}

/// How often one read credits the token `t`, in its agreeing hits or, with
/// `reverse`, in its disagreeing ones.
pub open spec fn read_credit(read: &AnnotatedRead, t: u32, reverse: bool) -> int {
    match read {
        AnnotatedRead::Counted(info) => if reverse {
            occurrences(info.hits.reverse@, t, info.hits.reverse@.len() as int)
        } else {
            occurrences(info.hits.correct@, t, info.hits.correct@.len() as int)
        },
        _ => 0,
    }
}

/// How often the first `n` reads credit the token `t`.
pub open spec fn credited(reads: Seq<(AnnotatedRead, usize)>, t: u32, reverse: bool, n: int) -> int
    decreases n,
{
    if n <= 0 {
        0
    } else {
        credited(reads, t, reverse, n - 1) + read_credit(&reads[n - 1].0, t, reverse)
    }
}

/// How often one read credits the token `t` in the cell `barcode`: only
/// agreeing hits count for cells.
pub open spec fn read_cell_credit(read: &AnnotatedRead, t: u32, barcode: Seq<u8>) -> int {
    match read {
        AnnotatedRead::Counted(info) => if info.barcode.is_some() && info.barcode.unwrap()@
            == barcode {
            occurrences(info.hits.correct@, t, info.hits.correct@.len() as int)
        } else {
            0
        },
        _ => 0,
    }
}

/// How often the first `n` reads credit the token `t` in the cell `barcode`.
pub open spec fn cell_credited(
    reads: Seq<(AnnotatedRead, usize)>,
    t: u32,
    barcode: Seq<u8>,
    n: int,
) -> int
    decreases n,
{
    if n <= 0 {
        0
    } else {
        cell_credited(reads, t, barcode, n - 1) + read_cell_credit(&reads[n - 1].0, t, barcode)
    }
}

/// A token occurs no less than zero times.
pub proof fn lemma_occurrences_nonnegative(tokens: Seq<u32>, t: u32, n: int)
    ensures
        occurrences(tokens, t, n) >= 0,
    decreases n,
{
    if n > 0 {
        lemma_occurrences_nonnegative(tokens, t, n - 1);
    }
}

/// A region is credited with no less than zero reads.
pub proof fn lemma_credited_nonnegative(
    reads: Seq<(AnnotatedRead, usize)>,
    t: u32,
    reverse: bool,
    n: int,
)
    ensures
        credited(reads, t, reverse, n) >= 0,
    decreases n,
{
    if n > 0 {
        lemma_credited_nonnegative(reads, t, reverse, n - 1);
        match reads[n - 1].0 {
            AnnotatedRead::Counted(info) => {
                lemma_occurrences_nonnegative(info.hits.correct@, t, info.hits.correct@.len() as int);
                lemma_occurrences_nonnegative(info.hits.reverse@, t, info.hits.reverse@.len() as int);
            },
            _ => {},
        }
    }
}

/// A region and cell are credited with no less than zero reads.
pub proof fn lemma_cell_credited_nonnegative(
    reads: Seq<(AnnotatedRead, usize)>,
    t: u32,
    barcode: Seq<u8>,
    n: int,
)
    ensures
        cell_credited(reads, t, barcode, n) >= 0,
    decreases n,
{
    if n > 0 {
        lemma_cell_credited_nonnegative(reads, t, barcode, n - 1);
        match reads[n - 1].0 {
            AnnotatedRead::Counted(info) => {
                lemma_occurrences_nonnegative(info.hits.correct@, t, info.hits.correct@.len() as int);
            },
            _ => {},
        }
    }
}

/// The count of one identifier in one cell.
#[derive(Debug)]
pub struct CellTally {
    pub token: u32,
    pub barcode: Vec<u8>,
    pub count: usize,
}

/// The counts of a token without cells: those at its place, or zero.
pub open spec fn region_tally(counter: Seq<(usize, usize)>, t: int) -> (usize, usize) {
    if 0 <= t < counter.len() {
        counter[t]
    } else {
        (0usize, 0usize)
    }
}

/// No pair of token and cell has two counts.
pub open spec fn cells_distinct(entries: Seq<CellTally>) -> bool {
    forall|i: int, j: int|
        0 <= i < entries.len() && 0 <= j < entries.len() && i != j ==> !((
        #[trigger] entries[i]).token == (#[trigger] entries[j]).token && entries[i].barcode@
            == entries[j].barcode@)
}

/// The count of a token in a cell: zero where none is kept.
pub open spec fn cell_tally(entries: Seq<CellTally>, t: u32, barcode: Seq<u8>) -> usize
    decreases entries.len(),
{
    if entries.len() == 0 {
        0
    } else if entries.last().token == t && entries.last().barcode@ == barcode {
        entries.last().count
    } else {
        cell_tally(entries.drop_last(), t, barcode)
    }
}

/// Whether a count is kept for the token in the cell.
pub open spec fn cell_present(entries: Seq<CellTally>, t: u32, barcode: Seq<u8>) -> bool {
    exists|i: int|
        0 <= i < entries.len() && (#[trigger] entries[i]).token == t && entries[i].barcode@
            == barcode
}

proof fn lemma_cell_tally(entries: Seq<CellTally>)
    requires
        cells_distinct(entries),
    ensures
        forall|i: int|
            0 <= i < entries.len() ==> cell_tally(
                entries,
                (#[trigger] entries[i]).token,
                entries[i].barcode@,
            ) == entries[i].count,
        forall|t: u32, barcode: Seq<u8>|
            !cell_present(entries, t, barcode) ==> #[trigger] cell_tally(entries, t, barcode) == 0,
    decreases entries.len(),
{
    if entries.len() > 0 {
        let before = entries.drop_last();
        assert(cells_distinct(before)) by {
            assert forall|i: int, j: int|
                0 <= i < before.len() && 0 <= j < before.len() && i != j implies !((
            #[trigger] before[i]).token == (#[trigger] before[j]).token && before[i].barcode@
                == before[j].barcode@) by {
                assert(before[i] == entries[i]);
                assert(before[j] == entries[j]);
            }
        }
        lemma_cell_tally(before);
        assert forall|i: int| 0 <= i < entries.len() implies cell_tally(
            entries,
            (#[trigger] entries[i]).token,
            entries[i].barcode@,
        ) == entries[i].count by {
            if i < entries.len() - 1 {
                assert(before[i] == entries[i]);
                let l = entries.len() - 1;
                assert(!(entries[i].token == entries[l].token && entries[i].barcode@
                    == entries[l].barcode@));
            }
        }
        assert forall|t: u32, barcode: Seq<u8>|
            !cell_present(entries, t, barcode) implies #[trigger] cell_tally(entries, t, barcode)
            == 0 by {
            assert(!(entries[entries.len() - 1].token == t && entries[entries.len() - 1].barcode@
                == barcode));
            if cell_present(before, t, barcode) {
                let i = choose|i: int|
                    0 <= i < before.len() && (#[trigger] before[i]).token == t
                        && before[i].barcode@ == barcode;
                assert(before[i] == entries[i]);
                assert(entries[i].token == t && entries[i].barcode@ == barcode);
                assert(false);
            }
            assert(cell_tally(before, t, barcode) == 0);
            assert(cell_tally(entries, t, barcode) == cell_tally(before, t, barcode));
        }
    }
}

/// Every token of the list is below `bound`.
pub open spec fn hits_below(tokens: Seq<u32>, bound: int) -> bool {
    forall|j: int| 0 <= j < tokens.len() ==> (#[trigger] tokens[j]) < bound
}

/// Every token that a read of the list is credited to is below `bound`.
pub open spec fn tokens_below(reads: Seq<(AnnotatedRead, usize)>, bound: int) -> bool {
    forall|i: int|
        0 <= i < reads.len() ==> match (#[trigger] reads[i]).0 {
            AnnotatedRead::Counted(info) => hits_below(info.hits.correct@, bound) && hits_below(
                info.hits.reverse@,
                bound,
            ),
            _ => true,
        }
}

/// Every token with a count in a cell is below `bound`.
pub open spec fn cells_below(entries: Seq<CellTally>, bound: int) -> bool {
    forall|i: int| 0 <= i < entries.len() ==> (#[trigger] entries[i]).token < bound
}

/// Adds one to the count of `token`, on the side that `reverse` names.
fn bump_region(counter: &mut Vec<(usize, usize)>, token: u32, reverse: bool)
    ensures
        final(counter)@.len() == if old(counter)@.len() > token {
            old(counter)@.len() as int
        } else {
            token + 1
        },
        forall|t: int|
            region_tally(final(counter)@, t) == if t == token {
                if reverse {
                    (
                        region_tally(old(counter)@, t).0,
                        sat_add(region_tally(old(counter)@, t).1 as int, 1),
                    )
                } else {
                    (
                        sat_add(region_tally(old(counter)@, t).0 as int, 1),
                        region_tally(old(counter)@, t).1,
                    )
                }
            } else {
                #[trigger] region_tally(old(counter)@, t)
            },
{
    while counter.len() <= token as usize
        invariant
            old(counter)@.len() <= counter@.len(),
            counter@.len() == old(counter)@.len() || counter@.len() <= token + 1,
            forall|t: int| #[trigger] region_tally(counter@, t) == region_tally(old(counter)@, t),
        decreases token as usize + 1 - counter.len(),
    {
        let ghost before = counter@;
        counter.push((0, 0));
        proof {
            assert forall|t: int| #[trigger]
                region_tally(counter@, t) == region_tally(old(counter)@, t) by {
                assert(region_tally(before, t) == region_tally(old(counter)@, t));
                if 0 <= t < before.len() {
                    assert(counter@[t] == before[t]);
                }
            }
        }
    }
    let ghost before = counter@;
    let at = counter[token as usize];
    let next = if reverse {
        (at.0, at.1.saturating_add(1))
    } else {
        (at.0.saturating_add(1), at.1)
    };
    counter.set(token as usize, next);
    proof {
        assert forall|t: int|
            region_tally(counter@, t) == if t == token {
                next
            } else {
                #[trigger] region_tally(old(counter)@, t)
            } by {
            assert(region_tally(before, t) == region_tally(old(counter)@, t));
        }
        assert(region_tally(before, token as int) == region_tally(old(counter)@, token as int));
    }
}

/// Adds one to the count of `token` in the cell `barcode`.
fn bump_cell(counter: &mut Vec<CellTally>, token: u32, barcode: &Vec<u8>)
    requires
        cells_distinct(old(counter)@),
    ensures
        cells_distinct(final(counter)@),
        forall|bound: int|
            token < bound && #[trigger] cells_below(old(counter)@, bound) ==> cells_below(
                final(counter)@,
                bound,
            ),
        forall|t: u32, b: Seq<u8>|
            cell_tally(final(counter)@, t, b) == if t == token && b == barcode@ {
                sat_add(cell_tally(old(counter)@, t, b) as int, 1)
            } else {
                #[trigger] cell_tally(old(counter)@, t, b)
            },
{
    let ghost before = counter@;
    proof {
        lemma_cell_tally(before);
    }
    let mut i: usize = 0;
    while i < counter.len()
        invariant
            0 <= i <= counter.len(),
            counter@ == before,
            before == old(counter)@,
            cells_distinct(before),
            forall|j: int|
                0 <= j < i ==> !((#[trigger] before[j]).token == token && before[j].barcode@
                    == barcode@),
        decreases counter.len() - i,
    {
        if counter[i].token == token && bytes_eq(counter[i].barcode.as_slice(), barcode.as_slice()) {
            let next = CellTally {
                token,
                barcode: clone_bytes(barcode.as_slice()),
                count: counter[i].count.saturating_add(1),
            };
            counter.set(i, next);
            proof {
                let after = counter@;
                lemma_cell_tally(before);
                assert(cells_distinct(after)) by {
                    assert forall|a: int, b: int|
                        0 <= a < after.len() && 0 <= b < after.len() && a != b implies !((
                    #[trigger] after[a]).token == (#[trigger] after[b]).token && after[a].barcode@
                        == after[b].barcode@) by {
                        assert(after[a].token == before[a].token && after[a].barcode@
                            == before[a].barcode@);
                        assert(after[b].token == before[b].token && after[b].barcode@
                            == before[b].barcode@);
                    }
                }
                lemma_cell_tally(after);
                assert forall|bound: int|
                    token < bound && #[trigger] cells_below(before, bound) implies cells_below(
                    after,
                    bound,
                ) by {
                    assert forall|j: int| 0 <= j < after.len() implies (#[trigger] after[j]).token
                        < bound by {
                        assert(after[j].token == before[j].token);
                    }
                }
                assert forall|t: u32, b: Seq<u8>|
                    cell_tally(after, t, b) == if t == token && b == barcode@ {
                        sat_add(cell_tally(before, t, b) as int, 1)
                    } else {
                        #[trigger] cell_tally(before, t, b)
                    } by {
                    if t == token && b == barcode@ {
                        assert(after[i as int].token == t && after[i as int].barcode@ == b);
                    } else if cell_present(before, t, b) {
                        let j = choose|j: int|
                            0 <= j < before.len() && (#[trigger] before[j]).token == t
                                && before[j].barcode@ == b;
                        assert(j != i);
                        assert(after[j] == before[j]);
                    } else {
                        if cell_present(after, t, b) {
                            let j = choose|j: int|
                                0 <= j < after.len() && (#[trigger] after[j]).token == t
                                    && after[j].barcode@ == b;
                            assert(after[j].token == before[j].token && after[j].barcode@
                                == before[j].barcode@);
                        }
                    }
                }
            }
            return ;
        }
        i = i + 1;
    }
    counter.push(CellTally { token, barcode: clone_bytes(barcode.as_slice()), count: 1 });
    proof {
        let after = counter@;
        assert(after.drop_last() =~= before);
        assert(cells_distinct(after)) by {
            assert forall|a: int, b: int|
                0 <= a < after.len() && 0 <= b < after.len() && a != b implies !((
            #[trigger] after[a]).token == (#[trigger] after[b]).token && after[a].barcode@
                == after[b].barcode@) by {
                if a < before.len() {
                    assert(after[a] == before[a]);
                }
                if b < before.len() {
                    assert(after[b] == before[b]);
                }
            }
        }
        lemma_cell_tally(before);
        assert forall|bound: int|
            token < bound && #[trigger] cells_below(before, bound) implies cells_below(
            after,
            bound,
        ) by {
            assert forall|j: int| 0 <= j < after.len() implies (#[trigger] after[j]).token
                < bound by {
                if j < before.len() {
                    assert(after[j] == before[j]);
                }
            }
        }
    }
}

/// The tallies of one chunk: per identifier, or per identifier and cell.
#[allow(inconsistent_fields)]
#[derive(Debug)]
pub enum CounterPerChunk {
    PerRegion {
        /// The counts of each token, agreeing and disagreeing, at its place.
        counter: Vec<(usize, usize)>,
        stat_counter: Stats,
    },
    SingleCell { stat_counter: Stats, counter: Vec<CellTally> },
}

impl CounterPerChunk {
    pub open spec fn wf(&self) -> bool {
        match self {
            CounterPerChunk::PerRegion { .. } => true,
            CounterPerChunk::SingleCell { counter, .. } => cells_distinct(counter@),
        }
    }

    pub open spec fn stats(&self) -> Stats {
        match self {
            CounterPerChunk::PerRegion { stat_counter, .. } => *stat_counter,
            CounterPerChunk::SingleCell { stat_counter, .. } => *stat_counter,
        }
    }

    /// The counts of a token; zeros under single-cell counting.
    pub open spec fn spec_region(&self, t: u32) -> (usize, usize) {
        match self {
            CounterPerChunk::PerRegion { counter, .. } => region_tally(counter@, t as int),
            CounterPerChunk::SingleCell { .. } => (0usize, 0usize),
        }
    }

    /// The count of a token in a cell; zero under per-region counting.
    pub open spec fn spec_cell(&self, t: u32, barcode: Seq<u8>) -> usize {
        match self {
            CounterPerChunk::PerRegion { .. } => 0usize,
            CounterPerChunk::SingleCell { counter, .. } => cell_tally(counter@, t, barcode),
        }
    }

    /// Every token with a count is below `bound`.
    pub open spec fn below(&self, bound: int) -> bool {
        match self {
            CounterPerChunk::PerRegion { counter, .. } => counter@.len() <= bound,
            CounterPerChunk::SingleCell { counter, .. } => cells_below(counter@, bound),
        }
    }

    /// Every read that counts has a barcode.
    pub open spec fn all_have_barcodes(reads: Seq<(AnnotatedRead, usize)>) -> bool {
        forall|i: int|
            0 <= i < reads.len() ==> match (#[trigger] reads[i]).0 {
                AnnotatedRead::Counted(info) => info.barcode.is_some(),
                _ => true,
            }
    }

    /// Whether the tallies `after` are the tallies `before` with the reads
    /// `reads` counted: each read in its category, and each read that counts
    /// once for every identifier among its hits.
    pub open spec fn spec_counted(
        before: CounterPerChunk,
        after: CounterPerChunk,
        reads: Seq<(AnnotatedRead, usize)>,
    ) -> bool {
        &&& after.wf()
        &&& before is PerRegion <==> after is PerRegion
        &&& forall|bound: int|
            before.below(bound) && #[trigger] tokens_below(reads, bound) ==> after.below(bound)
        &&& after.stats() == before.stats().spec_count_all(reads, reads.len() as int)
        &&& forall|t: u32| #[trigger]
            after.spec_region(t) == if before is PerRegion {
                (
                    sat_add(
                        before.spec_region(t).0 as int,
                        credited(reads, t, false, reads.len() as int),
                    ),
                    sat_add(
                        before.spec_region(t).1 as int,
                        credited(reads, t, true, reads.len() as int),
                    ),
                )
            } else {
                (0usize, 0usize)
            }
        &&& forall|t: u32, b: Seq<u8>| #[trigger]
            after.spec_cell(t, b) == if before is SingleCell {
                sat_add(
                    before.spec_cell(t, b) as int,
                    cell_credited(reads, t, b, reads.len() as int),
                )
            } else {
                0usize
            }
    }

    /// Counting one list and then another is counting the two as one.
    pub proof fn lemma_counted_twice(
        a: CounterPerChunk,
        b: CounterPerChunk,
        c: CounterPerChunk,
        first: Seq<(AnnotatedRead, usize)>,
        second: Seq<(AnnotatedRead, usize)>,
    )
        requires
            Self::spec_counted(a, b, first),
            Self::spec_counted(b, c, second),
        ensures
            Self::spec_counted(a, c, first + second),
    {
        let both = first + second;
        lemma_count_all_concat(a.stats(), first, second, second.len() as int);
        assert forall|bound: int| a.below(bound) && #[trigger] tokens_below(both, bound) implies c.below(
            bound,
        ) by {
            assert forall|i: int| 0 <= i < first.len() implies match (#[trigger] first[i]).0 {
                AnnotatedRead::Counted(info) => hits_below(info.hits.correct@, bound) && hits_below(
                    info.hits.reverse@,
                    bound,
                ),
                _ => true,
            } by {
                assert(both[i] == first[i]);
            }
            assert forall|i: int| 0 <= i < second.len() implies match (#[trigger] second[i]).0 {
                AnnotatedRead::Counted(info) => hits_below(info.hits.correct@, bound) && hits_below(
                    info.hits.reverse@,
                    bound,
                ),
                _ => true,
            } by {
                assert(both[first.len() + i] == second[i]);
            }
            assert(tokens_below(first, bound));
            assert(tokens_below(second, bound));
        }
        assert forall|t: u32| #[trigger]
            c.spec_region(t) == if a is PerRegion {
                (
                    sat_add(a.spec_region(t).0 as int, credited(both, t, false, both.len() as int)),
                    sat_add(a.spec_region(t).1 as int, credited(both, t, true, both.len() as int)),
                )
            } else {
                (0usize, 0usize)
            } by {
            lemma_credited_concat(first, second, t, false, second.len() as int);
            lemma_credited_concat(first, second, t, true, second.len() as int);
            lemma_credited_nonnegative(first, t, false, first.len() as int);
            lemma_credited_nonnegative(first, t, true, first.len() as int);
            lemma_credited_nonnegative(second, t, false, second.len() as int);
            lemma_credited_nonnegative(second, t, true, second.len() as int);
            assert(b.spec_region(t) == b.spec_region(t));
        }
        assert forall|t: u32, bc: Seq<u8>| #[trigger]
            c.spec_cell(t, bc) == if a is SingleCell {
                sat_add(a.spec_cell(t, bc) as int, cell_credited(both, t, bc, both.len() as int))
            } else {
                0usize
            } by {
            lemma_cell_credited_concat(first, second, t, bc, second.len() as int);
            lemma_cell_credited_nonnegative(first, t, bc, first.len() as int);
            lemma_cell_credited_nonnegative(second, t, bc, second.len() as int);
            assert(b.spec_cell(t, bc) == b.spec_cell(t, bc));
        }
    }

    /// Counting no reads changes no tally.
    pub proof fn lemma_counted_nothing(a: CounterPerChunk)
        requires
            a.wf(),
        ensures
            Self::spec_counted(a, a, Seq::empty()),
    {
    }

    /// Counts the reads of one flushed list: each read in its category, and
    /// each read that counts once for every identifier among its hits. Per
    /// region an identifier has a count for agreeing and one for disagreeing
    /// hits; per cell only agreeing hits are counted. Counts stop at
    /// `usize::MAX`.
    pub fn count_reads(&mut self, annotated_reads: &Vec<(AnnotatedRead, usize)>)
        requires
            old(self).wf(),
            *old(self) is SingleCell ==> Self::all_have_barcodes(annotated_reads@),
        ensures
            Self::spec_counted(*old(self), *final(self), annotated_reads@),
            final(self).wf(),
            *old(self) is PerRegion <==> *final(self) is PerRegion,
            forall|bound: int|
                old(self).below(bound) && #[trigger] tokens_below(annotated_reads@, bound)
                    ==> final(self).below(bound),
            final(self).stats() == old(self).stats().spec_count_all(
                annotated_reads@,
                annotated_reads@.len() as int,
            ),
            forall|t: u32| #[trigger]
                final(self).spec_region(t) == if *old(self) is PerRegion {
                    (
                        sat_add(
                            old(self).spec_region(t).0 as int,
                            credited(annotated_reads@, t, false, annotated_reads@.len() as int),
                        ),
                        sat_add(
                            old(self).spec_region(t).1 as int,
                            credited(annotated_reads@, t, true, annotated_reads@.len() as int),
                        ),
                    )
                } else {
                    (0usize, 0usize)
                },
            forall|t: u32, b: Seq<u8>| #[trigger]
                final(self).spec_cell(t, b) == if *old(self) is SingleCell {
                    sat_add(
                        old(self).spec_cell(t, b) as int,
                        cell_credited(annotated_reads@, t, b, annotated_reads@.len() as int),
                    )
                } else {
                    0usize
                },
    {
        match self {
            CounterPerChunk::PerRegion { counter, stat_counter } => {
                let ghost start = counter@;
                let ghost start_stats = *stat_counter;
                let mut i: usize = 0;
                while i < annotated_reads.len()
                    invariant
                        0 <= i <= annotated_reads.len(),
                        *stat_counter == start_stats.spec_count_all(annotated_reads@, i as int),
                        forall|bound: int|
                            start.len() <= bound && #[trigger] tokens_below(annotated_reads@, bound)
                                ==> counter@.len() <= bound,
                        forall|t: u32|
                            #[trigger] region_tally(counter@, t as int) == (
                                sat_add(
                                    region_tally(start, t as int).0 as int,
                                    credited(annotated_reads@, t, false, i as int),
                                ),
                                sat_add(
                                    region_tally(start, t as int).1 as int,
                                    credited(annotated_reads@, t, true, i as int),
                                ),
                            ),
                    decreases annotated_reads.len() - i,
                {
                    let read = &annotated_reads[i].0;
                    let ghost at_read = counter@;
                    match read {
                        AnnotatedRead::Counted(info) => {
                            let mut j: usize = 0;
                            while j < info.hits.correct.len()
                                invariant
                                    0 <= j <= info.hits.correct.len(),
                                    forall|bound: int|
                                        at_read.len() <= bound && #[trigger] hits_below(
                                            info.hits.correct@,
                                            bound,
                                        ) ==> counter@.len() <= bound,
                                    forall|t: u32|
                                        #[trigger] region_tally(counter@, t as int) == (
                                            sat_add(
                                                region_tally(at_read, t as int).0 as int,
                                                occurrences(info.hits.correct@, t, j as int),
                                            ),
                                            region_tally(at_read, t as int).1,
                                        ),
                                decreases info.hits.correct.len() - j,
                            {
                                let ghost before = counter@;
                                bump_region(counter, info.hits.correct[j], false);
                                proof {
                                    assert forall|t: u32|
                                        #[trigger] region_tally(counter@, t as int) == (
                                            sat_add(
                                                region_tally(at_read, t as int).0 as int,
                                                occurrences(info.hits.correct@, t, j + 1),
                                            ),
                                            region_tally(at_read, t as int).1,
                                        ) by {
                                        assert(region_tally(before, t as int) == (
                                            sat_add(
                                                region_tally(at_read, t as int).0 as int,
                                                occurrences(info.hits.correct@, t, j as int),
                                            ),
                                            region_tally(at_read, t as int).1,
                                        ));
                                        lemma_occurrences_nonnegative(
                                            info.hits.correct@,
                                            t,
                                            j as int,
                                        );
                                    }
                                }
                                j = j + 1;
                            }
                            let ghost mid = counter@;
                            let mut k: usize = 0;
                            while k < info.hits.reverse.len()
                                invariant
                                    0 <= k <= info.hits.reverse.len(),
                                    forall|bound: int|
                                        mid.len() <= bound && #[trigger] hits_below(
                                            info.hits.reverse@,
                                            bound,
                                        ) ==> counter@.len() <= bound,
                                    forall|t: u32|
                                        #[trigger] region_tally(counter@, t as int) == (
                                            region_tally(mid, t as int).0,
                                            sat_add(
                                                region_tally(mid, t as int).1 as int,
                                                occurrences(info.hits.reverse@, t, k as int),
                                            ),
                                        ),
                                decreases info.hits.reverse.len() - k,
                            {
                                let ghost before = counter@;
                                bump_region(counter, info.hits.reverse[k], true);
                                proof {
                                    assert forall|t: u32|
                                        #[trigger] region_tally(counter@, t as int) == (
                                            region_tally(mid, t as int).0,
                                            sat_add(
                                                region_tally(mid, t as int).1 as int,
                                                occurrences(info.hits.reverse@, t, k + 1),
                                            ),
                                        ) by {
                                        assert(region_tally(before, t as int) == (
                                            region_tally(mid, t as int).0,
                                            sat_add(
                                                region_tally(mid, t as int).1 as int,
                                                occurrences(info.hits.reverse@, t, k as int),
                                            ),
                                        ));
                                        lemma_occurrences_nonnegative(
                                            info.hits.reverse@,
                                            t,
                                            k as int,
                                        );
                                    }
                                }
                                k = k + 1;
                            }
                            proof {
                                assert forall|t: u32|
                                    #[trigger] region_tally(counter@, t as int) == (
                                        sat_add(
                                            region_tally(start, t as int).0 as int,
                                            credited(annotated_reads@, t, false, i + 1),
                                        ),
                                        sat_add(
                                            region_tally(start, t as int).1 as int,
                                            credited(annotated_reads@, t, true, i + 1),
                                        ),
                                    ) by {
                                    assert(region_tally(mid, t as int) == (
                                        sat_add(
                                            region_tally(at_read, t as int).0 as int,
                                            occurrences(
                                                info.hits.correct@,
                                                t,
                                                info.hits.correct@.len() as int,
                                            ),
                                        ),
                                        region_tally(at_read, t as int).1,
                                    ));
                                    assert(region_tally(at_read, t as int) == (
                                        sat_add(
                                            region_tally(start, t as int).0 as int,
                                            credited(annotated_reads@, t, false, i as int),
                                        ),
                                        sat_add(
                                            region_tally(start, t as int).1 as int,
                                            credited(annotated_reads@, t, true, i as int),
                                        ),
                                    ));
                                    lemma_credited_nonnegative(annotated_reads@, t, false, i as int);
                                    lemma_credited_nonnegative(annotated_reads@, t, true, i as int);
                                    lemma_occurrences_nonnegative(
                                        info.hits.correct@,
                                        t,
                                        info.hits.correct@.len() as int,
                                    );
                                    lemma_occurrences_nonnegative(
                                        info.hits.reverse@,
                                        t,
                                        info.hits.reverse@.len() as int,
                                    );
                                }
                            }
                        },
                        _ => {},
                    }
                    match read.category() {
                        Some(c) => {
                            stat_counter.record(c);
                        },
                        None => {},
                    }
                    i = i + 1;
                }
            },
            CounterPerChunk::SingleCell { stat_counter, counter } => {
                let ghost start = counter@;
                let ghost start_stats = *stat_counter;
                let mut i: usize = 0;
                while i < annotated_reads.len()
                    invariant
                        0 <= i <= annotated_reads.len(),
                        Self::all_have_barcodes(annotated_reads@),
                        cells_distinct(counter@),
                        forall|bound: int|
                            cells_below(start, bound) && #[trigger] tokens_below(
                                annotated_reads@,
                                bound,
                            ) ==> cells_below(counter@, bound),
                        *stat_counter == start_stats.spec_count_all(annotated_reads@, i as int),
                        forall|t: u32, b: Seq<u8>|
                            #[trigger] cell_tally(counter@, t, b) == sat_add(
                                cell_tally(start, t, b) as int,
                                cell_credited(annotated_reads@, t, b, i as int),
                            ),
                    decreases annotated_reads.len() - i,
                {
                    let read = &annotated_reads[i].0;
                    let ghost at_read = counter@;
                    match read {
                        AnnotatedRead::Counted(info) => {
                            match &info.barcode {
                                Some(barcode) => {
                                    let mut j: usize = 0;
                                    while j < info.hits.correct.len()
                                        invariant
                                            0 <= j <= info.hits.correct.len(),
                                            cells_distinct(counter@),
                                            forall|bound: int|
                                                cells_below(at_read, bound) && #[trigger] hits_below(
                                                    info.hits.correct@,
                                                    bound,
                                                ) ==> cells_below(counter@, bound),
                                            forall|t: u32, b: Seq<u8>|
                                                #[trigger] cell_tally(counter@, t, b) == if b
                                                    == barcode@ {
                                                    sat_add(
                                                        cell_tally(at_read, t, b) as int,
                                                        occurrences(
                                                            info.hits.correct@,
                                                            t,
                                                            j as int,
                                                        ),
                                                    )
                                                } else {
                                                    cell_tally(at_read, t, b)
                                                },
                                        decreases info.hits.correct.len() - j,
                                    {
                                        let ghost before = counter@;
                                        bump_cell(counter, info.hits.correct[j], barcode);
                                        proof {
                                            assert forall|t: u32, b: Seq<u8>|
                                                #[trigger] cell_tally(counter@, t, b) == if b
                                                    == barcode@ {
                                                    sat_add(
                                                        cell_tally(at_read, t, b) as int,
                                                        occurrences(info.hits.correct@, t, j + 1),
                                                    )
                                                } else {
                                                    cell_tally(at_read, t, b)
                                                } by {
                                                assert(cell_tally(before, t, b) == if b
                                                    == barcode@ {
                                                    sat_add(
                                                        cell_tally(at_read, t, b) as int,
                                                        occurrences(
                                                            info.hits.correct@,
                                                            t,
                                                            j as int,
                                                        ),
                                                    )
                                                } else {
                                                    cell_tally(at_read, t, b)
                                                });
                                                lemma_occurrences_nonnegative(
                                                    info.hits.correct@,
                                                    t,
                                                    j as int,
                                                );
                                            }
                                        }
                                        j = j + 1;
                                    }
                                    proof {
                                        assert forall|t: u32, b: Seq<u8>|
                                            #[trigger] cell_tally(counter@, t, b) == sat_add(
                                                cell_tally(start, t, b) as int,
                                                cell_credited(annotated_reads@, t, b, i + 1),
                                            ) by {
                                            assert(cell_tally(at_read, t, b) == sat_add(
                                                cell_tally(start, t, b) as int,
                                                cell_credited(annotated_reads@, t, b, i as int),
                                            ));
                                            lemma_cell_credited_nonnegative(
                                                annotated_reads@,
                                                t,
                                                b,
                                                i as int,
                                            );
                                            lemma_occurrences_nonnegative(
                                                info.hits.correct@,
                                                t,
                                                info.hits.correct@.len() as int,
                                            );
                                        }
                                    }
                                },
                                None => {
                                    assert(false);
                                },
                            }
                        },
                        _ => {},
                    }
                    match read.category() {
                        Some(c) => {
                            stat_counter.record(c);
                        },
                        None => {},
                    }
                    i = i + 1;
                }
            },
        }
    }
}

/// Counting two lists one after the other is counting them as one list.
pub proof fn lemma_count_all_concat(
    stats: Stats,
    a: Seq<(AnnotatedRead, usize)>,
    b: Seq<(AnnotatedRead, usize)>,
    n: int,
)
    requires
        0 <= n <= b.len(),
    ensures
        stats.spec_count_all(a + b, a.len() + n) == stats.spec_count_all(
            a,
            a.len() as int,
        ).spec_count_all(b, n),
    decreases n,
{
    if n > 0 {
        lemma_count_all_concat(stats, a, b, n - 1);
        assert((a + b)[a.len() + n - 1] == b[n - 1]);
    } else {
        lemma_count_all_prefix(stats, a + b, a, a.len() as int);
    }
}

/// Counting the first `n` reads does not look at the reads that follow.
pub proof fn lemma_count_all_prefix(
    stats: Stats,
    a: Seq<(AnnotatedRead, usize)>,
    b: Seq<(AnnotatedRead, usize)>,
    n: int,
)
    requires
        0 <= n <= a.len(),
        n <= b.len(),
        forall|i: int| 0 <= i < n ==> a[i] == b[i],
    ensures
        stats.spec_count_all(a, n) == stats.spec_count_all(b, n),
    decreases n,
{
    if n > 0 {
        lemma_count_all_prefix(stats, a, b, n - 1);
    }
}

/// The credit of two lists is the sum of their credits.
pub proof fn lemma_credited_concat(
    a: Seq<(AnnotatedRead, usize)>,
    b: Seq<(AnnotatedRead, usize)>,
    t: u32,
    reverse: bool,
    n: int,
)
    requires
        0 <= n <= b.len(),
    ensures
        credited(a + b, t, reverse, a.len() + n) == credited(a, t, reverse, a.len() as int)
            + credited(b, t, reverse, n),
    decreases n,
{
    if n > 0 {
        lemma_credited_concat(a, b, t, reverse, n - 1);
        assert((a + b)[a.len() + n - 1] == b[n - 1]);
    } else {
        lemma_credited_prefix(a + b, a, t, reverse, a.len() as int);
    }
}

/// What a region is credited with among the first reads depends on
/// these reads alone.
pub proof fn lemma_credited_prefix(
    a: Seq<(AnnotatedRead, usize)>,
    b: Seq<(AnnotatedRead, usize)>,
    t: u32,
    reverse: bool,
    n: int,
)
    requires
        0 <= n <= a.len(),
        n <= b.len(),
        forall|i: int| 0 <= i < n ==> a[i] == b[i],
    ensures
        credited(a, t, reverse, n) == credited(b, t, reverse, n),
    decreases n,
{
    if n > 0 {
        lemma_credited_prefix(a, b, t, reverse, n - 1);
    }
}

/// The credit of two lists in a cell is the sum of their credits.
pub proof fn lemma_cell_credited_concat(
    a: Seq<(AnnotatedRead, usize)>,
    b: Seq<(AnnotatedRead, usize)>,
    t: u32,
    barcode: Seq<u8>,
    n: int,
)
    requires
        0 <= n <= b.len(),
    ensures
        cell_credited(a + b, t, barcode, a.len() + n) == cell_credited(
            a,
            t,
            barcode,
            a.len() as int,
        ) + cell_credited(b, t, barcode, n),
    decreases n,
{
    if n > 0 {
        lemma_cell_credited_concat(a, b, t, barcode, n - 1);
        assert((a + b)[a.len() + n - 1] == b[n - 1]);
    } else {
        lemma_cell_credited_prefix(a + b, a, t, barcode, a.len() as int);
    }
}

/// What a region and cell are credited with among the first reads depends
/// on these reads alone.
pub proof fn lemma_cell_credited_prefix(
    a: Seq<(AnnotatedRead, usize)>,
    b: Seq<(AnnotatedRead, usize)>,
    t: u32,
    barcode: Seq<u8>,
    n: int,
)
    requires
        0 <= n <= a.len(),
        n <= b.len(),
        forall|i: int| 0 <= i < n ==> a[i] == b[i],
    ensures
        cell_credited(a, t, barcode, n) == cell_credited(b, t, barcode, n),
    decreases n,
{
    if n > 0 {
        lemma_cell_credited_prefix(a, b, t, barcode, n - 1);
    }
}

} // verus!
