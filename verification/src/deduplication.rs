use crate::bam_ext::Record;
use crate::bytes::{bytes_eq, clone_bytes};
use vstd::prelude::*;

verus! {

/// What makes two reads of one bucket duplicates of each other.
#[derive(Debug, Clone, Copy, PartialEq, Eq, Structural)]
pub enum DeduplicationMode {
    /// Nothing: every read counts.
    NoDedup,
    /// The same UMI.
    Umi,
    /// The same UMI and the same cell barcode.
    SingleCell,
}

/// The reads among which duplicates are looked for.
#[derive(Debug, Clone, Copy, PartialEq, Eq, Structural)]
pub enum DeduplicationBucket {
    /// Those with the same corrected position and orientation.
    PerPosition,
    /// All reads of the chunk with the same orientation.
    PerReference,
}

impl Default for DeduplicationBucket {
    fn default() -> (r: Self)
        ensures
            r == DeduplicationBucket::PerPosition,
    {
        DeduplicationBucket::PerPosition
    }
}

#[derive(Debug, Clone, Copy)]
pub struct DeduplicationStrategy {
    pub mode: DeduplicationMode,
    pub bucket: DeduplicationBucket,
}

/// The rank of a candidate in a deduplication contest: its alignment count,
/// capped at 255, then its mapping quality. The higher rank wins.
#[derive(Debug, Clone, Copy, PartialEq, Eq, Structural)]
pub struct MappingQuality {
    pub no_of_alignments: u8,
    pub mapq: u8,
}

impl MappingQuality {
    /// Strictly higher in rank: by alignment count, then by mapping quality.
    pub open spec fn spec_above(self, other: MappingQuality) -> bool {
        self.no_of_alignments > other.no_of_alignments || (self.no_of_alignments
            == other.no_of_alignments && self.mapq > other.mapq)
    }

    pub fn above(&self, other: &MappingQuality) -> (r: bool)
        ensures
            r == self.spec_above(*other),
    {
        self.no_of_alignments > other.no_of_alignments || (self.no_of_alignments
            == other.no_of_alignments && self.mapq > other.mapq)
    }

    /// The rank of a read.
    pub open spec fn spec_of(read: &Record) -> MappingQuality {
        MappingQuality {
            no_of_alignments: if read.spec_no_of_alignments() > 255 {
                255u8
            } else {
                read.spec_no_of_alignments() as u8
            },
            mapq: read.mapq,
        }
    }

    pub fn of(read: &Record) -> (r: MappingQuality)
        requires
            read.spec_alignment_count_readable(),
        ensures
            r == Self::spec_of(read),
    {
        let n = read.no_of_alignments();
        MappingQuality {
            no_of_alignments: if n > 255 {
                255
            } else {
                n as u8
            },
            mapq: read.mapq,
        }
    }
}

/// The identity of a read within its bucket: its UMI and, for single cells,
/// its barcode (empty otherwise).
pub type DedupKey = (Seq<u8>, Seq<u8>);

/// The representative of one identity: where it stands in the bucket's list
/// and its rank.
#[derive(Debug)]
pub struct DedupEntry {
    pub umi: Vec<u8>,
    pub barcode: Vec<u8>,
    pub index: usize,
    pub quality: MappingQuality,
}

impl DedupEntry {
    pub open spec fn key(&self) -> DedupKey {
        (self.umi@, self.barcode@)
    }
}

/// The deduplication state of one bucket.
#[derive(Debug)]
pub enum DedupPerBucket {
    NoDedup,
    Umi(Vec<DedupEntry>),
    SingleCell(Vec<DedupEntry>),
}

/// How a candidate fared in its bucket.
#[derive(Debug, Clone, Copy, PartialEq, Eq, Structural)]
pub enum AcceptReadResult {
    /// An equal or better representative is there: the candidate is a duplicate.
    Duplicated,
    /// No read of this identity was seen before.
    New,
    /// The candidate outranks the representative, which stood at the given
    /// index and is now the duplicate.
    DuplicateButPrefered(usize),
}

/// The representatives as a map from identity to index and rank.
pub open spec fn entries_map(entries: Seq<DedupEntry>) -> Map<DedupKey, (usize, MappingQuality)>
    decreases entries.len(),
{
    if entries.len() == 0 {
        Map::empty()
    } else {
        entries_map(entries.drop_last()).insert(
            entries.last().key(),
            (entries.last().index, entries.last().quality),
        )
    }
}

/// No identity has two representatives.
pub open spec fn entries_distinct(entries: Seq<DedupEntry>) -> bool {
    forall|i: int, j: int|
        0 <= i < entries.len() && 0 <= j < entries.len() && i != j ==> (#[trigger] entries[i]).key()
            != (#[trigger] entries[j]).key()
}

/// One step of a contest: the representatives after a candidate of the given
/// identity, index and rank came. A new identity gets the candidate; a known
/// one changes its representative only for a candidate of strictly higher rank.
pub open spec fn spec_accept(
    stored: Map<DedupKey, (usize, MappingQuality)>,
    key: DedupKey,
    index: usize,
    quality: MappingQuality,
) -> Map<DedupKey, (usize, MappingQuality)> {
    if !stored.contains_key(key) || quality.spec_above(stored[key].1) {
        stored.insert(key, (index, quality))
    } else {
        stored
    }
}

/// One step of a contest: what the candidate is told.
pub open spec fn spec_accept_result(
    stored: Map<DedupKey, (usize, MappingQuality)>,
    key: DedupKey,
    quality: MappingQuality,
) -> AcceptReadResult {
    if !stored.contains_key(key) {
        AcceptReadResult::New
    } else if quality.spec_above(stored[key].1) {
        AcceptReadResult::DuplicateButPrefered(stored[key].0)
    } else {
        AcceptReadResult::Duplicated
    }
}

proof fn lemma_entries_map(entries: Seq<DedupEntry>)
    requires
        entries_distinct(entries),
    ensures
        forall|i: int|
            0 <= i < entries.len() ==> entries_map(entries).contains_key(
                (#[trigger] entries[i]).key(),
            ) && entries_map(entries)[entries[i].key()] == (entries[i].index, entries[i].quality),
        forall|k: DedupKey| #[trigger]
            entries_map(entries).contains_key(k) ==> exists|i: int|
                0 <= i < entries.len() && (#[trigger] entries[i]).key() == k,
    decreases entries.len(),
{
    if entries.len() > 0 {
        let before = entries.drop_last();
        assert(entries_distinct(before)) by {
            assert forall|i: int, j: int|
                0 <= i < before.len() && 0 <= j < before.len() && i != j implies (
            #[trigger] before[i]).key() != (#[trigger] before[j]).key() by {
                assert(before[i] == entries[i]);
                assert(before[j] == entries[j]);
            }
        }
        lemma_entries_map(before);
        assert forall|i: int| 0 <= i < entries.len() implies entries_map(entries).contains_key(
            (#[trigger] entries[i]).key(),
        ) && entries_map(entries)[entries[i].key()] == (entries[i].index, entries[i].quality) by {
            if i < entries.len() - 1 {
                assert(before[i] == entries[i]);
                assert(entries[i].key() != entries[entries.len() - 1].key());
            }
        }
        assert forall|k: DedupKey| #[trigger]
            entries_map(entries).contains_key(k) implies exists|i: int|
            0 <= i < entries.len() && (#[trigger] entries[i]).key() == k by {
            if k == entries.last().key() {
                assert(entries[entries.len() - 1].key() == k);
            } else {
                assert(entries_map(before).contains_key(k));
                let i = choose|i: int| 0 <= i < before.len() && (#[trigger] before[i]).key() == k;
                assert(entries[i] == before[i]);
            }
        }
    }
}

fn accept_in(
    entries: &mut Vec<DedupEntry>,
    umi: &Vec<u8>,
    barcode: &[u8],
    this_index: usize,
    this_mq: MappingQuality,
) -> (r: AcceptReadResult)
    requires
        entries_distinct(old(entries)@),
    ensures
        entries_distinct(final(entries)@),
        entries_map(final(entries)@) == spec_accept(
            entries_map(old(entries)@),
            (umi@, barcode@),
            this_index,
            this_mq,
        ),
        r == spec_accept_result(entries_map(old(entries)@), (umi@, barcode@), this_mq),
{
    let ghost key: DedupKey = (umi@, barcode@);
    let ghost before = entries@;
    proof {
        lemma_entries_map(before);
    }
    let mut i: usize = 0;
    while i < entries.len()
        invariant
            0 <= i <= entries.len(),
            entries@ == before,
            before == old(entries)@,
            entries_distinct(before),
            key == (umi@, barcode@),
            forall|j: int| 0 <= j < i ==> (#[trigger] before[j]).key() != key,
        decreases entries.len() - i,
    {
        proof {
            lemma_entries_map(before);
        }
        let same_umi = bytes_eq(entries[i].umi.as_slice(), umi.as_slice());
        let same_barcode = bytes_eq(entries[i].barcode.as_slice(), barcode);
        assert(same_umi == (before[i as int].umi@ == umi@));
        assert(same_barcode == (before[i as int].barcode@ == barcode@));
        assert((same_umi && same_barcode) == (before[i as int].key() == key));
        if same_umi && same_barcode {
            if this_mq.above(&entries[i].quality) {
                let old_index = entries[i].index;
                let replaced = DedupEntry {
                    umi: clone_bytes(umi.as_slice()),
                    barcode: clone_bytes(barcode),
                    index: this_index,
                    quality: this_mq,
                };
                entries.set(i, replaced);
                proof {
                    let after = entries@;
                    assert(entries_distinct(after)) by {
                        assert forall|a: int, b: int|
                            0 <= a < after.len() && 0 <= b < after.len() && a != b implies (
                        #[trigger] after[a]).key() != (#[trigger] after[b]).key() by {
                            assert(after[a].key() == before[a].key());
                            assert(after[b].key() == before[b].key());
                        }
                    }
                    lemma_entries_map(after);
                    let want = spec_accept(entries_map(before), key, this_index, this_mq);
                    assert forall|k: DedupKey| #[trigger]
                        entries_map(after).contains_key(k) <==> want.contains_key(k) by {
                        if entries_map(after).contains_key(k) {
                            let j = choose|j: int|
                                0 <= j < after.len() && (#[trigger] after[j]).key() == k;
                            assert(before[j].key() == k);
                        }
                        if want.contains_key(k) && k != key {
                            let j = choose|j: int|
                                0 <= j < before.len() && (#[trigger] before[j]).key() == k;
                            assert(after[j].key() == k);
                        }
                        if k == key {
                            assert(after[i as int].key() == k);
                        }
                    }
                    assert forall|k: DedupKey| #[trigger]
                        entries_map(after).contains_key(k) implies entries_map(after)[k]
                        == want[k] by {
                        let j = choose|j: int|
                            0 <= j < after.len() && (#[trigger] after[j]).key() == k;
                        if j != i {
                            assert(after[j] == before[j]);
                        }
                    }
                    assert(entries_map(after) =~= want);
                }
                return AcceptReadResult::DuplicateButPrefered(old_index);
            } else {
                return AcceptReadResult::Duplicated;
            }
        }
        i = i + 1;
    }
    proof {
        if entries_map(before).contains_key(key) {
            let j = choose|j: int| 0 <= j < before.len() && (#[trigger] before[j]).key() == key;
            assert(false);
        }
    }
    entries.push(
        DedupEntry {
            umi: clone_bytes(umi.as_slice()),
            barcode: clone_bytes(barcode),
            index: this_index,
            quality: this_mq,
        },
    );
    proof {
        let after = entries@;
        assert(after.drop_last() =~= before);
        assert(entries_distinct(after)) by {
            assert forall|a: int, b: int|
                0 <= a < after.len() && 0 <= b < after.len() && a != b implies (#[trigger] after[a]).key()
                != (#[trigger] after[b]).key() by {
                if a < before.len() {
                    assert(after[a] == before[a]);
                }
                if b < before.len() {
                    assert(after[b] == before[b]);
                }
            }
        }
    }
    AcceptReadResult::New
}

impl DeduplicationStrategy {
    /// The empty state of a bucket under this strategy.
    pub fn new_bucket(&self) -> (b: DedupPerBucket)
        ensures
            b.wf(),
            b.stored() == Map::<DedupKey, (usize, MappingQuality)>::empty(),
            match self.mode {
                DeduplicationMode::NoDedup => b is NoDedup,
                DeduplicationMode::Umi => b is Umi,
                DeduplicationMode::SingleCell => b is SingleCell,
            },
    {
        match self.mode {
            DeduplicationMode::NoDedup => DedupPerBucket::NoDedup,
            DeduplicationMode::Umi => DedupPerBucket::Umi(Vec::new()),
            DeduplicationMode::SingleCell => DedupPerBucket::SingleCell(Vec::new()),
        }
    }

    /// Whether the configuration has what the mode needs: UMI extraction for
    /// `Umi`, and cell barcodes besides for `SingleCell`.
    pub open spec fn spec_check(&self, has_umi: bool, has_cell_barcodes: bool) -> Result<
        (),
        DedupConfigError,
    > {
        match self.mode {
            DeduplicationMode::NoDedup => Ok(()),
            DeduplicationMode::Umi => if has_umi {
                Ok(())
            } else {
                Err(DedupConfigError::UmiDedupNeedsUmi)
            },
            DeduplicationMode::SingleCell => if !has_cell_barcodes {
                Err(DedupConfigError::SingleCellNeedsBarcodes)
            } else if !has_umi {
                Err(DedupConfigError::SingleCellNeedsUmi)
            } else {
                Ok(())
            },
        }
    }

    pub fn check(&self, has_umi: bool, has_cell_barcodes: bool) -> (r: Result<(), DedupConfigError>)
        ensures
            r == self.spec_check(has_umi, has_cell_barcodes),
    {
        match self.mode {
            DeduplicationMode::NoDedup => Ok(()),
            DeduplicationMode::Umi => {
                if has_umi {
                    Ok(())
                } else {
                    Err(DedupConfigError::UmiDedupNeedsUmi)
                }
            },
            DeduplicationMode::SingleCell => {
                if !has_cell_barcodes {
                    Err(DedupConfigError::SingleCellNeedsBarcodes)
                } else if !has_umi {
                    Err(DedupConfigError::SingleCellNeedsUmi)
                } else {
                    Ok(())
                }
            },
        }
    }
}

/// What a deduplication mode misses in the configuration.
#[derive(Debug, Clone, Copy, PartialEq, Eq, Structural)]
pub enum DedupConfigError {
    UmiDedupNeedsUmi,
    SingleCellNeedsBarcodes,
    SingleCellNeedsUmi,
}

impl DedupPerBucket {
    /// No identity has two representatives.
    pub open spec fn wf(&self) -> bool {
        match self {
            DedupPerBucket::NoDedup => true,
            DedupPerBucket::Umi(entries) => entries_distinct(entries@),
            DedupPerBucket::SingleCell(entries) => entries_distinct(entries@),
        }
    }

    /// The representatives: for each identity seen, the index and the rank
    /// of the read that stands for it.
    pub open spec fn stored(&self) -> Map<DedupKey, (usize, MappingQuality)> {
        match self {
            DedupPerBucket::NoDedup => Map::empty(),
            DedupPerBucket::Umi(entries) => entries_map(entries@),
            DedupPerBucket::SingleCell(entries) => entries_map(entries@),
        }
    }

    /// The identity under which a read with the given UMI and barcode
    /// competes: its UMI, and under single-cell deduplication its barcode too.
    pub open spec fn spec_key_of(&self, umi: Option<Seq<u8>>, barcode: Option<Seq<u8>>) -> DedupKey {
        match self {
            DedupPerBucket::NoDedup => (Seq::empty(), Seq::empty()),
            DedupPerBucket::Umi(_) => (umi.unwrap(), Seq::empty()),
            DedupPerBucket::SingleCell(_) => (umi.unwrap(), barcode.unwrap()),
        }
    }

    /// The identity under which a read with the given UMI and barcode competes.
    pub open spec fn spec_key(&self, umi: Option<&Vec<u8>>, barcode: Option<&Vec<u8>>) -> DedupKey {
        self.spec_key_of(
            match umi {
                Some(u) => Some(u@),
                None => None,
            },
            match barcode {
                Some(b) => Some(b@),
                None => None,
            },
        )
    }

    /// Enters a read, which will stand at `this_index` of its bucket's list,
    /// into the contest of its identity. Without deduplication every read is
    /// new and nothing is stored.
    pub fn accept_read(
        &mut self,
        read: &Record,
        this_index: usize,
        umi: Option<&Vec<u8>>,
        barcode: Option<&Vec<u8>>,
    ) -> (r: AcceptReadResult)
        requires
            old(self).wf(),
            !(*old(self) is NoDedup) ==> umi.is_some() && read.spec_alignment_count_readable(),
            *old(self) is SingleCell ==> barcode.is_some(),
        ensures
            final(self).wf(),
            *old(self) is NoDedup ==> r == AcceptReadResult::New && *final(self) is NoDedup,
            *old(self) is Umi ==> *final(self) is Umi,
            *old(self) is SingleCell ==> *final(self) is SingleCell,
            !(*old(self) is NoDedup) ==> r == spec_accept_result(
                old(self).stored(),
                old(self).spec_key(umi, barcode),
                MappingQuality::spec_of(read),
            ) && final(self).stored() == spec_accept(
                old(self).stored(),
                old(self).spec_key(umi, barcode),
                this_index,
                MappingQuality::spec_of(read),
            ),
    {
        match self {
            DedupPerBucket::NoDedup => AcceptReadResult::New,
            DedupPerBucket::Umi(entries) => {
                let this_mq = MappingQuality::of(read);
                let empty: Vec<u8> = Vec::new();
                accept_in(entries, umi.unwrap(), empty.as_slice(), this_index, this_mq)
            },
            DedupPerBucket::SingleCell(entries) => {
                let this_mq = MappingQuality::of(read);
                accept_in(entries, umi.unwrap(), barcode.unwrap().as_slice(), this_index, this_mq)
            },
        }
    }
}

/// A read that enters the contest of its bucket.
pub struct Candidate {
    pub key: DedupKey,
    pub index: usize,
    pub quality: MappingQuality,
}

/// The representatives after all candidates came, in order, to an empty bucket.
pub open spec fn contest(candidates: Seq<Candidate>) -> Map<DedupKey, (usize, MappingQuality)>
    decreases candidates.len(),
{
    if candidates.len() == 0 {
        Map::empty()
    } else {
        let c = candidates.last();
        spec_accept(contest(candidates.drop_last()), c.key, c.index, c.quality)
    }
}

/// Whether candidate `j` is the first of its identity with the highest rank:
/// none of that identity ranks above it, and it ranks above all that came
/// before it.
pub open spec fn first_best(candidates: Seq<Candidate>, j: int) -> bool {
    &&& 0 <= j < candidates.len()
    &&& forall|i: int|
        0 <= i < candidates.len() && (#[trigger] candidates[i]).key == candidates[j].key
            ==> !candidates[i].quality.spec_above(candidates[j].quality)
    &&& forall|i: int|
        0 <= i < j && (#[trigger] candidates[i]).key == candidates[j].key
            ==> candidates[j].quality.spec_above(candidates[i].quality)
}

/// The contest of a bucket is monotone: whatever the order of arrival, the
/// representative of an identity at the end is the candidate of that identity
/// with the highest rank, and among several of that rank the one that came
/// first. Identities that no candidate has have no representative.
pub proof fn lemma_contest_keeps_first_best(candidates: Seq<Candidate>, key: DedupKey)
    ensures
        contest(candidates).contains_key(key) <==> exists|i: int|
            0 <= i < candidates.len() && (#[trigger] candidates[i]).key == key,
        contest(candidates).contains_key(key) ==> exists|j: int|
            first_best(candidates, j) && (#[trigger] candidates[j]).key == key && contest(
                candidates,
            )[key] == (candidates[j].index, candidates[j].quality),
    decreases candidates.len(),
{
    if candidates.len() > 0 {
        let before = candidates.drop_last();
        let c = candidates.last();
        lemma_contest_keeps_first_best(before, key);
        let m = contest(before);
        if exists|i: int| 0 <= i < before.len() && (#[trigger] before[i]).key == key {
            let i = choose|i: int| 0 <= i < before.len() && (#[trigger] before[i]).key == key;
            assert(candidates[i].key == key);
        }
        if exists|i: int| 0 <= i < candidates.len() && (#[trigger] candidates[i]).key == key {
            let i = choose|i: int| 0 <= i < candidates.len() && (#[trigger] candidates[i]).key == key;
            if i < before.len() {
                assert(before[i].key == key);
            }
        }
        if c.key == key {
            assert(candidates[candidates.len() - 1].key == key);
            if !m.contains_key(key) {
                let j = candidates.len() - 1;
                assert forall|i: int|
                    0 <= i < candidates.len() && (#[trigger] candidates[i]).key
                        == candidates[j].key implies !candidates[i].quality.spec_above(
                    candidates[j].quality,
                ) by {
                    if i < j {
                        assert(before[i].key == key);
                    }
                }
                assert forall|i: int|
                    0 <= i < j && (#[trigger] candidates[i]).key
                        == candidates[j].key implies candidates[j].quality.spec_above(
                    candidates[i].quality,
                ) by {
                    assert(before[i].key == key);
                }
                assert(first_best(candidates, j));
            } else {
                let p = choose|p: int|
                    first_best(before, p) && (#[trigger] before[p]).key == key && m[key] == (
                        before[p].index,
                        before[p].quality,
                    );
                if c.quality.spec_above(m[key].1) {
                    let j = candidates.len() - 1;
                    assert forall|i: int|
                        0 <= i < candidates.len() && (#[trigger] candidates[i]).key
                            == candidates[j].key implies !candidates[i].quality.spec_above(
                        candidates[j].quality,
                    ) by {
                        if i < j {
                            assert(before[i].key == before[p].key);
                            assert(!before[i].quality.spec_above(before[p].quality));
                        }
                    }
                    assert forall|i: int|
                        0 <= i < j && (#[trigger] candidates[i]).key
                            == candidates[j].key implies candidates[j].quality.spec_above(
                        candidates[i].quality,
                    ) by {
                        assert(before[i].key == before[p].key);
                        assert(!before[i].quality.spec_above(before[p].quality));
                    }
                    assert(first_best(candidates, j));
                } else {
                    assert(candidates[p] == before[p]);
                    assert forall|i: int|
                        0 <= i < candidates.len() && (#[trigger] candidates[i]).key
                            == candidates[p].key implies !candidates[i].quality.spec_above(
                        candidates[p].quality,
                    ) by {
                        if i < before.len() {
                            assert(before[i].key == before[p].key);
                        }
                    }
                    assert forall|i: int|
                        0 <= i < p && (#[trigger] candidates[i]).key
                            == candidates[p].key implies candidates[p].quality.spec_above(
                        candidates[i].quality,
                    ) by {
                        assert(before[i].key == before[p].key);
                    }
                    assert(first_best(candidates, p));
                }
            }
        } else {
            if m.contains_key(key) {
                let p = choose|p: int|
                    first_best(before, p) && (#[trigger] before[p]).key == key && m[key] == (
                        before[p].index,
                        before[p].quality,
                    );
                assert(candidates[p] == before[p]);
                assert forall|i: int|
                    0 <= i < candidates.len() && (#[trigger] candidates[i]).key
                        == candidates[p].key implies !candidates[i].quality.spec_above(
                    candidates[p].quality,
                ) by {
                    if i < before.len() {
                        assert(before[i].key == before[p].key);
                    }
                }
                assert forall|i: int|
                    0 <= i < p && (#[trigger] candidates[i]).key
                        == candidates[p].key implies candidates[p].quality.spec_above(
                    candidates[i].quality,
                ) by {
                    assert(before[i].key == before[p].key);
                }
                assert(first_best(candidates, p));
            }
        }
    }
}

} // verus!
