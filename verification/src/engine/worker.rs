use crate::bam_ext::{spec_leading_softclips, Record, RecordError};
use crate::barcodes::CellBarcodes;
use crate::deduplication::{
    spec_accept, spec_accept_result, AcceptReadResult, DedupKey, DedupPerBucket,
    DeduplicationBucket, DeduplicationMode, DeduplicationStrategy, MappingQuality,
};
use crate::engine::chunked_genome::{lemma_one_chunk_per_position, spec_takes, tiles, Chunk};
use crate::engine::counts::{
    hits_below, tokens_below, AnnotatedRead, AnnotatedReadInfo, CounterPerChunk, Hits,
};
use crate::engine::interner::OurInterner;
use crate::config::Strategy;
use crate::engine::matcher::{
    MatchError, ReadToGeneMatcher, ReferenceMatcher, TagMatcher, TreeMatcher,
};
use crate::engine::region_index::{
    build_trees_from_gtf, build_trees_from_gtf_merged, clone_trees, spec_index_of, spec_indexable,
    spec_merged_index_of, spec_refused, spec_same_index, BuildError,
};
use crate::gtf::GTFEntrys;
use crate::text::str_eq;
use crate::extractors::{ExtractError, UMIExtraction};
use crate::filters::{any_removes, spec_any_removes, Filter};
use std::collections::HashSet;
use vstd::prelude::*;

verus! {

/// How reads are gathered for deduplication within one chunk.
#[derive(Debug, Clone, Copy, PartialEq, Eq, Structural)]
pub enum Bucket {
    /// One bucket per corrected position.
    PerPosition,
    /// One bucket for the whole chunk, kept under the given position.
    PerReference(i32),
}

/// Why the work on a chunk stops.
#[derive(Debug, Clone, Copy, PartialEq, Eq, Structural)]
pub enum WorkerError {
    Record(RecordError),
    Extract(ExtractError),
    Match(MatchError),
    /// A position would be flushed a second time: the input is not sorted.
    PositionProcessedTwice(i32),
    /// The chunk holds more reads than can be numbered.
    TooManyReads,
}

/// Why an engine cannot be put together.
#[derive(Debug, Clone, Copy, PartialEq, Eq, Structural)]
pub enum EngineError {
    /// Deduplication by UMI without a UMI extractor.
    UmiDedupNeedsUmi,
    /// Single-cell deduplication without cell barcodes.
    SingleCellNeedsBarcodes,
    /// Single-cell deduplication without a UMI extractor.
    SingleCellNeedsUmi,
    /// An extractor's region is empty.
    EmptyReadRegion,
    /// The region index could not be built.
    Build(BuildError),
    /// A tag to match reads by holds a lower-case letter.
    TagNotUppercase,
}

/// What one chunk worker needs to know: filters, extractors, matcher and
/// deduplication strategy.
pub struct Engine {
    pub dedup_strategy: DeduplicationStrategy,
    pub filters: Vec<Filter>,
    pub matcher: ReadToGeneMatcher,
    pub umi_extractor: Option<UMIExtraction>,
    pub cell_barcode: Option<CellBarcodes>,
}

/// What a read is found to be before it meets the reads of its bucket.
pub enum Outcome {
    NotInRegion,
    Filtered,
    NoBarcode,
    NoUMI,
    BarcodeNotInWhitelist(Vec<u8>),
    /// The read may count, unless it is a duplicate.
    Candidate { hits: Hits, umi: Option<Vec<u8>>, barcode: Option<Vec<u8>> },
}

/// A read's bucket and what the read is found to be.
pub struct Annotation {
    pub corrected_position: i32,
    pub outcome: Outcome,
}

/// Where the annotation of a read ends, as far as it can be told without
/// matching the read to regions.
pub enum Stage {
    Fails(WorkerError),
    NotInRegion,
    Filtered,
    NoBarcode,
    BarcodeNotInWhitelist(Seq<u8>),
    NoUMI,
    /// The read goes on to the matcher, with this barcode and this UMI.
    Matches { barcode: Option<Seq<u8>>, umi: Option<Seq<u8>> },
}

impl Engine {
    /// The extractors are usable, and the deduplication mode has the
    /// extractors it needs.
    pub open spec fn wf(&self) -> bool {
        &&& self.matcher.wf()
        &&& self.umi_extractor.is_some() ==> self.umi_extractor.unwrap().wf()
        &&& self.cell_barcode.is_some() ==> self.cell_barcode.unwrap().wf()
        &&& self.dedup_strategy.mode != DeduplicationMode::NoDedup ==> self.umi_extractor.is_some()
        &&& self.dedup_strategy.mode == DeduplicationMode::SingleCell
            ==> self.cell_barcode.is_some()
    }

    /// Whether clipping is corrected for: with one bucket per position and a
    /// limit above zero.
    pub open spec fn spec_corrects(bucket_mode: Bucket, max_skip_len: u32) -> bool {
        bucket_mode is PerPosition && max_skip_len > 0
    }

    /// The position of the read's bucket.
    pub open spec fn spec_bucket_position(bucket_mode: Bucket, max_skip_len: u32, read: &Record) -> int {
        match bucket_mode {
            Bucket::PerPosition => if max_skip_len > 0 {
                read.pos - spec_leading_softclips(read.cigar@)
            } else {
                read.pos as int
            },
            Bucket::PerReference(l) => l as int,
        }
    }

    /// The position that decides whether the read belongs to the chunk: the
    /// raw position, whether clipping is corrected for or not.
    pub open spec fn spec_bounds_position(read: &Record) -> int {
        read.pos as int
    }

    /// Whether a read whose position for the bounds check is `position` is
    /// left to another chunk: it lies at or beyond the chunk's stop, or
    /// before its start, unless the chunk starts at zero and so takes what
    /// lies below zero.
    pub open spec fn spec_not_in_region(chunk: &Chunk, position: int) -> bool {
        (chunk.start > 0 && position < chunk.start) || position >= chunk.stop
    }

    /// Where the annotation of a read ends.
    pub open spec fn spec_stage(
        &self,
        chunk: &Chunk,
        read: &Record,
        max_skip_len: u32,
        bucket_mode: Bucket,
    ) -> Stage {
        if !(0 <= read.pos <= i32::MAX) {
            Stage::Fails(WorkerError::Record(RecordError::PositionOutOfRange))
        } else if Self::spec_corrects(bucket_mode, max_skip_len) && max_skip_len > i32::MAX {
            Stage::Fails(WorkerError::Record(RecordError::SkipLimitOutOfRange))
        } else if Self::spec_corrects(bucket_mode, max_skip_len) && spec_leading_softclips(
            read.cigar@,
        ) > max_skip_len {
            Stage::Fails(
                WorkerError::Record(
                    RecordError::SoftClipTooLong {
                        skip: spec_leading_softclips(read.cigar@) as u32,
                        max_skip_len,
                    },
                ),
            )
        } else if Self::spec_not_in_region(chunk, Self::spec_bounds_position(read)) {
            Stage::NotInRegion
        } else if !read.spec_alignment_count_readable() {
            Stage::Fails(WorkerError::Record(RecordError::AlignmentCountNotUnsigned))
        } else if spec_any_removes(self.filters@, read) {
            Stage::Filtered
        } else {
            self.spec_stage_barcode(read)
        }
    }

    /// Where the annotation of a read ends once the filters let it pass.
    pub open spec fn spec_stage_barcode(&self, read: &Record) -> Stage {
        match self.cell_barcode {
            Some(cb) => match cb.extract.spec_extract(read) {
                Err(e) => Stage::Fails(WorkerError::Extract(e)),
                Ok(None) => Stage::NoBarcode,
                Ok(Some(raw)) => match cb.spec_correct(raw) {
                    None => Stage::BarcodeNotInWhitelist(raw),
                    Some(corrected) => self.spec_stage_umi(read, Some(corrected)),
                },
            },
            None => self.spec_stage_umi(read, None),
        }
    }

    /// Where the annotation of a read ends once its barcode is settled.
    pub open spec fn spec_stage_umi(&self, read: &Record, barcode: Option<Seq<u8>>) -> Stage {
        match self.umi_extractor {
            Some(x) => match x.spec_extract(read) {
                Err(e) => Stage::Fails(WorkerError::Extract(e)),
                Ok(None) => Stage::NoUMI,
                Ok(Some(umi)) => self.spec_stage_fits(read, barcode, Some(umi)),
            },
            None => self.spec_stage_fits(read, barcode, None),
        }
    }

    /// A read goes to the interval trees only if its alignment ends within
    /// the positions that 32 bits can hold.
    pub open spec fn spec_stage_fits(
        &self,
        read: &Record,
        barcode: Option<Seq<u8>>,
        umi: Option<Seq<u8>>,
    ) -> Stage {
        if self.matcher is TreeMatcher && !read.spec_fits() {
            Stage::Fails(WorkerError::Record(RecordError::SpanOutOfRange))
        } else {
            Stage::Matches { barcode, umi }
        }
    }

    /// Whether an annotation is what the stage says, for a stage that ends
    /// before the matcher.
    pub open spec fn spec_ended(stage: Stage, position: int, r: Result<Annotation, WorkerError>) -> bool {
        match stage {
            Stage::Fails(e) => r is Err && r->Err_0 == e,
            Stage::NotInRegion => r is Ok && r->Ok_0.corrected_position == position
                && r->Ok_0.outcome is NotInRegion,
            Stage::Filtered => r is Ok && r->Ok_0.corrected_position == position
                && r->Ok_0.outcome is Filtered,
            Stage::NoBarcode => r is Ok && r->Ok_0.corrected_position == position
                && r->Ok_0.outcome is NoBarcode,
            Stage::NoUMI => r is Ok && r->Ok_0.corrected_position == position
                && r->Ok_0.outcome is NoUMI,
            Stage::BarcodeNotInWhitelist(raw) => r is Ok && r->Ok_0.corrected_position == position
                && r->Ok_0.outcome is BarcodeNotInWhitelist
                && r->Ok_0.outcome->BarcodeNotInWhitelist_0@ == raw,
            Stage::Matches { .. } => false,
        }
    }

    /// Whether an annotation is what the matcher's answer `hits` makes of a
    /// read that reached the matcher.
    pub open spec fn spec_matched(
        barcode: Option<Seq<u8>>,
        umi: Option<Seq<u8>>,
        position: int,
        hits: Result<(Vec<u32>, Vec<u32>), MatchError>,
        r: Result<Annotation, WorkerError>,
    ) -> bool {
        match hits {
            Err(e) => r is Err && r->Err_0 == WorkerError::Match(e),
            Ok((correct, reverse)) => {
                &&& r is Ok
                &&& r->Ok_0.corrected_position == position
                &&& r->Ok_0.outcome matches Outcome::Candidate { hits: h, umi: u, barcode: b }
                &&& h.correct == correct
                &&& h.reverse == reverse
                &&& u.is_some() == umi.is_some()
                &&& (u.is_some() ==> u.unwrap()@ == umi.unwrap())
                &&& b.is_some() == barcode.is_some()
                &&& (b.is_some() ==> b.unwrap()@ == barcode.unwrap())
            },
        }
    }

    /// Whether `r` is the annotation of `read`, made with an interner whose
    /// strings were `before` and are `after`: a read whose stage ends before
    /// the matcher has the annotation that the stage names, and the interner
    /// is as it was; a read that reaches the matcher has the hits that the
    /// matcher gives.
    pub open spec fn spec_annotated(
        &self,
        chunk: &Chunk,
        read: &Record,
        before: Seq<Seq<char>>,
        after: Seq<Seq<char>>,
        max_skip_len: u32,
        bucket_mode: Bucket,
        r: Result<Annotation, WorkerError>,
    ) -> bool {
        match self.spec_stage(chunk, read, max_skip_len, bucket_mode) {
            Stage::Matches { barcode, umi } => exists|hits: Result<(Vec<u32>, Vec<u32>), MatchError>|
                #![trigger self.matcher.spec_hits(chunk, read, before, after, hits)]
                self.matcher.spec_hits(chunk, read, before, after, hits) && Self::spec_matched(
                    barcode,
                    umi,
                    Self::spec_bucket_position(bucket_mode, max_skip_len, read),
                    hits,
                    r,
                ),
            stage => Self::spec_ended(
                stage,
                Self::spec_bucket_position(bucket_mode, max_skip_len, read),
                r,
            ) && after == before,
        }
    }

    /// The bounds of the chunks, as `(start, stop)`.
    pub open spec fn spec_chunk_bounds(chunks: Seq<Chunk>) -> Seq<(int, int)> {
        Seq::new(chunks.len(), |k: int| (chunks[k].start as int, chunks[k].stop as int))
    }

    /// Every read of a reference is worked on in exactly one of the chunks
    /// that tile the reference: in the chunk that holds its raw position.
    /// Every other chunk leaves it out before a filter, an extractor or the
    /// matcher is asked. This holds of a read whose leading soft clip puts
    /// its bucket before the chunk, or below zero, as of any other.
    pub proof fn lemma_read_in_one_chunk(
        &self,
        chunks: Seq<Chunk>,
        length: int,
        read: &Record,
        max_skip_len: u32,
        bucket_mode: Bucket,
    )
        requires
            tiles(Self::spec_chunk_bounds(chunks), 0, length),
            0 <= read.pos < length,
            read.pos <= i32::MAX,
            Self::spec_corrects(bucket_mode, max_skip_len) ==> max_skip_len <= i32::MAX
                && spec_leading_softclips(read.cigar@) <= max_skip_len,
        ensures
            exists|i: int|
                #![trigger chunks[i]]
                0 <= i < chunks.len() && chunks[i].start <= read.pos < chunks[i].stop && forall|
                    j: int,
                |
                    0 <= j < chunks.len() ==> ((#[trigger] self.spec_stage(
                        &chunks[j],
                        read,
                        max_skip_len,
                        bucket_mode,
                    )) is NotInRegion <==> j != i),
    {
        let bounds = Self::spec_chunk_bounds(chunks);
        let p = read.pos as int;
        lemma_one_chunk_per_position(bounds, length, p);
        let i = choose|i: int|
            0 <= i < bounds.len() && #[trigger] spec_takes(bounds[i], p) && forall|j: int|
                0 <= j < bounds.len() && #[trigger] spec_takes(bounds[j], p) ==> j == i;
        assert(chunks[i].start <= read.pos < chunks[i].stop);
        assert forall|j: int| 0 <= j < chunks.len() implies ((#[trigger] self.spec_stage(
            &chunks[j],
            read,
            max_skip_len,
            bucket_mode,
        )) is NotInRegion <==> j != i) by {
            assert(spec_takes(bounds[j], p) == !Self::spec_not_in_region(&chunks[j], p));
            if j != i {
                assert(!spec_takes(bounds[j], p));
            }
        }
    }

    /// Finds what a read is, up to the contest of its bucket: whether it
    /// belongs to the chunk, passes the filters, has a barcode that can be
    /// corrected and a UMI, and which identifiers it hits. A read that ends
    /// early leaves the interner as it is.
    #[verifier::rlimit(80)]
    pub fn annotate(
        &self,
        chunk: &Chunk,
        read: &Record,
        interner: &mut OurInterner,
        max_skip_len: u32,
        bucket_mode: Bucket,
    ) -> (r: Result<Annotation, WorkerError>)
        requires
            self.wf(),
            old(interner).wf(),
        ensures
            final(interner).wf(),
            old(interner).strings().is_prefix_of(final(interner).strings()),
            r is Err ==> final(interner).strings() == old(interner).strings(),
            self.spec_annotated(
                chunk,
                read,
                old(interner).strings(),
                final(interner).strings(),
                max_skip_len,
                bucket_mode,
                r,
            ),
            r is Ok ==> 0 <= read.pos <= i32::MAX,
            r is Ok ==> (r->Ok_0.outcome matches Outcome::Candidate { hits: h, umi: u, barcode: b }
                ==> {
                &&& forall|i: int|
                    0 <= i < h.correct@.len() ==> (#[trigger] h.correct@[i]) < final(interner).strings().len()
                &&& forall|i: int|
                    0 <= i < h.reverse@.len() ==> (#[trigger] h.reverse@[i]) < final(interner).strings().len()
                &&& u.is_some() == self.umi_extractor.is_some()
                &&& b.is_some() == self.cell_barcode.is_some()
                &&& read.spec_alignment_count_readable()
            }),
    {
        if read.pos < 0 || read.pos > i32::MAX as i64 {
            return Err(WorkerError::Record(RecordError::PositionOutOfRange));
        }
        let raw_position: i32 = read.pos as i32;
        let corrected_position: i32 = match bucket_mode {
            Bucket::PerPosition => {
                if max_skip_len > 0 {
                    if max_skip_len > i32::MAX as u32 {
                        return Err(WorkerError::Record(RecordError::SkipLimitOutOfRange));
                    }
                    let skip = read.leading_softclips();
                    if skip > max_skip_len {
                        return Err(
                            WorkerError::Record(RecordError::SoftClipTooLong { skip, max_skip_len }),
                        );
                    }
                    raw_position - skip as i32
                } else {
                    raw_position
                }
            },
            Bucket::PerReference(l) => l,
        };
        let position_for_bounds_check: i32 = raw_position;
        if (chunk.start > 0 && (position_for_bounds_check as i64) < chunk.start as i64) || (
        position_for_bounds_check as i64 >= chunk.stop as i64) {
            return Ok(Annotation { corrected_position, outcome: Outcome::NotInRegion });
        }
        if !read.alignment_count_readable() {
            return Err(WorkerError::Record(RecordError::AlignmentCountNotUnsigned));
        }
        if any_removes(&self.filters, read) {
            return Ok(Annotation { corrected_position, outcome: Outcome::Filtered });
        }
        let barcode: Option<Vec<u8>> = match &self.cell_barcode {
            Some(cb) => {
                match cb.extract(read) {
                    Err(e) => {
                        return Err(WorkerError::Extract(e));
                    },
                    Ok(None) => {
                        return Ok(Annotation { corrected_position, outcome: Outcome::NoBarcode });
                    },
                    Ok(Some(uncorrected)) => {
                        match cb.correct(uncorrected.as_slice()) {
                            Some(bc) => Some(bc),
                            None => {
                                return Ok(
                                    Annotation {
                                        corrected_position,
                                        outcome: Outcome::BarcodeNotInWhitelist(uncorrected),
                                    },
                                );
                            },
                        }
                    },
                }
            },
            None => None,
        };
        let umi: Option<Vec<u8>> = match &self.umi_extractor {
            Some(x) => {
                match x.extract(read) {
                    Err(e) => {
                        return Err(WorkerError::Extract(e));
                    },
                    Ok(None) => {
                        return Ok(Annotation { corrected_position, outcome: Outcome::NoUMI });
                    },
                    Ok(Some(umi)) => Some(umi),
                }
            },
            None => None,
        };
        let needs_fit = match &self.matcher {
            ReadToGeneMatcher::TreeMatcher(_) => true,
            _ => false,
        };
        if needs_fit && !read.fits() {
            return Err(WorkerError::Record(RecordError::SpanOutOfRange));
        }
        let hits = self.matcher.hits(chunk, read, interner);
        let ghost hits_seen = hits;
        let r = match hits {
            Err(e) => Err(WorkerError::Match(e)),
            Ok((genes_hit_correct, genes_hit_reverse)) => Ok(
                Annotation {
                    corrected_position,
                    outcome: Outcome::Candidate {
                        hits: Hits { correct: genes_hit_correct, reverse: genes_hit_reverse },
                        umi,
                        barcode,
                    },
                },
            ),
        };
        proof {
            assert(self.matcher.spec_hits(
                chunk,
                read,
                old(interner).strings(),
                interner.strings(),
                hits_seen,
            ));
        }
        r
    }
}

/// The reads of one orientation in one bucket, in the order of their
/// arrival, each with its number in the input, and the state of their
/// deduplication contest.
pub struct OrientedReads {
    pub reads: Vec<(AnnotatedRead, usize)>,
    pub dedup: DedupPerBucket,
}

/// The bytes of a byte string that may be missing.
pub open spec fn opt_bytes(o: Option<Vec<u8>>) -> Option<Seq<u8>> {
    match o {
        Some(v) => Some(v@),
        None => None,
    }
}

impl Outcome {
    /// Whether a read with this outcome can enter the contest of a bucket in
    /// the given state: a candidate has the UMI and the barcode that the
    /// deduplication mode goes by, and a readable alignment count.
    pub open spec fn spec_fit_for(&self, dedup: &DedupPerBucket, read: &Record) -> bool {
        match self {
            Outcome::Candidate { umi, barcode, .. } => {
                &&& read.spec_alignment_count_readable()
                &&& !(dedup is NoDedup) ==> umi.is_some()
                &&& dedup is SingleCell ==> barcode.is_some()
            },
            _ => true,
        }
    }

    /// What the contest of the bucket tells a candidate.
    pub open spec fn spec_verdict(&self, dedup: &DedupPerBucket, read: &Record) -> AcceptReadResult {
        match self {
            Outcome::Candidate { umi, barcode, .. } => if dedup is NoDedup {
                AcceptReadResult::New
            } else {
                spec_accept_result(
                    dedup.stored(),
                    dedup.spec_key_of(opt_bytes(*umi), opt_bytes(*barcode)),
                    MappingQuality::spec_of(read),
                )
            },
            _ => AcceptReadResult::New,
        }
    }

    /// Whether `entry` is what a read with this outcome is kept as, given
    /// what the contest told it.
    pub open spec fn spec_kept_as(
        &self,
        verdict: AcceptReadResult,
        corrected_position: i32,
        read: &Record,
        entry: &AnnotatedRead,
    ) -> bool {
        match self {
            Outcome::NotInRegion => entry is NotInRegion,
            Outcome::Filtered => entry is Filtered,
            Outcome::NoBarcode => entry is NoBarcode,
            Outcome::NoUMI => entry is NoUMI,
            Outcome::BarcodeNotInWhitelist(raw) => entry is BarcodeNotInWhitelist
                && entry->BarcodeNotInWhitelist_0 == raw,
            Outcome::Candidate { hits, umi, barcode } => if verdict is Duplicated {
                entry is Duplicate
            } else {
                &&& entry matches AnnotatedRead::Counted(info)
                &&& info.corrected_position == corrected_position
                &&& info.reverse == read.reverse
                &&& info.hits.correct == hits.correct
                &&& info.hits.reverse == hits.reverse
                &&& info.umi == umi
                &&& info.barcode == barcode
                &&& info.mapping_priority == (
                    MappingQuality::spec_of(read).no_of_alignments,
                    MappingQuality::spec_of(read).mapq,
                )
            },
        }
    }
}

impl OrientedReads {
    /// Every representative of the contest is a read of the list.
    pub open spec fn wf(&self) -> bool {
        &&& self.dedup.wf()
        &&& forall|k: DedupKey| #[trigger]
            self.dedup.stored().contains_key(k) ==> self.dedup.stored()[k].0 < self.reads@.len()
    }

    pub fn new(dedup: DedupPerBucket) -> (r: OrientedReads)
        requires
            dedup.wf(),
            dedup.stored() == Map::<DedupKey, (usize, MappingQuality)>::empty(),
        ensures
            r.wf(),
            r.reads@.len() == 0,
            r.dedup == dedup,
    {
        OrientedReads { reads: Vec::new(), dedup }
    }

    /// Whether `after` is what a list with the reads `reads` and the contest
    /// `dedup` becomes by taking one more read.
    pub open spec fn spec_accepted(
        reads: Seq<(AnnotatedRead, usize)>,
        dedup: DedupPerBucket,
        after: OrientedReads,
        read: &Record,
        outcome: Outcome,
        corrected_position: i32,
        org_index: usize,
    ) -> bool {
        &&& after.reads@.len() == reads.len() + 1
        &&& after.reads@.last().1 == org_index
        &&& outcome.spec_kept_as(
            outcome.spec_verdict(&dedup, read),
            corrected_position,
            read,
            &after.reads@.last().0,
        )
        &&& forall|i: int|
            0 <= i < reads.len() ==> if outcome.spec_verdict(&dedup, read)
                == AcceptReadResult::DuplicateButPrefered(i as usize) {
                (#[trigger] after.reads@[i]).0 is Duplicate && after.reads@[i].1 == reads[i].1
            } else {
                after.reads@[i] == reads[i]
            }
        &&& dedup is NoDedup <==> after.dedup is NoDedup
        &&& dedup is Umi <==> after.dedup is Umi
        &&& after.dedup.stored() == if outcome is Candidate && !(dedup is NoDedup) {
            spec_accept(
                dedup.stored(),
                dedup.spec_key_of(
                    opt_bytes(outcome->Candidate_umi),
                    opt_bytes(outcome->Candidate_barcode),
                ),
                reads.len() as usize,
                MappingQuality::spec_of(read),
            )
        } else {
            dedup.stored()
        }
    }

    /// Takes one read into the list. A candidate first enters the contest of
    /// its identity: a duplicate is kept as such; a new read, or one that
    /// outranks the representative, is kept as counted, and the outranked
    /// representative becomes a duplicate.
    pub fn accept(&mut self, read: &Record, outcome: Outcome, corrected_position: i32, org_index: usize)
        requires
            old(self).wf(),
            outcome.spec_fit_for(&old(self).dedup, read),
        ensures
            final(self).wf(),
            Self::spec_accepted(
                old(self).reads@,
                old(self).dedup,
                *final(self),
                read,
                outcome,
                corrected_position,
                org_index,
            ),
    {
        match outcome {
            Outcome::NotInRegion => {
                self.reads.push((AnnotatedRead::NotInRegion, org_index));
            },
            Outcome::Filtered => {
                self.reads.push((AnnotatedRead::Filtered, org_index));
            },
            Outcome::NoBarcode => {
                self.reads.push((AnnotatedRead::NoBarcode, org_index));
            },
            Outcome::NoUMI => {
                self.reads.push((AnnotatedRead::NoUMI, org_index));
            },
            Outcome::BarcodeNotInWhitelist(raw) => {
                self.reads.push((AnnotatedRead::BarcodeNotInWhitelist(raw), org_index));
            },
            Outcome::Candidate { hits, umi, barcode } => {
                let this_index = self.reads.len();
                let do_accept = self.dedup.accept_read(
                    read,
                    this_index,
                    umi.as_ref(),
                    barcode.as_ref(),
                );
                match do_accept {
                    AcceptReadResult::Duplicated => {
                        self.reads.push((AnnotatedRead::Duplicate, org_index));
                    },
                    AcceptReadResult::New => {
                        let quality = MappingQuality::of(read);
                        let info = AnnotatedReadInfo {
                            corrected_position,
                            reverse: read.reverse,
                            hits,
                            umi,
                            barcode,
                            mapping_priority: (quality.no_of_alignments, quality.mapq),
                        };
                        self.reads.push((AnnotatedRead::Counted(Box::new(info)), org_index));
                    },
                    AcceptReadResult::DuplicateButPrefered(idx_to_set_duplicate) => {
                        let old_org_index = self.reads[idx_to_set_duplicate].1;
                        self.reads.set(
                            idx_to_set_duplicate,
                            (AnnotatedRead::Duplicate, old_org_index),
                        );
                        let quality = MappingQuality::of(read);
                        let info = AnnotatedReadInfo {
                            corrected_position,
                            reverse: read.reverse,
                            hits,
                            umi,
                            barcode,
                            mapping_priority: (quality.no_of_alignments, quality.mapq),
                        };
                        self.reads.push((AnnotatedRead::Counted(Box::new(info)), org_index));
                    },
                }
            },
        }
    }
}

/// The reads of one bucket: those of one corrected position, or all reads of
/// the chunk, by orientation. Each orientation has its own contest.
pub struct PerPosition {
    pub position: i32,
    pub reads_forward: OrientedReads,
    pub reads_reverse: OrientedReads,
}

/// Whether the state of a contest is the one that the mode asks for.
pub open spec fn dedup_of_mode(dedup: &DedupPerBucket, mode: DeduplicationMode) -> bool {
    match mode {
        DeduplicationMode::NoDedup => dedup is NoDedup,
        DeduplicationMode::Umi => dedup is Umi,
        DeduplicationMode::SingleCell => dedup is SingleCell,
    }
}

/// Every read of the list that counts has the orientation `reverse` and the
/// corrected position `position`.
pub open spec fn counted_agree(reads: Seq<(AnnotatedRead, usize)>, position: i32, reverse: bool) -> bool {
    forall|i: int|
        0 <= i < reads.len() ==> match (#[trigger] reads[i]).0 {
            AnnotatedRead::Counted(info) => info.reverse == reverse && info.corrected_position
                == position,
            _ => true,
        }
}

impl PerPosition {
    pub open spec fn wf(&self, mode: DeduplicationMode) -> bool {
        &&& self.reads_forward.wf()
        &&& self.reads_reverse.wf()
        &&& dedup_of_mode(&self.reads_forward.dedup, mode)
        &&& dedup_of_mode(&self.reads_reverse.dedup, mode)
        &&& counted_agree(self.reads_forward.reads@, self.position, false)
        &&& counted_agree(self.reads_reverse.reads@, self.position, true)
    }

    /// The reads in the order in which they are flushed: forward, then reverse.
    pub open spec fn spec_reads(&self) -> Seq<(AnnotatedRead, usize)> {
        self.reads_forward.reads@ + self.reads_reverse.reads@
    }

    /// Every token in the bucket is below `bound`.
    pub open spec fn spec_below(&self, bound: int) -> bool {
        tokens_below(self.reads_forward.reads@, bound) && tokens_below(
            self.reads_reverse.reads@,
            bound,
        )
    }

    /// Every read of the bucket that counts has a barcode.
    pub open spec fn spec_barcoded(&self) -> bool {
        CounterPerChunk::all_have_barcodes(self.reads_forward.reads@)
            && CounterPerChunk::all_have_barcodes(self.reads_reverse.reads@)
    }
}

/// The reads of the first `n` buckets, in the order in which they are flushed.
pub open spec fn flushed_reads(buckets: Seq<PerPosition>, n: int) -> Seq<(AnnotatedRead, usize)>
    decreases n,
{
    if n <= 0 {
        Seq::empty()
    } else {
        flushed_reads(buckets, n - 1) + buckets[n - 1].spec_reads()
    }
}

/// The positions of the first `n` buckets.
pub open spec fn flushed_positions(buckets: Seq<PerPosition>, n: int) -> Set<i32> {
    Set::new(|p: i32| exists|i: int| 0 <= i < n && i < buckets.len() && (#[trigger] buckets[i]).position == p)
}

/// How many of the buckets, which are in ascending order, lie below `threshold`.
pub open spec fn spec_count_below(buckets: Seq<PerPosition>, threshold: int) -> int
    decreases buckets.len(),
{
    if buckets.len() == 0 || buckets[0].position >= threshold {
        0
    } else {
        1 + spec_count_below(buckets.drop_first(), threshold)
    }
}

/// The buckets stand in strictly ascending order of their positions.
pub open spec fn buckets_sorted(buckets: Seq<PerPosition>) -> bool {
    forall|i: int, j: int|
        0 <= i < j < buckets.len() ==> (#[trigger] buckets[i]).position < (
        #[trigger] buckets[j]).position
}

/// The state of the work on one chunk.
pub struct ChunkWorker {
    pub interner: OurInterner,
    /// The buckets that are not flushed yet, in ascending order.
    pub read_catcher: Vec<PerPosition>,
    pub output_catcher: CounterPerChunk,
    /// The flushed reads with their numbers, where they are asked for.
    pub annotated: Option<Vec<(AnnotatedRead, usize)>>,
    /// The raw position up to which the input has been read.
    pub current_pos: i32,
    /// The number of the next read.
    pub orig_index: usize,
    /// The positions that have been flushed.
    pub processed: HashSet<i32>,
    pub bucket_mode: Bucket,
    pub max_skip_len: u32,
    pub dedup_strategy: DeduplicationStrategy,
}

impl ChunkWorker {
    pub open spec fn wf(&self) -> bool {
        &&& self.interner.wf()
        &&& self.output_catcher.wf()
        &&& self.output_catcher.below(self.interner.strings().len() as int)
        &&& buckets_sorted(self.read_catcher@)
        &&& self.current_pos >= 0
        &&& self.max_skip_len <= i32::MAX
        &&& forall|i: int|
            0 <= i < self.read_catcher@.len() ==> {
                &&& (#[trigger] self.read_catcher@[i]).wf(self.dedup_strategy.mode)
                &&& self.read_catcher@[i].spec_below(self.interner.strings().len() as int)
                &&& self.output_catcher is SingleCell ==> self.read_catcher@[i].spec_barcoded()
            }
    }

    /// Whether a read with this outcome can be placed: a candidate has a
    /// readable alignment count, tokens that the interner knows, the UMI and
    /// barcode that the deduplication mode goes by, and a barcode where
    /// counts are kept per cell.
    pub open spec fn spec_placeable(&self, read: &Record, outcome: &Outcome) -> bool {
        match outcome {
            Outcome::Candidate { hits, umi, barcode } => {
                &&& read.spec_alignment_count_readable()
                &&& self.dedup_strategy.mode != DeduplicationMode::NoDedup ==> umi.is_some()
                &&& self.dedup_strategy.mode == DeduplicationMode::SingleCell
                    ==> barcode.is_some()
                &&& self.output_catcher is SingleCell ==> barcode.is_some()
                &&& hits_below(hits.correct@, self.interner.strings().len() as int)
                &&& hits_below(hits.reverse@, self.interner.strings().len() as int)
            },
            _ => true,
        }
    }

    /// Whether the buckets `after` are what `before` become by placing a read
    /// of the given orientation under `annotation.corrected_position`, in the
    /// bucket at index `at`: an existing bucket takes the read into the list
    /// of its orientation; otherwise a new bucket, which holds only this
    /// read, stands at its place in the order. All other buckets are as
    /// they were.
    pub open spec fn spec_placed(
        before: Seq<PerPosition>,
        after: Seq<PerPosition>,
        mode: DeduplicationMode,
        read: &Record,
        annotation: Annotation,
        org_index: usize,
        at: int,
    ) -> bool {
        let key = annotation.corrected_position;
        let existed = exists|i: int| 0 <= i < before.len() && (#[trigger] before[i]).position == key;
        &&& 0 <= at < after.len()
        &&& after[at].position == key
        &&& if existed {
            let was = before[at];
            &&& after.len() == before.len()
            &&& forall|i: int| 0 <= i < before.len() && i != at ==> after[i] == before[i]
            &&& was.position == key
            &&& if read.reverse {
                after[at].reads_forward == was.reads_forward && OrientedReads::spec_accepted(
                    was.reads_reverse.reads@,
                    was.reads_reverse.dedup,
                    after[at].reads_reverse,
                    read,
                    annotation.outcome,
                    key,
                    org_index,
                )
            } else {
                after[at].reads_reverse == was.reads_reverse && OrientedReads::spec_accepted(
                    was.reads_forward.reads@,
                    was.reads_forward.dedup,
                    after[at].reads_forward,
                    read,
                    annotation.outcome,
                    key,
                    org_index,
                )
            }
        } else {
            let mine = if read.reverse {
                after[at].reads_reverse
            } else {
                after[at].reads_forward
            };
            let other = if read.reverse {
                after[at].reads_forward
            } else {
                after[at].reads_reverse
            };
            &&& at <= before.len()
            &&& after.len() == before.len() + 1
            &&& after == before.insert(at, after[at])
            &&& other.reads@.len() == 0
            &&& dedup_of_mode(&other.dedup, mode)
            &&& other.dedup.stored() == Map::<DedupKey, (usize, MappingQuality)>::empty()
            &&& exists|fresh: DedupPerBucket|
                #![trigger dedup_of_mode(&fresh, mode)]
                dedup_of_mode(&fresh, mode) && fresh.wf() && fresh.stored() == Map::<
                    DedupKey,
                    (usize, MappingQuality),
                >::empty() && OrientedReads::spec_accepted(
                    Seq::empty(),
                    fresh,
                    mine,
                    read,
                    annotation.outcome,
                    key,
                    org_index,
                )
        }
    }

    /// Puts a read into the bucket of its position, which is made if it is
    /// not there yet, and numbers the read. Returns the bucket's index.
    pub fn place(&mut self, read: &Record, annotation: Annotation) -> (at: usize)
        requires
            old(self).wf(),
            old(self).orig_index < usize::MAX,
            old(self).spec_placeable(read, &annotation.outcome),
        ensures
            final(self).wf(),
            final(self).orig_index == old(self).orig_index + 1,
            final(self).interner == old(self).interner,
            final(self).output_catcher == old(self).output_catcher,
            final(self).annotated == old(self).annotated,
            final(self).current_pos == old(self).current_pos,
            final(self).processed == old(self).processed,
            final(self).bucket_mode == old(self).bucket_mode,
            final(self).max_skip_len == old(self).max_skip_len,
            final(self).dedup_strategy == old(self).dedup_strategy,
            Self::spec_placed(
                old(self).read_catcher@,
                final(self).read_catcher@,
                old(self).dedup_strategy.mode,
                read,
                annotation,
                old(self).orig_index,
                at as int,
            ),
    {
        let key = annotation.corrected_position;
        let ghost before = self.read_catcher@;
        let ghost bound = self.interner.strings().len() as int;
        let mut i: usize = self.read_catcher.len();
        while i > 0 && self.read_catcher[i - 1].position > key
            invariant
                0 <= i <= self.read_catcher@.len(),
                self.read_catcher@ == before,
                forall|j: int| i <= j < before.len() ==> (#[trigger] before[j]).position > key,
            decreases i,
        {
            i = i - 1;
        }
        let found = i > 0 && self.read_catcher[i - 1].position == key;
        let at: usize = if found {
            i - 1
        } else {
            let fresh_forward = self.dedup_strategy.new_bucket();
            let fresh_reverse = self.dedup_strategy.new_bucket();
            self.read_catcher.insert(
                i,
                PerPosition {
                    position: key,
                    reads_forward: OrientedReads::new(fresh_forward),
                    reads_reverse: OrientedReads::new(fresh_reverse),
                },
            );
            i
        };
        let ghost staged = self.read_catcher@;
        let ghost existed = exists|j: int|
            0 <= j < before.len() && (#[trigger] before[j]).position == key;
        proof {
            if found {
                assert(before[i - 1].position == key);
            } else {
                if existed {
                    let j = choose|j: int| 0 <= j < before.len() && (#[trigger] before[j]).position == key;
                    if j < i {
                        if i > 0 && j != i - 1 {
                            assert(before[j].position < before[i - 1].position);
                        }
                    }
                    assert(false);
                }
                assert(buckets_sorted(staged)) by {
                    assert forall|a: int, b: int| 0 <= a < b < staged.len() implies (
                    #[trigger] staged[a]).position < (#[trigger] staged[b]).position by {
                        if a < i && b > i {
                            assert(staged[a] == before[a]);
                            assert(staged[b] == before[b - 1]);
                        } else if a < i && b == i {
                            assert(staged[a] == before[a]);
                            if i > 0 && a != i - 1 {
                                assert(before[a].position < before[i - 1].position);
                            }
                        } else if a == i {
                            assert(staged[b] == before[b - 1]);
                        } else if b < i {
                            assert(staged[a] == before[a]);
                            assert(staged[b] == before[b]);
                        } else {
                            assert(staged[a] == before[a - 1]);
                            assert(staged[b] == before[b - 1]);
                        }
                    }
                }
                assert forall|j: int| 0 <= j < staged.len() implies {
                    &&& (#[trigger] staged[j]).wf(self.dedup_strategy.mode)
                    &&& staged[j].spec_below(bound)
                    &&& self.output_catcher is SingleCell ==> staged[j].spec_barcoded()
                } by {
                    if j < i {
                        assert(staged[j] == before[j]);
                    } else if j > i {
                        assert(staged[j] == before[j - 1]);
                    }
                }
            }
        }
        let org_index = self.orig_index;
        if read.reverse {
            self.read_catcher[at].reads_reverse.accept(read, annotation.outcome, key, org_index);
        } else {
            self.read_catcher[at].reads_forward.accept(read, annotation.outcome, key, org_index);
        }
        self.orig_index = self.orig_index + 1;
        proof {
            let after = self.read_catcher@;
            assert(after.len() == staged.len());
            assert forall|j: int| 0 <= j < after.len() && j != at implies after[j] == staged[j] by {}
            assert(after[at as int].position == key);
            assert(buckets_sorted(after)) by {
                assert forall|a: int, b: int| 0 <= a < b < after.len() implies (
                #[trigger] after[a]).position < (#[trigger] after[b]).position by {
                    assert(after[a].position == staged[a].position);
                    assert(after[b].position == staged[b].position);
                }
            }
            let mine_before = if read.reverse {
                staged[at as int].reads_reverse
            } else {
                staged[at as int].reads_forward
            };
            let mine = if read.reverse {
                after[at as int].reads_reverse
            } else {
                after[at as int].reads_forward
            };
            assert(OrientedReads::spec_accepted(
                mine_before.reads@,
                mine_before.dedup,
                mine,
                read,
                annotation.outcome,
                key,
                org_index,
            ));
            Self::lemma_accepted_keeps(
                mine_before,
                mine,
                read,
                annotation.outcome,
                key,
                org_index,
                bound,
                self.dedup_strategy.mode,
            );
            assert forall|j: int| 0 <= j < after.len() implies {
                &&& (#[trigger] after[j]).wf(self.dedup_strategy.mode)
                &&& after[j].spec_below(bound)
                &&& self.output_catcher is SingleCell ==> after[j].spec_barcoded()
            } by {
                if j != at {
                    assert(after[j] == staged[j]);
                }
            }
            if !found {
                assert(after =~= before.insert(at as int, after[at as int]));
                assert(dedup_of_mode(&mine_before.dedup, self.dedup_strategy.mode));
            } else {
                assert(staged == before);
            }
        }
        at
    }

    /// What the taking of a read keeps of a list: its reads that count keep
    /// orientation and position, its tokens stay below the bound, and where
    /// candidates have barcodes so have the reads that count.
    proof fn lemma_accepted_keeps(
        was: OrientedReads,
        now: OrientedReads,
        read: &Record,
        outcome: Outcome,
        key: i32,
        org_index: usize,
        bound: int,
        mode: DeduplicationMode,
    )
        requires
            OrientedReads::spec_accepted(was.reads@, was.dedup, now, read, outcome, key, org_index),
            dedup_of_mode(&was.dedup, mode),
            outcome matches Outcome::Candidate { hits, .. } ==> hits_below(hits.correct@, bound)
                && hits_below(hits.reverse@, bound),
        ensures
            dedup_of_mode(&now.dedup, mode),
            tokens_below(was.reads@, bound) ==> tokens_below(now.reads@, bound),
            counted_agree(was.reads@, key, read.reverse) ==> counted_agree(
                now.reads@,
                key,
                read.reverse,
            ),
            (CounterPerChunk::all_have_barcodes(was.reads@) && (outcome matches Outcome::Candidate {
                barcode,
                ..
            } ==> barcode.is_some())) ==> CounterPerChunk::all_have_barcodes(now.reads@),
    {
        let n = was.reads@.len() as int;
        assert(now.reads@.last() == now.reads@[n]);
        if tokens_below(was.reads@, bound) {
            assert forall|i: int| 0 <= i < now.reads@.len() implies match (#[trigger] now.reads@[i]).0 {
                AnnotatedRead::Counted(info) => hits_below(info.hits.correct@, bound) && hits_below(
                    info.hits.reverse@,
                    bound,
                ),
                _ => true,
            } by {
                if i < n {
                    assert(was.reads@[i] == was.reads@[i]);
                }
            }
        }
        if counted_agree(was.reads@, key, read.reverse) {
            assert forall|i: int| 0 <= i < now.reads@.len() implies match (#[trigger] now.reads@[i]).0 {
                AnnotatedRead::Counted(info) => info.reverse == read.reverse
                    && info.corrected_position == key,
                _ => true,
            } by {
                if i < n {
                    assert(was.reads@[i] == was.reads@[i]);
                }
            }
        }
        if CounterPerChunk::all_have_barcodes(was.reads@) && (outcome matches Outcome::Candidate {
            barcode,
            ..
        } ==> barcode.is_some()) {
            assert forall|i: int| 0 <= i < now.reads@.len() implies match (#[trigger] now.reads@[i]).0 {
                AnnotatedRead::Counted(info) => info.barcode.is_some(),
                _ => true,
            } by {
                if i < n {
                    assert(was.reads@[i] == was.reads@[i]);
                }
            }
        }
    }
}

proof fn lemma_count_below(buckets: Seq<PerPosition>, threshold: int)
    requires
        buckets_sorted(buckets),
    ensures
        0 <= spec_count_below(buckets, threshold) <= buckets.len(),
        forall|i: int|
            0 <= i < spec_count_below(buckets, threshold) ==> (#[trigger] buckets[i]).position
                < threshold,
        forall|i: int|
            spec_count_below(buckets, threshold) <= i < buckets.len() ==> (
            #[trigger] buckets[i]).position >= threshold,
    decreases buckets.len(),
{
    if !(buckets.len() == 0 || buckets[0].position >= threshold) {
        let rest = buckets.drop_first();
        assert(buckets_sorted(rest)) by {
            assert forall|i: int, j: int| 0 <= i < j < rest.len() implies (#[trigger] rest[i]).position
                < (#[trigger] rest[j]).position by {
                assert(rest[i] == buckets[i + 1]);
                assert(rest[j] == buckets[j + 1]);
            }
        }
        lemma_count_below(rest, threshold);
        let n = spec_count_below(rest, threshold);
        assert forall|i: int| 0 <= i < 1 + n implies (#[trigger] buckets[i]).position
            < threshold by {
            if i > 0 {
                assert(rest[i - 1] == buckets[i]);
            }
        }
        assert forall|i: int| 1 + n <= i < buckets.len() implies (#[trigger] buckets[i]).position
            >= threshold by {
            assert(rest[i - 1] == buckets[i]);
        }
    } else if buckets.len() > 0 {
        assert forall|i: int| 0 <= i < buckets.len() implies (#[trigger] buckets[i]).position
            >= threshold by {
            if i > 0 {
                assert(buckets[0].position < buckets[i].position);
            }
        }
    }
}

/// The number of leading buckets below the threshold is the place of the
/// first bucket at or above it.
proof fn lemma_count_below_is(buckets: Seq<PerPosition>, threshold: int, n: int)
    requires
        buckets_sorted(buckets),
        0 <= n <= buckets.len(),
        forall|i: int| 0 <= i < n ==> (#[trigger] buckets[i]).position < threshold,
        n < buckets.len() ==> buckets[n].position >= threshold,
    ensures
        spec_count_below(buckets, threshold) == n,
{
    lemma_count_below(buckets, threshold);
    let m = spec_count_below(buckets, threshold);
    if m < n {
        assert(buckets[m].position < threshold);
    }
    if n < m {
        assert(buckets[n].position < threshold);
    }
}

impl ChunkWorker {
    /// Whether the worker `after` is the worker `before` with its first `n`
    /// buckets flushed: their reads are counted, bucket by bucket, forward
    /// reads before reverse reads, and kept with their numbers where
    /// annotations are asked for; their positions are marked as processed.
    pub open spec fn spec_flushed(before: ChunkWorker, after: ChunkWorker, n: int) -> bool {
        let gone = flushed_reads(before.read_catcher@, n);
        &&& after.read_catcher@ == before.read_catcher@.skip(n)
        &&& CounterPerChunk::spec_counted(before.output_catcher, after.output_catcher, gone)
        &&& match before.annotated {
            Some(kept) => after.annotated.is_some() && after.annotated.unwrap()@ == kept@ + gone,
            None => after.annotated.is_none(),
        }
        &&& after.processed@ == before.processed@.union(
            flushed_positions(before.read_catcher@, n),
        )
        &&& after.interner == before.interner
        &&& after.current_pos == before.current_pos
        &&& after.orig_index == before.orig_index
        &&& after.bucket_mode == before.bucket_mode
        &&& after.max_skip_len == before.max_skip_len
        &&& after.dedup_strategy == before.dedup_strategy
    }

    /// Whether one of the first `n` buckets lies at a position that was
    /// flushed before.
    pub open spec fn spec_flushed_twice(&self, n: int) -> bool {
        exists|i: int|
            0 <= i < n && i < self.read_catcher@.len() && self.processed@.contains(
                (#[trigger] self.read_catcher@[i]).position,
            )
    }

    /// Flushes the buckets below `threshold`, in ascending order. Nothing
    /// happens if one of them lies at a position that was flushed before:
    /// that is an error.
    pub fn flush_below(&mut self, threshold: i64) -> (r: Result<(), WorkerError>)
        requires
            old(self).wf(),
        ensures
            final(self).wf(),
            r is Err <==> old(self).spec_flushed_twice(
                spec_count_below(old(self).read_catcher@, threshold as int),
            ),
            r is Err ==> *final(self) == *old(self) && r->Err_0 is PositionProcessedTwice
                && old(self).processed@.contains(r->Err_0->PositionProcessedTwice_0),
            r is Ok ==> Self::spec_flushed(
                *old(self),
                *final(self),
                spec_count_below(old(self).read_catcher@, threshold as int),
            ),
    {
        let ghost before = *self;
        let ghost buckets = self.read_catcher@;
        let ghost bound = self.interner.strings().len() as int;
        let mut n: usize = 0;
        while n < self.read_catcher.len() && (self.read_catcher[n].position as i64) < threshold
            invariant
                0 <= n <= self.read_catcher@.len(),
                *self == before,
                before == *old(self),
                before.wf(),
                buckets == self.read_catcher@,
                forall|i: int| 0 <= i < n ==> (#[trigger] buckets[i]).position < threshold,
                forall|i: int| 0 <= i < n ==> !self.processed@.contains((#[trigger] buckets[i]).position),
            decreases self.read_catcher.len() - n,
        {
            if self.processed.contains(&self.read_catcher[n].position) {
                proof {
                    lemma_count_below(buckets, threshold as int);
                    let m = spec_count_below(buckets, threshold as int);
                    if m <= n {
                        assert(buckets[n as int].position >= threshold);
                    }
                    assert(self.processed@.contains(buckets[n as int].position));
                }
                return Err(WorkerError::PositionProcessedTwice(self.read_catcher[n].position));
            }
            n = n + 1;
        }
        proof {
            lemma_count_below_is(buckets, threshold as int, n as int);
            if before.spec_flushed_twice(n as int) {
                let i = choose|i: int|
                    0 <= i < n && i < buckets.len() && before.processed@.contains(
                        (#[trigger] buckets[i]).position,
                    );
                assert(false);
            }
            CounterPerChunk::lemma_counted_nothing(self.output_catcher);
            assert(buckets.skip(0) =~= buckets);
            assert(flushed_positions(buckets, 0) =~= Set::<i32>::empty());
            assert(self.processed@.union(Set::<i32>::empty()) =~= self.processed@);
            if self.annotated.is_some() {
                assert(self.annotated.unwrap()@ + Seq::<(AnnotatedRead, usize)>::empty()
                    =~= self.annotated.unwrap()@);
            }
        }
        let mut k: usize = 0;
        while k < n
            invariant
                0 <= k <= n <= buckets.len(),
                before.wf(),
                before == *old(self),
                !before.spec_flushed_twice(n as int),
                n == spec_count_below(buckets, threshold as int),
                buckets == before.read_catcher@,
                bound == before.interner.strings().len(),
                Self::spec_flushed(before, *self, k as int),
                self.output_catcher.below(bound),
            decreases n - k,
        {
            let ghost at_start = *self;
            let ghost gone = flushed_reads(buckets, k as int);
            assert(self.read_catcher@[0] == buckets[k as int]);
            let mut bucket = self.read_catcher.remove(0);
            assert(bucket == buckets[k as int]);
            self.processed.insert(bucket.position);
            let ghost c0 = self.output_catcher;
            self.output_catcher.count_reads(&bucket.reads_forward.reads);
            let ghost c1 = self.output_catcher;
            self.output_catcher.count_reads(&bucket.reads_reverse.reads);
            let ghost c2 = self.output_catcher;
            let ghost forward = bucket.reads_forward.reads@;
            let ghost reverse = bucket.reads_reverse.reads@;
            match &mut self.annotated {
                Some(kept) => {
                    kept.append(&mut bucket.reads_forward.reads);
                    kept.append(&mut bucket.reads_reverse.reads);
                },
                None => {},
            }
            proof {
                let next = flushed_reads(buckets, k + 1);
                assert(next == gone + (forward + reverse));
                CounterPerChunk::lemma_counted_twice(c0, c1, c2, forward, reverse);
                CounterPerChunk::lemma_counted_twice(
                    before.output_catcher,
                    c0,
                    c2,
                    gone,
                    forward + reverse,
                );
                assert(buckets.skip(k as int).remove(0) =~= buckets.skip(k + 1));
                assert(flushed_positions(buckets, k + 1) =~= flushed_positions(
                    buckets,
                    k as int,
                ).insert(buckets[k as int].position));
                assert(self.processed@ =~= before.processed@.union(
                    flushed_positions(buckets, k + 1),
                ));
                if before.annotated.is_some() {
                    let kept0 = before.annotated.unwrap()@;
                    assert(self.annotated.unwrap()@ =~= kept0 + next);
                }
                assert(tokens_below(forward, bound));
                assert(tokens_below(reverse, bound));
            }
            k = k + 1;
        }
        proof {
            let rest = self.read_catcher@;
            assert(buckets_sorted(rest)) by {
                assert forall|i: int, j: int| 0 <= i < j < rest.len() implies (
                #[trigger] rest[i]).position < (#[trigger] rest[j]).position by {
                    assert(rest[i] == buckets[i + n]);
                    assert(rest[j] == buckets[j + n]);
                }
            }
            assert forall|i: int| 0 <= i < rest.len() implies {
                &&& (#[trigger] rest[i]).wf(self.dedup_strategy.mode)
                &&& rest[i].spec_below(bound)
                &&& self.output_catcher is SingleCell ==> rest[i].spec_barcoded()
            } by {
                assert(rest[i] == buckets[i + n]);
            }
        }
        Ok(())
    }
}

/// Tokens below a bound are below every higher bound.
proof fn lemma_tokens_below_more(reads: Seq<(AnnotatedRead, usize)>, a: int, b: int)
    requires
        tokens_below(reads, a),
        a <= b,
    ensures
        tokens_below(reads, b),
{
    assert forall|i: int| 0 <= i < reads.len() implies match (#[trigger] reads[i]).0 {
        AnnotatedRead::Counted(info) => hits_below(info.hits.correct@, b) && hits_below(
            info.hits.reverse@,
            b,
        ),
        _ => true,
    } by {
        match reads[i].0 {
            AnnotatedRead::Counted(info) => {
                assert(hits_below(info.hits.correct@, a));
                assert(hits_below(info.hits.reverse@, a));
            },
            _ => {},
        }
    }
}

impl ChunkWorker {
    /// The window that is fetched for a chunk: the chunk, and beyond its
    /// stop as far as clipping may move a read back into it.
    pub fn fetch_window(chunk: &Chunk, max_skip_len: u32) -> (w: (u64, u64))
        ensures
            w.0 == chunk.start,
            w.1 == chunk.stop + max_skip_len,
    {
        (chunk.start as u64, chunk.stop as u64 + max_skip_len as u64)
    }

    /// The limit on soft-clipped bases that is in force: the configured one
    /// where clipping is corrected for, which must lie below `i32::MAX`;
    /// zero where it is not.
    pub fn effective_max_skip_len(correct_reads_for_clipping: bool, max_skip_len: u32) -> (r: Option<
        u32,
    >)
        ensures
            r == if !correct_reads_for_clipping {
                Some(0u32)
            } else if max_skip_len < i32::MAX {
                Some(max_skip_len)
            } else {
                None
            },
    {
        if correct_reads_for_clipping {
            if max_skip_len < i32::MAX as u32 {
                Some(max_skip_len)
            } else {
                None
            }
        } else {
            Some(0)
        }
    }

    /// The position under which the one bucket of a chunk is kept when
    /// duplicates are looked for per reference: the end of the fetched
    /// window. Nothing if that is beyond `i32::MAX`.
    pub open spec fn spec_bucket_mode(
        bucket: DeduplicationBucket,
        chunk: &Chunk,
        max_skip_len: u32,
    ) -> Option<Bucket> {
        match bucket {
            DeduplicationBucket::PerPosition => Some(Bucket::PerPosition),
            DeduplicationBucket::PerReference => if chunk.stop + max_skip_len <= i32::MAX {
                Some(Bucket::PerReference((chunk.stop + max_skip_len) as i32))
            } else {
                None
            },
        }
    }

    /// The worker for a chunk, before its first read. `output_catcher` takes
    /// the chunk's tallies; the flushed reads are kept if `keep_annotated`.
    pub fn new(
        dedup_strategy: DeduplicationStrategy,
        chunk: &Chunk,
        output_catcher: CounterPerChunk,
        keep_annotated: bool,
        max_skip_len: u32,
    ) -> (r: Option<ChunkWorker>)
        requires
            output_catcher.wf(),
            output_catcher.below(0),
            max_skip_len <= i32::MAX,
        ensures
            r.is_some() == Self::spec_bucket_mode(dedup_strategy.bucket, chunk, max_skip_len).is_some(),
            r.is_some() ==> {
                let w = r.unwrap();
                &&& w.wf()
                &&& w.interner.strings() == Seq::<Seq<char>>::empty()
                &&& w.read_catcher@.len() == 0
                &&& w.output_catcher == output_catcher
                &&& w.annotated.is_some() == keep_annotated
                &&& (keep_annotated ==> w.annotated.unwrap()@.len() == 0)
                &&& w.current_pos == 0
                &&& w.orig_index == 0
                &&& w.processed@ == Set::<i32>::empty()
                &&& Some(w.bucket_mode) == Self::spec_bucket_mode(
                    dedup_strategy.bucket,
                    chunk,
                    max_skip_len,
                )
                &&& w.max_skip_len == max_skip_len
                &&& w.dedup_strategy == dedup_strategy
            },
    {
        let bucket_mode = match dedup_strategy.bucket {
            DeduplicationBucket::PerPosition => Bucket::PerPosition,
            DeduplicationBucket::PerReference => {
                let end = chunk.stop as u64 + max_skip_len as u64;
                if end > i32::MAX as u64 {
                    return None;
                }
                Bucket::PerReference(end as i32)
            },
        };
        Some(
            ChunkWorker {
                interner: OurInterner::new(),
                read_catcher: Vec::new(),
                output_catcher,
                annotated: if keep_annotated {
                    Some(Vec::new())
                } else {
                    None
                },
                current_pos: 0,
                orig_index: 0,
                processed: HashSet::new(),
                bucket_mode,
                max_skip_len,
                dedup_strategy,
            },
        )
    }

    /// Whether the worker fits the engine: same deduplication strategy, and
    /// tallies per cell only where the engine has cell barcodes.
    pub open spec fn spec_serves(&self, engine: &Engine) -> bool {
        &&& self.dedup_strategy == engine.dedup_strategy
        &&& self.output_catcher is SingleCell ==> engine.cell_barcode.is_some()
    }

    /// Whether `after` and `r` are what one read makes of the worker
    /// `before`. The read is annotated; an error ends the step, and so does
    /// a read that cannot be numbered any more. Otherwise the read is
    /// numbered and placed into its bucket. If its raw position lies beyond
    /// the position that the input was read up to, the buckets that lie more
    /// than `max_skip_len` below that position are flushed, and the read's
    /// position becomes the new one.
    pub open spec fn spec_stepped(
        before: ChunkWorker,
        after: ChunkWorker,
        engine: &Engine,
        chunk: &Chunk,
        read: &Record,
        r: Result<(), WorkerError>,
    ) -> bool {
        exists|a: Result<Annotation, WorkerError>, placed: ChunkWorker, at: int|
            #![trigger Self::spec_step_parts(before, after, engine, chunk, read, r, a, placed, at)]
            Self::spec_step_parts(before, after, engine, chunk, read, r, a, placed, at)
    }

    /// Whether the worker `after` is the worker `before` but for what its
    /// interner may have taken up.
    pub open spec fn spec_only_interned(before: ChunkWorker, after: ChunkWorker) -> bool {
        &&& after.read_catcher == before.read_catcher
        &&& after.output_catcher == before.output_catcher
        &&& after.annotated == before.annotated
        &&& after.current_pos == before.current_pos
        &&& after.orig_index == before.orig_index
        &&& after.processed == before.processed
        &&& after.bucket_mode == before.bucket_mode
        &&& after.max_skip_len == before.max_skip_len
        &&& after.dedup_strategy == before.dedup_strategy
    }

    /// The parts of a step: the annotation `a` of the read and the worker
    /// `placed`, which holds the read in its bucket at index `at`.
    pub open spec fn spec_step_parts(
        before: ChunkWorker,
        after: ChunkWorker,
        engine: &Engine,
        chunk: &Chunk,
        read: &Record,
        r: Result<(), WorkerError>,
        a: Result<Annotation, WorkerError>,
        placed: ChunkWorker,
        at: int,
    ) -> bool {
        &&& engine.spec_annotated(
            chunk,
            read,
            before.interner.strings(),
            after.interner.strings(),
            before.max_skip_len,
            before.bucket_mode,
            a,
        )
        &&& match a {
            Err(e) => r == Err::<(), WorkerError>(e) && Self::spec_only_interned(before, after),
            Ok(annotation) => if before.orig_index == usize::MAX {
                r == Err::<(), WorkerError>(WorkerError::TooManyReads) && Self::spec_only_interned(
                    before,
                    after,
                )
            } else {
                &&& Self::spec_placed(
                    before.read_catcher@,
                    placed.read_catcher@,
                    before.dedup_strategy.mode,
                    read,
                    annotation,
                    before.orig_index,
                    at,
                )
                &&& placed.orig_index == before.orig_index + 1
                &&& placed.output_catcher == before.output_catcher
                &&& placed.annotated == before.annotated
                &&& placed.processed == before.processed
                &&& placed.interner == after.interner
                &&& placed.bucket_mode == before.bucket_mode
                &&& placed.max_skip_len == before.max_skip_len
                &&& placed.dedup_strategy == before.dedup_strategy
                &&& if read.pos > before.current_pos {
                    let n = spec_count_below(
                        placed.read_catcher@,
                        before.current_pos - before.max_skip_len,
                    );
                    &&& placed.current_pos == read.pos
                    &&& r is Err <==> placed.spec_flushed_twice(n)
                    &&& r is Err ==> r->Err_0 is PositionProcessedTwice && after == placed
                    &&& r is Ok ==> Self::spec_flushed(placed, after, n)
                } else {
                    &&& placed.current_pos == before.current_pos
                    &&& r is Ok
                    &&& after == placed
                }
            },
        }
    }

    /// Takes the next read of the chunk's window.
    pub fn step(&mut self, engine: &Engine, chunk: &Chunk, read: &Record) -> (r: Result<
        (),
        WorkerError,
    >)
        requires
            old(self).wf(),
            engine.wf(),
            old(self).spec_serves(engine),
        ensures
            final(self).wf(),
            final(self).spec_serves(engine),
            Self::spec_stepped(*old(self), *final(self), engine, chunk, read, r),
            old(self).interner.strings().is_prefix_of(final(self).interner.strings()),
    {
        let ghost before = *self;
        let ghost bound0 = self.interner.strings().len() as int;
        let a = engine.annotate(chunk, read, &mut self.interner, self.max_skip_len, self.bucket_mode);
        let ghost a_seen = a;
        let ghost bound = self.interner.strings().len() as int;
        proof {
            assert(bound0 <= bound);
            assert forall|i: int| 0 <= i < self.read_catcher@.len() implies {
                &&& (#[trigger] self.read_catcher@[i]).wf(self.dedup_strategy.mode)
                &&& self.read_catcher@[i].spec_below(bound)
                &&& self.output_catcher is SingleCell ==> self.read_catcher@[i].spec_barcoded()
            } by {
                assert(before.read_catcher@[i].spec_below(bound0));
                lemma_tokens_below_more(self.read_catcher@[i].reads_forward.reads@, bound0, bound);
                lemma_tokens_below_more(self.read_catcher@[i].reads_reverse.reads@, bound0, bound);
            }
        }
        let annotation = match a {
            Err(e) => {
                proof {
                    assert(Self::spec_step_parts(
                        before,
                        *self,
                        engine,
                        chunk,
                        read,
                        Err(e),
                        a_seen,
                        *self,
                        0,
                    ));
                }
                return Err(e);
            },
            Ok(annotation) => annotation,
        };
        if self.orig_index == usize::MAX {
            proof {
                assert(Self::spec_step_parts(
                    before,
                    *self,
                    engine,
                    chunk,
                    read,
                    Err(WorkerError::TooManyReads),
                    a_seen,
                    *self,
                    0,
                ));
            }
            return Err(WorkerError::TooManyReads);
        }
        let at = self.place(read, annotation);
        let last_read_pos: i32 = read.pos as i32;
        if last_read_pos > self.current_pos {
            let threshold: i64 = self.current_pos as i64 - self.max_skip_len as i64;
            self.current_pos = last_read_pos;
            let ghost placed = *self;
            let r = self.flush_below(threshold);
            proof {
                assert(Self::spec_step_parts(
                    before,
                    *self,
                    engine,
                    chunk,
                    read,
                    r,
                    a_seen,
                    placed,
                    at as int,
                ));
            }
            r
        } else {
            proof {
                assert(Self::spec_step_parts(
                    before,
                    *self,
                    engine,
                    chunk,
                    read,
                    Ok(()),
                    a_seen,
                    *self,
                    at as int,
                ));
            }
            Ok(())
        }
    }

    /// Flushes what is left when the window is read to its end.
    pub fn finish(&mut self) -> (r: Result<(), WorkerError>)
        requires
            old(self).wf(),
        ensures
            final(self).wf(),
            r is Err <==> old(self).spec_flushed_twice(old(self).read_catcher@.len() as int),
            r is Err ==> *final(self) == *old(self) && r->Err_0 is PositionProcessedTwice,
            r is Ok ==> Self::spec_flushed(
                *old(self),
                *final(self),
                old(self).read_catcher@.len() as int,
            ) && final(self).read_catcher@.len() == 0,
    {
        proof {
            lemma_count_below(self.read_catcher@, i64::MAX as int);
            lemma_count_below_is(
                self.read_catcher@,
                i64::MAX as int,
                self.read_catcher@.len() as int,
            );
        }
        self.flush_below(i64::MAX)
    }

    /// What the work on the chunk gave: the interner, the tallies, and the
    /// flushed reads where they were kept.
    pub fn into_parts(self) -> (r: (OurInterner, CounterPerChunk, Option<Vec<(AnnotatedRead, usize)>>))
        ensures
            r.0 == self.interner,
            r.1 == self.output_catcher,
            r.2 == self.annotated,
    {
        (self.interner, self.output_catcher, self.annotated)
    }
}

impl Engine {
    /// What keeps the parts from making an engine, if anything: the first
    /// of a deduplication mode without its extractors, and an extractor
    /// with an empty region.
    pub open spec fn spec_new_error(
        dedup_strategy: DeduplicationStrategy,
        umi_extractor: Option<UMIExtraction>,
        cell_barcode: Option<CellBarcodes>,
    ) -> Option<EngineError> {
        if dedup_strategy.mode == DeduplicationMode::Umi && umi_extractor.is_none() {
            Some(EngineError::UmiDedupNeedsUmi)
        } else if dedup_strategy.mode == DeduplicationMode::SingleCell && cell_barcode.is_none() {
            Some(EngineError::SingleCellNeedsBarcodes)
        } else if dedup_strategy.mode == DeduplicationMode::SingleCell && umi_extractor.is_none() {
            Some(EngineError::SingleCellNeedsUmi)
        } else if (umi_extractor.is_some() && !umi_extractor.unwrap().wf()) || (
        cell_barcode.is_some() && !cell_barcode.unwrap().wf()) {
            Some(EngineError::EmptyReadRegion)
        } else {
            None
        }
    }

    /// Puts an engine together from its parts.
    pub fn new(
        matcher: ReadToGeneMatcher,
        filters: Vec<Filter>,
        dedup_strategy: DeduplicationStrategy,
        umi_extractor: Option<UMIExtraction>,
        cell_barcode: Option<CellBarcodes>,
    ) -> (r: Result<Engine, EngineError>)
        requires
            matcher.wf(),
        ensures
            match Self::spec_new_error(dedup_strategy, umi_extractor, cell_barcode) {
                Some(e) => r == Err::<Engine, EngineError>(e),
                None => r is Ok && r->Ok_0.wf() && r->Ok_0.matcher == matcher && r->Ok_0.filters
                    == filters && r->Ok_0.dedup_strategy == dedup_strategy
                    && r->Ok_0.umi_extractor == umi_extractor && r->Ok_0.cell_barcode
                    == cell_barcode,
            },
    {
        match dedup_strategy.mode {
            DeduplicationMode::NoDedup => {},
            DeduplicationMode::Umi => {
                if umi_extractor.is_none() {
                    return Err(EngineError::UmiDedupNeedsUmi);
                }
            },
            DeduplicationMode::SingleCell => {
                if cell_barcode.is_none() {
                    return Err(EngineError::SingleCellNeedsBarcodes);
                }
                if umi_extractor.is_none() {
                    return Err(EngineError::SingleCellNeedsUmi);
                }
            },
        }
        let umi_ok = match &umi_extractor {
            Some(UMIExtraction::ReadRegion(r)) => r.validate(),
            _ => true,
        };
        let barcode_ok = match &cell_barcode {
            Some(cb) => match &cb.extract {
                UMIExtraction::ReadRegion(r) => r.validate(),
                _ => true,
            },
            None => true,
        };
        if !umi_ok || !barcode_ok {
            return Err(EngineError::EmptyReadRegion);
        }
        Ok(Engine { dedup_strategy, filters, matcher, umi_extractor, cell_barcode })
    }

    /// Whether the rows can be made into region indices: they can be
    /// indexed by `entry_id_attribute`, with its identifiers numbered, and
    /// have a column for `aggregation_id_attribute`.
    pub open spec fn spec_buildable(
        feature_entries: &GTFEntrys,
        entry_id_attribute: Seq<char>,
        aggregation_id_attribute: Seq<char>,
    ) -> bool {
        &&& spec_indexable(feature_entries, entry_id_attribute, true)
        &&& feature_entries.spec_vec_attribute(aggregation_id_attribute)
            < feature_entries.vec_attributes@.len()
    }

    /// What becomes of the rows of an annotation. Rows that can be made into
    /// region indices give an engine, unless its parts do not go together:
    /// it counts per `entry_id_attribute` in the region index of the rows,
    /// and cuts chunks by the merged regions of `aggregation_id_attribute`,
    /// or by the same index where the two attributes are one. Other rows are
    /// refused for the reason that the index by `entry_id_attribute` gives,
    /// or else the one by `aggregation_id_attribute`.
    pub open spec fn spec_from_gtf(
        feature_entries: &GTFEntrys,
        entry_id_attribute: Seq<char>,
        aggregation_id_attribute: Seq<char>,
        filters: Vec<Filter>,
        dedup_strategy: DeduplicationStrategy,
        umi_extractor: Option<UMIExtraction>,
        cell_barcode: Option<CellBarcodes>,
        count_strategy: Strategy,
        r: Result<Engine, EngineError>,
    ) -> bool {
        match r {
            Ok(engine) => {
                &&& Self::spec_buildable(
                    feature_entries,
                    entry_id_attribute,
                    aggregation_id_attribute,
                )
                &&& Self::spec_new_error(dedup_strategy, umi_extractor, cell_barcode).is_none()
                &&& engine.wf()
                &&& engine.filters == filters
                &&& engine.dedup_strategy == dedup_strategy
                &&& engine.umi_extractor == umi_extractor
                &&& engine.cell_barcode == cell_barcode
                &&& engine.matcher matches ReadToGeneMatcher::TreeMatcher(m) && {
                    &&& m.count_strategy == count_strategy
                    &&& spec_index_of(m.reference_to_count_trees@, feature_entries, entry_id_attribute)
                    &&& if aggregation_id_attribute == entry_id_attribute {
                        spec_same_index(
                            m.reference_to_count_trees@,
                            m.reference_to_aggregation_trees@,
                        )
                    } else {
                        spec_merged_index_of(
                            m.reference_to_aggregation_trees@,
                            feature_entries,
                            aggregation_id_attribute,
                        )
                    }
                }
            },
            Err(EngineError::Build(e)) => {
                ||| spec_refused(feature_entries, entry_id_attribute, true, e)
                ||| (spec_indexable(feature_entries, entry_id_attribute, true) && spec_refused(
                    feature_entries,
                    aggregation_id_attribute,
                    false,
                    e,
                ))
            },
            Err(e) => Self::spec_buildable(
                feature_entries,
                entry_id_attribute,
                aggregation_id_attribute,
            ) && Self::spec_new_error(dedup_strategy, umi_extractor, cell_barcode) == Some(e),
        }
    }

    /// An engine that counts reads in the regions of an annotation. Reads
    /// are counted per `entry_id_attribute`; chunks are cut so that no region
    /// of an `aggregation_id_attribute` is split.
    pub fn from_gtf(
        feature_entries: &GTFEntrys,
        entry_id_attribute: &str,
        aggregation_id_attribute: &str,
        filters: Vec<Filter>,
        dedup_strategy: DeduplicationStrategy,
        umi_extractor: Option<UMIExtraction>,
        cell_barcode: Option<CellBarcodes>,
        count_strategy: Strategy,
    ) -> (r: Result<Engine, EngineError>)
        requires
            feature_entries.wf(),
        ensures
            Self::spec_from_gtf(
                feature_entries,
                entry_id_attribute@,
                aggregation_id_attribute@,
                filters,
                dedup_strategy,
                umi_extractor,
                cell_barcode,
                count_strategy,
                r,
            ),
    {
        proof {
            GTFEntrys::lemma_attribute_found(feature_entries.vec_attributes@, entry_id_attribute@);
            GTFEntrys::lemma_attribute_found(
                feature_entries.vec_attributes@,
                aggregation_id_attribute@,
            );
        }
        let feature_trees = match build_trees_from_gtf(entry_id_attribute, feature_entries) {
            Ok(trees) => trees,
            Err(e) => {
                return Err(EngineError::Build(e));
            },
        };
        let split_trees = if str_eq(aggregation_id_attribute, entry_id_attribute) {
            clone_trees(&feature_trees)
        } else {
            match build_trees_from_gtf_merged(aggregation_id_attribute, feature_entries) {
                Ok(trees) => trees,
                Err(e) => {
                    return Err(EngineError::Build(e));
                },
            }
        };
        let matcher = ReadToGeneMatcher::TreeMatcher(
            TreeMatcher {
                reference_to_count_trees: feature_trees,
                reference_to_aggregation_trees: split_trees,
                count_strategy,
            },
        );
        Engine::new(matcher, filters, dedup_strategy, umi_extractor, cell_barcode)
    }

    /// What becomes of the references: the engine counts per reference,
    /// for the references given, unless its parts do not go together.
    pub open spec fn spec_from_references(
        references: Seq<(String, i32, u64)>,
        filters: Vec<Filter>,
        dedup_strategy: DeduplicationStrategy,
        umi_extractor: Option<UMIExtraction>,
        cell_barcode: Option<CellBarcodes>,
        count_strategy: Strategy,
        r: Result<Engine, EngineError>,
    ) -> bool {
        match Self::spec_new_error(dedup_strategy, umi_extractor, cell_barcode) {
            Some(e) => r == Err::<Engine, EngineError>(e),
            None => r is Ok && r->Ok_0.wf() && r->Ok_0.filters == filters && r->Ok_0.dedup_strategy
                == dedup_strategy && r->Ok_0.umi_extractor == umi_extractor && r->Ok_0.cell_barcode
                == cell_barcode && (r->Ok_0.matcher matches ReadToGeneMatcher::ReferenceMatcher(m)
                && m.direction == count_strategy.direction && m.tids_to_include@.len()
                == references.len() && forall|i: int|
                0 <= i < references.len() ==> (#[trigger] m.tids_to_include@[i]) == references[i].1),
        }
    }

    /// An engine that counts reads per reference sequence.
    pub fn from_references(
        references: &Vec<(String, i32, u64)>,
        filters: Vec<Filter>,
        dedup_strategy: DeduplicationStrategy,
        umi_extractor: Option<UMIExtraction>,
        cell_barcode: Option<CellBarcodes>,
        count_strategy: Strategy,
    ) -> (r: Result<Engine, EngineError>)
        ensures
            Self::spec_from_references(
                references@,
                filters,
                dedup_strategy,
                umi_extractor,
                cell_barcode,
                count_strategy,
                r,
            ),
    {
        let mut tids_to_include: Vec<i32> = Vec::new();
        let mut i: usize = 0;
        while i < references.len()
            invariant
                0 <= i <= references.len(),
                tids_to_include@.len() == i,
                forall|j: int| 0 <= j < i ==> (#[trigger] tids_to_include@[j]) == references@[j].1,
            decreases references.len() - i,
        {
            tids_to_include.push(references[i].1);
            i = i + 1;
        }
        let matcher = ReadToGeneMatcher::ReferenceMatcher(
            ReferenceMatcher { tids_to_include, direction: count_strategy.direction },
        );
        Engine::new(matcher, filters, dedup_strategy, umi_extractor, cell_barcode)
    }

    /// Whether neither byte of the tag is a lower-case letter.
    pub open spec fn spec_tag_uppercase(tag: [u8; 2]) -> bool {
        !(97 <= tag[0] <= 122) && !(97 <= tag[1] <= 122)
    }

    /// What becomes of a tag: the engine counts per value of the tag,
    /// unless the tag holds a lower-case letter or the engine's parts do not
    /// go together.
    pub open spec fn spec_from_bam_tag(
        tag: [u8; 2],
        filters: Vec<Filter>,
        dedup_strategy: DeduplicationStrategy,
        umi_extractor: Option<UMIExtraction>,
        cell_barcode: Option<CellBarcodes>,
        r: Result<Engine, EngineError>,
    ) -> bool {
        if !Self::spec_tag_uppercase(tag) {
            r == Err::<Engine, EngineError>(EngineError::TagNotUppercase)
        } else {
            match Self::spec_new_error(dedup_strategy, umi_extractor, cell_barcode) {
                Some(e) => r == Err::<Engine, EngineError>(e),
                None => r is Ok && r->Ok_0.wf() && r->Ok_0.filters == filters
                    && r->Ok_0.dedup_strategy == dedup_strategy && r->Ok_0.umi_extractor
                    == umi_extractor && r->Ok_0.cell_barcode == cell_barcode && (
                r->Ok_0.matcher matches ReadToGeneMatcher::TagMatcher(m) && m.tag == tag),
            }
        }
    }

    /// An engine that counts reads per value of a tag.
    pub fn from_bam_tag(
        tag: [u8; 2],
        filters: Vec<Filter>,
        dedup_strategy: DeduplicationStrategy,
        umi_extractor: Option<UMIExtraction>,
        cell_barcode: Option<CellBarcodes>,
    ) -> (r: Result<Engine, EngineError>)
        ensures
            Self::spec_from_bam_tag(tag, filters, dedup_strategy, umi_extractor, cell_barcode, r),
    {
        if (tag[0] >= 97 && tag[0] <= 122) || (tag[1] >= 97 && tag[1] <= 122) {
            return Err(EngineError::TagNotUppercase);
        }
        let matcher = ReadToGeneMatcher::TagMatcher(TagMatcher { tag });
        Engine::new(matcher, filters, dedup_strategy, umi_extractor, cell_barcode)
    }
}

} // verus!
