use mbf_bam_quantifier::bam_ext::{Aux, AuxField, Cigar, Record, RecordError};
use mbf_bam_quantifier::barcodes::CellBarcodes;
use mbf_bam_quantifier::config::{
    BamTag, DuplicateHandling, GTFConfig, GTFFormat, Input, MatchDirection, MultiRegionHandling,
    Output as OutputConfig, OverlapMode, Source, Strategy,
};
use mbf_bam_quantifier::deduplication::{
    DeduplicationBucket, DeduplicationMode, DeduplicationStrategy,
};
use mbf_bam_quantifier::engine::annotated::{annotation_tags, TagError, TagValue};
use mbf_bam_quantifier::engine::chunked_genome::Chunk;
use mbf_bam_quantifier::engine::counts::{
    AnnotatedRead, AnnotatedReadInfo, CounterPerChunk, Hits, Stats,
};
use mbf_bam_quantifier::engine::interner::{InternerFull, OurInterner};
use mbf_bam_quantifier::engine::matcher::{
    is_correct_direction, MatchError, ReadToGeneMatcher, ReferenceMatcher, TagMatcher,
};
use mbf_bam_quantifier::engine::output::Output;
use mbf_bam_quantifier::engine::worker::{
    Bucket, ChunkWorker, Engine, EngineError, Outcome, WorkerError,
};
use mbf_bam_quantifier::extractors::{ExtractError, ReadRegion, Tag, UMIExtraction};
use mbf_bam_quantifier::filters::{Filter, KeepOrRemove, NonPrimary};
use mbf_bam_quantifier::gtf::Strand;
use mbf_bam_quantifier::gtf_parse::parse_minimal;
use mbf_bam_quantifier::quantification::{
    accepted_tags, first_column_only, quantify, read_gtf, Loaded, QuantifyError,
};

fn read(pos: i64, clip: u32, reverse: bool) -> Record {
    let mut cigar = Vec::new();
    if clip > 0 {
        cigar.push(Cigar::SoftClip(clip));
    }
    cigar.push(Cigar::Match(50));
    Record {
        qname: b"read".to_vec(),
        tid: 0,
        pos,
        mapq: 20,
        reverse,
        secondary: false,
        first_in_template: false,
        last_in_template: false,
        cigar,
        seq: b"ACGTACGT".to_vec(),
        aux: Vec::new(),
    }
}

fn with_tag(mut r: Record, tag: &[u8; 2], value: &str) -> Record {
    r.aux.push(AuxField {
        tag: *tag,
        value: Aux::String(value.to_string()),
    });
    r
}

fn engine(
    mode: DeduplicationMode,
    bucket: DeduplicationBucket,
    filters: Vec<Filter>,
    umi: bool,
    cells: Option<Vec<&str>>,
) -> Engine {
    Engine::new(
        ReadToGeneMatcher::ReferenceMatcher(ReferenceMatcher {
            tids_to_include: vec![0],
            direction: MatchDirection::Forward,
        }),
        filters,
        DeduplicationStrategy { mode, bucket },
        if umi {
            Some(UMIExtraction::Tag(Tag { tag: *b"RX" }))
        } else {
            None
        },
        cells.map(|whitelist| CellBarcodes {
            extract: UMIExtraction::ReadRegion(ReadRegion { start: 0, stop: 4 }),
            separator_char: b'_',
            max_hamming: 0,
            whitelist_files: Vec::new(),
            whitelists: vec![whitelist.iter().map(|w| w.as_bytes().to_vec()).collect()],
        }),
    )
    .unwrap()
}

fn per_region() -> CounterPerChunk {
    CounterPerChunk::PerRegion {
        counter: Vec::new(),
        stat_counter: Stats::new(),
    }
}

fn stats_of(counter: &CounterPerChunk) -> Stats {
    match counter {
        CounterPerChunk::PerRegion { stat_counter, .. } => *stat_counter,
        CounterPerChunk::SingleCell { stat_counter, .. } => *stat_counter,
    }
}

fn run(engine: &Engine, chunk: &Chunk, max_skip: u32, reads: Vec<Record>) -> (Stats, Vec<(AnnotatedRead, usize)>) {
    let mut worker =
        ChunkWorker::new(engine.dedup_strategy, chunk, per_region(), true, max_skip).unwrap();
    for r in &reads {
        worker.step(engine, chunk, r).unwrap();
    }
    worker.finish().unwrap();
    let (_, counter, annotated) = worker.into_parts();
    let mut annotated = annotated.unwrap();
    annotated.sort_by_key(|(_, index)| *index);
    (stats_of(&counter), annotated)
}

fn plain() -> Engine {
    engine(
        DeduplicationMode::NoDedup,
        DeduplicationBucket::PerPosition,
        Vec::new(),
        false,
        None,
    )
}

#[test]
fn worker_leaves_reads_outside_the_chunk_to_other_chunks() {
    let chunk = Chunk::new("chr1".to_string(), 0, 100, 200);
    let (stats, annotated) = run(
        &plain(),
        &chunk,
        150,
        vec![
            read(99, 0, false),
            read(100, 0, false),
            read(105, 10, false),
            read(199, 0, false),
            read(200, 0, false),
            read(205, 10, false),
        ],
    );
    let kinds: Vec<bool> = annotated
        .iter()
        .map(|(r, _)| matches!(r, AnnotatedRead::NotInRegion))
        .collect();
    // the raw position decides: 105 is inside although its 10 clipped bases
    // put its bucket at 95; 205 is outside although its bucket is at 195
    assert_eq!(kinds, vec![true, false, false, false, true, true]);
    match &annotated[2].0 {
        AnnotatedRead::Counted(info) => assert_eq!(info.corrected_position, 95),
        other => panic!("unexpected {:?}", other),
    }
    assert_eq!(stats.correct, 3);
    assert_eq!(stats.total(), 3);
}

#[test]
fn worker_first_chunk_takes_reads_clipped_below_zero() {
    let first = Chunk::new("chr1".to_string(), 0, 0, 100);
    let (stats, annotated) = run(
        &plain(),
        &first,
        150,
        vec![read(3, 10, false), read(100, 0, false), read(105, 10, false)],
    );
    match &annotated[0].0 {
        AnnotatedRead::Counted(info) => assert_eq!(info.corrected_position, -7),
        other => panic!("unexpected {:?}", other),
    }
    // at the other end the raw position decides: 100 and 105 are outside
    assert!(matches!(annotated[1].0, AnnotatedRead::NotInRegion));
    assert!(matches!(annotated[2].0, AnnotatedRead::NotInRegion));
    assert_eq!(stats.correct, 1);
}

#[test]
fn worker_first_chunk_buckets_a_clipped_read_below_zero() {
    let first = Chunk::new("chr1".to_string(), 0, 0, 100);
    let (stats, annotated) = run(&plain(), &first, 5, vec![read(2, 5, false)]);
    assert_eq!(annotated.len(), 1);
    match &annotated[0].0 {
        AnnotatedRead::Counted(info) => assert_eq!(info.corrected_position, -3),
        other => panic!("unexpected {:?}", other),
    }
    assert_eq!(stats.total(), 1);
}

#[test]
fn worker_abutting_chunks_share_no_read() {
    let reads = || vec![read(95, 0, false), read(99, 10, false), read(100, 10, false), read(104, 10, false)];
    let left = Chunk::new("chr1".to_string(), 0, 0, 100);
    let right = Chunk::new("chr1".to_string(), 0, 100, 200);
    let (_, in_left) = run(&plain(), &left, 150, reads());
    let (_, in_right) = run(&plain(), &right, 150, reads());
    for i in 0..4 {
        let l = !matches!(in_left[i].0, AnnotatedRead::NotInRegion);
        let r = !matches!(in_right[i].0, AnnotatedRead::NotInRegion);
        assert!(l != r);
        assert_eq!(l, i < 2);
    }
}

#[test]
fn worker_without_clipping_correction_goes_by_raw_position() {
    let chunk = Chunk::new("chr1".to_string(), 0, 100, 200);
    let (stats, annotated) = run(
        &plain(),
        &chunk,
        0,
        vec![read(105, 10, false), read(205, 10, false)],
    );
    match &annotated[0].0 {
        AnnotatedRead::Counted(info) => assert_eq!(info.corrected_position, 105),
        other => panic!("unexpected {:?}", other),
    }
    assert!(matches!(annotated[1].0, AnnotatedRead::NotInRegion));
    assert_eq!(stats.correct, 1);
    assert_eq!(ChunkWorker::effective_max_skip_len(false, 150), Some(0));
    assert_eq!(ChunkWorker::effective_max_skip_len(true, 150), Some(150));
    assert_eq!(ChunkWorker::effective_max_skip_len(true, 2147483647), None);
    assert_eq!(ChunkWorker::fetch_window(&chunk, 150), (100, 350));
}

#[test]
fn worker_counts_reverse_reads_against_the_direction() {
    let chunk = Chunk::new("chr1".to_string(), 0, 0, 1000);
    let (stats, annotated) = run(
        &plain(),
        &chunk,
        150,
        vec![read(10, 0, false), read(10, 0, true), read(20, 0, true)],
    );
    assert_eq!(stats.correct, 1);
    assert_eq!(stats.reverse, 2);
    match &annotated[1].0 {
        AnnotatedRead::Counted(info) => {
            assert!(info.reverse);
            assert!(info.hits.correct.is_empty());
            assert_eq!(info.hits.reverse.len(), 1);
        }
        other => panic!("unexpected {:?}", other),
    }
}

#[test]
fn worker_filters_and_extraction_outcomes() {
    let e = engine(
        DeduplicationMode::SingleCell,
        DeduplicationBucket::PerPosition,
        vec![Filter::NonPrimary(NonPrimary {
            action: KeepOrRemove::Remove,
        })],
        true,
        Some(vec!["ACGT"]),
    );
    let chunk = Chunk::new("chr1".to_string(), 0, 0, 1000);
    let mut secondary = with_tag(read(10, 0, false), b"RX", "AAAA");
    secondary.secondary = true;
    let mut other_barcode = with_tag(read(11, 0, false), b"RX", "AAAA");
    other_barcode.seq = b"TTTTACGT".to_vec();
    let no_umi_tag = read(12, 0, false);
    let good = with_tag(read(13, 0, false), b"RX", "AAAA");
    let mut worker = ChunkWorker::new(
        e.dedup_strategy,
        &chunk,
        CounterPerChunk::SingleCell {
            stat_counter: Stats::new(),
            counter: Vec::new(),
        },
        true,
        150,
    )
    .unwrap();
    assert_eq!(worker.step(&e, &chunk, &secondary), Ok(()));
    assert_eq!(worker.step(&e, &chunk, &other_barcode), Ok(()));
    assert_eq!(
        worker.step(&e, &chunk, &no_umi_tag),
        Err(WorkerError::Extract(ExtractError::TagMissing))
    );
    assert_eq!(worker.step(&e, &chunk, &good), Ok(()));
    let mut short = good.clone();
    short.seq = b"AC".to_vec();
    assert_eq!(
        worker.step(&e, &chunk, &short),
        Err(WorkerError::Extract(ExtractError::RegionBeyondRead {
            stop: 4,
            read_length: 2
        }))
    );
    worker.finish().unwrap();
    let (_, counter, annotated) = worker.into_parts();
    let mut annotated = annotated.unwrap();
    annotated.sort_by_key(|(_, index)| *index);
    assert!(matches!(annotated[0].0, AnnotatedRead::Filtered));
    match &annotated[1].0 {
        AnnotatedRead::BarcodeNotInWhitelist(raw) => assert_eq!(raw, &b"TTTT".to_vec()),
        other => panic!("unexpected {:?}", other),
    }
    match &annotated[2].0 {
        AnnotatedRead::Counted(info) => {
            assert_eq!(info.barcode, Some(b"ACGT".to_vec()));
            assert_eq!(info.umi, Some(b"AAAA".to_vec()));
        }
        other => panic!("unexpected {:?}", other),
    }
    let stats = stats_of(&counter);
    assert_eq!(stats.filtered, 1);
    assert_eq!(stats.barcode_not_in_whitelist, 1);
    assert_eq!(stats.correct, 1);
    assert_eq!(stats.total(), 3);
}

#[test]
fn worker_no_umi_and_no_barcode() {
    let e = Engine::new(
        ReadToGeneMatcher::ReferenceMatcher(ReferenceMatcher {
            tids_to_include: vec![0],
            direction: MatchDirection::Forward,
        }),
        Vec::new(),
        DeduplicationStrategy {
            mode: DeduplicationMode::SingleCell,
            bucket: DeduplicationBucket::PerPosition,
        },
        Some(UMIExtraction::SearchInName(
            mbf_bam_quantifier::extractors::SearchInName {
                search: b"umi=".to_vec(),
                skip: 0,
                len: 4,
            },
        )),
        Some(CellBarcodes {
            extract: UMIExtraction::SearchInName(mbf_bam_quantifier::extractors::SearchInName {
                search: b"cb=".to_vec(),
                skip: 0,
                len: 2,
            }),
            separator_char: b'_',
            max_hamming: 0,
            whitelist_files: Vec::new(),
            whitelists: Vec::new(),
        }),
    )
    .unwrap();
    let chunk = Chunk::new("chr1".to_string(), 0, 0, 1000);
    let mut a = read(10, 0, false);
    a.qname = b"r1 umi=ACGT".to_vec();
    let mut b = read(10, 0, false);
    b.qname = b"r2 cb=XY".to_vec();
    let mut c = read(10, 0, false);
    c.qname = b"r3 cb=XY umi=ACGT".to_vec();
    let mut worker = ChunkWorker::new(
        e.dedup_strategy,
        &chunk,
        CounterPerChunk::SingleCell {
            stat_counter: Stats::new(),
            counter: Vec::new(),
        },
        false,
        150,
    )
    .unwrap();
    for r in [&a, &b, &c] {
        worker.step(&e, &chunk, r).unwrap();
    }
    worker.finish().unwrap();
    let (_, counter, annotated) = worker.into_parts();
    assert!(annotated.is_none());
    let stats = stats_of(&counter);
    assert_eq!(stats.no_barcode, 1);
    assert_eq!(stats.no_umi, 1);
    assert_eq!(stats.correct, 1);
}

#[test]
fn worker_flushes_positions_behind_the_window() {
    let e = plain();
    let chunk = Chunk::new("chr1".to_string(), 0, 0, 100_000);
    let mut worker = ChunkWorker::new(e.dedup_strategy, &chunk, per_region(), false, 100).unwrap();
    worker.step(&e, &chunk, &read(10, 0, false)).unwrap();
    worker.step(&e, &chunk, &read(50, 0, false)).unwrap();
    assert_eq!(worker.read_catcher.len(), 2);
    assert_eq!(stats_of(&worker.output_catcher).total(), 0);
    // 200 lies beyond 50, but 50 - 100 is below every bucket
    worker.step(&e, &chunk, &read(200, 0, false)).unwrap();
    assert_eq!(worker.read_catcher.len(), 3);
    assert_eq!(worker.current_pos, 200);
    // now the buckets below 200 - 100 are complete
    worker.step(&e, &chunk, &read(400, 40, false)).unwrap();
    assert_eq!(
        worker
            .read_catcher
            .iter()
            .map(|b| b.position)
            .collect::<Vec<_>>(),
        vec![200, 360]
    );
    assert_eq!(stats_of(&worker.output_catcher).correct, 2);
    assert!(worker.processed.contains(&10));
    assert!(worker.processed.contains(&50));
    assert_eq!(worker.orig_index, 4);
    worker.finish().unwrap();
    assert!(worker.read_catcher.is_empty());
    assert_eq!(stats_of(&worker.output_catcher).correct, 4);
}

#[test]
fn worker_refuses_to_flush_a_position_twice() {
    let e = plain();
    let chunk = Chunk::new("chr1".to_string(), 0, 0, 100_000);
    let mut worker = ChunkWorker::new(e.dedup_strategy, &chunk, per_region(), false, 10).unwrap();
    worker.step(&e, &chunk, &read(10, 0, false)).unwrap();
    worker.step(&e, &chunk, &read(500, 0, false)).unwrap();
    worker.step(&e, &chunk, &read(1000, 0, false)).unwrap();
    assert!(worker.processed.contains(&10));
    // the input goes back to a position that is done
    worker.step(&e, &chunk, &read(10, 0, false)).unwrap();
    assert_eq!(
        worker.step(&e, &chunk, &read(2000, 0, false)),
        Err(WorkerError::PositionProcessedTwice(10))
    );
}

#[test]
fn worker_per_reference_bucket_holds_the_whole_chunk() {
    let e = engine(
        DeduplicationMode::Umi,
        DeduplicationBucket::PerReference,
        Vec::new(),
        true,
        None,
    );
    let chunk = Chunk::new("chr1".to_string(), 0, 0, 1000);
    let mut worker = ChunkWorker::new(e.dedup_strategy, &chunk, per_region(), true, 150).unwrap();
    assert_eq!(worker.bucket_mode, Bucket::PerReference(1150));
    for (pos, umi, mapq) in [(10, "AAAA", 10u8), (500, "AAAA", 30), (700, "CCCC", 5), (900, "AAAA", 20)] {
        let mut r = with_tag(read(pos, 0, false), b"RX", umi);
        r.mapq = mapq;
        worker.step(&e, &chunk, &r).unwrap();
    }
    assert_eq!(worker.read_catcher.len(), 1);
    assert_eq!(worker.read_catcher[0].position, 1150);
    worker.finish().unwrap();
    let (_, counter, annotated) = worker.into_parts();
    let stats = stats_of(&counter);
    assert_eq!(stats.correct, 2);
    assert_eq!(stats.duplicate, 2);
    let mut annotated = annotated.unwrap();
    annotated.sort_by_key(|(_, index)| *index);
    let kinds: Vec<&str> = annotated
        .iter()
        .map(|(r, _)| match r {
            AnnotatedRead::Counted(_) => "counted",
            AnnotatedRead::Duplicate => "duplicate",
            _ => "other",
        })
        .collect();
    assert_eq!(kinds, vec!["duplicate", "counted", "counted", "duplicate"]);
    let far = Chunk::new("chr1".to_string(), 0, 0, 2147483600);
    assert!(ChunkWorker::new(e.dedup_strategy, &far, per_region(), false, 150).is_none());
}

#[test]
fn worker_dedups_orientations_apart() {
    let e = engine(
        DeduplicationMode::Umi,
        DeduplicationBucket::PerPosition,
        Vec::new(),
        true,
        None,
    );
    let chunk = Chunk::new("chr1".to_string(), 0, 0, 1000);
    let (stats, _) = run(
        &e,
        &chunk,
        150,
        vec![
            with_tag(read(10, 0, false), b"RX", "AAAA"),
            with_tag(read(10, 0, true), b"RX", "AAAA"),
            with_tag(read(10, 0, true), b"RX", "AAAA"),
        ],
    );
    assert_eq!(stats.correct, 1);
    assert_eq!(stats.reverse, 1);
    assert_eq!(stats.duplicate, 1);
}

#[test]
fn worker_record_errors() {
    let e = plain();
    let chunk = Chunk::new("chr1".to_string(), 0, 0, 1000);
    let mut worker = ChunkWorker::new(e.dedup_strategy, &chunk, per_region(), false, 150).unwrap();
    assert_eq!(
        worker.step(&e, &chunk, &read(-1, 0, false)),
        Err(WorkerError::Record(RecordError::PositionOutOfRange))
    );
    let mut bad_nh = read(10, 0, false);
    bad_nh.aux.push(AuxField {
        tag: *b"NH",
        value: Aux::I8(1),
    });
    assert_eq!(
        worker.step(&e, &chunk, &bad_nh),
        Err(WorkerError::Record(RecordError::AlignmentCountNotUnsigned))
    );
    // outside the chunk the tag is not looked at
    let mut outside = bad_nh.clone();
    outside.pos = 5000;
    assert_eq!(worker.step(&e, &chunk, &outside), Ok(()));
    assert_eq!(worker.orig_index, 1);
    let annotation = e
        .annotate(&chunk, &outside, &mut OurInterner::new(), 150, Bucket::PerPosition)
        .unwrap();
    assert_eq!(annotation.corrected_position, 5000);
    assert!(matches!(annotation.outcome, Outcome::NotInRegion));
}

#[test]
fn engine_needs_extractors_for_its_mode() {
    let matcher = || ReadToGeneMatcher::TagMatcher(TagMatcher { tag: *b"XF" });
    let umi = DeduplicationStrategy {
        mode: DeduplicationMode::Umi,
        bucket: DeduplicationBucket::PerPosition,
    };
    let cells = DeduplicationStrategy {
        mode: DeduplicationMode::SingleCell,
        bucket: DeduplicationBucket::PerPosition,
    };
    let extractor = || Some(UMIExtraction::Tag(Tag { tag: *b"RX" }));
    let barcodes = || {
        Some(CellBarcodes {
            extract: UMIExtraction::Tag(Tag { tag: *b"CR" }),
            separator_char: b'_',
            max_hamming: 0,
            whitelist_files: Vec::new(),
            whitelists: Vec::new(),
        })
    };
    assert_eq!(
        Engine::new(matcher(), Vec::new(), umi, None, None).err(),
        Some(EngineError::UmiDedupNeedsUmi)
    );
    assert_eq!(
        Engine::new(matcher(), Vec::new(), cells, extractor(), None).err(),
        Some(EngineError::SingleCellNeedsBarcodes)
    );
    assert_eq!(
        Engine::new(matcher(), Vec::new(), cells, None, barcodes()).err(),
        Some(EngineError::SingleCellNeedsUmi)
    );
    assert_eq!(
        Engine::new(
            matcher(),
            Vec::new(),
            umi,
            Some(UMIExtraction::ReadRegion(ReadRegion { start: 4, stop: 4 })),
            None
        )
        .err(),
        Some(EngineError::EmptyReadRegion)
    );
    assert!(Engine::new(matcher(), Vec::new(), cells, extractor(), barcodes()).is_ok());
    assert_eq!(
        Engine::from_bam_tag(*b"xf", Vec::new(), umi, extractor(), None).err(),
        Some(EngineError::TagNotUppercase)
    );
    assert!(Engine::from_bam_tag(*b"X9", Vec::new(), umi, extractor(), None).is_ok());
    let by_reference = Engine::from_references(
        &vec![("chr1".to_string(), 0, 100), ("chr2".to_string(), 1, 50)],
        Vec::new(),
        umi,
        extractor(),
        None,
        Strategy {
            overlap: OverlapMode::Union,
            multi_region: MultiRegionHandling::CountBoth,
            direction: MatchDirection::Reverse,
        },
    )
    .unwrap();
    match by_reference.matcher {
        ReadToGeneMatcher::ReferenceMatcher(m) => {
            assert_eq!(m.tids_to_include, vec![0, 1]);
            assert_eq!(m.direction, MatchDirection::Reverse);
        }
        _ => panic!("wrong matcher"),
    }
}

#[test]
fn matcher_by_tag() {
    let matcher = TagMatcher { tag: *b"XF" };
    let chunk = Chunk::new("chr1".to_string(), 0, 0, 1000);
    let mut interner = OurInterner::new();
    let hit = with_tag(read(10, 0, true), b"XF", "geneA");
    assert_eq!(matcher.hits(&chunk, &hit, &mut interner), Ok((vec![0], vec![])));
    assert_eq!(matcher.hits(&chunk, &hit, &mut interner), Ok((vec![0], vec![])));
    let other = with_tag(read(10, 0, false), b"XF", "geneB");
    assert_eq!(matcher.hits(&chunk, &other, &mut interner), Ok((vec![1], vec![])));
    assert_eq!(
        matcher.hits(&chunk, &read(10, 0, false), &mut interner),
        Ok((vec![], vec![]))
    );
    let mut number = read(10, 0, false);
    number.aux.push(AuxField {
        tag: *b"XF",
        value: Aux::U8(3),
    });
    assert_eq!(matcher.hits(&chunk, &number, &mut interner), Ok((vec![], vec![])));
    assert_eq!(interner.len(), 2);
    assert_eq!(interner.resolve(1), Some("geneB".to_string()));
    assert_eq!(interner.resolve(2), None);
    assert_eq!(interner.resolve(u32::MAX), None);
    assert_eq!(InternerFull, InternerFull);
    assert_ne!(MatchError::InternerFull, MatchError::UnknownReference);
}

#[test]
fn matcher_direction_table() {
    let (forward, reverse_direction, ignore) = (
        MatchDirection::Forward,
        MatchDirection::Reverse,
        MatchDirection::Ignore,
    );
    let table = [
        (forward, false, Strand::Plus, true),
        (forward, false, Strand::Minus, false),
        (forward, true, Strand::Plus, false),
        (forward, true, Strand::Minus, true),
        (reverse_direction, false, Strand::Plus, false),
        (reverse_direction, false, Strand::Minus, true),
        (reverse_direction, true, Strand::Plus, true),
        (reverse_direction, true, Strand::Minus, false),
        (forward, false, Strand::Unstranded, true),
        (forward, true, Strand::Unstranded, true),
        (reverse_direction, false, Strand::Unstranded, true),
        (reverse_direction, true, Strand::Unstranded, true),
        (ignore, false, Strand::Plus, true),
        (ignore, true, Strand::Plus, true),
        (ignore, false, Strand::Minus, true),
        (ignore, true, Strand::Unstranded, true),
    ];
    for (direction, reverse, strand, correct) in table {
        assert_eq!(
            is_correct_direction(direction, reverse, strand),
            correct,
            "{:?} {} {:?}",
            direction,
            reverse,
            strand
        );
    }
}

#[test]
fn tags_of_annotated_reads() {
    let mut interner = OurInterner::new();
    interner.get_or_intern("geneB").unwrap();
    interner.get_or_intern("geneA").unwrap();
    interner.get_or_intern("geneC").unwrap();
    let flag = |read: AnnotatedRead| -> Vec<([u8; 2], String)> {
        annotation_tags(&read, &interner)
            .unwrap()
            .unwrap()
            .into_iter()
            .map(|t| {
                (
                    t.name,
                    match t.value {
                        TagValue::U8(x) => format!("u8:{}", x),
                        TagValue::I32(x) => format!("i32:{}", x),
                        TagValue::Text(b) => format!("text:{}", String::from_utf8(b).unwrap()),
                    },
                )
            })
            .collect()
    };
    assert!(annotation_tags(&AnnotatedRead::NotInRegion, &interner)
        .unwrap()
        .is_none());
    assert_eq!(flag(AnnotatedRead::Filtered), vec![(*b"XF", "u8:1".to_string())]);
    assert_eq!(flag(AnnotatedRead::Duplicate), vec![(*b"XF", "u8:3".to_string())]);
    assert_eq!(
        flag(AnnotatedRead::BarcodeNotInWhitelist(b"NNNN".to_vec())),
        vec![
            (*b"XF", "u8:4".to_string()),
            (*b"CR", "text:NNNN".to_string())
        ]
    );
    assert_eq!(flag(AnnotatedRead::NoBarcode), vec![(*b"XF", "u8:5".to_string())]);
    assert_eq!(flag(AnnotatedRead::NoUMI), vec![(*b"XF", "u8:6".to_string())]);
    let counted = |position: i32, correct: Vec<u32>, barcode: Option<&str>| {
        AnnotatedRead::Counted(Box::new(AnnotatedReadInfo {
            corrected_position: position,
            hits: Hits {
                correct,
                reverse: vec![2],
            },
            umi: None,
            barcode: barcode.map(|b| b.as_bytes().to_vec()),
            mapping_priority: (1, 0),
            reverse: false,
        }))
    };
    assert_eq!(
        flag(counted(-3, vec![1, 0], Some("ACGT"))),
        vec![
            (*b"XQ", "text:geneB,geneA".to_string()),
            (*b"XR", "text:geneC".to_string()),
            (*b"XP", "i32:-2".to_string()),
            (*b"CB", "text:ACGT".to_string())
        ]
    );
    assert_eq!(
        flag(counted(99, vec![], None)),
        vec![
            (*b"XQ", "text:".to_string()),
            (*b"XR", "text:geneC".to_string()),
            (*b"XP", "i32:100".to_string())
        ]
    );
    assert_eq!(
        annotation_tags(&counted(5, vec![7], None), &interner).err(),
        Some(TagError::UnknownToken(7))
    );
    assert_eq!(
        annotation_tags(&counted(i32::MAX, vec![0], None), &interner).err(),
        Some(TagError::PositionOutOfRange)
    );
}

fn gtf_input(aggr: Option<&str>) -> Input {
    Input {
        bam: "in.bam".to_string(),
        correct_reads_for_clipping: true,
        source: Source::Gtf(GTFConfig {
            filename: "genes.gtf".to_string(),
            subformat: GTFFormat::AutoDetect,
            feature: "exon".to_string(),
            id_attribute: "gene_id".to_string(),
            aggr_id_attribute: aggr.map(|a| a.to_string()),
            duplicate_handling: DuplicateHandling::Collapse,
        }),
        max_skip_length: 150,
    }
}

fn no_dedup() -> DeduplicationStrategy {
    DeduplicationStrategy {
        mode: DeduplicationMode::NoDedup,
        bucket: DeduplicationBucket::PerPosition,
    }
}

#[test]
fn quantify_sets_up_engine_and_output() {
    let text = b"chr1\tsrc\texon\t1\t10\t.\t+\t.\tgene_id \"b\";\n\
chr1\tsrc\texon\t1\t10\t.\t+\t.\tgene_id \"b\";\n\
chr1\tsrc\texon\t20\t30\t.\t+\t.\tgene_id \"a\";\n";
    let input = gtf_input(None);
    let tags = match &input.source {
        Source::Gtf(gtf) => accepted_tags(gtf, "gene_id"),
        _ => panic!("wrong source"),
    };
    assert_eq!(tags, vec!["gene_id", "gene_id", "gene_id"]);
    let mut table = parse_minimal(text, &vec!["exon".to_string()], &tags).unwrap();
    assert_eq!(read_gtf(&mut table, DuplicateHandling::Collapse, "gene_id"), Ok(()));
    assert_eq!(table[0].entries.start, vec![0, 19]);
    let out = OutputConfig {
        directory: "results".to_string(),
        write_annotated_bam: false,
        only_correct: false,
    };
    let (engine, output) = quantify(
        &input,
        Loaded::Gtf(&table),
        Vec::new(),
        &out,
        None,
        None,
        no_dedup(),
        Strategy::default(),
    )
    .unwrap();
    assert!(matches!(engine.matcher, ReadToGeneMatcher::TreeMatcher(_)));
    match &output {
        Output::PerRegion {
            output_filename,
            sorted_keys,
            first_column_only,
            id_attribute,
            ..
        } => {
            assert_eq!(output_filename, "results/counts.tsv");
            assert_eq!(sorted_keys, &Some(vec!["a".to_string(), "b".to_string()]));
            assert!(!first_column_only);
            assert_eq!(id_attribute, "gene_id");
        }
        _ => panic!("wrong kind of output"),
    }
    assert_eq!(
        quantify(
            &input,
            Loaded::Tag,
            Vec::new(),
            &out,
            None,
            None,
            no_dedup(),
            Strategy::default()
        )
        .err(),
        Some(QuantifyError::SourceMismatch)
    );
    let genes = gtf_input(None);
    let mut wrong_feature = gtf_input(None);
    if let Source::Gtf(gtf) = &mut wrong_feature.source {
        gtf.feature = "gene".to_string();
    }
    assert_eq!(
        quantify(
            &wrong_feature,
            Loaded::Gtf(&table),
            Vec::new(),
            &out,
            None,
            None,
            no_dedup(),
            Strategy::default()
        )
        .err(),
        Some(QuantifyError::NoEntriesForFeature)
    );
    assert_eq!(
        quantify(
            &gtf_input(Some("transcript_id")),
            Loaded::Gtf(&table),
            Vec::new(),
            &out,
            None,
            None,
            no_dedup(),
            Strategy::default()
        )
        .err(),
        Some(QuantifyError::NoAggregationAttribute)
    );
    drop(genes);
}

#[test]
fn quantify_by_reference_and_tag() {
    let out = OutputConfig {
        directory: "results".to_string(),
        write_annotated_bam: false,
        only_correct: true,
    };
    let mut input = gtf_input(None);
    input.source = Source::BamReferences;
    let references = vec![("chr2".to_string(), 0, 100u64), ("chr1".to_string(), 1, 50)];
    let (engine, output) = quantify(
        &input,
        Loaded::References(&references),
        Vec::new(),
        &out,
        None,
        None,
        no_dedup(),
        Strategy::default(),
    )
    .unwrap();
    assert!(matches!(engine.matcher, ReadToGeneMatcher::ReferenceMatcher(_)));
    match &output {
        Output::PerRegion {
            sorted_keys,
            first_column_only,
            id_attribute,
            ..
        } => {
            assert_eq!(sorted_keys, &Some(vec!["chr2".to_string(), "chr1".to_string()]));
            assert!(first_column_only);
            assert_eq!(id_attribute, "reference");
        }
        _ => panic!("wrong kind of output"),
    }
    input.source = Source::BamTag(BamTag { tag: *b"XF" });
    let (engine, output) = quantify(
        &input,
        Loaded::Tag,
        Vec::new(),
        &out,
        None,
        None,
        no_dedup(),
        Strategy::default(),
    )
    .unwrap();
    assert!(matches!(engine.matcher, ReadToGeneMatcher::TagMatcher(_)));
    match &output {
        Output::PerRegion {
            sorted_keys,
            id_attribute,
            ..
        } => {
            assert_eq!(sorted_keys, &None);
            assert_eq!(id_attribute, "XF");
        }
        _ => panic!("wrong kind of output"),
    }
    assert!(first_column_only(false, MatchDirection::Ignore));
    assert!(first_column_only(true, MatchDirection::Forward));
    assert!(!first_column_only(false, MatchDirection::Reverse));
}
