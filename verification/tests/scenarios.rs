use mbf_bam_quantifier::bam_ext::{Aux, AuxField, Cigar, Record, RecordError};
use mbf_bam_quantifier::barcodes::CellBarcodes;
use mbf_bam_quantifier::config::{MatchDirection, MultiRegionHandling, OverlapMode, Strategy};
use mbf_bam_quantifier::deduplication::{
    DeduplicationBucket, DeduplicationMode, DeduplicationStrategy,
};
use mbf_bam_quantifier::engine::chunked_genome::Chunk;
use mbf_bam_quantifier::engine::counts::{AnnotatedRead, CounterPerChunk, Stats};
use mbf_bam_quantifier::engine::interner::OurInterner;
use mbf_bam_quantifier::engine::matcher::{ReadToGeneMatcher, ReferenceMatcher, TreeMatcher};
use mbf_bam_quantifier::engine::output::{render_matrix_line, Output};
use mbf_bam_quantifier::engine::region_index::build_trees_from_gtf;
use mbf_bam_quantifier::engine::worker::{ChunkWorker, Engine, WorkerError};
use mbf_bam_quantifier::extractors::{Tag, UMIExtraction};
use mbf_bam_quantifier::gtf_parse::parse_minimal;

fn record(pos: i64, cigar: Vec<Cigar>) -> Record {
    Record {
        qname: b"read".to_vec(),
        tid: 0,
        pos,
        mapq: 0,
        reverse: false,
        secondary: false,
        first_in_template: false,
        last_in_template: false,
        cigar,
        seq: Vec::new(),
        aux: Vec::new(),
    }
}

fn tagged(pos: i64, mapq: u8, tags: Vec<(&[u8; 2], &str)>) -> Record {
    let mut r = record(pos, vec![Cigar::Match(50)]);
    r.mapq = mapq;
    r.aux.push(AuxField {
        tag: *b"NH",
        value: Aux::U8(1),
    });
    for (tag, value) in tags {
        r.aux.push(AuxField {
            tag: *tag,
            value: Aux::String(value.to_string()),
        });
    }
    r
}

fn names(tokens: &[u32], interner: &OurInterner) -> Vec<String> {
    let mut names: Vec<String> = tokens
        .iter()
        .map(|t| interner.resolve(*t).unwrap())
        .collect();
    names.sort();
    names
}

#[test]
fn scenario_aligned_blocks_from_cigar() {
    let read = record(
        16096878,
        vec![Cigar::Match(7), Cigar::Del(2), Cigar::Match(44)],
    );
    assert_eq!(
        read.blocks(),
        vec![(16096878, 16096885), (16096887, 16096931)]
    );
    assert_eq!(read.introns(), vec![]);
    let spliced = record(
        16096878,
        vec![Cigar::Match(17), Cigar::RefSkip(2183), Cigar::Match(34)],
    );
    assert_eq!(
        spliced.blocks(),
        vec![
            (16096878, 16096878 + 17),
            (16096878 + 17 + 2183, 16096878 + 17 + 2183 + 34)
        ]
    );
    assert_eq!(
        spliced.introns(),
        vec![(16096878 + 17, 16096878 + 17 + 2183)]
    );
}

#[test]
fn scenario_clipping_correction() {
    let read = record(100, vec![Cigar::SoftClip(6), Cigar::Match(45)]);
    assert_eq!(read.leading_softclips(), 6);
    assert_eq!(read.check(150), Ok(()));
    assert_eq!(read.corrected_pos(150), Some(94));
    assert_eq!(
        read.check(5),
        Err(RecordError::SoftClipTooLong {
            skip: 6,
            max_skip_len: 5
        })
    );
}

fn tree_matcher(overlap: OverlapMode, multi_region: MultiRegionHandling) -> TreeMatcher {
    let gtf = b"chr1\tsrc\tgene\t1\t30\t.\t+\t.\tgene_id \"A\";\n\
chr1\tsrc\tgene\t1\t10\t.\t+\t.\tgene_id \"B\";\n\
chr1\tsrc\tgene\t21\t30\t.\t+\t.\tgene_id \"C\";\n";
    let table = parse_minimal(gtf, &vec!["gene".to_string()], &vec!["gene_id".to_string()]).unwrap();
    assert_eq!(table.len(), 1);
    let count_trees = build_trees_from_gtf("gene_id", &table[0].entries).unwrap();
    let aggregation_trees = build_trees_from_gtf("gene_id", &table[0].entries).unwrap();
    TreeMatcher {
        reference_to_count_trees: count_trees,
        reference_to_aggregation_trees: aggregation_trees,
        count_strategy: Strategy {
            overlap,
            multi_region,
            direction: MatchDirection::Forward,
        },
    }
}

fn two_block_read() -> Record {
    record(
        0,
        vec![Cigar::Match(10), Cigar::RefSkip(10), Cigar::Match(10)],
    )
}

#[test]
fn scenario_overlap_union() {
    let matcher = tree_matcher(OverlapMode::Union, MultiRegionHandling::CountBoth);
    let chunk = Chunk::new("chr1".to_string(), 0, 0, 100);
    let mut interner = OurInterner::new();
    let (correct, reverse) = matcher.hits(&chunk, &two_block_read(), &mut interner).unwrap();
    assert_eq!(names(&correct, &interner), vec!["A", "B", "C"]);
    assert!(reverse.is_empty());
}

#[test]
fn scenario_overlap_intersection_strict() {
    let matcher = tree_matcher(OverlapMode::IntersectionStrict, MultiRegionHandling::CountBoth);
    let chunk = Chunk::new("chr1".to_string(), 0, 0, 100);
    let mut interner = OurInterner::new();
    let (correct, reverse) = matcher.hits(&chunk, &two_block_read(), &mut interner).unwrap();
    assert_eq!(names(&correct, &interner), vec!["A"]);
    assert!(reverse.is_empty());
}

#[test]
fn scenario_overlap_intersection_non_empty() {
    let matcher = tree_matcher(
        OverlapMode::IntersectionNonEmpty,
        MultiRegionHandling::CountBoth,
    );
    let chunk = Chunk::new("chr1".to_string(), 0, 0, 100);
    let mut interner = OurInterner::new();
    let (correct, _) = matcher.hits(&chunk, &two_block_read(), &mut interner).unwrap();
    assert_eq!(names(&correct, &interner), vec!["A"]);
    // no region holds the whole read: every partial overlap counts
    let longer = record(
        0,
        vec![Cigar::Match(10), Cigar::RefSkip(10), Cigar::Match(15)],
    );
    let (correct, _) = matcher.hits(&chunk, &longer, &mut interner).unwrap();
    assert_eq!(names(&correct, &interner), vec!["A", "B", "C"]);
}

#[test]
fn scenario_overlap_reverse_read_goes_to_reverse_bucket() {
    let matcher = tree_matcher(OverlapMode::Union, MultiRegionHandling::CountBoth);
    let chunk = Chunk::new("chr1".to_string(), 0, 0, 100);
    let mut interner = OurInterner::new();
    let mut read = two_block_read();
    read.reverse = true;
    let (correct, reverse) = matcher.hits(&chunk, &read, &mut interner).unwrap();
    assert!(correct.is_empty());
    assert_eq!(names(&reverse, &interner), vec!["A", "B", "C"]);
}

#[test]
fn scenario_multi_region_drop() {
    let matcher = tree_matcher(OverlapMode::Union, MultiRegionHandling::Drop);
    let chunk = Chunk::new("chr1".to_string(), 0, 0, 100);
    let mut interner = OurInterner::new();
    let (correct, reverse) = matcher.hits(&chunk, &two_block_read(), &mut interner).unwrap();
    assert!(correct.is_empty());
    assert!(reverse.is_empty());
    let strict = tree_matcher(OverlapMode::IntersectionStrict, MultiRegionHandling::Drop);
    let (correct, _) = strict.hits(&chunk, &two_block_read(), &mut interner).unwrap();
    assert_eq!(names(&correct, &interner), vec!["A"]);
}

fn reference_engine(mode: DeduplicationMode, cells: bool) -> Engine {
    Engine::new(
        ReadToGeneMatcher::ReferenceMatcher(ReferenceMatcher {
            tids_to_include: vec![0],
            direction: MatchDirection::Forward,
        }),
        Vec::new(),
        DeduplicationStrategy {
            mode,
            bucket: DeduplicationBucket::PerPosition,
        },
        Some(UMIExtraction::Tag(Tag { tag: *b"RX" })),
        if cells {
            Some(CellBarcodes {
                extract: UMIExtraction::Tag(Tag { tag: *b"CR" }),
                separator_char: b'_',
                max_hamming: 0,
                whitelist_files: Vec::new(),
                whitelists: Vec::new(),
            })
        } else {
            None
        },
    )
    .unwrap()
}

#[test]
fn scenario_umi_deduplication_per_position() {
    let engine = reference_engine(DeduplicationMode::Umi, false);
    let chunk = Chunk::new("chr1".to_string(), 0, 0, 1000);
    let counter = CounterPerChunk::PerRegion {
        counter: Vec::new(),
        stat_counter: Stats::new(),
    };
    let mut worker =
        ChunkWorker::new(engine.dedup_strategy, &chunk, counter, true, 150).unwrap();
    worker
        .step(&engine, &chunk, &tagged(100, 40, vec![(b"RX", "ACGT")]))
        .unwrap();
    worker
        .step(&engine, &chunk, &tagged(100, 55, vec![(b"RX", "ACGT")]))
        .unwrap();
    worker.finish().unwrap();
    let (interner, counter, annotated) = worker.into_parts();
    let annotated = annotated.unwrap();
    assert_eq!(annotated.len(), 2);
    assert!(matches!(annotated[0], (AnnotatedRead::Duplicate, 0)));
    match &annotated[1] {
        (AnnotatedRead::Counted(info), 1) => {
            assert_eq!(info.mapping_priority, (1, 55));
            assert_eq!(info.corrected_position, 100);
            assert_eq!(info.umi, Some(b"ACGT".to_vec()));
        }
        other => panic!("unexpected {:?}", other),
    }
    match counter {
        CounterPerChunk::PerRegion {
            counter,
            stat_counter,
        } => {
            assert_eq!(stat_counter.correct, 1);
            assert_eq!(stat_counter.duplicate, 1);
            assert_eq!(stat_counter.total(), 2);
            assert_eq!(counter, vec![(1, 0)]);
            assert_eq!(interner.resolve(0), Some("chr1".to_string()));
        }
        _ => panic!("wrong kind of counter"),
    }
}

#[test]
fn scenario_single_cell() {
    let engine = reference_engine(DeduplicationMode::SingleCell, true);
    let chunk = Chunk::new("chr1".to_string(), 0, 0, 1000);
    let mut output = Output::new_singlecell("out".to_string(), Some(vec!["chr1".to_string()]));
    let mut worker = ChunkWorker::new(
        engine.dedup_strategy,
        &chunk,
        output.per_chunk(),
        false,
        150,
    )
    .unwrap();
    worker
        .step(
            &engine,
            &chunk,
            &tagged(100, 40, vec![(b"RX", "AAAA"), (b"CR", "CELL1")]),
        )
        .unwrap();
    worker
        .step(
            &engine,
            &chunk,
            &tagged(100, 40, vec![(b"RX", "CCCC"), (b"CR", "CELL2")]),
        )
        .unwrap();
    worker.finish().unwrap();
    let (interner, counter, _) = worker.into_parts();
    let entries = output.count_reads(&chunk, &interner, counter);
    assert_eq!(entries.len(), 2);
    assert_eq!(entries[0].feature, 1);
    assert_eq!(entries[1].feature, 1);
    assert_eq!(entries[0].value, 1);
    assert_eq!(entries[1].value, 1);
    assert_ne!(entries[0].barcode, entries[1].barcode);
    assert_eq!(output.statistics().correct, 2);
    assert_eq!(
        output.render_matrix_header(),
        "%%MatrixMarket matrix coordinate integer general\n%\n1 2 2\n"
    );
    let sorted = output.sorted_barcodes();
    assert_eq!(sorted, vec![b"CELL1".to_vec(), b"CELL2".to_vec()]);
    let mut lines: Vec<String> = entries
        .iter()
        .map(|e| render_matrix_line(e, &sorted).unwrap())
        .collect();
    lines.sort();
    assert_eq!(lines, vec!["1 1 1\n", "1 2 1\n"]);
}

#[test]
fn scenario_soft_clip_beyond_limit_stops_the_chunk() {
    let engine = Engine::new(
        ReadToGeneMatcher::ReferenceMatcher(ReferenceMatcher {
            tids_to_include: vec![0],
            direction: MatchDirection::Forward,
        }),
        Vec::new(),
        DeduplicationStrategy {
            mode: DeduplicationMode::NoDedup,
            bucket: DeduplicationBucket::PerPosition,
        },
        None,
        None,
    )
    .unwrap();
    let chunk = Chunk::new("chr1".to_string(), 0, 0, 1000);
    let counter = CounterPerChunk::PerRegion {
        counter: Vec::new(),
        stat_counter: Stats::new(),
    };
    let mut worker = ChunkWorker::new(engine.dedup_strategy, &chunk, counter, false, 5).unwrap();
    let read = record(100, vec![Cigar::SoftClip(6), Cigar::Match(45)]);
    assert_eq!(
        worker.step(&engine, &chunk, &read),
        Err(WorkerError::Record(RecordError::SoftClipTooLong {
            skip: 6,
            max_skip_len: 5
        }))
    );
}
