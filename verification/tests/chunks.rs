use mbf_bam_quantifier::config::{MatchDirection, MultiRegionHandling, OverlapMode, Strategy};
use mbf_bam_quantifier::engine::annotated::{shard_filename, shard_order, ShardError};
use mbf_bam_quantifier::engine::chunked_genome::{
    chunks_of_reference, retain_chunks, Chunk, ChunkedGenome, ReferenceInfo, CHUNK_SIZE,
};
use mbf_bam_quantifier::engine::matcher::{ReferenceMatcher, TagMatcher, TreeMatcher};
use mbf_bam_quantifier::engine::region_index::{
    build_trees_from_gtf, build_trees_from_gtf_merged, ReferenceTree,
};
use mbf_bam_quantifier::filters::{Filter, KeepOrRemove, Reference};
use mbf_bam_quantifier::gtf_parse::parse_minimal;

fn reference(name: &str, tid: u32, length: u32, has_reads: bool) -> ReferenceInfo {
    ReferenceInfo {
        name: name.to_string(),
        tid,
        length,
        has_reads,
    }
}

fn trees(rows: &[(&str, u64, u64, &str)]) -> Vec<ReferenceTree> {
    let mut gtf = String::new();
    for (chr, start, end, id) in rows {
        gtf.push_str(&format!(
            "{}\tsrc\tgene\t{}\t{}\t.\t+\t.\tgene_id \"{}\";\n",
            chr,
            start + 1,
            end,
            id
        ));
    }
    let table = parse_minimal(
        gtf.as_bytes(),
        &vec!["gene".to_string()],
        &vec!["gene_id".to_string()],
    )
    .unwrap();
    build_trees_from_gtf("gene_id", &table[0].entries).unwrap()
}

fn spans(chunks: &[Chunk]) -> Vec<(u32, u32)> {
    chunks.iter().map(|c| (c.start, c.stop)).collect()
}

#[test]
fn chunk_id_and_outside() {
    let chunk = Chunk::new("chr1".to_string(), 3, 100, 2000);
    assert_eq!(chunk.chr, "chr1");
    assert_eq!(chunk.tid, 3);
    assert_eq!(chunk.str_id(), "chr1:100:2000");
    assert_eq!(Chunk::new("X".to_string(), 0, 0, 0).str_id(), "X:0:0");
    assert_eq!(
        Chunk::new("chrM".to_string(), 0, 4294967295, 10).str_id(),
        "chrM:4294967295:10"
    );
    assert!(chunk.interval_outside(0, 99));
    assert!(!chunk.interval_outside(0, 100));
    assert!(!chunk.interval_outside(150, 160));
    assert!(!chunk.interval_outside(2000, 2100));
    assert!(chunk.interval_outside(2001, 2100));
}

#[test]
fn chunks_without_regions_have_target_size() {
    let chunks = chunks_of_reference(&reference("chr1", 0, 25, true), None, 10);
    assert_eq!(spans(&chunks), vec![(0, 10), (10, 20), (20, 25)]);
    assert!(chunks.iter().all(|c| c.chr == "chr1" && c.tid == 0));
    let exact = chunks_of_reference(&reference("chr1", 0, 20, true), None, 10);
    assert_eq!(spans(&exact), vec![(0, 10), (10, 20)]);
    let empty = chunks_of_reference(&reference("chr1", 0, 0, true), None, 10);
    assert!(empty.is_empty());
    assert_eq!(CHUNK_SIZE, 10_000_000);
}

#[test]
fn chunks_do_not_split_regions() {
    let trees = trees(&[("chr1", 8, 14, "A"), ("chr1", 13, 22, "B"), ("chr1", 40, 45, "C")]);
    let chunks = chunks_of_reference(&reference("chr1", 0, 60, true), Some(&trees[0]), 10);
    // 10 lies in A, whose end leads to 15, which lies in B, whose end leads to 23
    assert_eq!(
        spans(&chunks),
        vec![(0, 23), (23, 33), (33, 46), (46, 56), (56, 60)]
    );
    for chunk in &chunks {
        for (start, end) in [(8u32, 14u32), (13, 22), (40, 45)] {
            assert!(
                chunk.stop == 60 || !(start <= chunk.stop && chunk.stop < end),
                "chunk boundary {} splits [{}, {})",
                chunk.stop,
                start,
                end
            );
        }
    }
}

#[test]
fn chunks_take_furthest_end_of_overlapping_regions() {
    let trees = trees(&[("chr1", 9, 11, "A"), ("chr1", 9, 12, "B"), ("chr1", 12, 13, "C")]);
    let chunks = chunks_of_reference(&reference("chr1", 0, 30, true), Some(&trees[0]), 10);
    assert_eq!(spans(&chunks), vec![(0, 13), (13, 23), (23, 30)]);
}

#[test]
fn chunks_cover_every_position_once() {
    let trees = trees(&[("chr1", 8, 14, "A"), ("chr1", 13, 22, "B")]);
    let chunks = chunks_of_reference(&reference("chr1", 0, 57, true), Some(&trees[0]), 10);
    assert_eq!(chunks[0].start, 0);
    for p in -5i64..57 {
        let takers = chunks
            .iter()
            .filter(|c| !((c.start > 0 && p < c.start as i64) || p >= c.stop as i64))
            .count();
        assert_eq!(takers, 1, "position {}", p);
    }
}

#[test]
fn chunked_genome_keeps_references_with_reads_and_regions() {
    let trees = trees(&[("chr2", 5, 9, "A"), ("chr1", 1, 2, "B")]);
    let references = vec![
        reference("chr1", 0, 30_000_000, true),
        reference("chr2", 1, 10, true),
        reference("chr3", 2, 10, true),
        reference("chr4", 3, 10, false),
    ];
    let genome = ChunkedGenome::new(&trees, &references);
    assert_eq!(
        genome
            .chromosomes
            .iter()
            .map(|c| c.name.as_str())
            .collect::<Vec<_>>(),
        vec!["chr1", "chr2"]
    );
    let chunks = genome.iter();
    assert_eq!(
        chunks
            .iter()
            .map(|c| c.str_id())
            .collect::<Vec<_>>(),
        vec![
            "chr1:0:10000000",
            "chr1:10000000:20000000",
            "chr1:20000000:30000000",
            "chr2:0:10"
        ]
    );
}

#[test]
fn matchers_generate_chunks() {
    let references = vec![
        reference("chr1", 0, 100, true),
        reference("chr2", 1, 50, false),
        reference("chr3", 2, 0, true),
    ];
    let by_tag = TagMatcher { tag: *b"XX" }.generate_chunks(&references);
    assert_eq!(
        by_tag.iter().map(|c| c.str_id()).collect::<Vec<_>>(),
        vec!["chr1:0:100"]
    );
    let by_reference = ReferenceMatcher {
        tids_to_include: vec![0, 1, 2],
        direction: MatchDirection::Forward,
    }
    .generate_chunks(&references);
    assert_eq!(
        by_reference.iter().map(|c| c.str_id()).collect::<Vec<_>>(),
        vec!["chr1:0:100", "chr2:0:50"]
    );
    let some = ReferenceMatcher {
        tids_to_include: vec![1],
        direction: MatchDirection::Forward,
    }
    .generate_chunks(&references);
    assert_eq!(
        some.iter().map(|c| c.str_id()).collect::<Vec<_>>(),
        vec!["chr2:0:50"]
    );
    let tree_matcher = TreeMatcher {
        reference_to_count_trees: trees(&[("chr1", 5, 9, "A")]),
        reference_to_aggregation_trees: trees(&[("chr1", 5, 9, "A")]),
        count_strategy: Strategy {
            overlap: OverlapMode::Union,
            multi_region: MultiRegionHandling::CountBoth,
            direction: MatchDirection::Forward,
        },
    };
    assert_eq!(
        tree_matcher
            .generate_chunks(&references)
            .iter()
            .map(|c| c.str_id())
            .collect::<Vec<_>>(),
        vec!["chr1:0:100"]
    );
}

#[test]
fn reference_filters_retain_chunks() {
    let chunks = vec![
        Chunk::new("chr1".to_string(), 0, 0, 10),
        Chunk::new("chr2".to_string(), 1, 0, 10),
        Chunk::new("phiX".to_string(), 2, 0, 10),
    ];
    let keep = vec![Filter::Reference(Reference {
        action: KeepOrRemove::Keep,
        references: vec!["chr1".to_string(), "chr2".to_string()],
        tids: None,
    })];
    assert_eq!(
        retain_chunks(&chunks, &keep)
            .iter()
            .map(|c| c.chr.clone())
            .collect::<Vec<_>>(),
        vec!["chr1", "chr2"]
    );
    let remove = vec![Filter::Reference(Reference {
        action: KeepOrRemove::Remove,
        references: vec!["phiX".to_string(), "chr1".to_string()],
        tids: None,
    })];
    assert_eq!(
        retain_chunks(&chunks, &remove)
            .iter()
            .map(|c| c.chr.clone())
            .collect::<Vec<_>>(),
        vec!["chr2"]
    );
    assert_eq!(retain_chunks(&chunks, &Vec::new()).len(), 3);
}

#[test]
fn merged_trees_hold_one_envelope_per_identifier() {
    let mut gtf = String::new();
    for (start, end, id) in [(10u64, 20u64, "A"), (50, 60, "A"), (30, 35, "B")] {
        gtf.push_str(&format!(
            "chr1\tsrc\texon\t{}\t{}\t.\t-\t.\tgene_id \"{}\";\n",
            start + 1,
            end,
            id
        ));
    }
    let table = parse_minimal(
        gtf.as_bytes(),
        &vec!["exon".to_string()],
        &vec!["gene_id".to_string()],
    )
    .unwrap();
    let merged = build_trees_from_gtf_merged("gene_id", &table[0].entries).unwrap();
    assert_eq!(merged.len(), 1);
    assert_eq!(merged[0].chr, "chr1");
    assert_eq!(merged[0].gene_ids, vec!["ignored"]);
    let mut found: Vec<(u32, u32, u32)> = merged[0]
        .find(0, 100)
        .iter()
        .map(|r| (r.start, r.end, r.id_no))
        .collect();
    found.sort();
    assert_eq!(found, vec![(10, 60, 0), (30, 35, 0)]);
    // a chunk boundary inside the envelope of A moves behind it
    let chunks = chunks_of_reference(&reference("chr1", 0, 100, true), Some(&merged[0]), 40);
    assert_eq!(spans(&chunks), vec![(0, 61), (61, 100)]);
}

#[test]
fn shards_are_ordered_by_header_and_position() {
    let chunks = vec![
        Chunk::new("chr2".to_string(), 1, 0, 10),
        Chunk::new("chr1".to_string(), 0, 0, 10),
        Chunk::new("chr2".to_string(), 1, 10, 20),
        Chunk::new("chr1".to_string(), 0, 10, 20),
    ];
    let targets = vec!["chr1".to_string(), "chr2".to_string(), "chr3".to_string()];
    assert_eq!(shard_order(&chunks, &targets), Ok(vec![1, 3, 0, 2]));
    assert_eq!(shard_filename(&chunks[3]), "chr1:10:20.bam");
    let unsorted = vec![
        Chunk::new("chr1".to_string(), 0, 10, 20),
        Chunk::new("chr1".to_string(), 0, 0, 10),
    ];
    assert_eq!(
        shard_order(&unsorted, &targets),
        Err(ShardError::NotSorted(1))
    );
}
