use mbf_bam_quantifier::engine::chunked_genome::Chunk;
use mbf_bam_quantifier::engine::counts::{
    AnnotatedRead, AnnotatedReadInfo, CellTally, CounterPerChunk, Hits, StatCategory, Stats,
};
use mbf_bam_quantifier::engine::interner::OurInterner;
use mbf_bam_quantifier::engine::output::{
    parse_staged_line, render_barcodes, render_matrix_line, render_staged_line, render_stats,
    stats_filename, MatrixEntry, Output,
};

fn counted(correct: Vec<u32>, reverse: Vec<u32>, barcode: Option<&str>) -> AnnotatedRead {
    AnnotatedRead::Counted(Box::new(AnnotatedReadInfo {
        corrected_position: 10,
        hits: Hits { correct, reverse },
        umi: None,
        barcode: barcode.map(|b| b.as_bytes().to_vec()),
        mapping_priority: (1, 0),
        reverse: false,
    }))
}

fn all_kinds() -> Vec<(AnnotatedRead, usize)> {
    vec![
        (counted(vec![0], vec![], None), 0),
        (counted(vec![], vec![1], None), 1),
        (counted(vec![0], vec![1], None), 2),
        (counted(vec![], vec![], None), 3),
        (AnnotatedRead::Filtered, 4),
        (AnnotatedRead::NotInRegion, 5),
        (AnnotatedRead::Duplicate, 6),
        (AnnotatedRead::NoBarcode, 7),
        (AnnotatedRead::NoUMI, 8),
        (AnnotatedRead::BarcodeNotInWhitelist(b"XX".to_vec()), 9),
        (counted(vec![1, 0], vec![], None), 10),
    ]
}

fn per_region() -> CounterPerChunk {
    CounterPerChunk::PerRegion {
        counter: Vec::new(),
        stat_counter: Stats::new(),
    }
}

#[test]
fn every_read_is_counted_in_one_category() {
    let reads = all_kinds();
    let mut counter = per_region();
    counter.count_reads(&reads);
    match counter {
        CounterPerChunk::PerRegion {
            counter,
            stat_counter,
        } => {
            assert_eq!(
                stat_counter,
                Stats {
                    correct: 2,
                    reverse: 1,
                    ambiguous: 1,
                    outside: 1,
                    filtered: 1,
                    duplicate: 1,
                    no_barcode: 1,
                    no_umi: 1,
                    barcode_not_in_whitelist: 1,
                }
            );
            // all reads but the one outside the chunk
            assert_eq!(stat_counter.total(), reads.len() as u128 - 1);
            assert_eq!(counter, vec![(3, 0), (1, 2)]);
        }
        _ => panic!("wrong kind of counter"),
    }
}

#[test]
fn categories_of_reads() {
    assert_eq!(
        counted(vec![1], vec![], None).category(),
        Some(StatCategory::Correct)
    );
    assert_eq!(
        counted(vec![], vec![1], None).category(),
        Some(StatCategory::Reverse)
    );
    assert_eq!(
        counted(vec![1], vec![2], None).category(),
        Some(StatCategory::Ambiguous)
    );
    assert_eq!(
        counted(vec![], vec![], None).category(),
        Some(StatCategory::Outside)
    );
    assert_eq!(AnnotatedRead::NotInRegion.category(), None);
    assert_eq!(AnnotatedRead::NoUMI.category(), Some(StatCategory::NoUmi));
}

#[test]
fn stats_saturate() {
    let mut stats = Stats::new();
    stats.correct = usize::MAX;
    stats.record(StatCategory::Correct);
    stats.record(StatCategory::Reverse);
    assert_eq!(stats.get(StatCategory::Correct), usize::MAX);
    assert_eq!(stats.get(StatCategory::Reverse), 1);
    let mut other = Stats::new();
    other.reverse = usize::MAX;
    other.filtered = 3;
    stats.merge(&other);
    assert_eq!(stats.reverse, usize::MAX);
    assert_eq!(stats.filtered, 3);
}

#[test]
fn cells_count_agreeing_hits_only() {
    let reads = vec![
        (counted(vec![0], vec![1], Some("CELL1")), 0),
        (counted(vec![0, 2], vec![], Some("CELL2")), 1),
        (counted(vec![0], vec![], Some("CELL1")), 2),
        (AnnotatedRead::NoBarcode, 3),
    ];
    let mut counter = CounterPerChunk::SingleCell {
        stat_counter: Stats::new(),
        counter: Vec::new(),
    };
    counter.count_reads(&reads);
    match counter {
        CounterPerChunk::SingleCell {
            stat_counter,
            counter,
        } => {
            assert_eq!(stat_counter.ambiguous, 1);
            assert_eq!(stat_counter.correct, 2);
            assert_eq!(stat_counter.no_barcode, 1);
            let tallies: Vec<(u32, Vec<u8>, usize)> = counter
                .iter()
                .map(|c: &CellTally| (c.token, c.barcode.clone(), c.count))
                .collect();
            assert_eq!(
                tallies,
                vec![
                    (0, b"CELL1".to_vec(), 2),
                    (0, b"CELL2".to_vec(), 1),
                    (2, b"CELL2".to_vec(), 1)
                ]
            );
        }
        _ => panic!("wrong kind of counter"),
    }
}

fn chunk_tally(names: &[&str], reads: Vec<(AnnotatedRead, usize)>) -> (OurInterner, CounterPerChunk) {
    let mut interner = OurInterner::new();
    for name in names {
        interner.get_or_intern(name).unwrap();
    }
    let mut counter = per_region();
    counter.count_reads(&reads);
    (interner, counter)
}

fn table(output: &Output) -> String {
    output.render_counts(&output.row_keys())
}

#[test]
fn aggregation_does_not_depend_on_order() {
    let chunk = Chunk::new("chr1".to_string(), 0, 0, 10);
    let tallies = || {
        vec![
            chunk_tally(
                &["geneA", "geneB"],
                vec![
                    (counted(vec![0], vec![], None), 0),
                    (counted(vec![1], vec![0], None), 1),
                ],
            ),
            chunk_tally(
                &["geneB", "geneC"],
                vec![
                    (counted(vec![0, 1], vec![], None), 0),
                    (AnnotatedRead::Duplicate, 1),
                ],
            ),
            chunk_tally(&["geneA"], vec![(counted(vec![], vec![0], None), 0)]),
        ]
    };
    let mut rendered = Vec::new();
    for order in [[0usize, 1, 2], [2, 1, 0], [1, 0, 2]] {
        let mut output = Output::new_per_region(
            "out/counts.tsv".to_string(),
            false,
            None,
            "gene_id".to_string(),
        );
        let mut parts: Vec<Option<(OurInterner, CounterPerChunk)>> =
            tallies().into_iter().map(Some).collect();
        for i in order {
            let (interner, counter) = parts[i].take().unwrap();
            let entries = output.count_reads(&chunk, &interner, counter);
            assert!(entries.is_empty());
        }
        rendered.push((table(&output), render_stats(&output.statistics())));
    }
    assert_eq!(rendered[0], rendered[1]);
    assert_eq!(rendered[0], rendered[2]);
    assert_eq!(
        rendered[0].0,
        "gene_id\tcount_correct\tcount_reverse\ngeneA\t1\t2\ngeneB\t2\t0\ngeneC\t1\t0\n"
    );
    assert_eq!(
        rendered[0].1,
        "stat\tcount\nambiguous\t1\nbarcode_not_in_whitelist\t0\ncorrect\t2\nduplicate\t1\n\
filtered\t0\nno_barcode\t0\nno_umi\t0\noutside\t0\nreverse\t1\n"
    );
}

#[test]
fn counts_table_follows_given_keys() {
    let chunk = Chunk::new("chr1".to_string(), 0, 0, 10);
    let mut output = Output::new_per_region(
        "out/counts.tsv".to_string(),
        true,
        Some(vec!["b".to_string(), "a".to_string(), "zero".to_string()]),
        "reference".to_string(),
    );
    let (interner, counter) = chunk_tally(
        &["a", "b"],
        vec![
            (counted(vec![0], vec![1], None), 0),
            (counted(vec![0], vec![], None), 1),
        ],
    );
    output.count_reads(&chunk, &interner, counter);
    assert_eq!(table(&output), "reference\tcount\nb\t0\na\t2\nzero\t0\n");
    assert_eq!(stats_filename(&"out/counts.tsv".to_string()), "out/counts.tsv.stats.tsv");
}

#[test]
fn new_per_region_is_empty() {
    let output = Output::new_per_region("counts.tsv".to_string(), false, None, "id".to_string());
    assert_eq!(output.statistics(), Stats::new());
    assert_eq!(table(&output), "id\tcount_correct\tcount_reverse\n");
    assert!(matches!(output.per_chunk(), CounterPerChunk::PerRegion { .. }));
    match output {
        Output::PerRegion {
            output_filename,
            counter,
            sorted_keys,
            first_column_only,
            id_attribute,
            ..
        } => {
            assert_eq!(output_filename, "counts.tsv");
            assert!(counter.is_empty());
            assert_eq!(sorted_keys, None);
            assert!(!first_column_only);
            assert_eq!(id_attribute, "id");
        }
        _ => panic!("wrong kind of output"),
    }
}

#[test]
fn single_cell_output_files() {
    let chunk = Chunk::new("chr1".to_string(), 0, 0, 10);
    let mut output = Output::new_singlecell(
        "out".to_string(),
        Some(vec!["geneB".to_string(), "geneA".to_string(), "geneB".to_string()]),
    );
    match &output {
        Output::SingleCell {
            matrix_temp_dir,
            features,
            ..
        } => {
            assert_eq!(matrix_temp_dir, "out/matrix.mtx.temp");
            assert_eq!(features, &vec!["geneB".to_string(), "geneA".to_string()]);
        }
        _ => panic!("wrong kind of output"),
    }
    let mut interner = OurInterner::new();
    interner.get_or_intern("geneA").unwrap();
    interner.get_or_intern("geneNew").unwrap();
    let mut counter = output.per_chunk();
    counter.count_reads(&vec![
        (counted(vec![0], vec![], Some("TTTT")), 0),
        (counted(vec![1, 0], vec![], Some("AAAA")), 1),
        (counted(vec![0], vec![], Some("TTTT")), 2),
    ]);
    let entries = output.count_reads(&chunk, &interner, counter);
    let found: Vec<(usize, Vec<u8>, usize)> = entries
        .iter()
        .map(|e| (e.feature, e.barcode.clone(), e.value))
        .collect();
    assert_eq!(
        found,
        vec![
            (2, b"TTTT".to_vec(), 2),
            (3, b"AAAA".to_vec(), 1),
            (2, b"AAAA".to_vec(), 1)
        ]
    );
    assert_eq!(output.render_features(), "geneB\ngeneA\ngeneNew\n");
    let sorted = output.sorted_barcodes();
    assert_eq!(render_barcodes(&sorted), b"AAAA\nTTTT\n".to_vec());
    assert_eq!(
        output.render_matrix_header(),
        "%%MatrixMarket matrix coordinate integer general\n%\n3 2 3\n"
    );
    assert_eq!(
        render_matrix_line(&entries[0], &sorted),
        Some("2 2 2\n".to_string())
    );
    assert_eq!(
        render_matrix_line(&entries[1], &sorted),
        Some("3 1 1\n".to_string())
    );
    let unknown = MatrixEntry {
        feature: 1,
        barcode: b"GGGG".to_vec(),
        value: 1,
    };
    assert_eq!(render_matrix_line(&unknown, &sorted), None);
}

#[test]
fn staged_lines_can_be_read_back() {
    let entry = MatrixEntry {
        feature: 12,
        barcode: b"ACGT_TTGA".to_vec(),
        value: 345,
    };
    let line = render_staged_line(&entry);
    assert_eq!(line, b"12 ACGT_TTGA 345\n".to_vec());
    let back = parse_staged_line(&line).unwrap();
    assert_eq!(back.feature, 12);
    assert_eq!(back.barcode, b"ACGT_TTGA".to_vec());
    assert_eq!(back.value, 345);
    assert!(parse_staged_line(b"12 ACGT\n").is_none());
    assert!(parse_staged_line(b"x ACGT 1\n").is_none());
    assert!(parse_staged_line(b"1 ACGT 1.5\n").is_none());
    assert!(parse_staged_line(b"\n").is_none());
    let spaced = parse_staged_line(b"  7\tAA   9 extra\n").unwrap();
    assert_eq!((spaced.feature, spaced.value), (7, 9));
}
