use mbf_bam_quantifier::barcodes::CellBarcodes;
use mbf_bam_quantifier::bytes::{bytes_contain, bytes_eq, clone_bytes, parse_u64, split_ranges};
use mbf_bam_quantifier::config::{
    default_correct_reads_for_clipping, default_max_skip_length, deser_tag, u8_from_char,
    u8_from_number, u8_from_string, BamTag, Config, ConfigError, DuplicateHandling, GTFConfig,
    GTFFormat, Input, MatchDirection, MultiRegionHandling, Output, OverlapMode, SeparatorError,
    Source, Strategy, TagError,
};
use mbf_bam_quantifier::deduplication::{
    DedupConfigError, DeduplicationBucket, DeduplicationMode, DeduplicationStrategy,
};
use mbf_bam_quantifier::extractors::{ReadRegion, Tag, UMIExtraction};
use mbf_bam_quantifier::filters::{Filter, FilterError, KeepOrRemove, Read1, Reference};
use mbf_bam_quantifier::text::{
    decimal, sorted_byte_strings, sorted_strings, sorted_unique_strings, str_eq,
};

fn config(mode: DeduplicationMode) -> Config {
    Config {
        input: Input {
            bam: "in.bam".to_string(),
            correct_reads_for_clipping: default_correct_reads_for_clipping(),
            source: Source::Gtf(GTFConfig {
                filename: "genes.gtf".to_string(),
                subformat: GTFFormat::default(),
                feature: "gene".to_string(),
                id_attribute: "gene_id".to_string(),
                aggr_id_attribute: None,
                duplicate_handling: DuplicateHandling::default(),
            }),
            max_skip_length: default_max_skip_length(),
        },
        filter: vec![Filter::Read1(Read1 {
            action: KeepOrRemove::Remove,
        })],
        dedup: DeduplicationStrategy {
            mode,
            bucket: DeduplicationBucket::default(),
        },
        strategy: Strategy::default(),
        umi: None,
        cell_barcodes: None,
        output: Output {
            directory: "out".to_string(),
            write_annotated_bam: false,
            only_correct: false,
        },
    }
}

fn cell_barcodes(extract: UMIExtraction) -> CellBarcodes {
    CellBarcodes {
        extract,
        separator_char: b'_',
        max_hamming: 0,
        whitelist_files: Vec::new(),
        whitelists: Vec::new(),
    }
}

#[test]
fn config_defaults() {
    assert_eq!(default_max_skip_length(), 150);
    assert!(default_correct_reads_for_clipping());
    let strategy = Strategy::default();
    assert_eq!(strategy.overlap, OverlapMode::Union);
    assert_eq!(strategy.multi_region, MultiRegionHandling::CountBoth);
    assert_eq!(strategy.direction, MatchDirection::Forward);
    assert_eq!(DuplicateHandling::default(), DuplicateHandling::Collapse);
    assert_eq!(DeduplicationBucket::default(), DeduplicationBucket::PerPosition);
    assert_eq!(GTFFormat::default(), GTFFormat::AutoDetect);
    assert_eq!(OverlapMode::default(), OverlapMode::Union);
    assert_eq!(MultiRegionHandling::default(), MultiRegionHandling::CountBoth);
    assert_eq!(MatchDirection::default(), MatchDirection::Forward);
}

#[test]
fn config_check_passes() {
    assert_eq!(config(DeduplicationMode::NoDedup).check(), Ok(()));
    let mut with_umi = config(DeduplicationMode::Umi);
    with_umi.umi = Some(UMIExtraction::Tag(Tag { tag: *b"RX" }));
    assert_eq!(with_umi.check(), Ok(()));
    let mut cells = config(DeduplicationMode::SingleCell);
    cells.umi = Some(UMIExtraction::ReadRegion(ReadRegion { start: 0, stop: 8 }));
    cells.cell_barcodes = Some(cell_barcodes(UMIExtraction::Tag(Tag { tag: *b"CR" })));
    assert_eq!(cells.check(), Ok(()));
    let mut tag = config(DeduplicationMode::NoDedup);
    tag.input.source = Source::BamTag(BamTag { tag: *b"XF" });
    assert_eq!(tag.check(), Ok(()));
    tag.input.source = Source::BamReferences;
    assert_eq!(tag.check(), Ok(()));
}

#[test]
fn config_check_errors() {
    assert_eq!(
        config(DeduplicationMode::Umi).check(),
        Err(ConfigError::Dedup(DedupConfigError::UmiDedupNeedsUmi))
    );
    let mut cells = config(DeduplicationMode::SingleCell);
    cells.umi = Some(UMIExtraction::Tag(Tag { tag: *b"RX" }));
    assert_eq!(
        cells.check(),
        Err(ConfigError::Dedup(DedupConfigError::SingleCellNeedsBarcodes))
    );
    cells.umi = None;
    cells.cell_barcodes = Some(cell_barcodes(UMIExtraction::Tag(Tag { tag: *b"CR" })));
    assert_eq!(
        cells.check(),
        Err(ConfigError::Dedup(DedupConfigError::SingleCellNeedsUmi))
    );
    let mut filter = config(DeduplicationMode::NoDedup);
    filter.filter.push(Filter::Reference(Reference {
        action: KeepOrRemove::Keep,
        references: Vec::new(),
        tids: None,
    }));
    assert_eq!(
        filter.check(),
        Err(ConfigError::Filter(FilterError::NoReferences))
    );
    let mut bam = config(DeduplicationMode::NoDedup);
    bam.input.bam = String::new();
    assert_eq!(bam.check(), Err(ConfigError::EmptyBamFilename));
    assert_eq!(bam.input.check(), Err(ConfigError::EmptyBamFilename));
    for (field, error) in [
        (0, ConfigError::EmptyGtfFilename),
        (1, ConfigError::EmptyGtfFeature),
        (2, ConfigError::EmptyGtfIdAttribute),
    ] {
        let mut c = config(DeduplicationMode::NoDedup);
        if let Source::Gtf(gtf) = &mut c.input.source {
            match field {
                0 => gtf.filename = String::new(),
                1 => gtf.feature = String::new(),
                _ => gtf.id_attribute = String::new(),
            }
        }
        assert_eq!(c.input.source.check(), Err(error));
        assert_eq!(c.check(), Err(error));
    }
    let mut region = config(DeduplicationMode::NoDedup);
    region.umi = Some(UMIExtraction::ReadRegion(ReadRegion { start: 8, stop: 8 }));
    assert_eq!(region.check(), Err(ConfigError::EmptyReadRegion));
    let mut barcode_region = config(DeduplicationMode::NoDedup);
    barcode_region.cell_barcodes = Some(cell_barcodes(UMIExtraction::ReadRegion(ReadRegion {
        start: 9,
        stop: 3,
    })));
    assert_eq!(barcode_region.check(), Err(ConfigError::EmptyReadRegion));
}

#[test]
fn config_tags_and_separators() {
    assert_eq!(deser_tag("XF"), Ok(*b"XF"));
    assert_eq!(deser_tag("x9"), Ok(*b"x9"));
    assert_eq!(deser_tag("X"), Err(TagError::NotTwoLetters));
    assert_eq!(deser_tag("XFG"), Err(TagError::NotTwoLetters));
    assert_eq!(deser_tag("9X"), Err(TagError::FirstNotAlphabetic));
    assert_eq!(deser_tag("X_"), Err(TagError::SecondNotAlphanumeric));
    assert_eq!(u8_from_number(95), Ok(95));
    assert_eq!(u8_from_number(255), Ok(255));
    assert_eq!(u8_from_number(256), Err(SeparatorError::NumberTooLarge));
    assert_eq!(u8_from_char("_"), Ok(b'_'));
    assert_eq!(u8_from_char(""), Err(SeparatorError::EmptyString));
    assert_eq!(u8_from_char("__"), Err(SeparatorError::MoreThanOneCharacter));
    assert_eq!(u8_from_string("AC"), b"AC".to_vec());
}

#[test]
fn text_decimal() {
    assert_eq!(decimal(0), "0");
    assert_eq!(decimal(7), "7");
    assert_eq!(decimal(10), "10");
    assert_eq!(decimal(1234567890), "1234567890");
    assert_eq!(decimal(u64::MAX), "18446744073709551615");
}

#[test]
fn text_sorting_and_comparing() {
    let keys = vec![
        "geneB".to_string(),
        "gene10".to_string(),
        "geneA".to_string(),
        "gene".to_string(),
        "geneB".to_string(),
        "Zeta".to_string(),
    ];
    assert_eq!(
        sorted_strings(&keys),
        vec!["Zeta", "gene", "gene10", "geneA", "geneB", "geneB"]
    );
    assert_eq!(
        sorted_unique_strings(&keys),
        vec!["Zeta", "gene", "gene10", "geneA", "geneB"]
    );
    assert_eq!(sorted_strings(&Vec::new()), Vec::<String>::new());
    assert_eq!(
        sorted_byte_strings(&vec![b"TT".to_vec(), b"AAA".to_vec(), b"T".to_vec(), vec![]]),
        vec![vec![], b"AAA".to_vec(), b"T".to_vec(), b"TT".to_vec()]
    );
    assert!(str_eq("abc", "abc"));
    assert!(!str_eq("abc", "abd"));
    assert!(!str_eq("abc", "ab"));
    assert!(bytes_eq(b"abc", b"abc"));
    assert!(!bytes_eq(b"abc", b"abC"));
    assert!(bytes_contain(b"ACNT", b'N'));
    assert!(!bytes_contain(b"ACGT", b'N'));
    assert_eq!(clone_bytes(b"xyz"), b"xyz".to_vec());
}

#[test]
fn text_splitting_and_numbers() {
    assert_eq!(split_ranges(b"a\tbc\t", b'\t'), vec![(0, 1), (2, 4), (5, 5)]);
    assert_eq!(split_ranges(b"", b'\t'), vec![(0, 0)]);
    assert_eq!(split_ranges(b"abc", b'\t'), vec![(0, 3)]);
    assert_eq!(parse_u64(b"x123y", 1, 4), Some(123));
    assert_eq!(parse_u64(b"+7", 0, 2), Some(7));
    assert_eq!(parse_u64(b"007", 0, 3), Some(7));
    assert_eq!(parse_u64(b"18446744073709551615", 0, 20), Some(u64::MAX));
    assert_eq!(parse_u64(b"18446744073709551616", 0, 20), None);
    assert_eq!(parse_u64(b"+", 0, 1), None);
    assert_eq!(parse_u64(b"", 0, 0), None);
    assert_eq!(parse_u64(b"-1", 0, 2), None);
    assert_eq!(parse_u64(b"1 ", 0, 2), None);
}
