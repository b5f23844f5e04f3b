use mbf_bam_quantifier::bam_ext::{Aux, AuxField, Record};
use mbf_bam_quantifier::deduplication::{
    AcceptReadResult, DedupConfigError, DedupPerBucket, DeduplicationBucket, DeduplicationMode,
    DeduplicationStrategy, MappingQuality,
};

fn read(mapq: u8, alignments: Option<u32>) -> Record {
    Record {
        qname: b"read".to_vec(),
        tid: 0,
        pos: 100,
        mapq,
        reverse: false,
        secondary: false,
        first_in_template: false,
        last_in_template: false,
        cigar: Vec::new(),
        seq: Vec::new(),
        aux: match alignments {
            Some(n) => vec![AuxField {
                tag: *b"NH",
                value: Aux::U32(n),
            }],
            None => Vec::new(),
        },
    }
}

fn strategy(mode: DeduplicationMode) -> DeduplicationStrategy {
    DeduplicationStrategy {
        mode,
        bucket: DeduplicationBucket::PerPosition,
    }
}

#[test]
fn dedup_none_accepts_every_read() {
    let mut bucket = strategy(DeduplicationMode::NoDedup).new_bucket();
    assert!(matches!(bucket, DedupPerBucket::NoDedup));
    assert_eq!(
        bucket.accept_read(&read(10, None), 0, None, None),
        AcceptReadResult::New
    );
    assert_eq!(
        bucket.accept_read(&read(10, None), 1, None, None),
        AcceptReadResult::New
    );
}

#[test]
fn dedup_umi_prefers_higher_mapq() {
    let mut bucket = strategy(DeduplicationMode::Umi).new_bucket();
    let umi = b"ACGT".to_vec();
    assert_eq!(
        bucket.accept_read(&read(40, Some(1)), 0, Some(&umi), None),
        AcceptReadResult::New
    );
    assert_eq!(
        bucket.accept_read(&read(55, Some(1)), 1, Some(&umi), None),
        AcceptReadResult::DuplicateButPrefered(0)
    );
    assert_eq!(
        bucket.accept_read(&read(55, Some(1)), 2, Some(&umi), None),
        AcceptReadResult::Duplicated
    );
    assert_eq!(
        bucket.accept_read(&read(10, Some(1)), 3, Some(&umi), None),
        AcceptReadResult::Duplicated
    );
    assert_eq!(
        bucket.accept_read(&read(60, Some(1)), 4, Some(&umi), None),
        AcceptReadResult::DuplicateButPrefered(1)
    );
}

#[test]
fn dedup_priority_is_alignments_then_mapq() {
    let mut bucket = strategy(DeduplicationMode::Umi).new_bucket();
    let umi = b"ACGT".to_vec();
    assert_eq!(
        bucket.accept_read(&read(60, Some(1)), 0, Some(&umi), None),
        AcceptReadResult::New
    );
    assert_eq!(
        bucket.accept_read(&read(0, Some(2)), 1, Some(&umi), None),
        AcceptReadResult::DuplicateButPrefered(0)
    );
    assert_eq!(
        bucket.accept_read(&read(60, Some(1)), 2, Some(&umi), None),
        AcceptReadResult::Duplicated
    );
}

#[test]
fn dedup_alignment_count_is_capped() {
    let capped = MappingQuality::of(&read(7, Some(1000)));
    assert_eq!(capped.no_of_alignments, 255);
    assert_eq!(capped.mapq, 7);
    let missing = MappingQuality::of(&read(7, None));
    assert_eq!(missing.no_of_alignments, 1);
    assert!(capped.above(&missing));
    assert!(!missing.above(&capped));
    assert!(!missing.above(&missing));
}

#[test]
fn dedup_umi_keeps_umis_apart() {
    let mut bucket = strategy(DeduplicationMode::Umi).new_bucket();
    let a = b"AAAA".to_vec();
    let b = b"CCCC".to_vec();
    assert_eq!(
        bucket.accept_read(&read(40, Some(1)), 0, Some(&a), None),
        AcceptReadResult::New
    );
    assert_eq!(
        bucket.accept_read(&read(40, Some(1)), 1, Some(&b), None),
        AcceptReadResult::New
    );
    assert_eq!(
        bucket.accept_read(&read(40, Some(1)), 2, Some(&a), None),
        AcceptReadResult::Duplicated
    );
}

#[test]
fn dedup_singlecell_goes_by_umi_and_barcode() {
    let mut bucket = strategy(DeduplicationMode::SingleCell).new_bucket();
    let umi = b"AAAA".to_vec();
    let cell1 = b"CELL1".to_vec();
    let cell2 = b"CELL2".to_vec();
    assert_eq!(
        bucket.accept_read(&read(40, Some(1)), 0, Some(&umi), Some(&cell1)),
        AcceptReadResult::New
    );
    assert_eq!(
        bucket.accept_read(&read(40, Some(1)), 1, Some(&umi), Some(&cell2)),
        AcceptReadResult::New
    );
    assert_eq!(
        bucket.accept_read(&read(40, Some(1)), 2, Some(&umi), Some(&cell1)),
        AcceptReadResult::Duplicated
    );
    assert_eq!(
        bucket.accept_read(&read(41, Some(1)), 3, Some(&umi), Some(&cell2)),
        AcceptReadResult::DuplicateButPrefered(1)
    );
}

#[test]
fn dedup_contest_keeps_first_of_the_best() {
    // the representative is the first read with the highest rank
    let mapqs = [10u8, 30, 20, 30, 5];
    let mut bucket = strategy(DeduplicationMode::Umi).new_bucket();
    let umi = b"AAAA".to_vec();
    let mut representative = 0usize;
    for (index, mapq) in mapqs.iter().enumerate() {
        match bucket.accept_read(&read(*mapq, Some(1)), index, Some(&umi), None) {
            AcceptReadResult::New => representative = index,
            AcceptReadResult::DuplicateButPrefered(old) => {
                assert_eq!(old, representative);
                representative = index;
            }
            AcceptReadResult::Duplicated => {}
        }
    }
    assert_eq!(representative, 1);
}

#[test]
fn dedup_strategy_check() {
    assert_eq!(strategy(DeduplicationMode::NoDedup).check(false, false), Ok(()));
    assert_eq!(
        strategy(DeduplicationMode::Umi).check(false, true),
        Err(DedupConfigError::UmiDedupNeedsUmi)
    );
    assert_eq!(strategy(DeduplicationMode::Umi).check(true, false), Ok(()));
    assert_eq!(
        strategy(DeduplicationMode::SingleCell).check(true, false),
        Err(DedupConfigError::SingleCellNeedsBarcodes)
    );
    assert_eq!(
        strategy(DeduplicationMode::SingleCell).check(false, true),
        Err(DedupConfigError::SingleCellNeedsUmi)
    );
    assert_eq!(strategy(DeduplicationMode::SingleCell).check(true, true), Ok(()));
}
