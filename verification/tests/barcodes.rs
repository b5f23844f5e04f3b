use mbf_bam_quantifier::barcodes::{parse_whitelist, CellBarcodes};
use mbf_bam_quantifier::extractors::{Tag, UMIExtraction};

fn barcodes(separator: u8, max_hamming: u16, whitelists: Vec<Vec<&str>>) -> CellBarcodes {
    CellBarcodes {
        extract: UMIExtraction::Tag(Tag { tag: *b"CR" }),
        separator_char: separator,
        max_hamming,
        whitelist_files: Vec::new(),
        whitelists: whitelists
            .into_iter()
            .map(|w| w.into_iter().map(|e| e.as_bytes().to_vec()).collect())
            .collect(),
    }
}

#[test]
fn barcode_correction_with_hamming() {
    let cb = barcodes(b'_', 1, vec![vec!["AAAA", "TTTT"], vec!["AAAA", "TTTT"]]);
    assert_eq!(cb.correct(b"AAAT_TTTT"), Some(b"AAAA_TTTT".to_vec()));
    assert_eq!(cb.correct(b"AAGG_TTTT"), None);
}

#[test]
fn barcode_correction_keeps_whitelisted() {
    let cb = barcodes(b'_', 1, vec![vec!["AAAA", "TTTT"], vec!["CCCC", "GGGG"]]);
    assert_eq!(cb.correct(b"TTTT_GGGG"), Some(b"TTTT_GGGG".to_vec()));
    assert_eq!(cb.correct(b"AAAA_CCCC"), Some(b"AAAA_CCCC".to_vec()));
    let exact = barcodes(b'_', 0, vec![vec!["AAAA"], vec!["CCCC"]]);
    assert_eq!(exact.correct(b"AAAA_CCCC"), Some(b"AAAA_CCCC".to_vec()));
}

#[test]
fn barcode_correction_without_hamming_is_exact() {
    let cb = barcodes(b'_', 0, vec![vec!["AAAA", "TTTT"]]);
    assert_eq!(cb.correct(b"AAAT"), None);
    assert_eq!(cb.correct(b"TTTT"), Some(b"TTTT".to_vec()));
}

#[test]
fn barcode_correction_takes_first_close_entry() {
    let cb = barcodes(b'_', 1, vec![vec!["AAAC", "AAAG", "AAAT"]]);
    assert_eq!(cb.correct(b"AAAA"), Some(b"AAAC".to_vec()));
    let other = barcodes(b'_', 1, vec![vec!["AAAT", "AAAG", "AAAC"]]);
    assert_eq!(other.correct(b"AAAA"), Some(b"AAAT".to_vec()));
}

#[test]
fn barcode_correction_skips_entries_of_other_length() {
    let cb = barcodes(b'_', 2, vec![vec!["AA", "AAAAAA", "AATT"]]);
    assert_eq!(cb.correct(b"AAAA"), Some(b"AATT".to_vec()));
    assert_eq!(cb.correct(b"AAA"), None);
}

#[test]
fn barcode_correction_without_whitelists() {
    let cb = barcodes(b'_', 1, vec![]);
    assert_eq!(cb.correct(b"ANYTHING"), Some(b"ANYTHING".to_vec()));
    assert_eq!(cb.correct(b""), None);
}

#[test]
fn barcode_correction_uses_as_many_segments_as_whitelists() {
    let cb = barcodes(b'_', 0, vec![vec!["AAAA"]]);
    assert_eq!(cb.correct(b"AAAA_CCCC"), Some(b"AAAA".to_vec()));
    let two = barcodes(b'_', 0, vec![vec!["AAAA"], vec!["CCCC"]]);
    assert_eq!(two.correct(b"AAAA"), Some(b"AAAA".to_vec()));
}

#[test]
fn barcode_correction_with_empty_first_segment_drops_separator() {
    let cb = barcodes(b'_', 0, vec![vec![""], vec!["AAAA"]]);
    assert_eq!(cb.correct(b"_AAAA"), Some(b"AAAA".to_vec()));
}

#[test]
fn barcode_closest_by_hamming() {
    let cb = barcodes(b'_', 1, vec![]);
    let whitelist: Vec<Vec<u8>> = vec![b"GGGG".to_vec(), b"AAAT".to_vec()];
    assert_eq!(
        cb.find_closest_by_hamming(b"AAAA", &whitelist),
        Some(&b"AAAT".to_vec())
    );
    assert_eq!(cb.find_closest_by_hamming(b"CCCC", &whitelist), None);
    let off = barcodes(b'_', 0, vec![]);
    assert_eq!(off.find_closest_by_hamming(b"AAAT", &whitelist), None);
}

#[test]
fn barcode_check_accepts() {
    let cb = barcodes(b'_', 1, vec![]);
    assert!(cb.check().is_ok());
}

#[test]
fn whitelist_lines_are_trimmed_and_unique() {
    let entries = parse_whitelist(b"AAAA\n TTTT \r\nAAAA\nCCCC");
    assert_eq!(
        entries,
        vec![b"AAAA".to_vec(), b"TTTT".to_vec(), b"CCCC".to_vec()]
    );
    assert_eq!(parse_whitelist(b""), Vec::<Vec<u8>>::new());
    assert_eq!(parse_whitelist(b"AAAA\n"), vec![b"AAAA".to_vec()]);
    assert_eq!(
        parse_whitelist(b"AAAA\n\n"),
        vec![b"AAAA".to_vec(), b"".to_vec()]
    );
}

#[test]
fn barcode_init_takes_whitelists_from_files() {
    let mut cb = barcodes(b'_', 1, vec![]);
    cb.init(&vec![b"AAAA\nTTTT\n".to_vec(), b"CCCC\n".to_vec()]);
    assert_eq!(cb.whitelists.len(), 2);
    assert_eq!(cb.correct(b"AAAT_CCCC"), Some(b"AAAA_CCCC".to_vec()));
}
