use mbf_bam_quantifier::bam_ext::{Aux, AuxField, Cigar, Record, RecordError};
use mbf_bam_quantifier::extractors::{
    slice_group, ExtractError, ReadRegion, RegexName, SearchInName, Tag, UMIExtraction,
};
use mbf_bam_quantifier::filters::{
    any_removes, name_position, Filter, FilterError, KeepOrRemove, MultiMapper, NInUmi,
    NonPrimary, Read1, Read2, Reference, Spliced,
};

fn read() -> Record {
    Record {
        qname: b"read1_UMI:ACGTAC_more".to_vec(),
        tid: 0,
        pos: 100,
        mapq: 30,
        reverse: false,
        secondary: false,
        first_in_template: false,
        last_in_template: false,
        cigar: vec![Cigar::Match(20)],
        seq: b"ACGTACGTACGTACGTACGT".to_vec(),
        aux: Vec::new(),
    }
}

fn with_aux(tag: &[u8; 2], value: Aux) -> Record {
    let mut r = read();
    r.aux.push(AuxField { tag: *tag, value });
    r
}

#[test]
fn filter_multimapper() {
    let keep = MultiMapper {
        action: KeepOrRemove::Keep,
    };
    let remove = MultiMapper {
        action: KeepOrRemove::Remove,
    };
    let unique = with_aux(b"NH", Aux::U8(1));
    let multi = with_aux(b"NH", Aux::U16(3));
    assert!(!remove.remove_read(&unique));
    assert!(remove.remove_read(&multi));
    assert!(keep.remove_read(&unique));
    assert!(!keep.remove_read(&multi));
    // without the tag a read has one alignment
    assert!(!remove.remove_read(&read()));
    assert_eq!(read().no_of_alignments(), 1);
    assert_eq!(with_aux(b"NH", Aux::U32(70000)).no_of_alignments(), 70000);
}

#[test]
fn filter_flags() {
    let mut secondary = read();
    secondary.secondary = true;
    let mut first = read();
    first.first_in_template = true;
    let mut last = read();
    last.last_in_template = true;
    let non_primary = NonPrimary {
        action: KeepOrRemove::Remove,
    };
    assert!(non_primary.remove_read(&secondary));
    assert!(!non_primary.remove_read(&read()));
    assert!(!NonPrimary {
        action: KeepOrRemove::Keep
    }
    .remove_read(&secondary));
    let read1 = Read1 {
        action: KeepOrRemove::Remove,
    };
    assert!(read1.remove_read(&first));
    assert!(!read1.remove_read(&last));
    let read2 = Read2 {
        action: KeepOrRemove::Remove,
    };
    assert!(read2.remove_read(&last));
    assert!(!read2.remove_read(&first));
}

#[test]
fn filter_spliced_looks_behind_first_operation() {
    let mut spliced = read();
    spliced.cigar = vec![Cigar::Match(5), Cigar::RefSkip(100), Cigar::Match(5)];
    let mut leading = read();
    leading.cigar = vec![Cigar::RefSkip(100), Cigar::Match(5)];
    let remove = Spliced {
        action: KeepOrRemove::Remove,
    };
    let keep = Spliced {
        action: KeepOrRemove::Keep,
    };
    assert!(remove.remove_read(&spliced));
    assert!(!remove.remove_read(&read()));
    assert!(!remove.remove_read(&leading));
    assert!(!keep.remove_read(&spliced));
    assert!(keep.remove_read(&read()));
}

#[test]
fn filter_n_in_umi() {
    let remove = NInUmi {
        action: KeepOrRemove::Remove,
    };
    let keep = NInUmi {
        action: KeepOrRemove::Keep,
    };
    let with_n = b"ACNT".to_vec();
    let without = b"ACGT".to_vec();
    assert!(remove.remove_read_after_annotation(Some(&with_n)));
    assert!(!remove.remove_read_after_annotation(Some(&without)));
    assert!(!remove.remove_read_after_annotation(None));
    assert!(!keep.remove_read_after_annotation(Some(&with_n)));
    assert!(keep.remove_read_after_annotation(Some(&without)));
    let filter = Filter::NInUmi(remove);
    assert!(filter.remove_read_after_annotation(Some(&with_n)));
    assert!(!filter.remove_read(&read()));
    assert!(!Filter::Read1(Read1 {
        action: KeepOrRemove::Remove
    })
    .remove_read_after_annotation(Some(&with_n)));
}

#[test]
fn filter_reference() {
    let mut filter = Reference {
        action: KeepOrRemove::Keep,
        references: vec!["chr2".to_string(), "chr1".to_string()],
        tids: None,
    };
    assert!(!filter.remove_read(&read()));
    assert_eq!(filter.check(), Ok(()));
    let targets = vec!["chr1".to_string(), "chr2".to_string(), "chr3".to_string()];
    assert_eq!(filter.init(&targets), Ok(()));
    assert_eq!(filter.tids, Some(vec![1, 0]));
    assert!(filter.retains(&"chr1".to_string()));
    assert!(!filter.retains(&"chr3".to_string()));
    let mut unknown = Reference {
        action: KeepOrRemove::Remove,
        references: vec!["chr1".to_string(), "chrX".to_string()],
        tids: None,
    };
    assert_eq!(
        unknown.init(&targets),
        Err(FilterError::ReferenceNotFound(1))
    );
    assert_eq!(unknown.tids, None);
    assert!(!unknown.retains(&"chr1".to_string()));
    assert!(unknown.retains(&"chr3".to_string()));
    let empty = Reference {
        action: KeepOrRemove::Keep,
        references: Vec::new(),
        tids: None,
    };
    assert_eq!(empty.check(), Err(FilterError::NoReferences));
    assert_eq!(
        Filter::Reference(empty).check(),
        Err(FilterError::NoReferences)
    );
    assert_eq!(name_position(&targets, &"chr3".to_string()), Some(2));
    assert_eq!(name_position(&targets, &"chr4".to_string()), None);
}

#[test]
fn filter_list_removes_if_any_does() {
    let filters = vec![
        Filter::Read1(Read1 {
            action: KeepOrRemove::Remove,
        }),
        Filter::MultiMapper(MultiMapper {
            action: KeepOrRemove::Remove,
        }),
    ];
    assert!(!any_removes(&filters, &read()));
    assert!(any_removes(&filters, &with_aux(b"NH", Aux::U8(2))));
    let mut first = read();
    first.first_in_template = true;
    assert!(any_removes(&filters, &first));
    assert!(!any_removes(&Vec::new(), &first));
}

#[test]
fn record_checks() {
    assert_eq!(read().check(150), Ok(()));
    let mut unaligned = read();
    unaligned.pos = -1;
    assert_eq!(unaligned.check(150), Err(RecordError::PositionOutOfRange));
    assert_eq!(unaligned.corrected_pos(150), None);
    assert!(!unaligned.fits());
    let mut far = read();
    far.pos = 3_000_000_000;
    assert_eq!(far.check(150), Err(RecordError::PositionOutOfRange));
    let mut long = read();
    long.pos = 2_000_000_000;
    long.cigar = vec![Cigar::Match(10), Cigar::RefSkip(2_294_967_290)];
    assert_eq!(long.check(150), Err(RecordError::SpanOutOfRange));
    assert!(!long.fits());
    assert_eq!(
        read().check(3_000_000_000),
        Err(RecordError::SkipLimitOutOfRange)
    );
    assert_eq!(
        with_aux(b"NH", Aux::I32(2)).check(150),
        Err(RecordError::AlignmentCountNotUnsigned)
    );
    assert!(!with_aux(b"NH", Aux::String("2".to_string())).alignment_count_readable());
    let mut hard = read();
    hard.cigar = vec![Cigar::HardClip(3), Cigar::SoftClip(4), Cigar::Match(10)];
    assert_eq!(hard.leading_softclips(), 4);
    assert_eq!(hard.corrected_pos(10), Some(96));
    let mut clipped = read();
    clipped.pos = 2;
    clipped.cigar = vec![Cigar::SoftClip(5), Cigar::Match(10)];
    assert_eq!(clipped.corrected_pos(10), Some(-3));
    assert_eq!(read().leading_softclips(), 0);
}

#[test]
fn record_aux_takes_first_field() {
    let mut r = with_aux(b"XX", Aux::U8(1));
    r.aux.push(AuxField {
        tag: *b"XX",
        value: Aux::U8(2),
    });
    assert!(matches!(r.aux(b"XX"), Some(Aux::U8(1))));
    assert!(r.aux(b"YY").is_none());
}

#[test]
fn record_blocks_with_all_operations() {
    let mut r = read();
    r.pos = 10;
    r.cigar = vec![
        Cigar::HardClip(2),
        Cigar::SoftClip(3),
        Cigar::Equal(4),
        Cigar::Ins(5),
        Cigar::Diff(1),
        Cigar::Del(2),
        Cigar::Pad(7),
        Cigar::RefSkip(10),
        Cigar::Match(3),
    ];
    assert_eq!(r.blocks(), vec![(10, 14), (14, 15), (27, 30)]);
    assert_eq!(r.introns(), vec![(17, 27)]);
    assert!(r.fits());
}

#[test]
fn extract_from_regex() {
    let extractor = RegexName::new("_UMI:([ACGT]+)_").unwrap();
    assert_eq!(extractor.extract(&read()), Ok(Some(b"ACGTAC".to_vec())));
    let mut other = read();
    other.qname = b"no umi here".to_vec();
    assert_eq!(extractor.extract(&other), Err(ExtractError::NoMatch));
    // a match in which the group takes no part
    let optional = RegexName::new("read(X)?").unwrap();
    assert_eq!(optional.extract(&read()), Ok(None));
    // a pattern without a group
    let plain = RegexName::new("read").unwrap();
    assert_eq!(plain.extract(&read()), Ok(None));
    assert!(RegexName::new("(unclosed").is_none());
    assert_eq!(
        UMIExtraction::RegexName(extractor).extract(&read()),
        Ok(Some(b"ACGTAC".to_vec()))
    );
}

#[test]
fn extract_capture_group_slices() {
    assert_eq!(
        slice_group(b"abcdef", Some(Some((1, 3)))),
        Ok(Some(b"bc".to_vec()))
    );
    assert_eq!(slice_group(b"abcdef", Some(Some((2, 2)))), Ok(Some(Vec::new())));
    assert_eq!(slice_group(b"abcdef", Some(None)), Ok(None));
    assert_eq!(slice_group(b"abcdef", None), Err(ExtractError::NoMatch));
    assert_eq!(
        slice_group(b"abcdef", Some(Some((3, 7)))),
        Err(ExtractError::GroupOutOfRange)
    );
    assert_eq!(
        slice_group(b"abcdef", Some(Some((4, 2)))),
        Err(ExtractError::GroupOutOfRange)
    );
}

#[test]
fn extract_search_in_name() {
    let extractor = SearchInName {
        search: b"UMI".to_vec(),
        skip: 1,
        len: 6,
    };
    assert_eq!(extractor.extract(&read()), Ok(Some(b"ACGTAC".to_vec())));
    let too_long = SearchInName {
        search: b"UMI".to_vec(),
        skip: 1,
        len: 12,
    };
    assert_eq!(too_long.extract(&read()), Ok(None));
    let to_the_end = SearchInName {
        search: b"UMI".to_vec(),
        skip: 1,
        len: 11,
    };
    assert_eq!(to_the_end.extract(&read()), Ok(Some(b"ACGTAC_more".to_vec())));
    let missing = SearchInName {
        search: b"BARCODE".to_vec(),
        skip: 0,
        len: 1,
    };
    assert_eq!(missing.extract(&read()), Ok(None));
    let mut twice = read();
    twice.qname = b"x_ab_y_ab_z".to_vec();
    let first = SearchInName {
        search: b"ab".to_vec(),
        skip: 0,
        len: 2,
    };
    assert_eq!(first.extract(&twice), Ok(Some(b"_y".to_vec())));
    let huge = SearchInName {
        search: b"ab".to_vec(),
        skip: usize::MAX,
        len: usize::MAX,
    };
    assert_eq!(huge.extract(&twice), Ok(None));
}

#[test]
fn extract_read_region() {
    let extractor = ReadRegion { start: 2, stop: 6 };
    assert!(extractor.validate());
    assert!(!ReadRegion { start: 6, stop: 6 }.validate());
    assert_eq!(extractor.extract(&read()), Ok(Some(b"GTAC".to_vec())));
    assert_eq!(
        ReadRegion { start: 0, stop: 20 }.extract(&read()),
        Ok(Some(b"ACGTACGTACGTACGTACGT".to_vec()))
    );
    assert_eq!(
        ReadRegion { start: 2, stop: 21 }.extract(&read()),
        Err(ExtractError::RegionBeyondRead {
            stop: 21,
            read_length: 20
        })
    );
}

#[test]
fn extract_tag() {
    let extractor = Tag { tag: *b"RX" };
    assert_eq!(
        extractor.extract(&with_aux(b"RX", Aux::String("ACGT".to_string()))),
        Ok(Some(b"ACGT".to_vec()))
    );
    assert_eq!(extractor.extract(&read()), Err(ExtractError::TagMissing));
    assert_eq!(
        extractor.extract(&with_aux(b"RX", Aux::U8(3))),
        Err(ExtractError::TagNotString)
    );
    assert_eq!(
        UMIExtraction::Tag(extractor).extract(&with_aux(b"RX", Aux::String("AC".to_string()))),
        Ok(Some(b"AC".to_vec()))
    );
}
