use mbf_bam_quantifier::config::DuplicateHandling;
use mbf_bam_quantifier::engine::region_index::{
    build_trees_from_gtf, build_trees_from_gtf_merged, BuildError,
};
use mbf_bam_quantifier::gtf::{
    duplicate_mask, vector_new_empty_push, DuplicateError, GTFEntrys, Strand, VecAttribute,
};
use mbf_bam_quantifier::gtf_parse::{parse_line, parse_minimal, GtfError, ParseError};

fn features() -> Vec<String> {
    vec!["gene".to_string(), "exon".to_string()]
}

fn tags() -> Vec<String> {
    vec!["gene_id".to_string(), "transcript_id".to_string()]
}

fn entries(rows: &[(&str, u64, u64, &str)]) -> GTFEntrys {
    let mut e = GTFEntrys::new();
    let mut ids = Vec::new();
    for (chr, start, end, id) in rows {
        e.seqname.push(chr);
        e.start.push(*start);
        e.end.push(*end);
        e.strand.push(Strand::Plus);
        ids.push(id.to_string());
        e.count += 1;
    }
    e.vec_attributes.push(VecAttribute {
        name: "gene_id".to_string(),
        values: ids,
    });
    e
}

fn ids(e: &GTFEntrys) -> Vec<String> {
    e.vec_attributes[0].values.clone()
}

#[test]
fn gtf_line_is_read() {
    let row = parse_line(
        b"chr1\thavana\tgene\t11869\t14409\t.\t+\t.\tgene_id \"ENSG1\"; gene_name \"DDX11L1\"; transcript_id \"T1\" ;\n",
        &features(),
        &tags(),
    )
    .unwrap()
    .unwrap();
    assert_eq!(row.seqname, "chr1");
    assert_eq!(row.feature_type, "gene");
    assert_eq!(row.start, 11868);
    assert_eq!(row.end, 14409);
    assert_eq!(row.strand, Strand::Plus);
    let found: Vec<(&str, &str)> = row
        .tags
        .iter()
        .map(|t| (t.key.as_str(), t.value.as_str()))
        .collect();
    assert_eq!(found, vec![("gene_id", "ENSG1"), ("transcript_id", "T1")]);
}

#[test]
fn gtf_lines_that_give_nothing() {
    assert!(parse_line(b"", &features(), &tags()).unwrap().is_none());
    assert!(parse_line(b"# comment", &features(), &tags())
        .unwrap()
        .is_none());
    assert!(
        parse_line(b"chr1\tsrc\tCDS\tx\ty\n", &features(), &tags())
            .unwrap()
            .is_none()
    );
    assert!(parse_line(
        b"chr1\tsrc\tgene\t1\t2\t.\t-\t.\tgene_name \"x\";\n",
        &features(),
        &tags()
    )
    .unwrap()
    .is_none());
    // the key of the last attribute takes the line feed with it
    assert!(
        parse_line(b"chr1\tsrc\tgene\t1\t2\t.\t+\t.\tgene_id\n", &features(), &tags())
            .unwrap()
            .is_none()
    );
}

#[test]
fn gtf_strands() {
    for (symbol, strand) in [
        ("+", Strand::Plus),
        ("-", Strand::Minus),
        (".", Strand::Unstranded),
        ("_", Strand::Unstranded),
    ] {
        let line = format!("chr1\tsrc\tgene\t1\t2\t.\t{}\t.\tgene_id x\n", symbol);
        let row = parse_line(line.as_bytes(), &features(), &tags())
            .unwrap()
            .unwrap();
        assert_eq!(row.strand, strand);
        assert_eq!(Strand::from_symbol(symbol), Some(strand));
    }
    assert_eq!(Strand::from_symbol("x"), None);
    assert_eq!(Strand::from_symbol(""), None);
    assert_eq!(Strand::Plus.as_symbol(), "+");
    assert_eq!(Strand::Minus.as_symbol(), "-");
    assert_eq!(Strand::Unstranded.as_symbol(), ".");
    assert_eq!(Strand::Plus.sign(), 1);
    assert_eq!(Strand::Minus.sign(), -1);
    assert_eq!(Strand::Unstranded.sign(), 0);
}

#[test]
fn gtf_line_errors() {
    let cases: Vec<(&[u8], ParseError)> = vec![
        (b"chr1\tsrc\tgene\t1\t2\t.\t+\t.\tgene_id x", ParseError::NoNewline),
        (b"\xff\tsrc\tgene\t1\t2\t.\t+\t.\tgene_id x\n", ParseError::NotUtf8),
        (b"chr1\n", ParseError::NoSource),
        (b"chr1\tsrc\n", ParseError::NoFeatureType),
        (b"chr1\tsrc\tgene", ParseError::NoNewline),
        (b"chr1\tsrc\tgene\tx\t2\t.\t+\t.\tgene_id x\n", ParseError::StartNotInt),
        (b"chr1\tsrc\tgene\t\t2\t.\t+\t.\tgene_id x\n", ParseError::StartNotInt),
        (b"chr1\tsrc\tgene\t-1\t2\t.\t+\t.\tgene_id x\n", ParseError::StartNotInt),
        (
            b"chr1\tsrc\tgene\t18446744073709551616\t2\t.\t+\t.\tgene_id x\n",
            ParseError::StartNotInt,
        ),
        (b"chr1\tsrc\tgene\t0\t2\t.\t+\t.\tgene_id x\n", ParseError::StartBelowOne),
        (b"chr1\tsrc\tgene\t1\t2.5\t.\t+\t.\tgene_id x\n", ParseError::EndNotInt),
        (b"chr1\tsrc\tgene\t1\t2\t.\t?\t.\tgene_id x\n", ParseError::InvalidStrand),
        (b"chr1\tsrc\tgene\t1\t2\t.\t+\t.\tgene_id;\n", ParseError::MissingAttributeValue),
        (b"\n", ParseError::NoSource),
        (
            b"chr1\tsrc\tgene\t1\t2\t.\t+\t.\tgene_id a; gene_id b;\n",
            ParseError::DuplicateAttribute,
        ),
    ];
    for (line, error) in cases {
        assert_eq!(
            parse_line(line, &features(), &tags()).err(),
            Some(error),
            "{:?}",
            String::from_utf8_lossy(line)
        );
    }
    assert_eq!(
        parse_line(b"chr1\tsrc\tgene\t5\n", &features(), &tags()).err(),
        Some(ParseError::StartNotInt)
    );
    assert_eq!(
        parse_line(b"chr1\tsrc\tgene\t5\t7\t.\n", &features(), &tags()).err(),
        Some(ParseError::NoStrand)
    );
    assert_eq!(
        parse_line(b"chr1\tsrc\tgene\t5\t7\t.\t+\n", &features(), &tags()).err(),
        Some(ParseError::InvalidStrand)
    );
    assert_eq!(
        parse_line(b"chr1\tsrc\tgene\t5\t7\n", &features(), &tags()).err(),
        Some(ParseError::EndNotInt)
    );
    assert_eq!(
        parse_line(b"chr1\tsrc\tgene\t5\t7\t.\t+\t0\n", &features(), &tags()).err(),
        Some(ParseError::NoAttributes)
    );
}

#[test]
fn gtf_plus_sign_and_value_forms() {
    let row = parse_line(
        b"chr1\tsrc\tgene\t+5\t7\t.\t+\t.\t  gene_id   \"\"a b\"\"  ;;transcript_id t\n",
        &features(),
        &tags(),
    )
    .unwrap()
    .unwrap();
    assert_eq!(row.start, 4);
    let found: Vec<(&str, &str)> = row
        .tags
        .iter()
        .map(|t| (t.key.as_str(), t.value.as_str()))
        .collect();
    assert_eq!(found, vec![("gene_id", "  \"\"a b"), ("transcript_id", "t")]);
}

#[test]
fn gtf_file_is_read_by_feature() {
    let text = b"# header\n\
chr1\tsrc\tgene\t1\t100\t.\t+\t.\tgene_id \"g1\";\n\
chr1\tsrc\texon\t1\t50\t.\t+\t.\tgene_id \"g1\"; transcript_id \"t1\";\n\
chr2\tsrc\tgene\t5\t10\t.\t-\t.\tgene_id \"g2\";\n\
chr1\tsrc\texon\t60\t100\t.\t+\t.\tgene_id \"g1\";\n\
chr2\tsrc\tCDS\t5\t10\t.\t-\t.\tgene_id \"g2\";\n";
    let table = parse_minimal(text, &features(), &tags()).unwrap();
    assert_eq!(table.len(), 2);
    assert_eq!(table[0].feature, "gene");
    assert_eq!(table[1].feature, "exon");
    let genes = &table[0].entries;
    assert_eq!(genes.start, vec![0, 4]);
    assert_eq!(genes.end, vec![100, 10]);
    assert_eq!(genes.strand, vec![Strand::Plus, Strand::Minus]);
    assert_eq!(genes.seqname.values, vec![0, 1]);
    assert_eq!(genes.seqname.cats, vec!["chr1", "chr2"]);
    assert_eq!(genes.count, 2);
    assert_eq!(genes.vec_attributes.len(), 1);
    assert_eq!(genes.vec_attributes[0].values, vec!["g1", "g2"]);
    let exons = &table[1].entries;
    assert_eq!(exons.start, vec![0, 59]);
    assert_eq!(exons.vec_attributes[0].name, "gene_id");
    assert_eq!(exons.vec_attributes[0].values, vec!["g1", "g1"]);
    assert_eq!(exons.vec_attributes[1].name, "transcript_id");
    assert_eq!(exons.vec_attributes[1].values, vec!["t1", ""]);
}

#[test]
fn gtf_file_errors_name_the_line() {
    let text = b"chr1\tsrc\tgene\t1\t100\t.\t+\t.\tgene_id \"g1\";\n# x\nchr1\tsrc\tgene\t0\t1\t.\t+\t.\tgene_id a\n";
    assert_eq!(
        parse_minimal(text, &features(), &tags()).err(),
        Some(GtfError::Line(2, ParseError::StartBelowOne))
    );
    assert_eq!(
        parse_minimal(b"chr1\tsrc\tgene\t1\t100\t.\t+\t.\tgene_id g", &features(), &tags()).err(),
        Some(GtfError::Line(0, ParseError::NoNewline))
    );
    assert_eq!(parse_minimal(b"", &features(), &tags()).unwrap().len(), 0);
    assert_eq!(parse_minimal(b"# only\n#comments", &features(), &tags()).unwrap().len(), 0);
}

#[test]
fn gtf_new_is_empty() {
    let e = GTFEntrys::new();
    assert_eq!(e.start.len(), 0);
    assert_eq!(e.seqname.len(), 0);
    assert_eq!(e.vec_attributes.len(), 0);
    assert_eq!(e.cat_attributes.len(), 0);
    assert_eq!(e.count, 0);
    assert_eq!(
        vector_new_empty_push(2, "x".to_string()),
        vec!["".to_string(), "".to_string(), "x".to_string()]
    );
    assert_eq!(vector_new_empty_push(0, "x".to_string()), vec!["x".to_string()]);
}

#[test]
fn gtf_filter_keeps_marked_rows() {
    let mut e = entries(&[
        ("chr1", 0, 10, "a"),
        ("chr1", 5, 15, "b"),
        ("chr2", 0, 10, "c"),
        ("chr2", 7, 9, "d"),
    ]);
    e.filter(&[true, false, false, true]);
    assert_eq!(e.start, vec![0, 7]);
    assert_eq!(e.end, vec![10, 9]);
    assert_eq!(e.seqname.values, vec![0, 1]);
    assert_eq!(e.strand.len(), 2);
    assert_eq!(ids(&e), vec!["a", "d"]);
    let mut untouched = entries(&[]);
    untouched.filter(&[]);
    assert_eq!(untouched.start.len(), 0);
}

#[test]
fn gtf_collapse_removes_duplicates() {
    let rows = [
        ("chr1", 0, 10, "a"),
        ("chr1", 0, 10, "b"),
        ("chr1", 0, 10, "a"),
        ("chr1", 0, 11, "a"),
        ("chr2", 0, 10, "b"),
        ("chr1", 0, 10, "a"),
    ];
    let mut e = entries(&rows);
    assert_eq!(
        duplicate_mask(&e.start, &e.end, &e.vec_attributes[0].values),
        vec![false, false, true, false, true, true]
    );
    assert_eq!(e.collapse_duplicates("gene_id"), Ok(()));
    // three rows repeated an earlier one
    assert_eq!(e.start.len(), rows.len() - 3);
    assert_eq!(ids(&e), vec!["a", "b", "a"]);
    assert_eq!(e.end, vec![10, 10, 11]);
    let mut seen = std::collections::HashSet::new();
    for i in 0..e.start.len() {
        assert!(seen.insert((e.start[i], e.end[i], ids(&e)[i].clone())));
    }
    assert_eq!(
        e.collapse_duplicates("transcript_id"),
        Err(DuplicateError::AttributeNotFound)
    );
}

#[test]
fn gtf_rename_numbers_duplicates() {
    let mut e = entries(&[
        ("chr1", 0, 10, "a"),
        ("chr1", 0, 10, "b"),
        ("chr1", 0, 10, "a"),
        ("chr1", 0, 11, "a"),
        ("chr1", 0, 10, "a"),
    ]);
    assert_eq!(
        e.handle_duplicates(DuplicateHandling::Rename, "gene_id"),
        Ok(())
    );
    assert_eq!(ids(&e), vec!["a", "b", "a-2", "a", "a-4"]);
    assert_eq!(e.start.len(), 5);
    let mut seen = std::collections::HashSet::new();
    for i in 0..e.start.len() {
        assert!(seen.insert((e.start[i], e.end[i], ids(&e)[i].clone())));
    }
    let mut collapse = entries(&[("chr1", 0, 10, "a"), ("chr1", 0, 10, "a")]);
    assert_eq!(
        collapse.handle_duplicates(DuplicateHandling::Collapse, "gene_id"),
        Ok(())
    );
    assert_eq!(ids(&collapse), vec!["a"]);
    assert_eq!(
        collapse.rename_duplicates("nope"),
        Err(DuplicateError::AttributeNotFound)
    );
}

#[test]
fn trees_number_identifiers_per_reference() {
    let e = entries(&[
        ("chr1", 0, 10, "a"),
        ("chr2", 0, 10, "x"),
        ("chr1", 20, 30, "b"),
        ("chr1", 25, 40, "a"),
    ]);
    let trees = build_trees_from_gtf("gene_id", &e).unwrap();
    assert_eq!(trees.len(), 2);
    assert_eq!(trees[0].chr, "chr1");
    assert_eq!(trees[0].gene_ids, vec!["a", "b"]);
    assert_eq!(trees[1].chr, "chr2");
    assert_eq!(trees[1].gene_ids, vec!["x"]);
    let mut found: Vec<(u32, u32, u32)> = trees[0]
        .find(5, 27)
        .iter()
        .map(|r| (r.start, r.end, r.id_no))
        .collect();
    found.sort();
    assert_eq!(found, vec![(0, 10, 0), (20, 30, 1), (25, 40, 0)]);
    assert!(trees[0].find(10, 20).is_empty());
    assert!(trees[0].find(15, 15).is_empty());
}

#[test]
fn trees_refuse_bad_rows() {
    assert_eq!(
        build_trees_from_gtf("transcript_id", &entries(&[("chr1", 0, 10, "a")])).err(),
        Some(BuildError::MissingIdAttribute)
    );
    assert_eq!(
        build_trees_from_gtf("gene_id", &entries(&[("chr1", 0, 10, "a"), ("chr1", 9, 3, "b")]))
            .err(),
        Some(BuildError::InvalidInterval(1))
    );
    assert_eq!(
        build_trees_from_gtf("gene_id", &entries(&[("chr1", 5_000_000_000, 5_000_000_010, "a")]))
            .err(),
        Some(BuildError::CoordinateOutOfRange(0))
    );
    assert_eq!(
        build_trees_from_gtf_merged("gene_id", &entries(&[("chr1", 0, 4294967295, "a")])).err(),
        Some(BuildError::CoordinateOutOfRange(0))
    );
    assert_eq!(
        build_trees_from_gtf_merged("nope", &entries(&[("chr1", 0, 10, "a")])).err(),
        Some(BuildError::MissingIdAttribute)
    );
}

#[test]
fn gtf_columns_come_in_order_of_first_appearance() {
    let text = b"chr1\tsrc\texon\t1\t50\t.\t+\t.\ttranscript_id \"t1\";\n\
chr1\tsrc\texon\t60\t70\t.\t+\t.\tgene_id \"g1\"; transcript_id \"t2\";\n\
chr1\tsrc\texon\t80\t90\t.\t+\t.\tgene_id \"g2\";\n";
    let table = parse_minimal(text, &features(), &tags()).unwrap();
    assert_eq!(table.len(), 1);
    let exons = &table[0].entries;
    assert_eq!(exons.vec_attributes.len(), 2);
    assert_eq!(exons.vec_attributes[0].name, "transcript_id");
    assert_eq!(exons.vec_attributes[0].values, vec!["t1", "t2", ""]);
    assert_eq!(exons.vec_attributes[1].name, "gene_id");
    assert_eq!(exons.vec_attributes[1].values, vec!["", "g1", "g2"]);
    assert_eq!(exons.start, vec![0, 59, 79]);
}
