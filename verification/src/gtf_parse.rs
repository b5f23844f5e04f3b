use crate::bytes::{
    bytes_eq, parse_u64, spec_parse_u64, spec_segment_end, spec_segments, spec_strip_end,
    spec_strip_start, spec_trim_end, spec_trim_start, split_ranges, strip_both, trim_end,
    trim_start,
};
use crate::gtf::{vector_new_empty_push, GTFEntrys, Strand, VecAttribute};
use crate::text::{clone_string, spec_added_once, string_from_utf8};
use vstd::prelude::*;
use vstd::slice::slice_subrange;
use vstd::string::*;
use vstd::utf8::*;

verus! {

/// Why a line of an annotation file cannot be read.
#[derive(Debug, Clone, Copy, PartialEq, Eq, Structural)]
pub enum ParseError {
    NotUtf8,
    /// The line does not end with a line feed.
    NoNewline,
    NoSource,
    NoFeatureType,
    NoStart,
    StartNotInt,
    /// Starts are counted from 1.
    StartBelowOne,
    NoEnd,
    EndNotInt,
    NoScore,
    NoStrand,
    InvalidStrand,
    NoFrame,
    NoAttributes,
    /// An attribute that is asked for has a key and no value.
    MissingAttributeValue,
    /// An attribute that is asked for stands twice in the line.
    DuplicateAttribute,
}

/// An attribute of a row: key and value.
#[derive(Debug)]
pub struct Attribute {
    pub key: String,
    pub value: String,
}

/// What is kept of one row of an annotation file.
#[derive(Debug)]
pub struct ParsedRow {
    pub seqname: String,
    pub feature_type: String,
    /// 0-based start.
    pub start: u64,
    /// End, exclusive.
    pub end: u64,
    pub strand: Strand,
    pub tags: Vec<Attribute>,
}

/// A row as plain values, with its texts as bytes.
pub struct RowBytes {
    pub seqname: Seq<u8>,
    pub feature_type: Seq<u8>,
    pub start: u64,
    pub end: u64,
    pub strand: Strand,
    pub tags: Seq<(Seq<u8>, Seq<u8>)>,
}

/// Whether one of the names is written with the bytes `name`.
pub open spec fn spec_accepted(names: Seq<String>, name: Seq<u8>) -> bool {
    exists|i: int| 0 <= i < names.len() && encode_utf8((#[trigger] names[i])@) == name
}

fn accepted(names: &Vec<String>, name: &[u8]) -> (r: bool)
    ensures
        r == spec_accepted(names@, name@),
{
    let mut i: usize = 0;
    while i < names.len()
        invariant
            0 <= i <= names.len(),
            forall|j: int| 0 <= j < i ==> encode_utf8((#[trigger] names@[j])@) != name@,
        decreases names.len() - i,
    {
        if bytes_eq(names[i].as_str().as_bytes(), name) {
            return true;
        }
        i = i + 1;
    }
    false
}

/// The strand that a column names.
pub open spec fn spec_strand_of(text: Seq<u8>) -> Option<Strand> {
    if text == seq![43u8] {
        Some(Strand::Plus)
    } else if text == seq![45u8] {
        Some(Strand::Minus)
    } else if text == seq![46u8] || text == seq![95u8] {
        Some(Strand::Unstranded)
    } else {
        None
    }
}

fn strand_of(text: &[u8]) -> (r: Option<Strand>)
    ensures
        r == spec_strand_of(text@),
{
    if text.len() != 1 {
        return None;
    }
    let b = text[0];
    assert(text@ =~= seq![b]);
    if b == 43 {
        Some(Strand::Plus)
    } else if b == 45 {
        Some(Strand::Minus)
    } else if b == 46 || b == 95 {
        assert(seq![b][0] != seq![43u8][0]);
        assert(seq![b][0] != seq![45u8][0]);
        Some(Strand::Unstranded)
    } else {
        assert(seq![b][0] != seq![43u8][0]);
        assert(seq![b][0] != seq![45u8][0]);
        assert(seq![b][0] != seq![46u8][0]);
        assert(seq![b][0] != seq![95u8][0]);
        None
    }
}

/// The pieces of the attributes column: what stands between semicolons; an
/// empty piece after the last semicolon does not count.
pub open spec fn spec_pieces(attributes: Seq<u8>) -> Seq<Seq<u8>> {
    let parts = spec_segments(attributes, 59);
    if parts.len() > 0 && parts.last().len() == 0 {
        parts.drop_last()
    } else {
        parts
    }
}

/// Key and value of one piece: the key goes up to the first blank, the
/// value is what follows, without white space at its end and without the
/// double quotes around it. A piece of white space has neither.
pub open spec fn spec_key_value(piece: Seq<u8>) -> Option<(Seq<u8>, Option<Seq<u8>>)> {
    let p = spec_trim_start(piece);
    if p.len() == 0 {
        None
    } else {
        let k = spec_segment_end(p, 32);
        if 0 <= k < p.len() {
            Some(
                (
                    p.take(k),
                    Some(spec_strip_end(spec_strip_start(spec_trim_end(p.skip(k + 1)), 34), 34)),
                ),
            )
        } else {
            Some((p, None))
        }
    }
}

/// The attributes among the first `n` pieces whose keys are asked for, in
/// order.
pub open spec fn spec_tags(pieces: Seq<Seq<u8>>, wanted: Seq<String>, n: int) -> Result<
    Seq<(Seq<u8>, Seq<u8>)>,
    ParseError,
>
    decreases n,
{
    if n <= 0 {
        Ok(Seq::empty())
    } else {
        match spec_tags(pieces, wanted, n - 1) {
            Err(e) => Err(e),
            Ok(before) => match spec_key_value(pieces[n - 1]) {
                None => Ok(before),
                Some((key, value)) => if !spec_accepted(wanted, key) {
                    Ok(before)
                } else {
                    match value {
                        None => Err(ParseError::MissingAttributeValue),
                        Some(v) => if valid_utf8(key) && valid_utf8(v) {
                            Ok(before.push((key, v)))
                        } else {
                            Err(ParseError::NotUtf8)
                        },
                    }
                },
            },
        }
    }
}

/// Whether two attributes have the same key.
pub open spec fn spec_repeated_key(tags: Seq<(Seq<u8>, Seq<u8>)>) -> bool {
    exists|i: int, j: int| 0 <= i < j < tags.len() && (#[trigger] tags[i]).0 == (#[trigger] tags[j]).0
}

/// What a line of an annotation file gives: nothing for an empty line, a
/// comment, a feature type that is not asked for, or a row without any
/// attribute that is asked for; else the row, with its start counted from
/// zero.
pub open spec fn spec_parse_line(
    line: Seq<u8>,
    accepted_features: Seq<String>,
    accepted_tags: Seq<String>,
) -> Result<Option<RowBytes>, ParseError> {
    let fields = spec_segments(line, 9);
    if line.len() == 0 || line[0] == 35 {
        Ok(None)
    } else if !valid_utf8(line) {
        Err(ParseError::NotUtf8)
    } else if line.last() != 10 {
        Err(ParseError::NoNewline)
    } else if fields.len() < 2 {
        Err(ParseError::NoSource)
    } else if fields.len() < 3 {
        Err(ParseError::NoFeatureType)
    } else if !spec_accepted(accepted_features, fields[2]) {
        Ok(None)
    } else if fields.len() < 4 {
        Err(ParseError::NoStart)
    } else if spec_parse_u64(fields[3]).is_none() {
        Err(ParseError::StartNotInt)
    } else if spec_parse_u64(fields[3]).unwrap() == 0 {
        Err(ParseError::StartBelowOne)
    } else if fields.len() < 5 {
        Err(ParseError::NoEnd)
    } else if spec_parse_u64(fields[4]).is_none() {
        Err(ParseError::EndNotInt)
    } else if fields.len() < 6 {
        Err(ParseError::NoScore)
    } else if fields.len() < 7 {
        Err(ParseError::NoStrand)
    } else if spec_strand_of(fields[6]).is_none() {
        Err(ParseError::InvalidStrand)
    } else if fields.len() < 8 {
        Err(ParseError::NoFrame)
    } else if fields.len() < 9 {
        Err(ParseError::NoAttributes)
    } else {
        let pieces = spec_pieces(fields[8]);
        match spec_tags(pieces, accepted_tags, pieces.len() as int) {
            Err(e) => Err(e),
            Ok(tags) => if tags.len() == 0 {
                Ok(None)
            } else if spec_repeated_key(tags) {
                Err(ParseError::DuplicateAttribute)
            } else if !valid_utf8(fields[0]) || !valid_utf8(fields[2]) {
                Err(ParseError::NotUtf8)
            } else {
                Ok(
                    Some(
                        RowBytes {
                            seqname: fields[0],
                            feature_type: fields[2],
                            start: (spec_parse_u64(fields[3]).unwrap() - 1) as u64,
                            end: spec_parse_u64(fields[4]).unwrap(),
                            strand: spec_strand_of(fields[6]).unwrap(),
                            tags,
                        },
                    ),
                )
            },
        }
    }
}

/// Whether a row is what the plain values say.
pub open spec fn row_matches(row: ParsedRow, want: RowBytes) -> bool {
    &&& row.seqname@ == decode_utf8(want.seqname)
    &&& row.feature_type@ == decode_utf8(want.feature_type)
    &&& row.start == want.start
    &&& row.end == want.end
    &&& row.strand == want.strand
    &&& row.tags@.len() == want.tags.len()
    &&& forall|i: int|
        0 <= i < row.tags@.len() ==> (#[trigger] row.tags@[i]).key@ == decode_utf8(want.tags[i].0)
            && row.tags@[i].value@ == decode_utf8(want.tags[i].1)
}

/// Whether what was read of a line is what the line gives.
pub open spec fn parsed_matches(
    got: Result<Option<ParsedRow>, ParseError>,
    want: Result<Option<RowBytes>, ParseError>,
) -> bool {
    match (got, want) {
        (Ok(Some(row)), Ok(Some(bytes))) => row_matches(row, bytes),
        (Ok(None), Ok(None)) => true,
        (Err(a), Err(b)) => a == b,
        _ => false,
    }
}

/// The attributes of the attributes column whose keys are asked for.
fn parse_tags(attributes: &[u8], accepted_tags: &Vec<String>) -> (r: Result<
    (Vec<Attribute>, Ghost<Seq<(Seq<u8>, Seq<u8>)>>),
    ParseError,
>)
    ensures
        match (r, spec_tags(
            spec_pieces(attributes@),
            accepted_tags@,
            spec_pieces(attributes@).len() as int,
        )) {
            (Ok((tags, bytes)), Ok(want)) => bytes@ == want && tags@.len() == want.len() && forall|
                i: int,
            |
                0 <= i < tags@.len() ==> (#[trigger] tags@[i]).key@ == decode_utf8(want[i].0)
                    && tags@[i].value@ == decode_utf8(want[i].1) && encode_utf8(tags@[i].key@)
                    == want[i].0,
            (Err(a), Err(b)) => a == b,
            _ => false,
        },
{
    broadcast use decode_utf8_encode_utf8;

    let ranges = split_ranges(attributes, 59);
    let ghost parts = spec_segments(attributes@, 59);
    let ghost pieces = spec_pieces(attributes@);
    let count = if ranges.len() > 0 && ranges[ranges.len() - 1].0 == ranges[ranges.len() - 1].1 {
        ranges.len() - 1
    } else {
        ranges.len()
    };
    proof {
        if ranges@.len() > 0 {
            let last = ranges@[ranges@.len() - 1];
            assert(attributes@.subrange(last.0 as int, last.1 as int) == parts.last());
        }
        assert(count == pieces.len());
        assert forall|k: int| 0 <= k < count implies attributes@.subrange(
            (#[trigger] ranges@[k]).0 as int,
            ranges@[k].1 as int,
        ) == pieces[k] by {}
    }
    let mut tags: Vec<Attribute> = Vec::new();
    let ghost mut bytes: Seq<(Seq<u8>, Seq<u8>)> = Seq::empty();
    let mut n: usize = 0;
    while n < count
        invariant
            0 <= n <= count,
            pieces == spec_pieces(attributes@),
            count == pieces.len(),
            count <= ranges@.len(),
            forall|k: int|
                0 <= k < count ==> (#[trigger] ranges@[k]).0 <= ranges@[k].1 <= attributes@.len()
                    && attributes@.subrange(ranges@[k].0 as int, ranges@[k].1 as int) == pieces[k],
            spec_tags(pieces, accepted_tags@, n as int) == Ok::<
                Seq<(Seq<u8>, Seq<u8>)>,
                ParseError,
            >(bytes),
            tags@.len() == bytes.len(),
            forall|i: int|
                0 <= i < tags@.len() ==> valid_utf8((#[trigger] bytes[i]).0) && valid_utf8(
                    bytes[i].1,
                ),
            forall|i: int|
                0 <= i < tags@.len() ==> (#[trigger] tags@[i]).key@ == decode_utf8(bytes[i].0)
                    && tags@[i].value@ == decode_utf8(bytes[i].1) && encode_utf8(tags@[i].key@)
                    == bytes[i].0,
        decreases count - n,
    {
        let (from, to) = ranges[n];
        let ghost piece = pieces[n as int];
        let start = trim_start(attributes, from, to);
        let ghost p = attributes@.subrange(start as int, to as int);
        assert(p == spec_trim_start(piece));
        if start < to {
            let mut k: usize = start;
            while k < to && attributes[k] != 32
                invariant
                    start <= k <= to <= attributes@.len(),
                    forall|i: int| start <= i < k ==> attributes@[i] != 32,
                decreases to - k,
            {
                k = k + 1;
            }
            proof {
                assert forall|i: int| 0 <= i < k - start implies p[i] != 32 by {
                    assert(p[i] == attributes@[start + i]);
                }
                if k < to {
                    assert(p[k - start] == attributes@[k as int]);
                }
                crate::bytes::lemma_segment_end_is(p, 32, k - start);
                assert(attributes@.subrange(start as int, k as int) =~= p.take(k - start));
            }
            let key = slice_subrange(attributes, start, k);
            proof {
                if k == to {
                    assert(p.take(k - start) =~= p);
                    assert(spec_key_value(piece) == Some((key@, None::<Seq<u8>>)));
                }
            }
            if accepted(accepted_tags, key) {
                if k == to {
                    proof {
                        assert(spec_tags(pieces, accepted_tags@, n + 1) == Err::<
                            Seq<(Seq<u8>, Seq<u8>)>,
                            ParseError,
                        >(ParseError::MissingAttributeValue));
                        lemma_tags_error(pieces, accepted_tags@, n + 1, count as int);
                    }
                    return Err(ParseError::MissingAttributeValue);
                }
                let value_end = trim_end(attributes, k + 1, to);
                let (value_from, value_to) = strip_both(attributes, k + 1, value_end, 34);
                let value = slice_subrange(attributes, value_from, value_to);
                proof {
                    assert(attributes@.subrange(k + 1, to as int) =~= p.skip(k - start + 1));
                    assert(spec_key_value(piece) == Some((key@, Some(value@))));
                }
                let key_string = string_from_utf8(key);
                let value_string = string_from_utf8(value);
                match (key_string, value_string) {
                    (Some(key_string), Some(value_string)) => {
                        let ghost tags_before = tags@;
                        let ghost bytes_before = bytes;
                        tags.push(Attribute { key: key_string, value: value_string });
                        proof {
                            bytes = bytes.push((key@, value@));
                            assert(spec_tags(pieces, accepted_tags@, n + 1) == Ok::<
                                Seq<(Seq<u8>, Seq<u8>)>,
                                ParseError,
                            >(bytes));
                            assert forall|i: int| 0 <= i < tags@.len() implies valid_utf8(
                                (#[trigger] bytes[i]).0,
                            ) && valid_utf8(bytes[i].1) by {
                                if i < tags_before.len() {
                                    assert(bytes[i] == bytes_before[i]);
                                }
                            }
                            assert forall|i: int| 0 <= i < tags@.len() implies (
                            #[trigger] tags@[i]).key@ == decode_utf8(bytes[i].0) && tags@[i].value@
                                == decode_utf8(bytes[i].1) && encode_utf8(tags@[i].key@)
                                == bytes[i].0 by {
                                if i < tags_before.len() {
                                    assert(tags@[i] == tags_before[i]);
                                    assert(bytes[i] == bytes_before[i]);
                                } else {
                                    decode_utf8_encode_utf8(key@);
                                    assert(encode_utf8(decode_utf8(key@)) == key@);
                                }
                            }
                        }
                    },
                    _ => {
                        proof {
                            assert(spec_tags(pieces, accepted_tags@, n + 1) == Err::<
                                Seq<(Seq<u8>, Seq<u8>)>,
                                ParseError,
                            >(ParseError::NotUtf8));
                            lemma_tags_error(pieces, accepted_tags@, n + 1, count as int);
                        }
                        return Err(ParseError::NotUtf8);
                    },
                }
            } else {
                proof {
                    if k < to {
                        assert(spec_key_value(piece).unwrap().0 == key@);
                    }
                    assert(spec_tags(pieces, accepted_tags@, n + 1) == Ok::<
                        Seq<(Seq<u8>, Seq<u8>)>,
                        ParseError,
                    >(bytes));
                }
            }
        } else {
            proof {
                assert(spec_key_value(piece).is_none());
                assert(spec_tags(pieces, accepted_tags@, n + 1) == Ok::<
                    Seq<(Seq<u8>, Seq<u8>)>,
                    ParseError,
                >(bytes));
            }
        }
        n = n + 1;
    }
    Ok((tags, Ghost(bytes)))
}

/// An error among the first pieces is the error of all pieces.
proof fn lemma_tags_error(pieces: Seq<Seq<u8>>, wanted: Seq<String>, n: int, m: int)
    requires
        n <= m,
        spec_tags(pieces, wanted, n) is Err,
    ensures
        spec_tags(pieces, wanted, m) == spec_tags(pieces, wanted, n),
    decreases m - n,
{
    if n < m {
        lemma_tags_error(pieces, wanted, n, m - 1);
    }
}

/// Whether two of the attributes have the same key.
fn repeated_key(tags: &Vec<Attribute>) -> (r: bool)
    ensures
        r == exists|i: int, j: int|
            0 <= i < j < tags@.len() && (#[trigger] tags@[i]).key@ == (#[trigger] tags@[j]).key@,
{
    let mut j: usize = 0;
    while j < tags.len()
        invariant
            0 <= j <= tags.len(),
            forall|a: int, b: int|
                0 <= a < b < j ==> (#[trigger] tags@[a]).key@ != (#[trigger] tags@[b]).key@,
        decreases tags.len() - j,
    {
        let mut i: usize = 0;
        while i < j
            invariant
                0 <= i <= j < tags.len(),
                forall|a: int| 0 <= a < i ==> (#[trigger] tags@[a]).key@ != tags@[j as int].key@,
            decreases j - i,
        {
            if tags[i].key == tags[j].key {
                return true;
            }
            i = i + 1;
        }
        j = j + 1;
    }
    false
}

/// Reads one line of an annotation file: nine columns between tabs, the
/// last of which holds attributes between semicolons. Only features of the
/// accepted types and attributes with the accepted keys are kept.
pub fn parse_line(line: &[u8], accepted_features: &Vec<String>, accepted_tags: &Vec<String>) -> (r: Result<
    Option<ParsedRow>,
    ParseError,
>)
    ensures
        parsed_matches(r, spec_parse_line(line@, accepted_features@, accepted_tags@)),
{
    if line.len() == 0 || line[0] == 35 {
        return Ok(None);
    }
    if string_from_utf8(line).is_none() {
        return Err(ParseError::NotUtf8);
    }
    if line[line.len() - 1] != 10 {
        return Err(ParseError::NoNewline);
    }
    let fields = split_ranges(line, 9);
    let ghost segments = spec_segments(line@, 9);
    if fields.len() < 2 {
        return Err(ParseError::NoSource);
    }
    if fields.len() < 3 {
        return Err(ParseError::NoFeatureType);
    }
    let feature_type = slice_subrange(line, fields[2].0, fields[2].1);
    if !accepted(accepted_features, feature_type) {
        return Ok(None);
    }
    if fields.len() < 4 {
        return Err(ParseError::NoStart);
    }
    let start = match parse_u64(line, fields[3].0, fields[3].1) {
        Some(start) => start,
        None => {
            return Err(ParseError::StartNotInt);
        },
    };
    if start == 0 {
        return Err(ParseError::StartBelowOne);
    }
    let start = start - 1;
    if fields.len() < 5 {
        return Err(ParseError::NoEnd);
    }
    let end = match parse_u64(line, fields[4].0, fields[4].1) {
        Some(end) => end,
        None => {
            return Err(ParseError::EndNotInt);
        },
    };
    if fields.len() < 6 {
        return Err(ParseError::NoScore);
    }
    if fields.len() < 7 {
        return Err(ParseError::NoStrand);
    }
    let strand = match strand_of(slice_subrange(line, fields[6].0, fields[6].1)) {
        Some(strand) => strand,
        None => {
            return Err(ParseError::InvalidStrand);
        },
    };
    if fields.len() < 8 {
        return Err(ParseError::NoFrame);
    }
    if fields.len() < 9 {
        return Err(ParseError::NoAttributes);
    }
    let attributes = slice_subrange(line, fields[8].0, fields[8].1);
    let (tags, tag_bytes) = match parse_tags(attributes, accepted_tags) {
        Ok(found) => found,
        Err(e) => {
            return Err(e);
        },
    };
    if tags.len() == 0 {
        return Ok(None);
    }
    let repeated = repeated_key(&tags);
    proof {
        broadcast use encode_utf8_decode_utf8;

        let want = tag_bytes@;
        if repeated {
            let (i, j) = choose|i: int, j: int|
                0 <= i < j < tags@.len() && (#[trigger] tags@[i]).key@ == (#[trigger] tags@[j]).key@;
            assert(want[i].0 == want[j].0);
        }
        if spec_repeated_key(want) {
            let (i, j) = choose|i: int, j: int|
                0 <= i < j < want.len() && (#[trigger] want[i]).0 == (#[trigger] want[j]).0;
            assert(tags@[i].key@ == tags@[j].key@);
        }
    }
    if repeated {
        return Err(ParseError::DuplicateAttribute);
    }
    let seqname = string_from_utf8(slice_subrange(line, fields[0].0, fields[0].1));
    let feature = string_from_utf8(feature_type);
    match (seqname, feature) {
        (Some(seqname), Some(feature_type)) => Ok(
            Some(ParsedRow { seqname, feature_type, start, end, strand, tags }),
        ),
        _ => Err(ParseError::NotUtf8),
    }
}

/// The rows of one feature type.
#[derive(Debug)]
pub struct FeatureEntries {
    pub feature: String,
    pub entries: GTFEntrys,
}

/// Why an annotation file cannot be read.
#[derive(Debug, Clone, Copy, PartialEq, Eq, Structural)]
pub enum GtfError {
    /// The line with this number, counted from zero, cannot be read.
    Line(usize, ParseError),
    /// The file has more rows of one feature type, or more reference names,
    /// than 32 bits can number. The row is in the line with this number.
    TooManyRows(usize),
}

/// The value of the attribute `key` in a row; empty if the row has none.
pub open spec fn spec_tag_value(tags: Seq<Attribute>, key: Seq<char>) -> Seq<char>
    decreases tags.len(),
{
    if tags.len() == 0 {
        Seq::empty()
    } else if tags[0].key@ == key {
        tags[0].value@
    } else {
        spec_tag_value(tags.drop_first(), key)
    }
}

fn tag_value(tags: &Vec<Attribute>, key: &String) -> (v: String)
    ensures
        v@ == spec_tag_value(tags@, key@),
{
    let mut i: usize = 0;
    assert(tags@.skip(0) =~= tags@);
    while i < tags.len()
        invariant
            0 <= i <= tags.len(),
            spec_tag_value(tags@, key@) == spec_tag_value(tags@.skip(i as int), key@),
        decreases tags.len() - i,
    {
        proof {
            assert(tags@.skip(i as int)[0] == tags@[i as int]);
            assert(tags@.skip(i as int).drop_first() =~= tags@.skip(i as int + 1));
        }
        if tags[i].key == *key {
            return clone_string(&tags[i].value);
        }
        i = i + 1;
    }
    String::new()
}

/// The keys of a row's attributes, in order.
pub open spec fn spec_keys(tags: Seq<Attribute>) -> Seq<Seq<char>> {
    Seq::new(tags.len(), |t: int| tags[t].key@)
}

impl GTFEntrys {
    /// The names of the columns of strings, in order.
    pub open spec fn spec_column_names(&self) -> Seq<Seq<char>> {
        Seq::new(self.vec_attributes@.len(), |c: int| self.vec_attributes@[c].name@)
    }

    /// Whether a column of strings is named `key`.
    pub open spec fn spec_has_column(&self, key: Seq<char>) -> bool {
        exists|c: int|
            0 <= c < self.vec_attributes@.len() && (#[trigger] self.vec_attributes@[c]).name@ == key
    }

    /// Whether the rows `after` are the rows `before` and the row `row`:
    /// every column has one value more, which for a column of strings is
    /// the row's attribute of that name or the empty string; an attribute
    /// without a column has a new column, empty for the rows before. The
    /// new columns follow the others, in the order of the attributes.
    pub open spec fn spec_row_added(before: GTFEntrys, after: GTFEntrys, row: ParsedRow) -> bool {
        let n = before.spec_rows();
        &&& after.wf()
        &&& after.spec_column_names() == spec_added_once(
            before.spec_column_names(),
            spec_keys(row.tags@),
        )
        &&& after.spec_rows() == n + 1
        &&& after.seqname.spec_strings() == before.seqname.spec_strings().push(row.seqname@)
        &&& after.start@ == before.start@.push(row.start)
        &&& after.end@ == before.end@.push(row.end)
        &&& after.strand@ == before.strand@.push(row.strand)
        &&& after.count == before.count + 1
        &&& after.cat_attributes@.len() == 0
        &&& before.vec_attributes@.len() <= after.vec_attributes@.len()
        &&& forall|c: int|
            0 <= c < before.vec_attributes@.len() ==> (#[trigger] after.vec_attributes@[c]).name@
                == before.vec_attributes@[c].name@ && after.vec_attributes@[c].values@.len() == n
                + 1 && after.vec_attributes@[c].values@.last()@ == spec_tag_value(
                row.tags@,
                before.vec_attributes@[c].name@,
            ) && forall|i: int|
                0 <= i < n ==> (#[trigger] after.vec_attributes@[c].values@[i])@
                    == before.vec_attributes@[c].values@[i]@
        &&& forall|c: int|
            before.vec_attributes@.len() <= c < after.vec_attributes@.len() ==> {
                &&& !before.spec_has_column((#[trigger] after.vec_attributes@[c]).name@)
                &&& exists|t: int|
                    0 <= t < row.tags@.len() && (#[trigger] row.tags@[t]).key@
                        == after.vec_attributes@[c].name@
                &&& after.vec_attributes@[c].values@.last()@ == spec_tag_value(
                    row.tags@,
                    after.vec_attributes@[c].name@,
                )
                &&& forall|i: int|
                    0 <= i < n ==> (#[trigger] after.vec_attributes@[c].values@[i])@
                        == Seq::<char>::empty()
            }
        &&& forall|t: int|
            0 <= t < row.tags@.len() ==> after.spec_has_column((#[trigger] row.tags@[t]).key@)
    }

    /// Appends a row. Nothing happens if the rows or the reference names
    /// cannot be numbered any further.
    pub fn add_row(&mut self, row: &ParsedRow) -> (added: bool)
        requires
            old(self).wf(),
            old(self).cat_attributes@.len() == 0,
            old(self).count == old(self).spec_rows(),
        ensures
            final(self).wf(),
            final(self).cat_attributes@.len() == 0,
            final(self).count == final(self).spec_rows(),
            added == (old(self).spec_rows() < u32::MAX && old(self).seqname.cats@.len() < u32::MAX),
            added ==> Self::spec_row_added(*old(self), *final(self), *row),
            added ==> final(self).seqname.cats@.len() <= old(self).seqname.cats@.len() + 1,
            !added ==> *final(self) == *old(self),
    {
        if self.start.len() >= u32::MAX as usize || self.seqname.cats.len() >= u32::MAX as usize {
            return false;
        }
        let ghost before = *self;
        let n = self.start.len();
        self.seqname.push(row.seqname.as_str());
        self.start.push(row.start);
        self.end.push(row.end);
        self.strand.push(row.strand);
        let mut c: usize = 0;
        while c < self.vec_attributes.len()
            invariant
                0 <= c <= self.vec_attributes.len(),
                n == before.spec_rows(),
                before.wf(),
                self.vec_attributes@.len() == before.vec_attributes@.len(),
                self.seqname.wf(),
                self.seqname.values@.len() == n + 1,
                self.seqname.cats@.len() <= before.seqname.cats@.len() + 1,
                self.seqname.spec_strings() == before.seqname.spec_strings().push(row.seqname@),
                self.start@ == before.start@.push(row.start),
                self.end@ == before.end@.push(row.end),
                self.strand@ == before.strand@.push(row.strand),
                self.count == before.count,
                before.count == n,
                self.cat_attributes@.len() == 0,
                forall|k: int|
                    c <= k < self.vec_attributes@.len() ==> (#[trigger] self.vec_attributes@[k])
                        == before.vec_attributes@[k],
                forall|k: int|
                    0 <= k < c ==> (#[trigger] self.vec_attributes@[k]).name@
                        == before.vec_attributes@[k].name@ && self.vec_attributes@[k].values@.len()
                        == n + 1 && self.vec_attributes@[k].values@.last()@ == spec_tag_value(
                        row.tags@,
                        before.vec_attributes@[k].name@,
                    ) && forall|i: int|
                        0 <= i < n ==> (#[trigger] self.vec_attributes@[k].values@[i])@
                            == before.vec_attributes@[k].values@[i]@,
            decreases self.vec_attributes.len() - c,
        {
            assert(self.vec_attributes@[c as int] == before.vec_attributes@[c as int]);
            let value = tag_value(&row.tags, &self.vec_attributes[c].name);
            self.vec_attributes[c].values.push(value);
            c = c + 1;
        }
        let ghost old_columns = self.vec_attributes@.len();
        let ghost keys = spec_keys(row.tags@);
        proof {
            assert(self.spec_column_names() =~= before.spec_column_names());
            assert(keys.take(0) =~= Seq::<Seq<char>>::empty());
        }
        let mut t: usize = 0;
        while t < row.tags.len()
            invariant
                0 <= t <= row.tags.len(),
                keys == spec_keys(row.tags@),
                self.spec_column_names() == spec_added_once(
                    before.spec_column_names(),
                    keys.take(t as int),
                ),
                self.seqname.cats@.len() <= before.seqname.cats@.len() + 1,
                n == before.spec_rows(),
                n < u32::MAX,
                before.wf(),
                old_columns == before.vec_attributes@.len(),
                old_columns <= self.vec_attributes@.len(),
                self.seqname.wf(),
                self.seqname.values@.len() == n + 1,
                self.seqname.spec_strings() == before.seqname.spec_strings().push(row.seqname@),
                self.start@ == before.start@.push(row.start),
                self.end@ == before.end@.push(row.end),
                self.strand@ == before.strand@.push(row.strand),
                self.count == before.count,
                before.count == n,
                self.cat_attributes@.len() == 0,
                forall|k: int|
                    0 <= k < old_columns ==> (#[trigger] self.vec_attributes@[k]).name@
                        == before.vec_attributes@[k].name@ && self.vec_attributes@[k].values@.len()
                        == n + 1 && self.vec_attributes@[k].values@.last()@ == spec_tag_value(
                        row.tags@,
                        before.vec_attributes@[k].name@,
                    ) && forall|i: int|
                        0 <= i < n ==> (#[trigger] self.vec_attributes@[k].values@[i])@
                            == before.vec_attributes@[k].values@[i]@,
                forall|k: int|
                    old_columns <= k < self.vec_attributes@.len() ==> {
                        &&& !before.spec_has_column((#[trigger] self.vec_attributes@[k]).name@)
                        &&& self.vec_attributes@[k].values@.len() == n + 1
                        &&& exists|u: int|
                            0 <= u < row.tags@.len() && (#[trigger] row.tags@[u]).key@
                                == self.vec_attributes@[k].name@
                        &&& self.vec_attributes@[k].values@.last()@ == spec_tag_value(
                            row.tags@,
                            self.vec_attributes@[k].name@,
                        )
                        &&& forall|i: int|
                            0 <= i < n ==> (#[trigger] self.vec_attributes@[k].values@[i])@
                                == Seq::<char>::empty()
                    },
                forall|u: int| 0 <= u < t ==> self.spec_has_column((#[trigger] row.tags@[u]).key@),
            decreases row.tags.len() - t,
        {
            let key = &row.tags[t].key;
            let ghost columns = self.vec_attributes@;
            let ghost names = self.spec_column_names();
            proof {
                assert(keys.take(t + 1).drop_last() =~= keys.take(t as int));
                assert(keys.take(t + 1).last() == key@);
            }
            match self.vec_attribute(key.as_str()) {
                Some(found) => {
                    assert(names[found as int] == key@);
                },
                None => {
                    let value = tag_value(&row.tags, key);
                    let values = vector_new_empty_push(n as u32, value);
                    self.vec_attributes.push(VecAttribute { name: clone_string(key), values });
                    proof {
                        let now = self.vec_attributes@;
                        assert forall|k: int| 0 <= k < columns.len() implies now[k] == columns[k] by {}
                        assert(!before.spec_has_column(key@)) by {
                            if before.spec_has_column(key@) {
                                let k = choose|k: int|
                                    0 <= k < before.vec_attributes@.len() && (
                                    #[trigger] before.vec_attributes@[k]).name@ == key@;
                                assert(columns[k].name@ == key@);
                            }
                        }
                        assert(row.tags@[t as int].key@ == now[columns.len() as int].name@);
                        assert(!names.contains(key@));
                        assert(self.spec_column_names() =~= names.push(key@));
                    }
                },
            }
            proof {
                let now = self.vec_attributes@;
                assert forall|u: int| 0 <= u < t + 1 implies self.spec_has_column(
                    (#[trigger] row.tags@[u]).key@,
                ) by {
                    if u < t {
                        let k = choose|k: int|
                            0 <= k < columns.len() && (#[trigger] columns[k]).name@
                                == row.tags@[u].key@;
                        assert(now[k].name@ == row.tags@[u].key@);
                    }
                }
            }
            t = t + 1;
        }
        let ghost filled = *self;
        self.count = self.count + 1;
        proof {
            assert(keys.take(row.tags@.len() as int) =~= keys);
            assert(self.wf());
            assert(self.spec_column_names() =~= filled.spec_column_names());
            assert forall|t: int| 0 <= t < row.tags@.len() implies self.spec_has_column(
                (#[trigger] row.tags@[t]).key@,
            ) by {
                assert(filled.spec_has_column(row.tags@[t].key@));
                let c = choose|c: int|
                    0 <= c < filled.vec_attributes@.len() && (#[trigger] filled.vec_attributes@[c]).name@
                        == row.tags@[t].key@;
                assert(self.vec_attributes@[c].name@ == row.tags@[t].key@);
            }
            assert(Self::spec_row_added(before, *self, *row));
        }
        true
    }
}

/// The place of the rows of the feature type `feature`, if there are any.
fn feature_position(table: &Vec<FeatureEntries>, feature: &String) -> (r: Option<usize>)
    ensures
        r.is_some() ==> r.unwrap() < table@.len() && table@[r.unwrap() as int].feature@ == feature@,
        r.is_none() ==> forall|i: int|
            0 <= i < table@.len() ==> (#[trigger] table@[i]).feature@ != feature@,
{
    let mut i: usize = 0;
    while i < table.len()
        invariant
            0 <= i <= table.len(),
            forall|j: int| 0 <= j < i ==> (#[trigger] table@[j]).feature@ != feature@,
        decreases table.len() - i,
    {
        if table[i].feature == *feature {
            return Some(i);
        }
        i = i + 1;
    }
    None
}

/// The rows are rectangular, hold no categorical attributes, and are counted.
pub open spec fn table_wf(table: Seq<FeatureEntries>) -> bool {
    forall|i: int|
        0 <= i < table.len() ==> (#[trigger] table[i]).entries.wf()
            && table[i].entries.cat_attributes@.len() == 0 && table[i].entries.count
            == table[i].entries.spec_rows()
}

/// The lines of a text: what stands between line feeds, each with its line
/// feed; what follows the last line feed is a line if it is not empty.
pub open spec fn spec_lines(text: Seq<u8>) -> Seq<Seq<u8>> {
    let parts = spec_segments(text, 10);
    Seq::new(
        if parts.len() > 0 && parts.last().len() == 0 {
            (parts.len() - 1) as nat
        } else {
            parts.len()
        },
        |k: int|
            if k < parts.len() - 1 {
                parts[k].push(10u8)
            } else {
                parts[k]
            },
    )
}

/// The rows that the first `n` lines give, in order.
pub open spec fn spec_rows_of(
    lines: Seq<Seq<u8>>,
    accepted_features: Seq<String>,
    accepted_tags: Seq<String>,
    n: int,
) -> Seq<RowBytes>
    decreases n,
{
    if n <= 0 {
        Seq::empty()
    } else {
        let before = spec_rows_of(lines, accepted_features, accepted_tags, n - 1);
        match spec_parse_line(lines[n - 1], accepted_features, accepted_tags) {
            Ok(Some(row)) => before.push(row),
            _ => before,
        }
    }
}

/// The feature types of the rows, each once, in the order of first
/// appearance.
pub open spec fn spec_features(rows: Seq<RowBytes>) -> Seq<Seq<char>>
    decreases rows.len(),
{
    if rows.len() == 0 {
        Seq::empty()
    } else {
        let before = spec_features(rows.drop_last());
        let feature = decode_utf8(rows.last().feature_type);
        if before.contains(feature) {
            before
        } else {
            before.push(feature)
        }
    }
}

/// The rows of one feature type, in order.
pub open spec fn spec_feature_rows(rows: Seq<RowBytes>, feature: Seq<char>) -> Seq<RowBytes>
    decreases rows.len(),
{
    if rows.len() == 0 {
        Seq::empty()
    } else {
        let before = spec_feature_rows(rows.drop_last(), feature);
        if decode_utf8(rows.last().feature_type) == feature {
            before.push(rows.last())
        } else {
            before
        }
    }
}

/// No feature type has more rows than 32 bits can number.
pub open spec fn spec_numbered(rows: Seq<RowBytes>) -> bool {
    forall|feature: Seq<char>| #[trigger] spec_feature_rows(rows, feature).len() <= u32::MAX
}

/// The keys of a row's attributes as text, in order.
pub open spec fn spec_key_texts(tags: Seq<(Seq<u8>, Seq<u8>)>) -> Seq<Seq<char>> {
    Seq::new(tags.len(), |t: int| decode_utf8(tags[t].0))
}

/// The keys of the rows' attributes, each once, in the order of first
/// appearance.
pub open spec fn spec_columns(rows: Seq<RowBytes>) -> Seq<Seq<char>>
    decreases rows.len(),
{
    if rows.len() == 0 {
        Seq::empty()
    } else {
        spec_added_once(spec_columns(rows.drop_last()), spec_key_texts(rows.last().tags))
    }
}

/// The value of the attribute `key` among `tags`; empty if there is none.
pub open spec fn spec_tag_text(tags: Seq<(Seq<u8>, Seq<u8>)>, key: Seq<char>) -> Seq<char>
    decreases tags.len(),
{
    if tags.len() == 0 {
        Seq::empty()
    } else if decode_utf8(tags[0].0) == key {
        decode_utf8(tags[0].1)
    } else {
        spec_tag_text(tags.drop_first(), key)
    }
}

/// Whether `entries` holds the rows `rows`, one row each, in order, with
/// one column of strings for each key of their attributes.
pub open spec fn spec_holds_rows(entries: GTFEntrys, rows: Seq<RowBytes>) -> bool {
    &&& entries.spec_rows() == rows.len()
    &&& entries.seqname.spec_strings().len() == rows.len()
    &&& forall|i: int|
        0 <= i < rows.len() ==> {
            &&& entries.seqname.spec_strings()[i] == decode_utf8((#[trigger] rows[i]).seqname)
            &&& entries.start@[i] == rows[i].start
            &&& entries.end@[i] == rows[i].end
            &&& entries.strand@[i] == rows[i].strand
        }
    &&& entries.spec_column_names() == spec_columns(rows)
    &&& forall|c: int, i: int|
        0 <= c < entries.vec_attributes@.len() && 0 <= i < rows.len() ==> (
        #[trigger] entries.vec_attributes@[c].values@[i])@ == spec_tag_text(
            rows[i].tags,
            entries.vec_attributes@[c].name@,
        )
}

/// Whether the table holds the rows `rows`: one entry for each of their
/// feature types, in the order of first appearance, with the rows of that
/// feature type.
pub open spec fn spec_table_of(table: Seq<FeatureEntries>, rows: Seq<RowBytes>) -> bool {
    &&& table.len() == spec_features(rows).len()
    &&& forall|f: int|
        0 <= f < table.len() ==> (#[trigger] table[f]).feature@ == spec_features(rows)[f]
            && spec_holds_rows(table[f].entries, spec_feature_rows(rows, table[f].feature@))
}

/// No feature type stands twice among the feature types of the rows, and
/// the rows of a feature type that is not among them are none.
pub proof fn lemma_features(rows: Seq<RowBytes>)
    ensures
        spec_features(rows).no_duplicates(),
        forall|feature: Seq<char>|
            !spec_features(rows).contains(feature) ==> (#[trigger] spec_feature_rows(
                rows,
                feature,
            )).len() == 0,
    decreases rows.len(),
{
    if rows.len() > 0 {
        lemma_features(rows.drop_last());
        let before = spec_features(rows.drop_last());
        let last = decode_utf8(rows.last().feature_type);
        let all = spec_features(rows);
        assert(all == if before.contains(last) {
            before
        } else {
            before.push(last)
        });
        assert forall|feature: Seq<char>| !all.contains(feature) implies (
        #[trigger] spec_feature_rows(rows, feature)).len() == 0 by {
            if before.contains(feature) {
                let i = choose|i: int| 0 <= i < before.len() && before[i] == feature;
                assert(all[i] == feature);
            }
            if last == feature && !before.contains(last) {
                assert(all[before.len() as int] == feature);
            }
            assert(spec_feature_rows(rows.drop_last(), feature).len() == 0);
        }
        assert forall|i: int, j: int| 0 <= i < all.len() && 0 <= j < all.len() && i != j implies all[i]
            != all[j] by {
            if !before.contains(last) {
                if i == before.len() {
                    assert(before[j] == all[j]);
                } else if j == before.len() {
                    assert(before[i] == all[i]);
                }
            }
        }
    }
}

/// Adding keys keeps the names, and every key is among the names afterwards.
proof fn lemma_keys_added(names: Seq<Seq<char>>, keys: Seq<Seq<char>>)
    ensures
        names.len() <= spec_added_once(names, keys).len(),
        forall|c: int| 0 <= c < names.len() ==> spec_added_once(names, keys)[c] == names[c],
        forall|t: int| 0 <= t < keys.len() ==> spec_added_once(names, keys).contains(#[trigger] keys[t]),
    decreases keys.len(),
{
    if keys.len() > 0 {
        lemma_keys_added(names, keys.drop_last());
        let before = spec_added_once(names, keys.drop_last());
        let after = spec_added_once(names, keys);
        assert forall|t: int| 0 <= t < keys.len() implies after.contains(#[trigger] keys[t]) by {
            if t < keys.len() - 1 {
                assert(keys.drop_last()[t] == keys[t]);
                assert(before.contains(keys[t]));
                let c = choose|c: int| 0 <= c < before.len() && before[c] == keys[t];
                assert(after[c] == keys[t]);
            } else if before.contains(keys.last()) {
            } else {
                assert(after[before.len() as int] == keys[t]);
            }
        }
    }
}

/// Every key of every row is among the columns of the rows.
proof fn lemma_columns_hold_keys(rows: Seq<RowBytes>, i: int, t: int)
    requires
        0 <= i < rows.len(),
        0 <= t < rows[i].tags.len(),
    ensures
        spec_columns(rows).contains(decode_utf8(rows[i].tags[t].0)),
    decreases rows.len(),
{
    let before = spec_columns(rows.drop_last());
    let keys = spec_key_texts(rows.last().tags);
    lemma_keys_added(before, keys);
    if i < rows.len() - 1 {
        assert(rows.drop_last()[i] == rows[i]);
        lemma_columns_hold_keys(rows.drop_last(), i, t);
        let key = decode_utf8(rows[i].tags[t].0);
        let c = choose|c: int| 0 <= c < before.len() && before[c] == key;
        assert(spec_columns(rows)[c] == key);
    } else {
        assert(keys[t] == decode_utf8(rows[i].tags[t].0));
    }
}

/// A key that no attribute has gives the empty value.
proof fn lemma_tag_text_absent(tags: Seq<(Seq<u8>, Seq<u8>)>, key: Seq<char>)
    requires
        forall|t: int| 0 <= t < tags.len() ==> decode_utf8((#[trigger] tags[t]).0) != key,
    ensures
        spec_tag_text(tags, key) == Seq::<char>::empty(),
    decreases tags.len(),
{
    if tags.len() > 0 {
        assert forall|t: int| 0 <= t < tags.drop_first().len() implies decode_utf8(
            (#[trigger] tags.drop_first()[t]).0,
        ) != key by {
            assert(tags.drop_first()[t] == tags[t + 1]);
        }
        lemma_tag_text_absent(tags.drop_first(), key);
    }
}

/// A row's attribute has the value that the attribute has as bytes.
proof fn lemma_tag_value(tags: Seq<Attribute>, want: Seq<(Seq<u8>, Seq<u8>)>, key: Seq<char>)
    requires
        tags.len() == want.len(),
        forall|t: int|
            0 <= t < tags.len() ==> (#[trigger] tags[t]).key@ == decode_utf8(want[t].0)
                && tags[t].value@ == decode_utf8(want[t].1),
    ensures
        spec_tag_value(tags, key) == spec_tag_text(want, key),
    decreases tags.len(),
{
    if tags.len() > 0 {
        assert(tags[0].key@ == decode_utf8(want[0].0));
        assert forall|t: int| 0 <= t < tags.drop_first().len() implies (
        #[trigger] tags.drop_first()[t]).key@ == decode_utf8(want.drop_first()[t].0)
            && tags.drop_first()[t].value@ == decode_utf8(want.drop_first()[t].1) by {
            assert(tags.drop_first()[t] == tags[t + 1]);
            assert(want.drop_first()[t] == want[t + 1]);
        }
        lemma_tag_value(tags.drop_first(), want.drop_first(), key);
    }
}

/// A row that is added to the rows of its feature type is held with them.
proof fn lemma_row_held(
    before: GTFEntrys,
    after: GTFEntrys,
    row: ParsedRow,
    rows: Seq<RowBytes>,
    want: RowBytes,
)
    requires
        before.wf(),
        spec_holds_rows(before, rows),
        GTFEntrys::spec_row_added(before, after, row),
        row_matches(row, want),
    ensures
        spec_holds_rows(after, rows.push(want)),
{
    let n = rows.len() as int;
    let grown = rows.push(want);
    assert(grown.drop_last() =~= rows);
    assert(grown.last() == want);
    assert(spec_keys(row.tags@) =~= spec_key_texts(want.tags));
    assert forall|i: int| 0 <= i < grown.len() implies {
        &&& after.seqname.spec_strings()[i] == decode_utf8((#[trigger] grown[i]).seqname)
        &&& after.start@[i] == grown[i].start
        &&& after.end@[i] == grown[i].end
        &&& after.strand@[i] == grown[i].strand
    } by {
        if i < n {
            assert(grown[i] == rows[i]);
        }
    }
    assert forall|c: int, i: int|
        0 <= c < after.vec_attributes@.len() && 0 <= i < grown.len() implies (
    #[trigger] after.vec_attributes@[c].values@[i])@ == spec_tag_text(
        grown[i].tags,
        after.vec_attributes@[c].name@,
    ) by {
        let name = after.vec_attributes@[c].name@;
        if i == n {
            lemma_tag_value(row.tags@, want.tags, name);
            assert(after.vec_attributes@[c].values@.last() == after.vec_attributes@[c].values@[i]);
        } else {
            assert(grown[i] == rows[i]);
            if c < before.vec_attributes@.len() {
                assert(after.vec_attributes@[c].values@[i]@ == before.vec_attributes@[c].values@[i]@);
            } else {
                assert(after.vec_attributes@[c].values@[i]@ == Seq::<char>::empty());
                assert forall|t: int| 0 <= t < rows[i].tags.len() implies decode_utf8(
                    (#[trigger] rows[i].tags[t]).0,
                ) != name by {
                    lemma_columns_hold_keys(rows, i, t);
                    if decode_utf8(rows[i].tags[t].0) == name {
                        let k = choose|k: int|
                            0 <= k < spec_columns(rows).len() && spec_columns(rows)[k] == name;
                        assert(before.spec_column_names()[k] == name);
                        assert(before.vec_attributes@[k].name@ == name);
                        assert(before.spec_has_column(name));
                    }
                }
                lemma_tag_text_absent(rows[i].tags, name);
            }
        }
    }
}

/// A row of another feature type leaves the rows of a feature type as
/// they are; a row of the feature type comes after them.
proof fn lemma_feature_rows_push(rows: Seq<RowBytes>, want: RowBytes, feature: Seq<char>)
    ensures
        spec_feature_rows(rows.push(want), feature) == if decode_utf8(want.feature_type)
            == feature {
            spec_feature_rows(rows, feature).push(want)
        } else {
            spec_feature_rows(rows, feature)
        },
        spec_features(rows.push(want)) == if spec_features(rows).contains(
            decode_utf8(want.feature_type),
        ) {
            spec_features(rows)
        } else {
            spec_features(rows).push(decode_utf8(want.feature_type))
        },
{
    assert(rows.push(want).drop_last() =~= rows);
    assert(rows.push(want).last() == want);
}

/// Reads an annotation file: the rows of the accepted feature types, by
/// feature type in the order of first appearance, with the accepted
/// attributes. The first line that cannot be read ends the reading, and so
/// does the first row that its feature type has no number left for.
pub fn parse_minimal(text: &[u8], accepted_features: &Vec<String>, accepted_tags: &Vec<String>) -> (r: Result<
    Vec<FeatureEntries>,
    GtfError,
>)
    ensures
        match r {
            Ok(table) => {
                let lines = spec_lines(text@);
                let rows = spec_rows_of(
                    lines,
                    accepted_features@,
                    accepted_tags@,
                    lines.len() as int,
                );
                &&& forall|k: int|
                    0 <= k < lines.len() ==> spec_parse_line(
                        #[trigger] lines[k],
                        accepted_features@,
                        accepted_tags@,
                    ) is Ok
                &&& spec_numbered(rows)
                &&& table_wf(table@)
                &&& spec_table_of(table@, rows)
            },
            Err(GtfError::Line(k, e)) => {
                let lines = spec_lines(text@);
                &&& k < lines.len()
                &&& spec_parse_line(lines[k as int], accepted_features@, accepted_tags@) == Err::<
                    Option<RowBytes>,
                    ParseError,
                >(e)
                &&& forall|j: int|
                    0 <= j < k ==> spec_parse_line(
                        #[trigger] lines[j],
                        accepted_features@,
                        accepted_tags@,
                    ) is Ok
                &&& spec_numbered(
                    spec_rows_of(lines, accepted_features@, accepted_tags@, k as int),
                )
            },
            Err(GtfError::TooManyRows(k)) => {
                let lines = spec_lines(text@);
                &&& k < lines.len()
                &&& forall|j: int|
                    0 <= j <= k ==> spec_parse_line(
                        #[trigger] lines[j],
                        accepted_features@,
                        accepted_tags@,
                    ) is Ok
                &&& spec_numbered(
                    spec_rows_of(lines, accepted_features@, accepted_tags@, k as int),
                )
                &&& !spec_numbered(
                    spec_rows_of(lines, accepted_features@, accepted_tags@, k + 1),
                )
            },
        },
{
    let ranges = split_ranges(text, 10);
    let ghost parts = spec_segments(text@, 10);
    let ghost lines = spec_lines(text@);
    let count = if ranges.len() > 0 && ranges[ranges.len() - 1].0 == ranges[ranges.len() - 1].1 {
        ranges.len() - 1
    } else {
        ranges.len()
    };
    proof {
        if ranges@.len() > 0 {
            let last = ranges@[ranges@.len() - 1];
            assert(text@.subrange(last.0 as int, last.1 as int) == parts.last());
        }
        assert(count == lines.len());
    }
    let mut table: Vec<FeatureEntries> = Vec::new();
    let total = text.len();
    let mut k: usize = 0;
    while k < count
        invariant
            0 <= k <= count,
            total == text@.len(),
            count == lines.len(),
            lines == spec_lines(text@),
            parts == spec_segments(text@, 10),
            ranges@.len() == parts.len(),
            count <= ranges@.len(),
            forall|j: int|
                0 <= j < ranges@.len() ==> (#[trigger] ranges@[j]).0 <= ranges@[j].1 <= text@.len()
                    && text@.subrange(ranges@[j].0 as int, ranges@[j].1 as int) == parts[j],
            forall|j: int|
                0 <= j < ranges@.len() - 1 ==> (#[trigger] ranges@[j]).1 < text@.len()
                    && text@[ranges@[j].1 as int] == 10u8,
            table_wf(table@),
            forall|j: int|
                0 <= j < k ==> spec_parse_line(
                    #[trigger] lines[j],
                    accepted_features@,
                    accepted_tags@,
                ) is Ok,
            spec_table_of(
                table@,
                spec_rows_of(lines, accepted_features@, accepted_tags@, k as int),
            ),
            spec_numbered(spec_rows_of(lines, accepted_features@, accepted_tags@, k as int)),
            forall|f: int|
                0 <= f < table@.len() ==> (#[trigger] table@[f]).entries.seqname.cats@.len()
                    <= table@[f].entries.spec_rows() <= u32::MAX,
        decreases count - k,
    {
        let (from, to) = ranges[k];
        let end = if k + 1 < ranges.len() {
            to + 1
        } else {
            to
        };
        proof {
            if k + 1 < ranges@.len() {
                assert(text@[to as int] == 10u8);
                assert(text@.subrange(from as int, to + 1) =~= parts[k as int].push(10u8));
            }
        }
        let line = slice_subrange(text, from, end);
        assert(line@ == lines[k as int]);
        let ghost rows = spec_rows_of(lines, accepted_features@, accepted_tags@, k as int);
        match parse_line(line, accepted_features, accepted_tags) {
            Err(e) => {
                return Err(GtfError::Line(k, e));
            },
            Ok(None) => {},
            Ok(Some(row)) => {
                let ghost want = spec_parse_line(
                    lines[k as int],
                    accepted_features@,
                    accepted_tags@,
                )->Ok_0->Some_0;
                let ghost feature = row.feature_type@;
                let ghost grown = rows.push(want);
                let ghost listed = table@;
                proof {
                    assert(grown == spec_rows_of(lines, accepted_features@, accepted_tags@, k + 1));
                    lemma_features(rows);
                    lemma_features(grown);
                    lemma_feature_rows_push(rows, want, feature);
                }
                let at = match feature_position(&table, &row.feature_type) {
                    Some(at) => {
                        assert(spec_features(rows)[at as int] == feature);
                        at
                    },
                    None => {
                        proof {
                            if spec_features(rows).contains(feature) {
                                let i = choose|i: int|
                                    0 <= i < spec_features(rows).len() && spec_features(rows)[i]
                                        == feature;
                                assert(table@[i].feature@ == feature);
                            }
                        }
                        table.push(
                            FeatureEntries {
                                feature: clone_string(&row.feature_type),
                                entries: GTFEntrys::new(),
                            },
                        );
                        proof {
                            let added = table@.last().entries;
                            assert forall|f: int| 0 <= f < listed.len() implies table@[f]
                                == listed[f] by {}
                            assert(added.seqname.spec_strings().len() == 0);
                            assert(added.spec_column_names() =~= spec_columns(
                                Seq::<RowBytes>::empty(),
                            ));
                            assert(spec_feature_rows(rows, feature) =~= Seq::<RowBytes>::empty());
                        }
                        table.len() - 1
                    },
                };
                let ghost staged = table@;
                proof {
                    assert(staged.len() == spec_features(grown).len());
                    assert forall|f: int| 0 <= f < staged.len() implies (#[trigger] staged[f]).feature@
                        == spec_features(grown)[f] && spec_holds_rows(
                        staged[f].entries,
                        spec_feature_rows(rows, staged[f].feature@),
                    ) by {
                        if f < listed.len() {
                            assert(staged[f] == listed[f]);
                        }
                    }
                }
                if !table[at].entries.add_row(&row) {
                    proof {
                        assert(spec_feature_rows(grown, feature).len() > u32::MAX);
                    }
                    return Err(GtfError::TooManyRows(k));
                }
                proof {
                    assert forall|i: int| 0 <= i < table@.len() implies (
                    #[trigger] table@[i]).entries.wf() && table@[i].entries.cat_attributes@.len()
                        == 0 && table@[i].entries.count == table@[i].entries.spec_rows() by {
                        if i != at {
                            assert(table@[i] == staged[i]);
                        }
                    }
                    assert forall|f: int| 0 <= f < table@.len() implies (#[trigger] table@[f]).feature@
                        == spec_features(grown)[f] && spec_holds_rows(
                        table@[f].entries,
                        spec_feature_rows(grown, table@[f].feature@),
                    ) by {
                        assert(table@[f].feature@ == staged[f].feature@);
                        lemma_feature_rows_push(rows, want, staged[f].feature@);
                        if f == at {
                            lemma_row_held(
                                staged[f].entries,
                                table@[f].entries,
                                row,
                                spec_feature_rows(rows, feature),
                                want,
                            );
                        } else {
                            assert(table@[f] == staged[f]);
                            assert(spec_features(grown)[f] != spec_features(grown)[at as int]);
                        }
                    }
                    assert forall|f: int| 0 <= f < table@.len() implies (
                    #[trigger] table@[f]).entries.seqname.cats@.len()
                        <= table@[f].entries.spec_rows() <= u32::MAX by {
                        if f != at {
                            assert(table@[f] == staged[f]);
                            if f < listed.len() {
                                assert(staged[f] == listed[f]);
                            }
                        } else if f < listed.len() {
                            assert(staged[f] == listed[f]);
                        }
                    }
                    assert forall|other: Seq<char>| #[trigger]
                        spec_feature_rows(grown, other).len() <= u32::MAX by {
                        lemma_feature_rows_push(rows, want, other);
                        if other == feature {
                            assert(spec_feature_rows(grown, other).len()
                                == table@[at as int].entries.spec_rows());
                        } else {
                            assert(spec_feature_rows(rows, other).len() <= u32::MAX);
                        }
                    }
                }
            },
        }
        k = k + 1;
    }
    Ok(table)
}

} // verus!
