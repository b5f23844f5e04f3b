use crate::bam_ext::{Aux, Record};
use regex::bytes::Regex;
use vstd::prelude::*;
use vstd::slice::{slice_subrange, slice_to_vec};
use vstd::string::*;

verus! {

/// `Regex` of regex (bytes), taken as it is: a value of it can stand in
/// fields and signatures, and all that is known of it is the pattern it was
/// made from.
#[verifier::external_type_specification]
#[verifier::external_body]
pub struct ExRegex(Regex);

/// The pattern that a compiled regular expression was made from.
pub uninterp spec fn regex_pattern(regex: &Regex) -> Seq<char>;

/// Whether text is a pattern that regex accepts. The crate's syntax and its
/// size limits decide.
pub uninterp spec fn regex_valid(pattern: Seq<char>) -> bool;

/// What the leftmost match of a pattern in a haystack gives for its first
/// capture group: nothing where the pattern does not match; nothing inside
/// where it matches without the group taking part; else the group's byte
/// range in the haystack.
pub uninterp spec fn regex_first_group(pattern: Seq<char>, haystack: Seq<u8>) -> Option<
    Option<(usize, usize)>,
>;

/// `Regex::new` of regex (bytes): the compiled expression for a pattern
/// that the crate accepts.
#[verifier::external_body]
fn regex_compile(pattern: &str) -> (r: Option<Regex>)
    ensures
        r.is_some() == regex_valid(pattern@),
        r.is_some() ==> regex_pattern(&r.unwrap()) == pattern@,
{
    Regex::new(pattern).ok()
}

/// `Regex::captures` of regex (bytes), followed by `Captures::get(1)`: the
/// byte range of the first capture group in the leftmost match.
#[verifier::external_body]
fn regex_captures_first(regex: &Regex, haystack: &[u8]) -> (r: Option<Option<(usize, usize)>>)
    ensures
        r == regex_first_group(regex_pattern(regex), haystack@),
{
    regex.captures(haystack).map(|caps| caps.get(1).map(|m| (m.start(), m.end())))
}

/// The first place at which `pattern` stands in `text`, if it stands anywhere.
pub open spec fn occurs_at(text: Seq<u8>, pattern: Seq<u8>, at: int) -> bool {
    0 <= at && at + pattern.len() <= text.len() && text.subrange(at, at + pattern.len()) == pattern
}

/// `find_bytes` of twoway: the first place at which the pattern occurs in
/// the text.
#[verifier::external_body]
fn find_bytes(text: &[u8], pattern: &[u8]) -> (r: Option<usize>)
    ensures
        match r {
            Some(at) => occurs_at(text@, pattern@, at as int) && forall|i: int|
                0 <= i < at ==> !occurs_at(text@, pattern@, i),
            None => forall|i: int| !occurs_at(text@, pattern@, i),
        },
{
    twoway::find_bytes(text, pattern)
}

/// Why no UMI or barcode could be taken from a read.
#[derive(Debug, Clone, Copy, PartialEq, Eq, Structural)]
pub enum ExtractError {
    /// The regular expression does not match the read's name.
    NoMatch,
    /// The capture group lies outside the read's name.
    GroupOutOfRange,
    /// The region ends beyond the read's sequence.
    RegionBeyondRead { stop: u16, read_length: usize },
    /// The read lacks the tag.
    TagMissing,
    /// The tag holds something other than a string.
    TagNotString,
}

/// Takes the first capture group of a regular expression from the read's
/// name. The expression is one that `new` made from its pattern.
pub struct RegexName {
    regex: Regex,
}

/// Takes the bytes `[start, stop)` of the read's sequence.
#[derive(Debug, Clone, Copy)]
pub struct ReadRegion {
    pub start: u16,
    pub stop: u16,
}

/// Takes the value of a tag.
#[derive(Debug, Clone, Copy)]
pub struct Tag {
    pub tag: [u8; 2],
}

/// Takes `len` bytes of the read's name, `skip` bytes after the first
/// occurrence of `search`.
#[derive(Debug)]
pub struct SearchInName {
    pub search: Vec<u8>,
    pub skip: usize,
    pub len: usize,
}

/// How a UMI or a barcode is taken from a read.
pub enum UMIExtraction {
    RegexName(RegexName),
    SearchInName(SearchInName),
    ReadRegion(ReadRegion),
    Tag(Tag),
}

/// The bytes that a capture group names in `name`: an error where the
/// expression did not match, nothing where the group did not take part.
pub open spec fn spec_slice_group(name: Seq<u8>, found: Option<Option<(usize, usize)>>) -> Result<
    Option<Seq<u8>>,
    ExtractError,
> {
    match found {
        None => Err(ExtractError::NoMatch),
        Some(None) => Ok(None),
        Some(Some((start, end))) => if start <= end <= name.len() {
            Ok(Some(name.subrange(start as int, end as int)))
        } else {
            Err(ExtractError::GroupOutOfRange)
        },
    }
}

/// Whether what was extracted is what was to be extracted.
pub open spec fn same_extract(
    got: Result<Option<Vec<u8>>, ExtractError>,
    want: Result<Option<Seq<u8>>, ExtractError>,
) -> bool {
    match (got, want) {
        (Ok(Some(a)), Ok(Some(b))) => a@ == b,
        (Ok(None), Ok(None)) => true,
        (Err(a), Err(b)) => a == b,
        _ => false,
    }
}

/// The bytes that a capture group names in `name`.
pub fn slice_group(name: &[u8], found: Option<Option<(usize, usize)>>) -> (r: Result<
    Option<Vec<u8>>,
    ExtractError,
>)
    ensures
        same_extract(r, spec_slice_group(name@, found)),
{
    match found {
        None => Err(ExtractError::NoMatch),
        Some(None) => Ok(None),
        Some(Some((start, end))) => {
            if start <= end && end <= name.len() {
                Ok(Some(slice_to_vec(slice_subrange(name, start, end))))
            } else {
                Err(ExtractError::GroupOutOfRange)
            }
        },
    }
}

impl RegexName {
    /// The pattern of the expression.
    pub closed spec fn pattern(&self) -> Seq<char> {
        regex_pattern(&self.regex)
    }

    /// The extractor for a pattern; nothing if regex does not accept it.
    pub fn new(pattern: &str) -> (r: Option<RegexName>)
        ensures
            r.is_some() == regex_valid(pattern@),
            r.is_some() ==> r.unwrap().pattern() == pattern@,
    {
        match regex_compile(pattern) {
            Some(regex) => Some(RegexName { regex }),
            None => None,
        }
    }

    /// The first capture group of the expression in the read's name: an
    /// error where the expression does not match.
    pub open spec fn spec_extract(&self, read: &Record) -> Result<Option<Seq<u8>>, ExtractError> {
        spec_slice_group(read.qname@, regex_first_group(self.pattern(), read.qname@))
    }

    pub fn extract(&self, read: &Record) -> (r: Result<Option<Vec<u8>>, ExtractError>)
        ensures
            same_extract(r, self.spec_extract(read)),
    {
        let found = regex_captures_first(&self.regex, read.qname.as_slice());
        slice_group(read.qname.as_slice(), found)
    }
}

impl ReadRegion {
    /// The region is not empty.
    pub open spec fn wf(&self) -> bool {
        self.start < self.stop
    }

    /// Whether the region is one: its start lies below its stop.
    pub fn validate(&self) -> (ok: bool)
        ensures
            ok == self.wf(),
    {
        self.start < self.stop
    }

    /// The bytes `[start, stop)` of the read's sequence: an error where the
    /// sequence is shorter than `stop`.
    pub open spec fn spec_extract(&self, read: &Record) -> Result<Option<Seq<u8>>, ExtractError> {
        if self.stop > read.seq@.len() {
            Err(ExtractError::RegionBeyondRead { stop: self.stop, read_length: read.seq.len() })
        } else {
            Ok(Some(read.seq@.subrange(self.start as int, self.stop as int)))
        }
    }

    pub fn extract(&self, read: &Record) -> (r: Result<Option<Vec<u8>>, ExtractError>)
        requires
            self.wf(),
        ensures
            same_extract(r, self.spec_extract(read)),
    {
        if self.stop as usize > read.seq.len() {
            return Err(
                ExtractError::RegionBeyondRead { stop: self.stop, read_length: read.seq.len() },
            );
        }
        let seq = slice_to_vec(
            slice_subrange(read.seq.as_slice(), self.start as usize, self.stop as usize),
        );
        Ok(Some(seq))
    }
}

impl Tag {
    /// The bytes of the string that the tag holds: an error where the tag
    /// is missing or holds no string.
    pub open spec fn spec_extract(&self, read: &Record) -> Result<Option<Seq<u8>>, ExtractError> {
        match read.spec_aux(self.tag@) {
            None => Err(ExtractError::TagMissing),
            Some(Aux::String(v)) => Ok(Some(vstd::utf8::encode_utf8(v@))),
            Some(_) => Err(ExtractError::TagNotString),
        }
    }

    pub fn extract(&self, read: &Record) -> (r: Result<Option<Vec<u8>>, ExtractError>)
        ensures
            same_extract(r, self.spec_extract(read)),
    {
        match read.aux(&self.tag) {
            None => Err(ExtractError::TagMissing),
            Some(Aux::String(v)) => Ok(Some(v.as_str().as_bytes_vec())),
            Some(_) => Err(ExtractError::TagNotString),
        }
    }
}

impl SearchInName {
    /// The bytes taken from `name`: `len` bytes that start `skip` bytes after
    /// the first occurrence of `search`, if `search` occurs and the bytes lie
    /// within the name.
    pub open spec fn spec_extract_from(&self, name: Seq<u8>) -> Option<Seq<u8>> {
        if exists|i: int| occurs_at(name, self.search@, i) {
            let at = choose|at: int|
                occurs_at(name, self.search@, at) && forall|i: int|
                    0 <= i < at ==> !occurs_at(name, self.search@, i);
            let start = at + self.search@.len() + self.skip;
            let stop = start + self.len;
            if stop > name.len() {
                None
            } else {
                Some(name.subrange(start, stop))
            }
        } else {
            None
        }
    }

    pub open spec fn spec_extract(&self, read: &Record) -> Result<Option<Seq<u8>>, ExtractError> {
        Ok(self.spec_extract_from(read.qname@))
    }

    pub fn extract(&self, read: &Record) -> (r: Result<Option<Vec<u8>>, ExtractError>)
        ensures
            same_extract(r, self.spec_extract(read)),
    {
        let name = read.qname.as_slice();
        let search = self.search.as_slice();
        let offset = find_bytes(name, search);
        let name_len = name.len();
        assert(name@ == read.qname@);
        assert(search@ == self.search@);
        match offset {
            Some(offset) => {
                proof {
                    assert(occurs_at(name@, self.search@, offset as int));
                    let at = choose|at: int|
                        occurs_at(name@, self.search@, at) && forall|i: int|
                            0 <= i < at ==> !occurs_at(name@, self.search@, i);
                    assert(occurs_at(name@, self.search@, offset as int));
                    if at < offset {
                        assert(!occurs_at(name@, self.search@, at));
                    }
                    if offset < at {
                        assert(!occurs_at(name@, self.search@, offset as int));
                    }
                    assert(at == offset);
                }
                let after = offset + self.search.len();
                let start = match after.checked_add(self.skip) {
                    Some(start) => start,
                    None => {
                        return Ok(None);
                    },
                };
                let stop = match start.checked_add(self.len) {
                    Some(stop) => stop,
                    None => {
                        return Ok(None);
                    },
                };
                if stop > name_len {
                    Ok(None)
                } else {
                    Ok(Some(slice_to_vec(slice_subrange(name, start, stop))))
                }
            },
            None => Ok(None),
        }
    }
}

impl UMIExtraction {
    pub open spec fn wf(&self) -> bool {
        match self {
            UMIExtraction::ReadRegion(e) => e.wf(),
            _ => true,
        }
    }

    /// The UMI or barcode of a read: nothing where the read has none, an
    /// error where the read is not what the extractor expects.
    pub open spec fn spec_extract(&self, read: &Record) -> Result<Option<Seq<u8>>, ExtractError> {
        match self {
            UMIExtraction::RegexName(e) => e.spec_extract(read),
            UMIExtraction::SearchInName(e) => e.spec_extract(read),
            UMIExtraction::ReadRegion(e) => e.spec_extract(read),
            UMIExtraction::Tag(e) => e.spec_extract(read),
        }
    }

    pub fn extract(&self, read: &Record) -> (r: Result<Option<Vec<u8>>, ExtractError>)
        requires
            self.wf(),
        ensures
            same_extract(r, self.spec_extract(read)),
    {
        match self {
            UMIExtraction::RegexName(e) => e.extract(read),
            UMIExtraction::SearchInName(e) => e.extract(read),
            UMIExtraction::ReadRegion(e) => e.extract(read),
            UMIExtraction::Tag(e) => e.extract(read),
        }
    }
}

} // verus!
