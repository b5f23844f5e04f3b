use crate::barcodes::CellBarcodes;
use crate::deduplication::{DedupConfigError, DeduplicationStrategy};
use crate::extractors::UMIExtraction;
use crate::filters::{Filter, FilterError};
use vstd::prelude::*;
use vstd::string::*;
use vstd::utf8::*;

verus! {

/// What to do with annotation rows that repeat an earlier `(start, end, id)`.
#[derive(Debug, Clone, Copy, PartialEq, Eq, Structural)]
pub enum DuplicateHandling {
    Collapse,
    Rename,
}

/// When a region counts as hit by a read.
#[derive(Debug, Clone, Copy, PartialEq, Eq, Structural)]
pub enum OverlapMode {
    Union,
    IntersectionStrict,
    IntersectionNonEmpty,
}

/// What to do with a read that hits more than one region.
#[derive(Debug, Clone, Copy, PartialEq, Eq, Structural)]
pub enum MultiRegionHandling {
    Drop,
    CountBoth,
}

/// Which read orientation counts as agreeing with a region's strand.
#[derive(Debug, Clone, Copy, PartialEq, Eq, Structural)]
pub enum MatchDirection {
    Forward,
    Reverse,
    Ignore,
}

/// The counting strategy: overlap rule, multi-region rule and direction.
#[derive(Debug, Clone, Copy)]
pub struct Strategy {
    pub overlap: OverlapMode,
    pub multi_region: MultiRegionHandling,
    pub direction: MatchDirection,
}

impl Default for DuplicateHandling {
    fn default() -> (r: Self)
        ensures
            r == DuplicateHandling::Collapse,
    {
        DuplicateHandling::Collapse
    }
}

impl Default for OverlapMode {
    fn default() -> (r: Self)
        ensures
            r == OverlapMode::Union,
    {
        OverlapMode::Union
    }
}

impl Default for MultiRegionHandling {
    fn default() -> (r: Self)
        ensures
            r == MultiRegionHandling::CountBoth,
    {
        MultiRegionHandling::CountBoth
    }
}

impl Default for MatchDirection {
    fn default() -> (r: Self)
        ensures
            r == MatchDirection::Forward,
    {
        MatchDirection::Forward
    }
}

impl Default for Strategy {
    fn default() -> (r: Self)
        ensures
            r.overlap == OverlapMode::Union,
            r.multi_region == MultiRegionHandling::CountBoth,
            r.direction == MatchDirection::Forward,
    {
        Strategy {
            overlap: OverlapMode::Union,
            multi_region: MultiRegionHandling::CountBoth,
            direction: MatchDirection::Forward,
        }
    }
}

/// The limit on leading soft-clipped bases where none is configured.
pub fn default_max_skip_length() -> (r: u32)
    ensures
        r == 150,
{
    150
}

/// Whether reads are corrected for clipping where nothing is configured.
pub fn default_correct_reads_for_clipping() -> (r: bool)
    ensures
        r,
{
    true
}

/// A two-byte tag of an alignment.
#[derive(Debug, Clone, Copy)]
pub struct BamTag {
    pub tag: [u8; 2],
}

/// The dialect of an annotation file.
#[derive(Debug, Clone, Copy, PartialEq, Eq, Structural)]
pub enum GTFFormat {
    AutoDetect,
    Gff,
    Gtf,
}

impl Default for GTFFormat {
    fn default() -> (r: Self)
        ensures
            r == GTFFormat::AutoDetect,
    {
        GTFFormat::AutoDetect
    }
}

/// An annotation file as the source of regions.
#[derive(Debug)]
pub struct GTFConfig {
    pub filename: String,
    pub subformat: GTFFormat,
    pub feature: String,
    pub id_attribute: String,
    pub aggr_id_attribute: Option<String>,
    pub duplicate_handling: DuplicateHandling,
}

/// Where the regions come from.
#[derive(Debug)]
pub enum Source {
    Gtf(GTFConfig),
    BamReferences,
    BamTag(BamTag),
}

#[derive(Debug)]
pub struct Input {
    pub bam: String,
    pub correct_reads_for_clipping: bool,
    pub source: Source,
    pub max_skip_length: u32,
}

#[derive(Debug)]
pub struct Output {
    pub directory: String,
    pub write_annotated_bam: bool,
    pub only_correct: bool,
}

pub struct Config {
    pub input: Input,
    pub filter: Vec<Filter>,
    pub dedup: DeduplicationStrategy,
    pub strategy: Strategy,
    pub umi: Option<UMIExtraction>,
    pub cell_barcodes: Option<CellBarcodes>,
    pub output: Output,
}

/// What is wrong with a configuration.
#[derive(Debug, Clone, Copy, PartialEq, Eq, Structural)]
pub enum ConfigError {
    Dedup(DedupConfigError),
    Filter(FilterError),
    EmptyBamFilename,
    EmptyGtfFilename,
    EmptyGtfFeature,
    EmptyGtfIdAttribute,
    /// An extractor's read region does not have its start below its stop.
    EmptyReadRegion,
}

/// Why text is no tag name.
#[derive(Debug, Clone, Copy, PartialEq, Eq, Structural)]
pub enum TagError {
    /// A tag has exactly two letters.
    NotTwoLetters,
    /// A tag starts with a letter.
    FirstNotAlphabetic,
    /// The second byte of a tag is a letter or a digit.
    SecondNotAlphanumeric,
}

/// Why a value is no separator byte.
#[derive(Debug, Clone, Copy, PartialEq, Eq, Structural)]
pub enum SeparatorError {
    NumberTooLarge,
    EmptyString,
    MoreThanOneCharacter,
}

pub open spec fn spec_is_alphabetic(b: u8) -> bool {
    (65 <= b <= 90) || (97 <= b <= 122)
}

pub open spec fn spec_is_alphanumeric(b: u8) -> bool {
    spec_is_alphabetic(b) || (48 <= b <= 57)
}

/// The tag that the bytes of a configured name give.
pub open spec fn spec_parse_tag(bytes: Seq<u8>) -> Result<[u8; 2], TagError> {
    if bytes.len() != 2 {
        Err(TagError::NotTwoLetters)
    } else if !spec_is_alphabetic(bytes[0]) {
        Err(TagError::FirstNotAlphabetic)
    } else if !spec_is_alphanumeric(bytes[1]) {
        Err(TagError::SecondNotAlphanumeric)
    } else {
        Ok([bytes[0], bytes[1]])
    }
}

/// The tag that a configured name stands for: two bytes, a letter and then
/// a letter or digit.
pub fn deser_tag(s: &str) -> (r: Result<[u8; 2], TagError>)
    ensures
        match (r, spec_parse_tag(encode_utf8(s@))) {
            (Ok(a), Ok(b)) => a@ == b@,
            (Err(a), Err(b)) => a == b,
            _ => false,
        },
{
    let b = s.as_bytes();
    if b.len() != 2 {
        return Err(TagError::NotTwoLetters);
    }
    let first = b[0];
    let second = b[1];
    if !((first >= 65 && first <= 90) || (first >= 97 && first <= 122)) {
        return Err(TagError::FirstNotAlphabetic);
    }
    if !((second >= 65 && second <= 90) || (second >= 97 && second <= 122) || (second >= 48
        && second <= 57)) {
        return Err(TagError::SecondNotAlphanumeric);
    }
    let tag: [u8; 2] = [first, second];
    assert(tag@ =~= seq![first, second]);
    Ok(tag)
}

/// The separator byte that a configured number stands for.
pub fn u8_from_number(v: u64) -> (r: Result<u8, SeparatorError>)
    ensures
        v <= 255 ==> r == Ok::<u8, SeparatorError>(v as u8),
        v > 255 ==> r == Err::<u8, SeparatorError>(SeparatorError::NumberTooLarge),
{
    if v <= 255 {
        Ok(v as u8)
    } else {
        Err(SeparatorError::NumberTooLarge)
    }
}

/// The separator byte that a configured string stands for: its one byte.
pub fn u8_from_char(v: &str) -> (r: Result<u8, SeparatorError>)
    ensures
        encode_utf8(v@).len() == 0 ==> r == Err::<u8, SeparatorError>(SeparatorError::EmptyString),
        encode_utf8(v@).len() == 1 ==> r == Ok::<u8, SeparatorError>(encode_utf8(v@)[0]),
        encode_utf8(v@).len() > 1 ==> r == Err::<u8, SeparatorError>(
            SeparatorError::MoreThanOneCharacter,
        ),
{
    let b = v.as_bytes();
    if b.len() == 0 {
        Err(SeparatorError::EmptyString)
    } else if b.len() == 1 {
        Ok(b[0])
    } else {
        Err(SeparatorError::MoreThanOneCharacter)
    }
}

/// The bytes of a configured string.
pub fn u8_from_string(s: &str) -> (r: Vec<u8>)
    ensures
        r@ == encode_utf8(s@),
{
    s.as_bytes_vec()
}

impl Source {
    pub open spec fn spec_check(&self) -> Result<(), ConfigError> {
        match self {
            Source::Gtf(gtf_config) => if gtf_config.filename@.len() == 0 {
                Err(ConfigError::EmptyGtfFilename)
            } else if gtf_config.feature@.len() == 0 {
                Err(ConfigError::EmptyGtfFeature)
            } else if gtf_config.id_attribute@.len() == 0 {
                Err(ConfigError::EmptyGtfIdAttribute)
            } else {
                Ok(())
            },
            _ => Ok(()),
        }
    }

    /// An annotation source names its file, its feature type and its
    /// identifier attribute.
    pub fn check(&self) -> (r: Result<(), ConfigError>)
        ensures
            r == self.spec_check(),
    {
        match self {
            Source::Gtf(gtf_config) => {
                if gtf_config.filename.as_str().is_empty() {
                    return Err(ConfigError::EmptyGtfFilename);
                }
                if gtf_config.feature.as_str().is_empty() {
                    return Err(ConfigError::EmptyGtfFeature);
                }
                if gtf_config.id_attribute.as_str().is_empty() {
                    return Err(ConfigError::EmptyGtfIdAttribute);
                }
                Ok(())
            },
            _ => Ok(()),
        }
    }
}

impl Input {
    pub open spec fn spec_check(&self) -> Result<(), ConfigError> {
        if self.bam@.len() == 0 {
            Err(ConfigError::EmptyBamFilename)
        } else {
            self.source.spec_check()
        }
    }

    /// The alignment file has a name, and the source is complete.
    pub fn check(&self) -> (r: Result<(), ConfigError>)
        ensures
            r == self.spec_check(),
    {
        if self.bam.as_str().is_empty() {
            return Err(ConfigError::EmptyBamFilename);
        }
        self.source.check()
    }
}

/// The first reference filter of the list that names no reference, by place.
pub open spec fn spec_first_bad_filter(filters: Seq<Filter>) -> int
    decreases filters.len(),
{
    if filters.len() == 0 {
        0
    } else if filters[0] matches Filter::Reference(f) && f.references@.len() == 0 {
        0
    } else {
        1 + spec_first_bad_filter(filters.drop_first())
    }
}

/// Whether an extractor's read region is empty.
pub open spec fn spec_bad_region(extraction: Option<UMIExtraction>) -> bool {
    extraction matches Some(UMIExtraction::ReadRegion(r)) && !(r.start < r.stop)
}

fn bad_region(extraction: &Option<UMIExtraction>) -> (r: bool)
    ensures
        r == spec_bad_region(*extraction),
{
    match extraction {
        Some(UMIExtraction::ReadRegion(r)) => !r.validate(),
        _ => false,
    }
}

impl Config {
    /// What the first check that fails reports, in the order: deduplication,
    /// filters, input, extractors.
    pub open spec fn spec_check(&self) -> Result<(), ConfigError> {
        match self.dedup.spec_check(self.umi.is_some(), self.cell_barcodes.is_some()) {
            Err(e) => Err(ConfigError::Dedup(e)),
            Ok(()) => if spec_first_bad_filter(self.filter@) < self.filter@.len() {
                Err(ConfigError::Filter(FilterError::NoReferences))
            } else {
                match self.input.spec_check() {
                    Err(e) => Err(e),
                    Ok(()) => if spec_bad_region(self.umi) || (self.cell_barcodes.is_some()
                        && spec_bad_region(Some(self.cell_barcodes.unwrap().extract))) {
                        Err(ConfigError::EmptyReadRegion)
                    } else {
                        Ok(())
                    },
                }
            },
        }
    }

    /// Checks the configuration as a whole, before any file is opened.
    pub fn check(&self) -> (r: Result<(), ConfigError>)
        ensures
            r == self.spec_check(),
            r is Ok ==> {
                &&& self.umi.is_some() ==> self.umi.unwrap().wf()
                &&& self.cell_barcodes.is_some() ==> self.cell_barcodes.unwrap().wf()
            },
    {
        match self.dedup.check(self.umi.is_some(), self.cell_barcodes.is_some()) {
            Err(e) => {
                return Err(ConfigError::Dedup(e));
            },
            Ok(()) => {},
        }
        let mut i: usize = 0;
        assert(self.filter@.skip(0) =~= self.filter@);
        while i < self.filter.len()
            invariant
                0 <= i <= self.filter.len(),
                self.dedup.spec_check(self.umi.is_some(), self.cell_barcodes.is_some()) is Ok,
                spec_first_bad_filter(self.filter@) == i + spec_first_bad_filter(
                    self.filter@.skip(i as int),
                ),
            decreases self.filter.len() - i,
        {
            proof {
                assert(self.filter@.skip(i as int)[0] == self.filter@[i as int]);
                assert(self.filter@.skip(i as int).drop_first() =~= self.filter@.skip(i as int + 1));
            }
            match self.filter[i].check() {
                Err(e) => {
                    proof {
                        let rest = self.filter@.skip(i as int);
                        assert(rest[0] matches Filter::Reference(f) && f.references@.len() == 0);
                        assert(spec_first_bad_filter(rest) == 0);
                    }
                    return Err(ConfigError::Filter(e));
                },
                Ok(()) => {},
            }
            i = i + 1;
        }
        match self.input.check() {
            Err(e) => {
                return Err(e);
            },
            Ok(()) => {},
        }
        if bad_region(&self.umi) {
            return Err(ConfigError::EmptyReadRegion);
        }
        match &self.cell_barcodes {
            Some(cb) => {
                match &cb.extract {
                    UMIExtraction::ReadRegion(r) => {
                        if !r.validate() {
                            return Err(ConfigError::EmptyReadRegion);
                        }
                    },
                    _ => {},
                }
            },
            None => {},
        }
        Ok(())
    }
}

} // verus!
