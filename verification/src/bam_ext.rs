use vstd::prelude::*;

verus! {

/// One operation of an alignment's CIGAR, with its length.
#[derive(Debug, Clone, Copy, PartialEq, Eq, Structural)]
pub enum Cigar {
    Match(u32),
    Ins(u32),
    Del(u32),
    RefSkip(u32),
    SoftClip(u32),
    HardClip(u32),
    Pad(u32),
    Equal(u32),
    Diff(u32),
}

/// The value of an auxiliary tag, as far as the engine tells kinds apart.
#[derive(Debug, Clone)]
pub enum Aux {
    Char(u8),
    I8(i8),
    U8(u8),
    I16(i16),
    U16(u16),
    I32(i32),
    U32(u32),
    String(String),
    Other,
}

/// An auxiliary field: the two bytes of its name and its value.
#[derive(Debug, Clone)]
pub struct AuxField {
    pub tag: [u8; 2],
    pub value: Aux,
}

/// What the engine reads of one alignment.
#[derive(Debug, Clone)]
pub struct Record {
    pub qname: Vec<u8>,
    pub tid: i32,
    /// Leftmost reference position, 0-based; -1 for an unaligned read.
    pub pos: i64,
    pub mapq: u8,
    pub reverse: bool,
    pub secondary: bool,
    pub first_in_template: bool,
    pub last_in_template: bool,
    pub cigar: Vec<Cigar>,
    pub seq: Vec<u8>,
    pub aux: Vec<AuxField>,
}

/// Why a record cannot be processed.
#[derive(Debug, Clone, Copy, PartialEq, Eq, Structural)]
pub enum RecordError {
    /// The read is unaligned, or its position is beyond `i32::MAX`.
    PositionOutOfRange,
    /// The alignment reaches beyond reference position `u32::MAX`.
    SpanOutOfRange,
    /// The read has more leading soft-clipped bases than the limit allows.
    SoftClipTooLong { skip: u32, max_skip_len: u32 },
    /// The limit on soft-clipped bases is beyond `i32::MAX`.
    SkipLimitOutOfRange,
    /// The `NH` tag holds something other than an unsigned integer.
    AlignmentCountNotUnsigned,
}

/// Reference bases that one operation consumes.
pub open spec fn spec_ref_len(op: Cigar) -> int {
    match op {
        Cigar::Match(l) | Cigar::Equal(l) | Cigar::Diff(l) | Cigar::Del(l) | Cigar::RefSkip(l) => l as int,
        _ => 0,
    }
}

/// Whether the operation aligns read bases to reference bases.
pub open spec fn spec_is_aligned(op: Cigar) -> bool {
    op is Match || op is Equal || op is Diff
}

/// The reference position reached after the first `k` operations.
pub open spec fn spec_ref_pos(pos: int, cigar: Seq<Cigar>, k: int) -> int
    decreases k,
{
    if k <= 0 {
        pos
    } else {
        spec_ref_pos(pos, cigar, k - 1) + spec_ref_len(cigar[k - 1])
    }
}

/// The aligned blocks among the first `k` operations: one half-open
/// reference interval for each match, equal or diff operation, in order.
pub open spec fn spec_blocks(pos: int, cigar: Seq<Cigar>, k: int) -> Seq<(u32, u32)>
    decreases k,
{
    if k <= 0 {
        Seq::empty()
    } else {
        let before = spec_blocks(pos, cigar, k - 1);
        let at = spec_ref_pos(pos, cigar, k - 1);
        if spec_is_aligned(cigar[k - 1]) {
            before.push((at as u32, (at + spec_ref_len(cigar[k - 1])) as u32))
        } else {
            before
        }
    }
}

/// The introns among the first `k` operations: one half-open reference
/// interval for each reference skip, in order.
pub open spec fn spec_introns(pos: int, cigar: Seq<Cigar>, k: int) -> Seq<(u32, u32)>
    decreases k,
{
    if k <= 0 {
        Seq::empty()
    } else {
        let before = spec_introns(pos, cigar, k - 1);
        let at = spec_ref_pos(pos, cigar, k - 1);
        if cigar[k - 1] is RefSkip {
            before.push((at as u32, (at + spec_ref_len(cigar[k - 1])) as u32))
        } else {
            before
        }
    }
}

/// Soft-clipped bases at the start of the read: the length of a soft clip
/// that is the first operation, or the second after a hard clip.
pub open spec fn spec_leading_softclips(cigar: Seq<Cigar>) -> int {
    if cigar.len() >= 1 && cigar[0] is SoftClip {
        cigar[0]->SoftClip_0 as int
    } else if cigar.len() >= 2 && cigar[0] is HardClip && cigar[1] is SoftClip {
        cigar[1]->SoftClip_0 as int
    } else {
        0
    }
}

/// The first field named `tag`, by position; `fields.len()` if there is none.
pub open spec fn spec_aux_index(fields: Seq<AuxField>, tag: Seq<u8>) -> int
    decreases fields.len(),
{
    if fields.len() == 0 {
        0
    } else if fields[0].tag@ == tag {
        0
    } else {
        1 + spec_aux_index(fields.drop_first(), tag)
    }
}

/// The reference position never falls along the operations of a CIGAR.
pub proof fn lemma_ref_pos_monotonic(pos: int, cigar: Seq<Cigar>, i: int, j: int)
    requires
        i <= j,
    ensures
        spec_ref_pos(pos, cigar, i) <= spec_ref_pos(pos, cigar, j),
        pos <= spec_ref_pos(pos, cigar, i),
    decreases j - i, i,
{
    if i > 0 {
        lemma_ref_pos_monotonic(pos, cigar, i - 1, i - 1);
    }
    if i < j {
        lemma_ref_pos_monotonic(pos, cigar, i, j - 1);
        if j - 1 < 0 {
        }
    }
}

/// Every block starts at or after the read's position, ends by the
/// alignment's end and is not inverted; their lengths sum to at most the
/// alignment's reference span.
pub proof fn lemma_blocks_within(pos: int, cigar: Seq<Cigar>, k: int)
    requires
        0 <= pos,
        0 <= k <= cigar.len(),
        spec_ref_pos(pos, cigar, cigar.len() as int) <= u32::MAX,
    ensures
        forall|b: int|
            0 <= b < spec_blocks(pos, cigar, k).len() ==> pos <= (#[trigger] spec_blocks(
                pos,
                cigar,
                k,
            )[b]).0 <= spec_blocks(pos, cigar, k)[b].1 <= spec_ref_pos(pos, cigar, k),
        spec_blocks(pos, cigar, k).len() <= k,
    decreases k,
{
    if k > 0 {
        lemma_blocks_within(pos, cigar, k - 1);
        lemma_ref_pos_monotonic(pos, cigar, k - 1, k);
        lemma_ref_pos_monotonic(pos, cigar, k, cigar.len() as int);
        lemma_ref_pos_monotonic(pos, cigar, k - 1, k - 1);
    }
}

impl Cigar {
    /// Reference bases that the operation consumes.
    pub fn ref_len(&self) -> (l: u32)
        ensures
            l == spec_ref_len(*self),
    {
        match self {
            Cigar::Match(l) | Cigar::Equal(l) | Cigar::Diff(l) | Cigar::Del(l) | Cigar::RefSkip(l) => *l,
            _ => 0,
        }
    }
}

impl Record {
    /// The reference position just past the alignment.
    pub open spec fn spec_end(&self) -> int {
        spec_ref_pos(self.pos as int, self.cigar@, self.cigar@.len() as int)
    }

    /// The read is aligned and its alignment lies within the positions that
    /// 32 bits can hold.
    pub open spec fn spec_fits(&self) -> bool {
        0 <= self.pos && self.spec_end() <= u32::MAX
    }

    /// The first field named `tag`, if any.
    pub open spec fn spec_aux(&self, tag: Seq<u8>) -> Option<Aux> {
        let i = spec_aux_index(self.aux@, tag);
        if i < self.aux@.len() {
            Some(self.aux@[i].value)
        } else {
            None
        }
    }

    /// The `NH` tag is absent or holds an unsigned integer.
    pub open spec fn spec_alignment_count_readable(&self) -> bool {
        match self.spec_aux(seq![78u8, 72u8]) {
            None => true,
            Some(v) => v is U8 || v is U16 || v is U32,
        }
    }

    /// The number of alignments that the `NH` tag reports; 1 without the tag.
    pub open spec fn spec_no_of_alignments(&self) -> int {
        match self.spec_aux(seq![78u8, 72u8]) {
            Some(Aux::U8(x)) => x as int,
            Some(Aux::U16(x)) => x as int,
            Some(Aux::U32(x)) => x as int,
            _ => 1,
        }
    }

    /// The position that the read would have without its leading soft clip.
    pub open spec fn spec_corrected_pos(&self) -> int {
        let p = self.pos - spec_leading_softclips(self.cigar@);
        if p < i32::MIN {
            i32::MIN as int
        } else {
            p
        }
    }

    /// Whether `fits` holds: the read is aligned and the alignment ends at or
    /// before reference position `u32::MAX`.
    pub fn fits(&self) -> (ok: bool)
        ensures
            ok == self.spec_fits(),
    {
        if self.pos < 0 || self.pos > u32::MAX as i64 {
            proof {
                lemma_ref_pos_monotonic(self.pos as int, self.cigar@, 0, self.cigar@.len() as int);
            }
            return false;
        }
        let mut at: u64 = self.pos as u64;
        let mut i: usize = 0;
        while i < self.cigar.len()
            invariant
                0 <= i <= self.cigar.len(),
                0 <= self.pos,
                at == spec_ref_pos(self.pos as int, self.cigar@, i as int),
                at <= u32::MAX,
            decreases self.cigar.len() - i,
        {
            let l = self.cigar[i].ref_len();
            at = at + l as u64;
            i = i + 1;
            if at > u32::MAX as u64 {
                proof {
                    lemma_ref_pos_monotonic(
                        self.pos as int,
                        self.cigar@,
                        i as int,
                        self.cigar@.len() as int,
                    );
                }
                return false;
            }
        }
        true
    }

    /// The reference intervals that the read's bases are aligned to: one per
    /// match, equal or diff operation of the CIGAR, in order.
    pub fn blocks(&self) -> (blocks: Vec<(u32, u32)>)
        requires
            self.spec_fits(),
        ensures
            blocks@ == spec_blocks(self.pos as int, self.cigar@, self.cigar@.len() as int),
    {
        let mut out: Vec<(u32, u32)> = Vec::new();
        let mut at: u32 = self.pos as u32;
        let mut i: usize = 0;
        proof {
            lemma_ref_pos_monotonic(self.pos as int, self.cigar@, 0, self.cigar@.len() as int);
        }
        while i < self.cigar.len()
            invariant
                0 <= i <= self.cigar.len(),
                self.spec_fits(),
                at == spec_ref_pos(self.pos as int, self.cigar@, i as int),
                out@ == spec_blocks(self.pos as int, self.cigar@, i as int),
            decreases self.cigar.len() - i,
        {
            proof {
                lemma_ref_pos_monotonic(
                    self.pos as int,
                    self.cigar@,
                    i as int + 1,
                    self.cigar@.len() as int,
                );
            }
            let op = self.cigar[i];
            let l = op.ref_len();
            match op {
                Cigar::Match(_) | Cigar::Equal(_) | Cigar::Diff(_) => {
                    out.push((at, at + l));
                },
                _ => {},
            }
            at = at + l;
            i = i + 1;
        }
        out
    }

    /// The reference intervals that the read skips: one per reference skip of
    /// the CIGAR, in order.
    pub fn introns(&self) -> (introns: Vec<(u32, u32)>)
        requires
            self.spec_fits(),
        ensures
            introns@ == spec_introns(self.pos as int, self.cigar@, self.cigar@.len() as int),
    {
        let mut out: Vec<(u32, u32)> = Vec::new();
        let mut at: u32 = self.pos as u32;
        let mut i: usize = 0;
        proof {
            lemma_ref_pos_monotonic(self.pos as int, self.cigar@, 0, self.cigar@.len() as int);
        }
        while i < self.cigar.len()
            invariant
                0 <= i <= self.cigar.len(),
                self.spec_fits(),
                at == spec_ref_pos(self.pos as int, self.cigar@, i as int),
                out@ == spec_introns(self.pos as int, self.cigar@, i as int),
            decreases self.cigar.len() - i,
        {
            proof {
                lemma_ref_pos_monotonic(
                    self.pos as int,
                    self.cigar@,
                    i as int + 1,
                    self.cigar@.len() as int,
                );
            }
            let op = self.cigar[i];
            let l = op.ref_len();
            match op {
                Cigar::RefSkip(_) => {
                    out.push((at, at + l));
                },
                _ => {},
            }
            at = at + l;
            i = i + 1;
        }
        out
    }

    /// Soft-clipped bases at the start of the read.
    pub fn leading_softclips(&self) -> (skip: u32)
        ensures
            skip == spec_leading_softclips(self.cigar@),
    {
        if self.cigar.len() >= 1 {
            match self.cigar[0] {
                Cigar::SoftClip(s) => {
                    return s;
                },
                Cigar::HardClip(_) => {
                    if self.cigar.len() >= 2 {
                        match self.cigar[1] {
                            Cigar::SoftClip(s) => {
                                return s;
                            },
                            _ => {},
                        }
                    }
                },
                _ => {},
            }
        }
        0
    }

    /// The position corrected for clipping: what the position would be if
    /// the leading soft-clipped bases were aligned as mismatches. Nothing for
    /// an unaligned read. The result may be negative.
    pub fn corrected_pos(&self, max_skip_len: u32) -> (r: Option<i32>)
        requires
            self.pos <= i32::MAX,
            max_skip_len <= i32::MAX,
            spec_leading_softclips(self.cigar@) <= max_skip_len,
        ensures
            self.pos < 0 ==> r.is_none(),
            self.pos >= 0 ==> r == Some(self.spec_corrected_pos() as i32),
            self.pos >= 0 ==> r.unwrap() == self.pos - spec_leading_softclips(self.cigar@),
    {
        if self.pos < 0 {
            None
        } else {
            let p: i32 = self.pos as i32;
            let skip: i32 = self.leading_softclips() as i32;
            Some(p - skip)
        }
    }

    /// The first field named `tag`, if any.
    pub fn aux(&self, tag: &[u8; 2]) -> (r: Option<&Aux>)
        ensures
            r.is_some() == self.spec_aux(tag@).is_some(),
            r.is_some() ==> *r.unwrap() == self.spec_aux(tag@).unwrap(),
    {
        let mut i: usize = 0;
        assert(self.aux@.skip(0) =~= self.aux@);
        while i < self.aux.len()
            invariant
                0 <= i <= self.aux.len(),
                spec_aux_index(self.aux@, tag@) == i + spec_aux_index(
                    self.aux@.skip(i as int),
                    tag@,
                ),
            decreases self.aux.len() - i,
        {
            let field = &self.aux[i];
            proof {
                assert(self.aux@.skip(i as int)[0] == self.aux@[i as int]);
                assert(self.aux@.skip(i as int).drop_first() =~= self.aux@.skip(i as int + 1));
                assert(field.tag@ =~= tag@ <==> (field.tag@[0] == tag@[0] && field.tag@[1]
                    == tag@[1]));
            }
            if field.tag[0] == tag[0] && field.tag[1] == tag[1] {
                return Some(&field.value);
            }
            i = i + 1;
        }
        None
    }

    /// The number of alignment positions of the read, from its `NH` tag;
    /// 1 where the tag is missing.
    pub fn no_of_alignments(&self) -> (n: u32)
        requires
            self.spec_alignment_count_readable(),
        ensures
            n == self.spec_no_of_alignments(),
    {
        let tag: [u8; 2] = [78u8, 72u8];
        assert(tag@ =~= seq![78u8, 72u8]);
        match self.aux(&tag) {
            Some(Aux::U8(x)) => *x as u32,
            Some(Aux::U16(x)) => *x as u32,
            Some(Aux::U32(x)) => *x,
            _ => 1,
        }
    }

    /// Whether the `NH` tag is absent or holds an unsigned integer.
    pub fn alignment_count_readable(&self) -> (ok: bool)
        ensures
            ok == self.spec_alignment_count_readable(),
    {
        let tag: [u8; 2] = [78u8, 72u8];
        assert(tag@ =~= seq![78u8, 72u8]);
        match self.aux(&tag) {
            None => true,
            Some(Aux::U8(_)) => true,
            Some(Aux::U16(_)) => true,
            Some(Aux::U32(_)) => true,
            Some(_) => false,
        }
    }

    /// Whether the record can be processed under the given limit on
    /// soft-clipped bases, and if not, why.
    pub fn check(&self, max_skip_len: u32) -> (r: Result<(), RecordError>)
        ensures
            r.is_ok() <==> (self.spec_fits() && self.pos <= i32::MAX && max_skip_len <= i32::MAX
                && spec_leading_softclips(self.cigar@) <= max_skip_len
                && self.spec_alignment_count_readable()),
            r == Err::<(), RecordError>(RecordError::PositionOutOfRange) <==> !(0 <= self.pos
                <= i32::MAX),
            r == Err::<(), RecordError>(RecordError::SpanOutOfRange) <==> (0 <= self.pos
                <= i32::MAX && !self.spec_fits()),
            r == Err::<(), RecordError>(RecordError::SkipLimitOutOfRange) <==> (0 <= self.pos
                <= i32::MAX && self.spec_fits() && max_skip_len > i32::MAX),
            r matches Err(RecordError::SoftClipTooLong { skip, max_skip_len: m }) ==> skip
                == spec_leading_softclips(self.cigar@) && m == max_skip_len,
            r is Err && r->Err_0 is SoftClipTooLong <==> (0 <= self.pos <= i32::MAX
                && self.spec_fits() && max_skip_len <= i32::MAX && spec_leading_softclips(
                self.cigar@,
            ) > max_skip_len),
            r == Err::<(), RecordError>(RecordError::AlignmentCountNotUnsigned) <==> (0
                <= self.pos <= i32::MAX && self.spec_fits() && max_skip_len <= i32::MAX
                && spec_leading_softclips(self.cigar@) <= max_skip_len
                && !self.spec_alignment_count_readable()),
    {
        if self.pos < 0 || self.pos > i32::MAX as i64 {
            return Err(RecordError::PositionOutOfRange);
        }
        if !self.fits() {
            return Err(RecordError::SpanOutOfRange);
        }
        if max_skip_len > i32::MAX as u32 {
            return Err(RecordError::SkipLimitOutOfRange);
        }
        let skip = self.leading_softclips();
        if skip > max_skip_len {
            return Err(RecordError::SoftClipTooLong { skip, max_skip_len });
        }
        let tag: [u8; 2] = [78u8, 72u8];
        assert(tag@ =~= seq![78u8, 72u8]);
        match self.aux(&tag) {
            None => Ok(()),
            Some(Aux::U8(_)) => Ok(()),
            Some(Aux::U16(_)) => Ok(()),
            Some(Aux::U32(_)) => Ok(()),
            Some(_) => Err(RecordError::AlignmentCountNotUnsigned),
        }
    }
}

} // verus!
