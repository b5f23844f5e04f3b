use crate::categorical::Categorical;
use crate::bytes::bytes_eq;
use crate::config::DuplicateHandling;
use crate::text::{
    bytes_lt, clone_string, decimal, is_sorted_order, lemma_bytes_lt_asymmetric,
    lemma_bytes_lt_irreflexive, lemma_decimal_digits, lemma_decimal_injective, sorted_order,
    spec_decimal, str_eq, tagged_le,
};
use vstd::utf8::*;
use vstd::prelude::*;
use vstd::string::*;

verus! {

/// Strand of an annotated region.
#[derive(Debug, Clone, Copy, PartialEq, Eq, Structural)]
pub enum Strand {
    Plus,
    Minus,
    Unstranded,
}

impl Strand {
    /// The strand that a column of an annotation row names: `+`, `-`, and
    /// `.` or `_` for no strand. Any other text names none.
    pub open spec fn spec_from_symbol(s: Seq<char>) -> Option<Strand> {
        if s == seq!['+'] {
            Some(Strand::Plus)
        } else if s == seq!['-'] {
            Some(Strand::Minus)
        } else if s == seq!['.'] || s == seq!['_'] {
            Some(Strand::Unstranded)
        } else {
            None
        }
    }

    /// The strand that a column of an annotation row names.
    pub fn from_symbol(s: &str) -> (r: Option<Strand>)
        ensures
            r == Self::spec_from_symbol(s@),
    {
        proof {
            reveal_strlit("+");
            reveal_strlit("-");
            reveal_strlit(".");
            reveal_strlit("_");
            assert("+"@ =~= seq!['+']);
            assert("-"@ =~= seq!['-']);
            assert("."@ =~= seq!['.']);
            assert("_"@ =~= seq!['_']);
        }
        if str_eq(s, "+") {
            Some(Strand::Plus)
        } else if str_eq(s, "-") {
            Some(Strand::Minus)
        } else if str_eq(s, ".") || str_eq(s, "_") {
            Some(Strand::Unstranded)
        } else {
            None
        }
    }

    /// The symbol of the strand: `+`, `-`, or `.` for no strand.
    pub fn as_symbol(&self) -> (s: &'static str)
        ensures
            s@ == match *self {
                Strand::Plus => seq!['+'],
                Strand::Minus => seq!['-'],
                Strand::Unstranded => seq!['.'],
            },
            Self::spec_from_symbol(s@) == Some(*self),
    {
        proof {
            reveal_strlit("+");
            reveal_strlit("-");
            reveal_strlit(".");
            assert("+"@ =~= seq!['+']);
            assert("-"@ =~= seq!['-']);
            assert("."@ =~= seq!['.']);
        }
        let s: &'static str = match self {
            Strand::Plus => "+",
            Strand::Minus => "-",
            Strand::Unstranded => ".",
        };
        proof {
            match *self {
                Strand::Plus => {
                    assert(s@ == "+"@);
                },
                Strand::Minus => {
                    assert(s@ == "-"@);
                    assert(seq!['-'][0] != seq!['+'][0]);
                },
                Strand::Unstranded => {
                    assert(s@ == "."@);
                    assert(seq!['.'][0] != seq!['+'][0]);
                    assert(seq!['.'][0] != seq!['-'][0]);
                },
            }
        }
        s
    }

    /// 1 for forward, -1 for reverse, 0 for no strand.
    pub fn sign(&self) -> (r: i8)
        ensures
            r == match *self {
                Strand::Plus => 1i8,
                Strand::Minus => -1i8,
                Strand::Unstranded => 0i8,
            },
    {
        match self {
            Strand::Plus => 1,
            Strand::Minus => -1,
            Strand::Unstranded => 0,
        }
    }
}

/// A column of strings under the name of its attribute.
#[derive(Debug)]
pub struct VecAttribute {
    pub name: String,
    pub values: Vec<String>,
}

/// A column of categories under the name of its attribute.
#[derive(Debug)]
pub struct CatAttribute {
    pub name: String,
    pub values: Categorical,
}

/// The rows of an annotation file that have one feature type, column by
/// column. Coordinates are 0-based and half-open.
#[derive(Debug)]
pub struct GTFEntrys {
    pub seqname: Categorical,
    pub start: Vec<u64>,
    pub end: Vec<u64>,
    pub strand: Vec<Strand>,
    pub cat_attributes: Vec<CatAttribute>,
    pub vec_attributes: Vec<VecAttribute>,
    pub count: u32,
}

/// Those of the first `n` values whose place `keep` marks, in order.
pub open spec fn spec_masked<T>(values: Seq<T>, keep: Seq<bool>, n: int) -> Seq<T>
    decreases n,
{
    if n <= 0 {
        Seq::empty()
    } else if keep[n - 1] {
        spec_masked(values, keep, n - 1).push(values[n - 1])
    } else {
        spec_masked(values, keep, n - 1)
    }
}

/// How many of the first `n` places `keep` marks.
pub open spec fn spec_kept(keep: Seq<bool>, n: int) -> int
    decreases n,
{
    if n <= 0 {
        0
    } else {
        spec_kept(keep, n - 1) + if keep[n - 1] {
            1int
        } else {
            0int
        }
    }
}

/// A mask keeps as many values as it has rows to keep, and no more than
/// there are.
pub proof fn lemma_masked_len<T>(values: Seq<T>, keep: Seq<bool>, n: int)
    ensures
        spec_masked(values, keep, n).len() == spec_kept(keep, n),
        0 <= spec_kept(keep, n),
        n >= 0 ==> spec_kept(keep, n) <= n,
    decreases n,
{
    if n > 0 {
        lemma_masked_len(values, keep, n - 1);
    }
}

fn mask_copy<T: Copy>(values: &Vec<T>, keep: &[bool]) -> (out: Vec<T>)
    requires
        values@.len() == keep@.len(),
    ensures
        out@ == spec_masked(values@, keep@, keep@.len() as int),
{
    let mut out: Vec<T> = Vec::new();
    let mut i: usize = 0;
    while i < keep.len()
        invariant
            0 <= i <= keep.len(),
            values@.len() == keep@.len(),
            out@ == spec_masked(values@, keep@, i as int),
        decreases keep.len() - i,
    {
        if keep[i] {
            out.push(values[i]);
        }
        i = i + 1;
    }
    out
}

fn mask_strings(values: &Vec<String>, keep: &[bool]) -> (out: Vec<String>)
    requires
        values@.len() == keep@.len(),
    ensures
        out@ == spec_masked(values@, keep@, keep@.len() as int),
{
    let mut out: Vec<String> = Vec::new();
    let mut i: usize = 0;
    while i < keep.len()
        invariant
            0 <= i <= keep.len(),
            values@.len() == keep@.len(),
            out@ == spec_masked(values@, keep@, i as int),
        decreases keep.len() - i,
    {
        if keep[i] {
            out.push(clone_string(&values[i]));
        }
        i = i + 1;
    }
    out
}

/// A column of `count` empty strings and then `value`.
pub fn vector_new_empty_push(count: u32, value: String) -> (res: Vec<String>)
    ensures
        res@.len() == count + 1,
        forall|i: int| 0 <= i < count ==> (#[trigger] res@[i])@ == Seq::<char>::empty(),
        res@[count as int] == value,
{
    let mut res: Vec<String> = Vec::new();
    let mut i: u32 = 0;
    while i < count
        invariant
            0 <= i <= count,
            res@.len() == i,
            forall|j: int| 0 <= j < i ==> (#[trigger] res@[j])@ == Seq::<char>::empty(),
        decreases count - i,
    {
        res.push(String::new());
        i = i + 1;
    }
    res.push(value);
    res
}

impl GTFEntrys {
    pub fn new() -> (e: GTFEntrys)
        ensures
            e.wf(),
            e.spec_rows() == 0,
            e.seqname.cats@.len() == 0,
            e.seqname.last@ == Seq::<char>::empty(),
            e.seqname.last_no == 0,
            e.cat_attributes@.len() == 0,
            e.vec_attributes@.len() == 0,
            e.count == 0,
    {
        GTFEntrys {
            seqname: Categorical::new(),
            start: Vec::new(),
            end: Vec::new(),
            strand: Vec::new(),
            cat_attributes: Vec::new(),
            vec_attributes: Vec::new(),
            count: 0,
        }
    }

    /// The number of rows.
    pub open spec fn spec_rows(&self) -> int {
        self.start@.len() as int
    }

    /// Every column has one value per row.
    pub open spec fn wf(&self) -> bool {
        &&& self.seqname.wf()
        &&& self.seqname.values@.len() == self.start@.len()
        &&& self.end@.len() == self.start@.len()
        &&& self.strand@.len() == self.start@.len()
        &&& forall|i: int|
            0 <= i < self.cat_attributes@.len() ==> (#[trigger] self.cat_attributes@[i]).values.wf()
                && self.cat_attributes@[i].values.values@.len() == self.start@.len()
        &&& forall|i: int|
            0 <= i < self.vec_attributes@.len() ==> (#[trigger] self.vec_attributes@[i]).values@.len()
                == self.start@.len()
    }

    /// The place of the column of strings named `name`, if there is one.
    pub fn vec_attribute(&self, name: &str) -> (r: Option<usize>)
        ensures
            r.is_some() ==> r.unwrap() < self.vec_attributes@.len() && self.vec_attributes@[r.unwrap() as int].name@
                == name@ && forall|j: int|
                0 <= j < r.unwrap() ==> (#[trigger] self.vec_attributes@[j]).name@ != name@,
            r.is_none() ==> forall|j: int|
                0 <= j < self.vec_attributes@.len() ==> (#[trigger] self.vec_attributes@[j]).name@
                    != name@,
    {
        let mut i: usize = 0;
        while i < self.vec_attributes.len()
            invariant
                0 <= i <= self.vec_attributes.len(),
                forall|j: int| 0 <= j < i ==> (#[trigger] self.vec_attributes@[j]).name@ != name@,
            decreases self.vec_attributes.len() - i,
        {
            if str_eq(self.vec_attributes[i].name.as_str(), name) {
                return Some(i);
            }
            i = i + 1;
        }
        None
    }

    /// Keeps the rows whose place `keep` marks and drops the others, in
    /// every column. An empty mask changes nothing.
    pub fn filter(&mut self, keep: &[bool])
        requires
            old(self).wf(),
            keep@.len() == old(self).spec_rows(),
        ensures
            final(self).wf(),
            final(self).spec_rows() == spec_kept(keep@, keep@.len() as int),
            final(self).seqname.cats == old(self).seqname.cats,
            final(self).seqname.values@ == spec_masked(
                old(self).seqname.values@,
                keep@,
                keep@.len() as int,
            ),
            final(self).start@ == spec_masked(old(self).start@, keep@, keep@.len() as int),
            final(self).end@ == spec_masked(old(self).end@, keep@, keep@.len() as int),
            final(self).strand@ == spec_masked(old(self).strand@, keep@, keep@.len() as int),
            final(self).count == old(self).count,
            final(self).vec_attributes@.len() == old(self).vec_attributes@.len(),
            forall|i: int|
                0 <= i < old(self).vec_attributes@.len() ==> (
                #[trigger] final(self).vec_attributes@[i]).name == old(self).vec_attributes@[i].name
                    && final(self).vec_attributes@[i].values@ == spec_masked(
                    old(self).vec_attributes@[i].values@,
                    keep@,
                    keep@.len() as int,
                ),
            final(self).cat_attributes@.len() == old(self).cat_attributes@.len(),
            forall|i: int|
                0 <= i < old(self).cat_attributes@.len() ==> (
                #[trigger] final(self).cat_attributes@[i]).name == old(self).cat_attributes@[i].name
                    && final(self).cat_attributes@[i].values.cats
                    == old(self).cat_attributes@[i].values.cats
                    && final(self).cat_attributes@[i].values.values@ == spec_masked(
                    old(self).cat_attributes@[i].values.values@,
                    keep@,
                    keep@.len() as int,
                ),
    {
        let n = keep.len();
        let ghost before = *self;
        proof {
            lemma_masked_len(self.start@, keep@, n as int);
            lemma_masked_len(self.end@, keep@, n as int);
            lemma_masked_len(self.strand@, keep@, n as int);
            lemma_masked_len(self.seqname.values@, keep@, n as int);
        }
        let values = mask_copy(&self.seqname.values, keep);
        proof {
            Self::lemma_masked_below(
                self.seqname.values@,
                keep@,
                n as int,
                self.seqname.cats@.len() as int,
            );
        }
        self.seqname.values = values;
        self.start = mask_copy(&self.start, keep);
        self.end = mask_copy(&self.end, keep);
        self.strand = mask_copy(&self.strand, keep);
        let mut i: usize = 0;
        while i < self.cat_attributes.len()
            invariant
                0 <= i <= self.cat_attributes.len(),
                n == keep@.len(),
                n == before.start@.len(),
                before.wf(),
                self.cat_attributes@.len() == before.cat_attributes@.len(),
                self.vec_attributes == before.vec_attributes,
                self.seqname.wf(),
                self.seqname.cats == before.seqname.cats,
                self.seqname.values@ == spec_masked(before.seqname.values@, keep@, n as int),
                self.start@ == spec_masked(before.start@, keep@, n as int),
                self.end@ == spec_masked(before.end@, keep@, n as int),
                self.strand@ == spec_masked(before.strand@, keep@, n as int),
                self.count == before.count,
                forall|j: int|
                    i <= j < self.cat_attributes@.len() ==> (#[trigger] self.cat_attributes@[j])
                        == before.cat_attributes@[j],
                forall|j: int|
                    0 <= j < i ==> (#[trigger] self.cat_attributes@[j]).name
                        == before.cat_attributes@[j].name && self.cat_attributes@[j].values.cats
                        == before.cat_attributes@[j].values.cats
                        && self.cat_attributes@[j].values.values@ == spec_masked(
                        before.cat_attributes@[j].values.values@,
                        keep@,
                        n as int,
                    ) && self.cat_attributes@[j].values.wf(),
            decreases self.cat_attributes.len() - i,
        {
            assert(self.cat_attributes@[i as int] == before.cat_attributes@[i as int]);
            let masked = mask_copy(&self.cat_attributes[i].values.values, keep);
            proof {
                Self::lemma_masked_below(
                    before.cat_attributes@[i as int].values.values@,
                    keep@,
                    n as int,
                    before.cat_attributes@[i as int].values.cats@.len() as int,
                );
            }
            self.cat_attributes[i].values.values = masked;
            i = i + 1;
        }
        let mut k: usize = 0;
        while k < self.vec_attributes.len()
            invariant
                0 <= k <= self.vec_attributes.len(),
                n == keep@.len(),
                n == before.start@.len(),
                before.wf(),
                self.vec_attributes@.len() == before.vec_attributes@.len(),
                self.seqname.wf(),
                self.seqname.cats == before.seqname.cats,
                self.seqname.values@ == spec_masked(before.seqname.values@, keep@, n as int),
                self.start@ == spec_masked(before.start@, keep@, n as int),
                self.end@ == spec_masked(before.end@, keep@, n as int),
                self.strand@ == spec_masked(before.strand@, keep@, n as int),
                self.count == before.count,
                self.cat_attributes@.len() == before.cat_attributes@.len(),
                forall|j: int|
                    0 <= j < self.cat_attributes@.len() ==> (#[trigger] self.cat_attributes@[j]).name
                        == before.cat_attributes@[j].name && self.cat_attributes@[j].values.cats
                        == before.cat_attributes@[j].values.cats
                        && self.cat_attributes@[j].values.values@ == spec_masked(
                        before.cat_attributes@[j].values.values@,
                        keep@,
                        n as int,
                    ) && self.cat_attributes@[j].values.wf(),
                forall|j: int|
                    k <= j < self.vec_attributes@.len() ==> (#[trigger] self.vec_attributes@[j])
                        == before.vec_attributes@[j],
                forall|j: int|
                    0 <= j < k ==> (#[trigger] self.vec_attributes@[j]).name
                        == before.vec_attributes@[j].name && self.vec_attributes@[j].values@
                        == spec_masked(before.vec_attributes@[j].values@, keep@, n as int),
            decreases self.vec_attributes.len() - k,
        {
            assert(self.vec_attributes@[k as int] == before.vec_attributes@[k as int]);
            let masked = mask_strings(&self.vec_attributes[k].values, keep);
            self.vec_attributes[k].values = masked;
            k = k + 1;
        }
        proof {
            assert forall|j: int| 0 <= j < self.cat_attributes@.len() implies (
            #[trigger] self.cat_attributes@[j]).values.values@.len() == self.start@.len() by {
                lemma_masked_len(before.cat_attributes@[j].values.values@, keep@, n as int);
            }
            assert forall|j: int| 0 <= j < self.vec_attributes@.len() implies (
            #[trigger] self.vec_attributes@[j]).values@.len() == self.start@.len() by {
                lemma_masked_len(before.vec_attributes@[j].values@, keep@, n as int);
            }
        }
    }

    proof fn lemma_masked_below(values: Seq<u32>, keep: Seq<bool>, n: int, bound: int)
        requires
            0 <= n <= values.len(),
            forall|i: int| 0 <= i < values.len() ==> (#[trigger] values[i]) < bound,
        ensures
            forall|i: int|
                0 <= i < spec_masked(values, keep, n).len() ==> (#[trigger] spec_masked(
                    values,
                    keep,
                    n,
                )[i]) < bound,
        decreases n,
    {
        if n > 0 {
            Self::lemma_masked_below(values, keep, n - 1, bound);
            let before = spec_masked(values, keep, n - 1);
            let now = spec_masked(values, keep, n);
            assert forall|i: int| 0 <= i < now.len() implies (#[trigger] now[i]) < bound by {
                if i < before.len() {
                    assert(now[i] == before[i]);
                } else {
                    assert(now[i] == values[n - 1]);
                }
            }
        }
    }
}

/// Whether row `i` repeats an earlier row: the same start, end and identifier.
pub open spec fn spec_is_duplicate(starts: Seq<u64>, ends: Seq<u64>, ids: Seq<String>, i: int) -> bool {
    exists|j: int|
        0 <= j < i && #[trigger] starts[j] == starts[i] && ends[j] == ends[i] && ids[j]@ == ids[i]@
}

/// The eight bytes of a number, the highest first.
pub open spec fn spec_be(x: u64) -> Seq<u8> {
    seq![
        (x >> 56) as u8,
        ((x >> 48) & 0xff) as u8,
        ((x >> 40) & 0xff) as u8,
        ((x >> 32) & 0xff) as u8,
        ((x >> 24) & 0xff) as u8,
        ((x >> 16) & 0xff) as u8,
        ((x >> 8) & 0xff) as u8,
        (x & 0xff) as u8,
    ]
}

/// The bytes that stand for a row when rows are compared: start, end and
/// identifier, one after the other.
pub open spec fn spec_key_bytes(start: u64, end: u64, id: Seq<char>) -> Seq<u8> {
    spec_be(start) + spec_be(end) + encode_utf8(id)
}

proof fn lemma_be_injective(x: u64, y: u64)
    requires
        spec_be(x) == spec_be(y),
    ensures
        x == y,
{
    let a = spec_be(x);
    let b = spec_be(y);
    assert(a[0] == b[0] && a[1] == b[1] && a[2] == b[2] && a[3] == b[3] && a[4] == b[4] && a[5]
        == b[5] && a[6] == b[6] && a[7] == b[7]);
    assert(((x >> 56) as u8 == (y >> 56) as u8 && ((x >> 48) & 0xff) as u8 == ((y >> 48)
        & 0xff) as u8 && ((x >> 40) & 0xff) as u8 == ((y >> 40) & 0xff) as u8 && ((x >> 32)
        & 0xff) as u8 == ((y >> 32) & 0xff) as u8 && ((x >> 24) & 0xff) as u8 == ((y >> 24)
        & 0xff) as u8 && ((x >> 16) & 0xff) as u8 == ((y >> 16) & 0xff) as u8 && ((x >> 8)
        & 0xff) as u8 == ((y >> 8) & 0xff) as u8 && (x & 0xff) as u8 == (y & 0xff) as u8) ==> x
        == y) by (bit_vector);
}

proof fn lemma_key_bytes_injective(s1: u64, e1: u64, id1: Seq<char>, s2: u64, e2: u64, id2: Seq<char>)
    requires
        spec_key_bytes(s1, e1, id1) == spec_key_bytes(s2, e2, id2),
    ensures
        s1 == s2,
        e1 == e2,
        id1 == id2,
{
    broadcast use encode_utf8_decode_utf8;

    let k1 = spec_key_bytes(s1, e1, id1);
    let k2 = spec_key_bytes(s2, e2, id2);
    assert(k1.subrange(0, 8) =~= spec_be(s1));
    assert(k2.subrange(0, 8) =~= spec_be(s2));
    assert(k1.subrange(8, 16) =~= spec_be(e1));
    assert(k2.subrange(8, 16) =~= spec_be(e2));
    assert(k1.subrange(16, k1.len() as int) =~= encode_utf8(id1));
    assert(k2.subrange(16, k2.len() as int) =~= encode_utf8(id2));
    lemma_be_injective(s1, s2);
    lemma_be_injective(e1, e2);
    assert(decode_utf8(encode_utf8(id1)) == decode_utf8(encode_utf8(id2)));
}

fn push_be(out: &mut Vec<u8>, x: u64)
    ensures
        final(out)@ == old(out)@ + spec_be(x),
{
    out.push((x >> 56) as u8);
    out.push(((x >> 48) & 0xff) as u8);
    out.push(((x >> 40) & 0xff) as u8);
    out.push(((x >> 32) & 0xff) as u8);
    out.push(((x >> 24) & 0xff) as u8);
    out.push(((x >> 16) & 0xff) as u8);
    out.push(((x >> 8) & 0xff) as u8);
    out.push((x & 0xff) as u8);
    assert(out@ =~= old(out)@ + spec_be(x));
}

fn key_bytes(start: u64, end: u64, id: &String) -> (key: Vec<u8>)
    ensures
        key@ == spec_key_bytes(start, end, id@),
{
    let mut key: Vec<u8> = Vec::new();
    push_be(&mut key, start);
    push_be(&mut key, end);
    let bytes = id.as_str().as_bytes();
    let mut i: usize = 0;
    let ghost base = key@;
    while i < bytes.len()
        invariant
            0 <= i <= bytes.len(),
            key@ == base + bytes@.take(i as int),
        decreases bytes.len() - i,
    {
        key.push(bytes[i]);
        assert(key@ =~= base + bytes@.take(i + 1));
        i = i + 1;
    }
    assert(bytes@.take(bytes@.len() as int) =~= bytes@);
    assert(key@ =~= spec_key_bytes(start, end, id@));
    key
}

/// For every row, whether it repeats an earlier row.
pub fn duplicate_mask(starts: &Vec<u64>, ends: &Vec<u64>, ids: &Vec<String>) -> (dup: Vec<bool>)
    requires
        starts@.len() == ends@.len(),
        starts@.len() == ids@.len(),
    ensures
        dup@.len() == starts@.len(),
        forall|i: int|
            0 <= i < dup@.len() ==> #[trigger] dup@[i] == spec_is_duplicate(starts@, ends@, ids@, i),
{
    let n = starts.len();
    let mut keys: Vec<Vec<u8>> = Vec::new();
    let mut i: usize = 0;
    while i < n
        invariant
            0 <= i <= n,
            n == starts@.len(),
            n == ends@.len(),
            n == ids@.len(),
            keys@.len() == i,
            forall|j: int|
                0 <= j < i ==> (#[trigger] keys@[j])@ == spec_key_bytes(
                    starts@[j],
                    ends@[j],
                    ids@[j]@,
                ),
        decreases n - i,
    {
        keys.push(key_bytes(starts[i], ends[i], &ids[i]));
        i = i + 1;
    }
    let order = sorted_order(&keys);
    let ghost views = keys@.map_values(|k: Vec<u8>| k@);
    let mut dup: Vec<bool> = Vec::new();
    let mut k: usize = 0;
    while k < n
        invariant
            0 <= k <= n,
            dup@.len() == k,
            forall|j: int| 0 <= j < k ==> !(#[trigger] dup@[j]),
        decreases n - k,
    {
        dup.push(false);
        k = k + 1;
    }
    let mut p: usize = 1;
    while p < n
        invariant
            1 <= p,
            n == starts@.len(),
            n == ends@.len(),
            n == ids@.len(),
            keys@.len() == n,
            dup@.len() == n,
            views == keys@.map_values(|k: Vec<u8>| k@),
            is_sorted_order(views, order@),
            forall|q: int|
                1 <= q < p && q < n ==> dup@[(#[trigger] order@[q]) as int] == (views[order@[q] as int]
                    == views[order@[q - 1] as int]),
            forall|q: int| p <= q < n ==> !dup@[(#[trigger] order@[q]) as int],
            n > 0 ==> !dup@[order@[0] as int],
        decreases n - p,
    {
        let row = order[p];
        let prev = order[p - 1];
        let same = bytes_eq(keys[row].as_slice(), keys[prev].as_slice());
        let ghost before = dup@;
        dup.set(row, same);
        proof {
            assert forall|q: int| 1 <= q < p + 1 && q < n implies dup@[(
            #[trigger] order@[q]) as int] == (views[order@[q] as int] == views[order@[q
                - 1] as int]) by {
                if q < p {
                    assert(order@[q] != order@[p as int]);
                    assert(dup@[order@[q] as int] == before[order@[q] as int]);
                }
            }
            assert forall|q: int| p + 1 <= q < n implies !dup@[(#[trigger] order@[q]) as int] by {
                assert(order@[q] != order@[p as int]);
                assert(dup@[order@[q] as int] == before[order@[q] as int]);
            }
            assert(order@[0] != order@[p as int]);
        }
        p = p + 1;
    }
    proof {
        assert forall|i: int| 0 <= i < dup@.len() implies #[trigger] dup@[i] == spec_is_duplicate(
            starts@,
            ends@,
            ids@,
            i,
        ) by {
            assert(order@.contains(i as usize));
            let p = choose|p: int| 0 <= p < order@.len() && order@[p] == i as usize;
            let key_i = views[i];
            assert(key_i == spec_key_bytes(starts@[i], ends@[i], ids@[i]@));
            if spec_is_duplicate(starts@, ends@, ids@, i) {
                let j = choose|j: int|
                    0 <= j < i && #[trigger] starts@[j] == starts@[i] && ends@[j] == ends@[i]
                        && ids@[j]@ == ids@[i]@;
                assert(views[j] == spec_key_bytes(starts@[j], ends@[j], ids@[j]@));
                assert(views[j] == key_i);
                assert(order@.contains(j as usize));
                let q = choose|q: int| 0 <= q < order@.len() && order@[q] == j as usize;
                lemma_bytes_lt_irreflexive(key_i);
                if q > p {
                    assert(tagged_le((views[order@[p] as int], order@[p]), (views[order@[q] as int], order@[q])));
                    assert(false);
                }
                assert(q < p);
                let prev = order@[p - 1];
                if q < p - 1 {
                    assert(tagged_le((views[order@[q] as int], order@[q]), (views[order@[p - 1] as int], order@[p - 1])));
                    assert(tagged_le((views[order@[p - 1] as int], order@[p - 1]), (views[order@[p] as int], order@[p])));
                    let kp = views[prev as int];
                    if kp != key_i {
                        assert(bytes_lt(key_i, kp));
                        assert(bytes_lt(kp, key_i));
                        lemma_bytes_lt_asymmetric(key_i, kp);
                    }
                }
                assert(views[prev as int] == key_i);
                assert(dup@[order@[p] as int]);
            }
            if dup@[i] {
                assert(p >= 1);
                let prev = order@[p - 1];
                assert(views[prev as int] == key_i);
                assert(tagged_le((views[order@[p - 1] as int], order@[p - 1]), (views[order@[p] as int], order@[p])));
                lemma_bytes_lt_irreflexive(key_i);
                assert(prev <= i);
                assert(order@[p - 1] != order@[p]);
                assert(views[prev as int] == spec_key_bytes(
                    starts@[prev as int],
                    ends@[prev as int],
                    ids@[prev as int]@,
                ));
                lemma_key_bytes_injective(
                    starts@[prev as int],
                    ends@[prev as int],
                    ids@[prev as int]@,
                    starts@[i],
                    ends@[i],
                    ids@[i]@,
                );
                assert(starts@[prev as int] == starts@[i]);
            }
        }
    }
    dup
}

/// Why duplicate rows could not be handled.
#[derive(Debug, Clone, Copy, PartialEq, Eq, Structural)]
pub enum DuplicateError {
    /// The rows have no column for the identifier that duplicates go by.
    AttributeNotFound,
}

/// The identifier that a repeated row gets: its identifier, a hyphen and
/// the number of its row.
pub open spec fn spec_renamed(id: Seq<char>, row: int) -> Seq<char> {
    id + "-"@ + spec_decimal(row as nat)
}

impl GTFEntrys {
    /// The place of the first column of strings named `name`; the number
    /// of such columns if there is none.
    pub open spec fn spec_vec_attribute(&self, name: Seq<char>) -> int
        decreases self.vec_attributes@.len(),
    {
        Self::spec_attribute_position(self.vec_attributes@, name)
    }

    pub open spec fn spec_attribute_position(columns: Seq<VecAttribute>, name: Seq<char>) -> int
        decreases columns.len(),
    {
        if columns.len() == 0 {
            0
        } else if columns[0].name@ == name {
            0
        } else {
            1 + Self::spec_attribute_position(columns.drop_first(), name)
        }
    }

    /// The first column of a name is the place that looking for the name
    /// gives.
    pub proof fn lemma_attribute_position(columns: Seq<VecAttribute>, name: Seq<char>, at: int)
        requires
            0 <= at <= columns.len(),
            forall|j: int| 0 <= j < at ==> (#[trigger] columns[j]).name@ != name,
            at < columns.len() ==> columns[at].name@ == name,
        ensures
            Self::spec_attribute_position(columns, name) == at,
        decreases columns.len(),
    {
        if columns.len() > 0 && at > 0 {
            assert(columns[0].name@ != name);
            let rest = columns.drop_first();
            assert forall|j: int| 0 <= j < at - 1 implies (#[trigger] rest[j]).name@ != name by {
                assert(rest[j] == columns[j + 1]);
            }
            if at - 1 < rest.len() {
                assert(rest[at - 1] == columns[at]);
            }
            Self::lemma_attribute_position(rest, name, at - 1);
        }
    }

    /// The column at the place that looking for a name gives has that name.
    pub proof fn lemma_attribute_found(columns: Seq<VecAttribute>, name: Seq<char>)
        ensures
            0 <= Self::spec_attribute_position(columns, name) <= columns.len(),
            Self::spec_attribute_position(columns, name) < columns.len() ==> columns[Self::spec_attribute_position(
                columns,
                name,
            )].name@ == name,
        decreases columns.len(),
    {
        if columns.len() > 0 && columns[0].name@ != name {
            let rest = columns.drop_first();
            Self::lemma_attribute_found(rest, name);
            let at = Self::spec_attribute_position(rest, name);
            if at < rest.len() {
                assert(rest[at] == columns[at + 1]);
            }
        }
    }

    /// The mask that keeps every row but those that repeat an earlier row.
    pub open spec fn spec_first_occurrences(
        starts: Seq<u64>,
        ends: Seq<u64>,
        ids: Seq<String>,
    ) -> Seq<bool> {
        Seq::new(starts.len(), |i: int| !spec_is_duplicate(starts, ends, ids, i))
    }

    /// Whether the rows `after` are the rows `before` without those that
    /// repeat the start, the end and the identifier `id_attribute` of an
    /// earlier row: every column, of strings or of categories, keeps its
    /// name and the values of the rows that stay.
    pub open spec fn spec_collapsed(before: GTFEntrys, after: GTFEntrys, id_attribute: Seq<char>) -> bool {
        let at = before.spec_vec_attribute(id_attribute);
        let keep = Self::spec_first_occurrences(
            before.start@,
            before.end@,
            before.vec_attributes@[at].values@,
        );
        let n = before.spec_rows();
        &&& after.spec_rows() == spec_kept(keep, n)
        &&& after.seqname.cats == before.seqname.cats
        &&& after.seqname.values@ == spec_masked(before.seqname.values@, keep, n)
        &&& after.start@ == spec_masked(before.start@, keep, n)
        &&& after.end@ == spec_masked(before.end@, keep, n)
        &&& after.strand@ == spec_masked(before.strand@, keep, n)
        &&& after.count == before.count
        &&& after.vec_attributes@.len() == before.vec_attributes@.len()
        &&& forall|i: int|
            0 <= i < before.vec_attributes@.len() ==> (#[trigger] after.vec_attributes@[i]).name
                == before.vec_attributes@[i].name && after.vec_attributes@[i].values@
                == spec_masked(before.vec_attributes@[i].values@, keep, n)
        &&& after.cat_attributes@.len() == before.cat_attributes@.len()
        &&& forall|i: int|
            0 <= i < before.cat_attributes@.len() ==> (#[trigger] after.cat_attributes@[i]).name
                == before.cat_attributes@[i].name && after.cat_attributes@[i].values.cats
                == before.cat_attributes@[i].values.cats && after.cat_attributes@[i].values.values@
                == spec_masked(before.cat_attributes@[i].values.values@, keep, n)
    }

    /// Whether the rows `after` are the rows `before` with a new identifier
    /// `id_attribute` for every row that repeats the start, the end and the
    /// identifier of an earlier row: the old identifier, a hyphen and the
    /// number of the row.
    pub open spec fn spec_renamed_rows(before: GTFEntrys, after: GTFEntrys, id_attribute: Seq<char>) -> bool {
        let at = before.spec_vec_attribute(id_attribute);
        let ids = before.vec_attributes@[at].values@;
        &&& after.seqname == before.seqname
        &&& after.start == before.start
        &&& after.end == before.end
        &&& after.strand == before.strand
        &&& after.cat_attributes == before.cat_attributes
        &&& after.count == before.count
        &&& after.vec_attributes@.len() == before.vec_attributes@.len()
        &&& forall|c: int|
            0 <= c < before.vec_attributes@.len() && c != at ==> (#[trigger] after.vec_attributes@[c])
                == before.vec_attributes@[c]
        &&& after.vec_attributes@[at].name == before.vec_attributes@[at].name
        &&& after.vec_attributes@[at].values@.len() == ids.len()
        &&& forall|i: int|
            0 <= i < ids.len() ==> (#[trigger] after.vec_attributes@[at].values@[i])@
                == if spec_is_duplicate(before.start@, before.end@, ids, i) {
                spec_renamed(ids[i]@, i)
            } else {
                ids[i]@
            }
    }

    /// Drops every row that repeats the start, end and identifier of an
    /// earlier row; the first of equal rows stays.
    pub fn collapse_duplicates(&mut self, id_attribute: &str) -> (r: Result<(), DuplicateError>)
        requires
            old(self).wf(),
        ensures
            final(self).wf(),
            r is Err <==> old(self).spec_vec_attribute(id_attribute@) >= old(self).vec_attributes@.len(),
            r is Err ==> *final(self) == *old(self),
            r is Ok ==> Self::spec_collapsed(*old(self), *final(self), id_attribute@),
    {
        let at = match self.vec_attribute(id_attribute) {
            Some(at) => at,
            None => {
                proof {
                    Self::lemma_attribute_position(
                        self.vec_attributes@,
                        id_attribute@,
                        self.vec_attributes@.len() as int,
                    );
                }
                return Err(DuplicateError::AttributeNotFound);
            },
        };
        proof {
            Self::lemma_attribute_position(self.vec_attributes@, id_attribute@, at as int);
        }
        let dup = duplicate_mask(&self.start, &self.end, &self.vec_attributes[at].values);
        let mut keep: Vec<bool> = Vec::new();
        let mut i: usize = 0;
        while i < dup.len()
            invariant
                0 <= i <= dup.len(),
                keep@.len() == i,
                forall|j: int| 0 <= j < i ==> #[trigger] keep@[j] == !dup@[j],
            decreases dup.len() - i,
        {
            keep.push(!dup[i]);
            i = i + 1;
        }
        proof {
            assert(keep@ =~= Self::spec_first_occurrences(
                self.start@,
                self.end@,
                self.vec_attributes@[at as int].values@,
            ));
        }
        self.filter(keep.as_slice());
        Ok(())
    }

    /// Gives every row that repeats the start, end and identifier of an
    /// earlier row a new identifier: the old one, a hyphen and the number of
    /// the row. Rows are compared by the identifiers they came with.
    pub fn rename_duplicates(&mut self, id_attribute: &str) -> (r: Result<(), DuplicateError>)
        requires
            old(self).wf(),
        ensures
            final(self).wf(),
            r is Err <==> old(self).spec_vec_attribute(id_attribute@) >= old(self).vec_attributes@.len(),
            r is Err ==> *final(self) == *old(self),
            r is Ok ==> Self::spec_renamed_rows(*old(self), *final(self), id_attribute@),
    {
        let at = match self.vec_attribute(id_attribute) {
            Some(at) => at,
            None => {
                proof {
                    Self::lemma_attribute_position(
                        self.vec_attributes@,
                        id_attribute@,
                        self.vec_attributes@.len() as int,
                    );
                }
                return Err(DuplicateError::AttributeNotFound);
            },
        };
        proof {
            Self::lemma_attribute_position(self.vec_attributes@, id_attribute@, at as int);
        }
        let dup = duplicate_mask(&self.start, &self.end, &self.vec_attributes[at].values);
        let ghost before = *self;
        let ghost ids = self.vec_attributes@[at as int].values@;
        let n = dup.len();
        let mut i: usize = 0;
        while i < n
            invariant
                0 <= i <= n,
                n == dup@.len(),
                n == ids.len(),
                before.wf(),
                before == *old(self),
                at < before.vec_attributes@.len(),
                ids == before.vec_attributes@[at as int].values@,
                self.seqname == before.seqname,
                self.start == before.start,
                self.end == before.end,
                self.strand == before.strand,
                self.cat_attributes == before.cat_attributes,
                self.count == before.count,
                self.vec_attributes@.len() == before.vec_attributes@.len(),
                forall|c: int|
                    0 <= c < before.vec_attributes@.len() && c != at ==> (
                    #[trigger] self.vec_attributes@[c]) == before.vec_attributes@[c],
                self.vec_attributes@[at as int].name == before.vec_attributes@[at as int].name,
                self.vec_attributes@[at as int].values@.len() == n,
                forall|j: int|
                    0 <= j < n ==> #[trigger] dup@[j] == spec_is_duplicate(
                        before.start@,
                        before.end@,
                        ids,
                        j,
                    ),
                forall|j: int|
                    i <= j < n ==> (#[trigger] self.vec_attributes@[at as int].values@[j]) == ids[j],
                forall|j: int|
                    0 <= j < i ==> (#[trigger] self.vec_attributes@[at as int].values@[j])@ == if dup@[j] {
                        spec_renamed(ids[j]@, j)
                    } else {
                        ids[j]@
                    },
            decreases n - i,
        {
            if dup[i] {
                let mut id = clone_string(&self.vec_attributes[at].values[i]);
                id.append("-");
                id.append(decimal(i as u64).as_str());
                assert(id@ =~= spec_renamed(ids[i as int]@, i as int));
                self.vec_attributes[at].values.set(i, id);
            }
            i = i + 1;
        }
        Ok(())
    }

    /// Handles repeated rows as configured.
    pub fn handle_duplicates(&mut self, handling: DuplicateHandling, id_attribute: &str) -> (r: Result<
        (),
        DuplicateError,
    >)
        requires
            old(self).wf(),
        ensures
            final(self).wf(),
            r is Err <==> old(self).spec_vec_attribute(id_attribute@) >= old(self).vec_attributes@.len(),
            r is Err ==> *final(self) == *old(self),
            r is Ok ==> match handling {
                DuplicateHandling::Collapse => Self::spec_collapsed(
                    *old(self),
                    *final(self),
                    id_attribute@,
                ),
                DuplicateHandling::Rename => Self::spec_renamed_rows(
                    *old(self),
                    *final(self),
                    id_attribute@,
                ),
            },
    {
        match handling {
            DuplicateHandling::Collapse => self.collapse_duplicates(id_attribute),
            DuplicateHandling::Rename => self.rename_duplicates(id_attribute),
        }
    }
}

/// The row that the value at place `a` of a masked column came from:
/// the `a`-th of the first `n` rows that the mask keeps.
pub open spec fn spec_origin(keep: Seq<bool>, n: int, a: int) -> int
    decreases n,
{
    if n <= 0 {
        -1
    } else if keep[n - 1] && a == spec_kept(keep, n - 1) {
        n - 1
    } else {
        spec_origin(keep, n - 1, a)
    }
}

/// Every kept value is the value of the row that it came from.
pub proof fn lemma_origin<T>(values: Seq<T>, keep: Seq<bool>, n: int, a: int)
    requires
        0 <= n <= keep.len(),
        0 <= a < spec_kept(keep, n),
    ensures
        0 <= spec_origin(keep, n, a) < n,
        keep[spec_origin(keep, n, a)],
        spec_masked(values, keep, n)[a] == values[spec_origin(keep, n, a)],
        spec_kept(keep, spec_origin(keep, n, a)) == a,
    decreases n,
{
    lemma_masked_len(values, keep, n);
    lemma_masked_len(values, keep, n - 1);
    if n > 0 {
        if keep[n - 1] && a == spec_kept(keep, n - 1) {
        } else {
            lemma_origin(values, keep, n - 1, a);
        }
    }
}

proof fn lemma_kept_monotonic(keep: Seq<bool>, i: int, j: int)
    requires
        0 <= i <= j,
    ensures
        spec_kept(keep, i) <= spec_kept(keep, j),
        keep[i] && i < j ==> spec_kept(keep, i) < spec_kept(keep, j),
    decreases j - i,
{
    if i < j {
        lemma_kept_monotonic(keep, i, j - 1);
        if i == j - 1 {
        }
    }
}

/// Collapsing removes the repeated rows and nothing else: afterwards no two
/// rows share start, end and identifier, and the number of rows has gone
/// down by the number of rows that repeated an earlier one.
pub proof fn lemma_collapse_leaves_no_duplicates(starts: Seq<u64>, ends: Seq<u64>, ids: Seq<String>)
    requires
        starts.len() == ends.len(),
        starts.len() == ids.len(),
    ensures
        ({
            let keep = GTFEntrys::spec_first_occurrences(starts, ends, ids);
            let n = starts.len() as int;
            let s = spec_masked(starts, keep, n);
            let e = spec_masked(ends, keep, n);
            let i = spec_masked(ids, keep, n);
            &&& s.len() == spec_kept(keep, n)
            &&& e.len() == s.len()
            &&& i.len() == s.len()
            &&& s.len() + spec_duplicates(starts, ends, ids, n) == n
            &&& forall|a: int, b: int|
                0 <= a < b < s.len() ==> !(#[trigger] s[a] == #[trigger] s[b] && e[a] == e[b]
                    && i[a]@ == i[b]@)
        }),
{
    let keep = GTFEntrys::spec_first_occurrences(starts, ends, ids);
    let n = starts.len() as int;
    let s = spec_masked(starts, keep, n);
    let e = spec_masked(ends, keep, n);
    let i = spec_masked(ids, keep, n);
    lemma_masked_len(starts, keep, n);
    lemma_masked_len(ends, keep, n);
    lemma_masked_len(ids, keep, n);
    lemma_duplicates_counted(starts, ends, ids, n);
    assert forall|a: int, b: int| 0 <= a < b < s.len() implies !(#[trigger] s[a] == #[trigger] s[b]
        && e[a] == e[b] && i[a]@ == i[b]@) by {
        lemma_origin(starts, keep, n, a);
        lemma_origin(ends, keep, n, a);
        lemma_origin(ids, keep, n, a);
        lemma_origin(starts, keep, n, b);
        lemma_origin(ends, keep, n, b);
        lemma_origin(ids, keep, n, b);
        let oa = spec_origin(keep, n, a);
        let ob = spec_origin(keep, n, b);
        if oa >= ob {
            lemma_kept_monotonic(keep, ob, oa);
        }
        assert(oa < ob);
        if s[a] == s[b] && e[a] == e[b] && i[a]@ == i[b]@ {
            assert(starts[oa] == starts[ob]);
            assert(spec_is_duplicate(starts, ends, ids, ob));
            assert(keep[ob] == !spec_is_duplicate(starts, ends, ids, ob));
        }
    }
}

/// How many of the first `n` rows repeat an earlier row.
pub open spec fn spec_duplicates(starts: Seq<u64>, ends: Seq<u64>, ids: Seq<String>, n: int) -> int
    decreases n,
{
    if n <= 0 {
        0
    } else {
        spec_duplicates(starts, ends, ids, n - 1) + if spec_is_duplicate(starts, ends, ids, n - 1) {
            1int
        } else {
            0int
        }
    }
}

proof fn lemma_duplicates_counted(starts: Seq<u64>, ends: Seq<u64>, ids: Seq<String>, n: int)
    requires
        0 <= n <= starts.len(),
    ensures
        spec_kept(GTFEntrys::spec_first_occurrences(starts, ends, ids), n) + spec_duplicates(
            starts,
            ends,
            ids,
            n,
        ) == n,
    decreases n,
{
    if n > 0 {
        lemma_duplicates_counted(starts, ends, ids, n - 1);
    }
}

/// The identifiers after renaming: a row that repeats an earlier row has
/// its identifier with a hyphen and its number, the others have theirs.
pub open spec fn spec_renamed_ids(starts: Seq<u64>, ends: Seq<u64>, ids: Seq<String>) -> Seq<Seq<char>> {
    Seq::new(
        ids.len(),
        |i: int|
            if spec_is_duplicate(starts, ends, ids, i) {
                spec_renamed(ids[i]@, i)
            } else {
                ids[i]@
            },
    )
}

proof fn lemma_renamed_differ(x: Seq<char>, a: int, y: Seq<char>, b: int)
    requires
        0 <= a,
        0 <= b,
        a != b,
    ensures
        spec_renamed(x, a) != spec_renamed(y, b),
{
    reveal_strlit("-");
    let da = spec_decimal(a as nat);
    let db = spec_decimal(b as nat);
    lemma_decimal_digits(a as nat);
    lemma_decimal_digits(b as nat);
    let ra = spec_renamed(x, a);
    let rb = spec_renamed(y, b);
    if ra == rb {
        assert(ra.len() == x.len() + 1 + da.len());
        assert(rb.len() == y.len() + 1 + db.len());
        assert(ra[x.len() as int] == '-');
        assert(rb[y.len() as int] == '-');
        if da.len() < db.len() {
            assert(x.len() > y.len());
            assert(rb[x.len() as int] == db[x.len() - y.len() - 1]);
            assert('0' <= db[x.len() - y.len() - 1] <= '9');
        } else if da.len() > db.len() {
            assert(y.len() > x.len());
            assert(ra[y.len() as int] == da[y.len() - x.len() - 1]);
            assert('0' <= da[y.len() - x.len() - 1] <= '9');
        } else {
            assert(x.len() == y.len());
            assert forall|k: int| 0 <= k < da.len() implies da[k] == db[k] by {
                assert(ra[x.len() + 1 + k] == da[k]);
                assert(rb[y.len() + 1 + k] == db[k]);
            }
            assert(da =~= db);
            lemma_decimal_injective(a as nat, b as nat);
        }
    }
}

/// Renaming leaves no repeated rows: afterwards no two rows share start,
/// end and identifier. This holds unless a row that repeats no earlier row
/// came with the very identifier that a repeated row of the same start and
/// end gets.
pub proof fn lemma_rename_leaves_no_duplicates(starts: Seq<u64>, ends: Seq<u64>, ids: Seq<String>)
    requires
        starts.len() == ends.len(),
        starts.len() == ids.len(),
        forall|i: int, j: int|
            0 <= i < ids.len() && 0 <= j < ids.len() && spec_is_duplicate(starts, ends, ids, i)
                && !spec_is_duplicate(starts, ends, ids, j) && starts[j] == starts[i] && ends[j]
                == ends[i] ==> (#[trigger] ids[j])@ != #[trigger] spec_renamed(ids[i]@, i),
    ensures
        forall|a: int, b: int|
            0 <= a < b < ids.len() ==> !(#[trigger] starts[a] == #[trigger] starts[b] && ends[a]
                == ends[b] && spec_renamed_ids(starts, ends, ids)[a] == spec_renamed_ids(
                starts,
                ends,
                ids,
            )[b]),
{
    let renamed = spec_renamed_ids(starts, ends, ids);
    assert forall|a: int, b: int| 0 <= a < b < ids.len() implies !(#[trigger] starts[a]
        == #[trigger] starts[b] && ends[a] == ends[b] && renamed[a] == renamed[b]) by {
        if starts[a] == starts[b] && ends[a] == ends[b] && renamed[a] == renamed[b] {
            let dup_a = spec_is_duplicate(starts, ends, ids, a);
            let dup_b = spec_is_duplicate(starts, ends, ids, b);
            if dup_a && dup_b {
                lemma_renamed_differ(ids[a]@, a, ids[b]@, b);
            } else if dup_a {
                assert(ids[b]@ != spec_renamed(ids[a]@, a));
            } else if dup_b {
                assert(ids[a]@ != spec_renamed(ids[b]@, b));
            } else {
                assert(starts[a] == starts[b] && ends[a] == ends[b] && ids[a]@ == ids[b]@);
                assert(spec_is_duplicate(starts, ends, ids, b));
            }
        }
    }
}

} // verus!
