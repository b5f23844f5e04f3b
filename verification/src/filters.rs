use crate::bam_ext::{Cigar, Record};
use crate::bytes::bytes_contain;
use vstd::prelude::*;

verus! {

/// Whether a filter keeps the reads it describes, or removes them.
#[derive(Debug, Clone, Copy, PartialEq, Eq, Structural)]
pub enum KeepOrRemove {
    Keep,
    Remove,
}

/// Why a filter is not usable.
#[derive(Debug, Clone, Copy, PartialEq, Eq, Structural)]
pub enum FilterError {
    /// A reference filter names no reference.
    NoReferences,
    /// The reference at this place of the filter's list is not in the header.
    ReferenceNotFound(usize),
}

/// Whether a read that is `hit` by a filter's description is removed:
/// `Remove` removes the hit reads, `Keep` all others.
pub open spec fn spec_removes(action: KeepOrRemove, hit: bool) -> bool {
    match action {
        KeepOrRemove::Keep => !hit,
        KeepOrRemove::Remove => hit,
    }
}

fn removes(action: KeepOrRemove, hit: bool) -> (r: bool)
    ensures
        r == spec_removes(action, hit),
{
    match action {
        KeepOrRemove::Keep => !hit,
        KeepOrRemove::Remove => hit,
    }
}

/// Reads with more than one alignment.
#[derive(Debug, Clone, Copy)]
pub struct MultiMapper {
    pub action: KeepOrRemove,
}

/// Secondary alignments.
#[derive(Debug, Clone, Copy)]
pub struct NonPrimary {
    pub action: KeepOrRemove,
}

/// Reads that are first in their template.
#[derive(Debug, Clone, Copy)]
pub struct Read1 {
    pub action: KeepOrRemove,
}

/// Reads that are last in their template.
#[derive(Debug, Clone, Copy)]
pub struct Read2 {
    pub action: KeepOrRemove,
}

/// Reads with a reference skip in their CIGAR after its first operation.
#[derive(Debug, Clone, Copy)]
pub struct Spliced {
    pub action: KeepOrRemove,
}

/// References to process, or to leave out. Unlike the other filters this one
/// acts on the list of chunks, not on single reads: a reference that is left
/// out is never read and does not reach the output.
#[derive(Debug)]
pub struct Reference {
    pub action: KeepOrRemove,
    pub references: Vec<String>,
    pub tids: Option<Vec<u32>>,
}

/// Reads whose UMI holds the byte `N`.
#[derive(Debug, Clone, Copy)]
pub struct NInUmi {
    pub action: KeepOrRemove,
}

#[derive(Debug)]
pub enum Filter {
    MultiMapper(MultiMapper),
    NonPrimary(NonPrimary),
    Read1(Read1),
    Read2(Read2),
    Spliced(Spliced),
    Reference(Reference),
    NInUmi(NInUmi),
}

/// Whether one of the operations after the first is a reference skip.
pub open spec fn spec_spliced(cigar: Seq<Cigar>) -> bool {
    exists|i: int| 1 <= i < cigar.len() && (#[trigger] cigar[i]) is RefSkip
}

/// The place of `name` among `names`; `names.len()` if it is not there.
pub open spec fn spec_name_position(names: Seq<String>, name: Seq<char>) -> int
    decreases names.len(),
{
    if names.len() == 0 {
        0
    } else if names[0]@ == name {
        0
    } else {
        1 + spec_name_position(names.drop_first(), name)
    }
}

/// The place of `name` among `names`, if it is there.
pub fn name_position(names: &Vec<String>, name: &String) -> (r: Option<usize>)
    ensures
        0 <= spec_name_position(names@, name@) <= names@.len(),
        r.is_some() <==> spec_name_position(names@, name@) < names@.len(),
        r.is_some() ==> r.unwrap() == spec_name_position(names@, name@) && names@[r.unwrap() as int]@
            == name@,
        r.is_none() ==> forall|i: int| 0 <= i < names@.len() ==> (#[trigger] names@[i])@ != name@,
{
    let mut i: usize = 0;
    assert(names@.skip(0) =~= names@);
    while i < names.len()
        invariant
            0 <= i <= names.len(),
            spec_name_position(names@, name@) == i + spec_name_position(names@.skip(i as int), name@),
            forall|j: int| 0 <= j < i ==> (#[trigger] names@[j])@ != name@,
        decreases names.len() - i,
    {
        proof {
            assert(names@.skip(i as int)[0] == names@[i as int]);
            assert(names@.skip(i as int).drop_first() =~= names@.skip(i as int + 1));
        }
        if names[i] == *name {
            return Some(i);
        }
        i = i + 1;
    }
    None
}

impl MultiMapper {
    pub fn remove_read(&self, read: &Record) -> (r: bool)
        requires
            read.spec_alignment_count_readable(),
        ensures
            r == spec_removes(self.action, read.spec_no_of_alignments() > 1),
    {
        let alignment_count = read.no_of_alignments();
        removes(self.action, alignment_count > 1)
    }
}

impl NonPrimary {
    pub fn remove_read(&self, read: &Record) -> (r: bool)
        ensures
            r == (read.secondary && self.action == KeepOrRemove::Remove),
    {
        if read.secondary {
            return self.action == KeepOrRemove::Remove;
        }
        false
    }
}

impl Read1 {
    pub fn remove_read(&self, read: &Record) -> (r: bool)
        ensures
            r == (read.first_in_template && self.action == KeepOrRemove::Remove),
    {
        if read.first_in_template {
            return self.action == KeepOrRemove::Remove;
        }
        false
    }
}

impl Read2 {
    pub fn remove_read(&self, read: &Record) -> (r: bool)
        ensures
            r == (read.last_in_template && self.action == KeepOrRemove::Remove),
    {
        if read.last_in_template {
            return self.action == KeepOrRemove::Remove;
        }
        false
    }
}

impl Spliced {
    pub fn remove_read(&self, read: &Record) -> (r: bool)
        ensures
            r == spec_removes(self.action, spec_spliced(read.cigar@)),
    {
        let mut hit = false;
        let mut i: usize = 1;
        while i < read.cigar.len()
            invariant
                1 <= i,
                hit <==> exists|j: int| 1 <= j < i && j < read.cigar@.len() && (#[trigger] read.cigar@[j]) is RefSkip,
            decreases read.cigar.len() - i,
        {
            match read.cigar[i] {
                Cigar::RefSkip(_) => {
                    hit = true;
                },
                _ => {},
            }
            i = i + 1;
        }
        removes(self.action, hit)
    }
}

impl Reference {
    /// A reference filter must name at least one reference.
    pub fn check(&self) -> (r: Result<(), FilterError>)
        ensures
            self.references@.len() == 0 ==> r == Err::<(), FilterError>(FilterError::NoReferences),
            self.references@.len() > 0 ==> r is Ok,
    {
        if self.references.len() == 0 {
            return Err(FilterError::NoReferences);
        }
        Ok(())
    }

    /// Looks the filter's references up among the reference names of the
    /// alignment file's header, in header order, and keeps their numbers. The
    /// first reference that the header lacks stops the search.
    pub fn init(&mut self, target_names: &Vec<String>) -> (r: Result<(), FilterError>)
        requires
            target_names@.len() <= u32::MAX,
        ensures
            final(self).action == old(self).action,
            final(self).references == old(self).references,
            match r {
                Ok(()) => {
                    &&& final(self).tids.is_some()
                    &&& final(self).tids.unwrap()@.len() == old(self).references@.len()
                    &&& forall|i: int|
                        0 <= i < old(self).references@.len() ==> (
                        #[trigger] final(self).tids.unwrap()@[i]) == spec_name_position(
                            target_names@,
                            old(self).references@[i]@,
                        ) && spec_name_position(target_names@, old(self).references@[i]@)
                            < target_names@.len()
                },
                Err(e) => {
                    let at = e->ReferenceNotFound_0;
                    &&& final(self).tids == old(self).tids
                    &&& e is ReferenceNotFound
                    &&& at < old(self).references@.len()
                    &&& spec_name_position(target_names@, old(self).references@[at as int]@)
                        == target_names@.len()
                    &&& forall|i: int|
                        0 <= i < at ==> spec_name_position(
                            target_names@,
                            (#[trigger] old(self).references@[i])@,
                        ) < target_names@.len()
                },
            },
    {
        let mut tids: Vec<u32> = Vec::new();
        let mut i: usize = 0;
        while i < self.references.len()
            invariant
                0 <= i <= self.references.len(),
                *self == *old(self),
                target_names@.len() <= u32::MAX,
                tids@.len() == i,
                forall|j: int|
                    0 <= j < i ==> spec_name_position(
                        target_names@,
                        (#[trigger] self.references@[j])@,
                    ) < target_names@.len(),
                forall|j: int|
                    0 <= j < i ==> (#[trigger] tids@[j]) == spec_name_position(
                        target_names@,
                        self.references@[j]@,
                    ) && spec_name_position(target_names@, self.references@[j]@)
                        < target_names@.len(),
            decreases self.references.len() - i,
        {
            match name_position(target_names, &self.references[i]) {
                Some(tid) => {
                    tids.push(tid as u32);
                },
                None => {
                    return Err(FilterError::ReferenceNotFound(i));
                },
            }
            i = i + 1;
        }
        self.tids = Some(tids);
        Ok(())
    }

    /// Reads pass: the chunks of references that are left out are never read.
    pub fn remove_read(&self, read: &Record) -> (r: bool)
        ensures
            !r,
    {
        false
    }

    /// Whether the chunks of the reference `chr` are processed: under `Keep`
    /// those of the listed references, under `Remove` those of all others.
    pub open spec fn spec_retains(&self, chr: Seq<char>) -> bool {
        let listed = spec_name_position(self.references@, chr) < self.references@.len();
        match self.action {
            KeepOrRemove::Keep => listed,
            KeepOrRemove::Remove => !listed,
        }
    }

    pub fn retains(&self, chr: &String) -> (r: bool)
        ensures
            r == self.spec_retains(chr@),
    {
        let listed = name_position(&self.references, chr).is_some();
        match self.action {
            KeepOrRemove::Keep => listed,
            KeepOrRemove::Remove => !listed,
        }
    }
}

impl NInUmi {
    /// Whether the read goes once its UMI is known: by whether the UMI holds
    /// the byte `N`. A read without UMI stays.
    pub fn remove_read_after_annotation(&self, umi: Option<&Vec<u8>>) -> (r: bool)
        ensures
            r == match umi {
                Some(umi) => spec_removes(self.action, umi@.contains(78u8)),
                None => false,
            },
    {
        match umi {
            Some(umi) => {
                let hit = bytes_contain(umi.as_slice(), 78u8);
                removes(self.action, hit)
            },
            None => false,
        }
    }
}

impl Filter {
    /// Whether the filter removes the read before it is annotated.
    pub open spec fn spec_remove_read(&self, read: &Record) -> bool {
        match self {
            Filter::MultiMapper(f) => spec_removes(f.action, read.spec_no_of_alignments() > 1),
            Filter::NonPrimary(f) => read.secondary && f.action == KeepOrRemove::Remove,
            Filter::Read1(f) => read.first_in_template && f.action == KeepOrRemove::Remove,
            Filter::Read2(f) => read.last_in_template && f.action == KeepOrRemove::Remove,
            Filter::Spliced(f) => spec_removes(f.action, spec_spliced(read.cigar@)),
            Filter::Reference(_) => false,
            Filter::NInUmi(_) => false,
        }
    }

    pub fn remove_read(&self, read: &Record) -> (r: bool)
        requires
            read.spec_alignment_count_readable(),
        ensures
            r == self.spec_remove_read(read),
    {
        match self {
            Filter::MultiMapper(f) => f.remove_read(read),
            Filter::NonPrimary(f) => f.remove_read(read),
            Filter::Read1(f) => f.remove_read(read),
            Filter::Read2(f) => f.remove_read(read),
            Filter::Spliced(f) => f.remove_read(read),
            Filter::Reference(f) => f.remove_read(read),
            Filter::NInUmi(_) => false,
        }
    }

    /// Whether the filter removes the read once its UMI is known.
    pub fn remove_read_after_annotation(&self, umi: Option<&Vec<u8>>) -> (r: bool)
        ensures
            r == match (self, umi) {
                (Filter::NInUmi(f), Some(umi)) => spec_removes(f.action, umi@.contains(78u8)),
                _ => false,
            },
    {
        match self {
            Filter::NInUmi(f) => f.remove_read_after_annotation(umi),
            _ => false,
        }
    }

    pub fn check(&self) -> (r: Result<(), FilterError>)
        ensures
            r is Err <==> (self matches Filter::Reference(f) && f.references@.len() == 0),
            r is Err ==> r == Err::<(), FilterError>(FilterError::NoReferences),
    {
        match self {
            Filter::Reference(f) => f.check(),
            _ => Ok(()),
        }
    }
}

/// Whether any filter of the list removes the read.
pub open spec fn spec_any_removes(filters: Seq<Filter>, read: &Record) -> bool {
    exists|i: int| 0 <= i < filters.len() && (#[trigger] filters[i]).spec_remove_read(read)
}

/// Whether any filter of the list removes the read.
pub fn any_removes(filters: &Vec<Filter>, read: &Record) -> (r: bool)
    requires
        read.spec_alignment_count_readable(),
    ensures
        r == spec_any_removes(filters@, read),
{
    let mut i: usize = 0;
    while i < filters.len()
        invariant
            0 <= i <= filters.len(),
            read.spec_alignment_count_readable(),
            forall|j: int| 0 <= j < i ==> !(#[trigger] filters@[j]).spec_remove_read(read),
        decreases filters.len() - i,
    {
        if filters[i].remove_read(read) {
            return true;
        }
        i = i + 1;
    }
    false
}

} // verus!
