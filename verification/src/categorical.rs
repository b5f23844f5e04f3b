use crate::text::{clone_string, str_eq};
use vstd::prelude::*;
use vstd::string::*;

verus! {

/// A column of strings, kept as numbers: every distinct string is a
/// category, numbered in the order of first appearance.
#[derive(Debug)]
pub struct Categorical {
    /// The category of each row.
    pub values: Vec<u32>,
    /// The categories; a category's number is its place.
    pub cats: Vec<String>,
    pub last: String,
    pub last_no: u32,
}

/// No category stands twice.
pub open spec fn cats_distinct(cats: Seq<String>) -> bool {
    forall|i: int, j: int|
        0 <= i < cats.len() && 0 <= j < cats.len() && i != j ==> (#[trigger] cats[i])@ != (
        #[trigger] cats[j])@
}

/// The place of `value` among the categories; their number if it is not there.
pub open spec fn spec_cat_position(cats: Seq<String>, value: Seq<char>) -> int
    decreases cats.len(),
{
    if cats.len() == 0 {
        0
    } else if cats[0]@ == value {
        0
    } else {
        1 + spec_cat_position(cats.drop_first(), value)
    }
}

fn cat_position(cats: &Vec<String>, value: &str) -> (r: Option<usize>)
    ensures
        0 <= spec_cat_position(cats@, value@) <= cats@.len(),
        r.is_some() <==> spec_cat_position(cats@, value@) < cats@.len(),
        r.is_some() ==> r.unwrap() == spec_cat_position(cats@, value@) && cats@[r.unwrap() as int]@
            == value@,
        r.is_none() ==> forall|i: int| 0 <= i < cats@.len() ==> (#[trigger] cats@[i])@ != value@,
{
    let mut i: usize = 0;
    assert(cats@.skip(0) =~= cats@);
    while i < cats.len()
        invariant
            0 <= i <= cats.len(),
            spec_cat_position(cats@, value@) == i + spec_cat_position(cats@.skip(i as int), value@),
            forall|j: int| 0 <= j < i ==> (#[trigger] cats@[j])@ != value@,
        decreases cats.len() - i,
    {
        proof {
            assert(cats@.skip(i as int)[0] == cats@[i as int]);
            assert(cats@.skip(i as int).drop_first() =~= cats@.skip(i as int + 1));
        }
        if str_eq(cats[i].as_str(), value) {
            return Some(i);
        }
        i = i + 1;
    }
    None
}

impl Categorical {
    /// Every row has a category, no category stands twice, and the
    /// category of the last row is at hand.
    pub open spec fn wf(&self) -> bool {
        &&& cats_distinct(self.cats@)
        &&& self.cats@.len() <= u32::MAX
        &&& forall|i: int| 0 <= i < self.values@.len() ==> (#[trigger] self.values@[i]) < self.cats@.len()
        &&& self.cats@.len() > 0 ==> self.last_no < self.cats@.len() && self.cats@[self.last_no as int]@
            == self.last@
    }

    /// The strings of the rows.
    pub open spec fn spec_strings(&self) -> Seq<Seq<char>> {
        Seq::new(self.values@.len(), |i: int| self.cats@[self.values@[i] as int]@)
    }

    pub fn new() -> (c: Categorical)
        ensures
            c.wf(),
            c.values@.len() == 0,
            c.cats@.len() == 0,
            c.last@ == Seq::<char>::empty(),
            c.last_no == 0,
    {
        Categorical { values: Vec::new(), cats: Vec::new(), last: String::new(), last_no: 0 }
    }

    /// A column of `count` rows that all hold the empty string.
    pub fn new_empty(count: u32) -> (c: Categorical)
        ensures
            c.wf(),
            c.values@.len() == count,
            c.spec_strings() == Seq::new(count as nat, |i: int| Seq::<char>::empty()),
            count == 0 ==> c.cats@.len() == 0,
            count > 0 ==> c.cats@.len() == 1 && c.cats@[0]@ == Seq::<char>::empty(),
    {
        let mut res = Categorical::new();
        if count > 0 {
            res.cats.push(String::new());
            let mut i: u32 = 0;
            while i < count
                invariant
                    0 <= i <= count,
                    res.cats@.len() == 1,
                    res.cats@[0]@ == Seq::<char>::empty(),
                    res.last@ == Seq::<char>::empty(),
                    res.last_no == 0,
                    res.values@.len() == i,
                    forall|j: int| 0 <= j < i ==> (#[trigger] res.values@[j]) == 0,
                decreases count - i,
            {
                res.values.push(0);
                i = i + 1;
            }
        }
        assert(res.spec_strings() =~= Seq::new(count as nat, |i: int| Seq::<char>::empty()));
        res
    }

    /// A column of `count` rows that hold the empty string and one that
    /// holds `value`.
    pub fn new_empty_push(count: u32, value: &str) -> (c: Categorical)
        ensures
            c.wf(),
            c.spec_strings() == Seq::new(count as nat, |i: int| Seq::<char>::empty()).push(value@),
    {
        let mut res = Categorical::new_empty(count);
        res.push(value);
        res
    }

    /// Appends a row. A string that is a category already keeps its number;
    /// a new string becomes the next category.
    pub fn push(&mut self, value: &str)
        requires
            old(self).wf(),
            old(self).cats@.len() < u32::MAX,
        ensures
            final(self).wf(),
            final(self).spec_strings() == old(self).spec_strings().push(value@),
            final(self).values@ == old(self).values@.push(
                spec_cat_position(old(self).cats@, value@) as u32,
            ),
            spec_cat_position(old(self).cats@, value@) < old(self).cats@.len() ==> final(self).cats@
                == old(self).cats@,
            spec_cat_position(old(self).cats@, value@) >= old(self).cats@.len() ==> {
                &&& final(self).cats@.len() == old(self).cats@.len() + 1
                &&& final(self).cats@.last()@ == value@
                &&& final(self).cats@.drop_last() == old(self).cats@
            },
    {
        let ghost before = *self;
        if self.cats.len() > 0 && str_eq(value, self.last.as_str()) {
            proof {
                Self::lemma_position(self.cats@, self.last_no as int);
            }
            self.values.push(self.last_no);
        } else {
            let no: u32 = match cat_position(&self.cats, value) {
                Some(no) => no as u32,
                None => {
                    let next = self.cats.len() as u32;
                    self.cats.push(String::from_str(value));
                    proof {
                        assert(self.cats@.drop_last() =~= before.cats@);
                        assert forall|i: int, j: int|
                            0 <= i < self.cats@.len() && 0 <= j < self.cats@.len() && i
                                != j implies (#[trigger] self.cats@[i])@ != (
                        #[trigger] self.cats@[j])@ by {
                            if i < before.cats@.len() {
                                assert(self.cats@[i] == before.cats@[i]);
                            }
                            if j < before.cats@.len() {
                                assert(self.cats@[j] == before.cats@[j]);
                            }
                        }
                    }
                    next
                },
            };
            self.values.push(no);
            self.last_no = no;
            self.last = String::from_str(value);
        }
        proof {
            assert forall|i: int| 0 <= i < self.values@.len() implies (#[trigger] self.values@[i])
                < self.cats@.len() by {
                if i < before.values@.len() {
                    assert(self.values@[i] == before.values@[i]);
                }
            }
            assert forall|i: int| 0 <= i < before.cats@.len() implies self.cats@[i]
                == before.cats@[i] by {}
            assert(self.spec_strings() =~= before.spec_strings().push(value@)) by {
                assert forall|i: int| 0 <= i < before.values@.len() implies self.spec_strings()[i]
                    == before.spec_strings()[i] by {
                    assert(self.values@[i] == before.values@[i]);
                }
            }
        }
    }

    /// A category stands at the place that looking for it gives.
    proof fn lemma_position(cats: Seq<String>, at: int)
        requires
            cats_distinct(cats),
            0 <= at < cats.len(),
        ensures
            spec_cat_position(cats, cats[at]@) == at,
        decreases cats.len(),
    {
        if at > 0 {
            assert(cats[0]@ != cats[at]@);
            let rest = cats.drop_first();
            assert forall|i: int, j: int|
                0 <= i < rest.len() && 0 <= j < rest.len() && i != j implies (#[trigger] rest[i])@
                != (#[trigger] rest[j])@ by {
                assert(rest[i] == cats[i + 1]);
                assert(rest[j] == cats[j + 1]);
            }
            assert(rest[at - 1] == cats[at]);
            Self::lemma_position(rest, at - 1);
        }
    }

    /// The name of a category, by its number.
    pub fn cat_from_value(&self, value: u32) -> (name: String)
        requires
            value < self.cats@.len(),
        ensures
            name@ == self.cats@[value as int]@,
    {
        clone_string(&self.cats[value as usize])
    }

    /// The number of the category `value`, if it is one.
    pub fn get(&self, value: &str) -> (no: Option<u32>)
        requires
            self.wf(),
        ensures
            no.is_some() <==> spec_cat_position(self.cats@, value@) < self.cats@.len(),
            no.is_some() ==> no.unwrap() == spec_cat_position(self.cats@, value@)
                && self.cats@[no.unwrap() as int]@ == value@,
    {
        match cat_position(&self.cats, value) {
            Some(no) => Some(no as u32),
            None => None,
        }
    }

    /// The number of rows.
    pub fn len(&self) -> (n: usize)
        ensures
            n == self.values@.len(),
    {
        self.values.len()
    }
}

} // verus!
