use crate::gtf::{GTFEntrys, Strand};
use crate::text::clone_string;
use bio::data_structures::interval_tree::IntervalTree;
use vstd::multiset::Multiset;
use vstd::prelude::*;
use vstd::string::*;

verus! {

/// `IntervalTree` of bio, taken as it is: a value of it can stand in fields
/// and signatures, and what it holds is known through `tree_regions` alone.
#[verifier::external_type_specification]
#[verifier::external_body]
#[verifier::reject_recursive_types(N)]
#[verifier::reject_recursive_types(D)]
pub struct ExIntervalTree<N: Ord + Clone, D>(IntervalTree<N, D>);

/// One stored region: its half-open interval, the number of its identifier
/// within the reference, and its strand.
#[derive(Debug, Clone, Copy)]
pub struct Region {
    pub start: u32,
    pub end: u32,
    pub id_no: u32,
    pub strand: Strand,
}

/// The regions that an interval tree holds, each as often as it was inserted.
pub uninterp spec fn tree_regions(tree: &IntervalTree<u32, (u32, Strand)>) -> Multiset<Region>;

/// Whether a stored region and the query `[start, end)` share a point. Empty
/// intervals share none.
pub open spec fn overlaps(r: Region, start: u32, end: u32) -> bool {
    r.start < r.end && start < end && r.start < end && start < r.end
}

/// `IntervalTree::new` of bio: a tree without regions.
#[verifier::external_body]
pub(crate) fn tree_new() -> (tree: IntervalTree<u32, (u32, Strand)>)
    ensures
        tree_regions(&tree) == Multiset::<Region>::empty(),
{
    IntervalTree::new()
}

/// `IntervalTree::insert` of bio: the tree gains the one region. The outside
/// function panics on an interval whose end is below its start.
#[verifier::external_body]
pub(crate) fn tree_insert(tree: &mut IntervalTree<u32, (u32, Strand)>, region: Region)
    requires
        region.start <= region.end,
    ensures
        tree_regions(final(tree)) == tree_regions(old(tree)).insert(region),
{
    tree.insert(region.start..region.end, (region.id_no, region.strand));
}

/// `IntervalTree::find` of bio: every stored region that overlaps the query,
/// as often as it is stored, in an order that the tree's shape decides. The
/// outside function panics on a query whose end is below its start.
#[verifier::external_body]
pub(crate) fn tree_find(tree: &IntervalTree<u32, (u32, Strand)>, start: u32, end: u32) -> (found: Vec<
    Region,
>)
    requires
        start <= end,
    ensures
        found@.to_multiset() == tree_regions(tree).filter(|r: Region| overlaps(r, start, end)),
{
    tree.find(start..end).map(
        |e| Region { start: e.interval().start, end: e.interval().end, id_no: e.data().0, strand: e.data().1 },
    ).collect()
}

/// `<IntervalTree as Clone>::clone` of bio: a tree with the same regions.
#[verifier::external_body]
pub(crate) fn tree_clone(tree: &IntervalTree<u32, (u32, Strand)>) -> (copy: IntervalTree<
    u32,
    (u32, Strand),
>)
    ensures
        tree_regions(&copy) == tree_regions(tree),
{
    tree.clone()
}

/// The region index of one reference: an interval tree over its regions and
/// the identifiers that the regions' numbers stand for.
pub struct ReferenceTree {
    pub chr: String,
    pub tree: IntervalTree<u32, (u32, Strand)>,
    pub gene_ids: Vec<String>,
}

impl ReferenceTree {
    /// The regions of this reference.
    pub open spec fn regions(&self) -> Multiset<Region> {
        tree_regions(&self.tree)
    }

    /// Every region is a proper interval below `u32::MAX` whose number has an
    /// identifier.
    pub open spec fn wf(&self) -> bool {
        forall|r: Region| #[trigger]
            self.regions().count(r) > 0 ==> r.start <= r.end && r.end < u32::MAX && r.id_no
                < self.gene_ids@.len()
    }

    /// The stored regions that overlap `[start, end)`.
    pub fn find(&self, start: u32, end: u32) -> (found: Vec<Region>)
        requires
            start <= end,
        ensures
            forall|r: Region|
                found@.contains(r) <==> (#[trigger] self.regions().count(r) > 0 && overlaps(
                    r,
                    start,
                    end,
                )),
            found@.to_multiset() == self.regions().filter(|r: Region| overlaps(r, start, end)),
    {
        let found = tree_find(&self.tree, start, end);
        proof {
            broadcast use vstd::seq_lib::group_to_multiset_ensures;
            broadcast use vstd::multiset::group_multiset_axioms;

            assert forall|r: Region|
                found@.contains(r) <==> (#[trigger] self.regions().count(r) > 0 && overlaps(
                    r,
                    start,
                    end,
                )) by {
                let f = |r: Region| overlaps(r, start, end);
                assert(found@.to_multiset().count(r) == self.regions().filter(f).count(r));
                assert(f(r) == overlaps(r, start, end));
            }
        }
        found
    }
}

/// The position of the first index entry for the reference `chr`;
/// `trees.len()` if there is none.
pub open spec fn spec_tree_position(trees: Seq<ReferenceTree>, chr: Seq<char>) -> int
    decreases trees.len(),
{
    if trees.len() == 0 {
        0
    } else if trees[0].chr@ == chr {
        0
    } else {
        1 + spec_tree_position(trees.drop_first(), chr)
    }
}

/// The index entry for the reference `chr`, if there is one.
pub fn find_tree<'a>(trees: &'a Vec<ReferenceTree>, chr: &String) -> (r: Option<&'a ReferenceTree>)
    ensures
        0 <= spec_tree_position(trees@, chr@) <= trees@.len(),
        r.is_some() <==> spec_tree_position(trees@, chr@) < trees@.len(),
        r.is_some() ==> *r.unwrap() == trees@[spec_tree_position(trees@, chr@)] && r.unwrap().chr@
            == chr@,
        r.is_none() ==> forall|i: int| 0 <= i < trees@.len() ==> (#[trigger] trees@[i]).chr@ != chr@,
{
    let mut i: usize = 0;
    assert(trees@.skip(0) =~= trees@);
    while i < trees.len()
        invariant
            0 <= i <= trees.len(),
            spec_tree_position(trees@, chr@) == i + spec_tree_position(trees@.skip(i as int), chr@),
            forall|j: int| 0 <= j < i ==> (#[trigger] trees@[j]).chr@ != chr@,
        decreases trees.len() - i,
    {
        proof {
            assert(trees@.skip(i as int)[0] == trees@[i as int]);
            assert(trees@.skip(i as int).drop_first() =~= trees@.skip(i as int + 1));
        }
        if trees[i].chr == *chr {
            return Some(&trees[i]);
        }
        i = i + 1;
    }
    None
}

/// Why no region index could be built.
#[derive(Debug, Clone, Copy, PartialEq, Eq, Structural)]
pub enum BuildError {
    /// The rows have no column for the identifier.
    MissingIdAttribute,
    /// The row's start or end is beyond what 32 bits can hold.
    CoordinateOutOfRange(usize),
    /// The row's end lies before its start.
    InvalidInterval(usize),
    /// The row's reference has more identifiers than 32 bits can number.
    TooManyIdentifiers(usize),
}

/// Whether the row's coordinates can stand in a region index.
pub open spec fn spec_row_error(start: u64, end: u64, row: usize) -> Option<BuildError> {
    if start > u32::MAX || end >= u32::MAX {
        Some(BuildError::CoordinateOutOfRange(row))
    } else if end < start {
        Some(BuildError::InvalidInterval(row))
    } else {
        None
    }
}

/// The identifiers of the category `c` among the first `n` rows, each once,
/// in the order of first appearance.
pub open spec fn spec_gene_ids(cats: Seq<u32>, ids: Seq<String>, c: u32, n: int) -> Seq<Seq<char>>
    decreases n,
{
    if n <= 0 {
        Seq::empty()
    } else {
        let before = spec_gene_ids(cats, ids, c, n - 1);
        if cats[n - 1] == c && !before.contains(ids[n - 1]@) {
            before.push(ids[n - 1]@)
        } else {
            before
        }
    }
}

/// The regions of the category `c` among the first `n` rows: one per row,
/// numbered by the place of its identifier among the category's identifiers.
pub open spec fn spec_row_regions(
    cats: Seq<u32>,
    starts: Seq<u64>,
    ends: Seq<u64>,
    strands: Seq<Strand>,
    ids: Seq<String>,
    c: u32,
    n: int,
) -> Multiset<Region>
    decreases n,
{
    if n <= 0 {
        Multiset::empty()
    } else {
        let before = spec_row_regions(cats, starts, ends, strands, ids, c, n - 1);
        if cats[n - 1] == c {
            before.insert(
                Region {
                    start: starts[n - 1] as u32,
                    end: ends[n - 1] as u32,
                    id_no: spec_gene_ids(cats, ids, c, n).index_of(ids[n - 1]@) as u32,
                    strand: strands[n - 1],
                },
            )
        } else {
            before
        }
    }
}

/// The strings of a list.
pub open spec fn string_views(list: Seq<String>) -> Seq<Seq<char>> {
    list.map_values(|s: String| s@)
}

fn id_position(ids: &Vec<String>, id: &String) -> (r: Option<usize>)
    ensures
        r.is_some() == string_views(ids@).contains(id@),
        r.is_some() ==> r.unwrap() < ids@.len() && ids@[r.unwrap() as int]@ == id@,
{
    let mut i: usize = 0;
    while i < ids.len()
        invariant
            0 <= i <= ids.len(),
            forall|j: int| 0 <= j < i ==> (#[trigger] ids@[j])@ != id@,
        decreases ids.len() - i,
    {
        if ids[i] == *id {
            assert(string_views(ids@)[i as int] == id@);
            return Some(i);
        }
        i = i + 1;
    }
    proof {
        if string_views(ids@).contains(id@) {
            let j = choose|j: int| 0 <= j < ids@.len() && string_views(ids@)[j] == id@;
            assert(ids@[j]@ == id@);
        }
    }
    None
}

/// Whether the index entries are what the rows give for their categories:
/// entry `c` has the name of category `c`, the regions of its rows and the
/// identifiers of its rows.
pub open spec fn spec_built(
    trees: Seq<ReferenceTree>,
    entries: &GTFEntrys,
    ids: Seq<String>,
    n: int,
) -> bool {
    &&& trees.len() == entries.seqname.cats@.len()
    &&& forall|c: int|
        0 <= c < trees.len() ==> {
            &&& (#[trigger] trees[c]).chr@ == entries.seqname.cats@[c]@
            &&& trees[c].wf()
            &&& string_views(trees[c].gene_ids@) == spec_gene_ids(
                entries.seqname.values@,
                ids,
                c as u32,
                n,
            )
            &&& trees[c].regions() == spec_row_regions(
                entries.seqname.values@,
                entries.start@,
                entries.end@,
                entries.strand@,
                ids,
                c as u32,
                n,
            )
        }
}

proof fn lemma_gene_ids_distinct(cats: Seq<u32>, ids: Seq<String>, c: u32, n: int)
    ensures
        spec_gene_ids(cats, ids, c, n).no_duplicates(),
    decreases n,
{
    if n > 0 {
        lemma_gene_ids_distinct(cats, ids, c, n - 1);
    }
}

/// Whether the row brings its reference an identifier that 32 bits cannot
/// number: the rows before it hold `u32::MAX` identifiers of the reference,
/// and the row's is none of them.
pub open spec fn spec_row_overflows(cats: Seq<u32>, ids: Seq<String>, row: int) -> bool {
    let before = spec_gene_ids(cats, ids, cats[row], row);
    before.len() >= u32::MAX && !before.contains(ids[row]@)
}

/// Whether the first `n` rows can stand in a region index: their
/// coordinates fit and, where identifiers are numbered, none overflows.
pub open spec fn spec_rows_fit(entries: &GTFEntrys, ids: Seq<String>, numbered: bool, n: int) -> bool {
    forall|j: int|
        0 <= j < n ==> spec_row_error(#[trigger] entries.start@[j], entries.end@[j], j as usize).is_none()
            && (numbered ==> !spec_row_overflows(entries.seqname.values@, ids, j))
}

/// Whether no region index by `id_attribute` can be built for the reason
/// `e`: the column is missing; or `e` names the first row that cannot
/// stand in it, and says why. Where the identifiers are not numbered, their
/// number is no reason.
pub open spec fn spec_refused(
    entries: &GTFEntrys,
    id_attribute: Seq<char>,
    numbered: bool,
    e: BuildError,
) -> bool {
    let at = entries.spec_vec_attribute(id_attribute);
    let ids = entries.vec_attributes@[at].values@;
    match e {
        BuildError::MissingIdAttribute => at >= entries.vec_attributes@.len(),
        BuildError::TooManyIdentifiers(row) => {
            &&& numbered
            &&& at < entries.vec_attributes@.len()
            &&& row < entries.spec_rows()
            &&& spec_rows_fit(entries, ids, numbered, row as int)
            &&& spec_row_error(entries.start@[row as int], entries.end@[row as int], row).is_none()
            &&& spec_row_overflows(entries.seqname.values@, ids, row as int)
        },
        BuildError::CoordinateOutOfRange(row) | BuildError::InvalidInterval(row) => {
            &&& at < entries.vec_attributes@.len()
            &&& row < entries.spec_rows()
            &&& spec_rows_fit(entries, ids, numbered, row as int)
            &&& spec_row_error(entries.start@[row as int], entries.end@[row as int], row) == Some(e)
        },
    }
}

/// Whether the rows can be indexed by `id_attribute`: they have that column
/// and every row can stand in the index.
pub open spec fn spec_indexable(entries: &GTFEntrys, id_attribute: Seq<char>, numbered: bool) -> bool {
    &&& entries.spec_vec_attribute(id_attribute) < entries.vec_attributes@.len()
    &&& spec_rows_fit(
        entries,
        entries.vec_attributes@[entries.spec_vec_attribute(id_attribute)].values@,
        numbered,
        entries.spec_rows(),
    )
}

/// One region index per category of reference names, in the order of the
/// categories, an index without regions for a category without rows.
fn build_by_category(id_attribute: &str, gtf_entries: &GTFEntrys) -> (r: Result<
    Vec<ReferenceTree>,
    BuildError,
>)
    requires
        gtf_entries.wf(),
    ensures
        match r {
            Ok(trees) => spec_indexable(gtf_entries, id_attribute@, true) && spec_built(
                trees@,
                gtf_entries,
                gtf_entries.vec_attributes@[gtf_entries.spec_vec_attribute(id_attribute@)].values@,
                gtf_entries.spec_rows(),
            ),
            Err(e) => spec_refused(gtf_entries, id_attribute@, true, e),
        },
{
    proof {
        GTFEntrys::lemma_attribute_found(gtf_entries.vec_attributes@, id_attribute@);
    }
    let at = match gtf_entries.vec_attribute(id_attribute) {
        Some(at) => at,
        None => {
            proof {
                GTFEntrys::lemma_attribute_position(
                    gtf_entries.vec_attributes@,
                    id_attribute@,
                    gtf_entries.vec_attributes@.len() as int,
                );
            }
            return Err(BuildError::MissingIdAttribute);
        },
    };
    proof {
        GTFEntrys::lemma_attribute_position(gtf_entries.vec_attributes@, id_attribute@, at as int);
    }
    let ids = &gtf_entries.vec_attributes[at].values;
    let ghost cats = gtf_entries.seqname.values@;
    let mut trees: Vec<ReferenceTree> = Vec::new();
    let mut c: usize = 0;
    while c < gtf_entries.seqname.cats.len()
        invariant
            0 <= c <= gtf_entries.seqname.cats.len(),
            trees@.len() == c,
            forall|k: int|
                0 <= k < c ==> {
                    &&& (#[trigger] trees@[k]).chr@ == gtf_entries.seqname.cats@[k]@
                    &&& trees@[k].gene_ids@.len() == 0
                    &&& trees@[k].regions() == Multiset::<Region>::empty()
                },
        decreases gtf_entries.seqname.cats.len() - c,
    {
        trees.push(
            ReferenceTree {
                chr: clone_string(&gtf_entries.seqname.cats[c]),
                tree: tree_new(),
                gene_ids: Vec::new(),
            },
        );
        c = c + 1;
    }
    proof {
        broadcast use vstd::multiset::group_multiset_axioms;

        assert forall|k: int| 0 <= k < trees@.len() implies {
            &&& (#[trigger] trees@[k]).chr@ == gtf_entries.seqname.cats@[k]@
            &&& trees@[k].wf()
            &&& string_views(trees@[k].gene_ids@) == spec_gene_ids(cats, ids@, k as u32, 0)
            &&& trees@[k].regions() == spec_row_regions(
                cats,
                gtf_entries.start@,
                gtf_entries.end@,
                gtf_entries.strand@,
                ids@,
                k as u32,
                0,
            )
        } by {
            assert(string_views(trees@[k].gene_ids@) =~= Seq::<Seq<char>>::empty());
        }
    }
    let n = gtf_entries.start.len();
    let mut i: usize = 0;
    while i < n
        invariant
            0 <= i <= n,
            n == gtf_entries.spec_rows(),
            gtf_entries.wf(),
            at < gtf_entries.vec_attributes@.len(),
            at == gtf_entries.spec_vec_attribute(id_attribute@),
            ids == &gtf_entries.vec_attributes@[at as int].values,
            cats == gtf_entries.seqname.values@,
            spec_built(trees@, gtf_entries, ids@, i as int),
            spec_rows_fit(gtf_entries, ids@, true, i as int),
        decreases n - i,
    {
        let start = gtf_entries.start[i];
        let end = gtf_entries.end[i];
        if start > u32::MAX as u64 || end >= u32::MAX as u64 {
            return Err(BuildError::CoordinateOutOfRange(i));
        }
        if end < start {
            return Err(BuildError::InvalidInterval(i));
        }
        let cat = gtf_entries.seqname.values[i];
        let gene_id = &ids[i];
        let ghost before = trees@;
        let ghost ids_before = spec_gene_ids(cats, ids@, cat, i as int);
        let ghost ids_now = spec_gene_ids(cats, ids@, cat, i + 1);
        proof {
            lemma_gene_ids_distinct(cats, ids@, cat, i as int);
            lemma_gene_ids_distinct(cats, ids@, cat, i + 1);
        }
        let gene_no: usize = match id_position(&trees[cat as usize].gene_ids, gene_id) {
            Some(no) => no,
            None => {
                proof {
                    if ids_before.contains(gene_id@) {
                        let k = choose|k: int| 0 <= k < ids_before.len() && ids_before[k] == gene_id@;
                        assert(trees@[cat as int].gene_ids@[k]@ == gene_id@);
                    }
                }
                if trees[cat as usize].gene_ids.len() >= u32::MAX as usize {
                    return Err(BuildError::TooManyIdentifiers(i));
                }
                trees[cat as usize].gene_ids.push(clone_string(gene_id));
                proof {
                    assert(string_views(trees@[cat as int].gene_ids@) =~= ids_before.push(gene_id@));
                }
                trees[cat as usize].gene_ids.len() - 1
            },
        };
        proof {
            assert(string_views(trees@[cat as int].gene_ids@) == ids_now);
            assert(ids_now[gene_no as int] == gene_id@);
            assert(ids_now.index_of(gene_id@) == gene_no) by {
                let k = ids_now.index_of(gene_id@);
                assert(ids_now[k] == gene_id@);
            }
        }
        let region = Region {
            start: start as u32,
            end: end as u32,
            id_no: gene_no as u32,
            strand: gtf_entries.strand[i],
        };
        let ghost regions_before = trees@[cat as int].regions();
        tree_insert(&mut trees[cat as usize].tree, region);
        proof {
            broadcast use vstd::multiset::group_multiset_axioms;

            let after = trees@;
            assert(!spec_row_overflows(cats, ids@, i as int));
            assert forall|k: int| 0 <= k < after.len() implies {
                &&& (#[trigger] after[k]).chr@ == gtf_entries.seqname.cats@[k]@
                &&& after[k].wf()
                &&& string_views(after[k].gene_ids@) == spec_gene_ids(cats, ids@, k as u32, i + 1)
                &&& after[k].regions() == spec_row_regions(
                    cats,
                    gtf_entries.start@,
                    gtf_entries.end@,
                    gtf_entries.strand@,
                    ids@,
                    k as u32,
                    i + 1,
                )
            } by {
                if k != cat {
                    assert(after[k] == before[k]);
                } else {
                    assert(after[k].regions() == regions_before.insert(region));
                    assert forall|r: Region| #[trigger] after[k].regions().count(r) > 0 implies r.start
                        <= r.end && r.end < u32::MAX && r.id_no < after[k].gene_ids@.len() by {
                        if r != region {
                            assert(regions_before.count(r) > 0);
                            assert(before[k].regions().count(r) > 0);
                        }
                    }
                }
            }
        }
        i = i + 1;
    }
    Ok(trees)
}

/// Those of the first `n` index entries that have identifiers, in order.
pub open spec fn spec_nonempty(trees: Seq<ReferenceTree>, n: int) -> Seq<ReferenceTree>
    decreases n,
{
    if n <= 0 {
        Seq::empty()
    } else {
        let before = spec_nonempty(trees, n - 1);
        if trees[n - 1].gene_ids@.len() > 0 {
            before.push(trees[n - 1])
        } else {
            before
        }
    }
}

proof fn lemma_nonempty_from(trees: Seq<ReferenceTree>, n: int)
    requires
        0 <= n <= trees.len(),
    ensures
        forall|i: int|
            0 <= i < spec_nonempty(trees, n).len() ==> exists|c: int|
                0 <= c < n && trees[c] == #[trigger] spec_nonempty(trees, n)[i],
    decreases n,
{
    if n > 0 {
        lemma_nonempty_from(trees, n - 1);
        let before = spec_nonempty(trees, n - 1);
        let now = spec_nonempty(trees, n);
        assert forall|i: int| 0 <= i < now.len() implies exists|c: int|
            0 <= c < n && trees[c] == #[trigger] now[i] by {
            if i < before.len() {
                assert(now[i] == before[i]);
                let c = choose|c: int| 0 <= c < n - 1 && trees[c] == before[i];
                assert(trees[c] == now[i]);
            } else {
                assert(trees[n - 1] == now[i]);
            }
        }
    }
}

/// Drops the index entries without identifiers.
fn keep_nonempty(trees: Vec<ReferenceTree>) -> (kept: Vec<ReferenceTree>)
    ensures
        kept@ == spec_nonempty(trees@, trees@.len() as int),
{
    let mut kept = trees;
    let ghost all = kept@;
    let ghost mut done: int = 0;
    let mut k: usize = 0;
    assert(kept@.take(0) =~= Seq::empty());
    assert(kept@.skip(0) =~= all.skip(0));
    while k < kept.len()
        invariant
            0 <= k <= kept@.len(),
            0 <= done <= all.len(),
            all == trees@,
            kept@.take(k as int) == spec_nonempty(all, done),
            kept@.skip(k as int) == all.skip(done),
        decreases kept@.len() - k,
    {
        proof {
            assert(kept@.skip(k as int).len() == kept@.len() - k);
            assert(all.skip(done).len() == all.len() - done);
            assert(done < all.len());
            assert(kept@.skip(k as int)[0] == kept@[k as int]);
            assert(all.skip(done)[0] == all[done]);
            assert(kept@[k as int] == all[done]);
        }
        let ghost before = kept@;
        if kept[k].gene_ids.len() == 0 {
            kept.remove(k);
            proof {
                assert(kept@.take(k as int) =~= before.take(k as int));
                assert(kept@.skip(k as int) =~= before.skip(k as int).skip(1));
                assert(all.skip(done).skip(1) =~= all.skip(done + 1));
                done = done + 1;
            }
        } else {
            proof {
                assert(kept@.take(k + 1) =~= kept@.take(k as int).push(kept@[k as int]));
                assert(kept@.skip(k + 1) =~= kept@.skip(k as int).skip(1));
                assert(all.skip(done).skip(1) =~= all.skip(done + 1));
                done = done + 1;
            }
            k = k + 1;
        }
    }
    proof {
        assert(kept@.take(kept@.len() as int) =~= kept@);
        assert(all.skip(done).len() == 0);
    }
    kept
}

/// Whether `trees` is the region index of the rows by the identifier
/// `id_attribute`: for every category of reference names an entry with the
/// regions and identifiers of its rows, without the entries that have none.
pub open spec fn spec_index_of(
    trees: Seq<ReferenceTree>,
    entries: &GTFEntrys,
    id_attribute: Seq<char>,
) -> bool {
    exists|by_category: Seq<ReferenceTree>| #[trigger]
        spec_built(
            by_category,
            entries,
            entries.vec_attributes@[entries.spec_vec_attribute(id_attribute)].values@,
            entries.spec_rows(),
        ) && trees == spec_nonempty(by_category, by_category.len() as int)
}

/// Whether `trees` is the region index of the envelopes of the rows by the
/// identifier `id_attribute`.
pub open spec fn spec_merged_index_of(
    trees: Seq<ReferenceTree>,
    entries: &GTFEntrys,
    id_attribute: Seq<char>,
) -> bool {
    exists|by_category: Seq<ReferenceTree>| #[trigger]
        spec_built_merged(
            by_category,
            entries,
            entries.vec_attributes@[entries.spec_vec_attribute(id_attribute)].values@,
        ) && trees == spec_nonempty(by_category, by_category.len() as int)
}

/// Whether two region indices hold the same: reference by reference the
/// same name, regions and identifiers.
pub open spec fn spec_same_index(a: Seq<ReferenceTree>, b: Seq<ReferenceTree>) -> bool {
    &&& a.len() == b.len()
    &&& forall|i: int|
        0 <= i < a.len() ==> (#[trigger] a[i]).chr@ == b[i].chr@ && a[i].regions() == b[i].regions()
            && string_views(a[i].gene_ids@) == string_views(b[i].gene_ids@)
}

/// The region index of an annotation: for every reference that has rows,
/// in the order in which the references first appear, an interval tree with
/// one region per row and the identifiers of the rows. A region's number is
/// the place of its identifier among the identifiers of its reference.
pub fn build_trees_from_gtf(id_attribute: &str, gtf_entries: &GTFEntrys) -> (r: Result<
    Vec<ReferenceTree>,
    BuildError,
>)
    requires
        gtf_entries.wf(),
    ensures
        match r {
            Ok(trees) => {
                &&& forall|i: int| 0 <= i < trees@.len() ==> (#[trigger] trees@[i]).wf()
                &&& spec_index_of(trees@, gtf_entries, id_attribute@)
                &&& spec_indexable(gtf_entries, id_attribute@, true)
            },
            Err(e) => spec_refused(gtf_entries, id_attribute@, true, e),
        },
{
    match build_by_category(id_attribute, gtf_entries) {
        Ok(by_category) => {
            let ghost all = by_category@;
            let trees = keep_nonempty(by_category);
            proof {
                lemma_nonempty_from(all, all.len() as int);
                assert forall|i: int| 0 <= i < trees@.len() implies (#[trigger] trees@[i]).wf() by {
                    let c = choose|c: int| 0 <= c < all.len() && all[c] == trees@[i];
                    assert(all[c].wf());
                }
            }
            Ok(trees)
        },
        Err(e) => Err(e),
    }
}

/// A copy of a region index.
pub fn clone_trees(trees: &Vec<ReferenceTree>) -> (copy: Vec<ReferenceTree>)
    ensures
        spec_same_index(trees@, copy@),
        forall|i: int| 0 <= i < trees@.len() && trees@[i].wf() ==> (#[trigger] copy@[i]).wf(),
{
    let mut copy: Vec<ReferenceTree> = Vec::new();
    let mut i: usize = 0;
    while i < trees.len()
        invariant
            0 <= i <= trees.len(),
            copy@.len() == i,
            forall|j: int|
                0 <= j < i ==> (#[trigger] copy@[j]).chr@ == trees@[j].chr@ && copy@[j].regions()
                    == trees@[j].regions() && string_views(copy@[j].gene_ids@) == string_views(
                    trees@[j].gene_ids@,
                ) && copy@[j].gene_ids@.len() == trees@[j].gene_ids@.len(),
        decreases trees.len() - i,
    {
        let t = &trees[i];
        let mut gene_ids: Vec<String> = Vec::new();
        let mut k: usize = 0;
        while k < t.gene_ids.len()
            invariant
                0 <= k <= t.gene_ids.len(),
                gene_ids@.len() == k,
                forall|j: int| 0 <= j < k ==> (#[trigger] gene_ids@[j])@ == t.gene_ids@[j]@,
            decreases t.gene_ids.len() - k,
        {
            gene_ids.push(clone_string(&t.gene_ids[k]));
            k = k + 1;
        }
        assert(string_views(gene_ids@) =~= string_views(t.gene_ids@));
        copy.push(ReferenceTree { chr: clone_string(&t.chr), tree: tree_clone(&t.tree), gene_ids });
        i = i + 1;
    }
    copy
}

/// The envelope of the rows that share an identifier: from the lowest start
/// to the highest end.
#[derive(Debug)]
pub struct Envelope {
    pub id: String,
    pub start: u32,
    pub end: u32,
}

/// An envelope as plain values.
pub open spec fn envelope_view(e: Envelope) -> (Seq<char>, u32, u32) {
    (e.id@, e.start, e.end)
}

/// The place of the envelope of `id`, or the number of envelopes.
pub open spec fn spec_envelope_position(envelopes: Seq<(Seq<char>, u32, u32)>, id: Seq<char>) -> int
    decreases envelopes.len(),
{
    if envelopes.len() == 0 {
        0
    } else if envelopes[0].0 == id {
        0
    } else {
        1 + spec_envelope_position(envelopes.drop_first(), id)
    }
}

/// The envelopes of the category `c` among the first `n` rows, by
/// identifier, in the order in which the identifiers first appear.
pub open spec fn spec_envelopes(
    cats: Seq<u32>,
    starts: Seq<u64>,
    ends: Seq<u64>,
    ids: Seq<String>,
    c: u32,
    n: int,
) -> Seq<(Seq<char>, u32, u32)>
    decreases n,
{
    if n <= 0 {
        Seq::empty()
    } else {
        let before = spec_envelopes(cats, starts, ends, ids, c, n - 1);
        if cats[n - 1] == c {
            let at = spec_envelope_position(before, ids[n - 1]@);
            let start = starts[n - 1] as u32;
            let end = ends[n - 1] as u32;
            if 0 <= at < before.len() {
                before.update(
                    at,
                    (
                        ids[n - 1]@,
                        if start < before[at].1 {
                            start
                        } else {
                            before[at].1
                        },
                        if end > before[at].2 {
                            end
                        } else {
                            before[at].2
                        },
                    ),
                )
            } else {
                before.push((ids[n - 1]@, start, end))
            }
        } else {
            before
        }
    }
}

/// The regions of the first `n` envelopes: one region without strand per
/// envelope, all under the number zero.
pub open spec fn spec_envelope_regions(envelopes: Seq<(Seq<char>, u32, u32)>, n: int) -> Multiset<Region>
    decreases n,
{
    if n <= 0 {
        Multiset::empty()
    } else {
        spec_envelope_regions(envelopes, n - 1).insert(
            Region {
                start: envelopes[n - 1].1,
                end: envelopes[n - 1].2,
                id_no: 0,
                strand: Strand::Unstranded,
            },
        )
    }
}

fn envelope_position(envelopes: &Vec<Envelope>, id: &String) -> (r: Option<usize>)
    ensures
        0 <= spec_envelope_position(envelopes@.map_values(|e: Envelope| envelope_view(e)), id@)
            <= envelopes@.len(),
        r.is_some() <==> spec_envelope_position(
            envelopes@.map_values(|e: Envelope| envelope_view(e)),
            id@,
        ) < envelopes@.len(),
        r.is_some() ==> r.unwrap() == spec_envelope_position(
            envelopes@.map_values(|e: Envelope| envelope_view(e)),
            id@,
        ) && envelopes@[r.unwrap() as int].id@ == id@,
{
    let ghost views = envelopes@.map_values(|e: Envelope| envelope_view(e));
    let mut i: usize = 0;
    assert(views.skip(0) =~= views);
    while i < envelopes.len()
        invariant
            0 <= i <= envelopes.len(),
            views == envelopes@.map_values(|e: Envelope| envelope_view(e)),
            spec_envelope_position(views, id@) == i + spec_envelope_position(views.skip(i as int), id@),
        decreases envelopes.len() - i,
    {
        proof {
            assert(views.skip(i as int)[0] == views[i as int]);
            assert(views.skip(i as int).drop_first() =~= views.skip(i as int + 1));
        }
        if envelopes[i].id == *id {
            return Some(i);
        }
        i = i + 1;
    }
    None
}

/// Whether the index entries are what the envelopes of the rows give: entry
/// `c` has the name of category `c` and one region per envelope.
pub open spec fn spec_built_merged(
    trees: Seq<ReferenceTree>,
    entries: &GTFEntrys,
    ids: Seq<String>,
) -> bool {
    &&& trees.len() == entries.seqname.cats@.len()
    &&& forall|c: int|
        0 <= c < trees.len() ==> {
            let envelopes = spec_envelopes(
                entries.seqname.values@,
                entries.start@,
                entries.end@,
                ids,
                c as u32,
                entries.spec_rows(),
            );
            &&& (#[trigger] trees[c]).chr@ == entries.seqname.cats@[c]@
            &&& trees[c].wf()
            &&& trees[c].regions() == spec_envelope_regions(envelopes, envelopes.len() as int)
            &&& trees[c].gene_ids@.len() == if envelopes.len() > 0 {
                1int
            } else {
                0int
            }
            &&& envelopes.len() > 0 ==> trees[c].gene_ids@[0]@ == "ignored"@
        }
}

/// The region index that chunk boundaries go by: for every reference that
/// has rows, an interval tree with one region per identifier, from the
/// lowest start to the highest end of its rows, without strand.
pub fn build_trees_from_gtf_merged(id_attribute: &str, gtf_entries: &GTFEntrys) -> (r: Result<
    Vec<ReferenceTree>,
    BuildError,
>)
    requires
        gtf_entries.wf(),
    ensures
        match r {
            Ok(trees) => {
                &&& forall|i: int| 0 <= i < trees@.len() ==> (#[trigger] trees@[i]).wf()
                &&& spec_merged_index_of(trees@, gtf_entries, id_attribute@)
                &&& spec_indexable(gtf_entries, id_attribute@, false)
            },
            Err(e) => spec_refused(gtf_entries, id_attribute@, false, e),
        },
{
    proof {
        GTFEntrys::lemma_attribute_found(gtf_entries.vec_attributes@, id_attribute@);
    }
    let at = match gtf_entries.vec_attribute(id_attribute) {
        Some(at) => at,
        None => {
            proof {
                GTFEntrys::lemma_attribute_position(
                    gtf_entries.vec_attributes@,
                    id_attribute@,
                    gtf_entries.vec_attributes@.len() as int,
                );
            }
            return Err(BuildError::MissingIdAttribute);
        },
    };
    proof {
        GTFEntrys::lemma_attribute_position(gtf_entries.vec_attributes@, id_attribute@, at as int);
    }
    let ids = &gtf_entries.vec_attributes[at].values;
    let ghost cats = gtf_entries.seqname.values@;
    let ghost starts = gtf_entries.start@;
    let ghost ends = gtf_entries.end@;
    let mut intervals: Vec<Vec<Envelope>> = Vec::new();
    let mut c: usize = 0;
    while c < gtf_entries.seqname.cats.len()
        invariant
            0 <= c <= gtf_entries.seqname.cats.len(),
            intervals@.len() == c,
            forall|k: int| 0 <= k < c ==> (#[trigger] intervals@[k])@.len() == 0,
        decreases gtf_entries.seqname.cats.len() - c,
    {
        intervals.push(Vec::new());
        c = c + 1;
    }
    proof {
        assert forall|k: int| 0 <= k < intervals@.len() implies (#[trigger] intervals@[k])@.map_values(
            |e: Envelope| envelope_view(e),
        ) == spec_envelopes(cats, starts, ends, ids@, k as u32, 0) by {
            assert(intervals@[k]@.map_values(|e: Envelope| envelope_view(e)) =~= Seq::empty());
        }
    }
    let n = gtf_entries.start.len();
    let mut i: usize = 0;
    while i < n
        invariant
            0 <= i <= n,
            n == gtf_entries.spec_rows(),
            gtf_entries.wf(),
            at < gtf_entries.vec_attributes@.len(),
            at == gtf_entries.spec_vec_attribute(id_attribute@),
            ids == &gtf_entries.vec_attributes@[at as int].values,
            cats == gtf_entries.seqname.values@,
            starts == gtf_entries.start@,
            ends == gtf_entries.end@,
            intervals@.len() == gtf_entries.seqname.cats@.len(),
            forall|k: int|
                0 <= k < intervals@.len() ==> (#[trigger] intervals@[k])@.map_values(
                    |e: Envelope| envelope_view(e),
                ) == spec_envelopes(cats, starts, ends, ids@, k as u32, i as int),
            forall|k: int, j: int|
                0 <= k < intervals@.len() && 0 <= j < intervals@[k]@.len() ==> (
                #[trigger] intervals@[k]@[j]).start <= intervals@[k]@[j].end && intervals@[k]@[j].end
                    < u32::MAX,
            spec_rows_fit(gtf_entries, ids@, false, i as int),
        decreases n - i,
    {
        let start = gtf_entries.start[i];
        let end = gtf_entries.end[i];
        if start > u32::MAX as u64 || end >= u32::MAX as u64 {
            return Err(BuildError::CoordinateOutOfRange(i));
        }
        if end < start {
            return Err(BuildError::InvalidInterval(i));
        }
        let start: u32 = start as u32;
        let end: u32 = end as u32;
        let cat = gtf_entries.seqname.values[i] as usize;
        let gene_id = &ids[i];
        let ghost before = intervals@;
        let ghost views_before = intervals@[cat as int]@.map_values(|e: Envelope| envelope_view(e));
        match envelope_position(&intervals[cat], gene_id) {
            Some(k) => {
                let last = &intervals[cat][k];
                let new = Envelope {
                    id: clone_string(gene_id),
                    start: if start < last.start {
                        start
                    } else {
                        last.start
                    },
                    end: if end > last.end {
                        end
                    } else {
                        last.end
                    },
                };
                intervals[cat].set(k, new);
                proof {
                    assert(intervals@[cat as int]@.map_values(|e: Envelope| envelope_view(e))
                        =~= spec_envelopes(cats, starts, ends, ids@, cat as u32, i + 1));
                }
            },
            None => {
                intervals[cat].push(Envelope { id: clone_string(gene_id), start, end });
                proof {
                    assert(intervals@[cat as int]@.map_values(|e: Envelope| envelope_view(e))
                        =~= spec_envelopes(cats, starts, ends, ids@, cat as u32, i + 1));
                }
            },
        }
        proof {
            assert forall|k: int| 0 <= k < intervals@.len() implies (#[trigger] intervals@[k])@.map_values(
                |e: Envelope| envelope_view(e),
            ) == spec_envelopes(cats, starts, ends, ids@, k as u32, i + 1) by {
                if k != cat {
                    assert(intervals@[k] == before[k]);
                }
            }
            assert forall|k: int, j: int|
                0 <= k < intervals@.len() && 0 <= j < intervals@[k]@.len() implies (
            #[trigger] intervals@[k]@[j]).start <= intervals@[k]@[j].end && intervals@[k]@[j].end
                < u32::MAX by {
                if k != cat {
                    assert(intervals@[k] == before[k]);
                    assert(before[k]@[j].start <= before[k]@[j].end);
                } else if j < before[k]@.len() {
                    assert(before[k]@[j].start <= before[k]@[j].end);
                }
            }
        }
        i = i + 1;
    }
    let mut trees: Vec<ReferenceTree> = Vec::new();
    let mut c: usize = 0;
    while c < intervals.len()
        invariant
            0 <= c <= intervals.len(),
            n == gtf_entries.spec_rows(),
            intervals@.len() == gtf_entries.seqname.cats@.len(),
            cats == gtf_entries.seqname.values@,
            starts == gtf_entries.start@,
            ends == gtf_entries.end@,
            trees@.len() == c,
            forall|k: int|
                0 <= k < intervals@.len() ==> (#[trigger] intervals@[k])@.map_values(
                    |e: Envelope| envelope_view(e),
                ) == spec_envelopes(cats, starts, ends, ids@, k as u32, n as int),
            forall|k: int, j: int|
                0 <= k < intervals@.len() && 0 <= j < intervals@[k]@.len() ==> (
                #[trigger] intervals@[k]@[j]).start <= intervals@[k]@[j].end && intervals@[k]@[j].end
                    < u32::MAX,
            forall|k: int|
                0 <= k < c ==> {
                    let envelopes = spec_envelopes(cats, starts, ends, ids@, k as u32, n as int);
                    &&& (#[trigger] trees@[k]).chr@ == gtf_entries.seqname.cats@[k]@
                    &&& trees@[k].wf()
                    &&& trees@[k].regions() == spec_envelope_regions(
                        envelopes,
                        envelopes.len() as int,
                    )
                    &&& trees@[k].gene_ids@.len() == if envelopes.len() > 0 {
                        1int
                    } else {
                        0int
                    }
                    &&& envelopes.len() > 0 ==> trees@[k].gene_ids@[0]@ == "ignored"@
                },
        decreases intervals.len() - c,
    {
        let envs = &intervals[c];
        let ghost views = envs@.map_values(|e: Envelope| envelope_view(e));
        let mut tree = tree_new();
        let mut j: usize = 0;
        while j < envs.len()
            invariant
                0 <= j <= envs.len(),
                views == envs@.map_values(|e: Envelope| envelope_view(e)),
                tree_regions(&tree) == spec_envelope_regions(views, j as int),
                forall|m: int|
                    0 <= m < envs@.len() ==> (#[trigger] envs@[m]).start <= envs@[m].end
                        && envs@[m].end < u32::MAX,
                forall|r: Region| #[trigger]
                    tree_regions(&tree).count(r) > 0 ==> r.start <= r.end && r.end < u32::MAX
                        && r.id_no == 0,
            decreases envs.len() - j,
        {
            let e = &envs[j];
            let ghost regions_before = tree_regions(&tree);
            let region = Region { start: e.start, end: e.end, id_no: 0, strand: Strand::Unstranded };
            tree_insert(&mut tree, region);
            proof {
                broadcast use vstd::multiset::group_multiset_axioms;

                assert(views[j as int] == envelope_view(envs@[j as int]));
                assert forall|r: Region| #[trigger] tree_regions(&tree).count(r) > 0 implies r.start
                    <= r.end && r.end < u32::MAX && r.id_no == 0 by {
                    if r != region {
                        assert(regions_before.count(r) > 0);
                    }
                }
            }
            j = j + 1;
        }
        let mut gene_ids: Vec<String> = Vec::new();
        if envs.len() > 0 {
            gene_ids.push(String::from_str("ignored"));
        }
        proof {
            broadcast use vstd::multiset::group_multiset_axioms;

            if envs@.len() == 0 {
                assert forall|r: Region| #[trigger] tree_regions(&tree).count(r) > 0 implies false by {}
            }
        }
        trees.push(
            ReferenceTree { chr: clone_string(&gtf_entries.seqname.cats[c]), tree, gene_ids },
        );
        c = c + 1;
    }
    let ghost all = trees@;
    let kept = keep_nonempty(trees);
    proof {
        lemma_nonempty_from(all, all.len() as int);
        assert forall|i: int| 0 <= i < kept@.len() implies (#[trigger] kept@[i]).wf() by {
            let c = choose|c: int| 0 <= c < all.len() && all[c] == kept@[i];
            assert(all[c].wf());
        }
        assert(spec_built_merged(all, gtf_entries, ids@));
        GTFEntrys::lemma_attribute_position(gtf_entries.vec_attributes@, id_attribute@, at as int);
        assert(gtf_entries.spec_vec_attribute(id_attribute@) == at);
        assert(spec_built_merged(
            all,
            gtf_entries,
            gtf_entries.vec_attributes@[gtf_entries.spec_vec_attribute(id_attribute@)].values@,
        ));
        assert(spec_merged_index_of(kept@, gtf_entries, id_attribute@));
    }
    Ok(kept)
}

} // verus!
