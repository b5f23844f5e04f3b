use crate::engine::region_index::{find_tree, overlaps, spec_tree_position, ReferenceTree, Region};
use crate::engine::matcher::{ReadToGeneMatcher, ReferenceMatcher, TagMatcher, TreeMatcher};
use crate::filters::Filter;
use crate::text::{decimal, spec_decimal};
use vstd::multiset::Multiset;
use vstd::prelude::*;
use vstd::string::*;

verus! {

/// A half-open window `[start, stop)` on one reference: the unit of work.
#[derive(Debug)]
pub struct Chunk {
    pub chr: String,
    pub tid: u32,
    pub start: u32,
    pub stop: u32,
}

impl Chunk {
    pub fn new(chr: String, tid: u32, start: u32, stop: u32) -> (c: Chunk)
        ensures
            c.chr == chr,
            c.tid == tid,
            c.start == start,
            c.stop == stop,
    {
        Chunk { chr, tid, start, stop }
    }

    /// The chunk's id: reference name, start and stop, joined by colons.
    pub open spec fn spec_str_id(&self) -> Seq<char> {
        self.chr@ + seq![':'] + spec_decimal(self.start as nat) + seq![':'] + spec_decimal(
            self.stop as nat,
        )
    }

    pub fn str_id(&self) -> (id: String)
        ensures
            id@ == self.spec_str_id(),
    {
        proof {
            reveal_strlit(":");
        }
        let mut id = self.chr.clone();
        id.append(":");
        id.append(decimal(self.start as u64).as_str());
        id.append(":");
        id.append(decimal(self.stop as u64).as_str());
        assert(id@ =~= self.spec_str_id());
        id
    }

    /// Whether the interval `[start, stop)` of a block lies wholly before or
    /// wholly after the chunk, touching ends counted as inside.
    pub fn interval_outside(&self, start: u32, stop: u32) -> (outside: bool)
        ensures
            outside == (self.start > stop || self.stop < start),
    {
        self.start > stop || self.stop < start
    }
}

/// The target size of a chunk.
pub const CHUNK_SIZE: u32 = 10_000_000;

/// What the chunker reads of one reference sequence of the alignment file.
#[derive(Debug)]
pub struct ReferenceInfo {
    pub name: String,
    pub tid: u32,
    pub length: u32,
    /// Whether at least one read is aligned to the reference.
    pub has_reads: bool,
}

/// Whether the position `stop` lies inside a region: a chunk that ended
/// there would split the region.
pub open spec fn spec_straddled(regions: Multiset<Region>, stop: int) -> bool {
    exists|r: Region| #[trigger] regions.count(r) > 0 && r.start <= stop < r.end
}

/// Whether `end` is the furthest end among the regions that `stop` lies in.
pub open spec fn spec_is_reach(regions: Multiset<Region>, stop: int, end: int) -> bool {
    &&& exists|r: Region| #[trigger] regions.count(r) > 0 && r.start <= stop < r.end && r.end == end
    &&& forall|r: Region| #[trigger] regions.count(r) > 0 && r.start <= stop < r.end ==> r.end <= end
}

/// The furthest end among the regions that `stop` lies in.
pub open spec fn spec_reach(regions: Multiset<Region>, stop: int) -> int {
    choose|end: int| spec_is_reach(regions, stop, end)
}

/// Where a chunk ends that would end at `stop` if regions could be split: at
/// `stop` if that lies in no region, else one past the furthest end of the
/// regions that it lies in, looked at in the same way; and in any case no
/// later than the reference's end.
pub open spec fn spec_chunk_stop(regions: Multiset<Region>, stop: int, length: int) -> int
    decreases
            (if stop < length {
                length - stop
            } else {
                0
            }),
{
    if stop >= length {
        length
    } else if !spec_straddled(regions, stop) {
        stop
    } else {
        let next = spec_reach(regions, stop) + 1;
        spec_chunk_stop(
            regions,
            if next > stop {
                next
            } else {
                stop + 1
            },
            length,
        )
    }
}

/// The chunks of a reference of the given length from `start` on, as
/// `(start, stop)`: each is `chunk_size` long unless it ends the reference or
/// has to be longer so as not to split a region.
pub open spec fn spec_chunks_from(
    regions: Multiset<Region>,
    start: int,
    length: int,
    chunk_size: int,
) -> Seq<(int, int)>
    decreases
            (if start < length {
                length - start
            } else {
                0
            }),
{
    if start >= length || chunk_size <= 0 {
        Seq::empty()
    } else {
        let stop = spec_chunk_stop(regions, start + chunk_size, length);
        if stop <= start {
            Seq::empty()
        } else {
            seq![(start, stop)] + spec_chunks_from(regions, stop, length, chunk_size)
        }
    }
}

/// The chunks tile `[start, length)`: they follow each other without gap or
/// overlap, none is empty, the first starts at `start` and the last ends at
/// `length`.
pub open spec fn tiles(chunks: Seq<(int, int)>, start: int, length: int) -> bool {
    &&& forall|i: int| 0 <= i < chunks.len() ==> (#[trigger] chunks[i]).0 < chunks[i].1
    &&& forall|i: int| 0 <= i < chunks.len() - 1 ==> (#[trigger] chunks[i]).1 == chunks[i + 1].0
    &&& if start < length {
        chunks.len() > 0 && chunks[0].0 == start && chunks.last().1 == length
    } else {
        chunks.len() == 0
    }
}

/// A chunk's stop lies at or after the place where it was first put, within
/// the reference, and inside no region unless it ends the reference.
pub proof fn lemma_chunk_stop(regions: Multiset<Region>, stop: int, length: int)
    ensures
        stop <= length ==> stop <= spec_chunk_stop(regions, stop, length) <= length,
        stop > length ==> spec_chunk_stop(regions, stop, length) == length,
        spec_chunk_stop(regions, stop, length) < length ==> !spec_straddled(
            regions,
            spec_chunk_stop(regions, stop, length),
        ),
    decreases
            (if stop < length {
                length - stop
            } else {
                0
            }),
{
    if stop < length && spec_straddled(regions, stop) {
        let next = spec_reach(regions, stop) + 1;
        lemma_chunk_stop(
            regions,
            if next > stop {
                next
            } else {
                stop + 1
            },
            length,
        );
    }
}

/// Chunks cover a reference exactly once and split no region: the chunks of
/// a reference tile it from its start to its end, and no chunk ends inside a
/// region, unless it ends the reference.
pub proof fn lemma_chunks_tile(regions: Multiset<Region>, start: int, length: int, chunk_size: int)
    requires
        chunk_size > 0,
        0 <= start,
    ensures
        tiles(spec_chunks_from(regions, start, length, chunk_size), start, length),
        forall|i: int|
            0 <= i < spec_chunks_from(regions, start, length, chunk_size).len() && (
            #[trigger] spec_chunks_from(regions, start, length, chunk_size)[i]).1 < length
                ==> !spec_straddled(
                regions,
                spec_chunks_from(regions, start, length, chunk_size)[i].1,
            ),
    decreases
            (if start < length {
                length - start
            } else {
                0
            }),
{
    if start < length {
        let stop = spec_chunk_stop(regions, start + chunk_size, length);
        lemma_chunk_stop(regions, start + chunk_size, length);
        lemma_chunks_tile(regions, stop, length, chunk_size);
        let rest = spec_chunks_from(regions, stop, length, chunk_size);
        let all = spec_chunks_from(regions, start, length, chunk_size);
        assert(all == seq![(start, stop)] + rest);
        assert forall|i: int| 0 <= i < all.len() implies (#[trigger] all[i]).0 < all[i].1 by {
            if i > 0 {
                assert(all[i] == rest[i - 1]);
            }
        }
        assert forall|i: int| 0 <= i < all.len() - 1 implies (#[trigger] all[i]).1 == all[i + 1].0 by {
            assert(all[i + 1] == rest[i]);
            if i > 0 {
                assert(all[i] == rest[i - 1]);
            }
        }
        if rest.len() > 0 {
            assert(all.last() == rest.last());
        }
        assert forall|i: int| 0 <= i < all.len() && (#[trigger] all[i]).1 < length implies !spec_straddled(
            regions,
            all[i].1,
        ) by {
            if i > 0 {
                assert(all[i] == rest[i - 1]);
            }
        }
    }
}

/// Every position of a reference, and every position below zero, belongs to
/// exactly one chunk of a tiling: a position belongs to the chunk that holds
/// it, and the positions below zero to the chunk that starts at zero.
pub proof fn lemma_one_chunk_per_position(chunks: Seq<(int, int)>, length: int, p: int)
    requires
        tiles(chunks, 0, length),
        0 < length,
        p < length,
    ensures
        exists|i: int|
            0 <= i < chunks.len() && #[trigger] spec_takes(chunks[i], p) && forall|j: int|
                0 <= j < chunks.len() && #[trigger] spec_takes(chunks[j], p) ==> j == i,
{
    lemma_tiling_ordered(chunks, length);
    let i = lemma_find_chunk(chunks, length, p, chunks.len() - 1);
    assert forall|j: int| 0 <= j < chunks.len() && #[trigger] spec_takes(chunks[j], p) implies j
        == i by {
        if j < i {
            assert(chunks[j].1 <= chunks[i].0);
        }
        if i < j {
            assert(chunks[i].1 <= chunks[j].0);
        }
    }
}

/// Whether a read whose position for the bounds check is `p` belongs to the
/// chunk: `p` lies in the chunk, or below zero if the chunk starts at zero.
pub open spec fn spec_takes(chunk: (int, int), p: int) -> bool {
    !((chunk.0 > 0 && p < chunk.0) || p >= chunk.1)
}

proof fn lemma_tiling_ordered(chunks: Seq<(int, int)>, length: int)
    requires
        tiles(chunks, 0, length),
    ensures
        forall|i: int, j: int|
            0 <= i < j < chunks.len() ==> (#[trigger] chunks[i]).1 <= (#[trigger] chunks[j]).0,
        forall|i: int| 0 <= i < chunks.len() ==> 0 <= (#[trigger] chunks[i]).0,
{
    assert forall|i: int, j: int| 0 <= i < j < chunks.len() implies (#[trigger] chunks[i]).1 <= (
    #[trigger] chunks[j]).0 by {
        lemma_tiling_step(chunks, length, i, j);
    }
    assert forall|i: int| 0 <= i < chunks.len() implies 0 <= (#[trigger] chunks[i]).0 by {
        if i > 0 {
            lemma_tiling_step(chunks, length, 0, i);
        }
    }
}

proof fn lemma_tiling_step(chunks: Seq<(int, int)>, length: int, i: int, j: int)
    requires
        tiles(chunks, 0, length),
        0 <= i < j < chunks.len(),
    ensures
        chunks[i].1 <= chunks[j].0,
        chunks[i].0 < chunks[j].0,
    decreases j - i,
{
    if j == i + 1 {
        assert(chunks[i].1 == chunks[i + 1].0);
    } else {
        lemma_tiling_step(chunks, length, i, j - 1);
        assert(chunks[j - 1].1 == chunks[j - 1 + 1].0);
    }
}

proof fn lemma_find_chunk(chunks: Seq<(int, int)>, length: int, p: int, k: int) -> (i: int)
    requires
        tiles(chunks, 0, length),
        0 <= k < chunks.len(),
        p < chunks[k].1,
    ensures
        0 <= i <= k,
        spec_takes(chunks[i], p),
    decreases k,
{
    if k == 0 {
        0
    } else if p >= chunks[k].0 {
        lemma_tiling_step(chunks, length, 0, k);
        k
    } else {
        assert(chunks[k - 1].1 == chunks[k - 1 + 1].0);
        lemma_find_chunk(chunks, length, p, k - 1)
    }
}

/// What a chunk is, as plain values.
pub open spec fn chunk_view(c: Chunk) -> (Seq<char>, u32, int, int) {
    (c.chr@, c.tid, c.start as int, c.stop as int)
}

/// One past the furthest end of the regions that `stop` lies in; nothing if
/// it lies in none.
fn reach_beyond(tree: &ReferenceTree, stop: u32) -> (r: Option<u32>)
    requires
        tree.wf(),
        stop < u32::MAX,
    ensures
        r.is_some() == spec_straddled(tree.regions(), stop as int),
        r.is_some() ==> r.unwrap() == spec_reach(tree.regions(), stop as int) + 1 && r.unwrap()
            > stop + 1,
{
    let found = tree.find(stop, stop + 1);
    if found.len() == 0 {
        proof {
            if spec_straddled(tree.regions(), stop as int) {
                let r = choose|r: Region| #[trigger]
                    tree.regions().count(r) > 0 && r.start <= stop < r.end;
                assert(overlaps(r, stop, (stop + 1) as u32));
                assert(found@.contains(r));
            }
        }
        return None;
    }
    let mut best: u32 = found[0].end;
    let mut i: usize = 1;
    assert(found@.contains(found@[0]));
    while i < found.len()
        invariant
            1 <= i <= found.len(),
            forall|j: int| 0 <= j < i ==> (#[trigger] found@[j]).end <= best,
            exists|j: int| 0 <= j < i && (#[trigger] found@[j]).end == best,
        decreases found.len() - i,
    {
        if found[i].end > best {
            best = found[i].end;
        }
        i = i + 1;
    }
    proof {
        let regions = tree.regions();
        let j = choose|j: int| 0 <= j < found@.len() && (#[trigger] found@[j]).end == best;
        assert(found@.contains(found@[j]));
        assert(regions.count(found@[j]) > 0 && overlaps(found@[j], stop, (stop + 1) as u32));
        assert forall|r: Region| #[trigger]
            regions.count(r) > 0 && r.start <= stop < r.end implies r.end <= best by {
            assert(overlaps(r, stop, (stop + 1) as u32));
            assert(found@.contains(r));
            let k = choose|k: int| 0 <= k < found@.len() && found@[k] == r;
            assert(found@[k].end <= best);
        }
        assert(spec_is_reach(regions, stop as int, best as int));
        let chosen = spec_reach(regions, stop as int);
        assert(spec_is_reach(regions, stop as int, chosen));
        assert(chosen == best) by {
            let r1 = choose|r: Region| #[trigger]
                regions.count(r) > 0 && r.start <= stop < r.end && r.end == chosen;
            assert(r1.end <= best);
            assert(found@[j].end <= chosen);
        }
    }
    Some(best + 1)
}

/// The chunks of one reference, in order. Without a region index
/// every chunk but the last is `chunk_size` long; with one, a chunk that
/// would end inside a region ends one past the furthest end of the regions
/// at that place instead.
pub fn chunks_of_reference(
    reference: &ReferenceInfo,
    tree: Option<&ReferenceTree>,
    chunk_size: u32,
) -> (chunks: Vec<Chunk>)
    requires
        chunk_size > 0,
        tree.is_some() ==> tree.unwrap().wf(),
    ensures
        chunks@.len() == spec_chunks_from(
            match tree {
                Some(t) => t.regions(),
                None => Multiset::empty(),
            },
            0,
            reference.length as int,
            chunk_size as int,
        ).len(),
        forall|i: int|
            0 <= i < chunks@.len() ==> chunk_view(#[trigger] chunks@[i]) == (
                reference.name@,
                reference.tid,
                spec_chunks_from(
                    match tree {
                        Some(t) => t.regions(),
                        None => Multiset::empty(),
                    },
                    0,
                    reference.length as int,
                    chunk_size as int,
                )[i].0,
                spec_chunks_from(
                    match tree {
                        Some(t) => t.regions(),
                        None => Multiset::empty(),
                    },
                    0,
                    reference.length as int,
                    chunk_size as int,
                )[i].1,
            ),
{
    let ghost regions = match tree {
        Some(t) => t.regions(),
        None => Multiset::empty(),
    };
    let length = reference.length;
    let ghost all = spec_chunks_from(regions, 0, length as int, chunk_size as int);
    let mut chunks: Vec<Chunk> = Vec::new();
    let mut start: u32 = 0;
    while start < length
        invariant
            0 <= start <= length,
            chunk_size > 0,
            length == reference.length,
            tree.is_some() ==> tree.unwrap().wf(),
            regions == match tree {
                Some(t) => t.regions(),
                None => Multiset::empty(),
            },
            all == spec_chunks_from(regions, 0, length as int, chunk_size as int),
            all == Seq::new(chunks@.len(), |i: int| (chunks@[i].start as int, chunks@[i].stop as int))
                + spec_chunks_from(regions, start as int, length as int, chunk_size as int),
            forall|i: int|
                0 <= i < chunks@.len() ==> (#[trigger] chunks@[i]).chr@ == reference.name@
                    && chunks@[i].tid == reference.tid,
        decreases length - start,
    {
        let tentative: u64 = start as u64 + chunk_size as u64;
        let mut stop: u32 = if tentative >= length as u64 {
            length
        } else {
            tentative as u32
        };
        let ghost want = spec_chunk_stop(regions, start + chunk_size, length as int);
        proof {
            lemma_chunk_stop(regions, start + chunk_size, length as int);
        }
        match tree {
            Some(t) => {
                while stop < length
                    invariant
                        start < stop <= length,
                        t.wf(),
                        regions == t.regions(),
                        want == spec_chunk_stop(regions, stop as int, length as int),
                    ensures
                        start < stop <= length,
                        stop == want,
                    decreases length - stop,
                {
                    match reach_beyond(t, stop) {
                        None => {
                            break ;
                        },
                        Some(next) => {
                            stop = if next >= length {
                                proof {
                                    lemma_chunk_stop(regions, next as int, length as int);
                                }
                                length
                            } else {
                                next
                            };
                        },
                    }
                }
            },
            None => {
                proof {
                    broadcast use vstd::multiset::group_multiset_axioms;

                    if stop < length {
                        assert(!spec_straddled(regions, stop as int));
                    }
                }
            },
        }
        assert(stop == want);
        let ghost before = chunks@;
        chunks.push(Chunk::new(reference.name.clone(), reference.tid, start, stop));
        proof {
            let done = Seq::new(
                before.len(),
                |i: int| (before[i].start as int, before[i].stop as int),
            );
            let done_now = Seq::new(
                chunks@.len(),
                |i: int| (chunks@[i].start as int, chunks@[i].stop as int),
            );
            assert(done_now =~= done.push((start as int, stop as int)));
            assert(all =~= done_now + spec_chunks_from(
                regions,
                stop as int,
                length as int,
                chunk_size as int,
            ));
        }
        start = stop;
    }
    proof {
        let done = Seq::new(
            chunks@.len(),
            |i: int| (chunks@[i].start as int, chunks@[i].stop as int),
        );
        assert(all =~= done);
        assert forall|i: int| 0 <= i < chunks@.len() implies chunk_view(#[trigger] chunks@[i]) == (
            reference.name@,
            reference.tid,
            all[i].0,
            all[i].1,
        ) by {
            assert(done[i] == all[i]);
        }
    }
    chunks
}

/// The regions that stand in the way of chunk boundaries on the reference
/// `chr`: those of its first index entry, or none.
pub open spec fn spec_regions_of(trees: Seq<ReferenceTree>, chr: Seq<char>) -> Multiset<Region> {
    let at = spec_tree_position(trees, chr);
    if 0 <= at < trees.len() {
        trees[at].regions()
    } else {
        Multiset::empty()
    }
}

/// The chunks of one reference, as plain values.
pub open spec fn spec_reference_chunks(
    reference: ReferenceInfo,
    regions: Multiset<Region>,
    chunk_size: int,
) -> Seq<(Seq<char>, u32, int, int)> {
    spec_chunks_from(regions, 0, reference.length as int, chunk_size).map_values(
        |c: (int, int)| (reference.name@, reference.tid, c.0, c.1),
    )
}

/// The references of an alignment file that are chunked along the regions
/// of an annotation: those that have reads and a region index, in the order
/// of the file's header.
pub struct ChunkedGenome<'a> {
    pub trees: &'a Vec<ReferenceTree>,
    pub chromosomes: Vec<ReferenceInfo>,
}

/// The first `n` of the references that have reads and a region index.
pub open spec fn spec_chromosomes(
    references: Seq<ReferenceInfo>,
    trees: Seq<ReferenceTree>,
    n: int,
) -> Seq<ReferenceInfo>
    decreases n,
{
    if n <= 0 {
        Seq::empty()
    } else {
        let before = spec_chromosomes(references, trees, n - 1);
        let r = references[n - 1];
        if r.has_reads && spec_tree_position(trees, r.name@) < trees.len() {
            before.push(r)
        } else {
            before
        }
    }
}

/// The chunks of the first `n` references, reference after reference.
pub open spec fn spec_genome_chunks(
    chromosomes: Seq<ReferenceInfo>,
    trees: Seq<ReferenceTree>,
    chunk_size: int,
    n: int,
) -> Seq<(Seq<char>, u32, int, int)>
    decreases n,
{
    if n <= 0 {
        Seq::empty()
    } else {
        spec_genome_chunks(chromosomes, trees, chunk_size, n - 1) + spec_reference_chunks(
            chromosomes[n - 1],
            spec_regions_of(trees, chromosomes[n - 1].name@),
            chunk_size,
        )
    }
}

fn clone_reference(r: &ReferenceInfo) -> (c: ReferenceInfo)
    ensures
        c == *r,
{
    ReferenceInfo { name: r.name.clone(), tid: r.tid, length: r.length, has_reads: r.has_reads }
}

fn clone_chunk(c: &Chunk) -> (r: Chunk)
    ensures
        r == *c,
{
    Chunk { chr: c.chr.clone(), tid: c.tid, start: c.start, stop: c.stop }
}

impl<'a> ChunkedGenome<'a> {
    /// The chunked genome of an alignment file. Chunks will end between
    /// the regions of `trees`, never inside one.
    pub fn new(trees: &'a Vec<ReferenceTree>, references: &Vec<ReferenceInfo>) -> (g: ChunkedGenome<'a>)
        ensures
            g.trees == trees,
            g.chromosomes@ == spec_chromosomes(references@, trees@, references@.len() as int),
    {
        let mut chromosomes: Vec<ReferenceInfo> = Vec::new();
        let mut i: usize = 0;
        while i < references.len()
            invariant
                0 <= i <= references.len(),
                chromosomes@ == spec_chromosomes(references@, trees@, i as int),
            decreases references.len() - i,
        {
            let r = &references[i];
            if r.has_reads && find_tree(trees, &r.name).is_some() {
                chromosomes.push(clone_reference(r));
            }
            i = i + 1;
        }
        ChunkedGenome { trees, chromosomes }
    }

    pub open spec fn wf(&self) -> bool {
        forall|i: int| 0 <= i < self.trees@.len() ==> (#[trigger] self.trees@[i]).wf()
    }

    /// All chunks, reference after reference, each reference from its
    /// start to its end.
    pub fn iter(&self) -> (chunks: Vec<Chunk>)
        requires
            self.wf(),
        ensures
            chunks@.map_values(|c: Chunk| chunk_view(c)) == spec_genome_chunks(
                self.chromosomes@,
                self.trees@,
                CHUNK_SIZE as int,
                self.chromosomes@.len() as int,
            ),
    {
        let mut chunks: Vec<Chunk> = Vec::new();
        let mut i: usize = 0;
        assert(chunks@.map_values(|c: Chunk| chunk_view(c)) =~= Seq::empty());
        while i < self.chromosomes.len()
            invariant
                0 <= i <= self.chromosomes.len(),
                self.wf(),
                chunks@.map_values(|c: Chunk| chunk_view(c)) == spec_genome_chunks(
                    self.chromosomes@,
                    self.trees@,
                    CHUNK_SIZE as int,
                    i as int,
                ),
            decreases self.chromosomes.len() - i,
        {
            let reference = &self.chromosomes[i];
            let tree = find_tree(self.trees, &reference.name);
            let mut more = chunks_of_reference(reference, tree, CHUNK_SIZE);
            let ghost before = chunks@;
            let ghost added = more@;
            chunks.append(&mut more);
            proof {
                broadcast use vstd::multiset::group_multiset_axioms;

                let regions = spec_regions_of(self.trees@, reference.name@);
                let want = spec_reference_chunks(*reference, regions, CHUNK_SIZE as int);
                assert(added.map_values(|c: Chunk| chunk_view(c)) =~= want);
                assert(chunks@.map_values(|c: Chunk| chunk_view(c)) =~= before.map_values(
                    |c: Chunk| chunk_view(c),
                ) + added.map_values(|c: Chunk| chunk_view(c)));
            }
            i = i + 1;
        }
        chunks
    }
}

/// Whether every reference filter of the list lets the chunks of the
/// reference `chr` be processed.
pub open spec fn spec_chunk_retained(filters: Seq<Filter>, chr: Seq<char>) -> bool {
    forall|i: int|
        0 <= i < filters.len() ==> match #[trigger] filters[i] {
            Filter::Reference(f) => f.spec_retains(chr),
            _ => true,
        }
}

/// Those of the first `n` chunks that every reference filter lets pass, in order.
pub open spec fn spec_retained(chunks: Seq<Chunk>, filters: Seq<Filter>, n: int) -> Seq<Chunk>
    decreases n,
{
    if n <= 0 {
        Seq::empty()
    } else {
        let before = spec_retained(chunks, filters, n - 1);
        if spec_chunk_retained(filters, chunks[n - 1].chr@) {
            before.push(chunks[n - 1])
        } else {
            before
        }
    }
}

fn chunk_retained(filters: &Vec<Filter>, chr: &String) -> (r: bool)
    ensures
        r == spec_chunk_retained(filters@, chr@),
{
    let mut i: usize = 0;
    while i < filters.len()
        invariant
            0 <= i <= filters.len(),
            forall|j: int|
                0 <= j < i ==> match #[trigger] filters@[j] {
                    Filter::Reference(f) => f.spec_retains(chr@),
                    _ => true,
                },
        decreases filters.len() - i,
    {
        match &filters[i] {
            Filter::Reference(f) => {
                if !f.retains(chr) {
                    return false;
                }
            },
            _ => {},
        }
        i = i + 1;
    }
    true
}

/// Applies the reference filters to the list of chunks: the chunks of a
/// reference that a filter leaves out are dropped, the others stay in order.
pub fn retain_chunks(chunks: &Vec<Chunk>, filters: &Vec<Filter>) -> (kept: Vec<Chunk>)
    ensures
        kept@ == spec_retained(chunks@, filters@, chunks@.len() as int),
{
    let mut kept: Vec<Chunk> = Vec::new();
    let mut i: usize = 0;
    while i < chunks.len()
        invariant
            0 <= i <= chunks.len(),
            kept@ == spec_retained(chunks@, filters@, i as int),
        decreases chunks.len() - i,
    {
        if chunk_retained(filters, &chunks[i].chr) {
            kept.push(clone_chunk(&chunks[i]));
        }
        i = i + 1;
    }
    kept
}

/// One chunk for each of the first `n` references that `wanted` picks and
/// that is not empty, from its start to its end.
pub open spec fn spec_whole_references(
    references: Seq<ReferenceInfo>,
    wanted: spec_fn(ReferenceInfo) -> bool,
    n: int,
) -> Seq<(Seq<char>, u32, int, int)>
    decreases n,
{
    if n <= 0 {
        Seq::empty()
    } else {
        let before = spec_whole_references(references, wanted, n - 1);
        let r = references[n - 1];
        if wanted(r) && r.length > 0 {
            before.push((r.name@, r.tid, 0int, r.length as int))
        } else {
            before
        }
    }
}

impl TreeMatcher {
    /// The chunks of the references that have reads and regions; a chunk
    /// never ends inside a region of the aggregation index.
    pub fn generate_chunks(&self, references: &Vec<ReferenceInfo>) -> (chunks: Vec<Chunk>)
        requires
            self.wf(),
        ensures
            chunks@.map_values(|c: Chunk| chunk_view(c)) == spec_genome_chunks(
                spec_chromosomes(
                    references@,
                    self.reference_to_aggregation_trees@,
                    references@.len() as int,
                ),
                self.reference_to_aggregation_trees@,
                CHUNK_SIZE as int,
                spec_chromosomes(
                    references@,
                    self.reference_to_aggregation_trees@,
                    references@.len() as int,
                ).len() as int,
            ),
    {
        let cg = ChunkedGenome::new(&self.reference_to_aggregation_trees, references);
        cg.iter()
    }
}

impl TagMatcher {
    /// One chunk per reference that has reads, over its full length.
    pub fn generate_chunks(&self, references: &Vec<ReferenceInfo>) -> (chunks: Vec<Chunk>)
        ensures
            chunks@.map_values(|c: Chunk| chunk_view(c)) == spec_whole_references(
                references@,
                |r: ReferenceInfo| r.has_reads,
                references@.len() as int,
            ),
    {
        let mut chunks: Vec<Chunk> = Vec::new();
        let mut i: usize = 0;
        let ghost wanted = |r: ReferenceInfo| r.has_reads;
        assert(chunks@.map_values(|c: Chunk| chunk_view(c)) =~= Seq::empty());
        while i < references.len()
            invariant
                0 <= i <= references.len(),
                wanted == (|r: ReferenceInfo| r.has_reads),
                chunks@.map_values(|c: Chunk| chunk_view(c)) == spec_whole_references(
                    references@,
                    wanted,
                    i as int,
                ),
            decreases references.len() - i,
        {
            let r = &references[i];
            let ghost before = chunks@;
            if r.has_reads && r.length > 0 {
                chunks.push(Chunk::new(r.name.clone(), r.tid, 0, r.length));
                proof {
                    assert(chunks@.map_values(|c: Chunk| chunk_view(c)) =~= before.map_values(
                        |c: Chunk| chunk_view(c),
                    ).push((r.name@, r.tid, 0int, r.length as int)));
                }
            }
            i = i + 1;
        }
        chunks
    }
}

impl ReferenceMatcher {
    /// Whether the reference is among those to count.
    pub open spec fn spec_included(&self, tid: u32) -> bool {
        exists|i: int|
            0 <= i < self.tids_to_include@.len() && (#[trigger] self.tids_to_include@[i]) == tid
    }

    fn included(&self, tid: u32) -> (r: bool)
        ensures
            r == self.spec_included(tid),
    {
        let mut i: usize = 0;
        while i < self.tids_to_include.len()
            invariant
                0 <= i <= self.tids_to_include.len(),
                forall|j: int| 0 <= j < i ==> (#[trigger] self.tids_to_include@[j]) != tid,
            decreases self.tids_to_include.len() - i,
        {
            let t = self.tids_to_include[i];
            if t >= 0 && t as u32 == tid {
                return true;
            }
            i = i + 1;
        }
        false
    }

    /// One chunk per reference to count, over its full length.
    pub fn generate_chunks(&self, references: &Vec<ReferenceInfo>) -> (chunks: Vec<Chunk>)
        ensures
            chunks@.map_values(|c: Chunk| chunk_view(c)) == spec_whole_references(
                references@,
                |r: ReferenceInfo| self.spec_included(r.tid),
                references@.len() as int,
            ),
    {
        let mut chunks: Vec<Chunk> = Vec::new();
        let mut i: usize = 0;
        let ghost wanted = |r: ReferenceInfo| self.spec_included(r.tid);
        assert(chunks@.map_values(|c: Chunk| chunk_view(c)) =~= Seq::empty());
        while i < references.len()
            invariant
                0 <= i <= references.len(),
                wanted == (|r: ReferenceInfo| self.spec_included(r.tid)),
                chunks@.map_values(|c: Chunk| chunk_view(c)) == spec_whole_references(
                    references@,
                    wanted,
                    i as int,
                ),
            decreases references.len() - i,
        {
            let r = &references[i];
            let ghost before = chunks@;
            if self.included(r.tid) && r.length > 0 {
                chunks.push(Chunk::new(r.name.clone(), r.tid, 0, r.length));
                proof {
                    assert(chunks@.map_values(|c: Chunk| chunk_view(c)) =~= before.map_values(
                        |c: Chunk| chunk_view(c),
                    ).push((r.name@, r.tid, 0int, r.length as int)));
                }
            }
            i = i + 1;
        }
        chunks
    }
}

impl ReadToGeneMatcher {
    /// The chunks to work on, as the matcher at hand cuts them.
    pub fn generate_chunks(&self, references: &Vec<ReferenceInfo>) -> (chunks: Vec<Chunk>)
        requires
            self.wf(),
        ensures
            self matches ReadToGeneMatcher::TreeMatcher(m) ==> chunks@.map_values(
                |c: Chunk| chunk_view(c),
            ) == spec_genome_chunks(
                spec_chromosomes(
                    references@,
                    m.reference_to_aggregation_trees@,
                    references@.len() as int,
                ),
                m.reference_to_aggregation_trees@,
                CHUNK_SIZE as int,
                spec_chromosomes(
                    references@,
                    m.reference_to_aggregation_trees@,
                    references@.len() as int,
                ).len() as int,
            ),
            self is TagMatcher ==> chunks@.map_values(|c: Chunk| chunk_view(c))
                == spec_whole_references(
                references@,
                |r: ReferenceInfo| r.has_reads,
                references@.len() as int,
            ),
            self matches ReadToGeneMatcher::ReferenceMatcher(m) ==> chunks@.map_values(
                |c: Chunk| chunk_view(c),
            ) == spec_whole_references(
                references@,
                |r: ReferenceInfo| m.spec_included(r.tid),
                references@.len() as int,
            ),
    {
        match self {
            ReadToGeneMatcher::TreeMatcher(matcher) => matcher.generate_chunks(references),
            ReadToGeneMatcher::TagMatcher(matcher) => matcher.generate_chunks(references),
            ReadToGeneMatcher::ReferenceMatcher(matcher) => matcher.generate_chunks(references),
        }
    }
}

} // verus!
