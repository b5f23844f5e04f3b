use crate::bam_ext::{
    lemma_blocks_within, lemma_ref_pos_monotonic, spec_blocks, spec_is_aligned, spec_ref_pos, Aux,
    Cigar, Record,
};
use crate::config::{MatchDirection, MultiRegionHandling, OverlapMode, Strategy};
use crate::engine::chunked_genome::Chunk;
use crate::engine::interner::{InternerFull, OurInterner};
use crate::engine::intervals::{covered, covered_points, merged_interval_length};
use crate::engine::region_index::{find_tree, overlaps, spec_tree_position, ReferenceTree, Region};
use crate::gtf::Strand;
use std::ops::Range;
use vstd::multiset::Multiset;
use vstd::prelude::*;

verus! {

/// Whether a block lies wholly outside the chunk `[chunk_start, chunk_stop)`,
/// touching ends counted as inside.
pub open spec fn spec_outside(chunk_start: u32, chunk_stop: u32, block: (u32, u32)) -> bool {
    chunk_start > block.1 || chunk_stop < block.0
}

/// Whether a read of the given orientation agrees with a region of the given
/// strand under the configured direction. Regions without strand, and every
/// region when the direction is ignored, agree with all reads.
pub open spec fn counts_as_correct(direction: MatchDirection, read_reverse: bool, strand: Strand) -> bool {
    match (direction, strand) {
        (MatchDirection::Ignore, _) => true,
        (_, Strand::Unstranded) => true,
        (MatchDirection::Forward, Strand::Plus) => !read_reverse,
        (MatchDirection::Forward, Strand::Minus) => read_reverse,
        (MatchDirection::Reverse, Strand::Plus) => read_reverse,
        (MatchDirection::Reverse, Strand::Minus) => !read_reverse,
    }
}

pub fn is_correct_direction(direction: MatchDirection, read_reverse: bool, strand: Strand) -> (c: bool)
    ensures
        c == counts_as_correct(direction, read_reverse, strand),
{
    match (direction, read_reverse, strand) {
        (MatchDirection::Forward, false, Strand::Plus) => true,
        (MatchDirection::Forward, false, Strand::Minus) => false,
        (MatchDirection::Forward, true, Strand::Plus) => false,
        (MatchDirection::Forward, true, Strand::Minus) => true,
        (MatchDirection::Forward, _, Strand::Unstranded) => true,
        (MatchDirection::Reverse, false, Strand::Plus) => false,
        (MatchDirection::Reverse, false, Strand::Minus) => true,
        (MatchDirection::Reverse, true, Strand::Plus) => true,
        (MatchDirection::Reverse, true, Strand::Minus) => false,
        (MatchDirection::Reverse, _, Strand::Unstranded) => true,
        (MatchDirection::Ignore, _, _) => true,
    }
}

/// A block of the read and a stored region that it overlaps.
#[derive(Debug, Clone, Copy)]
pub struct Overlap {
    pub block: usize,
    pub region: Region,
}

/// Block `b` is not outside the chunk and overlaps the stored region `r`.
pub open spec fn is_overlap(
    regions: Multiset<Region>,
    blocks: Seq<(u32, u32)>,
    chunk_start: u32,
    chunk_stop: u32,
    b: int,
    r: Region,
) -> bool {
    0 <= b < blocks.len() && !spec_outside(chunk_start, chunk_stop, blocks[b]) && regions.count(r)
        > 0 && overlaps(r, blocks[b].0, blocks[b].1)
}

/// How many overlaps the first `n` blocks have with stored regions, a region
/// stored twice counted twice.
pub open spec fn overlap_count(
    regions: Multiset<Region>,
    blocks: Seq<(u32, u32)>,
    chunk_start: u32,
    chunk_stop: u32,
    n: int,
) -> nat
    decreases n,
{
    if n <= 0 {
        0
    } else {
        let b = blocks[n - 1];
        overlap_count(regions, blocks, chunk_start, chunk_stop, n - 1) + if spec_outside(
            chunk_start,
            chunk_stop,
            b,
        ) {
            0nat
        } else {
            regions.filter(|r: Region| overlaps(r, b.0, b.1)).len()
        }
    }
}

/// Every overlap between a block of the read that is not outside the chunk
/// and a stored region, block by block.
pub fn collect_overlaps(tree: &ReferenceTree, chunk: &Chunk, blocks: &Vec<(u32, u32)>) -> (raw: Vec<
    Overlap,
>)
    requires
        forall|b: int| 0 <= b < blocks@.len() ==> (#[trigger] blocks@[b]).0 <= blocks@[b].1,
    ensures
        forall|k: int|
            0 <= k < raw@.len() ==> is_overlap(
                tree.regions(),
                blocks@,
                chunk.start,
                chunk.stop,
                (#[trigger] raw@[k]).block as int,
                raw@[k].region,
            ),
        forall|b: int, r: Region|
            is_overlap(tree.regions(), blocks@, chunk.start, chunk.stop, b, r) ==> raw@.contains(
                Overlap { block: b as usize, region: r },
            ),
        raw@.len() == overlap_count(
            tree.regions(),
            blocks@,
            chunk.start,
            chunk.stop,
            blocks@.len() as int,
        ),
{
    let mut raw: Vec<Overlap> = Vec::new();
    let mut b: usize = 0;
    while b < blocks.len()
        invariant
            0 <= b <= blocks.len(),
            forall|k: int|
                0 <= k < raw@.len() ==> is_overlap(
                    tree.regions(),
                    blocks@,
                    chunk.start,
                    chunk.stop,
                    (#[trigger] raw@[k]).block as int,
                    raw@[k].region,
                ),
            forall|c: int, r: Region|
                c < b && is_overlap(tree.regions(), blocks@, chunk.start, chunk.stop, c, r)
                    ==> raw@.contains(Overlap { block: c as usize, region: r }),
            raw@.len() == overlap_count(tree.regions(), blocks@, chunk.start, chunk.stop, b as int),
            forall|c: int| 0 <= c < blocks@.len() ==> (#[trigger] blocks@[c]).0 <= blocks@[c].1,
        decreases blocks.len() - b,
    {
        let iv = blocks[b];
        if !chunk.interval_outside(iv.0, iv.1) {
            let found = tree.find(iv.0, iv.1);
            let ghost before = raw@;
            let mut j: usize = 0;
            proof {
                broadcast use vstd::seq_lib::group_to_multiset_ensures;

            }
            while j < found.len()
                invariant
                    0 <= j <= found.len(),
                    b < blocks.len(),
                    iv == blocks@[b as int],
                    !spec_outside(chunk.start, chunk.stop, iv),
                    raw@.len() == before.len() + j,
                    forall|k: int| 0 <= k < before.len() ==> raw@[k] == before[k],
                    forall|k: int|
                        0 <= k < j ==> raw@[before.len() + k] == (Overlap {
                            block: b,
                            region: found@[k],
                        }),
                    forall|r: Region|
                        found@.contains(r) <==> (#[trigger] tree.regions().count(r) > 0
                            && overlaps(r, iv.0, iv.1)),
                decreases found.len() - j,
            {
                raw.push(Overlap { block: b, region: found[j] });
                j = j + 1;
            }
            proof {
                assert forall|k: int| 0 <= k < raw@.len() implies is_overlap(
                    tree.regions(),
                    blocks@,
                    chunk.start,
                    chunk.stop,
                    (#[trigger] raw@[k]).block as int,
                    raw@[k].region,
                ) by {
                    if k >= before.len() {
                        let f = k - before.len();
                        assert(raw@[before.len() + f] == (Overlap { block: b, region: found@[f] }));
                        assert(found@.contains(found@[f]));
                    } else {
                        assert(raw@[k] == before[k]);
                    }
                }
                assert forall|c: int, r: Region|
                    c < b + 1 && is_overlap(
                        tree.regions(),
                        blocks@,
                        chunk.start,
                        chunk.stop,
                        c,
                        r,
                    ) implies raw@.contains(Overlap { block: c as usize, region: r }) by {
                    let needle = Overlap { block: c as usize, region: r };
                    if c < b {
                        assert(before.contains(needle));
                        let k = choose|k: int| 0 <= k < before.len() && before[k] == needle;
                        assert(raw@[k] == needle);
                    } else {
                        assert(found@.contains(r));
                        let f = choose|f: int| 0 <= f < found@.len() && found@[f] == r;
                        assert(raw@[before.len() + f] == needle);
                    }
                }
                vstd::seq_lib::to_multiset_len(found@);
            }
        } else {
            proof {
                assert forall|c: int, r: Region|
                    c < b + 1 && is_overlap(
                        tree.regions(),
                        blocks@,
                        chunk.start,
                        chunk.stop,
                        c,
                        r,
                    ) implies raw@.contains(Overlap { block: c as usize, region: r }) by {
                    if c == b {
                        assert(false);
                    }
                }
            }
        }
        b = b + 1;
    }
    raw
}

/// The identifier of the region of overlap `k`.
pub open spec fn raw_id(raw: Seq<Overlap>, ids: Seq<String>, k: int) -> Seq<char> {
    ids[raw[k].region.id_no as int]@
}

/// The part of its block that overlap `k` shares with its region.
pub open spec fn raw_interval(raw: Seq<Overlap>, blocks: Seq<(u32, u32)>, k: int) -> Range<u32> {
    let b = blocks[raw[k].block as int];
    let r = raw[k].region;
    Range {
        start: if r.start > b.0 {
            r.start
        } else {
            b.0
        },
        end: if r.end < b.1 {
            r.end
        } else {
            b.1
        },
    }
}

/// Whether some overlap carries the token with the number `t`.
pub open spec fn token_used(toks: Seq<Option<u32>>, t: int) -> bool {
    exists|k: int| 0 <= k < toks.len() && (#[trigger] toks[k]) == Some(t as u32)
}

/// The tokens stand for the identifiers of the overlaps that fall into the
/// wanted bucket, overlap by overlap; the others have none.
pub open spec fn tokens_match(
    toks: Seq<Option<u32>>,
    raw: Seq<Overlap>,
    ids: Seq<String>,
    strings: Seq<Seq<char>>,
    direction: MatchDirection,
    read_reverse: bool,
    correct: bool,
) -> bool {
    &&& toks.len() == raw.len()
    &&& forall|k: int|
        0 <= k < raw.len() ==> ((#[trigger] toks[k]).is_some() <==> counts_as_correct(
            direction,
            read_reverse,
            raw[k].region.strand,
        ) == correct)
    &&& forall|k: int|
        0 <= k < raw.len() && (#[trigger] toks[k]).is_some() ==> toks[k].unwrap() < strings.len()
            && strings[toks[k].unwrap() as int] == raw_id(raw, ids, k)
}

/// Interns the identifier of every overlap that falls into the wanted
/// bucket, in order.
pub fn intern_bucket(
    raw: &Vec<Overlap>,
    gene_ids: &Vec<String>,
    direction: MatchDirection,
    read_reverse: bool,
    correct: bool,
    interner: &mut OurInterner,
) -> (toks: Vec<Option<u32>>)
    requires
        old(interner).wf(),
        old(interner).strings().len() + raw@.len() < u32::MAX,
        forall|k: int| 0 <= k < raw@.len() ==> (#[trigger] raw@[k]).region.id_no < gene_ids@.len(),
    ensures
        final(interner).wf(),
        old(interner).strings().is_prefix_of(final(interner).strings()),
        final(interner).strings().len() <= old(interner).strings().len() + raw@.len(),
        tokens_match(
            toks@,
            raw@,
            gene_ids@,
            final(interner).strings(),
            direction,
            read_reverse,
            correct,
        ),
        forall|i: int|
            old(interner).strings().len() <= i < final(interner).strings().len()
                ==> #[trigger] token_used(toks@, i),
{
    let mut toks: Vec<Option<u32>> = Vec::new();
    let mut k: usize = 0;
    while k < raw.len()
        invariant
            0 <= k <= raw.len(),
            toks@.len() == k,
            interner.wf(),
            old(interner).strings().is_prefix_of(interner.strings()),
            interner.strings().len() <= old(interner).strings().len() + k,
            old(interner).strings().len() + raw@.len() < u32::MAX,
            forall|j: int| 0 <= j < raw@.len() ==> (#[trigger] raw@[j]).region.id_no < gene_ids@.len(),
            forall|j: int|
                0 <= j < k ==> ((#[trigger] toks@[j]).is_some() <==> counts_as_correct(
                    direction,
                    read_reverse,
                    raw@[j].region.strand,
                ) == correct),
            forall|j: int|
                0 <= j < k && (#[trigger] toks@[j]).is_some() ==> toks@[j].unwrap()
                    < interner.strings().len() && interner.strings()[toks@[j].unwrap() as int]
                    == raw_id(raw@, gene_ids@, j),
            forall|i: int|
                old(interner).strings().len() <= i < interner.strings().len()
                    ==> #[trigger] token_used(toks@, i),
        decreases raw.len() - k,
    {
        let region = raw[k].region;
        let ghost before = interner.strings();
        let ghost toks_before = toks@;
        if is_correct_direction(direction, read_reverse, region.strand) == correct {
            let r = interner.get_or_intern(gene_ids[region.id_no as usize].as_str());
            match r {
                Ok(token) => {
                    toks.push(Some(token));
                    proof {
                        let after = interner.strings();
                        assert(before.is_prefix_of(after));
                        assert(after[token as int] == raw_id(raw@, gene_ids@, k as int));
                        assert forall|i: int|
                            old(interner).strings().len() <= i < after.len() implies #[trigger] token_used(
                            toks@,
                            i,
                        ) by {
                            if i < before.len() {
                                assert(token_used(toks_before, i));
                                let j = choose|j: int|
                                    0 <= j < k && (#[trigger] toks_before[j]) == Some(i as u32);
                                assert(toks@[j] == Some(i as u32));
                            } else {
                                assert(i == token);
                                assert(toks@[k as int] == Some(i as u32));
                            }
                        }
                    }
                },
                Err(_) => {
                    assert(false);
                    toks.push(None);
                },
            }
        } else {
            toks.push(None);
            proof {
                assert forall|i: int|
                    old(interner).strings().len() <= i < interner.strings().len() implies #[trigger] token_used(
                    toks@,
                    i,
                ) by {
                    assert(token_used(toks_before, i));
                    let j = choose|j: int|
                        0 <= j < k && (#[trigger] toks_before[j]) == Some(i as u32);
                    assert(toks@[j] == Some(i as u32));
                }
            }
        }
        k = k + 1;
    }
    toks
}

/// The points of the read's blocks that lie in regions under the token `t`.
pub open spec fn token_points(
    toks: Seq<Option<u32>>,
    raw: Seq<Overlap>,
    blocks: Seq<(u32, u32)>,
    t: u32,
) -> Set<int> {
    Set::new(
        |p: int|
            exists|k: int|
                0 <= k < toks.len() && (#[trigger] toks[k]) == Some(t) && raw_interval(
                    raw,
                    blocks,
                    k,
                ).start <= p < raw_interval(raw, blocks, k).end,
    )
}

/// Whether the regions under the token `t` hold every aligned base of the read.
pub open spec fn token_full(
    toks: Seq<Option<u32>>,
    raw: Seq<Overlap>,
    blocks: Seq<(u32, u32)>,
    bases_aligned: int,
    t: u32,
) -> bool {
    token_points(toks, raw, blocks, t).finite() && token_points(toks, raw, blocks, t).len()
        == bases_aligned
}

/// Whether the overlap rule keeps the token `t`.
pub open spec fn token_selected(
    mode: OverlapMode,
    toks: Seq<Option<u32>>,
    raw: Seq<Overlap>,
    blocks: Seq<(u32, u32)>,
    bases_aligned: int,
    t: u32,
) -> bool {
    token_used(toks, t as int) && match mode {
        OverlapMode::Union => true,
        OverlapMode::IntersectionStrict => token_full(toks, raw, blocks, bases_aligned, t),
        OverlapMode::IntersectionNonEmpty => token_full(toks, raw, blocks, bases_aligned, t) || !(
        exists|u: u32|
            token_used(toks, u as int) && #[trigger] token_full(toks, raw, blocks, bases_aligned, u)),
    }
}

/// Whether the overlap rule keeps more than one token.
pub open spec fn several_selected(
    mode: OverlapMode,
    toks: Seq<Option<u32>>,
    raw: Seq<Overlap>,
    blocks: Seq<(u32, u32)>,
    bases_aligned: int,
) -> bool {
    exists|t: u32, u: u32|
        t != u && #[trigger] token_selected(mode, toks, raw, blocks, bases_aligned, t)
            && #[trigger] token_selected(mode, toks, raw, blocks, bases_aligned, u)
}

fn contains_token(v: &Vec<u32>, t: u32) -> (r: bool)
    ensures
        r == v@.contains(t),
{
    let mut i: usize = 0;
    while i < v.len()
        invariant
            0 <= i <= v.len(),
            forall|j: int| 0 <= j < i ==> v@[j] != t,
        decreases v.len() - i,
    {
        if v[i] == t {
            return true;
        }
        i = i + 1;
    }
    false
}

/// The tokens that occur, each once, in the order of their first occurrence.
pub fn distinct_tokens(toks: &Vec<Option<u32>>) -> (out: Vec<u32>)
    ensures
        out@.no_duplicates(),
        forall|t: u32| out@.contains(t) <==> #[trigger] token_used(toks@, t as int),
{
    let mut out: Vec<u32> = Vec::new();
    let mut k: usize = 0;
    while k < toks.len()
        invariant
            0 <= k <= toks.len(),
            out@.no_duplicates(),
            forall|t: u32|
                #[trigger] out@.contains(t) <==> exists|j: int|
                    0 <= j < k && (#[trigger] toks@[j]) == Some(t),
        decreases toks.len() - k,
    {
        let ghost before = out@;
        match toks[k] {
            Some(t) => {
                if !contains_token(&out, t) {
                    out.push(t);
                    proof {
                        assert forall|u: u32| #[trigger] out@.contains(u) <==> exists|j: int|
                            0 <= j < k + 1 && (#[trigger] toks@[j]) == Some(u) by {
                            if out@.contains(u) {
                                let i = choose|i: int| 0 <= i < out@.len() && out@[i] == u;
                                if i < before.len() {
                                    assert(before[i] == u);
                                    assert(before.contains(u));
                                } else {
                                    assert(toks@[k as int] == Some(u));
                                }
                            }
                            if exists|j: int| 0 <= j < k + 1 && (#[trigger] toks@[j]) == Some(u) {
                                let j = choose|j: int|
                                    0 <= j < k + 1 && (#[trigger] toks@[j]) == Some(u);
                                if j < k {
                                    assert(before.contains(u));
                                    let i = choose|i: int| 0 <= i < before.len() && before[i] == u;
                                    assert(out@[i] == u);
                                } else {
                                    assert(out@[before.len() as int] == u);
                                }
                            }
                        }
                    }
                } else {
                    proof {
                        assert forall|u: u32| #[trigger] out@.contains(u) <==> exists|j: int|
                            0 <= j < k + 1 && (#[trigger] toks@[j]) == Some(u) by {
                            if exists|j: int| 0 <= j < k + 1 && (#[trigger] toks@[j]) == Some(u) {
                                let j = choose|j: int|
                                    0 <= j < k + 1 && (#[trigger] toks@[j]) == Some(u);
                                if j == k {
                                    assert(u == t);
                                }
                            }
                        }
                    }
                }
            },
            None => {
                proof {
                    assert forall|u: u32| #[trigger] out@.contains(u) <==> exists|j: int|
                        0 <= j < k + 1 && (#[trigger] toks@[j]) == Some(u) by {
                        if exists|j: int| 0 <= j < k + 1 && (#[trigger] toks@[j]) == Some(u) {
                            let j = choose|j: int|
                                0 <= j < k + 1 && (#[trigger] toks@[j]) == Some(u);
                            assert(j < k);
                        }
                    }
                }
            },
        }
        k = k + 1;
    }
    out
}

/// Whether `iv` is the shared part of one of the first `bound` overlaps,
/// one under the token `t`.
pub open spec fn interval_from(
    toks: Seq<Option<u32>>,
    raw: Seq<Overlap>,
    blocks: Seq<(u32, u32)>,
    t: u32,
    bound: int,
    iv: Range<u32>,
) -> bool {
    exists|j: int|
        0 <= j < bound && (#[trigger] toks[j]) == Some(t) && raw_interval(raw, blocks, j) == iv
}

/// The shared parts of the overlaps under the token `t`.
pub fn token_intervals(
    toks: &Vec<Option<u32>>,
    raw: &Vec<Overlap>,
    blocks: &Vec<(u32, u32)>,
    t: u32,
) -> (out: Vec<Range<u32>>)
    requires
        toks@.len() == raw@.len(),
        forall|k: int| 0 <= k < raw@.len() ==> (#[trigger] raw@[k]).block < blocks@.len(),
    ensures
        covered_points(out@) == token_points(toks@, raw@, blocks@, t),
{
    let mut out: Vec<Range<u32>> = Vec::new();
    let mut k: usize = 0;
    while k < toks.len()
        invariant
            0 <= k <= toks.len(),
            toks@.len() == raw@.len(),
            forall|j: int| 0 <= j < raw@.len() ==> (#[trigger] raw@[j]).block < blocks@.len(),
            forall|i: int|
                0 <= i < out@.len() ==> interval_from(
                    toks@,
                    raw@,
                    blocks@,
                    t,
                    k as int,
                    #[trigger] out@[i],
                ),
            forall|j: int|
                0 <= j < k && (#[trigger] toks@[j]) == Some(t) ==> out@.contains(
                    raw_interval(raw@, blocks@, j),
                ),
        decreases toks.len() - k,
    {
        let ghost before = out@;
        let is_t = match toks[k] {
            Some(u) => u == t,
            None => false,
        };
        if is_t {
            let b = blocks[raw[k].block];
            let r = raw[k].region;
            let start: u32 = if r.start > b.0 {
                r.start
            } else {
                b.0
            };
            let end: u32 = if r.end < b.1 {
                r.end
            } else {
                b.1
            };
            out.push(Range { start, end });
            proof {
                assert(out@[before.len() as int] == raw_interval(raw@, blocks@, k as int));
                assert forall|i: int| 0 <= i < out@.len() implies interval_from(
                    toks@,
                    raw@,
                    blocks@,
                    t,
                    k + 1,
                    #[trigger] out@[i],
                ) by {
                    if i < before.len() {
                        assert(out@[i] == before[i]);
                        assert(interval_from(toks@, raw@, blocks@, t, k as int, before[i]));
                        let j = choose|j: int|
                            0 <= j < k && (#[trigger] toks@[j]) == Some(t) && raw_interval(
                                raw@,
                                blocks@,
                                j,
                            ) == before[i];
                        assert(toks@[j] == Some(t));
                    } else {
                        assert(toks@[k as int] == Some(t));
                    }
                }
                assert forall|j: int|
                    0 <= j < k + 1 && (#[trigger] toks@[j]) == Some(t) implies out@.contains(
                    raw_interval(raw@, blocks@, j),
                ) by {
                    if j < k {
                        assert(before.contains(raw_interval(raw@, blocks@, j)));
                        let i = choose|i: int|
                            0 <= i < before.len() && before[i] == raw_interval(raw@, blocks@, j);
                        assert(out@[i] == before[i]);
                    }
                }
            }
        }
        k = k + 1;
    }
    proof {
        let tp = token_points(toks@, raw@, blocks@, t);
        assert forall|p: int| covered(out@, p) <==> tp.contains(p) by {
            if covered(out@, p) {
                let i = choose|i: int|
                    0 <= i < out@.len() && (#[trigger] out@[i]).start <= p < out@[i].end;
                assert(interval_from(toks@, raw@, blocks@, t, k as int, out@[i]));
                let j = choose|j: int|
                    0 <= j < k && (#[trigger] toks@[j]) == Some(t) && raw_interval(
                        raw@,
                        blocks@,
                        j,
                    ) == out@[i];
                assert(toks@[j] == Some(t));
            }
            if tp.contains(p) {
                let j = choose|j: int|
                    0 <= j < toks@.len() && (#[trigger] toks@[j]) == Some(t) && raw_interval(
                        raw@,
                        blocks@,
                        j,
                    ).start <= p < raw_interval(raw@, blocks@, j).end;
                assert(out@.contains(raw_interval(raw@, blocks@, j)));
                let i = choose|i: int|
                    0 <= i < out@.len() && out@[i] == raw_interval(raw@, blocks@, j);
                assert(out@[i].start <= p < out@[i].end);
            }
        }
        assert(covered_points(out@) =~= tp);
    }
    out
}

/// The tokens that the strategy reports for one bucket: those that the
/// overlap rule keeps, each once; none at all if several are kept and the
/// strategy drops reads that hit several regions.
pub fn select_tokens(
    toks: &Vec<Option<u32>>,
    raw: &Vec<Overlap>,
    blocks: &Vec<(u32, u32)>,
    strategy: &Strategy,
    bases_aligned: usize,
) -> (out: Vec<u32>)
    requires
        toks@.len() == raw@.len(),
        forall|k: int| 0 <= k < raw@.len() ==> (#[trigger] raw@[k]).block < blocks@.len(),
    ensures
        out@.no_duplicates(),
        forall|t: u32|
            out@.contains(t) <==> (#[trigger] token_selected(
                strategy.overlap,
                toks@,
                raw@,
                blocks@,
                bases_aligned as int,
                t,
            ) && !(strategy.multi_region is Drop && several_selected(
                strategy.overlap,
                toks@,
                raw@,
                blocks@,
                bases_aligned as int,
            ))),
{
    let distinct = distinct_tokens(toks);
    let ghost mode = strategy.overlap;
    let ghost ba = bases_aligned as int;
    let mut kept: Vec<u32> = Vec::new();
    match strategy.overlap {
        OverlapMode::Union => {
            kept = distinct;
        },
        _ => {
            let mut full: Vec<bool> = Vec::new();
            let mut any_full = false;
            let mut i: usize = 0;
            while i < distinct.len()
                invariant
                    0 <= i <= distinct.len(),
                    full@.len() == i,
                    toks@.len() == raw@.len(),
                    forall|k: int| 0 <= k < raw@.len() ==> (#[trigger] raw@[k]).block < blocks@.len(),
                    forall|j: int|
                        0 <= j < i ==> (#[trigger] full@[j]) == token_full(
                            toks@,
                            raw@,
                            blocks@,
                            bases_aligned as int,
                            distinct@[j],
                        ),
                    any_full <==> exists|j: int| 0 <= j < i && #[trigger] full@[j],
                decreases distinct.len() - i,
            {
                let mut ivs = token_intervals(toks, raw, blocks, distinct[i]);
                let ghost before = ivs@;
                let len = merged_interval_length(ivs.as_mut_slice());
                let f = len == bases_aligned;
                let ghost full_before = full@;
                full.push(f);
                proof {
                    assert(covered_points(before) == token_points(toks@, raw@, blocks@, distinct@[i as int]));
                    if any_full {
                        let j = choose|j: int| 0 <= j < i && #[trigger] full_before[j];
                        assert(full@[j]);
                    }
                    if f {
                        assert(full@[i as int]);
                    }
                    if exists|j: int| 0 <= j < i + 1 && #[trigger] full@[j] {
                        let j = choose|j: int| 0 <= j < i + 1 && #[trigger] full@[j];
                        if j < i {
                            assert(full_before[j]);
                        }
                    }
                }
                any_full = any_full || f;
                i = i + 1;
            }
            let strict = any_full || match strategy.overlap {
                OverlapMode::IntersectionStrict => true,
                _ => false,
            };
            proof {
                let some_full = exists|u: u32|
                    token_used(toks@, u as int) && #[trigger] token_full(toks@, raw@, blocks@, ba, u);
                if any_full {
                    let j = choose|j: int| 0 <= j < distinct@.len() && #[trigger] full@[j];
                    assert(distinct@.contains(distinct@[j]));
                    assert(token_used(toks@, distinct@[j] as int));
                    assert(token_full(toks@, raw@, blocks@, ba, distinct@[j]));
                }
                if some_full {
                    let u = choose|u: u32|
                        token_used(toks@, u as int) && #[trigger] token_full(toks@, raw@, blocks@, ba, u);
                    assert(distinct@.contains(u));
                    let j = choose|j: int| 0 <= j < distinct@.len() && distinct@[j] == u;
                    assert(full@[j]);
                }
                assert(any_full == some_full);
            }
            let mut j: usize = 0;
            while j < distinct.len()
                invariant
                    0 <= j <= distinct.len(),
                    full@.len() == distinct@.len(),
                    distinct@.no_duplicates(),
                    kept@.no_duplicates(),
                    forall|t: u32|
                        #[trigger] kept@.contains(t) <==> exists|c: int|
                            0 <= c < j && (#[trigger] distinct@[c]) == t && (!strict || full@[c]),
                decreases distinct.len() - j,
            {
                let ghost before = kept@;
                if !strict || full[j] {
                    kept.push(distinct[j]);
                    proof {
                        assert forall|t: u32| #[trigger] kept@.contains(t) <==> exists|c: int|
                            0 <= c < j + 1 && (#[trigger] distinct@[c]) == t && (!strict
                                || full@[c]) by {
                            if kept@.contains(t) {
                                let i = choose|i: int| 0 <= i < kept@.len() && kept@[i] == t;
                                if i < before.len() {
                                    assert(before[i] == t);
                                    assert(before.contains(t));
                                } else {
                                    assert(distinct@[j as int] == t);
                                }
                            }
                            if exists|c: int|
                                0 <= c < j + 1 && (#[trigger] distinct@[c]) == t && (!strict
                                    || full@[c]) {
                                let c = choose|c: int|
                                    0 <= c < j + 1 && (#[trigger] distinct@[c]) == t && (!strict
                                        || full@[c]);
                                if c < j {
                                    assert(before.contains(t));
                                    let i = choose|i: int| 0 <= i < before.len() && before[i] == t;
                                    assert(kept@[i] == t);
                                } else {
                                    assert(kept@[before.len() as int] == t);
                                }
                            }
                        }
                        assert(kept@.no_duplicates()) by {
                            assert forall|a: int, b: int|
                                0 <= a < kept@.len() && 0 <= b < kept@.len() && a != b implies kept@[a]
                                != kept@[b] by {
                                if a == before.len() {
                                    assert(before[b] == kept@[b]);
                                    assert(before.contains(kept@[b]));
                                } else if b == before.len() {
                                    assert(before[a] == kept@[a]);
                                    assert(before.contains(kept@[a]));
                                } else {
                                    assert(before[a] == kept@[a]);
                                    assert(before[b] == kept@[b]);
                                }
                            }
                        }
                    }
                } else {
                    proof {
                        assert forall|t: u32| #[trigger] kept@.contains(t) <==> exists|c: int|
                            0 <= c < j + 1 && (#[trigger] distinct@[c]) == t && (!strict
                                || full@[c]) by {
                            if exists|c: int|
                                0 <= c < j + 1 && (#[trigger] distinct@[c]) == t && (!strict
                                    || full@[c]) {
                                let c = choose|c: int|
                                    0 <= c < j + 1 && (#[trigger] distinct@[c]) == t && (!strict
                                        || full@[c]);
                                assert(c < j);
                            }
                        }
                    }
                }
                j = j + 1;
            }
            proof {
                assert forall|t: u32| kept@.contains(t) <==> #[trigger] token_selected(
                    mode,
                    toks@,
                    raw@,
                    blocks@,
                    ba,
                    t,
                ) by {
                    if kept@.contains(t) {
                        let c = choose|c: int|
                            0 <= c < distinct@.len() && (#[trigger] distinct@[c]) == t && (!strict
                                || full@[c]);
                        assert(distinct@.contains(t));
                    }
                    if token_selected(mode, toks@, raw@, blocks@, ba, t) {
                        assert(distinct@.contains(t));
                        let c = choose|c: int| 0 <= c < distinct@.len() && distinct@[c] == t;
                        assert(full@[c] == token_full(toks@, raw@, blocks@, ba, t));
                        assert(distinct@[c] == t && (!strict || full@[c]));
                    }
                }
            }
        },
    }
    proof {
        assert forall|t: u32| kept@.contains(t) <==> #[trigger] token_selected(
            mode,
            toks@,
            raw@,
            blocks@,
            ba,
            t,
        ) by {}
        let several = several_selected(mode, toks@, raw@, blocks@, ba);
        if kept@.len() > 1 {
            assert(kept@.contains(kept@[0]));
            assert(kept@.contains(kept@[1]));
            assert(token_selected(mode, toks@, raw@, blocks@, ba, kept@[0]));
            assert(token_selected(mode, toks@, raw@, blocks@, ba, kept@[1]));
            assert(several);
        }
        if several {
            let (t, u) = choose|t: u32, u: u32|
                t != u && #[trigger] token_selected(mode, toks@, raw@, blocks@, ba, t)
                    && #[trigger] token_selected(mode, toks@, raw@, blocks@, ba, u);
            assert(kept@.contains(t));
            assert(kept@.contains(u));
            let a = choose|a: int| 0 <= a < kept@.len() && kept@[a] == t;
            let b = choose|b: int| 0 <= b < kept@.len() && kept@[b] == u;
            assert(a != b);
        }
        assert(several == (kept@.len() > 1));
    }
    match strategy.multi_region {
        MultiRegionHandling::Drop => {
            if kept.len() > 1 {
                kept.clear();
            }
        },
        MultiRegionHandling::CountBoth => {},
    }
    kept
}

/// One bucket of one read on one reference: what decides which identifiers
/// the read is credited to.
pub struct BucketQuery {
    pub regions: Multiset<Region>,
    pub gene_ids: Seq<String>,
    pub blocks: Seq<(u32, u32)>,
    pub chunk_start: u32,
    pub chunk_stop: u32,
    pub direction: MatchDirection,
    pub read_reverse: bool,
    pub correct: bool,
}

impl BucketQuery {
    /// Block `b` is not outside the chunk and overlaps the stored region
    /// `r`, which falls into this bucket and carries the identifier `id`.
    pub open spec fn hit_by(&self, b: int, r: Region, id: Seq<char>) -> bool {
        is_overlap(self.regions, self.blocks, self.chunk_start, self.chunk_stop, b, r)
            && counts_as_correct(self.direction, self.read_reverse, r.strand) == self.correct
            && r.id_no < self.gene_ids.len() && self.gene_ids[r.id_no as int]@ == id
    }

    /// Some block of the read overlaps a region with the identifier `id`.
    pub open spec fn id_hit(&self, id: Seq<char>) -> bool {
        exists|b: int, r: Region| #[trigger] self.hit_by(b, r, id)
    }

    /// The aligned points of the read that lie in regions with the identifier `id`.
    pub open spec fn id_points(&self, id: Seq<char>) -> Set<int> {
        Set::new(
            |p: int|
                exists|b: int, r: Region| #[trigger]
                    self.hit_by(b, r, id) && r.start <= p < r.end && self.blocks[b].0 <= p
                        < self.blocks[b].1,
        )
    }

    /// Every aligned base of the read lies in a region with the identifier `id`.
    pub open spec fn id_full(&self, bases_aligned: int, id: Seq<char>) -> bool {
        self.id_points(id).finite() && self.id_points(id).len() == bases_aligned
    }

    /// Whether the overlap rule keeps the identifier: under `Union` every hit
    /// is kept; under `IntersectionStrict` only identifiers that hold the
    /// whole read; under `IntersectionNonEmpty` those, or every hit if no
    /// identifier holds the whole read.
    pub open spec fn id_selected(&self, mode: OverlapMode, bases_aligned: int, id: Seq<char>) -> bool {
        self.id_hit(id) && match mode {
            OverlapMode::Union => true,
            OverlapMode::IntersectionStrict => self.id_full(bases_aligned, id),
            OverlapMode::IntersectionNonEmpty => self.id_full(bases_aligned, id) || !(exists|
                other: Seq<char>,
            |
                self.id_hit(other) && #[trigger] self.id_full(bases_aligned, other)),
        }
    }

    /// Whether the overlap rule keeps more than one identifier.
    pub open spec fn several_selected(&self, mode: OverlapMode, bases_aligned: int) -> bool {
        exists|a: Seq<char>, b: Seq<char>|
            a != b && #[trigger] self.id_selected(mode, bases_aligned, a)
                && #[trigger] self.id_selected(mode, bases_aligned, b)
    }

    /// The identifiers that the bucket reports under the strategy: those
    /// that the overlap rule keeps, or none if it keeps several and reads
    /// that hit several regions are dropped.
    pub open spec fn reported(&self, strategy: Strategy, bases_aligned: int) -> Set<Seq<char>> {
        Set::new(
            |id: Seq<char>|
                self.id_selected(strategy.overlap, bases_aligned, id) && !(strategy.multi_region is Drop
                    && self.several_selected(strategy.overlap, bases_aligned)),
        )
    }
}

/// The strings that a list of tokens stands for.
pub open spec fn resolved(tokens: Seq<u32>, strings: Seq<Seq<char>>) -> Set<Seq<char>> {
    Set::new(
        |id: Seq<char>|
            exists|i: int|
                0 <= i < tokens.len() && (#[trigger] tokens[i]) < strings.len()
                    && strings[tokens[i] as int] == id,
    )
}

/// The sum of the lengths of the first `n` blocks.
pub open spec fn spec_bases_aligned(blocks: Seq<(u32, u32)>, n: int) -> int
    decreases n,
{
    if n <= 0 {
        0
    } else {
        spec_bases_aligned(blocks, n - 1) + (blocks[n - 1].1 - blocks[n - 1].0)
    }
}

proof fn lemma_tokens_and_ids(
    q: BucketQuery,
    raw: Seq<Overlap>,
    toks: Seq<Option<u32>>,
    strings: Seq<Seq<char>>,
)
    requires
        forall|k: int|
            0 <= k < raw.len() ==> is_overlap(
                q.regions,
                q.blocks,
                q.chunk_start,
                q.chunk_stop,
                (#[trigger] raw[k]).block as int,
                raw[k].region,
            ),
        forall|b: int, r: Region|
            is_overlap(q.regions, q.blocks, q.chunk_start, q.chunk_stop, b, r) ==> raw.contains(
                Overlap { block: b as usize, region: r },
            ),
        forall|r: Region| #[trigger] q.regions.count(r) > 0 ==> r.id_no < q.gene_ids.len(),
        tokens_match(toks, raw, q.gene_ids, strings, q.direction, q.read_reverse, q.correct),
        strings.no_duplicates(),
        q.blocks.len() <= usize::MAX,
    ensures
        forall|t: u32| #[trigger]
            token_used(toks, t as int) ==> t < strings.len() && q.id_hit(strings[t as int]),
        forall|id: Seq<char>| #[trigger]
            q.id_hit(id) ==> strings.contains(id) && token_used(toks, strings.index_of(id)),
        forall|t: u32|
            t < strings.len() ==> #[trigger] token_points(toks, raw, q.blocks, t) == q.id_points(
                strings[t as int],
            ),
{
    assert forall|t: u32| #[trigger] token_used(toks, t as int) implies t < strings.len()
        && q.id_hit(strings[t as int]) by {
        let k = choose|k: int| 0 <= k < toks.len() && (#[trigger] toks[k]) == Some(t);
        assert(q.hit_by(raw[k].block as int, raw[k].region, strings[t as int]));
    }
    assert forall|id: Seq<char>| #[trigger] q.id_hit(id) implies strings.contains(id)
        && token_used(toks, strings.index_of(id)) by {
        let (b, r) = choose|b: int, r: Region| #[trigger] q.hit_by(b, r, id);
        let needle = Overlap { block: b as usize, region: r };
        assert(raw.contains(needle));
        let k = choose|k: int| 0 <= k < raw.len() && raw[k] == needle;
        assert(toks[k].is_some());
        let t = toks[k].unwrap();
        assert(strings[t as int] == id);
        assert(strings.contains(id));
        let i = strings.index_of(id);
        assert(strings[i] == id);
        assert(i == t);
        assert(toks[k] == Some(i as u32));
    }
    assert forall|t: u32| t < strings.len() implies #[trigger] token_points(toks, raw, q.blocks, t)
        == q.id_points(strings[t as int]) by {
        let id = strings[t as int];
        let tp = token_points(toks, raw, q.blocks, t);
        let ip = q.id_points(id);
        assert forall|p: int| tp.contains(p) <==> ip.contains(p) by {
            if tp.contains(p) {
                let k = choose|k: int|
                    0 <= k < toks.len() && (#[trigger] toks[k]) == Some(t) && raw_interval(
                        raw,
                        q.blocks,
                        k,
                    ).start <= p < raw_interval(raw, q.blocks, k).end;
                let b = raw[k].block as int;
                let r = raw[k].region;
                assert(q.hit_by(b, r, id) && r.start <= p < r.end && q.blocks[b].0 <= p
                    < q.blocks[b].1);
            }
            if ip.contains(p) {
                let (b, r) = choose|b: int, r: Region| #[trigger]
                    q.hit_by(b, r, id) && r.start <= p < r.end && q.blocks[b].0 <= p
                        < q.blocks[b].1;
                let needle = Overlap { block: b as usize, region: r };
                assert(raw.contains(needle));
                let k = choose|k: int| 0 <= k < raw.len() && raw[k] == needle;
                assert(toks[k].is_some());
                let u = toks[k].unwrap();
                assert(strings[u as int] == id);
                assert(u == t);
                assert(toks[k] == Some(t));
                assert(raw_interval(raw, q.blocks, k).start <= p < raw_interval(
                    raw,
                    q.blocks,
                    k,
                ).end);
            }
        }
        assert(tp =~= ip);
    }
}

proof fn lemma_selection(
    q: BucketQuery,
    raw: Seq<Overlap>,
    toks: Seq<Option<u32>>,
    strings: Seq<Seq<char>>,
    mode: OverlapMode,
    ba: int,
)
    requires
        forall|t: u32| #[trigger]
            token_used(toks, t as int) ==> t < strings.len() && q.id_hit(strings[t as int]),
        forall|id: Seq<char>| #[trigger]
            q.id_hit(id) ==> strings.contains(id) && token_used(toks, strings.index_of(id)),
        forall|t: u32|
            t < strings.len() ==> #[trigger] token_points(toks, raw, q.blocks, t) == q.id_points(
                strings[t as int],
            ),
        strings.no_duplicates(),
        strings.len() <= u32::MAX,
    ensures
        forall|t: u32| #[trigger]
            token_selected(mode, toks, raw, q.blocks, ba, t) ==> t < strings.len()
                && q.id_selected(mode, ba, strings[t as int]),
        forall|id: Seq<char>| #[trigger]
            q.id_selected(mode, ba, id) ==> strings.contains(id) && token_selected(
                mode,
                toks,
                raw,
                q.blocks,
                ba,
                strings.index_of(id) as u32,
            ),
        several_selected(mode, toks, raw, q.blocks, ba) <==> q.several_selected(mode, ba),
{
    let any_tok = exists|u: u32|
        token_used(toks, u as int) && #[trigger] token_full(toks, raw, q.blocks, ba, u);
    let any_id = exists|other: Seq<char>| q.id_hit(other) && #[trigger] q.id_full(ba, other);
    if any_tok {
        let u = choose|u: u32|
            token_used(toks, u as int) && #[trigger] token_full(toks, raw, q.blocks, ba, u);
        assert(token_points(toks, raw, q.blocks, u) == q.id_points(strings[u as int]));
        assert(q.id_hit(strings[u as int]) && q.id_full(ba, strings[u as int]));
    }
    if any_id {
        let other = choose|other: Seq<char>| q.id_hit(other) && #[trigger] q.id_full(ba, other);
        let u = strings.index_of(other) as u32;
        assert(strings[u as int] == other);
        assert(token_points(toks, raw, q.blocks, u) == q.id_points(strings[u as int]));
        assert(token_used(toks, u as int) && token_full(toks, raw, q.blocks, ba, u));
    }
    assert(any_tok == any_id);
    assert forall|t: u32| #[trigger]
        token_selected(mode, toks, raw, q.blocks, ba, t) implies t < strings.len()
        && q.id_selected(mode, ba, strings[t as int]) by {
        assert(token_used(toks, t as int));
        assert(token_points(toks, raw, q.blocks, t) == q.id_points(strings[t as int]));
    }
    assert forall|id: Seq<char>| #[trigger] q.id_selected(mode, ba, id) implies strings.contains(id)
        && token_selected(mode, toks, raw, q.blocks, ba, strings.index_of(id) as u32) by {
        assert(q.id_hit(id));
        let u = strings.index_of(id) as u32;
        assert(strings[u as int] == id);
        assert(token_points(toks, raw, q.blocks, u) == q.id_points(strings[u as int]));
    }
    if several_selected(mode, toks, raw, q.blocks, ba) {
        let (t, u) = choose|t: u32, u: u32|
            t != u && #[trigger] token_selected(mode, toks, raw, q.blocks, ba, t)
                && #[trigger] token_selected(mode, toks, raw, q.blocks, ba, u);
        assert(strings[t as int] != strings[u as int]);
        assert(q.id_selected(mode, ba, strings[t as int]));
        assert(q.id_selected(mode, ba, strings[u as int]));
    }
    if q.several_selected(mode, ba) {
        let (a, b) = choose|a: Seq<char>, b: Seq<char>|
            a != b && #[trigger] q.id_selected(mode, ba, a) && #[trigger] q.id_selected(mode, ba, b);
        let t = strings.index_of(a) as u32;
        let u = strings.index_of(b) as u32;
        assert(strings[t as int] == a);
        assert(strings[u as int] == b);
        assert(token_selected(mode, toks, raw, q.blocks, ba, t));
        assert(token_selected(mode, toks, raw, q.blocks, ba, u));
    }
}

/// The tokens of one bucket of a read: the identifiers that the strategy
/// reports for it, interned.
pub fn bucket_hits(
    tree: &ReferenceTree,
    chunk: &Chunk,
    blocks: &Vec<(u32, u32)>,
    raw: &Vec<Overlap>,
    strategy: &Strategy,
    read_reverse: bool,
    correct: bool,
    bases_aligned: usize,
    interner: &mut OurInterner,
) -> (out: Vec<u32>)
    requires
        tree.wf(),
        old(interner).wf(),
        old(interner).strings().len() + raw@.len() < u32::MAX,
        forall|k: int|
            0 <= k < raw@.len() ==> is_overlap(
                tree.regions(),
                blocks@,
                chunk.start,
                chunk.stop,
                (#[trigger] raw@[k]).block as int,
                raw@[k].region,
            ),
        forall|b: int, r: Region|
            is_overlap(tree.regions(), blocks@, chunk.start, chunk.stop, b, r) ==> raw@.contains(
                Overlap { block: b as usize, region: r },
            ),
    ensures
        final(interner).wf(),
        old(interner).strings().is_prefix_of(final(interner).strings()),
        final(interner).strings().len() <= old(interner).strings().len() + raw@.len(),
        out@.no_duplicates(),
        forall|i: int| 0 <= i < out@.len() ==> (#[trigger] out@[i]) < final(interner).strings().len(),
        resolved(out@, final(interner).strings()) == (BucketQuery {
            regions: tree.regions(),
            gene_ids: tree.gene_ids@,
            blocks: blocks@,
            chunk_start: chunk.start,
            chunk_stop: chunk.stop,
            direction: strategy.direction,
            read_reverse,
            correct,
        }).reported(*strategy, bases_aligned as int),
{
    let toks = intern_bucket(raw, &tree.gene_ids, strategy.direction, read_reverse, correct, interner);
    let out = select_tokens(&toks, raw, blocks, strategy, bases_aligned);
    let block_count = blocks.len();
    proof {
        assert(blocks@.len() == block_count);
        let q = BucketQuery {
            regions: tree.regions(),
            gene_ids: tree.gene_ids@,
            blocks: blocks@,
            chunk_start: chunk.start,
            chunk_stop: chunk.stop,
            direction: strategy.direction,
            read_reverse,
            correct,
        };
        let strings = interner.strings();
        let mode = strategy.overlap;
        let ba = bases_aligned as int;
        lemma_tokens_and_ids(q, raw@, toks@, strings);
        lemma_selection(q, raw@, toks@, strings, mode, ba);
        let res = resolved(out@, strings);
        let rep = q.reported(*strategy, ba);
        assert forall|i: int| 0 <= i < out@.len() implies (#[trigger] out@[i]) < strings.len() by {
            assert(out@.contains(out@[i]));
            assert(token_selected(mode, toks@, raw@, blocks@, ba, out@[i]));
        }
        assert forall|id: Seq<char>| res.contains(id) <==> rep.contains(id) by {
            if res.contains(id) {
                let i = choose|i: int|
                    0 <= i < out@.len() && (#[trigger] out@[i]) < strings.len()
                        && strings[out@[i] as int] == id;
                assert(out@.contains(out@[i]));
                assert(token_selected(mode, toks@, raw@, blocks@, ba, out@[i]));
            }
            if rep.contains(id) {
                let t = strings.index_of(id) as u32;
                assert(strings[t as int] == id);
                assert(token_selected(mode, toks@, raw@, blocks@, ba, t));
                assert(out@.contains(t));
                let i = choose|i: int| 0 <= i < out@.len() && out@[i] == t;
                assert(out@[i] < strings.len() && strings[out@[i] as int] == id);
            }
        }
        assert(res =~= rep);
    }
    out
}

/// The sum of block lengths does not depend on what follows the blocks summed.
proof fn lemma_bases_aligned_prefix(a: Seq<(u32, u32)>, b: Seq<(u32, u32)>, n: int)
    requires
        0 <= n <= a.len(),
        n <= b.len(),
        forall|i: int| 0 <= i < n ==> a[i] == b[i],
    ensures
        spec_bases_aligned(a, n) == spec_bases_aligned(b, n),
    decreases n,
{
    if n > 0 {
        lemma_bases_aligned_prefix(a, b, n - 1);
    }
}

/// The aligned bases of a read are at most its span on the reference.
pub proof fn lemma_bases_aligned_bound(pos: int, cigar: Seq<Cigar>, k: int)
    requires
        0 <= pos,
        0 <= k <= cigar.len(),
        spec_ref_pos(pos, cigar, cigar.len() as int) <= u32::MAX,
    ensures
        0 <= spec_bases_aligned(
            spec_blocks(pos, cigar, k),
            spec_blocks(pos, cigar, k).len() as int,
        ) <= spec_ref_pos(pos, cigar, k) - pos,
    decreases k,
{
    if k > 0 {
        lemma_bases_aligned_bound(pos, cigar, k - 1);
        lemma_ref_pos_monotonic(pos, cigar, k - 1, k - 1);
        lemma_ref_pos_monotonic(pos, cigar, k, cigar.len() as int);
        let before = spec_blocks(pos, cigar, k - 1);
        let now = spec_blocks(pos, cigar, k);
        if spec_is_aligned(cigar[k - 1]) {
            lemma_bases_aligned_prefix(before, now, before.len() as int);
        }
    }
}

/// Sums of block lengths grow with the number of blocks summed.
proof fn lemma_bases_aligned_monotonic(blocks: Seq<(u32, u32)>, i: int, n: int)
    requires
        0 <= i <= n <= blocks.len(),
        forall|b: int| 0 <= b < blocks.len() ==> (#[trigger] blocks[b]).0 <= blocks[b].1,
    ensures
        0 <= spec_bases_aligned(blocks, i) <= spec_bases_aligned(blocks, n),
    decreases n,
{
    if i < n {
        lemma_bases_aligned_monotonic(blocks, i, n - 1);
    } else if n > 0 {
        lemma_bases_aligned_monotonic(blocks, i - 1, n - 1);
    }
}

/// The number of aligned bases: the sum of the lengths of all blocks.
pub fn bases_aligned(blocks: &Vec<(u32, u32)>) -> (total: u64)
    requires
        forall|b: int| 0 <= b < blocks@.len() ==> (#[trigger] blocks@[b]).0 <= blocks@[b].1,
        spec_bases_aligned(blocks@, blocks@.len() as int) <= u32::MAX,
    ensures
        total == spec_bases_aligned(blocks@, blocks@.len() as int),
{
    let mut total: u64 = 0;
    let mut i: usize = 0;
    while i < blocks.len()
        invariant
            0 <= i <= blocks.len(),
            total == spec_bases_aligned(blocks@, i as int),
            spec_bases_aligned(blocks@, blocks@.len() as int) <= u32::MAX,
            forall|b: int| 0 <= b < blocks@.len() ==> (#[trigger] blocks@[b]).0 <= blocks@[b].1,
        decreases blocks.len() - i,
    {
        let iv = blocks[i];
        proof {
            lemma_bases_aligned_monotonic(blocks@, i as int, blocks@.len() as int);
        }
        total = total + (iv.1 - iv.0) as u64;
        i = i + 1;
    }
    total
}

/// Why a read could not be matched to regions.
#[derive(Debug, Clone, Copy, PartialEq, Eq, Structural)]
pub enum MatchError {
    /// The chunk's reference has no region index.
    UnknownReference,
    /// The interner might run out of tokens on this read.
    InternerFull,
}

/// Matches reads to the regions of an annotation, held in one interval tree
/// per reference.
pub struct TreeMatcher {
    pub reference_to_count_trees: Vec<ReferenceTree>,
    pub reference_to_aggregation_trees: Vec<ReferenceTree>,
    pub count_strategy: Strategy,
}

impl TreeMatcher {
    /// Every region index is well formed.
    pub open spec fn wf(&self) -> bool {
        &&& forall|i: int|
            0 <= i < self.reference_to_count_trees@.len()
                ==> (#[trigger] self.reference_to_count_trees@[i]).wf()
        &&& forall|i: int|
            0 <= i < self.reference_to_aggregation_trees@.len()
                ==> (#[trigger] self.reference_to_aggregation_trees@[i]).wf()
    }

    /// What decides one bucket of `read` within `chunk` on the index `tree`.
    pub open spec fn query(&self, tree: ReferenceTree, chunk: &Chunk, read: &Record, correct: bool) -> BucketQuery {
        BucketQuery {
            regions: tree.regions(),
            gene_ids: tree.gene_ids@,
            blocks: spec_blocks(read.pos as int, read.cigar@, read.cigar@.len() as int),
            chunk_start: chunk.start,
            chunk_stop: chunk.stop,
            direction: self.count_strategy.direction,
            read_reverse: read.reverse,
            correct,
        }
    }

    /// What `hits` returns and does to the interner, whose strings were
    /// `before` and are `after`.
    pub open spec fn spec_hits(
        &self,
        chunk: &Chunk,
        read: &Record,
        before: Seq<Seq<char>>,
        after: Seq<Seq<char>>,
        r: Result<(Vec<u32>, Vec<u32>), MatchError>,
    ) -> bool {
        let at = spec_tree_position(self.reference_to_count_trees@, chunk.chr@);
        let blocks = spec_blocks(read.pos as int, read.cigar@, read.cigar@.len() as int);
        &&& before.is_prefix_of(after)
        &&& r is Err ==> after == before
        &&& r == Err::<(Vec<u32>, Vec<u32>), MatchError>(MatchError::UnknownReference) <==> at
            >= self.reference_to_count_trees@.len()
        &&& r == Err::<(Vec<u32>, Vec<u32>), MatchError>(MatchError::InternerFull) <==> (at
            < self.reference_to_count_trees@.len() && before.len() + 2 * overlap_count(
            self.reference_to_count_trees@[at].regions(),
            blocks,
            chunk.start,
            chunk.stop,
            blocks.len() as int,
        ) >= u32::MAX)
        &&& match r {
            Ok((correct, reverse)) => {
                let tree = self.reference_to_count_trees@[at];
                let bases = spec_bases_aligned(blocks, blocks.len() as int);
                &&& correct@.no_duplicates()
                &&& reverse@.no_duplicates()
                &&& forall|i: int| 0 <= i < correct@.len() ==> (#[trigger] correct@[i]) < after.len()
                &&& forall|i: int| 0 <= i < reverse@.len() ==> (#[trigger] reverse@[i]) < after.len()
                &&& resolved(correct@, after) == self.query(tree, chunk, read, true).reported(
                    self.count_strategy,
                    bases,
                )
                &&& resolved(reverse@, after) == self.query(tree, chunk, read, false).reported(
                    self.count_strategy,
                    bases,
                )
            },
            Err(_) => true,
        }
    }

    /// The tokens of the identifiers that `read` is credited to within
    /// `chunk`: first those whose strand agrees with the read, then those
    /// whose strand does not. A block that lies outside the chunk is not
    /// looked up. The read is refused where the interner has fewer free
    /// tokens than twice the number of overlaps found.
    pub fn hits(&self, chunk: &Chunk, read: &Record, interner: &mut OurInterner) -> (r: Result<
        (Vec<u32>, Vec<u32>),
        MatchError,
    >)
        requires
            self.wf(),
            read.spec_fits(),
            old(interner).wf(),
        ensures
            final(interner).wf(),
            self.spec_hits(chunk, read, old(interner).strings(), final(interner).strings(), r),
    {
        let tree = match find_tree(&self.reference_to_count_trees, &chunk.chr) {
            Some(tree) => tree,
            None => {
                return Err(MatchError::UnknownReference);
            },
        };
        let blocks = read.blocks();
        proof {
            lemma_blocks_within(read.pos as int, read.cigar@, read.cigar@.len() as int);
            lemma_bases_aligned_bound(read.pos as int, read.cigar@, read.cigar@.len() as int);
        }
        let raw = collect_overlaps(tree, chunk, &blocks);
        let held = interner.len();
        if raw.len() >= u32::MAX as usize || held >= u32::MAX as usize || 2 * (raw.len() as u64)
            + held as u64 >= u32::MAX as u64 {
            return Err(MatchError::InternerFull);
        }
        let bases = bases_aligned(&blocks) as usize;
        let correct = bucket_hits(
            tree,
            chunk,
            &blocks,
            &raw,
            &self.count_strategy,
            read.reverse,
            true,
            bases,
            interner,
        );
        let ghost mid = interner.strings();
        let reverse = bucket_hits(
            tree,
            chunk,
            &blocks,
            &raw,
            &self.count_strategy,
            read.reverse,
            false,
            bases,
            interner,
        );
        proof {
            let strings = interner.strings();
            assert(mid.is_prefix_of(strings));
            assert(old(interner).strings().is_prefix_of(strings));
            assert forall|i: int| 0 <= i < correct@.len() implies (#[trigger] correct@[i])
                < strings.len() by {}
            let before = resolved(correct@, mid);
            let after = resolved(correct@, strings);
            assert forall|id: Seq<char>| before.contains(id) <==> after.contains(id) by {
                if before.contains(id) {
                    let i = choose|i: int|
                        0 <= i < correct@.len() && (#[trigger] correct@[i]) < mid.len()
                            && mid[correct@[i] as int] == id;
                    assert(strings[correct@[i] as int] == mid[correct@[i] as int]);
                }
                if after.contains(id) {
                    let i = choose|i: int|
                        0 <= i < correct@.len() && (#[trigger] correct@[i]) < strings.len()
                            && strings[correct@[i] as int] == id;
                    assert(correct@[i] < mid.len());
                    assert(strings[correct@[i] as int] == mid[correct@[i] as int]);
                }
            }
            assert(before =~= after);
        }
        Ok((correct, reverse))
    }
}

/// Matches each read to the identifier that one of its tags holds.
pub struct TagMatcher {
    pub tag: [u8; 2],
}

impl TagMatcher {
    /// The identifier that the read's tag names, if the tag is there and
    /// holds a string.
    pub open spec fn spec_tagged(&self, read: &Record) -> Option<Seq<char>> {
        match read.spec_aux(self.tag@) {
            Some(Aux::String(value)) => Some(value@),
            _ => None,
        }
    }

    /// What `hits` returns and does to the interner, whose strings were
    /// `before` and are `after`.
    pub open spec fn spec_hits(
        &self,
        read: &Record,
        before: Seq<Seq<char>>,
        after: Seq<Seq<char>>,
        r: Result<(Vec<u32>, Vec<u32>), MatchError>,
    ) -> bool {
        &&& r is Err <==> self.spec_tagged(read).is_some() && before.len() >= u32::MAX
        &&& r is Err ==> r == Err::<(Vec<u32>, Vec<u32>), MatchError>(MatchError::InternerFull)
            && after == before
        &&& match r {
            Ok((correct, reverse)) => {
                &&& reverse@.len() == 0
                &&& match self.spec_tagged(read) {
                    Some(id) => {
                        &&& after == OurInterner::spec_with(before, id)
                        &&& correct@.len() == 1
                        &&& correct@[0] == after.index_of(id)
                        &&& after.contains(id)
                    },
                    None => correct@.len() == 0 && after == before,
                }
            },
            Err(_) => true,
        }
    }

    /// One token, for the identifier in the read's tag, in the first list;
    /// nothing if the tag is missing or holds no string.
    pub fn hits(&self, chunk: &Chunk, read: &Record, interner: &mut OurInterner) -> (r: Result<
        (Vec<u32>, Vec<u32>),
        MatchError,
    >)
        requires
            old(interner).wf(),
        ensures
            final(interner).wf(),
            self.spec_hits(read, old(interner).strings(), final(interner).strings(), r),
    {
        let mut genes_hit_correct: Vec<u32> = Vec::new();
        let genes_hit_reverse: Vec<u32> = Vec::new();
        match read.aux(&self.tag) {
            Some(Aux::String(value)) => {
                match interner.get_or_intern(value.as_str()) {
                    Ok(token) => {
                        genes_hit_correct.push(token);
                    },
                    Err(_) => {
                        return Err(MatchError::InternerFull);
                    },
                }
            },
            _ => {},
        }
        Ok((genes_hit_correct, genes_hit_reverse))
    }
}

/// Matches each read to the reference that it is aligned to.
pub struct ReferenceMatcher {
    pub tids_to_include: Vec<i32>,
    pub direction: MatchDirection,
}

impl ReferenceMatcher {
    /// Whether a read of the given orientation agrees with the direction:
    /// forward reads under `Forward`, reverse reads under `Reverse`, all
    /// reads under `Ignore`.
    pub open spec fn spec_agrees(&self, read_reverse: bool) -> bool {
        match self.direction {
            MatchDirection::Ignore => true,
            MatchDirection::Forward => !read_reverse,
            MatchDirection::Reverse => read_reverse,
        }
    }

    /// What `hits` returns and does to the interner, whose strings were
    /// `before` and are `after`.
    pub open spec fn spec_hits(
        &self,
        chunk: &Chunk,
        read: &Record,
        before: Seq<Seq<char>>,
        after: Seq<Seq<char>>,
        r: Result<(Vec<u32>, Vec<u32>), MatchError>,
    ) -> bool {
        &&& r is Err <==> before.len() >= u32::MAX
        &&& r is Err ==> r == Err::<(Vec<u32>, Vec<u32>), MatchError>(MatchError::InternerFull)
            && after == before
        &&& match r {
            Ok((correct, reverse)) => {
                let hit = if self.spec_agrees(read.reverse) {
                    correct
                } else {
                    reverse
                };
                let other = if self.spec_agrees(read.reverse) {
                    reverse
                } else {
                    correct
                };
                &&& after == OurInterner::spec_with(before, chunk.chr@)
                &&& after.contains(chunk.chr@)
                &&& hit@.len() == 1
                &&& hit@[0] == after.index_of(chunk.chr@)
                &&& other@.len() == 0
            },
            Err(_) => true,
        }
    }

    /// One token, for the name of the chunk's reference: in the first list if
    /// the read's orientation agrees with the direction, else in the second.
    pub fn hits(&self, chunk: &Chunk, read: &Record, interner: &mut OurInterner) -> (r: Result<
        (Vec<u32>, Vec<u32>),
        MatchError,
    >)
        requires
            old(interner).wf(),
        ensures
            final(interner).wf(),
            self.spec_hits(chunk, read, old(interner).strings(), final(interner).strings(), r),
    {
        let mut genes_hit_correct: Vec<u32> = Vec::new();
        let mut genes_hit_reverse: Vec<u32> = Vec::new();
        let token = match interner.get_or_intern(chunk.chr.as_str()) {
            Ok(token) => token,
            Err(_) => {
                return Err(MatchError::InternerFull);
            },
        };
        let agrees = match (self.direction, read.reverse) {
            (MatchDirection::Ignore, _) => true,
            (MatchDirection::Forward, true) => false,
            (MatchDirection::Forward, false) => true,
            (MatchDirection::Reverse, true) => true,
            (MatchDirection::Reverse, false) => false,
        };
        if agrees {
            genes_hit_correct.push(token);
        } else {
            genes_hit_reverse.push(token);
        }
        Ok((genes_hit_correct, genes_hit_reverse))
    }
}

/// How reads are matched to feature identifiers.
pub enum ReadToGeneMatcher {
    TreeMatcher(TreeMatcher),
    TagMatcher(TagMatcher),
    ReferenceMatcher(ReferenceMatcher),
}

impl ReadToGeneMatcher {
    /// The region indices, where there are any, are well formed.
    pub open spec fn wf(&self) -> bool {
        match self {
            ReadToGeneMatcher::TreeMatcher(m) => m.wf(),
            _ => true,
        }
    }

    /// What `hits` returns and does to the interner, whose strings were
    /// `before` and are `after`: what the matcher at hand says.
    pub open spec fn spec_hits(
        &self,
        chunk: &Chunk,
        read: &Record,
        before: Seq<Seq<char>>,
        after: Seq<Seq<char>>,
        r: Result<(Vec<u32>, Vec<u32>), MatchError>,
    ) -> bool {
        match self {
            ReadToGeneMatcher::TreeMatcher(m) => m.spec_hits(chunk, read, before, after, r),
            ReadToGeneMatcher::TagMatcher(m) => m.spec_hits(read, before, after, r),
            ReadToGeneMatcher::ReferenceMatcher(m) => m.spec_hits(chunk, read, before, after, r),
        }
    }

    /// The tokens of the identifiers that `read` is credited to within
    /// `chunk`, as the matcher at hand finds them.
    pub fn hits(&self, chunk: &Chunk, read: &Record, interner: &mut OurInterner) -> (r: Result<
        (Vec<u32>, Vec<u32>),
        MatchError,
    >)
        requires
            self.wf(),
            self is TreeMatcher ==> read.spec_fits(),
            old(interner).wf(),
        ensures
            final(interner).wf(),
            self.spec_hits(chunk, read, old(interner).strings(), final(interner).strings(), r),
            old(interner).strings().is_prefix_of(final(interner).strings()),
            r is Err ==> final(interner).strings() == old(interner).strings(),
            r is Ok ==> forall|i: int|
                0 <= i < r->Ok_0.0@.len() ==> (#[trigger] r->Ok_0.0@[i]) < final(interner).strings().len(),
            r is Ok ==> forall|i: int|
                0 <= i < r->Ok_0.1@.len() ==> (#[trigger] r->Ok_0.1@[i]) < final(interner).strings().len(),
            r is Ok ==> r->Ok_0.0@.no_duplicates() && r->Ok_0.1@.no_duplicates(),
    {
        match self {
            ReadToGeneMatcher::TreeMatcher(matcher) => matcher.hits(chunk, read, interner),
            ReadToGeneMatcher::TagMatcher(matcher) => {
                let r = matcher.hits(chunk, read, interner);
                proof {
                    if r is Ok && matcher.spec_tagged(read).is_some() {
                        let id = matcher.spec_tagged(read).unwrap();
                        let k = interner.strings().index_of(id);
                        assert(interner.strings()[k] == id);
                    }
                }
                r
            },
            ReadToGeneMatcher::ReferenceMatcher(matcher) => {
                let r = matcher.hits(chunk, read, interner);
                proof {
                    if r is Ok {
                        let k = interner.strings().index_of(chunk.chr@);
                        assert(interner.strings()[k] == chunk.chr@);
                    }
                }
                r
            },
        }
    }
}

} // verus!
