use crate::bytes::clone_bytes;
use crate::engine::chunked_genome::Chunk;
use crate::engine::counts::{AnnotatedRead, AnnotatedReadInfo, Hits};
use crate::engine::interner::OurInterner;
use crate::text::str_eq;
use vstd::prelude::*;
use vstd::string::*;
use vstd::utf8::*;

verus! {

/// The value of a tag that is written to an annotated alignment.
#[derive(Debug)]
pub enum TagValue {
    U8(u8),
    I32(i32),
    /// The bytes of a string.
    Text(Vec<u8>),
}

/// A tag to set on an annotated alignment: its name and its value.
#[derive(Debug)]
pub struct Tag {
    pub name: [u8; 2],
    pub value: TagValue,
}

/// Why the tags of a read cannot be given.
#[derive(Debug, Clone, Copy, PartialEq, Eq, Structural)]
pub enum TagError {
    /// A hit of the read is no token of the interner.
    UnknownToken(u32),
    /// The corrected position, counted from 1, is beyond `i32::MAX`.
    PositionOutOfRange,
}

/// The tokens in ascending order.
pub open spec fn tokens_sorted(tokens: Seq<u32>) -> bool {
    forall|i: int, j: int| 0 <= i < j < tokens.len() ==> tokens[i] <= tokens[j]
}

/// The tokens in ascending order.
pub fn sorted_tokens(tokens: &Vec<u32>) -> (sorted: Vec<u32>)
    ensures
        tokens_sorted(sorted@),
        sorted@.to_multiset() == tokens@.to_multiset(),
        sorted@.len() == tokens@.len(),
{
    let mut sorted: Vec<u32> = Vec::new();
    let mut i: usize = 0;
    proof {
        assert(tokens@.take(0) =~= Seq::<u32>::empty());
    }
    while i < tokens.len()
        invariant
            0 <= i <= tokens.len(),
            tokens_sorted(sorted@),
            sorted@.len() == i,
            sorted@.to_multiset() == tokens@.take(i as int).to_multiset(),
        decreases tokens.len() - i,
    {
        let t = tokens[i];
        let mut at: usize = 0;
        while at < sorted.len() && sorted[at] <= t
            invariant
                0 <= at <= sorted@.len(),
                forall|j: int| 0 <= j < at ==> sorted@[j] <= t,
            decreases sorted.len() - at,
        {
            at = at + 1;
        }
        let ghost before = sorted@;
        sorted.insert(at, t);
        proof {
            broadcast use vstd::seq_lib::group_to_multiset_ensures;

            assert(tokens@.take(i + 1) =~= tokens@.take(i as int).push(t));
            assert(sorted@ =~= before.insert(at as int, t));
            assert forall|a: int, b: int| 0 <= a < b < sorted@.len() implies sorted@[a]
                <= sorted@[b] by {
                if a < at && b > at {
                    assert(sorted@[a] == before[a]);
                    assert(sorted@[b] == before[b - 1]);
                } else if a < at && b == at {
                    assert(sorted@[a] == before[a]);
                } else if a == at {
                    assert(sorted@[b] == before[b - 1]);
                    assert(before[at as int] > t);
                    if b - 1 > at {
                        assert(before[at as int] <= before[b - 1]);
                    }
                } else if b < at {
                    assert(sorted@[a] == before[a]);
                    assert(sorted@[b] == before[b]);
                } else {
                    assert(sorted@[a] == before[a - 1]);
                    assert(sorted@[b] == before[b - 1]);
                }
            }
        }
        i = i + 1;
    }
    proof {
        assert(tokens@.take(tokens@.len() as int) =~= tokens@);
    }
    sorted
}

/// The strings of the first `n` tokens, with commas between them.
pub open spec fn spec_joined_names(tokens: Seq<u32>, strings: Seq<Seq<char>>, n: int) -> Seq<char>
    decreases n,
{
    if n <= 0 {
        Seq::empty()
    } else if n == 1 {
        strings[tokens[0] as int]
    } else {
        spec_joined_names(tokens, strings, n - 1) + ","@ + strings[tokens[n - 1] as int]
    }
}

/// Whether the interner holds a string for every token of the hits.
pub open spec fn spec_tokens_known(hits: Hits, strings: Seq<Seq<char>>) -> bool {
    &&& forall|i: int| 0 <= i < hits.correct@.len() ==> (#[trigger] hits.correct@[i]) < strings.len()
    &&& forall|i: int| 0 <= i < hits.reverse@.len() ==> (#[trigger] hits.reverse@[i]) < strings.len()
}

/// The identifiers of the tokens, with commas between them.
fn joined_names(tokens: &Vec<u32>, interner: &OurInterner) -> (r: Result<String, TagError>)
    ensures
        match r {
            Ok(text) => text@ == spec_joined_names(
                tokens@,
                interner.strings(),
                tokens@.len() as int,
            ) && forall|i: int|
                0 <= i < tokens@.len() ==> (#[trigger] tokens@[i]) < interner.strings().len(),
            Err(e) => exists|i: int|
                0 <= i < tokens@.len() && (#[trigger] tokens@[i]) >= interner.strings().len() && e
                    == TagError::UnknownToken(tokens@[i]),
        },
{
    let mut tag = String::new();
    let mut i: usize = 0;
    while i < tokens.len()
        invariant
            0 <= i <= tokens.len(),
            tag@ == spec_joined_names(tokens@, interner.strings(), i as int),
            forall|j: int| 0 <= j < i ==> (#[trigger] tokens@[j]) < interner.strings().len(),
        decreases tokens.len() - i,
    {
        match interner.resolve(tokens[i]) {
            Some(name) => {
                let ghost before = tag@;
                if i > 0 {
                    tag.append(",");
                }
                tag.append(name.as_str());
                proof {
                    if i == 0 {
                        assert(tag@ =~= name@);
                    } else {
                        assert(tag@ =~= before + ","@ + name@);
                    }
                }
            },
            None => {
                return Err(TagError::UnknownToken(tokens[i]));
            },
        }
        i = i + 1;
    }
    Ok(tag)
}

/// What is written for a read that was found to be `read`:
/// - nothing for a read outside the chunk;
/// - `XF` 1 for a filtered read, 3 for a duplicate, 5 for a read without
///   barcode, 6 for one without UMI, 4 for a barcode that is not
///   whitelisted, with the barcode as extracted in `CR`;
/// - for a read that counts: in `XQ` and `XR` the identifiers of its
///   agreeing and disagreeing hits, in the order of their tokens, with commas
///   between them; in `XP` its corrected position, counted from 1; in `CB` its
///   barcode, if it has one.
pub fn annotation_tags(read: &AnnotatedRead, interner: &OurInterner) -> (r: Result<
    Option<Vec<Tag>>,
    TagError,
>)
    ensures
        match read {
            AnnotatedRead::NotInRegion => r is Ok && r->Ok_0.is_none(),
            AnnotatedRead::Filtered => spec_flagged(r, 1),
            AnnotatedRead::Duplicate => spec_flagged(r, 3),
            AnnotatedRead::NoBarcode => spec_flagged(r, 5),
            AnnotatedRead::NoUMI => spec_flagged(r, 6),
            AnnotatedRead::BarcodeNotInWhitelist(raw) => r is Ok && r->Ok_0.is_some() && ({
                let tags = r->Ok_0.unwrap()@;
                &&& tags.len() == 2
                &&& tags[0].name@ == seq![88u8, 70u8]
                &&& tags[0].value == TagValue::U8(4)
                &&& tags[1].name@ == seq![67u8, 82u8]
                &&& tags[1].value is Text
                &&& tags[1].value->Text_0@ == raw@
            }),
            AnnotatedRead::Counted(info) => match r {
                Ok(tags) => tags.is_some() && spec_tokens_known(info.hits, interner.strings())
                    && info.corrected_position < i32::MAX && spec_counted_tags(
                    **info,
                    interner.strings(),
                    tags.unwrap()@,
                ),
                Err(TagError::PositionOutOfRange) => spec_tokens_known(
                    info.hits,
                    interner.strings(),
                ) && info.corrected_position == i32::MAX,
                Err(TagError::UnknownToken(t)) => t >= interner.strings().len() && (
                info.hits.correct@.contains(t) || info.hits.reverse@.contains(t)),
            },
        },
{
    let xf: [u8; 2] = [88u8, 70u8];
    assert(xf@ =~= seq![88u8, 70u8]);
    match read {
        AnnotatedRead::NotInRegion => Ok(None),
        AnnotatedRead::Filtered => Ok(Some(vec![Tag { name: xf, value: TagValue::U8(1) }])),
        AnnotatedRead::Duplicate => Ok(Some(vec![Tag { name: xf, value: TagValue::U8(3) }])),
        AnnotatedRead::NoBarcode => Ok(Some(vec![Tag { name: xf, value: TagValue::U8(5) }])),
        AnnotatedRead::NoUMI => Ok(Some(vec![Tag { name: xf, value: TagValue::U8(6) }])),
        AnnotatedRead::BarcodeNotInWhitelist(uncorrected_barcode) => {
            let cr: [u8; 2] = [67u8, 82u8];
            assert(cr@ =~= seq![67u8, 82u8]);
            Ok(
                Some(
                    vec![
                        Tag { name: xf, value: TagValue::U8(4) },
                        Tag {
                            name: cr,
                            value: TagValue::Text(clone_bytes(uncorrected_barcode.as_slice())),
                        },
                    ],
                ),
            )
        },
        AnnotatedRead::Counted(info) => {
            let xq: [u8; 2] = [88u8, 81u8];
            let xr: [u8; 2] = [88u8, 82u8];
            let xp: [u8; 2] = [88u8, 80u8];
            let cb: [u8; 2] = [67u8, 66u8];
            assert(xq@ =~= seq![88u8, 81u8]);
            assert(xr@ =~= seq![88u8, 82u8]);
            assert(xp@ =~= seq![88u8, 80u8]);
            assert(cb@ =~= seq![67u8, 66u8]);
            let correct = sorted_tokens(&info.hits.correct);
            let reverse = sorted_tokens(&info.hits.reverse);
            proof {
                broadcast use vstd::seq_lib::group_to_multiset_ensures;

                assert forall|t: u32| correct@.contains(t) implies info.hits.correct@.contains(t) by {
                    assert(correct@.to_multiset().count(t) > 0);
                }
                assert forall|t: u32| reverse@.contains(t) implies info.hits.reverse@.contains(t) by {
                    assert(reverse@.to_multiset().count(t) > 0);
                }
            }
            let names_correct = match joined_names(&correct, interner) {
                Ok(text) => text,
                Err(e) => {
                    proof {
                        let i = choose|i: int|
                            0 <= i < correct@.len() && (#[trigger] correct@[i])
                                >= interner.strings().len() && e == TagError::UnknownToken(
                                correct@[i],
                            );
                        assert(correct@.contains(correct@[i]));
                    }
                    return Err(e);
                },
            };
            let names_reverse = match joined_names(&reverse, interner) {
                Ok(text) => text,
                Err(e) => {
                    proof {
                        let i = choose|i: int|
                            0 <= i < reverse@.len() && (#[trigger] reverse@[i])
                                >= interner.strings().len() && e == TagError::UnknownToken(
                                reverse@[i],
                            );
                        assert(reverse@.contains(reverse@[i]));
                    }
                    return Err(e);
                },
            };
            proof {
                broadcast use vstd::seq_lib::group_to_multiset_ensures;

                assert forall|i: int| 0 <= i < info.hits.correct@.len() implies (
                #[trigger] info.hits.correct@[i]) < interner.strings().len() by {
                    let t = info.hits.correct@[i];
                    assert(info.hits.correct@.contains(t));
                    assert(correct@.to_multiset().count(t) > 0);
                    assert(correct@.contains(t));
                }
                assert forall|i: int| 0 <= i < info.hits.reverse@.len() implies (
                #[trigger] info.hits.reverse@[i]) < interner.strings().len() by {
                    let t = info.hits.reverse@[i];
                    assert(info.hits.reverse@.contains(t));
                    assert(reverse@.to_multiset().count(t) > 0);
                    assert(reverse@.contains(t));
                }
            }
            if info.corrected_position == i32::MAX {
                return Err(TagError::PositionOutOfRange);
            }
            let mut tags: Vec<Tag> = Vec::new();
            tags.push(Tag { name: xq, value: TagValue::Text(names_correct.as_str().as_bytes_vec()) });
            tags.push(Tag { name: xr, value: TagValue::Text(names_reverse.as_str().as_bytes_vec()) });
            tags.push(Tag { name: xp, value: TagValue::I32(info.corrected_position + 1) });
            match &info.barcode {
                Some(cell_barcode) => {
                    tags.push(
                        Tag { name: cb, value: TagValue::Text(clone_bytes(cell_barcode.as_slice())) },
                    );
                },
                None => {},
            }
            proof {
                assert(spec_counted_tags_by(
                    **info,
                    interner.strings(),
                    tags@,
                    correct@,
                    reverse@,
                ));
            }
            Ok(Some(tags))
        },
    }
}

/// Whether the tags are the one flag `XF` with the given value.
pub open spec fn spec_flagged(r: Result<Option<Vec<Tag>>, TagError>, flag: u8) -> bool {
    r is Ok && r->Ok_0.is_some() && r->Ok_0.unwrap()@.len() == 1 && r->Ok_0.unwrap()@[0].name@
        == seq![88u8, 70u8] && r->Ok_0.unwrap()@[0].value == TagValue::U8(flag)
}

/// Whether the tags are those of a read that counts, with its hits listed
/// in the orders `correct` and `reverse`.
pub open spec fn spec_counted_tags_by(
    info: AnnotatedReadInfo,
    strings: Seq<Seq<char>>,
    tags: Seq<Tag>,
    correct: Seq<u32>,
    reverse: Seq<u32>,
) -> bool {
    &&& tokens_sorted(correct)
    &&& tokens_sorted(reverse)
    &&& correct.to_multiset() == info.hits.correct@.to_multiset()
    &&& reverse.to_multiset() == info.hits.reverse@.to_multiset()
    &&& tags.len() == if info.barcode.is_some() {
        4int
    } else {
        3int
    }
    &&& tags[0].name@ == seq![88u8, 81u8]
    &&& tags[0].value is Text
    &&& tags[0].value->Text_0@ == encode_utf8(
        spec_joined_names(correct, strings, correct.len() as int),
    )
    &&& tags[1].name@ == seq![88u8, 82u8]
    &&& tags[1].value is Text
    &&& tags[1].value->Text_0@ == encode_utf8(
        spec_joined_names(reverse, strings, reverse.len() as int),
    )
    &&& tags[2].name@ == seq![88u8, 80u8]
    &&& tags[2].value == TagValue::I32((info.corrected_position + 1) as i32)
    &&& info.barcode.is_some() ==> tags[3].name@ == seq![67u8, 66u8] && tags[3].value is Text
        && tags[3].value->Text_0@ == info.barcode.unwrap()@
}

/// Whether the tags are those of a read that counts.
pub open spec fn spec_counted_tags(info: AnnotatedReadInfo, strings: Seq<Seq<char>>, tags: Seq<Tag>) -> bool {
    exists|correct: Seq<u32>, reverse: Seq<u32>| #[trigger]
        spec_counted_tags_by(info, strings, tags, correct, reverse)
}

/// Why the shards of the annotated alignments cannot be put together.
#[derive(Debug, Clone, Copy, PartialEq, Eq, Structural)]
pub enum ShardError {
    /// The chunk at this place starts before the chunk of the same
    /// reference that precedes it.
    NotSorted(usize),
}

/// The name of the shard of a chunk: the chunk's id and `.bam`.
pub fn shard_filename(chunk: &Chunk) -> (name: String)
    ensures
        name@ == chunk.spec_str_id() + ".bam"@,
{
    let mut name = chunk.str_id();
    name.append(".bam");
    name
}

/// The start of the last of the first `n` chunks that is on the reference
/// `target`; zero if none is.
pub open spec fn spec_last_start(chunks: Seq<Chunk>, target: Seq<char>, n: int) -> u32
    decreases n,
{
    if n <= 0 {
        0
    } else if chunks[n - 1].chr@ == target {
        chunks[n - 1].start
    } else {
        spec_last_start(chunks, target, n - 1)
    }
}

/// Whether chunk `i` is on the reference `target` and starts before the
/// chunk of that reference that precedes it.
pub open spec fn spec_out_of_order(chunks: Seq<Chunk>, target: Seq<char>, i: int) -> bool {
    0 <= i < chunks.len() && chunks[i].chr@ == target && chunks[i].start < spec_last_start(
        chunks,
        target,
        i,
    )
}

/// The places of those of the first `n` chunks that are on the reference `target`.
pub open spec fn spec_on_target(chunks: Seq<Chunk>, target: Seq<char>, n: int) -> Seq<usize>
    decreases n,
{
    if n <= 0 {
        Seq::empty()
    } else if chunks[n - 1].chr@ == target {
        spec_on_target(chunks, target, n - 1).push((n - 1) as usize)
    } else {
        spec_on_target(chunks, target, n - 1)
    }
}

/// The order of the shards for the first `n` references of the header.
pub open spec fn spec_shard_order(chunks: Seq<Chunk>, targets: Seq<String>, n: int) -> Seq<usize>
    decreases n,
{
    if n <= 0 {
        Seq::empty()
    } else {
        spec_shard_order(chunks, targets, n - 1) + spec_on_target(
            chunks,
            targets[n - 1]@,
            chunks.len() as int,
        )
    }
}

/// The order in which the shards of the chunks are put together: reference
/// after reference as the header lists them, and within a reference in the
/// order of the chunks, which must not go back in position.
pub fn shard_order(chunks: &Vec<Chunk>, targets: &Vec<String>) -> (r: Result<Vec<usize>, ShardError>)
    ensures
        match r {
            Ok(order) => order@ == spec_shard_order(chunks@, targets@, targets@.len() as int)
                && forall|t: int, i: int|
                0 <= t < targets@.len() ==> !#[trigger] spec_out_of_order(chunks@, targets@[t]@, i),
            Err(ShardError::NotSorted(i)) => exists|t: int|
                0 <= t < targets@.len() && spec_out_of_order(
                    chunks@,
                    #[trigger] targets@[t]@,
                    i as int,
                ),
        },
{
    let mut res: Vec<usize> = Vec::new();
    let mut t: usize = 0;
    while t < targets.len()
        invariant
            0 <= t <= targets.len(),
            res@ == spec_shard_order(chunks@, targets@, t as int),
            forall|u: int, i: int|
                0 <= u < t ==> !#[trigger] spec_out_of_order(chunks@, targets@[u]@, i),
        decreases targets.len() - t,
    {
        let target = &targets[t];
        let mut last_pos: u32 = 0;
        let ghost base = res@;
        let mut i: usize = 0;
        while i < chunks.len()
            invariant
                0 <= i <= chunks.len(),
                t < targets.len(),
                target == &targets@[t as int],
                res@ == base + spec_on_target(chunks@, target@, i as int),
                last_pos == spec_last_start(chunks@, target@, i as int),
                forall|k: int| 0 <= k < i ==> !#[trigger] spec_out_of_order(chunks@, target@, k),
            decreases chunks.len() - i,
        {
            if str_eq(chunks[i].chr.as_str(), target.as_str()) {
                let pos = chunks[i].start;
                if pos < last_pos {
                    assert(spec_out_of_order(chunks@, targets@[t as int]@, i as int));
                    return Err(ShardError::NotSorted(i));
                }
                last_pos = pos;
                res.push(i);
                assert(res@ =~= base + spec_on_target(chunks@, target@, i + 1));
            }
            i = i + 1;
        }
        proof {
            assert(res@ =~= spec_shard_order(chunks@, targets@, t + 1));
        }
        t = t + 1;
    }
    Ok(res)
}

} // verus!
