use crate::bytes::{
    bytes_eq, clone_bytes, is_space, parse_u64, spec_all_digits, spec_digits_value, spec_is_space,
    spec_parse_u64, spec_trim_start, trim_start,
};
use crate::engine::chunked_genome::Chunk;
use crate::engine::counts::{cells_below, sat_add, CellTally, CounterPerChunk, Stats};
use crate::engine::interner::OurInterner;
use crate::text::{
    clone_string, decimal, holds_bytes, is_sorted_bytes, is_sorted_strings, lemma_decimal_digits,
    sorted_byte_strings, sorted_strings, spec_added_once, spec_decimal, spec_texts,
};
use vstd::prelude::*;
use vstd::slice::{slice_subrange, slice_to_vec};
use vstd::string::*;
use vstd::utf8::*;

verus! {

/// The counts of one feature: reads that agree with its strand, and reads
/// that do not.
#[derive(Debug)]
pub struct RegionCount {
    pub name: String,
    pub correct: usize,
    pub reverse: usize,
}

/// The counts of features, by name.
pub type CountsMap = Map<Seq<char>, (usize, usize)>;

/// The counts kept under `k`; zeros where there are none.
pub open spec fn counts_or_zero(m: CountsMap, k: Seq<char>) -> (usize, usize) {
    if m.contains_key(k) {
        m[k]
    } else {
        (0usize, 0usize)
    }
}

/// Two tallies merged: every feature that one of them holds, with the sums
/// of its counts, which stop at `usize::MAX`.
pub open spec fn spec_merge_counts(a: CountsMap, b: CountsMap) -> CountsMap {
    Map::new(
        |k: Seq<char>| a.contains_key(k) || b.contains_key(k),
        |k: Seq<char>|
            (
                sat_add(counts_or_zero(a, k).0 as int, counts_or_zero(b, k).0 as int),
                sat_add(counts_or_zero(a, k).1 as int, counts_or_zero(b, k).1 as int),
            ),
    )
}

/// Aggregation does not depend on the order in which the tallies of chunks
/// come in: merging is commutative and associative, for the counts of
/// features as for the statistics.
pub proof fn lemma_merge_any_order(a: CountsMap, b: CountsMap, c: CountsMap)
    ensures
        spec_merge_counts(a, b) == spec_merge_counts(b, a),
        spec_merge_counts(spec_merge_counts(a, b), c) == spec_merge_counts(a, spec_merge_counts(b, c)),
        spec_merge_counts(spec_merge_counts(a, b), c) == spec_merge_counts(spec_merge_counts(a, c), b),
{
    assert(spec_merge_counts(a, b) =~= spec_merge_counts(b, a));
    assert(spec_merge_counts(spec_merge_counts(a, b), c) =~= spec_merge_counts(
        a,
        spec_merge_counts(b, c),
    ));
    assert(spec_merge_counts(spec_merge_counts(a, b), c) =~= spec_merge_counts(
        spec_merge_counts(a, c),
        b,
    ));
}

/// The statistics of chunks can be merged in any order.
pub proof fn lemma_merge_stats_any_order(a: Stats, b: Stats, c: Stats)
    ensures
        a.spec_merge(&b) == b.spec_merge(&a),
        a.spec_merge(&b).spec_merge(&c) == a.spec_merge(&b.spec_merge(&c)),
        a.spec_merge(&b).spec_merge(&c) == a.spec_merge(&c).spec_merge(&b),
{
}

/// The counts as a map from name to counts.
pub open spec fn counts_map(entries: Seq<RegionCount>) -> CountsMap
    decreases entries.len(),
{
    if entries.len() == 0 {
        Map::empty()
    } else {
        counts_map(entries.drop_last()).insert(
            entries.last().name@,
            (entries.last().correct, entries.last().reverse),
        )
    }
}

/// No name has two counts.
pub open spec fn names_distinct(entries: Seq<RegionCount>) -> bool {
    forall|i: int, j: int|
        0 <= i < entries.len() && 0 <= j < entries.len() && i != j ==> (#[trigger] entries[i]).name@
            != (#[trigger] entries[j]).name@
}

proof fn lemma_counts_map(entries: Seq<RegionCount>)
    requires
        names_distinct(entries),
    ensures
        forall|i: int|
            0 <= i < entries.len() ==> counts_map(entries).contains_key(
                (#[trigger] entries[i]).name@,
            ) && counts_map(entries)[entries[i].name@] == (entries[i].correct, entries[i].reverse),
        forall|k: Seq<char>| #[trigger]
            counts_map(entries).contains_key(k) ==> exists|i: int|
                0 <= i < entries.len() && (#[trigger] entries[i]).name@ == k,
    decreases entries.len(),
{
    if entries.len() > 0 {
        let before = entries.drop_last();
        assert(names_distinct(before)) by {
            assert forall|i: int, j: int|
                0 <= i < before.len() && 0 <= j < before.len() && i != j implies (
            #[trigger] before[i]).name@ != (#[trigger] before[j]).name@ by {
                assert(before[i] == entries[i]);
                assert(before[j] == entries[j]);
            }
        }
        lemma_counts_map(before);
        assert forall|i: int| 0 <= i < entries.len() implies counts_map(entries).contains_key(
            (#[trigger] entries[i]).name@,
        ) && counts_map(entries)[entries[i].name@] == (entries[i].correct, entries[i].reverse) by {
            if i < entries.len() - 1 {
                assert(before[i] == entries[i]);
                assert(entries[i].name@ != entries[entries.len() - 1].name@);
            }
        }
        assert forall|k: Seq<char>| #[trigger]
            counts_map(entries).contains_key(k) implies exists|i: int|
            0 <= i < entries.len() && (#[trigger] entries[i]).name@ == k by {
            if k == entries.last().name@ {
                assert(entries[entries.len() - 1].name@ == k);
            } else {
                assert(counts_map(before).contains_key(k));
                let i = choose|i: int| 0 <= i < before.len() && (#[trigger] before[i]).name@ == k;
                assert(entries[i] == before[i]);
            }
        }
    }
}

/// Adds counts to those of `name`.
fn add_region(entries: &mut Vec<RegionCount>, name: String, correct: usize, reverse: usize)
    requires
        names_distinct(old(entries)@),
    ensures
        names_distinct(final(entries)@),
        counts_map(final(entries)@) == counts_map(old(entries)@).insert(
            name@,
            (
                sat_add(counts_or_zero(counts_map(old(entries)@), name@).0 as int, correct as int),
                sat_add(counts_or_zero(counts_map(old(entries)@), name@).1 as int, reverse as int),
            ),
        ),
{
    let ghost before = entries@;
    let mut i: usize = 0;
    while i < entries.len()
        invariant
            0 <= i <= entries.len(),
            entries@ == before,
            before == old(entries)@,
            names_distinct(before),
            forall|j: int| 0 <= j < i ==> (#[trigger] before[j]).name@ != name@,
        decreases entries.len() - i,
    {
        proof {
            lemma_counts_map(before);
        }
        if entries[i].name == name {
            let next = RegionCount {
                name,
                correct: entries[i].correct.saturating_add(correct),
                reverse: entries[i].reverse.saturating_add(reverse),
            };
            entries.set(i, next);
            proof {
                let after = entries@;
                assert(names_distinct(after)) by {
                    assert forall|a: int, b: int|
                        0 <= a < after.len() && 0 <= b < after.len() && a != b implies (
                    #[trigger] after[a]).name@ != (#[trigger] after[b]).name@ by {
                        assert(after[a].name@ == before[a].name@);
                        assert(after[b].name@ == before[b].name@);
                    }
                }
                lemma_counts_map(after);
                let want = counts_map(before).insert(
                    name@,
                    (
                        sat_add(counts_or_zero(counts_map(before), name@).0 as int, correct as int),
                        sat_add(counts_or_zero(counts_map(before), name@).1 as int, reverse as int),
                    ),
                );
                assert forall|k: Seq<char>| #[trigger]
                    counts_map(after).contains_key(k) <==> want.contains_key(k) by {
                    if counts_map(after).contains_key(k) {
                        let j = choose|j: int|
                            0 <= j < after.len() && (#[trigger] after[j]).name@ == k;
                        assert(before[j].name@ == k);
                    }
                    if want.contains_key(k) && k != name@ {
                        let j = choose|j: int|
                            0 <= j < before.len() && (#[trigger] before[j]).name@ == k;
                        assert(after[j].name@ == k);
                    }
                    if k == name@ {
                        assert(after[i as int].name@ == k);
                    }
                }
                assert forall|k: Seq<char>| #[trigger]
                    counts_map(after).contains_key(k) implies counts_map(after)[k] == want[k] by {
                    let j = choose|j: int| 0 <= j < after.len() && (#[trigger] after[j]).name@ == k;
                    if j != i {
                        assert(after[j] == before[j]);
                    }
                }
                assert(counts_map(after) =~= want);
            }
            return ;
        }
        i = i + 1;
    }
    proof {
        lemma_counts_map(before);
        if counts_map(before).contains_key(name@) {
            let j = choose|j: int| 0 <= j < before.len() && (#[trigger] before[j]).name@ == name@;
            assert(false);
        }
    }
    entries.push(RegionCount { name, correct, reverse });
    proof {
        let after = entries@;
        assert(after.drop_last() =~= before);
        assert(names_distinct(after)) by {
            assert forall|a: int, b: int|
                0 <= a < after.len() && 0 <= b < after.len() && a != b implies (#[trigger] after[a]).name@
                != (#[trigger] after[b]).name@ by {
                if a < before.len() {
                    assert(after[a] == before[a]);
                }
                if b < before.len() {
                    assert(after[b] == before[b]);
                }
            }
        }
    }
}

/// The tally of a chunk by name: the counts of the first `n` tokens that
/// have any, each under the string that its token stands for.
pub open spec fn resolved_tally(counter: Seq<(usize, usize)>, strings: Seq<Seq<char>>, n: int) -> CountsMap {
    Map::new(
        |k: Seq<char>|
            exists|t: int|
                0 <= t < n && t < counter.len() && t < strings.len() && #[trigger] strings[t] == k
                    && counter[t] != (0usize, 0usize),
        |k: Seq<char>| counter[strings.index_of(k)],
    )
}

/// Merges the tally of a chunk, kept by token, into the counts by name.
pub fn merge_regions(entries: &mut Vec<RegionCount>, counter: &Vec<(usize, usize)>, interner: &OurInterner)
    requires
        names_distinct(old(entries)@),
        interner.wf(),
        counter@.len() <= interner.strings().len(),
    ensures
        names_distinct(final(entries)@),
        counts_map(final(entries)@) == spec_merge_counts(
            counts_map(old(entries)@),
            resolved_tally(counter@, interner.strings(), counter@.len() as int),
        ),
{
    let ghost start = counts_map(entries@);
    let ghost strings = interner.strings();
    let mut t: usize = 0;
    proof {
        assert(resolved_tally(counter@, strings, 0) =~= Map::empty());
        assert(spec_merge_counts(start, Map::empty()) =~= start);
    }
    while t < counter.len()
        invariant
            0 <= t <= counter.len(),
            names_distinct(entries@),
            interner.wf(),
            strings == interner.strings(),
            counter@.len() <= strings.len(),
            counter@.len() <= u32::MAX,
            counts_map(entries@) == spec_merge_counts(start, resolved_tally(counter@, strings, t as int)),
        decreases counter.len() - t,
    {
        let c = counter[t];
        let ghost before_map = counts_map(entries@);
        let ghost done = resolved_tally(counter@, strings, t as int);
        let ghost next = resolved_tally(counter@, strings, t + 1);
        if c.0 != 0 || c.1 != 0 {
            let name = interner.resolve(t as u32);
            match name {
                Some(name) => {
                    add_region(entries, name, c.0, c.1);
                    proof {
                        let k0 = strings[t as int];
                        assert(!done.contains_key(k0)) by {
                            if done.contains_key(k0) {
                                let u = choose|u: int|
                                    0 <= u < t && u < counter@.len() && u < strings.len()
                                        && #[trigger] strings[u] == k0 && counter@[u] != (
                                        0usize,
                                        0usize,
                                    );
                                assert(strings[u] == strings[t as int]);
                            }
                        }
                        assert(strings.index_of(k0) == t) by {
                            let i = strings.index_of(k0);
                            assert(strings[t as int] == k0);
                            assert(strings[i] == k0);
                        }
                        assert forall|k: Seq<char>| next.contains_key(k) <==> (done.contains_key(k)
                            || k == k0) by {
                            if next.contains_key(k) {
                                let u = choose|u: int|
                                    0 <= u < t + 1 && u < counter@.len() && u < strings.len()
                                        && #[trigger] strings[u] == k && counter@[u] != (
                                        0usize,
                                        0usize,
                                    );
                                if u < t {
                                    assert(done.contains_key(k));
                                }
                            }
                            if done.contains_key(k) {
                                let u = choose|u: int|
                                    0 <= u < t && u < counter@.len() && u < strings.len()
                                        && #[trigger] strings[u] == k && counter@[u] != (
                                        0usize,
                                        0usize,
                                    );
                                assert(strings[u] == k);
                            }
                            if k == k0 {
                                assert(strings[t as int] == k);
                            }
                        }
                        assert(counts_map(entries@) =~= spec_merge_counts(start, next));
                    }
                },
                None => {
                    assert(false);
                },
            }
        } else {
            proof {
                assert forall|k: Seq<char>| next.contains_key(k) <==> done.contains_key(k) by {
                    if next.contains_key(k) {
                        let u = choose|u: int|
                            0 <= u < t + 1 && u < counter@.len() && u < strings.len()
                                && #[trigger] strings[u] == k && counter@[u] != (0usize, 0usize);
                        assert(u < t);
                    }
                    if done.contains_key(k) {
                        let u = choose|u: int|
                            0 <= u < t && u < counter@.len() && u < strings.len()
                                && #[trigger] strings[u] == k && counter@[u] != (0usize, 0usize);
                        assert(strings[u] == k);
                    }
                }
                assert(next =~= done);
            }
        }
        t = t + 1;
    }
}

/// One entry of the sparse matrix: the count of a feature in a cell.
#[derive(Debug)]
pub struct MatrixEntry {
    /// The feature's row, counted from 1.
    pub feature: usize,
    pub barcode: Vec<u8>,
    pub value: usize,
}

/// The aggregated output: counts per region, or per region and cell.
#[allow(inconsistent_fields)]
#[derive(Debug)]
pub enum Output {
    PerRegion {
        output_filename: String,
        counter: Vec<RegionCount>,
        stat_counter: Stats,
        /// The rows of the table, if they are known beforehand.
        sorted_keys: Option<Vec<String>>,
        first_column_only: bool,
        id_attribute: String,
    },
    SingleCell {
        output_prefix: String,
        stat_counter: Stats,
        /// The features in the order of their rows.
        features: Vec<String>,
        /// The barcodes seen, each once.
        barcodes: Vec<Vec<u8>>,
        matrix_temp_dir: String,
        entry_count: usize,
    },
}

/// No string stands twice in the list.
pub open spec fn strings_distinct(list: Seq<String>) -> bool {
    forall|i: int, j: int|
        0 <= i < list.len() && 0 <= j < list.len() && i != j ==> (#[trigger] list[i])@ != (
        #[trigger] list[j])@
}

/// No byte string stands twice in the list.
pub open spec fn bytes_distinct(list: Seq<Vec<u8>>) -> bool {
    forall|i: int, j: int|
        0 <= i < list.len() && 0 <= j < list.len() && i != j ==> (#[trigger] list[i])@ != (
        #[trigger] list[j])@
}

/// Whether the string `s` is one of `list`.
pub open spec fn holds_string(list: Seq<String>, s: Seq<char>) -> bool {
    exists|i: int| 0 <= i < list.len() && (#[trigger] list[i])@ == s
}

/// The place of `name` in the list, if it is there.
fn string_position(list: &Vec<String>, name: &String) -> (r: Option<usize>)
    ensures
        r.is_some() == holds_string(list@, name@),
        r.is_some() ==> r.unwrap() < list@.len() && list@[r.unwrap() as int]@ == name@,
{
    let mut i: usize = 0;
    while i < list.len()
        invariant
            0 <= i <= list.len(),
            forall|j: int| 0 <= j < i ==> (#[trigger] list@[j])@ != name@,
        decreases list.len() - i,
    {
        if list[i] == *name {
            return Some(i);
        }
        i = i + 1;
    }
    None
}

/// The place of `barcode` in the list, if it is there.
pub fn bytes_position(list: &Vec<Vec<u8>>, barcode: &[u8]) -> (r: Option<usize>)
    ensures
        r.is_some() == holds_bytes(list@, barcode@),
        r.is_some() ==> r.unwrap() < list@.len() && list@[r.unwrap() as int]@ == barcode@,
        r.is_some() ==> forall|j: int| 0 <= j < r.unwrap() ==> (#[trigger] list@[j])@ != barcode@,
{
    let mut i: usize = 0;
    while i < list.len()
        invariant
            0 <= i <= list.len(),
            forall|j: int| 0 <= j < i ==> (#[trigger] list@[j])@ != barcode@,
        decreases list.len() - i,
    {
        if bytes_eq(list[i].as_slice(), barcode) {
            return Some(i);
        }
        i = i + 1;
    }
    None
}

/// Appends the string unless the list holds it.
fn add_string(list: &mut Vec<String>, name: String) -> (at: usize)
    requires
        strings_distinct(old(list)@),
    ensures
        strings_distinct(final(list)@),
        at < final(list)@.len(),
        final(list)@[at as int]@ == name@,
        holds_string(old(list)@, name@) ==> final(list)@ == old(list)@,
        !holds_string(old(list)@, name@) ==> final(list)@ == old(list)@.push(name)
            && at == old(list)@.len(),
{
    match string_position(list, &name) {
        Some(at) => at,
        None => {
            let ghost before = list@;
            list.push(name);
            proof {
                assert forall|i: int, j: int|
                    0 <= i < list@.len() && 0 <= j < list@.len() && i != j implies (
                #[trigger] list@[i])@ != (#[trigger] list@[j])@ by {
                    if i < before.len() {
                        assert(list@[i] == before[i]);
                    }
                    if j < before.len() {
                        assert(list@[j] == before[j]);
                    }
                }
            }
            list.len() - 1
        },
    }
}

/// Appends the byte string unless the list holds it.
fn add_bytes(list: &mut Vec<Vec<u8>>, barcode: &Vec<u8>)
    requires
        bytes_distinct(old(list)@),
    ensures
        bytes_distinct(final(list)@),
        holds_bytes(final(list)@, barcode@),
        forall|b: Seq<u8>|
            #[trigger] holds_bytes(final(list)@, b) <==> (holds_bytes(old(list)@, b) || b
                == barcode@),
        old(list)@.len() <= final(list)@.len() <= old(list)@.len() + 1,
{
    let ghost before = list@;
    match bytes_position(list, barcode.as_slice()) {
        Some(_) => {},
        None => {
            list.push(clone_bytes(barcode.as_slice()));
            proof {
                let after = list@;
                assert forall|i: int, j: int|
                    0 <= i < after.len() && 0 <= j < after.len() && i != j implies (
                #[trigger] after[i])@ != (#[trigger] after[j])@ by {
                    if i < before.len() {
                        assert(after[i] == before[i]);
                    }
                    if j < before.len() {
                        assert(after[j] == before[j]);
                    }
                }
                assert(after[before.len() as int]@ == barcode@);
                assert forall|b: Seq<u8>|
                    #[trigger] holds_bytes(after, b) <==> (holds_bytes(before, b) || b
                        == barcode@) by {
                    if holds_bytes(after, b) {
                        let i = choose|i: int| 0 <= i < after.len() && (#[trigger] after[i])@ == b;
                        if i < before.len() {
                            assert(before[i]@ == b);
                        }
                    }
                    if holds_bytes(before, b) {
                        let i = choose|i: int| 0 <= i < before.len() && (#[trigger] before[i])@ == b;
                        assert(after[i]@ == b);
                    }
                }
            }
        },
    }
}

/// Whether one of the first `n` cell tallies counts the feature `name`.
pub open spec fn cell_names(
    cells: Seq<CellTally>,
    strings: Seq<Seq<char>>,
    n: int,
    name: Seq<char>,
) -> bool {
    exists|i: int| 0 <= i < n && i < cells.len() && strings[(#[trigger] cells[i]).token as int] == name
}

/// Whether one of the first `n` cell tallies counts in the cell `barcode`.
pub open spec fn cell_barcodes(cells: Seq<CellTally>, n: int, barcode: Seq<u8>) -> bool {
    exists|i: int| 0 <= i < n && i < cells.len() && (#[trigger] cells[i]).barcode@ == barcode
}

impl Output {
    pub open spec fn wf(&self) -> bool {
        match self {
            Output::PerRegion { counter, .. } => names_distinct(counter@),
            Output::SingleCell { features, barcodes, .. } => strings_distinct(features@)
                && bytes_distinct(barcodes@),
        }
    }

    pub open spec fn stats(&self) -> Stats {
        match self {
            Output::PerRegion { stat_counter, .. } => *stat_counter,
            Output::SingleCell { stat_counter, .. } => *stat_counter,
        }
    }

    /// The statistics so far.
    pub fn statistics(&self) -> (s: Stats)
        ensures
            s == self.stats(),
    {
        match self {
            Output::PerRegion { stat_counter, .. } => *stat_counter,
            Output::SingleCell { stat_counter, .. } => *stat_counter,
        }
    }

    /// The counts of features by name; empty for single cells.
    pub open spec fn counts(&self) -> CountsMap {
        match self {
            Output::PerRegion { counter, .. } => counts_map(counter@),
            Output::SingleCell { .. } => Map::empty(),
        }
    }

    /// The features of the matrix, in the order of their rows; none for
    /// counts per region.
    pub open spec fn spec_features(&self) -> Seq<String> {
        match self {
            Output::PerRegion { .. } => Seq::empty(),
            Output::SingleCell { features, .. } => features@,
        }
    }

    /// The barcodes seen; none for counts per region.
    pub open spec fn spec_barcodes(&self) -> Seq<Vec<u8>> {
        match self {
            Output::PerRegion { .. } => Seq::empty(),
            Output::SingleCell { barcodes, .. } => barcodes@,
        }
    }

    /// The number of matrix entries; zero for counts per region.
    pub open spec fn spec_entry_count(&self) -> usize {
        match self {
            Output::PerRegion { .. } => 0,
            Output::SingleCell { entry_count, .. } => *entry_count,
        }
    }

    /// Where the output goes: the file of the table, or the directory of
    /// the matrix.
    pub open spec fn spec_target(&self) -> String {
        match self {
            Output::PerRegion { output_filename, .. } => *output_filename,
            Output::SingleCell { output_prefix, .. } => *output_prefix,
        }
    }

    /// Whether the output `after` is set up as `before` is: it goes to the
    /// same place; a table has the same rows named beforehand, the same
    /// choice of columns and the same title; a matrix is staged in the same
    /// directory.
    pub open spec fn spec_same_settings(before: Output, after: Output) -> bool {
        match (before, after) {
            (
                Output::PerRegion {
                    output_filename: file_before,
                    sorted_keys: keys_before,
                    first_column_only: only_before,
                    id_attribute: title_before,
                    ..
                },
                Output::PerRegion {
                    output_filename: file_after,
                    sorted_keys: keys_after,
                    first_column_only: only_after,
                    id_attribute: title_after,
                    ..
                },
            ) => file_after == file_before && keys_after == keys_before && only_after == only_before
                && title_after == title_before,
            (
                Output::SingleCell { output_prefix: prefix_before, matrix_temp_dir: dir_before, .. },
                Output::SingleCell { output_prefix: prefix_after, matrix_temp_dir: dir_after, .. },
            ) => prefix_after == prefix_before && dir_after == dir_before,
            _ => false,
        }
    }

    /// An empty table of counts per region.
    pub fn new_per_region(
        output_filename: String,
        first_column_only: bool,
        sorted_keys: Option<Vec<String>>,
        id_attribute: String,
    ) -> (r: Self)
        ensures
            r.wf(),
            r.counts() == CountsMap::empty(),
            r.stats().spec_total() == 0,
            r matches Output::PerRegion {
                output_filename: f,
                counter: c,
                stat_counter: s,
                sorted_keys: k,
                first_column_only: o,
                id_attribute: a,
            } && f == output_filename && c@.len() == 0 && k == sorted_keys && o == first_column_only
                && a == id_attribute,
    {
        Output::PerRegion {
            output_filename,
            counter: Vec::new(),
            stat_counter: Stats::new(),
            sorted_keys,
            first_column_only,
            id_attribute,
        }
    }

    /// The place of the temporary directory in which the matrix's parts are
    /// staged.
    pub open spec fn spec_matrix_temp_dir(output_prefix: Seq<char>) -> Seq<char> {
        output_prefix + "/matrix.mtx.temp"@
    }

    /// An empty sparse matrix. The features named beforehand get the first
    /// rows, in the order given, each once.
    pub fn new_singlecell(output_prefix: String, sorted_keys: Option<Vec<String>>) -> (r: Self)
        ensures
            r.wf(),
            r.stats().spec_total() == 0,
            r matches Output::SingleCell {
                output_prefix: p,
                features: f,
                barcodes: b,
                matrix_temp_dir: d,
                entry_count: n,
                ..
            } && p == output_prefix && b@.len() == 0 && n == 0 && d@
                == Self::spec_matrix_temp_dir(output_prefix@) && spec_texts(f@) == (match sorted_keys {
                Some(keys) => spec_added_once(Seq::empty(), spec_texts(keys@)),
                None => Seq::empty(),
            }),
    {
        let mut matrix_temp_dir = clone_string(&output_prefix);
        matrix_temp_dir.append("/matrix.mtx.temp");
        let mut features: Vec<String> = Vec::new();
        assert(spec_texts(features@) =~= Seq::<Seq<char>>::empty());
        match &sorted_keys {
            Some(keys) => {
                let ghost texts = spec_texts(keys@);
                assert(texts.take(0) =~= Seq::<Seq<char>>::empty());
                let mut i: usize = 0;
                while i < keys.len()
                    invariant
                        0 <= i <= keys.len(),
                        texts == spec_texts(keys@),
                        strings_distinct(features@),
                        spec_texts(features@) == spec_added_once(
                            Seq::empty(),
                            texts.take(i as int),
                        ),
                    decreases keys.len() - i,
                {
                    let ghost before = features@;
                    let at = add_string(&mut features, clone_string(&keys[i]));
                    proof {
                        let key = keys@[i as int]@;
                        assert(texts.take(i + 1).drop_last() =~= texts.take(i as int));
                        assert(texts.take(i + 1).last() == key);
                        if holds_string(before, key) {
                            let j = choose|j: int|
                                0 <= j < before.len() && (#[trigger] before[j])@ == key;
                            assert(spec_texts(before)[j] == key);
                        } else {
                            if spec_texts(before).contains(key) {
                                let j = choose|j: int|
                                    0 <= j < spec_texts(before).len() && spec_texts(before)[j]
                                        == key;
                                assert(before[j]@ == key);
                            }
                            assert(spec_texts(features@) =~= spec_texts(before).push(key));
                        }
                    }
                    i = i + 1;
                }
                assert(texts.take(keys@.len() as int) =~= texts);
            },
            None => {},
        }
        Output::SingleCell {
            output_prefix,
            stat_counter: Stats::new(),
            features,
            barcodes: Vec::new(),
            matrix_temp_dir,
            entry_count: 0,
        }
    }

    /// An empty tally for one chunk, of the kind that this output takes.
    pub fn per_chunk(&self) -> (c: CounterPerChunk)
        ensures
            c.wf(),
            c.below(0),
            c.stats().spec_total() == 0,
            *self is PerRegion <==> c is PerRegion,
            forall|t: u32| #[trigger] c.spec_region(t) == (0usize, 0usize),
            forall|t: u32, b: Seq<u8>| #[trigger] c.spec_cell(t, b) == 0,
    {
        match self {
            Output::PerRegion { .. } => CounterPerChunk::PerRegion {
                counter: Vec::new(),
                stat_counter: Stats::new(),
            },
            Output::SingleCell { .. } => CounterPerChunk::SingleCell {
                counter: Vec::new(),
                stat_counter: Stats::new(),
            },
        }
    }

    /// Whether the entries are the matrix entries of the chunk's cell
    /// tallies, one for one: each with its barcode and count, and with the
    /// row of the feature that its token stands for.
    pub open spec fn spec_entries_of(
        entries: Seq<MatrixEntry>,
        cells: Seq<CellTally>,
        strings: Seq<Seq<char>>,
        features: Seq<String>,
    ) -> bool {
        &&& entries.len() == cells.len()
        &&& forall|i: int|
            0 <= i < entries.len() ==> {
                &&& (#[trigger] entries[i]).barcode@ == cells[i].barcode@
                &&& entries[i].value == cells[i].count
                &&& 1 <= entries[i].feature <= features.len()
                &&& features[entries[i].feature - 1]@ == strings[cells[i].token as int]
            }
    }

    /// Takes the tally of a finished chunk into the output. Counts per
    /// region are added up by feature name and the statistics by category;
    /// no matrix entries come back. For single cells every cell tally of the
    /// chunk becomes a matrix entry, to be staged by the caller, in the
    /// order of the tallies; features that were not known get the next rows,
    /// and the barcodes join the barcodes seen.
    pub fn count_reads(
        &mut self,
        chunk: &Chunk,
        interner: &OurInterner,
        output_catcher: CounterPerChunk,
    ) -> (entries: Vec<MatrixEntry>)
        requires
            old(self).wf(),
            interner.wf(),
            output_catcher.wf(),
            output_catcher.below(interner.strings().len() as int),
            *old(self) is PerRegion <==> output_catcher is PerRegion,
        ensures
            final(self).wf(),
            *old(self) is PerRegion <==> *final(self) is PerRegion,
            final(self).stats() == old(self).stats().spec_merge(&output_catcher.stats()),
            output_catcher matches CounterPerChunk::PerRegion { counter, .. } ==> entries@.len()
                == 0 && final(self).counts() == spec_merge_counts(
                old(self).counts(),
                resolved_tally(counter@, interner.strings(), counter@.len() as int),
            ),
            Self::spec_same_settings(*old(self), *final(self)),
            output_catcher matches CounterPerChunk::SingleCell { counter, .. } ==> {
                &&& final(self).spec_entry_count() == sat_add(
                    old(self).spec_entry_count() as int,
                    counter@.len() as int,
                )
                &&& old(self).spec_features().is_prefix_of(final(self).spec_features())
                &&& Self::spec_entries_of(
                    entries@,
                    counter@,
                    interner.strings(),
                    final(self).spec_features(),
                )
                &&& forall|j: int|
                    old(self).spec_features().len() <= j < final(self).spec_features().len()
                        ==> cell_names(
                        counter@,
                        interner.strings(),
                        counter@.len() as int,
                        (#[trigger] final(self).spec_features()[j])@,
                    )
                &&& forall|b: Seq<u8>|
                    #[trigger] holds_bytes(final(self).spec_barcodes(), b) <==> (holds_bytes(
                        old(self).spec_barcodes(),
                        b,
                    ) || cell_barcodes(counter@, counter@.len() as int, b))
            },
    {
        match self {
            Output::PerRegion { counter, stat_counter, .. } => {
                match &output_catcher {
                    CounterPerChunk::PerRegion {
                        counter: incoming_counter,
                        stat_counter: incoming_stat_counter,
                    } => {
                        merge_regions(counter, incoming_counter, interner);
                        stat_counter.merge(incoming_stat_counter);
                    },
                    CounterPerChunk::SingleCell { .. } => {
                        assert(false);
                    },
                }
                Vec::new()
            },
            Output::SingleCell { features, barcodes, stat_counter, entry_count, .. } => {
                let mut entries: Vec<MatrixEntry> = Vec::new();
                match &output_catcher {
                    CounterPerChunk::SingleCell {
                        counter: incoming_counter,
                        stat_counter: incoming_stat_counter,
                    } => {
                        stat_counter.merge(incoming_stat_counter);
                        let ghost f0 = features@;
                        let ghost b0 = barcodes@;
                        let ghost n0 = *entry_count;
                        let ghost strings = interner.strings();
                        let mut i: usize = 0;
                        while i < incoming_counter.len()
                            invariant
                                0 <= i <= incoming_counter.len(),
                                interner.wf(),
                                strings == interner.strings(),
                                cells_below(incoming_counter@, strings.len() as int),
                                strings_distinct(features@),
                                bytes_distinct(barcodes@),
                                *entry_count == sat_add(n0 as int, i as int),
                                f0.is_prefix_of(features@),
                                Self::spec_entries_of(
                                    entries@,
                                    incoming_counter@.take(i as int),
                                    strings,
                                    features@,
                                ),
                                forall|j: int|
                                    f0.len() <= j < features@.len() ==> cell_names(
                                        incoming_counter@,
                                        strings,
                                        i as int,
                                        (#[trigger] features@[j])@,
                                    ),
                                forall|b: Seq<u8>|
                                    #[trigger] holds_bytes(barcodes@, b) <==> (holds_bytes(b0, b)
                                        || cell_barcodes(incoming_counter@, i as int, b)),
                            decreases incoming_counter.len() - i,
                        {
                            let cell = &incoming_counter[i];
                            let ghost features_before = features@;
                            let ghost barcodes_before = barcodes@;
                            let ghost entries_before = entries@;
                            match interner.resolve(cell.token) {
                                Some(feature_str) => {
                                    let feature_idx = add_string(features, feature_str);
                                    let feature_count = features.len();
                                    assert(feature_idx < feature_count);
                                    add_bytes(barcodes, &cell.barcode);
                                    *entry_count = entry_count.saturating_add(1);
                                    entries.push(
                                        MatrixEntry {
                                            feature: feature_idx + 1,
                                            barcode: clone_bytes(cell.barcode.as_slice()),
                                            value: cell.count,
                                        },
                                    );
                                    proof {
                                        let cells_now = incoming_counter@.take(i + 1);
                                        assert(features_before.is_prefix_of(features@));
                                        assert forall|k: int|
                                            0 <= k < entries@.len() implies {
                                            &&& (#[trigger] entries@[k]).barcode@
                                                == cells_now[k].barcode@
                                            &&& entries@[k].value == cells_now[k].count
                                            &&& 1 <= entries@[k].feature <= features@.len()
                                            &&& features@[entries@[k].feature - 1]@
                                                == strings[cells_now[k].token as int]
                                        } by {
                                            if k < i {
                                                assert(entries@[k] == entries_before[k]);
                                                assert(incoming_counter@.take(i as int)[k]
                                                    == cells_now[k]);
                                                assert(features@[entries@[k].feature - 1]
                                                    == features_before[entries@[k].feature - 1]);
                                            }
                                        }
                                        assert forall|j: int|
                                            f0.len() <= j < features@.len() implies cell_names(
                                            incoming_counter@,
                                            strings,
                                            i + 1,
                                            (#[trigger] features@[j])@,
                                        ) by {
                                            if j < features_before.len() {
                                                assert(features@[j] == features_before[j]);
                                                assert(cell_names(
                                                    incoming_counter@,
                                                    strings,
                                                    i as int,
                                                    features_before[j]@,
                                                ));
                                                let k = choose|k: int|
                                                    0 <= k < i && k < incoming_counter@.len()
                                                        && strings[(
                                                    #[trigger] incoming_counter@[k]).token as int]
                                                        == features_before[j]@;
                                                assert(strings[incoming_counter@[k].token as int]
                                                    == features@[j]@);
                                            } else {
                                                assert(strings[incoming_counter@[i as int].token as int]
                                                    == features@[j]@);
                                            }
                                        }
                                        assert forall|b: Seq<u8>|
                                            #[trigger] holds_bytes(barcodes@, b) <==> (holds_bytes(
                                                b0,
                                                b,
                                            ) || cell_barcodes(incoming_counter@, i + 1, b)) by {
                                            assert(holds_bytes(barcodes_before, b) <==> (
                                            holds_bytes(b0, b) || cell_barcodes(
                                                incoming_counter@,
                                                i as int,
                                                b,
                                            )));
                                            if cell_barcodes(incoming_counter@, i + 1, b) {
                                                let k = choose|k: int|
                                                    0 <= k < i + 1 && k < incoming_counter@.len() && (
                                                    #[trigger] incoming_counter@[k]).barcode@ == b;
                                                if k < i {
                                                    assert(incoming_counter@[k].barcode@ == b);
                                                    assert(cell_barcodes(
                                                        incoming_counter@,
                                                        i as int,
                                                        b,
                                                    ));
                                                }
                                            }
                                            if cell_barcodes(incoming_counter@, i as int, b) {
                                                let k = choose|k: int|
                                                    0 <= k < i && k < incoming_counter@.len() && (
                                                    #[trigger] incoming_counter@[k]).barcode@ == b;
                                                assert(incoming_counter@[k].barcode@ == b);
                                            }
                                            if b == cell.barcode@ {
                                                assert(incoming_counter@[i as int].barcode@ == b);
                                            }
                                        }
                                    }
                                },
                                None => {
                                    assert(false);
                                },
                            }
                            i = i + 1;
                        }
                        proof {
                            assert(incoming_counter@.take(incoming_counter@.len() as int)
                                =~= incoming_counter@);
                        }
                    },
                    CounterPerChunk::PerRegion { .. } => {
                        assert(false);
                    },
                }
                entries
            },
        }
    }
}

/// One line of the statistics: the category's name and its count.
pub open spec fn spec_stat_line(name: Seq<char>, count: usize) -> Seq<char> {
    name + "\t"@ + spec_decimal(count as nat) + "\n"@
}

/// The statistics file: a header and one line per category, in the
/// lexicographic order of the categories' names, zeros included.
pub open spec fn spec_stats_text(stats: Stats) -> Seq<char> {
    "stat\tcount\n"@ + spec_stat_line("ambiguous"@, stats.ambiguous) + spec_stat_line(
        "barcode_not_in_whitelist"@,
        stats.barcode_not_in_whitelist,
    ) + spec_stat_line("correct"@, stats.correct) + spec_stat_line("duplicate"@, stats.duplicate)
        + spec_stat_line("filtered"@, stats.filtered) + spec_stat_line(
        "no_barcode"@,
        stats.no_barcode,
    ) + spec_stat_line("no_umi"@, stats.no_umi) + spec_stat_line("outside"@, stats.outside)
        + spec_stat_line("reverse"@, stats.reverse)
}

fn push_stat_line(text: &mut String, name: &str, count: usize)
    ensures
        final(text)@ == old(text)@ + spec_stat_line(name@, count),
{
    text.append(name);
    text.append("\t");
    text.append(decimal(count as u64).as_str());
    text.append("\n");
    assert(text@ =~= old(text)@ + spec_stat_line(name@, count));
}

/// The text of the statistics file.
pub fn render_stats(stats: &Stats) -> (text: String)
    ensures
        text@ == spec_stats_text(*stats),
{
    let mut text = String::from_str("stat\tcount\n");
    push_stat_line(&mut text, "ambiguous", stats.ambiguous);
    push_stat_line(&mut text, "barcode_not_in_whitelist", stats.barcode_not_in_whitelist);
    push_stat_line(&mut text, "correct", stats.correct);
    push_stat_line(&mut text, "duplicate", stats.duplicate);
    push_stat_line(&mut text, "filtered", stats.filtered);
    push_stat_line(&mut text, "no_barcode", stats.no_barcode);
    push_stat_line(&mut text, "no_umi", stats.no_umi);
    push_stat_line(&mut text, "outside", stats.outside);
    push_stat_line(&mut text, "reverse", stats.reverse);
    text
}

/// The name of the statistics file that goes with an output file.
pub fn stats_filename(output_filename: &String) -> (name: String)
    ensures
        name@ == output_filename@ + ".stats.tsv"@,
{
    let mut name = clone_string(output_filename);
    name.append(".stats.tsv");
    name
}

/// The header of the table of counts.
pub open spec fn spec_counts_header(id_attribute: Seq<char>, first_column_only: bool) -> Seq<char> {
    if first_column_only {
        id_attribute + "\tcount\n"@
    } else {
        id_attribute + "\tcount_correct\tcount_reverse\n"@
    }
}

/// One row of the table of counts.
pub open spec fn spec_count_line(key: Seq<char>, counts: (usize, usize), first_column_only: bool) -> Seq<
    char,
> {
    if first_column_only {
        key + "\t"@ + spec_decimal(counts.0 as nat) + "\n"@
    } else {
        key + "\t"@ + spec_decimal(counts.0 as nat) + "\t"@ + spec_decimal(counts.1 as nat)
            + "\n"@
    }
}

/// The first `n` rows of the table of counts, one per key, in the order of
/// the keys; a key without counts has zeros.
pub open spec fn spec_count_lines(
    keys: Seq<String>,
    counts: CountsMap,
    first_column_only: bool,
    n: int,
) -> Seq<char>
    decreases n,
{
    if n <= 0 {
        Seq::empty()
    } else {
        spec_count_lines(keys, counts, first_column_only, n - 1) + spec_count_line(
            keys[n - 1]@,
            counts_or_zero(counts, keys[n - 1]@),
            first_column_only,
        )
    }
}

/// The counts kept under `name`; zeros where there are none.
fn lookup_counts(entries: &Vec<RegionCount>, name: &String) -> (c: (usize, usize))
    requires
        names_distinct(entries@),
    ensures
        c == counts_or_zero(counts_map(entries@), name@),
{
    proof {
        lemma_counts_map(entries@);
    }
    let mut i: usize = 0;
    while i < entries.len()
        invariant
            0 <= i <= entries.len(),
            forall|j: int| 0 <= j < i ==> (#[trigger] entries@[j]).name@ != name@,
            forall|j: int|
                0 <= j < entries@.len() ==> counts_map(entries@).contains_key(
                    (#[trigger] entries@[j]).name@,
                ) && counts_map(entries@)[entries@[j].name@] == (
                    entries@[j].correct,
                    entries@[j].reverse,
                ),
        decreases entries.len() - i,
    {
        if entries[i].name == *name {
            return (entries[i].correct, entries[i].reverse);
        }
        i = i + 1;
    }
    proof {
        lemma_counts_map(entries@);
        if counts_map(entries@).contains_key(name@) {
            let j = choose|j: int| 0 <= j < entries@.len() && (#[trigger] entries@[j]).name@ == name@;
            assert(false);
        }
    }
    (0, 0)
}

/// What is written when the last chunk is done: the name of each file and
/// its content.
#[derive(Debug)]
pub struct OutputFile {
    pub filename: String,
    pub content: Vec<u8>,
}

impl Output {
    /// The keys of the table's rows: those given beforehand, in the order
    /// given, or else the names of the features that were counted, in
    /// lexicographic order.
    pub fn row_keys(&self) -> (keys: Vec<String>)
        requires
            self.wf(),
        ensures
            match self {
                Output::PerRegion { sorted_keys: Some(given), .. } => keys@ == given@,
                Output::PerRegion { sorted_keys: None, counter, .. } => exists|names: Seq<String>|
                    #![trigger is_sorted_strings(names, keys@)]
                    is_sorted_strings(names, keys@) && names.len() == counter@.len() && forall|
                        i: int,
                    |
                        0 <= i < names.len() ==> (#[trigger] names[i]) == counter@[i].name,
                Output::SingleCell { .. } => keys@.len() == 0,
            },
    {
        match self {
            Output::PerRegion { sorted_keys, counter, .. } => {
                match sorted_keys {
                    Some(given) => {
                        let mut keys: Vec<String> = Vec::new();
                        let mut i: usize = 0;
                        while i < given.len()
                            invariant
                                0 <= i <= given.len(),
                                keys@ == given@.take(i as int),
                            decreases given.len() - i,
                        {
                            keys.push(clone_string(&given[i]));
                            assert(keys@ =~= given@.take(i + 1));
                            i = i + 1;
                        }
                        assert(given@.take(given@.len() as int) =~= given@);
                        keys
                    },
                    None => {
                        let mut names: Vec<String> = Vec::new();
                        let mut i: usize = 0;
                        while i < counter.len()
                            invariant
                                0 <= i <= counter.len(),
                                names@.len() == i,
                                forall|j: int| 0 <= j < i ==> (#[trigger] names@[j]) == counter@[j].name,
                            decreases counter.len() - i,
                        {
                            names.push(clone_string(&counter[i].name));
                            i = i + 1;
                        }
                        let keys = sorted_strings(&names);
                        assert(is_sorted_strings(names@, keys@));
                        keys
                    },
                }
            },
            Output::SingleCell { .. } => Vec::new(),
        }
    }

    /// The table of counts with one row per key.
    pub open spec fn spec_counts_text(&self, keys: Seq<String>) -> Seq<char> {
        match self {
            Output::PerRegion { first_column_only, id_attribute, counter, .. } => spec_counts_header(
                id_attribute@,
                *first_column_only,
            ) + spec_count_lines(keys, counts_map(counter@), *first_column_only, keys.len() as int),
            Output::SingleCell { .. } => Seq::empty(),
        }
    }

    /// The text of the table of counts: a header, and one row per key with
    /// the count of agreeing reads and, unless only that column is wanted,
    /// the count of disagreeing reads.
    pub fn render_counts(&self, keys: &Vec<String>) -> (text: String)
        requires
            self.wf(),
        ensures
            text@ == self.spec_counts_text(keys@),
    {
        match self {
            Output::PerRegion { first_column_only, id_attribute, counter, .. } => {
                let mut text = clone_string(id_attribute);
                if *first_column_only {
                    text.append("\tcount\n");
                } else {
                    text.append("\tcount_correct\tcount_reverse\n");
                }
                let ghost header = text@;
                let mut i: usize = 0;
                while i < keys.len()
                    invariant
                        0 <= i <= keys.len(),
                        names_distinct(counter@),
                        text@ == header + spec_count_lines(
                            keys@,
                            counts_map(counter@),
                            *first_column_only,
                            i as int,
                        ),
                    decreases keys.len() - i,
                {
                    let c = lookup_counts(counter, &keys[i]);
                    let ghost before = text@;
                    text.append(keys[i].as_str());
                    text.append("\t");
                    text.append(decimal(c.0 as u64).as_str());
                    if !*first_column_only {
                        text.append("\t");
                        text.append(decimal(c.1 as u64).as_str());
                    }
                    text.append("\n");
                    proof {
                        assert(text@ =~= before + spec_count_line(keys@[i as int]@, c, *first_column_only));
                        assert(text@ =~= header + spec_count_lines(
                            keys@,
                            counts_map(counter@),
                            *first_column_only,
                            i + 1,
                        ));
                    }
                    i = i + 1;
                }
                text
            },
            Output::SingleCell { .. } => String::new(),
        }
    }

    /// The features file: one feature per line, in the order of the rows.
    pub open spec fn spec_features_text(features: Seq<String>, n: int) -> Seq<char>
        decreases n,
    {
        if n <= 0 {
            Seq::empty()
        } else {
            Self::spec_features_text(features, n - 1) + features[n - 1]@ + "\n"@
        }
    }

    pub fn render_features(&self) -> (text: String)
        ensures
            text@ == Self::spec_features_text(
                self.spec_features(),
                self.spec_features().len() as int,
            ),
    {
        let mut text = String::new();
        match self {
            Output::SingleCell { features, .. } => {
                let mut i: usize = 0;
                while i < features.len()
                    invariant
                        0 <= i <= features.len(),
                        text@ == Self::spec_features_text(features@, i as int),
                    decreases features.len() - i,
                {
                    let ghost before = text@;
                    text.append(features[i].as_str());
                    text.append("\n");
                    assert(text@ =~= before + features@[i as int]@ + "\n"@);
                    i = i + 1;
                }
            },
            Output::PerRegion { .. } => {},
        }
        text
    }

    /// The barcodes seen, in lexicographic order: the order of the
    /// matrix's columns.
    pub fn sorted_barcodes(&self) -> (sorted: Vec<Vec<u8>>)
        ensures
            is_sorted_bytes(self.spec_barcodes(), sorted@),
    {
        match self {
            Output::SingleCell { barcodes, .. } => sorted_byte_strings(barcodes),
            Output::PerRegion { .. } => {
                let empty: Vec<Vec<u8>> = Vec::new();
                sorted_byte_strings(&empty)
            },
        }
    }

    /// The header of the matrix file: the banner and a comment line, then
    /// the numbers of rows, columns and entries.
    pub open spec fn spec_matrix_header(rows: usize, columns: usize, entries: usize) -> Seq<char> {
        "%%MatrixMarket matrix coordinate integer general\n%\n"@ + spec_decimal(rows as nat)
            + " "@ + spec_decimal(columns as nat) + " "@ + spec_decimal(entries as nat) + "\n"@
    }

    pub fn render_matrix_header(&self) -> (text: String)
        ensures
            text@ == Self::spec_matrix_header(
                self.spec_features().len() as usize,
                self.spec_barcodes().len() as usize,
                self.spec_entry_count(),
            ),
    {
        let (rows, columns, entries): (usize, usize, usize) = match self {
            Output::SingleCell { features, barcodes, entry_count, .. } => (
                features.len(),
                barcodes.len(),
                *entry_count,
            ),
            Output::PerRegion { .. } => (0, 0, 0),
        };
        let mut text = String::from_str("%%MatrixMarket matrix coordinate integer general\n%\n");
        text.append(decimal(rows as u64).as_str());
        text.append(" ");
        text.append(decimal(columns as u64).as_str());
        text.append(" ");
        text.append(decimal(entries as u64).as_str());
        text.append("\n");
        assert(text@ =~= Self::spec_matrix_header(rows, columns, entries));
        text
    }
}

/// The barcodes file: one barcode per line, in the order given.
pub open spec fn spec_barcodes_text(barcodes: Seq<Vec<u8>>, n: int) -> Seq<u8>
    decreases n,
{
    if n <= 0 {
        Seq::empty()
    } else {
        (spec_barcodes_text(barcodes, n - 1) + barcodes[n - 1]@).push(10u8)
    }
}

fn push_bytes(out: &mut Vec<u8>, bytes: &[u8])
    ensures
        final(out)@ == old(out)@ + bytes@,
{
    let mut j: usize = 0;
    while j < bytes.len()
        invariant
            0 <= j <= bytes.len(),
            out@ == old(out)@ + bytes@.take(j as int),
        decreases bytes.len() - j,
    {
        out.push(bytes[j]);
        assert(out@ =~= old(out)@ + bytes@.take(j + 1));
        j = j + 1;
    }
    assert(bytes@.take(bytes@.len() as int) =~= bytes@);
}

/// The content of the barcodes file.
pub fn render_barcodes(barcodes: &Vec<Vec<u8>>) -> (text: Vec<u8>)
    ensures
        text@ == spec_barcodes_text(barcodes@, barcodes@.len() as int),
{
    let mut text: Vec<u8> = Vec::new();
    let mut i: usize = 0;
    while i < barcodes.len()
        invariant
            0 <= i <= barcodes.len(),
            text@ == spec_barcodes_text(barcodes@, i as int),
        decreases barcodes.len() - i,
    {
        push_bytes(&mut text, barcodes[i].as_slice());
        text.push(10u8);
        i = i + 1;
    }
    text
}

/// One line of the matrix file: the entry's row, the column of its barcode
/// and its count. The column is the place of the barcode among the sorted
/// barcodes, counted from 1.
pub open spec fn spec_matrix_line(feature: usize, column: int, value: usize) -> Seq<char> {
    spec_decimal(feature as nat) + " "@ + spec_decimal(column as nat) + " "@ + spec_decimal(
        value as nat,
    ) + "\n"@
}

/// The line of the matrix file for one entry; nothing if its barcode is not
/// among the sorted barcodes.
pub fn render_matrix_line(entry: &MatrixEntry, sorted_barcodes: &Vec<Vec<u8>>) -> (line: Option<String>)
    ensures
        line.is_some() == holds_bytes(sorted_barcodes@, entry.barcode@),
        line.is_some() ==> exists|at: int|
            0 <= at < sorted_barcodes@.len() && (#[trigger] sorted_barcodes@[at])@ == entry.barcode@
                && (forall|j: int| 0 <= j < at ==> (#[trigger] sorted_barcodes@[j])@ != entry.barcode@)
                && line.unwrap()@ == spec_matrix_line(entry.feature, at + 1, entry.value),
{
    match bytes_position(sorted_barcodes, entry.barcode.as_slice()) {
        Some(at) => {
            let count = sorted_barcodes.len();
            let mut line = decimal(entry.feature as u64);
            line.append(" ");
            line.append(decimal(at as u64 + 1).as_str());
            line.append(" ");
            line.append(decimal(entry.value as u64).as_str());
            line.append("\n");
            assert(line@ =~= spec_matrix_line(entry.feature, at + 1, entry.value));
            assert(sorted_barcodes@[at as int]@ == entry.barcode@);
            Some(line)
        },
        None => None,
    }
}

/// The line under which a matrix entry is staged until all barcodes are
/// known: its row, its barcode and its count, with blanks between them.
pub open spec fn spec_staged_line(entry: MatrixEntry) -> Seq<u8> {
    ((encode_utf8(spec_decimal(entry.feature as nat)).push(32u8) + entry.barcode@).push(32u8)
        + encode_utf8(spec_decimal(entry.value as nat))).push(10u8)
}

/// The line under which a matrix entry is staged.
pub fn render_staged_line(entry: &MatrixEntry) -> (line: Vec<u8>)
    ensures
        line@ == spec_staged_line(*entry),
{
    let mut line: Vec<u8> = decimal(entry.feature as u64).as_str().as_bytes_vec();
    line.push(32u8);
    push_bytes(&mut line, entry.barcode.as_slice());
    line.push(32u8);
    let value = decimal(entry.value as u64).as_str().as_bytes_vec();
    push_bytes(&mut line, value.as_slice());
    line.push(10u8);
    assert(line@ =~= spec_staged_line(*entry));
    line
}

/// Where the word at the start of `b` ends: at its first white space, or at
/// the end.
pub open spec fn spec_word_end(b: Seq<u8>) -> int
    decreases b.len(),
{
    if b.len() == 0 || spec_is_space(b[0]) {
        0
    } else {
        1 + spec_word_end(b.drop_first())
    }
}

/// The first `n` words of a line: what stands between white space.
pub open spec fn spec_words(b: Seq<u8>, n: int) -> Seq<Seq<u8>>
    decreases n,
{
    let p = spec_trim_start(b);
    if n <= 0 || p.len() == 0 {
        Seq::empty()
    } else {
        let k = spec_word_end(p);
        seq![p.take(k)] + spec_words(p.skip(k), n - 1)
    }
}

/// The matrix entry that a staged line holds: its first three words are
/// row, barcode and count. Nothing if the line has fewer words or if row or
/// count is no number.
pub open spec fn spec_parse_staged(line: Seq<u8>) -> Option<(usize, Seq<u8>, usize)> {
    let words = spec_words(line, 3);
    if words.len() < 3 {
        None
    } else {
        match (spec_parse_u64(words[0]), spec_parse_u64(words[2])) {
            (Some(feature), Some(value)) => if feature <= usize::MAX && value <= usize::MAX {
                Some((feature as usize, words[1], value as usize))
            } else {
                None
            },
            _ => None,
        }
    }
}

/// The bytes of the decimal digits of a number are digits, and their value
/// is the number.
proof fn lemma_decimal_value(n: nat)
    ensures
        encode_utf8(spec_decimal(n)).len() >= 1,
        spec_all_digits(encode_utf8(spec_decimal(n))),
        spec_digits_value(encode_utf8(spec_decimal(n))) == n,
    decreases n,
{
    let digits = spec_decimal(n);
    let bytes = encode_utf8(digits);
    lemma_decimal_digits(n);
    assert(is_ascii_chars(digits));
    is_ascii_chars_encode_utf8(digits);
    assert forall|i: int| 0 <= i < bytes.len() implies 48 <= #[trigger] bytes[i] <= 57 by {
        assert(bytes[i] == digits[i] as u8);
    }
    if n < 10 {
        assert(bytes.last() == digits[0] as u8);
        assert(bytes.drop_last() =~= Seq::<u8>::empty());
        assert(spec_digits_value(bytes.drop_last()) == 0);
    } else {
        let shorter = spec_decimal(n / 10);
        lemma_decimal_value(n / 10);
        lemma_decimal_digits(n / 10);
        assert(is_ascii_chars(shorter));
        is_ascii_chars_encode_utf8(shorter);
        assert(digits.drop_last() =~= shorter);
        assert(bytes.drop_last() =~= encode_utf8(shorter)) by {
            assert forall|i: int| 0 <= i < shorter.len() implies bytes.drop_last()[i]
                == encode_utf8(shorter)[i] by {
                assert(bytes[i] == digits[i] as u8);
                assert(encode_utf8(shorter)[i] == shorter[i] as u8);
            }
        }
        assert(bytes.last() == digits.last() as u8);
    }
}

/// A word goes up to the white space that follows it.
proof fn lemma_word_end(word: Seq<u8>, rest: Seq<u8>)
    requires
        forall|i: int| 0 <= i < word.len() ==> !spec_is_space(#[trigger] word[i]),
        rest.len() == 0 || spec_is_space(rest[0]),
    ensures
        spec_word_end(word + rest) == word.len(),
    decreases word.len(),
{
    if word.len() == 0 {
        assert(word + rest =~= rest);
    } else {
        assert((word + rest)[0] == word[0]);
        assert((word + rest).drop_first() =~= word.drop_first() + rest);
        assert forall|i: int| 0 <= i < word.drop_first().len() implies !spec_is_space(
            #[trigger] word.drop_first()[i],
        ) by {
            assert(word.drop_first()[i] == word[i + 1]);
        }
        lemma_word_end(word.drop_first(), rest);
    }
}

/// A word at the start of a line is the line's first word.
proof fn lemma_first_word(word: Seq<u8>, rest: Seq<u8>, n: int)
    requires
        n >= 1,
        word.len() > 0,
        forall|i: int| 0 <= i < word.len() ==> !spec_is_space(#[trigger] word[i]),
        rest.len() == 0 || spec_is_space(rest[0]),
    ensures
        spec_words(word + rest, n) == seq![word] + spec_words(rest, n - 1),
{
    let line = word + rest;
    assert(line[0] == word[0]);
    assert(spec_trim_start(line) == line);
    lemma_word_end(word, rest);
    assert(line.take(word.len() as int) =~= word);
    assert(line.skip(word.len() as int) =~= rest);
}

/// A blank before a line does not change the line's words.
proof fn lemma_words_after_blank(rest: Seq<u8>, n: int)
    ensures
        spec_words(seq![32u8] + rest, n) == spec_words(rest, n),
{
    let line = seq![32u8] + rest;
    assert(spec_is_space(line[0]));
    assert(line.drop_first() =~= rest);
    assert(spec_trim_start(line) == spec_trim_start(rest));
}

/// A staged line gives back the matrix entry that it was made of, if the
/// barcode is not empty and holds no white space.
pub proof fn lemma_staged_line_read_back(entry: MatrixEntry)
    requires
        entry.barcode@.len() > 0,
        forall|i: int| 0 <= i < entry.barcode@.len() ==> !spec_is_space(#[trigger] entry.barcode@[i]),
    ensures
        spec_parse_staged(spec_staged_line(entry)) == Some(
            (entry.feature, entry.barcode@, entry.value),
        ),
{
    let feature = encode_utf8(spec_decimal(entry.feature as nat));
    let value = encode_utf8(spec_decimal(entry.value as nat));
    let barcode = entry.barcode@;
    lemma_decimal_value(entry.feature as nat);
    lemma_decimal_value(entry.value as nat);
    let tail = seq![10u8];
    let third = value + tail;
    let second = barcode + (seq![32u8] + third);
    let line = feature + (seq![32u8] + second);
    assert(spec_staged_line(entry) =~= line);
    assert(spec_is_space(32u8) && spec_is_space(10u8));
    assert forall|i: int| 0 <= i < feature.len() implies !spec_is_space(#[trigger] feature[i]) by {}
    assert forall|i: int| 0 <= i < value.len() implies !spec_is_space(#[trigger] value[i]) by {}
    lemma_first_word(feature, seq![32u8] + second, 3);
    lemma_words_after_blank(second, 2);
    lemma_first_word(barcode, seq![32u8] + third, 2);
    lemma_words_after_blank(third, 1);
    lemma_first_word(value, tail, 1);
    assert(spec_words(tail, 0) =~= Seq::<Seq<u8>>::empty());
    let words = spec_words(line, 3);
    assert(words =~= seq![feature, barcode, value]);
    assert(feature[0] != 43u8 && value[0] != 43u8);
}

/// The place of the word that starts at or after `from`: white space is
/// passed over, and the word goes up to the next white space. The place is
/// empty if no word follows.
fn next_word(line: &[u8], from: usize) -> (r: (usize, usize))
    requires
        from <= line@.len(),
    ensures
        from <= r.0 <= r.1 <= line@.len(),
        forall|n: int|
            n >= 1 ==> #[trigger] spec_words(line@.subrange(from as int, line@.len() as int), n)
                == if r.0 == r.1 {
                Seq::<Seq<u8>>::empty()
            } else {
                seq![line@.subrange(r.0 as int, r.1 as int)] + spec_words(
                    line@.subrange(r.1 as int, line@.len() as int),
                    n - 1,
                )
            },
{
    let n = line.len();
    let start = trim_start(line, from, n);
    let mut end = start;
    let ghost p = line@.subrange(start as int, n as int);
    assert(p.skip(0) =~= p);
    while end < n && !is_space(line[end])
        invariant
            start <= end <= n,
            n == line@.len(),
            p == line@.subrange(start as int, n as int),
            spec_word_end(p) == (end - start) + spec_word_end(p.skip(end - start)),
        decreases n - end,
    {
        proof {
            let cur = p.skip(end - start);
            assert(cur[0] == line@[end as int]);
            assert(cur.drop_first() =~= p.skip(end - start + 1));
        }
        end = end + 1;
    }
    proof {
        let cur = p.skip(end - start);
        if end < n {
            assert(cur[0] == line@[end as int]);
        }
        assert(spec_word_end(p) == end - start);
        let whole = line@.subrange(from as int, n as int);
        assert(p == spec_trim_start(whole));
        lemma_trimmed(whole);
        if p.len() > 0 {
            assert(p[0] == line@[start as int]);
            assert(start < end);
        }
        assert(p.take(end - start) =~= line@.subrange(start as int, end as int));
        assert(p.skip(end - start) =~= line@.subrange(end as int, n as int));
    }
    (start, end)
}

/// The matrix entry that a staged line holds.
pub fn parse_staged_line(line: &[u8]) -> (entry: Option<MatrixEntry>)
    ensures
        match (entry, spec_parse_staged(line@)) {
            (Some(e), Some(want)) => e.feature == want.0 && e.barcode@ == want.1 && e.value
                == want.2,
            (None, None) => true,
            _ => false,
        },
{
    let n = line.len();
    assert(line@.subrange(0, n as int) =~= line@);
    let (a0, a1) = next_word(line, 0);
    let ghost w0 = spec_words(line@, 3);
    if a0 == a1 {
        return None;
    }
    let (b0, b1) = next_word(line, a1);
    let ghost w1 = spec_words(line@.subrange(a1 as int, n as int), 2);
    assert(w0 == seq![line@.subrange(a0 as int, a1 as int)] + w1);
    if b0 == b1 {
        return None;
    }
    let (c0, c1) = next_word(line, b1);
    let ghost w2 = spec_words(line@.subrange(b1 as int, n as int), 1);
    assert(w1 == seq![line@.subrange(b0 as int, b1 as int)] + w2);
    if c0 == c1 {
        return None;
    }
    proof {
        assert(spec_words(line@.subrange(c1 as int, n as int), 0) =~= Seq::<Seq<u8>>::empty());
        assert(w2 =~= seq![line@.subrange(c0 as int, c1 as int)]);
        assert(w0.len() == 3);
        assert(w0[0] == line@.subrange(a0 as int, a1 as int));
        assert(w0[1] == line@.subrange(b0 as int, b1 as int));
        assert(w0[2] == line@.subrange(c0 as int, c1 as int));
    }
    let feature = parse_u64(line, a0, a1);
    let value = parse_u64(line, c0, c1);
    match (feature, value) {
        (Some(feature), Some(value)) => {
            if feature > usize::MAX as u64 || value > usize::MAX as u64 {
                return None;
            }
            Some(
                MatrixEntry {
                    feature: feature as usize,
                    barcode: slice_to_vec(slice_subrange(line, b0, b1)),
                    value: value as usize,
                },
            )
        },
        _ => None,
    }
}

/// What is left of bytes without the white space at their start does not
/// start with white space.
proof fn lemma_trimmed(b: Seq<u8>)
    ensures
        spec_trim_start(b).len() > 0 ==> !spec_is_space(spec_trim_start(b)[0]),
    decreases b.len(),
{
    if b.len() > 0 && spec_is_space(b[0]) {
        lemma_trimmed(b.drop_first());
    }
}

} // verus!
