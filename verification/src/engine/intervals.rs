use std::ops::Range;
use vstd::prelude::*;
use vstd::set_lib::*;

verus! {

/// Whether the integer `p` lies inside at least one of the half-open intervals.
/// An interval whose end is not above its start holds no point.
pub open spec fn covered(ivs: Seq<Range<u32>>, p: int) -> bool {
    exists|i: int| 0 <= i < ivs.len() && (#[trigger] ivs[i]).start <= p < ivs[i].end
}

/// The integer points that the intervals cover together.
pub open spec fn covered_points(ivs: Seq<Range<u32>>) -> Set<int> {
    Set::new(|p: int| covered(ivs, p))
}

/// Ascending by start, and by end among equal starts.
pub open spec fn sorted_by_start(ivs: Seq<Range<u32>>) -> bool {
    forall|i: int, j: int|
        0 <= i < j < ivs.len() ==> (#[trigger] ivs[i]).start < (#[trigger] ivs[j]).start || (
        ivs[i].start == ivs[j].start && ivs[i].end <= ivs[j].end)
}

/// `<[T]>::sort_by_key` of std, keyed by `(start, end)`: the slice keeps its
/// elements and its length, and ends up in ascending order of that pair.
#[verifier::external_body]
fn sort_intervals(ivs: &mut [Range<u32>])
    ensures
        final(ivs)@.len() == old(ivs)@.len(),
        final(ivs)@.to_multiset() == old(ivs)@.to_multiset(),
        sorted_by_start(final(ivs)@),
{
    ivs.sort_by_key(|iv| (iv.start, iv.end));
}

/// Two lists with the same elements cover the same points.
pub proof fn lemma_covered_points_of_permutation(a: Seq<Range<u32>>, b: Seq<Range<u32>>)
    requires
        a.to_multiset() == b.to_multiset(),
    ensures
        covered_points(a) == covered_points(b),
{
    broadcast use vstd::seq_lib::group_to_multiset_ensures;

    assert forall|p: int| covered(a, p) <==> covered(b, p) by {
        if covered(a, p) {
            let i = choose|i: int| 0 <= i < a.len() && (#[trigger] a[i]).start <= p < a[i].end;
            assert(a.contains(a[i]));
            assert(b.to_multiset().count(a[i]) > 0);
            assert(b.contains(a[i]));
            let j = choose|j: int| 0 <= j < b.len() && b[j] == a[i];
            assert(b[j].start <= p < b[j].end);
        }
        if covered(b, p) {
            let i = choose|i: int| 0 <= i < b.len() && (#[trigger] b[i]).start <= p < b[i].end;
            assert(b.contains(b[i]));
            assert(a.to_multiset().count(b[i]) > 0);
            assert(a.contains(b[i]));
            let j = choose|j: int| 0 <= j < a.len() && a[j] == b[i];
            assert(a[j].start <= p < a[j].end);
        }
    }
    assert(covered_points(a) =~= covered_points(b));
}

/// One more interval adds exactly its own points.
proof fn lemma_covered_points_push(s: Seq<Range<u32>>, k: int)
    requires
        0 <= k < s.len(),
    ensures
        covered_points(s.take(k + 1)) == covered_points(s.take(k)) + set_int_range(
            s[k].start as int,
            s[k].end as int,
        ),
{
    let a = s.take(k);
    let b = s.take(k + 1);
    let extra = set_int_range(s[k].start as int, s[k].end as int);
    assert forall|p: int| covered(b, p) <==> (covered(a, p) || extra.contains(p)) by {
        if covered(b, p) {
            let i = choose|i: int| 0 <= i < b.len() && (#[trigger] b[i]).start <= p < b[i].end;
            if i < k {
                assert(a[i] == b[i]);
            }
        }
        if covered(a, p) {
            let i = choose|i: int| 0 <= i < a.len() && (#[trigger] a[i]).start <= p < a[i].end;
            assert(b[i] == a[i]);
        }
        if extra.contains(p) {
            assert(b[k] == s[k]);
        }
    }
    assert(covered_points(b) =~= covered_points(a) + extra);
}

/// Length of the union of intervals that may overlap: the number of integer
/// points that lie in at least one of them. The slice is left sorted by start.
pub fn merged_interval_length(ivs: &mut [Range<u32>]) -> (total: usize)
    ensures
        total == covered_points(old(ivs)@).len(),
        covered_points(old(ivs)@).finite(),
        final(ivs)@.to_multiset() == old(ivs)@.to_multiset(),
        sorted_by_start(final(ivs)@),
{
    if ivs.len() == 0 {
        assert(covered_points(ivs@) =~= Set::<int>::empty());
        return 0;
    }
    sort_intervals(ivs);
    proof {
        lemma_covered_points_of_permutation(ivs@, old(ivs)@);
    }
    let n = ivs.len();
    let mut current_start: u32 = ivs[0].start;
    let mut current_end: u32 = ivs[0].end;
    let mut total: usize = 0;
    let ghost closed: Set<int> = Set::empty();
    proof {
        lemma_covered_points_push(ivs@, 0);
        assert(covered_points(ivs@.take(0)) =~= Set::<int>::empty());
        assert(covered_points(ivs@.take(1)) =~= closed + set_int_range(
            current_start as int,
            current_end as int,
        ));
    }
    let mut i: usize = 1;
    while i < n
        invariant
            1 <= i <= n,
            n == ivs@.len(),
            sorted_by_start(ivs@),
            closed.finite(),
            closed.len() == total,
            forall|p: int| closed.contains(p) ==> 0 <= p < current_start,
            forall|j: int| i <= j < n ==> current_start <= (#[trigger] ivs@[j]).start,
            covered_points(ivs@.take(i as int)) == closed + set_int_range(
                current_start as int,
                current_end as int,
            ),
        decreases n - i,
    {
        let iv_start: u32 = ivs[i].start;
        let iv_end: u32 = ivs[i].end;
        proof {
            lemma_covered_points_push(ivs@, i as int);
            lemma_int_range(0, current_start as int);
            assert(closed.subset_of(set_int_range(0, current_start as int)));
            lemma_len_subset(closed, set_int_range(0, current_start as int));
        }
        if iv_start <= current_end {
            let merged_end: u32 = if iv_end > current_end {
                iv_end
            } else {
                current_end
            };
            proof {
                assert(closed + set_int_range(current_start as int, current_end as int)
                    + set_int_range(iv_start as int, iv_end as int) =~= closed + set_int_range(
                    current_start as int,
                    merged_end as int,
                ));
            }
            current_end = merged_end;
        } else {
            let run: Ghost<Set<int>> = Ghost(
                set_int_range(current_start as int, current_end as int),
            );
            let width: u32 = current_end.saturating_sub(current_start);
            proof {
                if current_start <= current_end {
                    lemma_int_range(current_start as int, current_end as int);
                } else {
                    assert(run@ =~= Set::<int>::empty());
                }
                assert(closed.disjoint(run@));
                lemma_set_disjoint_lens(closed, run@);
                assert((closed + run@).finite());
                assert forall|j: int| i + 1 <= j < n implies iv_start <= (#[trigger] ivs@[j]).start by {
                    assert(ivs@[i as int].start <= ivs@[j].start);
                }
            }
            total = total + width as usize;
            proof {
                closed = closed + run@;
            }
            current_start = iv_start;
            current_end = iv_end;
        }
        i = i + 1;
    }
    let run: Ghost<Set<int>> = Ghost(set_int_range(current_start as int, current_end as int));
    let width: u32 = current_end.saturating_sub(current_start);
    proof {
        assert(ivs@.take(n as int) =~= ivs@);
        lemma_int_range(0, current_start as int);
        assert(closed.subset_of(set_int_range(0, current_start as int)));
        lemma_len_subset(closed, set_int_range(0, current_start as int));
        if current_start <= current_end {
            lemma_int_range(current_start as int, current_end as int);
        } else {
            assert(run@ =~= Set::<int>::empty());
        }
        assert(closed.disjoint(run@));
        lemma_set_disjoint_lens(closed, run@);
        assert((closed + run@).finite());
    }
    total = total + width as usize;
    total
}

} // verus!
