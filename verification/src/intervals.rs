//! The lowest number that a list of blocked ranges leaves free.

use vstd::prelude::*;

verus! {

/// `v` lies in `range`, whose two ends belong to it.
pub open spec fn covers(range: (i64, i64), v: int) -> bool {
    range.0 <= v <= range.1
}

/// Some range of `ranges` holds `v`.
pub open spec fn blocked(ranges: Seq<(i64, i64)>, v: int) -> bool {
    exists|i: int| 0 <= i < ranges.len() && covers(#[trigger] ranges[i], v)
}

/// The ranges come in ascending order of their lower ends.
pub open spec fn sorted_by_start(ranges: Seq<(i64, i64)>) -> bool {
    forall|i: int, j: int| 0 <= i <= j < ranges.len() ==> ranges[i].0 <= ranges[j].0
}

/// Calls `sort_by_key` of std's slices with the lower end of a range as its
/// key. std documents that the call sorts the slice by that key and keeps
/// its elements: afterwards the lower ends ascend, and every range occurs
/// as often as before.
#[verifier::external_body]
fn sort_by_start(ranges: &mut Vec<(i64, i64)>)
    ensures
        final(ranges)@.to_multiset() == old(ranges)@.to_multiset(),
        sorted_by_start(final(ranges)@),
{
    ranges.sort_by_key(|tuple| tuple.0);
}

/// Lists that hold the same ranges block the same numbers.
proof fn lemma_same_ranges_block_alike(a: Seq<(i64, i64)>, b: Seq<(i64, i64)>, v: int)
    requires
        a.to_multiset() == b.to_multiset(),
        blocked(a, v),
    ensures
        blocked(b, v),
{
    broadcast use vstd::seq_lib::group_to_multiset_ensures;

    let i = choose|i: int| 0 <= i < a.len() && covers(#[trigger] a[i], v);
    assert(a.contains(a[i]));
    assert(b.to_multiset().count(a[i]) > 0);
    assert(b.contains(a[i]));
    let j = choose|j: int| 0 <= j < b.len() && b[j] == a[i];
    assert(covers(b[j], v));
}

/// The lowest number from 0 upwards that no range of `ranges` holds, or
/// `None` where every number from 0 to the largest one is blocked.
pub fn lowest_unblocked(ranges: Vec<(i64, i64)>) -> (lowest: Option<i64>)
    ensures
        match lowest {
            Some(v) => v >= 0 && !blocked(ranges@, v as int) && forall|w: int|
                0 <= w < v ==> blocked(ranges@, w),
            None => forall|w: int| 0 <= w <= i64::MAX ==> blocked(ranges@, w),
        },
{
    let mut excluded_ranges = ranges;
    sort_by_start(&mut excluded_ranges);
    let ghost sorted = excluded_ranges@;
    let mut smlst_num: i64 = 0;
    for i in 0..excluded_ranges.len()
        invariant
            sorted == excluded_ranges@,
            sorted.to_multiset() == ranges@.to_multiset(),
            sorted_by_start(sorted),
            smlst_num >= 0,
            forall|w: int| 0 <= w < smlst_num ==> blocked(sorted, w),
            forall|j: int| 0 <= j < i ==> !covers(#[trigger] sorted[j], smlst_num as int),
    {
        let (start, end) = excluded_ranges[i];
        assert(sorted[i as int] == (start, end));
        if smlst_num >= start && smlst_num <= end {
            proof {
                assert forall|w: int| 0 <= w <= end implies blocked(sorted, w) by {
                    if w >= smlst_num {
                        assert(covers(sorted[i as int], w));
                    }
                }
            }
            if end == i64::MAX {
                proof {
                    assert forall|w: int| 0 <= w <= i64::MAX implies blocked(ranges@, w) by {
                        lemma_same_ranges_block_alike(sorted, ranges@, w);
                    }
                }
                return None;
            }
            proof {
                assert forall|j: int| 0 <= j < i + 1 implies !covers(
                    #[trigger] sorted[j],
                    end + 1,
                ) by {
                    if j < i && covers(sorted[j], end + 1) {
                        assert(sorted[j].0 <= sorted[i as int].0);
                        assert(covers(sorted[j], smlst_num as int));
                    }
                }
            }
            smlst_num = end + 1;
        }
    }
    proof {
        if blocked(ranges@, smlst_num as int) {
            lemma_same_ranges_block_alike(ranges@, sorted, smlst_num as int);
        }
        assert forall|w: int| 0 <= w < smlst_num implies blocked(ranges@, w) by {
            lemma_same_ranges_block_alike(sorted, ranges@, w);
        }
    }
    Some(smlst_num)
}

} // verus!
