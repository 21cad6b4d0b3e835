//! The business level of a troop: the product of its two largest inspection
//! counts, found in one pass with two running maxima.

use crate::day11::model::{troop, Monkey};
use crate::day11::rounds::{descending, inspection_counts, monkey_business, SimError};
use vstd::prelude::*;
use vstd::relations::{sorted_by, total_ordering};
use vstd::seq_lib::{
    lemma_sorted_unique, to_multiset_contains, to_multiset_len, to_multiset_remove,
};

verus! {

/// In a descending arrangement of `counts` the first number is the largest
/// of `counts`.
proof fn lemma_first_is_largest(sorted: Seq<nat>, counts: Seq<nat>, top: nat)
    requires
        sorted_by(sorted, descending()),
        sorted.to_multiset() == counts.to_multiset(),
        counts.contains(top),
        forall|k: int| 0 <= k < counts.len() ==> counts[k] <= top,
    ensures
        sorted.len() > 0,
        sorted[0] == top,
{
    to_multiset_contains(counts, top);
    to_multiset_contains(sorted, top);
    let t = choose|t: int| 0 <= t < sorted.len() && sorted[t] == top;
    if t > 0 {
        assert(descending()(sorted[0], sorted[t]));
    }
    assert(sorted.contains(sorted[0]));
    to_multiset_contains(sorted, sorted[0]);
    to_multiset_contains(counts, sorted[0]);
    let u = choose|u: int| 0 <= u < counts.len() && counts[u] == sorted[0];
    assert(counts[u] <= top);
}

/// If `counts[first]` is a largest count and `counts[second]` a largest of
/// the others, their product is the business level.
pub proof fn lemma_top_two(counts: Seq<nat>, first: int, second: int)
    requires
        0 <= first < counts.len(),
        0 <= second < counts.len(),
        first != second,
        counts[second] <= counts[first],
        forall|k: int| 0 <= k < counts.len() && k != first ==> counts[k] <= counts[second],
    ensures
        monkey_business(counts) == counts[first] * counts[second],
{
    let sorted = counts.sort_by(descending());
    assert(total_ordering(descending()));
    counts.lemma_sort_by_ensures(descending());
    to_multiset_len(counts);
    to_multiset_len(sorted);
    assert(counts.contains(counts[first]));
    lemma_first_is_largest(sorted, counts, counts[first]);
    let others = counts.remove(first);
    let tail = sorted.remove(0);
    to_multiset_remove(counts, first);
    to_multiset_remove(sorted, 0);
    assert(sorted_by(tail, descending())) by {
        assert forall|a: int, b: int| 0 <= a < b < tail.len() implies #[trigger] descending()(
            tail[a],
            tail[b],
        ) by {
            assert(descending()(sorted[a + 1], sorted[b + 1]));
        }
    }
    let moved = if second < first {
        second
    } else {
        second - 1
    };
    assert(others[moved] == counts[second]);
    assert(others.contains(counts[second]));
    assert forall|k: int| 0 <= k < others.len() implies others[k] <= counts[second] by {
        if k < first {
            assert(others[k] == counts[k]);
        } else {
            assert(others[k] == counts[k + 1]);
        }
    }
    lemma_first_is_largest(tail, others, counts[second]);
    assert(tail[0] == sorted[1]);
}

/// However the counts are brought into descending order, the product of the
/// first two is the business level.
pub proof fn lemma_business_of_sorted(counts: Seq<nat>, sorted: Seq<nat>)
    requires
        counts.len() >= 2,
        sorted_by(sorted, descending()),
        sorted.to_multiset() == counts.to_multiset(),
    ensures
        sorted.len() == counts.len(),
        monkey_business(counts) == sorted[0] * sorted[1],
{
    assert(total_ordering(descending()));
    counts.lemma_sort_by_ensures(descending());
    lemma_sorted_unique(sorted, counts.sort_by(descending()), descending());
    to_multiset_len(counts);
    to_multiset_len(sorted);
}

/// The product of the two largest inspection counts of the troop.
pub fn business_level<const N: usize>(monkeys: &[Monkey; N]) -> (r: Result<u64, SimError>)
    ensures
        r == if monkey_business(inspection_counts(troop(monkeys@))) > u64::MAX {
            Err::<u64, SimError>(SimError::Overflow)
        } else {
            Ok::<u64, SimError>(monkey_business(inspection_counts(troop(monkeys@))) as u64)
        },
{
    let ghost counts = inspection_counts(troop(monkeys@));
    let ghost mut first: int = 0;
    let ghost mut second: int = 0;
    let mut top_two: [u64; 2] = [0; 2];
    let mut k: usize = 0;
    while k < N
        invariant
            k <= N,
            counts == inspection_counts(troop(monkeys@)),
            top_two[0] >= top_two[1],
            k == 0 ==> top_two[0] == 0,
            k <= 1 ==> top_two[1] == 0,
            k >= 1 ==> 0 <= first < k && counts[first] == top_two[0],
            k >= 1 ==> forall|l: int| 0 <= l < k && l != first ==> counts[l] <= top_two[1],
            k >= 2 ==> 0 <= second < k && second != first && counts[second] == top_two[1],
        decreases N - k,
    {
        let count = monkeys[k].num_inspections as u64;
        assert(counts[k as int] == count);
        if count > top_two[0] {
            if top_two[0] > top_two[1] {
                top_two[1] = top_two[0];
            }
            top_two[0] = count;
            proof {
                second = first;
                first = k as int;
            }
        } else if count > top_two[1] {
            top_two[1] = count;
            proof {
                second = k as int;
            }
        } else {
            proof {
                if k == 0 {
                    first = 0;
                } else if k == 1 {
                    second = 1;
                }
            }
        }
        k += 1;
    }
    proof {
        if N >= 2 {
            lemma_top_two(counts, first, second);
        } else {
            assert(top_two[1] == 0);
            assert(top_two[0] * top_two[1] == 0) by (nonlinear_arith)
                requires
                    top_two[1] == 0,
            ;
        }
    }
    match top_two[0].checked_mul(top_two[1]) {
        Some(level) => Ok(level),
        None => Err(SimError::Overflow),
    }
}

} // verus!
