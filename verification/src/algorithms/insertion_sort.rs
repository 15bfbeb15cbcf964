//! Insertion sort with step recording.

use vstd::prelude::*;
use crate::order::SortOrd;
use crate::order::inversions;
use crate::order::lemma_adjacent_swap;
use crate::order::lemma_sorted_inversions_zero;
use crate::order::lemma_swap_inversions;
use crate::order::sorted;
use crate::order::with_key;
use crate::steps::snapshot;

verus! {

/// Sorts `data` in place. For each position from left to right, the element
/// there is swapped with its predecessor while the predecessor's key is
/// strictly greater; a step — a full copy of the sequence as it stands
/// immediately after the swap — is appended to `steps` for every swap, and
/// only for swaps: the log grows by exactly one step per inversion of the
/// input. Equal keys are never swapped, so the sort is stable, and an
/// already sorted sequence (in particular one of length zero or one) comes
/// back unchanged with nothing appended to the log.
pub fn insertion_sort<T: SortOrd>(data: &mut Vec<T>, steps: &mut Vec<Vec<T>>)
    ensures
        sorted(final(data)@),
        final(data)@.len() == old(data)@.len(),
        final(data)@.to_multiset() == old(data)@.to_multiset(),
        forall|k: int| #[trigger] with_key(final(data)@, k) == with_key(old(data)@, k),
        old(steps)@.is_prefix_of(final(steps)@),
        forall|m: int|
            old(steps)@.len() <= m < final(steps)@.len() ==> (#[trigger] final(steps)@[m])@.len()
                == old(data)@.len(),
        final(steps)@.len() > old(steps)@.len() ==> final(steps)@.last()@ == final(data)@,
        final(steps)@.len() == old(steps)@.len() + inversions(old(data)@),
        sorted(old(data)@) ==> final(data)@ == old(data)@ && final(steps)@ == old(steps)@,
{
    let ghost orig = data@;
    let ghost log0 = steps@;
    let n = data.len();
    let mut i: usize = 1;
    while i < n
        invariant
            n == data@.len(),
            orig.len() == n,
            1 <= i,
            n >= 1 ==> i <= n,
            n >= 1 ==> sorted(data@.subrange(0, i as int)),
            data@.to_multiset() == orig.to_multiset(),
            forall|k: int| #[trigger] with_key(data@, k) == with_key(orig, k),
            log0.is_prefix_of(steps@),
            forall|m: int| log0.len() <= m < steps@.len() ==> (#[trigger] steps@[m])@.len() == n,
            steps@.len() > log0.len() ==> steps@.last()@ == data@,
            steps@.len() + inversions(data@) == log0.len() + inversions(orig),
            sorted(orig) ==> data@ == orig && steps@ == log0,
        decreases n - i,
    {
        proof {
            assert forall|a: int, b: int|
                0 <= a < b <= i && b != i implies data@[a].key() <= data@[b].key() by {
                assert(data@.subrange(0, i as int)[a] == data@[a]);
                assert(data@.subrange(0, i as int)[b] == data@[b]);
            }
        }
        let mut j: usize = i;
        while j > 0 && data[j].lt(&data[j - 1])
            invariant
                n == data@.len(),
                orig.len() == n,
                1 <= i < n,
                j <= i,
                forall|a: int, b: int|
                    0 <= a < b <= i && b != j ==> data@[a].key() <= data@[b].key(),
                data@.to_multiset() == orig.to_multiset(),
                forall|k: int| #[trigger] with_key(data@, k) == with_key(orig, k),
                log0.is_prefix_of(steps@),
                forall|m: int|
                    log0.len() <= m < steps@.len() ==> (#[trigger] steps@[m])@.len() == n,
                steps@.len() > log0.len() ==> steps@.last()@ == data@,
                steps@.len() + inversions(data@) == log0.len() + inversions(orig),
                sorted(orig) ==> data@ == orig && steps@ == log0 && j == i,
            decreases j,
        {
            let ghost before = data@;
            let x = data[j - 1];
            let y = data[j];
            data[j - 1] = y;
            data[j] = x;
            proof {
                assert(data@ == before.update(j - 1, before[j as int]).update(
                    j as int,
                    before[j as int - 1],
                ));
                lemma_adjacent_swap(before, j as int);
                lemma_swap_inversions(before, j as int);
                if sorted(orig) {
                    // a swap contradicts sortedness of the untouched input
                    assert(orig[j as int - 1].key() <= orig[j as int].key());
                    assert(false);
                }
            }
            steps.push(snapshot(data));
            j -= 1;
        }
        proof {
            assert forall|a: int, b: int|
                0 <= a < b <= i implies data@[a].key() <= data@[b].key() by {
                if b == j as int && j > 0 {
                    assert(!(data@[j as int].key() < data@[j as int - 1].key()));
                    if a < j as int - 1 {
                        assert(data@[a].key() <= data@[j as int - 1].key());
                    }
                }
            }
            assert forall|a: int, b: int|
                #![trigger data@.subrange(0, i + 1)[a], data@.subrange(0, i + 1)[b]]
                0 <= a < b < i + 1 implies data@.subrange(0, i + 1)[a].key() <= data@.subrange(
                0,
                i + 1,
            )[b].key() by {
                assert(data@.subrange(0, i + 1)[a] == data@[a]);
                assert(data@.subrange(0, i + 1)[b] == data@[b]);
            }
            assert(sorted(data@.subrange(0, i + 1)));
        }
        i += 1;
    }
    proof {
        if n >= 1 {
            assert(data@.subrange(0, n as int) =~= data@);
        }
        lemma_sorted_inversions_zero(data@);
    }
}

} // verus!
