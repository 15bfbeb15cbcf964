//! Merge sort with step recording.

use vstd::prelude::*;
use crate::order::SortOrd;
use crate::order::lemma_sorted_unique;
use crate::order::lemma_with_key_concat;
use crate::order::lemma_with_key_nonempty;
use crate::order::lemma_with_key_push;
use crate::order::sorted;
use crate::order::with_key;
use crate::steps::snapshot;

verus! {

/// Copies `data[lo..hi]` into a fresh vector.
fn copy_range<T: SortOrd>(data: &Vec<T>, lo: usize, hi: usize) -> (r: Vec<T>)
    requires
        lo <= hi <= data@.len(),
    ensures
        r@ == data@.subrange(lo as int, hi as int),
{
    let mut r: Vec<T> = Vec::new();
    let mut m: usize = lo;
    while m < hi
        invariant
            lo <= m <= hi <= data@.len(),
            r@ == data@.subrange(lo as int, m as int),
        decreases hi - m,
    {
        r.push(data[m]);
        assert(data@.subrange(lo as int, m as int).push(data@[m as int]) =~= data@.subrange(
            lo as int,
            m as int + 1,
        ));
        m += 1;
    }
    r
}

/// Overwrites `data[lo..lo + src.len()]` with the contents of `src`.
fn write_range<T: SortOrd>(data: &mut Vec<T>, lo: usize, src: &Vec<T>)
    requires
        lo + src@.len() <= old(data)@.len(),
    ensures
        final(data)@.len() == old(data)@.len(),
        forall|m: int| 0 <= m < lo ==> final(data)@[m] == old(data)@[m],
        forall|m: int|
            lo + src@.len() <= m < old(data)@.len() ==> final(data)@[m] == old(data)@[m],
        final(data)@.subrange(lo as int, lo as int + src@.len() as int) == src@,
{
    let ghost d0 = data@;
    let n = data.len();
    let mut m: usize = 0;
    while m < src.len()
        invariant
            m <= src@.len(),
            lo + src@.len() <= d0.len(),
            n == d0.len(),
            data@.len() == d0.len(),
            forall|idx: int| 0 <= idx < lo ==> data@[idx] == d0[idx],
            forall|idx: int| lo + m <= idx < d0.len() ==> data@[idx] == d0[idx],
            forall|idx: int| lo <= idx < lo + m ==> data@[idx] == src@[idx - lo],
        decreases src@.len() - m,
    {
        data[lo + m] = src[m];
        m += 1;
    }
    assert(data@.subrange(lo as int, lo as int + src@.len() as int) =~= src@);
}

/// Merges the two sorted runs `x1` and `x2` into `y`, whose length must be
/// exactly the combined length of the runs — a violation of that
/// precondition is a programming-error-class fault, not a recoverable
/// condition. The two-pointer interleave takes from `x1` unless the current
/// element of `x2` is strictly smaller, so elements with equal keys keep
/// all of `x1`'s before all of `x2`'s: the merge is stable.
fn merge<T: SortOrd>(x1: &Vec<T>, x2: &Vec<T>, y: &mut Vec<T>)
    requires
        old(y)@.len() == x1@.len() + x2@.len(),
        sorted(x1@),
        sorted(x2@),
    ensures
        final(y)@.len() == x1@.len() + x2@.len(),
        sorted(final(y)@),
        forall|k: int| #[trigger] with_key(final(y)@, k) == with_key(x1@, k) + with_key(x2@, k),
        final(y)@.to_multiset() == x1@.to_multiset().add(x2@.to_multiset()),
{
    broadcast use vstd::seq_lib::group_to_multiset_ensures;
    broadcast use vstd::multiset::group_multiset_axioms;

    let n1 = x1.len();
    let n2 = x2.len();
    let ny = y.len();
    let mut i: usize = 0;
    let mut j: usize = 0;
    let mut k: usize = 0;
    while i < n1 && j < n2
        invariant
            n1 == x1@.len(),
            n2 == x2@.len(),
            i <= n1,
            j <= n2,
            k == i + j,
            ny == y@.len(),
            y@.len() == n1 + n2,
            sorted(x1@),
            sorted(x2@),
            sorted(y@.subrange(0, k as int)),
            forall|kk: int|
                #[trigger] with_key(y@.subrange(0, k as int), kk) == with_key(
                    x1@.subrange(0, i as int),
                    kk,
                ) + with_key(x2@.subrange(0, j as int), kk),
            y@.subrange(0, k as int).to_multiset() == x1@.subrange(
                0,
                i as int,
            ).to_multiset().add(x2@.subrange(0, j as int).to_multiset()),
            k > 0 && i < n1 ==> y@[k - 1].key() <= x1@[i as int].key(),
            k > 0 && j < n2 ==> y@[k - 1].key() <= x2@[j as int].key(),
            forall|jj: int|
                0 <= jj < j && i < n1 ==> (#[trigger] x2@[jj].key()) < x1@[i as int].key(),
        decreases n1 - i + n2 - j,
    {
        let ghost yk = y@.subrange(0, k as int);
        let ghost x1i = x1@.subrange(0, i as int);
        let ghost x2j = x2@.subrange(0, j as int);
        if x2[j].lt(&x1[i]) {
            let v = x2[j];
            y[k] = v;
            proof {
                assert(y@.subrange(0, k as int + 1) =~= yk.push(v));
                lemma_take_right(yk, x1i, x2j, y@, x1@, x2@, i as int, j as int, k as int);
            }
            j += 1;
            k += 1;
        } else {
            let v = x1[i];
            y[k] = v;
            proof {
                assert(y@.subrange(0, k as int + 1) =~= yk.push(v));
                lemma_take_left(yk, x1i, x2j, y@, x1@, x2@, i as int, j as int, k as int);
            }
            i += 1;
            k += 1;
        }
    }
    while i < n1
        invariant
            n1 == x1@.len(),
            n2 == x2@.len(),
            i <= n1,
            j <= n2,
            k == i + j,
            ny == y@.len(),
            y@.len() == n1 + n2,
            sorted(x1@),
            sorted(x2@),
            sorted(y@.subrange(0, k as int)),
            forall|kk: int|
                #[trigger] with_key(y@.subrange(0, k as int), kk) == with_key(
                    x1@.subrange(0, i as int),
                    kk,
                ) + with_key(x2@.subrange(0, j as int), kk),
            y@.subrange(0, k as int).to_multiset() == x1@.subrange(
                0,
                i as int,
            ).to_multiset().add(x2@.subrange(0, j as int).to_multiset()),
            i < n1 ==> j == n2,
            k > 0 && i < n1 ==> y@[k - 1].key() <= x1@[i as int].key(),
            k > 0 && j < n2 ==> y@[k - 1].key() <= x2@[j as int].key(),
            forall|jj: int|
                0 <= jj < j && i < n1 ==> (#[trigger] x2@[jj].key()) < x1@[i as int].key(),
        decreases n1 - i,
    {
        let ghost yk = y@.subrange(0, k as int);
        let ghost x1i = x1@.subrange(0, i as int);
        let ghost x2j = x2@.subrange(0, j as int);
        let v = x1[i];
        y[k] = v;
        proof {
            assert(y@.subrange(0, k as int + 1) =~= yk.push(v));
            lemma_take_left(yk, x1i, x2j, y@, x1@, x2@, i as int, j as int, k as int);
        }
        i += 1;
        k += 1;
    }
    while j < n2
        invariant
            n1 == x1@.len(),
            n2 == x2@.len(),
            i == n1,
            j <= n2,
            k == i + j,
            ny == y@.len(),
            y@.len() == n1 + n2,
            sorted(x1@),
            sorted(x2@),
            sorted(y@.subrange(0, k as int)),
            forall|kk: int|
                #[trigger] with_key(y@.subrange(0, k as int), kk) == with_key(
                    x1@.subrange(0, i as int),
                    kk,
                ) + with_key(x2@.subrange(0, j as int), kk),
            y@.subrange(0, k as int).to_multiset() == x1@.subrange(
                0,
                i as int,
            ).to_multiset().add(x2@.subrange(0, j as int).to_multiset()),
            k > 0 && j < n2 ==> y@[k - 1].key() <= x2@[j as int].key(),
        decreases n2 - j,
    {
        let ghost yk = y@.subrange(0, k as int);
        let ghost x1i = x1@.subrange(0, i as int);
        let ghost x2j = x2@.subrange(0, j as int);
        let v = x2[j];
        y[k] = v;
        proof {
            assert(y@.subrange(0, k as int + 1) =~= yk.push(v));
            lemma_take_right(yk, x1i, x2j, y@, x1@, x2@, i as int, j as int, k as int);
        }
        j += 1;
        k += 1;
    }
    proof {
        assert(y@.subrange(0, k as int) =~= y@);
        assert(x1@.subrange(0, i as int) =~= x1@);
        assert(x2@.subrange(0, j as int) =~= x2@);
    }
}

/// One merge step that emits the current element of `x2`, which is strictly
/// smaller than the current element of `x1`.
proof fn lemma_take_right<T: SortOrd>(
    yk: Seq<T>,
    x1i: Seq<T>,
    x2j: Seq<T>,
    y: Seq<T>,
    x1: Seq<T>,
    x2: Seq<T>,
    i: int,
    j: int,
    k: int,
)
    requires
        0 <= i <= x1.len(),
        0 <= j < x2.len(),
        k == i + j,
        k < y.len(),
        x1i == x1.subrange(0, i),
        x2j == x2.subrange(0, j),
        sorted(x1),
        sorted(x2),
        sorted(yk),
        yk.len() == k,
        forall|kk: int|
            #[trigger] with_key(yk, kk) == with_key(x1i, kk) + with_key(x2j, kk),
        yk.to_multiset() == x1i.to_multiset().add(x2j.to_multiset()),
        k > 0 ==> yk[k - 1].key() <= x2[j].key(),
        y.len() > k,
        y.subrange(0, k + 1) == yk.push(x2[j]),
    ensures
        sorted(y.subrange(0, k + 1)),
        forall|kk: int|
            #[trigger] with_key(y.subrange(0, k + 1), kk) == with_key(x1i, kk) + with_key(
                x2.subrange(0, j + 1),
                kk,
            ),
        y.subrange(0, k + 1).to_multiset() == x1i.to_multiset().add(
            x2.subrange(0, j + 1).to_multiset(),
        ),
        k + 1 > 0 && j + 1 < x2.len() ==> y.subrange(0, k + 1)[k].key() <= x2[j + 1].key(),
{
    broadcast use vstd::seq_lib::group_to_multiset_ensures;
    broadcast use vstd::multiset::group_multiset_axioms;

    let v = x2[j];
    let ynew = yk.push(v);
    assert(sorted(ynew)) by {
        assert forall|a: int, b: int| 0 <= a < b < ynew.len() implies ynew[a].key()
            <= ynew[b].key() by {
            if b == k {
                if k > 0 && a < k - 1 {
                    assert(yk[a].key() <= yk[k - 1].key());
                }
            }
        }
    }
    assert(x2.subrange(0, j + 1) =~= x2j.push(v));
    assert forall|kk: int|
        #[trigger] with_key(ynew, kk) == with_key(x1i, kk) + with_key(x2j.push(v), kk) by {
        lemma_with_key_push(yk, v, kk);
        lemma_with_key_push(x2j, v, kk);
        if v.key() == kk {
            assert(with_key(x1i, kk) + with_key(x2j, kk).push(v) =~= (with_key(x1i, kk)
                + with_key(x2j, kk)).push(v));
        }
    }
    assert(ynew.to_multiset() =~= x1i.to_multiset().add(x2j.push(v).to_multiset()));
    if j + 1 < x2.len() {
        assert(v.key() <= x2[j + 1].key());
    }
}

/// One merge step that emits the current element of `x1`, whose key is at
/// most the key of every remaining element of `x2`; no element of `x2` with
/// the same key has been emitted yet, which keeps the merge stable.
proof fn lemma_take_left<T: SortOrd>(
    yk: Seq<T>,
    x1i: Seq<T>,
    x2j: Seq<T>,
    y: Seq<T>,
    x1: Seq<T>,
    x2: Seq<T>,
    i: int,
    j: int,
    k: int,
)
    requires
        0 <= i < x1.len(),
        0 <= j <= x2.len(),
        k == i + j,
        k < y.len(),
        x1i == x1.subrange(0, i),
        x2j == x2.subrange(0, j),
        sorted(x1),
        sorted(x2),
        sorted(yk),
        yk.len() == k,
        forall|kk: int|
            #[trigger] with_key(yk, kk) == with_key(x1i, kk) + with_key(x2j, kk),
        yk.to_multiset() == x1i.to_multiset().add(x2j.to_multiset()),
        k > 0 ==> yk[k - 1].key() <= x1[i].key(),
        forall|jj: int| 0 <= jj < j ==> (#[trigger] x2[jj].key()) < x1[i].key(),
        y.len() > k,
        y.subrange(0, k + 1) == yk.push(x1[i]),
    ensures
        sorted(y.subrange(0, k + 1)),
        forall|kk: int|
            #[trigger] with_key(y.subrange(0, k + 1), kk) == with_key(
                x1.subrange(0, i + 1),
                kk,
            ) + with_key(x2j, kk),
        y.subrange(0, k + 1).to_multiset() == x1.subrange(0, i + 1).to_multiset().add(
            x2j.to_multiset(),
        ),
        k + 1 > 0 && i + 1 < x1.len() ==> y.subrange(0, k + 1)[k].key() <= x1[i + 1].key(),
        forall|jj: int|
            0 <= jj < j && i + 1 < x1.len() ==> (#[trigger] x2[jj].key()) < x1[i + 1].key(),
{
    broadcast use vstd::seq_lib::group_to_multiset_ensures;
    broadcast use vstd::multiset::group_multiset_axioms;

    let v = x1[i];
    let ynew = yk.push(v);
    assert(sorted(ynew)) by {
        assert forall|a: int, b: int| 0 <= a < b < ynew.len() implies ynew[a].key()
            <= ynew[b].key() by {
            if b == k {
                if k > 0 && a < k - 1 {
                    assert(yk[a].key() <= yk[k - 1].key());
                }
            }
        }
    }
    assert(x1.subrange(0, i + 1) =~= x1i.push(v));
    assert forall|kk: int|
        #[trigger] with_key(ynew, kk) == with_key(x1i.push(v), kk) + with_key(x2j, kk) by {
        lemma_with_key_push(yk, v, kk);
        lemma_with_key_push(x1i, v, kk);
        if v.key() == kk {
            // no element of `x2` with this key has been emitted
            if with_key(x2j, kk).len() > 0 {
                lemma_with_key_nonempty(x2j, kk);
                let jj = choose|jj: int| 0 <= jj < x2j.len() && #[trigger] x2j[jj].key() == kk;
                assert(x2[jj].key() == kk);
                assert(false);
            }
            assert(with_key(x2j, kk) =~= Seq::<T>::empty());
            assert(with_key(x1i, kk).push(v) + with_key(x2j, kk) =~= (with_key(x1i, kk)
                + with_key(x2j, kk)).push(v));
        }
    }
    assert(ynew.to_multiset() =~= x1i.push(v).to_multiset().add(x2j.to_multiset()));
    if i + 1 < x1.len() {
        assert(v.key() <= x1[i + 1].key());
    }
    assert forall|jj: int|
        0 <= jj < j && i + 1 < x1.len() implies (#[trigger] x2[jj].key()) < x1[i + 1].key() by {
        assert(x2[jj].key() < x1[i].key());
        assert(x1[i].key() <= x1[i + 1].key());
    }
}

/// The number of steps merge sort records for a range of `len` elements:
/// two per recursive call on two or more elements, none otherwise.
pub open spec fn merge_step_count(len: int) -> nat
    decreases len,
{
    if len <= 1 {
        0
    } else {
        2 + merge_step_count(len / 2) + merge_step_count(len - len / 2)
    }
}

/// Recursive step-recording merge sort of `data[lo..hi]`; everything outside
/// that range is untouched. A sub-range of length at most one is already
/// sorted: nothing is appended and nothing moves. Otherwise one step
/// capturing the whole sequence is appended on entry, the two halves (split
/// at the midpoint, the right half taking the extra element of an odd
/// range) are sorted recursively — all of the left half's steps precede the
/// right half's — the sorted halves are merged through a buffer of exactly
/// the range's length, the merged result is copied back over the range, and
/// one more step capturing the post-merge state is appended.
fn merge_sort_range<T: SortOrd>(data: &mut Vec<T>, lo: usize, hi: usize, steps: &mut Vec<Vec<T>>)
    requires
        lo <= hi <= old(data)@.len(),
    ensures
        final(data)@.len() == old(data)@.len(),
        forall|m: int| 0 <= m < lo ==> final(data)@[m] == old(data)@[m],
        forall|m: int| hi <= m < old(data)@.len() ==> final(data)@[m] == old(data)@[m],
        sorted(final(data)@.subrange(lo as int, hi as int)),
        forall|k: int|
            #[trigger] with_key(final(data)@.subrange(lo as int, hi as int), k) == with_key(
                old(data)@.subrange(lo as int, hi as int),
                k,
            ),
        final(data)@.subrange(lo as int, hi as int).to_multiset() == old(data)@.subrange(
            lo as int,
            hi as int,
        ).to_multiset(),
        final(steps)@.len() == old(steps)@.len() + merge_step_count(hi - lo),
        forall|m: int| 0 <= m < old(steps)@.len() ==> final(steps)@[m] == old(steps)@[m],
        forall|m: int|
            old(steps)@.len() <= m < final(steps)@.len() ==> (#[trigger] final(steps)@[m])@.len()
                == old(data)@.len(),
        hi - lo <= 1 ==> final(data)@ == old(data)@ && final(steps)@ == old(steps)@,
        hi - lo >= 2 ==> final(steps)@.len() > old(steps)@.len() && final(steps)@[old(
            steps,
        )@.len() as int]@ == old(data)@ && final(steps)@.last()@ == final(data)@,
        sorted(old(data)@.subrange(lo as int, hi as int)) ==> final(data)@ == old(data)@ && (
        forall|m: int|
            old(steps)@.len() <= m < final(steps)@.len() ==> (#[trigger] final(steps)@[m])@ == old(
                data,
            )@),
    decreases hi - lo,
{
    if hi - lo <= 1 {
        return ;
    }
    let ghost d0 = data@;
    let ghost s0 = steps@;
    steps.push(snapshot(data));
    let ghost s1 = steps@;
    let mid = lo + (hi - lo) / 2;
    merge_sort_range(data, lo, mid, steps);
    let ghost d2 = data@;
    let ghost s2 = steps@;
    merge_sort_range(data, mid, hi, steps);
    let ghost d3 = data@;
    let ghost s3 = steps@;
    proof {
        assert(d3.subrange(lo as int, mid as int) =~= d2.subrange(lo as int, mid as int));
        assert(d2.subrange(mid as int, hi as int) =~= d0.subrange(mid as int, hi as int));
    }
    let left = copy_range(data, lo, mid);
    let right = copy_range(data, mid, hi);
    let mut buf = copy_range(data, lo, hi);
    merge(&left, &right, &mut buf);
    write_range(data, lo, &buf);
    let ghost d4 = data@;
    steps.push(snapshot(data));
    proof {
        broadcast use vstd::multiset::group_multiset_axioms;

        assert(d4.subrange(lo as int, hi as int) == buf@);
        assert(d0.subrange(lo as int, hi as int) =~= d0.subrange(lo as int, mid as int)
            + d0.subrange(mid as int, hi as int));
        assert forall|k: int|
            #[trigger] with_key(d4.subrange(lo as int, hi as int), k) == with_key(
                d0.subrange(lo as int, hi as int),
                k,
            ) by {
            lemma_with_key_concat(
                d0.subrange(lo as int, mid as int),
                d0.subrange(mid as int, hi as int),
                k,
            );
        }
        assert(d4.subrange(lo as int, hi as int).to_multiset() == d0.subrange(
            lo as int,
            hi as int,
        ).to_multiset()) by {
            vstd::seq_lib::lemma_multiset_commutative(
                d0.subrange(lo as int, mid as int),
                d0.subrange(mid as int, hi as int),
            );
        }
        if sorted(d0.subrange(lo as int, hi as int)) {
            let whole = d0.subrange(lo as int, hi as int);
            assert forall|a: int, b: int|
                0 <= a < b < mid - lo implies d0.subrange(lo as int, mid as int)[a].key()
                <= d0.subrange(lo as int, mid as int)[b].key() by {
                assert(whole[a] == d0.subrange(lo as int, mid as int)[a]);
                assert(whole[b] == d0.subrange(lo as int, mid as int)[b]);
            }
            assert(sorted(d0.subrange(lo as int, mid as int)));
            assert(d2 == d0);
            assert(sorted(d2.subrange(mid as int, hi as int))) by {
                assert forall|a: int, b: int|
                    0 <= a < b < hi - mid implies d2.subrange(mid as int, hi as int)[a].key()
                    <= d2.subrange(mid as int, hi as int)[b].key() by {
                    assert(whole[a + (mid - lo)] == d2.subrange(mid as int, hi as int)[a]);
                    assert(whole[b + (mid - lo)] == d2.subrange(mid as int, hi as int)[b]);
                }
            }
            assert(d3 == d2);
            assert(left@ == d0.subrange(lo as int, mid as int));
            assert(right@ == d0.subrange(mid as int, hi as int));
            assert forall|k: int| #[trigger] with_key(buf@, k) == with_key(whole, k) by {
                lemma_with_key_concat(left@, right@, k);
            }
            lemma_sorted_unique(buf@, whole);
            assert(d4.len() == d0.len());
            assert forall|m: int| 0 <= m < d0.len() implies d4[m] == d0[m] by {
                if lo <= m < hi {
                    assert(d4.subrange(lo as int, hi as int)[m - lo] == d4[m]);
                    assert(whole[m - lo] == d0[m]);
                }
            }
            assert(d4 =~= d0);
        }
    }
}

/// Sorts `data` in place by recursive merge sort, appending the recorded
/// steps to `steps`: one snapshot on entering and one on leaving every
/// recursive call on a sub-range of length two or more. The log therefore
/// grows by `O(n log n)` steps, each an `O(n)`-sized copy — `O(n^2 log n)`
/// step storage in all. That cost is a known scaling limit, accepted
/// deliberately: the steps exist to make every transition observable, and
/// the sequences animated here are small.
pub fn merge_sort<T: SortOrd>(data: &mut Vec<T>, steps: &mut Vec<Vec<T>>)
    ensures
        sorted(final(data)@),
        final(data)@.len() == old(data)@.len(),
        final(data)@.to_multiset() == old(data)@.to_multiset(),
        forall|k: int| #[trigger] with_key(final(data)@, k) == with_key(old(data)@, k),
        old(steps)@.is_prefix_of(final(steps)@),
        forall|m: int|
            old(steps)@.len() <= m < final(steps)@.len() ==> (#[trigger] final(steps)@[m])@.len()
                == old(data)@.len(),
        final(steps)@.len() == old(steps)@.len() + merge_step_count(old(data)@.len() as int),
        old(data)@.len() <= 1 ==> final(data)@ == old(data)@ && final(steps)@ == old(steps)@,
        old(data)@.len() >= 2 ==> final(steps)@.len() > old(steps)@.len() && final(steps)@[old(
            steps,
        )@.len() as int]@ == old(data)@ && final(steps)@.last()@ == final(data)@,
        sorted(old(data)@) ==> final(data)@ == old(data)@ && (forall|m: int|
            old(steps)@.len() <= m < final(steps)@.len() ==> (#[trigger] final(steps)@[m])@ == old(
                data,
            )@),
{
    let ghost d0 = data@;
    let ghost s0 = steps@;
    let n = data.len();
    merge_sort_range(data, 0, n, steps);
    proof {
        assert(data@.subrange(0, n as int) =~= data@);
        assert(d0.subrange(0, n as int) =~= d0);
        assert(s0 =~= steps@.subrange(0, s0.len() as int));
    }
}

} // verus!
