//! The total order the sorting routines work over, and the spec-level
//! vocabulary their contracts are stated in: sortedness by key, and the
//! key-projection `with_key` that expresses stability.

use vstd::prelude::*;

verus! {

/// A totally ordered sort element. Comparison is by an integer sort key, so
/// that two distinct elements may compare equal — which is what makes
/// stability of a sort observable.
pub trait SortOrd: Copy + Sized {
    /// The key the sorting routines order by.
    spec fn key(self) -> int;

    /// Strict comparison of the sort keys.
    fn lt(&self, other: &Self) -> (r: bool)
        ensures
            r == (self.key() < other.key()),
    ;
}

impl SortOrd for u64 {
    open spec fn key(self) -> int {
        self as int
    }

    fn lt(&self, other: &u64) -> (r: bool) {
        *self < *other
    }
}

/// An element with a payload alongside its sort key: elements with equal keys
/// but different tags are distinguishable, so a stable sort must keep their
/// relative order.
#[derive(Clone, Copy, Debug, PartialEq, Eq, Structural)]
pub struct Keyed {
    pub key: u64,
    pub tag: u64,
}

impl SortOrd for Keyed {
    open spec fn key(self) -> int {
        self.key as int
    }

    fn lt(&self, other: &Keyed) -> (r: bool) {
        self.key < other.key
    }
}

/// A sequence is sorted when its keys are non-decreasing.
pub open spec fn sorted<T: SortOrd>(s: Seq<T>) -> bool {
    forall|i: int, j: int| 0 <= i < j < s.len() ==> s[i].key() <= s[j].key()
}

/// The subsequence of `s` whose elements carry the sort key `k`, in their
/// original order. A sort is stable exactly when it preserves `with_key`
/// for every key.
pub open spec fn with_key<T: SortOrd>(s: Seq<T>, k: int) -> Seq<T>
    decreases s.len(),
{
    if s.len() == 0 {
        Seq::<T>::empty()
    } else if s[0].key() == k {
        seq![s[0]] + with_key(s.drop_first(), k)
    } else {
        with_key(s.drop_first(), k)
    }
}

/// `with_key` distributes over concatenation.
pub proof fn lemma_with_key_concat<T: SortOrd>(a: Seq<T>, b: Seq<T>, k: int)
    ensures
        with_key(a + b, k) == with_key(a, k) + with_key(b, k),
    decreases a.len(),
{
    if a.len() == 0 {
        assert(a + b =~= b);
        assert(with_key(a, k) + with_key(b, k) =~= with_key(b, k));
    } else {
        assert((a + b).len() > 0);
        assert((a + b)[0] == a[0]);
        assert((a + b).drop_first() =~= a.drop_first() + b);
        lemma_with_key_concat(a.drop_first(), b, k);
        if a[0].key() == k {
            assert(seq![a[0]] + (with_key(a.drop_first(), k) + with_key(b, k)) =~= (seq![a[0]]
                + with_key(a.drop_first(), k)) + with_key(b, k));
        }
    }
}

/// `with_key` of a one-element sequence keeps or drops that element.
pub proof fn lemma_with_key_singleton<T: SortOrd>(x: T, k: int)
    ensures
        with_key(seq![x], k) == if x.key() == k {
            seq![x]
        } else {
            Seq::<T>::empty()
        },
{
    assert(seq![x].drop_first() =~= Seq::<T>::empty());
    assert(with_key(seq![x].drop_first(), k) == Seq::<T>::empty());
    if x.key() == k {
        assert(with_key(seq![x], k) == seq![seq![x][0]] + with_key(seq![x].drop_first(), k));
        assert(seq![seq![x][0]] + Seq::<T>::empty() =~= seq![x]);
    }
}

/// `with_key` of a sequence extended at the end.
pub proof fn lemma_with_key_push<T: SortOrd>(s: Seq<T>, x: T, k: int)
    ensures
        with_key(s.push(x), k) == if x.key() == k {
            with_key(s, k).push(x)
        } else {
            with_key(s, k)
        },
{
    assert(s.push(x) =~= s + seq![x]);
    lemma_with_key_concat(s, seq![x], k);
    lemma_with_key_singleton(x, k);
    if x.key() == k {
        assert(with_key(s, k) + seq![x] =~= with_key(s, k).push(x));
    } else {
        assert(with_key(s, k) + Seq::<T>::empty() =~= with_key(s, k));
    }
}

/// A non-empty key projection means some element carries that key.
pub proof fn lemma_with_key_nonempty<T: SortOrd>(s: Seq<T>, k: int)
    requires
        with_key(s, k).len() > 0,
    ensures
        exists|i: int| 0 <= i < s.len() && #[trigger] s[i].key() == k,
    decreases s.len(),
{
    if s.len() == 0 {
    } else if s[0].key() == k {
        assert(s[0].key() == k);
    } else {
        lemma_with_key_nonempty(s.drop_first(), k);
        let i = choose|i: int| 0 <= i < s.drop_first().len() && #[trigger] s.drop_first()[i].key()
            == k;
        assert(s[i + 1].key() == k);
    }
}

/// Swapping two adjacent elements with different keys changes neither the
/// multiset of elements nor any key projection.
pub proof fn lemma_adjacent_swap<T: SortOrd>(s: Seq<T>, j: int)
    requires
        1 <= j < s.len(),
        s[j].key() != s[j - 1].key(),
    ensures
        ({
            let t = s.update(j - 1, s[j]).update(j, s[j - 1]);
            &&& t.to_multiset() == s.to_multiset()
            &&& forall|k: int| #[trigger] with_key(t, k) == with_key(s, k)
        }),
{
    broadcast use vstd::multiset::group_multiset_axioms;

    let t = s.update(j - 1, s[j]).update(j, s[j - 1]);
    let p = s.subrange(0, j - 1);
    let x = s[j - 1];
    let y = s[j];
    let q = s.subrange(j + 1, s.len() as int);
    assert(s =~= p + seq![x] + seq![y] + q);
    assert(t =~= p + seq![y] + seq![x] + q);
    assert(s.to_multiset() == p.to_multiset().add(seq![x].to_multiset()).add(
        seq![y].to_multiset(),
    ).add(q.to_multiset())) by {
        vstd::seq_lib::lemma_multiset_commutative(p + seq![x] + seq![y], q);
        vstd::seq_lib::lemma_multiset_commutative(p + seq![x], seq![y]);
        vstd::seq_lib::lemma_multiset_commutative(p, seq![x]);
    }
    assert(t.to_multiset() == p.to_multiset().add(seq![y].to_multiset()).add(
        seq![x].to_multiset(),
    ).add(q.to_multiset())) by {
        vstd::seq_lib::lemma_multiset_commutative(p + seq![y] + seq![x], q);
        vstd::seq_lib::lemma_multiset_commutative(p + seq![y], seq![x]);
        vstd::seq_lib::lemma_multiset_commutative(p, seq![y]);
    }
    assert(t.to_multiset() =~= s.to_multiset());
    assert forall|k: int| #[trigger] with_key(t, k) == with_key(s, k) by {
        lemma_with_key_concat(p + seq![x] + seq![y], q, k);
        lemma_with_key_concat(p + seq![x], seq![y], k);
        lemma_with_key_concat(p, seq![x], k);
        lemma_with_key_concat(p + seq![y] + seq![x], q, k);
        lemma_with_key_concat(p + seq![y], seq![x], k);
        lemma_with_key_concat(p, seq![y], k);
        lemma_with_key_singleton(x, k);
        lemma_with_key_singleton(y, k);
        assert(with_key(seq![x], k) + with_key(seq![y], k) =~= with_key(seq![y], k) + with_key(
            seq![x],
            k,
        ));
        assert(with_key(t, k) =~= with_key(s, k));
    }
}

/// Two sorted sequences with the same key projections are equal: a sorted,
/// stable rearrangement of a sequence is unique.
pub proof fn lemma_sorted_unique<T: SortOrd>(s1: Seq<T>, s2: Seq<T>)
    requires
        sorted(s1),
        sorted(s2),
        forall|k: int| #[trigger] with_key(s1, k) == with_key(s2, k),
    ensures
        s1 == s2,
    decreases s1.len(),
{
    if s1.len() == 0 {
        if s2.len() > 0 {
            assert(with_key(s2, s2[0].key()).len() > 0);
            assert(with_key(s1, s2[0].key()).len() == 0);
        }
        assert(s1 =~= s2);
    } else if s2.len() == 0 {
        assert(with_key(s1, s1[0].key()).len() > 0);
        assert(with_key(s2, s1[0].key()).len() == 0);
    } else {
        let k1 = s1[0].key();
        let k2 = s2[0].key();
        assert(k2 <= k1) by {
            assert(with_key(s1, k1).len() > 0);
            assert(with_key(s2, k1).len() > 0);
            lemma_with_key_nonempty(s2, k1);
        }
        assert(k1 <= k2) by {
            assert(with_key(s2, k2).len() > 0);
            assert(with_key(s1, k2).len() > 0);
            lemma_with_key_nonempty(s1, k2);
        }
        assert(with_key(s1, k1)[0] == s1[0]);
        assert(with_key(s2, k1)[0] == s2[0]);
        assert(s1[0] == s2[0]);
        let t1 = s1.drop_first();
        let t2 = s2.drop_first();
        assert(sorted(t1)) by {
            assert(forall|i: int, j: int|
                0 <= i < j < t1.len() ==> t1[i] == s1[i + 1] && t1[j] == s1[j + 1]);
        }
        assert(sorted(t2)) by {
            assert(forall|i: int, j: int|
                0 <= i < j < t2.len() ==> t2[i] == s2[i + 1] && t2[j] == s2[j + 1]);
        }
        assert forall|k: int| #[trigger] with_key(t1, k) == with_key(t2, k) by {
            if k == k1 {
                assert(with_key(s1, k) == seq![s1[0]] + with_key(t1, k));
                assert(with_key(s2, k) == seq![s2[0]] + with_key(t2, k));
                let w1 = with_key(t1, k);
                let w2 = with_key(t2, k);
                assert(seq![s1[0]] + w1 == seq![s2[0]] + w2);
                assert(w1.len() == w2.len());
                assert forall|i: int| 0 <= i < w1.len() implies w1[i] == w2[i] by {
                    assert((seq![s1[0]] + w1)[i + 1] == w1[i]);
                    assert((seq![s2[0]] + w2)[i + 1] == w2[i]);
                }
                assert(w1 =~= w2);
            } else {
                assert(with_key(s1, k) == with_key(t1, k));
                assert(with_key(s2, k) == with_key(t2, k));
            }
        }
        lemma_sorted_unique(t1, t2);
        assert(s1.len() == s2.len());
        assert forall|i: int| 0 <= i < s1.len() implies s1[i] == s2[i] by {
            if i > 0 {
                assert(t1[i - 1] == s1[i]);
                assert(t2[i - 1] == s2[i]);
            }
        }
        assert(s1 =~= s2);
    }
}

/// The number of elements of `s` whose key is strictly below `k`.
pub open spec fn count_below<T: SortOrd>(s: Seq<T>, k: int) -> nat
    decreases s.len(),
{
    if s.len() == 0 {
        0
    } else {
        (if s[0].key() < k {
            1nat
        } else {
            0nat
        }) + count_below(s.drop_first(), k)
    }
}

/// The number of inversions of `s`: pairs of positions whose keys compare
/// out of order.
pub open spec fn inversions<T: SortOrd>(s: Seq<T>) -> nat
    decreases s.len(),
{
    if s.len() == 0 {
        0
    } else {
        count_below(s.drop_first(), s[0].key()) + inversions(s.drop_first())
    }
}

/// The inversions between two parts of a concatenation: for each element of
/// `a`, the elements of `b` whose key is strictly below it.
pub open spec fn cross_inversions<T: SortOrd>(a: Seq<T>, b: Seq<T>) -> nat
    decreases a.len(),
{
    if a.len() == 0 {
        0
    } else {
        count_below(b, a[0].key()) + cross_inversions(a.drop_first(), b)
    }
}

proof fn lemma_count_below_concat<T: SortOrd>(a: Seq<T>, b: Seq<T>, k: int)
    ensures
        count_below(a + b, k) == count_below(a, k) + count_below(b, k),
    decreases a.len(),
{
    if a.len() == 0 {
        assert(a + b =~= b);
    } else {
        assert((a + b)[0] == a[0]);
        assert((a + b).drop_first() =~= a.drop_first() + b);
        lemma_count_below_concat(a.drop_first(), b, k);
    }
}

proof fn lemma_inversions_concat<T: SortOrd>(a: Seq<T>, b: Seq<T>)
    ensures
        inversions(a + b) == inversions(a) + inversions(b) + cross_inversions(a, b),
    decreases a.len(),
{
    if a.len() == 0 {
        assert(a + b =~= b);
    } else {
        assert((a + b)[0] == a[0]);
        assert((a + b).drop_first() =~= a.drop_first() + b);
        lemma_count_below_concat(a.drop_first(), b, a[0].key());
        lemma_inversions_concat(a.drop_first(), b);
    }
}

proof fn lemma_cross_inversions_concat<T: SortOrd>(a1: Seq<T>, a2: Seq<T>, b: Seq<T>)
    ensures
        cross_inversions(a1 + a2, b) == cross_inversions(a1, b) + cross_inversions(a2, b),
    decreases a1.len(),
{
    if a1.len() == 0 {
        assert(a1 + a2 =~= a2);
    } else {
        assert((a1 + a2)[0] == a1[0]);
        assert((a1 + a2).drop_first() =~= a1.drop_first() + a2);
        lemma_cross_inversions_concat(a1.drop_first(), a2, b);
    }
}

proof fn lemma_count_below_singleton<T: SortOrd>(x: T, k: int)
    ensures
        count_below(seq![x], k) == if x.key() < k {
            1nat
        } else {
            0nat
        },
{
    assert(seq![x].drop_first() =~= Seq::<T>::empty());
    assert(count_below(seq![x].drop_first(), k) == 0);
}

proof fn lemma_inversions_singleton<T: SortOrd>(x: T)
    ensures
        inversions(seq![x]) == 0,
{
    assert(seq![x].drop_first() =~= Seq::<T>::empty());
    assert(count_below(seq![x].drop_first(), seq![x][0].key()) == 0);
    assert(inversions(seq![x].drop_first()) == 0);
}

proof fn lemma_cross_inversions_singleton<T: SortOrd>(x: T, b: Seq<T>)
    ensures
        cross_inversions(seq![x], b) == count_below(b, x.key()),
{
    assert(seq![x].drop_first() =~= Seq::<T>::empty());
    assert(cross_inversions(seq![x].drop_first(), b) == 0);
}

/// Swapping an adjacent pair whose keys compare out of order removes
/// exactly one inversion.
pub proof fn lemma_swap_inversions<T: SortOrd>(s: Seq<T>, j: int)
    requires
        1 <= j < s.len(),
        s[j].key() < s[j - 1].key(),
    ensures
        inversions(s.update(j - 1, s[j]).update(j, s[j - 1])) + 1 == inversions(s),
{
    let t = s.update(j - 1, s[j]).update(j, s[j - 1]);
    let p = s.subrange(0, j - 1);
    let x = s[j - 1];
    let y = s[j];
    let q = s.subrange(j + 1, s.len() as int);
    assert(s =~= ((p + seq![x]) + seq![y]) + q);
    assert(t =~= ((p + seq![y]) + seq![x]) + q);
    lemma_inversions_concat((p + seq![x]) + seq![y], q);
    lemma_inversions_concat(p + seq![x], seq![y]);
    lemma_inversions_concat(p, seq![x]);
    lemma_cross_inversions_concat(p + seq![x], seq![y], q);
    lemma_cross_inversions_concat(p, seq![x], q);
    lemma_cross_inversions_concat(p, seq![x], seq![y]);
    lemma_inversions_concat((p + seq![y]) + seq![x], q);
    lemma_inversions_concat(p + seq![y], seq![x]);
    lemma_inversions_concat(p, seq![y]);
    lemma_cross_inversions_concat(p + seq![y], seq![x], q);
    lemma_cross_inversions_concat(p, seq![y], q);
    lemma_cross_inversions_concat(p, seq![y], seq![x]);
    lemma_inversions_singleton(x);
    lemma_inversions_singleton(y);
    lemma_cross_inversions_singleton(x, seq![y]);
    lemma_cross_inversions_singleton(y, seq![x]);
    lemma_cross_inversions_singleton(x, q);
    lemma_cross_inversions_singleton(y, q);
    lemma_count_below_singleton(y, x.key());
    lemma_count_below_singleton(x, y.key());
}

proof fn lemma_count_below_none<T: SortOrd>(s: Seq<T>, k: int)
    requires
        forall|i: int| 0 <= i < s.len() ==> (#[trigger] s[i].key()) >= k,
    ensures
        count_below(s, k) == 0,
    decreases s.len(),
{
    if s.len() > 0 {
        assert forall|i: int|
            0 <= i < s.drop_first().len() implies (#[trigger] s.drop_first()[i].key()) >= k by {
            assert(s.drop_first()[i] == s[i + 1]);
        }
        lemma_count_below_none(s.drop_first(), k);
    }
}

/// A sorted sequence has no inversions.
pub proof fn lemma_sorted_inversions_zero<T: SortOrd>(s: Seq<T>)
    requires
        sorted(s),
    ensures
        inversions(s) == 0,
    decreases s.len(),
{
    if s.len() > 0 {
        let t = s.drop_first();
        assert forall|i: int| 0 <= i < t.len() implies (#[trigger] t[i].key()) >= s[0].key() by {
            assert(t[i] == s[i + 1]);
        }
        lemma_count_below_none(t, s[0].key());
        assert(sorted(t)) by {
            assert(forall|i: int, j: int|
                0 <= i < j < t.len() ==> t[i] == s[i + 1] && t[j] == s[j + 1]);
        }
        lemma_sorted_inversions_zero(t);
    }
}

} // verus!
