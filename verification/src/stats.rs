//! Sum, minimum and maximum of a multiset of integers.
//!
//! A multiset is the right model for an aggregate of measurement values:
//! neither the order in which values arrive nor the way they were sharded
//! across workers is visible in it.  The three statistics below are therefore
//! invariant under both, and the lemmas in this module let the executable
//! code carry that invariance through `record` and `merge`.

use vstd::multiset::Multiset;
use vstd::prelude::*;

verus! {

broadcast use vstd::multiset::group_multiset_axioms, vstd::multiset::group_multiset_properties;

/// Sum of all elements of `m`, each counted with its multiplicity.
pub open spec fn ms_sum(m: Multiset<int>) -> int
    decreases m.len(),
{
    if m.len() == 0 {
        0
    } else {
        let x = m.choose();
        x + ms_sum(m.remove(x))
    }
}

/// Least element of `m`; meaningful only when `m` is nonempty.
pub open spec fn ms_min(m: Multiset<int>) -> int
    decreases m.len(),
{
    if m.len() == 0 {
        0
    } else {
        let x = m.choose();
        let rest = m.remove(x);
        if rest.len() == 0 {
            x
        } else if x <= ms_min(rest) {
            x
        } else {
            ms_min(rest)
        }
    }
}

/// Greatest element of `m`; meaningful only when `m` is nonempty.
pub open spec fn ms_max(m: Multiset<int>) -> int
    decreases m.len(),
{
    if m.len() == 0 {
        0
    } else {
        let x = m.choose();
        let rest = m.remove(x);
        if rest.len() == 0 {
            x
        } else if x >= ms_max(rest) {
            x
        } else {
            ms_max(rest)
        }
    }
}

/// Removing one occurrence of a contained element shortens the multiset by
/// one, and inserting it back restores the original multiset.
pub proof fn lemma_remove_insert(m: Multiset<int>, x: int)
    requires
        m.count(x) > 0,
    ensures
        m.remove(x).len() == m.len() - 1,
        m.remove(x).insert(x) == m,
{
    assert(Multiset::singleton(x).subset_of(m));
    assert(m.remove(x).insert(x) =~= m);
}

/// Splitting off any contained element splits the sum.
pub proof fn lemma_sum_remove(m: Multiset<int>, y: int)
    requires
        m.count(y) > 0,
    ensures
        ms_sum(m) == y + ms_sum(m.remove(y)),
    decreases m.len(),
{
    let x = m.choose();
    if x == y {
    } else {
        let m1 = m.remove(x);
        lemma_remove_insert(m, x);
        lemma_sum_remove(m1, y);
        let m2 = m.remove(y);
        lemma_remove_insert(m, y);
        lemma_sum_remove(m2, x);
        assert(m1.remove(y) =~= m2.remove(x));
    }
}

/// Inserting an element adds it to the sum.
pub proof fn lemma_sum_insert(m: Multiset<int>, x: int)
    ensures
        ms_sum(m.insert(x)) == ms_sum(m) + x,
{
    let mi = m.insert(x);
    lemma_sum_remove(mi, x);
    assert(mi.remove(x) =~= m);
}

/// The sum of a union is the sum of the sums.
pub proof fn lemma_sum_add(a: Multiset<int>, b: Multiset<int>)
    ensures
        ms_sum(a.add(b)) == ms_sum(a) + ms_sum(b),
    decreases b.len(),
{
    if b.len() == 0 {
        assert(b =~= Multiset::empty());
        assert(a.add(b) =~= a);
    } else {
        let y = b.choose();
        lemma_remove_insert(b, y);
        lemma_sum_remove(b, y);
        lemma_sum_add(a, b.remove(y));
        lemma_sum_insert(a.add(b.remove(y)), y);
        assert(a.add(b.remove(y)).insert(y) =~= a.add(b));
    }
}

/// `ms_min` is an element of the multiset and a lower bound on it.
pub proof fn lemma_min_props(m: Multiset<int>)
    requires
        m.len() > 0,
    ensures
        m.count(ms_min(m)) > 0,
        forall|y: int| m.count(y) > 0 ==> ms_min(m) <= y,
    decreases m.len(),
{
    let x = m.choose();
    let rest = m.remove(x);
    lemma_remove_insert(m, x);
    if rest.len() == 0 {
        assert(rest =~= Multiset::empty());
        assert forall|y: int| m.count(y) > 0 implies ms_min(m) <= y by {
            assert(rest.insert(x).count(y) > 0);
        }
    } else {
        lemma_min_props(rest);
        assert forall|y: int| m.count(y) > 0 implies ms_min(m) <= y by {
            if y != x {
                assert(rest.count(y) > 0);
            }
        }
    }
}

/// `ms_max` is an element of the multiset and an upper bound on it.
pub proof fn lemma_max_props(m: Multiset<int>)
    requires
        m.len() > 0,
    ensures
        m.count(ms_max(m)) > 0,
        forall|y: int| m.count(y) > 0 ==> y <= ms_max(m),
    decreases m.len(),
{
    let x = m.choose();
    let rest = m.remove(x);
    lemma_remove_insert(m, x);
    if rest.len() == 0 {
        assert(rest =~= Multiset::empty());
        assert forall|y: int| m.count(y) > 0 implies y <= ms_max(m) by {
            assert(rest.insert(x).count(y) > 0);
        }
    } else {
        lemma_max_props(rest);
        assert forall|y: int| m.count(y) > 0 implies y <= ms_max(m) by {
            if y != x {
                assert(rest.count(y) > 0);
            }
        }
    }
}

/// Inserting an element narrows the minimum exactly as expected.
pub proof fn lemma_min_insert(m: Multiset<int>, x: int)
    ensures
        ms_min(m.insert(x)) == if m.len() == 0 {
            x
        } else if x <= ms_min(m) {
            x
        } else {
            ms_min(m)
        },
{
    let mi = m.insert(x);
    lemma_min_props(mi);
    if m.len() == 0 {
        assert(m =~= Multiset::empty());
        assert(mi.count(ms_min(mi)) > 0);
        assert(ms_min(mi) == x);
    } else {
        lemma_min_props(m);
        let c = if x <= ms_min(m) {
            x
        } else {
            ms_min(m)
        };
        assert(mi.count(c) > 0);
        assert(ms_min(mi) <= c);
        let a = ms_min(mi);
        if a != x {
            assert(m.count(a) > 0);
        }
        assert(c <= a);
    }
}

/// Inserting an element widens the maximum exactly as expected.
pub proof fn lemma_max_insert(m: Multiset<int>, x: int)
    ensures
        ms_max(m.insert(x)) == if m.len() == 0 {
            x
        } else if x >= ms_max(m) {
            x
        } else {
            ms_max(m)
        },
{
    let mi = m.insert(x);
    lemma_max_props(mi);
    if m.len() == 0 {
        assert(m =~= Multiset::empty());
        assert(mi.count(ms_max(mi)) > 0);
        assert(ms_max(mi) == x);
    } else {
        lemma_max_props(m);
        let c = if x >= ms_max(m) {
            x
        } else {
            ms_max(m)
        };
        assert(mi.count(c) > 0);
        assert(c <= ms_max(mi));
        let a = ms_max(mi);
        if a != x {
            assert(m.count(a) > 0);
        }
        assert(a <= c);
    }
}

/// The minimum of a union of nonempty multisets is the lesser minimum.
pub proof fn lemma_min_add(a: Multiset<int>, b: Multiset<int>)
    requires
        a.len() > 0,
        b.len() > 0,
    ensures
        ms_min(a.add(b)) == if ms_min(a) <= ms_min(b) {
            ms_min(a)
        } else {
            ms_min(b)
        },
{
    let u = a.add(b);
    lemma_min_props(a);
    lemma_min_props(b);
    lemma_min_props(u);
    assert(u.count(ms_min(a)) > 0);
    assert(u.count(ms_min(b)) > 0);
    let w = ms_min(u);
    assert(a.count(w) > 0 || b.count(w) > 0);
}

/// The maximum of a union of nonempty multisets is the greater maximum.
pub proof fn lemma_max_add(a: Multiset<int>, b: Multiset<int>)
    requires
        a.len() > 0,
        b.len() > 0,
    ensures
        ms_max(a.add(b)) == if ms_max(a) >= ms_max(b) {
            ms_max(a)
        } else {
            ms_max(b)
        },
{
    let u = a.add(b);
    lemma_max_props(a);
    lemma_max_props(b);
    lemma_max_props(u);
    assert(u.count(ms_max(a)) > 0);
    assert(u.count(ms_max(b)) > 0);
    let w = ms_max(u);
    assert(a.count(w) > 0 || b.count(w) > 0);
}

/// Statistics of a one-element multiset.
pub proof fn lemma_singleton_stats(v: int)
    ensures
        Multiset::singleton(v).len() == 1,
        ms_sum(Multiset::singleton(v)) == v,
        ms_min(Multiset::singleton(v)) == v,
        ms_max(Multiset::singleton(v)) == v,
{
    let s = Multiset::<int>::singleton(v);
    assert(Multiset::<int>::empty().insert(v) =~= s);
    lemma_sum_insert(Multiset::<int>::empty(), v);
    lemma_min_props(s);
    lemma_max_props(s);
}

} // verus!
