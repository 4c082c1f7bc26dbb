//! The mapping from key to aggregate.
//!
//! An `AggregateTable` keeps exactly one entry per distinct key.  Its model
//! is a map from the key's bytes to the multiset of all values contributed
//! to that key; `update` folds one record in, `merge_into` folds a whole
//! table in.  The running total of observations is kept alongside so that a
//! caller can see, before folding more in, that the counters cannot
//! overflow.

use vstd::multiset::Multiset;
use vstd::prelude::*;

use crate::aggregate::lemma_aggregate_determined;
use crate::aggregate::Aggregate;

verus! {

broadcast use vstd::multiset::group_multiset_axioms, vstd::multiset::group_multiset_properties;

/// One key with its running statistics.
pub struct Entry {
    pub key: Vec<u8>,
    pub agg: Aggregate,
}

/// No two entries share a key.
pub open spec fn keys_unique(s: Seq<Entry>) -> bool {
    forall|i: int, j: int| 0 <= i < j < s.len() ==> s[i].key@ != s[j].key@
}

/// Every entry's aggregate is well formed.
pub open spec fn entries_inv(s: Seq<Entry>) -> bool {
    forall|i: int| 0 <= i < s.len() ==> (#[trigger] s[i].agg).inv()
}

/// The total number of observations across all entries.
pub open spec fn total_of(s: Seq<Entry>) -> int
    decreases s.len(),
{
    if s.len() == 0 {
        0
    } else {
        total_of(s.drop_last()) + s.last().agg.count
    }
}

/// The map an entry sequence denotes: each key to its contributed values.
pub open spec fn map_of(s: Seq<Entry>) -> Map<Seq<u8>, Multiset<int>>
    decreases s.len(),
{
    if s.len() == 0 {
        Map::empty()
    } else {
        map_of(s.drop_last()).insert(s.last().key@, s.last().agg.vals@)
    }
}

/// One record folded into a model: the value joins its key's multiset.
pub open spec fn model_record(m: Map<Seq<u8>, Multiset<int>>, k: Seq<u8>, v: int) -> Map<
    Seq<u8>,
    Multiset<int>,
> {
    if m.contains_key(k) {
        m.insert(k, m[k].insert(v))
    } else {
        m.insert(k, Multiset::singleton(v))
    }
}

/// Two models merged: keys are united, shared keys unite their multisets.
pub open spec fn model_merge(
    a: Map<Seq<u8>, Multiset<int>>,
    b: Map<Seq<u8>, Multiset<int>>,
) -> Map<Seq<u8>, Multiset<int>> {
    Map::new(
        |k: Seq<u8>| a.contains_key(k) || b.contains_key(k),
        |k: Seq<u8>|
            if a.contains_key(k) && b.contains_key(k) {
                a[k].add(b[k])
            } else if a.contains_key(k) {
                a[k]
            } else {
                b[k]
            },
    )
}

/// The table: entries with pairwise distinct keys, plus the total number of
/// observations folded in so far.
pub struct AggregateTable {
    pub entries: Vec<Entry>,
    pub records: u64,
}

impl View for AggregateTable {
    type V = Map<Seq<u8>, Multiset<int>>;

    open spec fn view(&self) -> Map<Seq<u8>, Multiset<int>> {
        map_of(self.entries@)
    }
}

/// A key is in the model exactly when some entry holds it.
pub proof fn lemma_map_of_contains(s: Seq<Entry>, k: Seq<u8>)
    ensures
        map_of(s).contains_key(k) <==> exists|i: int| 0 <= i < s.len() && s[i].key@ == k,
    decreases s.len(),
{
    if s.len() > 0 {
        lemma_map_of_contains(s.drop_last(), k);
        if s.last().key@ == k {
            assert(s[s.len() - 1].key@ == k);
        } else if map_of(s).contains_key(k) {
            let i = choose|i: int| 0 <= i < s.drop_last().len() && s.drop_last()[i].key@ == k;
            assert(s[i].key@ == k);
        } else {
            assert forall|i: int| 0 <= i < s.len() implies s[i].key@ != k by {
                if i < s.len() - 1 {
                    assert(s.drop_last()[i].key@ == s[i].key@);
                }
            }
        }
    }
}

/// With unique keys, each entry's statistics are what the model holds for
/// its key.
pub proof fn lemma_map_of_index(s: Seq<Entry>, i: int)
    requires
        keys_unique(s),
        0 <= i < s.len(),
    ensures
        map_of(s).contains_key(s[i].key@),
        map_of(s)[s[i].key@] == s[i].agg.vals@,
    decreases s.len(),
{
    if i < s.len() - 1 {
        assert(keys_unique(s.drop_last()));
        assert(s.drop_last()[i] == s[i]);
        lemma_map_of_index(s.drop_last(), i);
    }
}

/// Replacing the aggregate of entry `i` (key unchanged) replaces that key's
/// multiset in the model.
pub proof fn lemma_map_of_update(s: Seq<Entry>, i: int, e: Entry)
    requires
        keys_unique(s),
        0 <= i < s.len(),
        e.key@ == s[i].key@,
    ensures
        map_of(s.update(i, e)) == map_of(s).insert(e.key@, e.agg.vals@),
    decreases s.len(),
{
    let t = s.update(i, e);
    if i == s.len() - 1 {
        assert(t.drop_last() =~= s.drop_last());
        assert(t.last() == e);
        assert(map_of(t) =~= map_of(s).insert(e.key@, e.agg.vals@));
    } else {
        assert(keys_unique(s.drop_last()));
        assert(s.drop_last()[i] == s[i]);
        lemma_map_of_update(s.drop_last(), i, e);
        assert(t.drop_last() =~= s.drop_last().update(i, e));
        assert(t.last() == s.last());
        assert(s.last().key@ != e.key@);
        assert(map_of(t) =~= map_of(s).insert(e.key@, e.agg.vals@));
    }
}

/// Appending an entry inserts its key into the model.
pub proof fn lemma_map_of_push(s: Seq<Entry>, e: Entry)
    ensures
        map_of(s.push(e)) == map_of(s).insert(e.key@, e.agg.vals@),
{
    assert(s.push(e).drop_last() =~= s);
    assert(s.push(e).last() == e);
}

/// Replacing entry `i` shifts the total by the change in its count.
pub proof fn lemma_total_update(s: Seq<Entry>, i: int, e: Entry)
    requires
        0 <= i < s.len(),
    ensures
        total_of(s.update(i, e)) == total_of(s) - s[i].agg.count + e.agg.count,
    decreases s.len(),
{
    let t = s.update(i, e);
    if i == s.len() - 1 {
        assert(t.drop_last() =~= s.drop_last());
        assert(t.last() == e);
    } else {
        lemma_total_update(s.drop_last(), i, e);
        assert(t.drop_last() =~= s.drop_last().update(i, e));
        assert(t.last() == s.last());
        assert(s.drop_last()[i] == s[i]);
    }
}

/// Appending an entry adds its count to the total.
pub proof fn lemma_total_push(s: Seq<Entry>, e: Entry)
    ensures
        total_of(s.push(e)) == total_of(s) + e.agg.count,
{
    assert(s.push(e).drop_last() =~= s);
    assert(s.push(e).last() == e);
}

/// The total is nonnegative and bounds every single count.
pub proof fn lemma_total_bounds(s: Seq<Entry>)
    ensures
        total_of(s) >= 0,
        forall|i: int| 0 <= i < s.len() ==> s[i].agg.count <= total_of(s),
    decreases s.len(),
{
    if s.len() > 0 {
        lemma_total_bounds(s.drop_last());
        assert forall|i: int| 0 <= i < s.len() implies s[i].agg.count <= total_of(s) by {
            if i < s.len() - 1 {
                assert(s.drop_last()[i] == s[i]);
            }
        }
    }
}

/// Are the bytes of `a` and `b` equal?
fn bytes_eq(a: &Vec<u8>, b: &Vec<u8>) -> (r: bool)
    ensures
        r <==> a@ == b@,
{
    if a.len() != b.len() {
        return false;
    }
    let n = a.len();
    let mut i: usize = 0;
    while i < n
        invariant
            i <= n,
            n == a@.len() == b@.len(),
            forall|j: int| 0 <= j < i ==> a@[j] == b@[j],
        decreases n - i,
    {
        if a[i] != b[i] {
            return false;
        }
        i = i + 1;
    }
    proof {
        assert(a@ =~= b@);
    }
    true
}

impl AggregateTable {
    /// Keys are unique, every aggregate is well formed, and `records` is the
    /// total number of observations in the table.
    pub open spec fn inv(self) -> bool {
        &&& keys_unique(self.entries@)
        &&& entries_inv(self.entries@)
        &&& self.records as int == total_of(self.entries@)
    }

    /// An empty table.
    pub fn new() -> (t: AggregateTable)
        ensures
            t.inv(),
            t@ == Map::<Seq<u8>, Multiset<int>>::empty(),
            t.records == 0,
            t.entries@.len() == 0,
    {
        AggregateTable { entries: Vec::new(), records: 0 }
    }

    /// The number of distinct keys in the table.
    pub fn len(&self) -> (n: usize)
        ensures
            n == self.entries@.len(),
    {
        self.entries.len()
    }

    /// The total number of observations folded into the table.
    pub fn records(&self) -> (n: u64)
        ensures
            n == self.records,
    {
        self.records
    }

    /// The index of the entry holding `key`, if any.
    fn find(&self, key: &Vec<u8>) -> (r: Option<usize>)
        ensures
            match r {
                Some(i) => i < self.entries@.len() && self.entries@[i as int].key@ == key@,
                None => forall|i: int|
                    0 <= i < self.entries@.len() ==> self.entries@[i].key@ != key@,
            },
    {
        let n = self.entries.len();
        let mut i: usize = 0;
        while i < n
            invariant
                i <= n,
                n == self.entries@.len(),
                forall|j: int| 0 <= j < i ==> self.entries@[j].key@ != key@,
            decreases n - i,
        {
            if bytes_eq(&self.entries[i].key, key) {
                return Some(i);
            }
            i = i + 1;
        }
        None
    }

    /// Fold one observation in: a fresh singleton aggregate for a new key,
    /// `record` on the existing aggregate otherwise.
    pub fn update(&mut self, key: Vec<u8>, value: i64)
        requires
            old(self).inv(),
            old(self).records < u64::MAX,
        ensures
            final(self).inv(),
            final(self).records == old(self).records + 1,
            final(self)@ == model_record(old(self)@, key@, value as int),
    {
        let ghost oldentries = self.entries@;
        match self.find(&key) {
            Some(i) => {
                proof {
                    lemma_total_bounds(oldentries);
                    lemma_map_of_contains(oldentries, key@);
                    lemma_map_of_index(oldentries, i as int);
                }
                self.entries[i].agg.record(value);
                self.records = self.records + 1;
                proof {
                    let e = self.entries@[i as int];
                    assert(self.entries@ =~= oldentries.update(i as int, e));
                    assert(e.key@ == key@);
                    lemma_map_of_update(oldentries, i as int, e);
                    lemma_total_update(oldentries, i as int, e);
                    assert forall|x: int, y: int|
                        0 <= x < y < self.entries@.len() implies self.entries@[x].key@
                        != self.entries@[y].key@ by {
                        assert(self.entries@[x].key@ == oldentries[x].key@);
                        assert(self.entries@[y].key@ == oldentries[y].key@);
                    }
                    assert(entries_inv(self.entries@));
                }
            },
            None => {
                proof {
                    lemma_map_of_contains(oldentries, key@);
                }
                let ghost kk = key@;
                let a = Aggregate::new(value);
                self.entries.push(Entry { key, agg: a });
                self.records = self.records + 1;
                proof {
                    let e = self.entries@.last();
                    assert(e.key@ == kk);
                    lemma_map_of_push(oldentries, e);
                    lemma_total_push(oldentries, e);
                    assert forall|x: int, y: int|
                        0 <= x < y < self.entries@.len() implies self.entries@[x].key@
                        != self.entries@[y].key@ by {
                        if y < self.entries@.len() - 1 {
                            assert(self.entries@[x].key@ == oldentries[x].key@);
                            assert(self.entries@[y].key@ == oldentries[y].key@);
                        } else {
                            assert(self.entries@[x].key@ == oldentries[x].key@);
                        }
                    }
                    assert(entries_inv(self.entries@));
                }
            },
        }
    }

    /// Fold a whole table in, consuming it: new keys move over, shared keys
    /// merge their aggregates.  Folding an empty table in changes nothing.
    #[verifier::loop_isolation(false)]
    pub fn merge_into(&mut self, other: AggregateTable)
        requires
            old(self).inv(),
            other.inv(),
            old(self).records + other.records <= u64::MAX,
        ensures
            final(self).inv(),
            final(self).records == old(self).records + other.records,
            final(self)@ == model_merge(old(self)@, other@),
            other.entries@.len() == 0 ==> final(self).entries@ == old(self).entries@
                && final(self).records == old(self).records,
    {
        let AggregateTable { entries: mut rest, records: _ } = other;
        proof {
            assert(rest@ =~= other.entries@.take(rest@.len() as int));
        }
        while rest.len() > 0
            invariant
                self.inv(),
                keys_unique(rest@),
                entries_inv(rest@),
                rest@.len() <= other.entries@.len(),
                rest@ == other.entries@.take(rest@.len() as int),
                model_merge(self@, map_of(rest@)) == model_merge(old(self)@, other@),
                self.records as int + total_of(rest@) == old(self).records + other.records,
                other.entries@.len() == 0 ==> self.entries@ == old(self).entries@
                    && self.records == old(self).records,
            decreases rest@.len(),
        {
            let ghost prevrest = rest@;
            let ghost prevself = self.entries@;
            let ghost prevrec = self.records;
            let e = rest.pop().unwrap();
            proof {
                assert(prevrest =~= rest@.push(e));
                lemma_map_of_push(rest@, e);
                lemma_total_push(rest@, e);
                lemma_total_bounds(rest@);
                lemma_total_bounds(prevself);
                lemma_map_of_contains(rest@, e.key@);
                assert forall|i: int| 0 <= i < rest@.len() implies rest@[i].key@ != e.key@ by {
                    assert(prevrest[i].key@ == rest@[i].key@);
                    assert(prevrest[prevrest.len() - 1].key@ == e.key@);
                }
                assert(!map_of(rest@).contains_key(e.key@));
                assert(keys_unique(rest@) && entries_inv(rest@)) by {
                    assert forall|i: int| 0 <= i < rest@.len() implies (
                    #[trigger] rest@[i].agg).inv() by {
                        assert(prevrest[i] == rest@[i]);
                    }
                }
                assert(rest@ =~= other.entries@.take(rest@.len() as int));
            }
            let c = e.agg.count;
            match self.find(&e.key) {
                Some(i) => {
                    proof {
                        lemma_map_of_contains(prevself, e.key@);
                        lemma_map_of_index(prevself, i as int);
                    }
                    self.entries[i].agg.merge(e.agg);
                    self.records = self.records + c;
                    proof {
                        let ne = self.entries@[i as int];
                        assert(self.entries@ =~= prevself.update(i as int, ne));
                        lemma_map_of_update(prevself, i as int, ne);
                        lemma_total_update(prevself, i as int, ne);
                        assert forall|x: int, y: int|
                            0 <= x < y < self.entries@.len() implies self.entries@[x].key@
                            != self.entries@[y].key@ by {
                            assert(self.entries@[x].key@ == prevself[x].key@);
                            assert(self.entries@[y].key@ == prevself[y].key@);
                        }
                        assert(entries_inv(self.entries@));
                        assert(model_merge(map_of(self.entries@), map_of(rest@)) =~= model_merge(
                            map_of(prevself),
                            map_of(prevrest),
                        ));
                    }
                },
                None => {
                    proof {
                        lemma_map_of_contains(prevself, e.key@);
                    }
                    self.entries.push(e);
                    self.records = self.records + c;
                    proof {
                        let ne = self.entries@.last();
                        lemma_map_of_push(prevself, ne);
                        lemma_total_push(prevself, ne);
                        assert forall|x: int, y: int|
                            0 <= x < y < self.entries@.len() implies self.entries@[x].key@
                            != self.entries@[y].key@ by {
                            if y < self.entries@.len() - 1 {
                                assert(self.entries@[x].key@ == prevself[x].key@);
                                assert(self.entries@[y].key@ == prevself[y].key@);
                            } else {
                                assert(self.entries@[x].key@ == prevself[x].key@);
                            }
                        }
                        assert(entries_inv(self.entries@));
                        assert(model_merge(map_of(self.entries@), map_of(rest@)) =~= model_merge(
                            map_of(prevself),
                            map_of(prevrest),
                        ));
                    }
                },
            }
        }
        proof {
            assert(map_of(rest@) =~= Map::<Seq<u8>, Multiset<int>>::empty());
            assert(model_merge(self@, map_of(rest@)) =~= self@);
        }
    }

    /// The aggregate stored for `key`, if the key has been seen.
    pub fn get(&self, key: &Vec<u8>) -> (r: Option<Aggregate>)
        requires
            self.inv(),
        ensures
            match r {
                Some(a) => self@.contains_key(key@) && a.inv() && a.vals@ == self@[key@],
                None => !self@.contains_key(key@),
            },
    {
        match self.find(key) {
            Some(i) => {
                proof {
                    lemma_map_of_index(self.entries@, i as int);
                }
                Some(self.entries[i].agg)
            },
            None => {
                proof {
                    lemma_map_of_contains(self.entries@, key@);
                }
                None
            },
        }
    }
}

/// Two tables with the same model present the same result: the same keys,
/// and for each key identical min, max, sum and count — however the input
/// was sharded and in whatever order partial tables were merged.
pub proof fn lemma_same_model_same_stats(t1: AggregateTable, t2: AggregateTable)
    requires
        t1.inv(),
        t2.inv(),
        t1@ == t2@,
    ensures
        forall|k: Seq<u8>| t1@.contains_key(k) <==> t2@.contains_key(k),
        forall|i: int|
            0 <= i < t1.entries@.len() ==> exists|j: int|
                0 <= j < t2.entries@.len() && (#[trigger] t2.entries@[j]).key@
                    == (#[trigger] t1.entries@[i]).key@ && t2.entries@[j].agg.min
                    == t1.entries@[i].agg.min && t2.entries@[j].agg.max == t1.entries@[i].agg.max
                    && t2.entries@[j].agg.sum == t1.entries@[i].agg.sum && t2.entries@[j].agg.count
                    == t1.entries@[i].agg.count,
{
    assert forall|i: int| 0 <= i < t1.entries@.len() implies exists|j: int|
        0 <= j < t2.entries@.len() && (#[trigger] t2.entries@[j]).key@
        == (#[trigger] t1.entries@[i]).key@
        && t2.entries@[j].agg.min == t1.entries@[i].agg.min && t2.entries@[j].agg.max
        == t1.entries@[i].agg.max && t2.entries@[j].agg.sum == t1.entries@[i].agg.sum
        && t2.entries@[j].agg.count == t1.entries@[i].agg.count by {
        let k = t1.entries@[i].key@;
        lemma_map_of_index(t1.entries@, i);
        lemma_map_of_contains(t2.entries@, k);
        let j = choose|j: int| 0 <= j < t2.entries@.len() && t2.entries@[j].key@ == k;
        lemma_map_of_index(t2.entries@, j);
        lemma_aggregate_determined(t1.entries@[i].agg, t2.entries@[j].agg);
        assert(0 <= j < t2.entries@.len() && t2.entries@[j].key@ == t1.entries@[i].key@
            && t2.entries@[j].agg.min == t1.entries@[i].agg.min);
    }
}

} // verus!
