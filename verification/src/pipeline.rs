//! The aggregation pipeline: dispatcher, worker and merger.
//!
//! The dispatcher assigns line `i` to shard `i % n` (round robin over `n`
//! workers).  A worker folds its shard into a private table, skipping
//! malformed lines.  The merger folds all per-worker tables into one.  The
//! theorem `lemma_sharding` shows that the merged model is exactly the model
//! of the whole input, whatever the worker count, which is what makes the
//! sharding strategy sound.

use vstd::arithmetic::div_mod::lemma_mod_bound;
use vstd::multiset::Multiset;
use vstd::prelude::*;

use crate::parse::parse_line;
use crate::parse::spec_parse_line;
use crate::table::model_merge;
use crate::table::model_record;
use crate::table::AggregateTable;

verus! {

broadcast use vstd::multiset::group_multiset_axioms, vstd::multiset::group_multiset_properties;

/// The byte sequences of a sequence of byte vectors.
pub open spec fn views_of(lines: Seq<Vec<u8>>) -> Seq<Seq<u8>> {
    lines.map_values(|l: Vec<u8>| l@)
}

/// The records denoted by the well-formed lines, in input order.
pub open spec fn recs_of(lines: Seq<Seq<u8>>) -> Seq<(Seq<u8>, int)>
    decreases lines.len(),
{
    if lines.len() == 0 {
        Seq::empty()
    } else {
        let r = recs_of(lines.drop_last());
        match spec_parse_line(lines.last()) {
            Some(rec) => r.push(rec),
            None => r,
        }
    }
}

/// The malformed lines, in input order.
pub open spec fn bad_of(lines: Seq<Seq<u8>>) -> Seq<Seq<u8>>
    decreases lines.len(),
{
    if lines.len() == 0 {
        Seq::empty()
    } else {
        let r = bad_of(lines.drop_last());
        match spec_parse_line(lines.last()) {
            Some(rec) => r,
            None => r.push(lines.last()),
        }
    }
}

/// The model a sequence of records denotes: every value filed under its key.
pub open spec fn table_model(rs: Seq<(Seq<u8>, int)>) -> Map<Seq<u8>, Multiset<int>>
    decreases rs.len(),
{
    if rs.len() == 0 {
        Map::empty()
    } else {
        model_record(table_model(rs.drop_last()), rs.last().0, rs.last().1)
    }
}

/// Round-robin sharding: line `i` goes to shard `i % n`.
pub open spec fn spec_shards(lines: Seq<Seq<u8>>, n: int) -> Seq<Seq<Seq<u8>>>
    decreases lines.len(),
{
    if lines.len() == 0 {
        Seq::new(n as nat, |j: int| Seq::<Seq<u8>>::empty())
    } else {
        let prev = spec_shards(lines.drop_last(), n);
        let idx = (lines.len() - 1) as int % n;
        prev.update(idx, prev[idx].push(lines.last()))
    }
}

/// The per-shard models: what each worker's table will denote.
pub open spec fn shard_models(sv: Seq<Seq<Seq<u8>>>) -> Seq<Map<Seq<u8>, Multiset<int>>> {
    sv.map_values(|s: Seq<Seq<u8>>| table_model(recs_of(s)))
}

/// The total number of well-formed records across the shards.
pub open spec fn sum_lens(sv: Seq<Seq<Seq<u8>>>) -> int
    decreases sv.len(),
{
    if sv.len() == 0 {
        0
    } else {
        sum_lens(sv.drop_last()) + recs_of(sv.last()).len()
    }
}

/// A sequence of per-worker models folded into one, in order.
pub open spec fn merged_of(ms: Seq<Map<Seq<u8>, Multiset<int>>>) -> Map<Seq<u8>, Multiset<int>>
    decreases ms.len(),
{
    if ms.len() == 0 {
        Map::empty()
    } else {
        model_merge(merged_of(ms.drop_last()), ms.last())
    }
}

/// The models of a sequence of tables.
pub open spec fn models_of(ts: Seq<AggregateTable>) -> Seq<Map<Seq<u8>, Multiset<int>>> {
    ts.map_values(|t: AggregateTable| t@)
}

/// The total number of observations across a sequence of tables.
pub open spec fn sum_records(ts: Seq<AggregateTable>) -> int
    decreases ts.len(),
{
    if ts.len() == 0 {
        0
    } else {
        sum_records(ts.drop_last()) + ts.last().records
    }
}

/// There are no more records than lines.
pub proof fn lemma_recs_len_le(lines: Seq<Seq<u8>>)
    ensures
        recs_of(lines).len() <= lines.len(),
    decreases lines.len(),
{
    if lines.len() > 0 {
        lemma_recs_len_le(lines.drop_last());
    }
}

/// Sharding always yields one shard per worker.
pub proof fn lemma_shards_len(lines: Seq<Seq<u8>>, n: int)
    requires
        n >= 1,
    ensures
        spec_shards(lines, n).len() == n,
    decreases lines.len(),
{
    if lines.len() > 0 {
        lemma_shards_len(lines.drop_last(), n);
    }
}

/// Merging models commutes with filing one more record on the right.
pub proof fn lemma_mm_record_right(
    a: Map<Seq<u8>, Multiset<int>>,
    b: Map<Seq<u8>, Multiset<int>>,
    k: Seq<u8>,
    v: int,
)
    ensures
        model_merge(a, model_record(b, k, v)) == model_record(model_merge(a, b), k, v),
{
    assert(a[k].add(b[k].insert(v)) =~= a[k].add(b[k]).insert(v));
    assert(a[k].add(Multiset::singleton(v)) =~= a[k].insert(v));
    assert(model_merge(a, model_record(b, k, v)) =~= model_record(model_merge(a, b), k, v));
}

/// Merging models commutes with filing one more record on the left.
pub proof fn lemma_mm_record_left(
    a: Map<Seq<u8>, Multiset<int>>,
    b: Map<Seq<u8>, Multiset<int>>,
    k: Seq<u8>,
    v: int,
)
    ensures
        model_merge(model_record(a, k, v), b) == model_record(model_merge(a, b), k, v),
{
    assert(a[k].insert(v).add(b[k]) =~= a[k].add(b[k]).insert(v));
    assert(Multiset::singleton(v).add(b[k]) =~= b[k].insert(v));
    assert(model_merge(model_record(a, k, v), b) =~= model_record(model_merge(a, b), k, v));
}

/// Filing one record into any one of the per-worker models files it into the
/// merged model.
pub proof fn lemma_merged_update(
    ms: Seq<Map<Seq<u8>, Multiset<int>>>,
    idx: int,
    k: Seq<u8>,
    v: int,
)
    requires
        0 <= idx < ms.len(),
    ensures
        merged_of(ms.update(idx, model_record(ms[idx], k, v))) == model_record(
            merged_of(ms),
            k,
            v,
        ),
    decreases ms.len(),
{
    let t = ms.update(idx, model_record(ms[idx], k, v));
    if idx == ms.len() - 1 {
        assert(t.drop_last() =~= ms.drop_last());
        assert(t.last() == model_record(ms[idx], k, v));
        lemma_mm_record_right(merged_of(ms.drop_last()), ms[idx], k, v);
    } else {
        assert(ms.drop_last()[idx] == ms[idx]);
        lemma_merged_update(ms.drop_last(), idx, k, v);
        assert(t.drop_last() =~= ms.drop_last().update(idx, model_record(ms[idx], k, v)));
        assert(t.last() == ms.last());
        lemma_mm_record_left(merged_of(ms.drop_last()), ms.last(), k, v);
    }
}

/// A fold of empty models is the empty model.
pub proof fn lemma_merged_empty(ms: Seq<Map<Seq<u8>, Multiset<int>>>)
    requires
        forall|q: int| 0 <= q < ms.len() ==> ms[q] == Map::<Seq<u8>, Multiset<int>>::empty(),
    ensures
        merged_of(ms) == Map::<Seq<u8>, Multiset<int>>::empty(),
    decreases ms.len(),
{
    if ms.len() > 0 {
        assert forall|q: int| 0 <= q < ms.drop_last().len() implies ms.drop_last()[q] == Map::<
            Seq<u8>,
            Multiset<int>,
        >::empty() by {
            assert(ms.drop_last()[q] == ms[q]);
        }
        lemma_merged_empty(ms.drop_last());
        assert(model_merge(
            Map::<Seq<u8>, Multiset<int>>::empty(),
            Map::<Seq<u8>, Multiset<int>>::empty(),
        ) =~= Map::<Seq<u8>, Multiset<int>>::empty());
    }
}

/// Replacing one shard shifts the record total by the difference.
pub proof fn lemma_sum_lens_update(sv: Seq<Seq<Seq<u8>>>, idx: int, w: Seq<Seq<u8>>)
    requires
        0 <= idx < sv.len(),
    ensures
        sum_lens(sv.update(idx, w)) == sum_lens(sv) - recs_of(sv[idx]).len() + recs_of(w).len(),
    decreases sv.len(),
{
    let t = sv.update(idx, w);
    if idx == sv.len() - 1 {
        assert(t.drop_last() =~= sv.drop_last());
        assert(t.last() == w);
    } else {
        assert(sv.drop_last()[idx] == sv[idx]);
        lemma_sum_lens_update(sv.drop_last(), idx, w);
        assert(t.drop_last() =~= sv.drop_last().update(idx, w));
        assert(t.last() == sv.last());
    }
}

/// A sharding of no lines holds no records.
pub proof fn lemma_sum_lens_empty(sv: Seq<Seq<Seq<u8>>>)
    requires
        forall|q: int| 0 <= q < sv.len() ==> sv[q] == Seq::<Seq<u8>>::empty(),
    ensures
        sum_lens(sv) == 0,
    decreases sv.len(),
{
    if sv.len() > 0 {
        assert forall|q: int| 0 <= q < sv.drop_last().len() implies sv.drop_last()[q] == Seq::<
            Seq<u8>,
        >::empty() by {
            assert(sv.drop_last()[q] == sv[q]);
        }
        lemma_sum_lens_empty(sv.drop_last());
    }
}

/// Soundness of round-robin sharding: folding each shard separately and
/// merging the per-shard models gives exactly the model of the whole input,
/// for every worker count; and the shards together hold exactly the input's
/// well-formed records.
pub proof fn lemma_sharding(lines: Seq<Seq<u8>>, n: int)
    requires
        n >= 1,
    ensures
        merged_of(shard_models(spec_shards(lines, n))) == table_model(recs_of(lines)),
        sum_lens(spec_shards(lines, n)) == recs_of(lines).len(),
    decreases lines.len(),
{
    lemma_shards_len(lines, n);
    if lines.len() == 0 {
        let sv = spec_shards(lines, n);
        assert forall|q: int| 0 <= q < sv.len() implies sv[q] == Seq::<Seq<u8>>::empty() by {}
        lemma_sum_lens_empty(sv);
        assert forall|q: int| 0 <= q < shard_models(sv).len() implies shard_models(sv)[q] == Map::<
            Seq<u8>,
            Multiset<int>,
        >::empty() by {}
        lemma_merged_empty(shard_models(sv));
    } else {
        let rest = lines.drop_last();
        let l = lines.last();
        lemma_sharding(rest, n);
        lemma_shards_len(rest, n);
        let prev = spec_shards(rest, n);
        let idx = (lines.len() - 1) as int % n;
        lemma_mod_bound((lines.len() - 1) as int, n);
        let cur = spec_shards(lines, n);
        let pushed = prev[idx].push(l);
        assert(cur == prev.update(idx, pushed));
        assert(pushed.drop_last() =~= prev[idx]);
        assert(pushed.last() == l);
        match spec_parse_line(l) {
            Some(rec) => {
                assert(recs_of(pushed) == recs_of(prev[idx]).push(rec));
                assert(recs_of(pushed).drop_last() =~= recs_of(prev[idx]));
                assert(table_model(recs_of(pushed)) == model_record(
                    table_model(recs_of(prev[idx])),
                    rec.0,
                    rec.1,
                ));
                assert(shard_models(cur) =~= shard_models(prev).update(
                    idx,
                    model_record(shard_models(prev)[idx], rec.0, rec.1),
                ));
                lemma_merged_update(shard_models(prev), idx, rec.0, rec.1);
                assert(recs_of(lines) == recs_of(rest).push(rec));
                assert(recs_of(lines).drop_last() =~= recs_of(rest));
                lemma_sum_lens_update(prev, idx, pushed);
            },
            None => {
                assert(recs_of(pushed) == recs_of(prev[idx]));
                assert(shard_models(cur) =~= shard_models(prev));
                assert(recs_of(lines) == recs_of(rest));
                lemma_sum_lens_update(prev, idx, pushed);
            },
        }
    }
}

/// The total over a prefix plus the total over the rest is the whole total.
pub proof fn lemma_sum_records_split(ts: Seq<AggregateTable>, m: int)
    requires
        0 <= m <= ts.len(),
    ensures
        sum_records(ts) == sum_records(ts.take(m)) + sum_records(ts.skip(m)),
    decreases ts.len(),
{
    if m == ts.len() {
        assert(ts.take(m) =~= ts);
        assert(ts.skip(m) =~= Seq::<AggregateTable>::empty());
    } else {
        lemma_sum_records_split(ts.drop_last(), m);
        assert(ts.take(m) =~= ts.drop_last().take(m));
        assert(ts.skip(m).drop_last() =~= ts.drop_last().skip(m));
        assert(ts.skip(m).last() == ts.last());
        assert(ts.skip(m).len() > 0);
    }
}

/// Totals over tables are nonnegative.
pub proof fn lemma_sum_records_nonneg(ts: Seq<AggregateTable>)
    ensures
        sum_records(ts) >= 0,
    decreases ts.len(),
{
    if ts.len() > 0 {
        lemma_sum_records_nonneg(ts.drop_last());
    }
}

/// One worker's whole job: parse every line of the shard, fold each
/// well-formed record into a private table, and hand back that table
/// together with the malformed lines, for diagnostics.
#[verifier::loop_isolation(false)]
pub fn fold_lines(lines: &Vec<Vec<u8>>) -> (r: (AggregateTable, Vec<Vec<u8>>))
    ensures
        r.0.inv(),
        r.0@ == table_model(recs_of(views_of(lines@))),
        r.0.records as int == recs_of(views_of(lines@)).len(),
        views_of(r.1@) == bad_of(views_of(lines@)),
{
    let ghost vol = views_of(lines@);
    let mut table = AggregateTable::new();
    let mut bad: Vec<Vec<u8>> = Vec::new();
    let n = lines.len();
    let mut i: usize = 0;
    while i < n
        invariant
            i <= n,
            table.inv(),
            table@ == table_model(recs_of(vol.take(i as int))),
            table.records as int == recs_of(vol.take(i as int)).len(),
            views_of(bad@) == bad_of(vol.take(i as int)),
        decreases n - i,
    {
        proof {
            assert(vol.take(i as int + 1).drop_last() =~= vol.take(i as int));
            assert(vol.take(i as int + 1).last() == lines@[i as int]@);
            lemma_recs_len_le(vol.take(i as int));
        }
        match parse_line(&lines[i]) {
            Ok(rec) => {
                proof {
                    assert(table.records as int <= i as int);
                    assert(i < n <= usize::MAX);
                    assert(table.records < u64::MAX);
                }
                table.update(rec.key, rec.value);
                proof {
                    let rs = recs_of(vol.take(i as int));
                    let rec2 = (rec.key@, rec.value as int);
                    assert(recs_of(vol.take(i as int + 1)) == rs.push(rec2));
                    assert(rs.push(rec2).drop_last() =~= rs);
                    assert(table@ == table_model(recs_of(vol.take(i as int + 1))));
                    assert(bad_of(vol.take(i as int + 1)) == bad_of(vol.take(i as int)));
                }
            },
            Err(_) => {
                let c = lines[i].clone();
                proof {
                    assert(c@ =~= lines@[i as int]@);
                }
                let ghost prevbad = bad@;
                bad.push(c);
                proof {
                    assert(views_of(bad@) =~= views_of(prevbad).push(lines@[i as int]@));
                    assert(bad_of(vol.take(i as int + 1)) == bad_of(vol.take(i as int)).push(
                        lines@[i as int]@,
                    ));
                    assert(recs_of(vol.take(i as int + 1)) == recs_of(vol.take(i as int)));
                }
            },
        }
        i = i + 1;
    }
    proof {
        assert(vol.take(n as int) =~= vol);
    }
    (table, bad)
}

/// The dispatcher: assign line `i` to shard `i % n`, round robin.
#[verifier::loop_isolation(false)]
pub fn shard_lines(lines: &Vec<Vec<u8>>, n: usize) -> (shards: Vec<Vec<Vec<u8>>>)
    requires
        n >= 1,
    ensures
        shards@.len() == n,
        spec_shards(views_of(lines@), n as int) == shard_views(shards@),
{
    let ghost vol = views_of(lines@);
    let mut shards: Vec<Vec<Vec<u8>>> = Vec::new();
    let mut j: usize = 0;
    while j < n
        invariant
            j <= n,
            shards@.len() == j,
            forall|k: int| 0 <= k < j ==> (#[trigger] shards@[k])@.len() == 0,
        decreases n - j,
    {
        shards.push(Vec::new());
        j = j + 1;
    }
    proof {
        assert(shard_views(shards@) =~= spec_shards(vol.take(0), n as int)) by {
            assert(vol.take(0) =~= Seq::<Seq<u8>>::empty());
            assert forall|k: int| 0 <= k < n implies shard_views(shards@)[k] =~= Seq::<
                Seq<u8>,
            >::empty() by {
                assert(shards@[k]@ =~= Seq::<Vec<u8>>::empty());
            }
        }
    }
    let m = lines.len();
    let mut i: usize = 0;
    while i < m
        invariant
            i <= m,
            shards@.len() == n,
            shard_views(shards@) == spec_shards(vol.take(i as int), n as int),
        decreases m - i,
    {
        let idx = i % n;
        proof {
            lemma_mod_bound(i as int, n as int);
        }
        let c = lines[i].clone();
        proof {
            assert(c@ =~= lines@[i as int]@);
        }
        let ghost prevsh = shards@;
        shards[idx].push(c);
        proof {
            assert(shards@ =~= prevsh.update(idx as int, shards@[idx as int]));
            assert(vol.take(i as int + 1).drop_last() =~= vol.take(i as int));
            assert(vol.take(i as int + 1).last() == vol[i as int]);
            let prev = spec_shards(vol.take(i as int), n as int);
            lemma_shards_len(vol.take(i as int), n as int);
            assert((vol.take(i as int + 1).len() - 1) as int % (n as int) == idx as int);
            assert(shard_views(shards@) =~= prev.update(idx as int, prev[idx as int].push(
                vol[i as int],
            ))) by {
                assert(shards@[idx as int]@ =~= prevsh[idx as int]@.push(c));
                assert(views_of(shards@[idx as int]@) =~= views_of(prevsh[idx as int]@).push(c@));
            }
        }
        i = i + 1;
    }
    proof {
        assert(vol.take(m as int) =~= vol);
    }
    shards
}

/// The byte sequences of every shard.
pub open spec fn shard_views(sh: Seq<Vec<Vec<u8>>>) -> Seq<Seq<Seq<u8>>> {
    sh.map_values(|w: Vec<Vec<u8>>| views_of(w@))
}

/// The merger: fold every per-worker table into one, in order.
#[verifier::loop_isolation(false)]
pub fn merge_tables(tables: Vec<AggregateTable>) -> (t: AggregateTable)
    requires
        forall|i: int| 0 <= i < tables@.len() ==> (#[trigger] tables@[i]).inv(),
        sum_records(tables@) <= u64::MAX,
    ensures
        t.inv(),
        t@ == merged_of(models_of(tables@)),
        t.records as int == sum_records(tables@),
{
    let mut t = AggregateTable::new();
    let mut ts = tables;
    let ghost mut i: int = 0;
    proof {
        assert(ts@ =~= tables@.skip(0));
        assert(models_of(tables@.take(0)) =~= Seq::<Map<Seq<u8>, Multiset<int>>>::empty());
        assert(tables@.take(0) =~= Seq::<AggregateTable>::empty());
    }
    while ts.len() > 0
        invariant
            0 <= i as int <= tables@.len(),
            ts@ == tables@.skip(i as int),
            t.inv(),
            t@ == merged_of(models_of(tables@.take(i as int))),
            t.records as int == sum_records(tables@.take(i as int)),
        decreases ts@.len(),
    {
        let tb = ts.remove(0);
        proof {
            assert(tb == tables@[i as int]);
            assert(ts@ =~= tables@.skip(i as int + 1));
            assert(tables@.take(i as int + 1).drop_last() =~= tables@.take(i as int));
            assert(tables@.take(i as int + 1).last() == tables@[i as int]);
            lemma_sum_records_split(tables@, i as int + 1);
            lemma_sum_records_nonneg(tables@.skip(i as int + 1));
            assert(t.records as int + tb.records as int <= u64::MAX);
        }
        t.merge_into(tb);
        proof {
            assert(models_of(tables@.take(i as int + 1)).drop_last() =~= models_of(
                tables@.take(i as int),
            ));
            assert(models_of(tables@.take(i as int + 1)).last() == tables@[i as int]@);
            assert(t@ == merged_of(models_of(tables@.take(i as int + 1))));
            i = i + 1;
        }
    }
    proof {
        assert(tables@.take(tables@.len() as int) =~= tables@);
        assert(ts@.len() == 0);
        assert(i as int == tables@.len());
    }
    t
}

/// The whole pipeline, as one deterministic function: shard the lines round
/// robin over `workers` workers, fold each shard into a private table, merge
/// the per-worker tables.  The result's model is exactly the model of the
/// input's well-formed records — the worker count does not appear in the
/// contract, so it cannot influence the result.
#[verifier::loop_isolation(false)]
pub fn aggregate_lines(lines: &Vec<Vec<u8>>, workers: usize) -> (t: AggregateTable)
    requires
        workers >= 1,
    ensures
        t.inv(),
        t@ == table_model(recs_of(views_of(lines@))),
        t.records as int == recs_of(views_of(lines@)).len(),
{
    let ghost vol = views_of(lines@);
    let shards = shard_lines(lines, workers);
    let ghost sv = shard_views(shards@);
    let mut tables: Vec<AggregateTable> = Vec::new();
    let nsh = shards.len();
    let mut j: usize = 0;
    while j < nsh
        invariant
            j <= nsh,
            tables@.len() == j,
            forall|k: int| 0 <= k < j ==> (#[trigger] tables@[k]).inv(),
            forall|k: int|
                0 <= k < j ==> (#[trigger] tables@[k])@ == table_model(recs_of(sv[k])),
            forall|k: int|
                0 <= k < j ==> (#[trigger] tables@[k]).records as int == recs_of(sv[k]).len(),
        decreases nsh - j,
    {
        let r = fold_lines(&shards[j]);
        proof {
            assert(sv[j as int] == views_of(shards@[j as int]@));
        }
        tables.push(r.0);
        j = j + 1;
    }
    proof {
        lemma_sharding(vol, workers as int);
        assert(models_of(tables@) =~= shard_models(sv));
        lemma_sum_records_matches_lens(tables@, sv);
        lemma_recs_len_le(vol);
        vstd::std_specs::vec::axiom_spec_len(lines);
        assert(vol.len() == lines@.len());
        assert(sum_records(tables@) <= u64::MAX);
    }
    merge_tables(tables)
}

/// Tables whose record counters match their shards' record counts sum to the
/// shards' total.
pub proof fn lemma_sum_records_matches_lens(ts: Seq<AggregateTable>, sv: Seq<Seq<Seq<u8>>>)
    requires
        ts.len() == sv.len(),
        forall|k: int| 0 <= k < ts.len() ==> (#[trigger] ts[k]).records as int == recs_of(
            sv[k],
        ).len(),
    ensures
        sum_records(ts) == sum_lens(sv),
    decreases ts.len(),
{
    if ts.len() > 0 {
        assert forall|k: int| 0 <= k < ts.drop_last().len() implies (#[trigger] ts.drop_last()[
        k]).records as int == recs_of(sv.drop_last()[k]).len() by {
            assert(ts.drop_last()[k] == ts[k]);
            assert(sv.drop_last()[k] == sv[k]);
        }
        lemma_sum_records_matches_lens(ts.drop_last(), sv.drop_last());
    }
}

/// Does `l` parse to a record whose key is `k`?
pub open spec fn line_has_key(l: Seq<u8>, k: Seq<u8>) -> bool {
    match spec_parse_line(l) {
        Some(r) => r.0 == k,
        None => false,
    }
}

/// A key is in a record sequence's model exactly when some record carries it.
pub proof fn lemma_table_model_keys(rs: Seq<(Seq<u8>, int)>, k: Seq<u8>)
    ensures
        table_model(rs).contains_key(k) <==> exists|i: int|
            0 <= i < rs.len() && (#[trigger] rs[i]).0 == k,
    decreases rs.len(),
{
    if rs.len() > 0 {
        lemma_table_model_keys(rs.drop_last(), k);
        if rs.last().0 == k {
            assert(rs[rs.len() - 1].0 == k);
        } else if table_model(rs).contains_key(k) {
            let i = choose|i: int|
                0 <= i < rs.drop_last().len() && (#[trigger] rs.drop_last()[i]).0 == k;
            assert(rs[i].0 == k);
        } else {
            assert forall|i: int| 0 <= i < rs.len() implies (#[trigger] rs[i]).0 != k by {
                if i < rs.len() - 1 {
                    assert(rs.drop_last()[i] == rs[i]);
                }
            }
        }
    }
}

/// A key occurs among the parsed records exactly when some well-formed line
/// carries it.
pub proof fn lemma_recs_keys(lines: Seq<Seq<u8>>, k: Seq<u8>)
    ensures
        (exists|i: int| 0 <= i < recs_of(lines).len() && (#[trigger] recs_of(lines)[i]).0 == k)
            <==> (exists|j: int| 0 <= j < lines.len() && line_has_key(#[trigger] lines[j], k)),
    decreases lines.len(),
{
    if lines.len() > 0 {
        let rest = lines.drop_last();
        lemma_recs_keys(rest, k);
        let rs = recs_of(lines);
        let prev = recs_of(rest);
        assert(forall|j: int| 0 <= j < rest.len() ==> rest[j] == #[trigger] lines[j]);
        match spec_parse_line(lines.last()) {
            Some(rec) => {
                assert(rs == prev.push(rec));
                if exists|i: int| 0 <= i < rs.len() && (#[trigger] rs[i]).0 == k {
                    let i = choose|i: int| 0 <= i < rs.len() && (#[trigger] rs[i]).0 == k;
                    if i == rs.len() - 1 {
                        assert(line_has_key(lines[lines.len() - 1], k));
                    } else {
                        assert(prev[i].0 == k);
                        let j = choose|j: int|
                            0 <= j < rest.len() && line_has_key(#[trigger] rest[j], k);
                        assert(line_has_key(lines[j], k));
                    }
                }
                if exists|j: int| 0 <= j < lines.len() && line_has_key(#[trigger] lines[j], k) {
                    let j = choose|j: int|
                        0 <= j < lines.len() && line_has_key(#[trigger] lines[j], k);
                    if j == lines.len() - 1 {
                        assert(rs[rs.len() - 1].0 == k);
                    } else {
                        assert(line_has_key(rest[j], k));
                        let i = choose|i: int| 0 <= i < prev.len() && (#[trigger] prev[i]).0 == k;
                        assert(rs[i].0 == k);
                    }
                }
            },
            None => {
                assert(rs == prev);
                if exists|j: int| 0 <= j < lines.len() && line_has_key(#[trigger] lines[j], k) {
                    let j = choose|j: int|
                        0 <= j < lines.len() && line_has_key(#[trigger] lines[j], k);
                    assert(j < lines.len() - 1);
                    assert(line_has_key(rest[j], k));
                    let i = choose|i: int| 0 <= i < prev.len() && (#[trigger] prev[i]).0 == k;
                    assert(rs[i].0 == k);
                }
            },
        }
    }
}

/// Exactly the keys of well-formed input lines appear in the final model —
/// and, the table's keys being pairwise distinct, each appears exactly once
/// in the final table.  A malformed line contributes no key and no value.
pub proof fn lemma_result_keys(lines: Seq<Seq<u8>>, k: Seq<u8>)
    ensures
        table_model(recs_of(lines)).contains_key(k) <==> exists|j: int|
            0 <= j < lines.len() && line_has_key(#[trigger] lines[j], k),
{
    lemma_table_model_keys(recs_of(lines), k);
    lemma_recs_keys(lines, k);
}

/// Sharding the same input over any two worker counts merges to the same
/// model, hence (by `lemma_same_model_same_stats`) to identical keys and
/// per-key statistics.
pub proof fn lemma_worker_count_irrelevant(lines: Seq<Seq<u8>>, n1: int, n2: int)
    requires
        n1 >= 1,
        n2 >= 1,
    ensures
        merged_of(shard_models(spec_shards(lines, n1))) == merged_of(
            shard_models(spec_shards(lines, n2)),
        ),
{
    lemma_sharding(lines, n1);
    lemma_sharding(lines, n2);
}

} // verus!
