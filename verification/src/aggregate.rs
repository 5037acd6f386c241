//! What aggregation means: the table that a sequence of observations determines, and the
//! laws that let it be computed in parts.

use vstd::prelude::*;
use vstd::seq_lib::*;
use crate::record::Stats;

verus! {

/// One record of the input: a key and a value in tenths.
pub struct Observation {
    pub key: Seq<u8>,
    pub value: int,
}

/// A table of aggregates by key, as a mathematical map.
pub type Table = Map<Seq<u8>, Stats>;

/// The values observed under `key`, in the order of observation.
pub open spec fn values_for(obs: Seq<Observation>, key: Seq<u8>) -> Seq<int>
    decreases obs.len(),
{
    if obs.len() == 0 {
        Seq::empty()
    } else if obs.last().key == key {
        values_for(obs.drop_last(), key).push(obs.last().value)
    } else {
        values_for(obs.drop_last(), key)
    }
}

/// The sum of `vs`.
pub open spec fn total(vs: Seq<int>) -> int
    decreases vs.len(),
{
    if vs.len() == 0 {
        0
    } else {
        total(vs.drop_last()) + vs.last()
    }
}

/// The smallest of `vs`, which is not empty.
pub open spec fn least(vs: Seq<int>) -> int
    recommends
        vs.len() > 0,
    decreases vs.len(),
{
    if vs.len() <= 1 {
        vs[0]
    } else if least(vs.drop_last()) <= vs.last() {
        least(vs.drop_last())
    } else {
        vs.last()
    }
}

/// The largest of `vs`, which is not empty.
pub open spec fn greatest(vs: Seq<int>) -> int
    recommends
        vs.len() > 0,
    decreases vs.len(),
{
    if vs.len() <= 1 {
        vs[0]
    } else if greatest(vs.drop_last()) >= vs.last() {
        greatest(vs.drop_last())
    } else {
        vs.last()
    }
}

/// The aggregate of the values `vs`, which are not empty.
pub open spec fn stats_of(vs: Seq<int>) -> Stats
    recommends
        vs.len() > 0,
{
    Stats { min: least(vs), max: greatest(vs), count: vs.len(), sum: total(vs) }
}

/// The table of `obs`: it holds the keys observed, each with the aggregate of its values.
pub open spec fn aggregate(obs: Seq<Observation>) -> Table {
    Map::new(
        |key: Seq<u8>| values_for(obs, key).len() > 0,
        |key: Seq<u8>| stats_of(values_for(obs, key)),
    )
}

/// The table `t` after one more observation.
pub open spec fn record_observation(t: Table, o: Observation) -> Table {
    if t.contains_key(o.key) {
        t.insert(o.key, t[o.key].observe(o.value))
    } else {
        t.insert(o.key, Stats::single(o.value))
    }
}

/// The table of everything that `a` and `b` hold: a key of both has its two aggregates merged.
pub open spec fn merge_tables(a: Table, b: Table) -> Table {
    Map::new(
        |key: Seq<u8>| a.contains_key(key) || b.contains_key(key),
        |key: Seq<u8>|
            if a.contains_key(key) && b.contains_key(key) {
                a[key].merge(b[key])
            } else if a.contains_key(key) {
                a[key]
            } else {
                b[key]
            },
    )
}

/// All of `tables` merged, from the first to the last; the empty table where there are none.
pub open spec fn merge_all_tables(tables: Seq<Table>) -> Table
    decreases tables.len(),
{
    if tables.len() == 0 {
        Map::empty()
    } else {
        merge_tables(merge_all_tables(tables.drop_last()), tables.last())
    }
}

/// The aggregate of one value is that value alone; each further value is folded in.
pub proof fn lemma_stats_of_push(vs: Seq<int>, v: int)
    ensures
        vs.len() == 0 ==> stats_of(vs.push(v)) == Stats::single(v),
        vs.len() > 0 ==> stats_of(vs.push(v)) == stats_of(vs).observe(v),
{
    assert(vs.push(v).drop_last() == vs);
    if vs.len() == 0 {
        assert(total(vs) == 0);
    }
}

/// The aggregate of two runs of values, one after the other, is the merge of their aggregates.
pub proof fn lemma_stats_of_concat(x: Seq<int>, y: Seq<int>)
    requires
        x.len() > 0,
        y.len() > 0,
    ensures
        stats_of(x + y) == stats_of(x).merge(stats_of(y)),
    decreases y.len(),
{
    let head = y.drop_last();
    assert(x + y == (x + head).push(y.last()));
    assert(y == head.push(y.last()));
    lemma_stats_of_push(x + head, y.last());
    lemma_stats_of_push(head, y.last());
    if head.len() == 0 {
        assert(x + head == x);
    } else {
        lemma_stats_of_concat(x, head);
    }
}

/// The values of a key in `a + b` are its values in `a`, then its values in `b`.
pub proof fn lemma_values_for_concat(a: Seq<Observation>, b: Seq<Observation>, key: Seq<u8>)
    ensures
        values_for(a + b, key) == values_for(a, key) + values_for(b, key),
    decreases b.len(),
{
    if b.len() == 0 {
        assert(a + b == a);
        assert(values_for(a, key) + values_for(b, key) == values_for(a, key));
    } else {
        assert((a + b).drop_last() == a + b.drop_last());
        lemma_values_for_concat(a, b.drop_last(), key);
        if b.last().key == key {
            assert((values_for(a, key) + values_for(b.drop_last(), key)).push(b.last().value)
                == values_for(a, key) + values_for(b.drop_last(), key).push(b.last().value));
        }
    }
}

/// A key has no more values than there are observations.
pub proof fn lemma_values_for_len(obs: Seq<Observation>, key: Seq<u8>)
    ensures
        values_for(obs, key).len() <= obs.len(),
    decreases obs.len(),
{
    if obs.len() > 0 {
        lemma_values_for_len(obs.drop_last(), key);
    }
}

/// Aggregating parts and merging the results gives the aggregate of the whole.
pub proof fn lemma_aggregate_concat(a: Seq<Observation>, b: Seq<Observation>)
    ensures
        aggregate(a + b) == merge_tables(aggregate(a), aggregate(b)),
{
    let whole = aggregate(a + b);
    let merged = merge_tables(aggregate(a), aggregate(b));
    assert forall|key: Seq<u8>|
        #![trigger whole.dom().contains(key)]
        #![trigger merged.dom().contains(key)]
        whole.dom().contains(key) == merged.dom().contains(key) && (whole.dom().contains(key)
            ==> whole[key] == merged[key]) by {
        lemma_values_for_concat(a, b, key);
        let x = values_for(a, key);
        let y = values_for(b, key);
        if x.len() > 0 && y.len() > 0 {
            lemma_stats_of_concat(x, y);
        } else if x.len() > 0 {
            assert(x + y == x);
        } else {
            assert(x + y == y);
        }
    }
    assert(whole =~= merged);
}

/// One more observation changes the table at its key alone: the value is folded into the
/// aggregate that the key has, or starts one.
pub proof fn lemma_aggregate_push(obs: Seq<Observation>, o: Observation)
    ensures
        aggregate(obs.push(o)) == record_observation(aggregate(obs), o),
{
    let t = aggregate(obs.push(o));
    let u = record_observation(aggregate(obs), o);
    assert(obs.push(o).drop_last() == obs);
    assert forall|key: Seq<u8>|
        #![trigger t.dom().contains(key)]
        #![trigger u.dom().contains(key)]
        t.dom().contains(key) == u.dom().contains(key) && (t.dom().contains(key) ==> t[key]
            == u[key]) by {
        if key == o.key {
            lemma_stats_of_push(values_for(obs, key), o.value);
        }
    }
    assert(t =~= u);
}

/// Merging tables is commutative.
pub proof fn lemma_merge_tables_commutative(a: Table, b: Table)
    ensures
        merge_tables(a, b) == merge_tables(b, a),
{
    assert(merge_tables(a, b) =~= merge_tables(b, a));
}

/// Merging tables is associative.
pub proof fn lemma_merge_tables_associative(a: Table, b: Table, c: Table)
    ensures
        merge_tables(merge_tables(a, b), c) == merge_tables(a, merge_tables(b, c)),
{
    assert(merge_tables(merge_tables(a, b), c) =~= merge_tables(a, merge_tables(b, c)));
}

/// The empty table is the identity of merging.
pub proof fn lemma_merge_tables_empty(a: Table)
    ensures
        merge_tables(a, Map::empty()) == a,
        merge_tables(Map::empty(), a) == a,
{
    assert(merge_tables(a, Map::empty()) =~= a);
    assert(merge_tables(Map::empty(), a) =~= a);
}

/// However the observations are split into groups, aggregating each group and merging the
/// tables gives the table of all observations taken together.
pub proof fn lemma_aggregate_groups(groups: Seq<Seq<Observation>>)
    ensures
        merge_all_tables(groups.map_values(|g: Seq<Observation>| aggregate(g))) == aggregate(
            groups.flatten(),
        ),
    decreases groups.len(),
{
    let tables = groups.map_values(|g: Seq<Observation>| aggregate(g));
    if groups.len() == 0 {
        assert(aggregate(groups.flatten()) =~= Map::<Seq<u8>, Stats>::empty());
    } else {
        let head = groups.drop_last();
        assert(tables.drop_last() == head.map_values(|g: Seq<Observation>| aggregate(g)));
        lemma_aggregate_groups(head);
        assert(groups == head.push(groups.last()));
        head.lemma_flatten_push(groups.last());
        lemma_aggregate_concat(head.flatten(), groups.last());
    }
}

/// Taking one observation out of its place and putting it last leaves the table unchanged.
pub proof fn lemma_aggregate_move_last(obs: Seq<Observation>, i: int)
    requires
        0 <= i < obs.len(),
    ensures
        aggregate(obs) == aggregate(obs.remove(i).push(obs[i])),
{
    let front = obs.subrange(0, i);
    let one = seq![obs[i]];
    let back = obs.subrange(i + 1, obs.len() as int);
    assert(obs == (front + one) + back);
    assert(obs.remove(i).push(obs[i]) == (front + back) + one);
    lemma_aggregate_concat(front + one, back);
    lemma_aggregate_concat(front, one);
    lemma_aggregate_concat(front + back, one);
    lemma_aggregate_concat(front, back);
    let a = aggregate(front);
    let x = aggregate(one);
    let b = aggregate(back);
    lemma_merge_tables_associative(a, x, b);
    lemma_merge_tables_commutative(x, b);
    lemma_merge_tables_associative(a, b, x);
}

/// The table does not depend on the order of the observations.
pub proof fn lemma_aggregate_any_order(a: Seq<Observation>, b: Seq<Observation>)
    requires
        a.to_multiset() == b.to_multiset(),
    ensures
        aggregate(a) == aggregate(b),
    decreases a.len(),
{
    broadcast use {to_multiset_len, to_multiset_contains, to_multiset_remove};

    assert(a.len() == b.len()) by {
        assert(a.to_multiset().len() == a.len());
        assert(b.to_multiset().len() == b.len());
    }
    if a.len() == 0 {
        assert(a == b);
    } else {
        let last = a.last();
        let k = a.len() - 1;
        assert(a.contains(last));
        assert(a.to_multiset().count(last) > 0);
        assert(b.contains(last));
        let i = choose|i: int| 0 <= i < b.len() && b[i] == last;
        assert(a.remove(k).to_multiset() == a.to_multiset().remove(a[k]));
        assert(b.remove(i).to_multiset() == b.to_multiset().remove(b[i]));
        assert(a.remove(k) == a.drop_last());
        lemma_aggregate_any_order(a.drop_last(), b.remove(i));
        lemma_aggregate_push(a.drop_last(), last);
        lemma_aggregate_push(b.remove(i), last);
        assert(a == a.drop_last().push(last));
        lemma_aggregate_move_last(b, i);
    }
}

/// Take any observations, split them into groups in any way and in any order, aggregate each
/// group on its own and merge the tables: the result is the table of the observations
/// aggregated in one pass.
pub proof fn lemma_aggregate_any_grouping(groups: Seq<Seq<Observation>>, whole: Seq<Observation>)
    requires
        groups.flatten().to_multiset() == whole.to_multiset(),
    ensures
        merge_all_tables(groups.map_values(|g: Seq<Observation>| aggregate(g))) == aggregate(
            whole,
        ),
{
    lemma_aggregate_groups(groups);
    lemma_aggregate_any_order(groups.flatten(), whole);
}

/// Every observation lies between the minimum and the maximum of its key, which is in the
/// table with a count that is at least one and at most the number of observations.
pub proof fn lemma_aggregate_bounds(obs: Seq<Observation>, i: int)
    requires
        0 <= i < obs.len(),
    ensures
        aggregate(obs).contains_key(obs[i].key),
        aggregate(obs)[obs[i].key].min <= obs[i].value <= aggregate(obs)[obs[i].key].max,
        1 <= aggregate(obs)[obs[i].key].count <= obs.len(),
    decreases obs.len(),
{
    let key = obs[i].key;
    let head = obs.drop_last();
    lemma_values_for_len(obs, key);
    lemma_aggregate_push(head, obs.last());
    assert(obs == head.push(obs.last()));
    if i < obs.len() - 1 {
        lemma_aggregate_bounds(head, i);
    }
}

} // verus!
