//! The table of per-key aggregates, kept in an `ahash::AHashMap`.

use vstd::prelude::*;
use vstd::seq_lib::seq_to_set_is_finite;
use ahash::AHashMap;
use crate::aggregate::{
    lemma_merge_tables_associative, lemma_merge_tables_empty, merge_all_tables, merge_tables,
    record_observation, Observation, Table,
};
use crate::error::ScanError;
use crate::key::Key;
use crate::record::{lemma_record_fits, Record, Stats};

verus! {

/// `ahash::RandomState`, the hasher state of an `AHashMap`; nothing is said of it.
#[verifier::external_type_specification]
#[verifier::external_body]
pub struct ExRandomState(ahash::RandomState);

/// `ahash::AHashMap`; what one holds is told by `map_entries`.
#[verifier::external_type_specification]
#[verifier::external_body]
#[verifier::reject_recursive_types(K)]
#[verifier::reject_recursive_types(V)]
#[verifier::reject_recursive_types(S)]
pub struct ExAHashMap<K, V, S>(AHashMap<K, V, S>);

/// The table that holds nothing.
pub open spec fn empty_table() -> Table {
    Map::empty()
}

/// What a map holds: for each key present, the record stored under it.
pub uninterp spec fn map_entries(m: AHashMap<[u8; 32], Record>) -> Map<Seq<u8>, Record>;

/// The map that holds nothing.
pub open spec fn no_entries() -> Map<Seq<u8>, Record> {
    Map::empty()
}

/// `AHashMap::with_capacity`: the new map holds nothing. The capacity asked for is kept
/// small, so that reserving it cannot overflow.
#[verifier::external_body]
fn map_with_capacity(capacity: usize) -> (m: AHashMap<Key, Record>)
    requires
        capacity <= 0x10000,
    ensures
        map_entries(m) == no_entries(),
{
    AHashMap::with_capacity(capacity)
}

/// `AHashMap::get`: the record stored under `key`, if the map holds that key.
#[verifier::external_body]
fn map_get(m: &AHashMap<Key, Record>, key: &Key) -> (found: Option<Record>)
    ensures
        found is Some <==> map_entries(*m).contains_key(key@),
        found matches Some(record) ==> record == map_entries(*m)[key@],
{
    m.get(key).copied()
}

/// `AHashMap::insert`: afterwards `key` maps to `record` and every other key is as before;
/// the record that `key` had before is handed back.
#[verifier::external_body]
fn map_insert(m: &mut AHashMap<Key, Record>, key: Key, record: Record) -> (previous: Option<Record>)
    ensures
        map_entries(*final(m)) == map_entries(*old(m)).insert(key@, record),
        previous is Some <==> map_entries(*old(m)).contains_key(key@),
        previous matches Some(p) ==> p == map_entries(*old(m))[key@],
{
    m.insert(key, record)
}

/// Whether `entries` holds exactly `n` keys: they can be listed as `n` keys, no two the same.
pub open spec fn holds_keys(entries: Map<Seq<u8>, Record>, n: int) -> bool {
    exists|keys: Seq<Seq<u8>>|
        #[trigger] keys.to_set() == entries.dom() && keys.no_duplicates() && keys.len() == n
}

/// `HashMap::len`, reached through `AHashMap`'s `Deref`: the number of keys held.
#[verifier::external_body]
fn map_len(m: &AHashMap<Key, Record>) -> (n: usize)
    ensures
        holds_keys(map_entries(*m), n as int),
{
    m.len()
}

/// `IntoIterator` of `&AHashMap`: every key held comes out once, with its record, in an
/// order that is not fixed.
#[verifier::external_body]
fn map_pairs(m: &AHashMap<Key, Record>) -> (pairs: Vec<(Key, Record)>)
    ensures
        forall|i: int|
            0 <= i < pairs@.len() ==> map_entries(*m).contains_key(#[trigger] pairs@[i].0@)
                && map_entries(*m)[pairs@[i].0@] == pairs@[i].1,
        forall|i: int, j: int|
            0 <= i < j < pairs@.len() ==> #[trigger] pairs@[i].0@ != #[trigger] pairs@[j].0@,
        forall|key: Seq<u8>| #[trigger]
            map_entries(*m).contains_key(key) ==> exists|i: int|
                0 <= i < pairs@.len() && #[trigger] pairs@[i].0@ == key,
{
    m.into_iter().map(|(key, record)| (*key, *record)).collect()
}

/// Whether no key of both tables would have more observations than a `u64` counts.
pub open spec fn counts_fit(a: Table, b: Table) -> bool {
    forall|key: Seq<u8>|
        a.contains_key(key) && b.contains_key(key) ==> (#[trigger] a[key]).count + (
        #[trigger] b[key]).count <= u64::MAX
}

/// The table that holds `key` alone, with the aggregate `stats`.
pub open spec fn single_entry(key: Seq<u8>, stats: Stats) -> Table {
    Map::empty().insert(key, stats)
}

/// The part of `whole` under the keys of the first `n` pairs.
spec fn first_entries(whole: Table, pairs: Seq<(Key, Record)>, n: int) -> Table {
    Map::new(
        |key: Seq<u8>| exists|j: int| 0 <= j < n && #[trigger] pairs[j].0@ == key,
        |key: Seq<u8>| whole[key],
    )
}

/// Per-key aggregates of the observations folded in so far.
pub struct AggregationTable {
    map: AHashMap<Key, Record>,
}

impl View for AggregationTable {
    type V = Table;

    closed spec fn view(&self) -> Table {
        stats_by_key(map_entries(self.map))
    }
}

/// The aggregates that the records of `entries` stand for.
spec fn stats_by_key(entries: Map<Seq<u8>, Record>) -> Table {
    Map::new(|key: Seq<u8>| entries.contains_key(key), |key: Seq<u8>| entries[key]@)
}

proof fn lemma_stats_by_key(entries: Map<Seq<u8>, Record>)
    ensures
        forall|key: Seq<u8>| #[trigger]
            stats_by_key(entries).contains_key(key) <==> entries.contains_key(key),
        forall|key: Seq<u8>|
            entries.contains_key(key) ==> #[trigger] stats_by_key(entries)[key] == entries[key]@,
        stats_by_key(entries).dom() == entries.dom(),
{
    assert(stats_by_key(entries).dom() =~= entries.dom());
}

proof fn lemma_stats_by_key_insert(entries: Map<Seq<u8>, Record>, key: Seq<u8>, record: Record)
    ensures
        stats_by_key(entries.insert(key, record)) == stats_by_key(entries).insert(key, record@),
{
    assert(stats_by_key(entries.insert(key, record)) =~= stats_by_key(entries).insert(
        key,
        record@,
    ));
}

impl AggregationTable {
    /// No key of a table has more observations than a `u64` counts.
    pub proof fn lemma_counts_bounded(self)
        ensures
            forall|key: Seq<u8>| #[trigger]
                self@.contains_key(key) ==> self@[key].count <= u64::MAX,
    {
        lemma_stats_by_key(map_entries(self.map));
        assert forall|key: Seq<u8>| #[trigger] self@.contains_key(key) implies self@[key].count
            <= u64::MAX by {
            lemma_record_fits(map_entries(self.map)[key]);
        }
    }

    /// A table with no keys.
    pub fn new() -> (t: Self)
        ensures
            t@ == empty_table(),
    {
        let t = AggregationTable { map: map_with_capacity(512) };
        assert(t@ =~= empty_table());
        t
    }

    /// The aggregate of `key`, where the table holds it.
    pub fn get(&self, key: &Key) -> (found: Option<Record>)
        ensures
            found is Some <==> self@.contains_key(key@),
            found matches Some(record) ==> record@ == self@[key@],
    {
        proof {
            lemma_stats_by_key(map_entries(self.map));
        }
        map_get(&self.map, key)
    }

    /// The number of keys.
    pub fn len(&self) -> (n: usize)
        ensures
            self@.dom().finite(),
            n == self@.dom().len(),
    {
        let n = map_len(&self.map);
        proof {
            lemma_stats_by_key(map_entries(self.map));
            let keys = choose|keys: Seq<Seq<u8>>|
                #[trigger] keys.to_set() == map_entries(self.map).dom() && keys.no_duplicates()
                    && keys.len() == n;
            keys.unique_seq_to_set();
            seq_to_set_is_finite(keys);
        }
        n
    }

    /// The keys with their aggregates, each key once, in no particular order.
    pub fn entries(&self) -> (pairs: Vec<(Key, Record)>)
        ensures
            forall|i: int|
                0 <= i < pairs@.len() ==> self@.contains_key(#[trigger] pairs@[i].0@)
                    && self@[pairs@[i].0@] == pairs@[i].1@,
            forall|i: int, j: int|
                0 <= i < j < pairs@.len() ==> #[trigger] pairs@[i].0@ != #[trigger] pairs@[j].0@,
            forall|key: Seq<u8>| #[trigger]
                self@.contains_key(key) ==> exists|i: int|
                    0 <= i < pairs@.len() && #[trigger] pairs@[i].0@ == key,
            self@.dom().finite(),
            pairs@.len() == self@.dom().len(),
    {
        let pairs = map_pairs(&self.map);
        proof {
            lemma_stats_by_key(map_entries(self.map));
            let keys = Seq::new(pairs@.len(), |i: int| pairs@[i].0@);
            assert forall|i: int, j: int|
                0 <= i < keys.len() && 0 <= j < keys.len() && i != j implies keys[i] != keys[j] by {
                if i < j {
                    assert(pairs@[i].0@ != pairs@[j].0@);
                } else {
                    assert(pairs@[j].0@ != pairs@[i].0@);
                }
            }
            assert forall|key: Seq<u8>| keys.to_set().contains(key) <==> self@.dom().contains(
                key,
            ) by {
                if self@.contains_key(key) {
                    let i = choose|i: int| 0 <= i < pairs@.len() && #[trigger] pairs@[i].0@ == key;
                    assert(keys[i] == key);
                }
                if keys.to_set().contains(key) {
                    let i = choose|i: int| 0 <= i < keys.len() && keys[i] == key;
                    assert(self@.contains_key(pairs@[i].0@));
                }
            }
            assert(keys.to_set() =~= self@.dom());
            keys.unique_seq_to_set();
            seq_to_set_is_finite(keys);
        }
        pairs
    }

    /// Folds one observation in: the key's aggregate takes the value in, or starts with it.
    ///
    /// Fails, and leaves the table as it is, where the key already has `u64::MAX` observations.
    pub fn accumulate(&mut self, key: Key, value: i32) -> (r: Result<(), ScanError>)
        ensures
            r is Err <==> old(self)@.contains_key(key@) && old(self)@[key@].count >= u64::MAX,
            r is Ok ==> final(self)@ == record_observation(
                old(self)@,
                (Observation { key: key@, value: value as int }),
            ),
            r matches Err(e) ==> e == ScanError::CountOverflow && final(self)@ == old(self)@,
    {
        proof {
            lemma_stats_by_key(map_entries(self.map));
        }
        let updated = match map_get(&self.map, &key) {
            Some(mut record) => {
                if record.count() == u64::MAX {
                    return Err(ScanError::CountOverflow);
                }
                record.observe(value);
                record
            },
            None => Record::new(value),
        };
        proof {
            lemma_stats_by_key_insert(map_entries(self.map), key@, updated);
        }
        let _ = map_insert(&mut self.map, key, updated);
        Ok(())
    }

    /// Folds a whole aggregate in under `key`: it is merged into the aggregate that the key
    /// has, or becomes the key's aggregate.
    ///
    /// Fails, and leaves the table as it is, where the key would have more than `u64::MAX`
    /// observations.
    pub fn merge_record(&mut self, key: Key, record: Record) -> (r: Result<(), ScanError>)
        ensures
            r is Err <==> old(self)@.contains_key(key@) && old(self)@[key@].count + record@.count
                > u64::MAX,
            r is Ok ==> final(self)@ == merge_tables(old(self)@, single_entry(key@, record@)),
            r matches Err(e) ==> e == ScanError::CountOverflow && final(self)@ == old(self)@,
    {
        proof {
            lemma_stats_by_key(map_entries(self.map));
        }
        let updated = match map_get(&self.map, &key) {
            Some(mut mine) => {
                if mine.count() > u64::MAX - record.count() {
                    return Err(ScanError::CountOverflow);
                }
                mine.merge(&record);
                mine
            },
            None => record,
        };
        proof {
            lemma_stats_by_key_insert(map_entries(self.map), key@, updated);
        }
        let _ = map_insert(&mut self.map, key, updated);
        assert(final(self)@ =~= merge_tables(old(self)@, single_entry(key@, record@)));
        Ok(())
    }

    /// The table of everything that `self` and `other` hold.
    ///
    /// Fails where a key of both would have more than `u64::MAX` observations.
    pub fn merge(self, other: AggregationTable) -> (r: Result<AggregationTable, ScanError>)
        ensures
            r is Ok <==> counts_fit(self@, other@),
            r matches Ok(t) ==> t@ == merge_tables(self@, other@),
            r matches Err(e) ==> e == ScanError::CountOverflow,
    {
        let ghost mine = self@;
        let ghost theirs = other@;
        let pairs = map_pairs(&other.map);
        let mut merged = self;
        let mut i: usize = 0;
        proof {
            lemma_stats_by_key(map_entries(other.map));
            assert(merge_tables(mine, first_entries(theirs, pairs@, 0)) =~= mine);
        }
        while i < pairs.len()
            invariant
                0 <= i <= pairs@.len(),
                mine == self@,
                theirs == other@,
                forall|j: int|
                    0 <= j < pairs@.len() ==> theirs.contains_key(#[trigger] pairs@[j].0@)
                        && theirs[pairs@[j].0@] == pairs@[j].1@,
                forall|a: int, b: int|
                    0 <= a < b < pairs@.len() ==> #[trigger] pairs@[a].0@
                        != #[trigger] pairs@[b].0@,
                forall|k: Seq<u8>| #[trigger]
                    theirs.contains_key(k) ==> exists|j: int|
                        0 <= j < pairs@.len() && #[trigger] pairs@[j].0@ == k,
                merged@ == merge_tables(mine, first_entries(theirs, pairs@, i as int)),
                forall|j: int|
                    0 <= j < i && mine.contains_key(#[trigger] pairs@[j].0@) ==> mine[pairs@[j].0@]
                        .count + theirs[pairs@[j].0@].count <= u64::MAX,
            decreases pairs@.len() - i,
        {
            let key: Key = pairs[i].0;
            let theirs_here: Record = pairs[i].1;
            let ghost k = key@;
            let ghost before = first_entries(theirs, pairs@, i as int);
            let ghost after = first_entries(theirs, pairs@, i + 1);
            proof {
                assert(pairs@[i as int].0@ == k);
                assert(!before.contains_key(k));
                assert(after.contains_key(k));
                assert forall|x: Seq<u8>| x != k implies before.contains_key(x)
                    == after.contains_key(x) by {
                    if after.contains_key(x) {
                        let j = choose|j: int| 0 <= j < i + 1 && #[trigger] pairs@[j].0@ == x;
                        assert(0 <= j < i && pairs@[j].0@ == x);
                    }
                }
            }
            match merged.merge_record(key, theirs_here) {
                Ok(()) => {},
                Err(e) => {
                    assert(mine.contains_key(k) && theirs.contains_key(k));
                    return Err(e);
                },
            }
            assert(merged@ =~= merge_tables(mine, after));
            i += 1;
        }
        proof {
            assert(first_entries(theirs, pairs@, i as int) =~= theirs);
            assert forall|x: Seq<u8>| mine.contains_key(x) && theirs.contains_key(x) implies (
            #[trigger] mine[x]).count + (#[trigger] theirs[x]).count <= u64::MAX by {
                let j = choose|j: int| 0 <= j < pairs@.len() && #[trigger] pairs@[j].0@ == x;
                assert(mine.contains_key(pairs@[j].0@));
            }
        }
        Ok(merged)
    }
}

/// Whether no key of `t` has more observations than a `u64` counts.
pub open spec fn counts_bounded(t: Table) -> bool {
    forall|key: Seq<u8>| #[trigger] t.contains_key(key) ==> t[key].count <= u64::MAX
}

/// What each of `tables` holds.
pub open spec fn table_views(tables: Seq<AggregationTable>) -> Seq<Table> {
    tables.map_values(|t: AggregationTable| t@)
}

/// Merges any number of tables into one; with no tables, the result is the empty table.
///
/// Fails where a key would have more than `u64::MAX` observations in the result.
pub fn merge_all(tables: Vec<AggregationTable>) -> (r: Result<AggregationTable, ScanError>)
    ensures
        r is Ok <==> counts_bounded(merge_all_tables(table_views(tables@))),
        r matches Ok(t) ==> t@ == merge_all_tables(table_views(tables@)),
        r matches Err(e) ==> e == ScanError::CountOverflow,
{
    let ghost whole = merge_all_tables(table_views(tables@));
    let mut rest = tables;
    let mut merged = AggregationTable::new();
    proof {
        lemma_merge_tables_empty(whole);
    }
    while rest.len() > 0
        invariant
            whole == merge_all_tables(table_views(tables@)),
            merge_tables(merge_all_tables(table_views(rest@)), merged@) == whole,
        decreases rest@.len(),
    {
        let ghost before = rest@;
        let ghost right = merged@;
        let next = rest.pop().unwrap();
        let ghost left = merge_all_tables(table_views(rest@));
        proof {
            assert(table_views(before).drop_last() == table_views(rest@));
            assert(table_views(before).last() == next@);
            lemma_merge_tables_associative(left, next@, right);
        }
        match next.merge(merged) {
            Ok(t) => {
                merged = t;
            },
            Err(e) => {
                proof {
                    let key = choose|key: Seq<u8>|
                        next@.contains_key(key) && right.contains_key(key) && next@[key].count
                            + right[key].count > u64::MAX;
                    assert(whole.contains_key(key));
                    assert(merge_tables(next@, right)[key].count > u64::MAX);
                }
                return Err(e);
            },
        }
    }
    proof {
        assert(table_views(rest@) =~= Seq::<Table>::empty());
        lemma_merge_tables_empty(merged@);
        merged.lemma_counts_bounded();
    }
    Ok(merged)
}

} // verus!
