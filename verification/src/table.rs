//! The hash tables that a join builds of its keys: for each key the rows in
//! which it occurs.

use ahash::RandomState;
use vstd::prelude::*;
use crate::hashing::in_this_partition;
use crate::hashing::this_partition;
use crate::ooc::lemma_filter_agree;
use crate::order::lemma_filter_none;

verus! {

/// The type of a row index.
pub type IdxSize = u32;

/// A hash table from a key to a flag and the rows of the key, kept in a
/// `hashbrown::HashMap` that hashes with an `ahash::RandomState`.
#[verifier::external_body]
pub struct HashTable {
    inner: hashbrown::HashMap<u64, (bool, Vec<IdxSize>), RandomState>,
}

/// What a table holds: for each key its flag and its rows.
pub uninterp spec fn table_entries(table: HashTable) -> Map<u64, (bool, Seq<IdxSize>)>;

/// A table without entries.
pub open spec fn empty_table() -> Map<u64, (bool, Seq<IdxSize>)> {
    Map::empty()
}

impl HashTable {
    /// `hashbrown::HashMap::with_hasher` makes a map without entries.
    #[verifier::external_body]
    pub(crate) fn with_hasher(build_hasher: RandomState) -> (table: HashTable)
        ensures
            table_entries(table) == empty_table(),
    {
        HashTable { inner: hashbrown::HashMap::with_hasher(build_hasher) }
    }

    /// `hashbrown::HashMap::remove` takes the entry of the key out of the map
    /// and returns its value, or returns nothing and leaves the map as it is
    /// where the key has no entry.
    #[verifier::external_body]
    pub(crate) fn remove(&mut self, key: u64) -> (value: Option<(bool, Vec<IdxSize>)>)
        ensures
            table_entries(*final(self)) == table_entries(*old(self)).remove(key),
            value is Some <==> table_entries(*old(self)).contains_key(key),
            value matches Some(v) ==> (v.0, v.1@) == table_entries(*old(self))[key],
    {
        self.inner.remove(&key)
    }

    /// `hashbrown::HashMap::insert` sets the entry of the key to the value,
    /// whether the key had an entry or not.
    #[verifier::external_body]
    pub(crate) fn insert(&mut self, key: u64, value: (bool, Vec<IdxSize>))
        ensures
            table_entries(*final(self)) == table_entries(*old(self)).insert(key, (value.0, value.1@)),
    {
        self.inner.insert(key, value);
    }

    /// `hashbrown::HashMap::get` finds the value of the key, which is handed
    /// out as a copy.
    #[verifier::external_body]
    pub(crate) fn get(&self, key: u64) -> (value: Option<(bool, Vec<IdxSize>)>)
        ensures
            value is Some <==> table_entries(*self).contains_key(key),
            value matches Some(v) ==> (v.0, v.1@) == table_entries(*self)[key],
    {
        self.inner.get(&key).cloned()
    }
}

impl HashTable {
    /// The flag and the rows of `key`, or nothing where the key has no entry.
    pub fn rows_of(&self, key: u64) -> (value: Option<(bool, Vec<IdxSize>)>)
        ensures
            value is Some <==> table_entries(*self).contains_key(key),
            value matches Some(v) ==> (v.0, v.1@) == table_entries(*self)[key],
    {
        self.get(key)
    }
}

/// Whether the key at position `i` of `pairs` is `key` and falls to partition
/// `partition_no` by its hash.
pub open spec fn occurs_at(
    pairs: Seq<(u64, u64)>,
    key: u64,
    partition_no: u64,
    n_partitions: u64,
    i: int,
) -> bool {
    &&& 0 <= i < pairs.len()
    &&& pairs[i].1 == key
    &&& in_this_partition(pairs[i].0, partition_no, n_partitions)
}

/// The positions in `pairs` at which `key` occurs in the partition, going up.
pub open spec fn key_rows(pairs: Seq<(u64, u64)>, key: u64, partition_no: u64, n_partitions: u64) -> Seq<
    IdxSize,
> {
    Seq::new(pairs.len(), |i: int| i).filter(
        |i: int| occurs_at(pairs, key, partition_no, n_partitions, i),
    ).map_values(|i: int| i as IdxSize)
}

/// The table of one partition of `pairs`, which are hashes with their keys: a
/// key has an entry if it occurs in the partition, and the entry holds the
/// flag unset and the positions of the key.
pub open spec fn relation(pairs: Seq<(u64, u64)>, partition_no: u64, n_partitions: u64) -> Map<
    u64,
    (bool, Seq<IdxSize>),
> {
    Map::new(
        |key: u64| exists|i: int| occurs_at(pairs, key, partition_no, n_partitions, i),
        |key: u64| (false, key_rows(pairs, key, partition_no, n_partitions)),
    )
}

/// The pairs of all `chunks`, chunk after chunk.
pub open spec fn all_pairs(chunks: Seq<Vec<(u64, u64)>>) -> Seq<(u64, u64)> {
    chunks.map_values(|c: Vec<(u64, u64)>| c@).flatten()
}

/// The pairs up to one more chunk are the pairs before it and its own.
proof fn lemma_all_pairs_step(chunks: Seq<Vec<(u64, u64)>>, i: int)
    requires
        0 <= i < chunks.len(),
    ensures
        all_pairs(chunks.take(i + 1)) == all_pairs(chunks.take(i)) + chunks[i]@,
        all_pairs(chunks.take(0)) == Seq::<(u64, u64)>::empty(),
        all_pairs(chunks.take(chunks.len() as int)) == all_pairs(chunks),
{
    let view = |c: Vec<(u64, u64)>| c@;
    assert(chunks.take(i + 1) =~= chunks.take(i).push(chunks[i]));
    assert(chunks.take(i).push(chunks[i]).map_values(view) =~= chunks.take(i).map_values(view).push(
        chunks[i]@,
    ));
    chunks.take(i).map_values(view).lemma_flatten_push(chunks[i]@);
    assert(chunks.take(0).map_values(view) =~= Seq::<Seq<(u64, u64)>>::empty());
    assert(chunks.take(chunks.len() as int) =~= chunks);
}

/// The rows of a key once one more pair stands behind the others.
proof fn lemma_key_rows_push(pairs: Seq<(u64, u64)>, pair: (u64, u64), key: u64, partition_no: u64, n_partitions: u64)
    ensures
        key_rows(pairs.push(pair), key, partition_no, n_partitions) == if pair.1 == key && in_this_partition(
            pair.0,
            partition_no,
            n_partitions,
        ) {
            key_rows(pairs, key, partition_no, n_partitions).push(#[verifier::truncate] (pairs.len() as IdxSize))
        } else {
            key_rows(pairs, key, partition_no, n_partitions)
        },
        (exists|i: int| occurs_at(pairs.push(pair), key, partition_no, n_partitions, i)) <==> (pair.1 == key
            && in_this_partition(pair.0, partition_no, n_partitions)) || (exists|i: int|
            occurs_at(pairs, key, partition_no, n_partitions, i)),
{
    let more = pairs.push(pair);
    let n = pairs.len() as int;
    let before = |i: int| occurs_at(pairs, key, partition_no, n_partitions, i);
    let after = |i: int| occurs_at(more, key, partition_no, n_partitions, i);
    let cast = |i: int| i as IdxSize;
    let positions = Seq::new(pairs.len(), |i: int| i);
    assert(Seq::new(more.len(), |i: int| i) =~= positions.push(n));
    positions.lemma_filter_push(n, after);
    assert forall|i: int| 0 <= i < positions.len() implies after(#[trigger] positions[i]) == before(
        positions[i],
    ) by {
        assert(more[i] == pairs[i]);
    }
    lemma_filter_agree(positions, after, before);
    assert(more[n] == pair);
    if after(n) {
        assert(positions.filter(before).push(n).map_values(cast) =~= positions.filter(before).map_values(
            cast,
        ).push(n as IdxSize));
    }
    if exists|i: int| occurs_at(more, key, partition_no, n_partitions, i) {
        let i = choose|i: int| occurs_at(more, key, partition_no, n_partitions, i);
        if i < n {
            assert(more[i] == pairs[i]);
            assert(occurs_at(pairs, key, partition_no, n_partitions, i));
        }
    }
    if exists|i: int| occurs_at(pairs, key, partition_no, n_partitions, i) {
        let i = choose|i: int| occurs_at(pairs, key, partition_no, n_partitions, i);
        assert(more[i] == pairs[i]);
        assert(occurs_at(more, key, partition_no, n_partitions, i));
    }
    if pair.1 == key && in_this_partition(pair.0, partition_no, n_partitions) {
        assert(occurs_at(more, key, partition_no, n_partitions, n));
    }
}

/// The table of a partition once one more pair stands behind the others: a
/// pair of another partition changes nothing; a pair of this one adds its
/// position to the rows of its key.
pub proof fn lemma_relation_push(pairs: Seq<(u64, u64)>, pair: (u64, u64), partition_no: u64, n_partitions: u64)
    ensures
        relation(pairs.push(pair), partition_no, n_partitions) == if in_this_partition(
            pair.0,
            partition_no,
            n_partitions,
        ) {
            relation(pairs, partition_no, n_partitions).insert(
                pair.1,
                (false, key_rows(pairs, pair.1, partition_no, n_partitions).push(#[verifier::truncate] (pairs.len() as IdxSize))),
            )
        } else {
            relation(pairs, partition_no, n_partitions)
        },
        !relation(pairs, partition_no, n_partitions).contains_key(pair.1) ==> key_rows(
            pairs,
            pair.1,
            partition_no,
            n_partitions,
        ) == Seq::<IdxSize>::empty(),
{
    let old_table = relation(pairs, partition_no, n_partitions);
    let new_table = relation(pairs.push(pair), partition_no, n_partitions);
    let expected = if in_this_partition(pair.0, partition_no, n_partitions) {
        old_table.insert(
            pair.1,
            (false, key_rows(pairs, pair.1, partition_no, n_partitions).push(#[verifier::truncate] (pairs.len() as IdxSize))),
        )
    } else {
        old_table
    };
    assert forall|key: u64| #[trigger] new_table.dom().contains(key) == expected.dom().contains(key) by {
        lemma_key_rows_push(pairs, pair, key, partition_no, n_partitions);
    }
    assert forall|key: u64| new_table.dom().contains(key) implies #[trigger] new_table[key] == expected[key] by {
        lemma_key_rows_push(pairs, pair, key, partition_no, n_partitions);
    }
    assert(new_table =~= expected);
    if !old_table.contains_key(pair.1) {
        let positions = Seq::new(pairs.len(), |i: int| i);
        let here = |i: int| occurs_at(pairs, pair.1, partition_no, n_partitions, i);
        assert forall|i: int| 0 <= i < positions.len() implies !here(#[trigger] positions[i]) by {
            if here(positions[i]) {
                assert(occurs_at(pairs, pair.1, partition_no, n_partitions, i));
            }
        }
        lemma_filter_none(positions, here);
        assert(key_rows(pairs, pair.1, partition_no, n_partitions) =~= Seq::<IdxSize>::empty());
    }
}

/// Builds the hash table of partition `partition_no` of `n_partitions`: of
/// the keys in `hashes_and_keys`, which come with their hashes, those whose
/// hash falls to the partition, each with the positions at which it stands.
/// The positions count through all the chunks.
pub fn prepare_hashed_relation(
    hashes_and_keys: &Vec<Vec<(u64, u64)>>,
    partition_no: u64,
    n_partitions: u64,
    build_hasher: RandomState,
) -> (table: HashTable)
    requires
        all_pairs(hashes_and_keys@).len() <= IdxSize::MAX,
    ensures
        table_entries(table) == relation(all_pairs(hashes_and_keys@), partition_no, n_partitions),
{
    let mut table: HashTable = HashTable::with_hasher(build_hasher);
    let ghost chunks = hashes_and_keys@;
    let mut offset: usize = 0;
    let mut c: usize = 0;
    proof {
        if chunks.len() > 0 {
            lemma_all_pairs_step(chunks, 0);
        } else {
            assert(chunks.map_values(|v: Vec<(u64, u64)>| v@) =~= Seq::<Seq<(u64, u64)>>::empty());
        }
        assert(relation(Seq::<(u64, u64)>::empty(), partition_no, n_partitions) =~= empty_table());
    }
    while c < hashes_and_keys.len()
        invariant
            c <= chunks.len(),
            chunks == hashes_and_keys@,
            all_pairs(chunks).len() <= IdxSize::MAX,
            offset == all_pairs(chunks.take(c as int)).len(),
            offset <= all_pairs(chunks).len(),
            table_entries(table) == relation(all_pairs(chunks.take(c as int)), partition_no, n_partitions),
        decreases chunks.len() - c,
    {
        let chunk: &Vec<(u64, u64)> = &hashes_and_keys[c];
        let ghost done = all_pairs(chunks.take(c as int));
        proof {
            lemma_all_pairs_step(chunks, c as int);
            lemma_all_pairs_grows(chunks, c as int + 1);
            assert(chunk@.take(0) =~= Seq::<(u64, u64)>::empty());
            assert(done + chunk@.take(0) =~= done);
        }
        let mut i: usize = 0;
        while i < chunk.len()
            invariant
                i <= chunk@.len(),
                offset == done.len(),
                done.len() + chunk@.len() <= IdxSize::MAX,
                table_entries(table) == relation(done + chunk@.take(i as int), partition_no, n_partitions),
            decreases chunk@.len() - i,
        {
            let h: u64 = chunk[i].0;
            let k: u64 = chunk[i].1;
            let ghost seen = done + chunk@.take(i as int);
            proof {
                lemma_relation_push(seen, (h, k), partition_no, n_partitions);
                assert(seen.push((h, k)) =~= done + chunk@.take(i + 1));
            }
            // Only the hashes of this partition go to this table.
            if this_partition(h, partition_no, n_partitions) {
                let idx: IdxSize = (offset + i) as IdxSize;
                let ghost before = table_entries(table);
                match table.remove(k) {
                    Some(found) => {
                        let mut rows: Vec<IdxSize> = found.1;
                        rows.push(idx);
                        table.insert(k, (found.0, rows));
                    },
                    None => {
                        let mut rows: Vec<IdxSize> = Vec::new();
                        rows.push(idx);
                        table.insert(k, (false, rows));
                        assert(rows@ =~= Seq::<IdxSize>::empty().push(idx));
                    },
                }
                assert(table_entries(table) =~= before.insert(
                    k,
                    (false, key_rows(seen, k, partition_no, n_partitions).push(idx)),
                ));
            }
            i += 1;
        }
        proof {
            assert(chunk@.take(chunk@.len() as int) =~= chunk@);
        }
        offset = offset + chunk.len();
        c += 1;
    }
    proof {
        if chunks.len() > 0 {
            lemma_all_pairs_step(chunks, 0);
        }
    }
    table
}

/// Builds the hash tables of all `n_partitions` partitions, a power of two:
/// table `p` is that of partition `p`. Each table hashes with a copy of
/// `build_hasher`.
pub fn prepare_hashed_relations(
    hashes_and_keys: &Vec<Vec<(u64, u64)>>,
    n_partitions: usize,
    build_hasher: &RandomState,
) -> (tables: Vec<HashTable>)
    requires
        all_pairs(hashes_and_keys@).len() <= IdxSize::MAX,
        is_power_of_two(n_partitions as u64),
    ensures
        tables@.len() == n_partitions,
        forall|p: int|
            0 <= p < n_partitions ==> table_entries(#[trigger] tables@[p]) == relation(
                all_pairs(hashes_and_keys@),
                p as u64,
                n_partitions as u64,
            ),
{
    let mut tables: Vec<HashTable> = Vec::new();
    let mut p: usize = 0;
    while p < n_partitions
        invariant
            p <= n_partitions,
            tables@.len() == p,
            all_pairs(hashes_and_keys@).len() <= IdxSize::MAX,
            forall|q: int|
                0 <= q < p ==> table_entries(#[trigger] tables@[q]) == relation(
                    all_pairs(hashes_and_keys@),
                    q as u64,
                    n_partitions as u64,
                ),
        decreases n_partitions - p,
    {
        let table: HashTable = prepare_hashed_relation(
            hashes_and_keys,
            p as u64,
            n_partitions as u64,
            clone_state(build_hasher),
        );
        tables.push(table);
        p += 1;
    }
    tables
}

/// Whether `n` is a power of two.
pub open spec fn is_power_of_two(n: u64) -> bool {
    n > 0 && n & n.wrapping_sub(1) == 0
}

/// `ahash::RandomState::clone` copies the state. Nothing is claimed of the
/// copy.
#[verifier::external_body]
fn clone_state(state: &RandomState) -> (copy: RandomState) {
    state.clone()
}

/// The pairs of the first chunks are no more than the pairs of all.
proof fn lemma_all_pairs_grows(chunks: Seq<Vec<(u64, u64)>>, i: int)
    requires
        0 <= i <= chunks.len(),
    ensures
        all_pairs(chunks.take(i)).len() <= all_pairs(chunks).len(),
    decreases chunks.len() - i,
{
    if i < chunks.len() {
        lemma_all_pairs_step(chunks, i);
        lemma_all_pairs_grows(chunks, i + 1);
    } else {
        assert(chunks.take(i) =~= chunks);
    }
}

} // verus!
