//! Hashes of whole columns, as joins and group-bys need them: one hash for
//! each value of a column, and the hashes of several columns combined row by
//! row.

use std::hash::BuildHasher;
use std::hash::Hash;
use std::hash::Hasher;
use ahash::RandomState;
use vstd::prelude::*;

verus! {

/// The multiplier from which the seed of the integer hashes is drawn.
pub const FXHASH_K: u64 = 0x517cc1b727220a95;

/// The prime from which the hash of a null is drawn.
pub const NULL_PRIME: usize = 3188347919;

/// The constant of the hash combiner: the golden ratio in 64 bits.
pub const COMBINE_K: u64 = 0x9e3779b97f4a7c15;

/// `ahash::RandomState`: the keys from which `ahash` builds its hashers. It
/// is carried through as it is; nothing inside it is read here.
#[verifier::external_type_specification]
#[verifier::external_body]
pub struct ExRandomState(ahash::RandomState);

/// The hash of `input` under `seed` by XXH3 in 64 bits.
pub uninterp spec fn xxh3_64(input: Seq<u8>, seed: u64) -> u64;

/// `xxhash_rust::xxh3::xxh3_64_with_seed` computes the XXH3 hash of the input
/// bytes under the seed. It is a function of the bytes and the seed alone.
pub assume_specification[ xxhash_rust::xxh3::xxh3_64_with_seed ](input: &[u8], seed: u64) -> (hash: u64)
    ensures
        hash == xxh3_64(input@, seed),
;

/// `ahash::RandomState::hash_one` on a `u64`. What it returns depends on the
/// keys of the state and on the machine, so nothing is claimed of it.
#[verifier::external_body]
fn hash_one_u64(state: &RandomState, value: u64) -> (hash: u64) {
    state.hash_one(value)
}

/// A hasher built by `ahash::RandomState::build_hasher`, fed one value and
/// finished. What it returns depends on the keys of the state and on the
/// machine, so nothing is claimed of it.
#[verifier::external_body]
fn build_hash<T: Hash>(state: &RandomState, value: T) -> (hash: u64) {
    let mut hasher = state.build_hasher();
    value.hash(&mut hasher);
    hasher.finish()
}

/// `ahash::RandomState::new` makes a state with keys of its own. Nothing is
/// claimed of it.
#[verifier::external_body]
fn new_random_state() -> (state: RandomState) {
    RandomState::new()
}

/// The hash of a null under `random_state`: a large prime hashed, and the hash
/// hashed again.
pub fn get_null_hash_value(random_state: &RandomState) -> u64 {
    let first: u64 = build_hash(random_state, NULL_PRIME);
    build_hash(random_state, first)
}

/// The numbers drawn from a random state that the hashes of a column are made
/// of.
#[derive(Debug, Clone, Copy, PartialEq, Eq, Structural)]
pub struct HashSeeds {
    /// The multiplier of the integer hashes.
    pub k: u64,
    /// The hash of a null, and the seed of the hashes of bytes.
    pub null_h: u64,
    /// The hash of `true`.
    pub true_h: u64,
    /// The hash of `false`.
    pub false_h: u64,
}

impl HashSeeds {
    /// Draws the seeds from `random_state`. One state gives the same seeds
    /// each time on one machine; nothing more is known of them.
    pub fn new(random_state: &RandomState) -> HashSeeds {
        HashSeeds {
            k: hash_one_u64(random_state, FXHASH_K),
            null_h: get_null_hash_value(random_state),
            true_h: build_hash(random_state, true),
            false_h: build_hash(random_state, false),
        }
    }
}

/// Two hashes combined into one, as Boost does it:
/// `l ^ (r + (K + (l << 6) + (r >> 2)))`, every sum taken in 64 bits.
pub open spec fn boost_hash_combine(l: u64, r: u64) -> u64 {
    l ^ r.wrapping_add(COMBINE_K.wrapping_add(l << 6).wrapping_add(r >> 2))
}

/// Computes `boost_hash_combine`.
pub fn _boost_hash_combine(l: u64, r: u64) -> (h: u64)
    ensures
        h == boost_hash_combine(l, r),
{
    l ^ r.wrapping_add(COMBINE_K.wrapping_add(l << 6).wrapping_add(r >> 2))
}

/// The hash of an integer: its 64 bits times `k`, taken in 64 bits.
pub open spec fn fx_hash(v: i64, k: u64) -> u64 {
    (v as u64).wrapping_mul(k)
}

/// Computes `fx_hash`.
pub fn _fx_hash(v: i64, k: u64) -> (h: u64)
    ensures
        h == fx_hash(v, k),
{
    (v as u64).wrapping_mul(k)
}

/// Whether the hash `h` falls to partition `thread_no` of `n_partitions`, a
/// power of two: `h + thread_no`, taken in 64 bits, has none of the low bits
/// set that count the partitions.
pub open spec fn in_this_partition(h: u64, thread_no: u64, n_partitions: u64) -> bool {
    h.wrapping_add(thread_no) & n_partitions.wrapping_sub(1) == 0
}

/// Decides `in_this_partition`.
pub fn this_partition(h: u64, thread_no: u64, n_partitions: u64) -> (mine: bool)
    ensures
        mine == in_this_partition(h, thread_no, n_partitions),
{
    h.wrapping_add(thread_no) & n_partitions.wrapping_sub(1) == 0
}

/// The hash of an integer value or of a null.
pub open spec fn int_hash(v: Option<i64>, seeds: HashSeeds) -> u64 {
    match v {
        Some(x) => fx_hash(x, seeds.k),
        None => seeds.null_h,
    }
}

/// The hash of a value of bytes, seeded with the hash of a null, or of a null.
pub open spec fn bytes_hash(v: Option<Vec<u8>>, seeds: HashSeeds) -> u64 {
    match v {
        Some(bytes) => xxh3_64(bytes@, seeds.null_h),
        None => seeds.null_h,
    }
}

/// The hash of a string, which is that of its bytes in UTF-8, or of a null.
pub open spec fn utf8_hash(v: Option<String>, seeds: HashSeeds) -> u64 {
    match v {
        Some(text) => xxh3_64(vstd::utf8::encode_utf8(text@), seeds.null_h),
        None => seeds.null_h,
    }
}

/// The hash of a boolean value or of a null.
pub open spec fn bool_hash(v: Option<bool>, seeds: HashSeeds) -> u64 {
    match v {
        Some(true) => seeds.true_h,
        Some(false) => seeds.false_h,
        None => seeds.null_h,
    }
}

/// The hashes of the values of all `chunks`, chunk after chunk, where `f`
/// hashes one value.
pub open spec fn chunk_hashes<T>(chunks: Seq<Vec<Option<T>>>, f: spec_fn(Option<T>) -> u64) -> Seq<u64> {
    chunks.map_values(|c: Vec<Option<T>>| c@.map_values(f)).flatten()
}

/// The hashes `h` with the hashes `l` of one more column combined into them,
/// row by row. Where one has more rows than the other, the rows past the
/// shorter stay as they are.
pub open spec fn combine_hashes(l: Seq<u64>, h: Seq<u64>) -> Seq<u64> {
    Seq::new(
        h.len(),
        |i: int|
            if i < l.len() {
                boost_hash_combine(l[i], h[i])
            } else {
                h[i]
            },
    )
}

/// The hashes up to one more chunk are the hashes before it and those of its
/// values.
pub proof fn lemma_chunk_hashes_step<T>(chunks: Seq<Vec<Option<T>>>, i: int, f: spec_fn(Option<T>) -> u64)
    requires
        0 <= i < chunks.len(),
    ensures
        chunk_hashes(chunks.take(i + 1), f) == chunk_hashes(chunks.take(i), f) + chunks[i]@.map_values(f),
        chunk_hashes(chunks.take(0), f) == Seq::<u64>::empty(),
        chunk_hashes(chunks.take(chunks.len() as int), f) == chunk_hashes(chunks, f),
{
    let per_chunk = |c: Vec<Option<T>>| c@.map_values(f);
    assert(chunks.take(i + 1) =~= chunks.take(i).push(chunks[i]));
    assert(chunks.take(i).push(chunks[i]).map_values(per_chunk) =~= chunks.take(i).map_values(per_chunk).push(
        per_chunk(chunks[i]),
    ));
    chunks.take(i).map_values(per_chunk).lemma_flatten_push(per_chunk(chunks[i]));
    assert(chunks.take(0).map_values(per_chunk) =~= Seq::<Seq<u64>>::empty());
    assert(chunks.take(chunks.len() as int) =~= chunks);
}

/// Combines the hashes `l` of one more column into `hashes`, row by row.
pub fn combine_into(hashes: &mut Vec<u64>, l: &Vec<u64>)
    ensures
        final(hashes)@ == combine_hashes(l@, old(hashes)@),
{
    let n: usize = if l.len() < hashes.len() {
        l.len()
    } else {
        hashes.len()
    };
    let mut i: usize = 0;
    while i < n
        invariant
            i <= n,
            n <= l@.len(),
            n <= hashes@.len(),
            hashes@.len() == old(hashes)@.len(),
            forall|j: int| 0 <= j < i ==> hashes@[j] == boost_hash_combine(l@[j], old(hashes)@[j]),
            forall|j: int| i <= j < hashes@.len() ==> hashes@[j] == old(hashes)@[j],
        decreases n - i,
    {
        let h: u64 = _boost_hash_combine(l[i], hashes[i]);
        hashes.set(i, h);
        i += 1;
    }
    assert(hashes@ =~= combine_hashes(l@, old(hashes)@));
}

/// A column that can hash its values.
pub trait VecHash {
    /// The hash of each value of the column, in the order of the values.
    spec fn spec_hashes(&self, seeds: HashSeeds) -> Seq<u64>;

    /// Computes the hash of each value into `buf`. What `buf` held is dropped.
    fn vec_hash(&self, seeds: &HashSeeds, buf: &mut Vec<u64>)
        ensures
            final(buf)@ == self.spec_hashes(*seeds),
    ;

    /// Combines the hash of each value into the hash that `hashes` holds for
    /// its row.
    fn vec_hash_combine(&self, seeds: &HashSeeds, hashes: &mut Vec<u64>)
        ensures
            final(hashes)@ == combine_hashes(self.spec_hashes(*seeds), old(hashes)@),
    ;
}

/// A column of integers, in chunks. `None` is a null.
#[derive(Debug, Clone, PartialEq, Eq)]
pub struct Int64Chunked {
    pub chunks: Vec<Vec<Option<i64>>>,
}

/// A column of byte strings, in chunks. `None` is a null.
#[derive(Debug, Clone, PartialEq, Eq)]
pub struct BinaryChunked {
    pub chunks: Vec<Vec<Option<Vec<u8>>>>,
}

/// A column of strings, in chunks. `None` is a null.
#[derive(Debug, Clone, PartialEq, Eq)]
pub struct Utf8Chunked {
    pub chunks: Vec<Vec<Option<String>>>,
}

/// A column of booleans, in chunks. `None` is a null.
#[derive(Debug, Clone, PartialEq, Eq)]
pub struct BooleanChunked {
    pub chunks: Vec<Vec<Option<bool>>>,
}

impl Int64Chunked {
    /// The hash of each value. A null always hashes as a null, whether its
    /// chunk has other nulls or not, so that a column split otherwise hashes
    /// the same.
    pub fn value_hashes(&self, seeds: &HashSeeds) -> (out: Vec<u64>)
        ensures
            out@ == chunk_hashes(self.chunks@, |v: Option<i64>| int_hash(v, *seeds)),
    {
        let ghost f = |v: Option<i64>| int_hash(v, *seeds);
        let mut out: Vec<u64> = Vec::new();
        let mut i: usize = 0;
        proof {
            if self.chunks@.len() > 0 {
                lemma_chunk_hashes_step(self.chunks@, 0, f);
            } else {
                assert(self.chunks@.map_values(|c: Vec<Option<i64>>| c@.map_values(f)) =~= Seq::<
                    Seq<u64>,
                >::empty());
            }
        }
        while i < self.chunks.len()
            invariant
                i <= self.chunks@.len(),
                f == |v: Option<i64>| int_hash(v, *seeds),
                out@ == chunk_hashes(self.chunks@.take(i as int), f),
            decreases self.chunks@.len() - i,
        {
            let chunk: &Vec<Option<i64>> = &self.chunks[i];
            let ghost before = out@;
            let mut j: usize = 0;
            while j < chunk.len()
                invariant
                    j <= chunk@.len(),
                    f == |v: Option<i64>| int_hash(v, *seeds),
                    out@ == before + chunk@.take(j as int).map_values(f),
                decreases chunk@.len() - j,
            {
                let h: u64 = match chunk[j] {
                    Some(x) => _fx_hash(x, seeds.k),
                    None => seeds.null_h,
                };
                out.push(h);
                assert(chunk@.take(j + 1).map_values(f) =~= chunk@.take(j as int).map_values(f).push(h));
                j += 1;
            }
            proof {
                assert(chunk@.take(chunk@.len() as int) =~= chunk@);
                lemma_chunk_hashes_step(self.chunks@, i as int, f);
            }
            i += 1;
        }
        proof {
            if self.chunks@.len() > 0 {
                lemma_chunk_hashes_step(self.chunks@, 0, f);
            }
        }
        out
    }
}

impl VecHash for Int64Chunked {
    open spec fn spec_hashes(&self, seeds: HashSeeds) -> Seq<u64> {
        chunk_hashes(self.chunks@, |v: Option<i64>| int_hash(v, seeds))
    }

    fn vec_hash(&self, seeds: &HashSeeds, buf: &mut Vec<u64>) {
        let mut out: Vec<u64> = self.value_hashes(seeds);
        buf.clear();
        buf.append(&mut out);
    }

    fn vec_hash_combine(&self, seeds: &HashSeeds, hashes: &mut Vec<u64>) {
        let l: Vec<u64> = self.value_hashes(seeds);
        combine_into(hashes, &l);
    }
}

impl BinaryChunked {
    /// The hash of each value: the bytes hashed under the hash of a null as
    /// the seed, so that the random state rules the hashes.
    pub fn value_hashes(&self, seeds: &HashSeeds) -> (out: Vec<u64>)
        ensures
            out@ == chunk_hashes(self.chunks@, |v: Option<Vec<u8>>| bytes_hash(v, *seeds)),
    {
        let ghost f = |v: Option<Vec<u8>>| bytes_hash(v, *seeds);
        let mut out: Vec<u64> = Vec::new();
        let mut i: usize = 0;
        proof {
            if self.chunks@.len() > 0 {
                lemma_chunk_hashes_step(self.chunks@, 0, f);
            } else {
                assert(self.chunks@.map_values(|c: Vec<Option<Vec<u8>>>| c@.map_values(f)) =~= Seq::<
                    Seq<u64>,
                >::empty());
            }
        }
        while i < self.chunks.len()
            invariant
                i <= self.chunks@.len(),
                f == |v: Option<Vec<u8>>| bytes_hash(v, *seeds),
                out@ == chunk_hashes(self.chunks@.take(i as int), f),
            decreases self.chunks@.len() - i,
        {
            let chunk: &Vec<Option<Vec<u8>>> = &self.chunks[i];
            let ghost before = out@;
            let mut j: usize = 0;
            while j < chunk.len()
                invariant
                    j <= chunk@.len(),
                    f == |v: Option<Vec<u8>>| bytes_hash(v, *seeds),
                    out@ == before + chunk@.take(j as int).map_values(f),
                decreases chunk@.len() - j,
            {
                let h: u64 = match &chunk[j] {
                    Some(bytes) => xxhash_rust::xxh3::xxh3_64_with_seed(bytes.as_slice(), seeds.null_h),
                    None => seeds.null_h,
                };
                out.push(h);
                assert(chunk@.take(j + 1).map_values(f) =~= chunk@.take(j as int).map_values(f).push(h));
                j += 1;
            }
            proof {
                assert(chunk@.take(chunk@.len() as int) =~= chunk@);
                lemma_chunk_hashes_step(self.chunks@, i as int, f);
            }
            i += 1;
        }
        proof {
            if self.chunks@.len() > 0 {
                lemma_chunk_hashes_step(self.chunks@, 0, f);
            }
        }
        out
    }
}

impl VecHash for BinaryChunked {
    open spec fn spec_hashes(&self, seeds: HashSeeds) -> Seq<u64> {
        chunk_hashes(self.chunks@, |v: Option<Vec<u8>>| bytes_hash(v, seeds))
    }

    fn vec_hash(&self, seeds: &HashSeeds, buf: &mut Vec<u64>) {
        let mut out: Vec<u64> = self.value_hashes(seeds);
        buf.clear();
        buf.append(&mut out);
    }

    fn vec_hash_combine(&self, seeds: &HashSeeds, hashes: &mut Vec<u64>) {
        let l: Vec<u64> = self.value_hashes(seeds);
        combine_into(hashes, &l);
    }
}

impl BooleanChunked {
    /// The hash of each value: one hash for `true`, one for `false`, one for
    /// a null.
    pub fn value_hashes(&self, seeds: &HashSeeds) -> (out: Vec<u64>)
        ensures
            out@ == chunk_hashes(self.chunks@, |v: Option<bool>| bool_hash(v, *seeds)),
    {
        let ghost f = |v: Option<bool>| bool_hash(v, *seeds);
        let mut out: Vec<u64> = Vec::new();
        let mut i: usize = 0;
        proof {
            if self.chunks@.len() > 0 {
                lemma_chunk_hashes_step(self.chunks@, 0, f);
            } else {
                assert(self.chunks@.map_values(|c: Vec<Option<bool>>| c@.map_values(f)) =~= Seq::<
                    Seq<u64>,
                >::empty());
            }
        }
        while i < self.chunks.len()
            invariant
                i <= self.chunks@.len(),
                f == |v: Option<bool>| bool_hash(v, *seeds),
                out@ == chunk_hashes(self.chunks@.take(i as int), f),
            decreases self.chunks@.len() - i,
        {
            let chunk: &Vec<Option<bool>> = &self.chunks[i];
            let ghost before = out@;
            let mut j: usize = 0;
            while j < chunk.len()
                invariant
                    j <= chunk@.len(),
                    f == |v: Option<bool>| bool_hash(v, *seeds),
                    out@ == before + chunk@.take(j as int).map_values(f),
                decreases chunk@.len() - j,
            {
                let h: u64 = match chunk[j] {
                    Some(true) => seeds.true_h,
                    Some(false) => seeds.false_h,
                    None => seeds.null_h,
                };
                out.push(h);
                assert(chunk@.take(j + 1).map_values(f) =~= chunk@.take(j as int).map_values(f).push(h));
                j += 1;
            }
            proof {
                assert(chunk@.take(chunk@.len() as int) =~= chunk@);
                lemma_chunk_hashes_step(self.chunks@, i as int, f);
            }
            i += 1;
        }
        proof {
            if self.chunks@.len() > 0 {
                lemma_chunk_hashes_step(self.chunks@, 0, f);
            }
        }
        out
    }
}

impl VecHash for BooleanChunked {
    open spec fn spec_hashes(&self, seeds: HashSeeds) -> Seq<u64> {
        chunk_hashes(self.chunks@, |v: Option<bool>| bool_hash(v, seeds))
    }

    fn vec_hash(&self, seeds: &HashSeeds, buf: &mut Vec<u64>) {
        let mut out: Vec<u64> = self.value_hashes(seeds);
        buf.clear();
        buf.append(&mut out);
    }

    fn vec_hash_combine(&self, seeds: &HashSeeds, hashes: &mut Vec<u64>) {
        let l: Vec<u64> = self.value_hashes(seeds);
        combine_into(hashes, &l);
    }
}

impl Utf8Chunked {
    /// The hash of each value: a string hashes as the bytes of its UTF-8
    /// form do in a column of bytes.
    pub fn value_hashes(&self, seeds: &HashSeeds) -> (out: Vec<u64>)
        ensures
            out@ == chunk_hashes(self.chunks@, |v: Option<String>| utf8_hash(v, *seeds)),
    {
        let ghost f = |v: Option<String>| utf8_hash(v, *seeds);
        let mut out: Vec<u64> = Vec::new();
        let mut i: usize = 0;
        proof {
            if self.chunks@.len() > 0 {
                lemma_chunk_hashes_step(self.chunks@, 0, f);
            } else {
                assert(self.chunks@.map_values(|c: Vec<Option<String>>| c@.map_values(f)) =~= Seq::<
                    Seq<u64>,
                >::empty());
            }
        }
        while i < self.chunks.len()
            invariant
                i <= self.chunks@.len(),
                f == |v: Option<String>| utf8_hash(v, *seeds),
                out@ == chunk_hashes(self.chunks@.take(i as int), f),
            decreases self.chunks@.len() - i,
        {
            let chunk: &Vec<Option<String>> = &self.chunks[i];
            let ghost before = out@;
            let mut j: usize = 0;
            while j < chunk.len()
                invariant
                    j <= chunk@.len(),
                    f == |v: Option<String>| utf8_hash(v, *seeds),
                    out@ == before + chunk@.take(j as int).map_values(f),
                decreases chunk@.len() - j,
            {
                let h: u64 = match &chunk[j] {
                    Some(text) => xxhash_rust::xxh3::xxh3_64_with_seed(text.as_str().as_bytes(), seeds.null_h),
                    None => seeds.null_h,
                };
                out.push(h);
                assert(chunk@.take(j + 1).map_values(f) =~= chunk@.take(j as int).map_values(f).push(h));
                j += 1;
            }
            proof {
                assert(chunk@.take(chunk@.len() as int) =~= chunk@);
                lemma_chunk_hashes_step(self.chunks@, i as int, f);
            }
            i += 1;
        }
        proof {
            if self.chunks@.len() > 0 {
                lemma_chunk_hashes_step(self.chunks@, 0, f);
            }
        }
        out
    }
}

impl VecHash for Utf8Chunked {
    open spec fn spec_hashes(&self, seeds: HashSeeds) -> Seq<u64> {
        chunk_hashes(self.chunks@, |v: Option<String>| utf8_hash(v, seeds))
    }

    fn vec_hash(&self, seeds: &HashSeeds, buf: &mut Vec<u64>) {
        let mut out: Vec<u64> = self.value_hashes(seeds);
        buf.clear();
        buf.append(&mut out);
    }

    fn vec_hash_combine(&self, seeds: &HashSeeds, hashes: &mut Vec<u64>) {
        let l: Vec<u64> = self.value_hashes(seeds);
        combine_into(hashes, &l);
    }
}

/// A column of a frame of keys.
#[derive(Debug, Clone, PartialEq, Eq)]
pub enum Column {
    Int64(Int64Chunked),
    Utf8(Utf8Chunked),
    Binary(BinaryChunked),
    Boolean(BooleanChunked),
}

impl VecHash for Column {
    open spec fn spec_hashes(&self, seeds: HashSeeds) -> Seq<u64> {
        match self {
            Column::Int64(ca) => ca.spec_hashes(seeds),
            Column::Utf8(ca) => ca.spec_hashes(seeds),
            Column::Binary(ca) => ca.spec_hashes(seeds),
            Column::Boolean(ca) => ca.spec_hashes(seeds),
        }
    }

    fn vec_hash(&self, seeds: &HashSeeds, buf: &mut Vec<u64>) {
        match self {
            Column::Int64(ca) => ca.vec_hash(seeds, buf),
            Column::Utf8(ca) => ca.vec_hash(seeds, buf),
            Column::Binary(ca) => ca.vec_hash(seeds, buf),
            Column::Boolean(ca) => ca.vec_hash(seeds, buf),
        }
    }

    fn vec_hash_combine(&self, seeds: &HashSeeds, hashes: &mut Vec<u64>) {
        match self {
            Column::Int64(ca) => ca.vec_hash_combine(seeds, hashes),
            Column::Utf8(ca) => ca.vec_hash_combine(seeds, hashes),
            Column::Binary(ca) => ca.vec_hash_combine(seeds, hashes),
            Column::Boolean(ca) => ca.vec_hash_combine(seeds, hashes),
        }
    }
}

/// The hash of each row of the frame of `keys`: the hashes of the first
/// column, with those of every further column combined into them in turn.
pub open spec fn row_hashes(keys: Seq<Column>, seeds: HashSeeds) -> Seq<u64>
    recommends
        keys.len() > 0,
    decreases keys.len(),
{
    if keys.len() <= 1 {
        keys[0].spec_hashes(seeds)
    } else {
        combine_hashes(keys.last().spec_hashes(seeds), row_hashes(keys.drop_last(), seeds))
    }
}

/// Hashes the rows of the frame of `keys` under `seeds`.
pub fn rows_to_hashes(keys: &Vec<Column>, seeds: &HashSeeds) -> (hashes: Vec<u64>)
    requires
        keys@.len() > 0,
    ensures
        hashes@ == row_hashes(keys@, *seeds),
{
    let mut hashes: Vec<u64> = Vec::new();
    keys[0].vec_hash(seeds, &mut hashes);
    assert(keys@.take(1)[0] == keys@[0]);
    let mut i: usize = 1;
    while i < keys.len()
        invariant
            1 <= i <= keys@.len(),
            hashes@ == row_hashes(keys@.take(i as int), *seeds),
        decreases keys@.len() - i,
    {
        keys[i].vec_hash_combine(seeds, &mut hashes);
        proof {
            let upto = keys@.take(i + 1);
            assert(upto.drop_last() =~= keys@.take(i as int));
            assert(upto.last() == keys@[i as int]);
        }
        i += 1;
    }
    assert(keys@.take(keys@.len() as int) =~= keys@);
    hashes
}

/// Hashes the rows of the frame of `keys` under `build_hasher`, or under a
/// random state of its own if none is given, and hands the state back. The
/// hashes are those of `row_hashes` under the seeds drawn from the state.
pub fn df_rows_to_hashes(keys: &Vec<Column>, build_hasher: Option<RandomState>) -> (res: (Vec<u64>, RandomState))
    requires
        keys@.len() > 0,
    ensures
        exists|seeds: HashSeeds| res.0@ == #[trigger] row_hashes(keys@, seeds),
        build_hasher matches Some(state) ==> res.1 == state,
{
    let build_hasher: RandomState = match build_hasher {
        Some(state) => state,
        None => new_random_state(),
    };
    let seeds: HashSeeds = HashSeeds::new(&build_hasher);
    let hashes: Vec<u64> = rows_to_hashes(keys, &seeds);
    (hashes, build_hasher)
}

/// Pairs each key with its hash under `build_hasher`. The keys come back in
/// their order; of the hashes nothing is known.
pub fn create_hash_and_keys(keys: &Vec<u64>, build_hasher: &RandomState) -> (pairs: Vec<(u64, u64)>)
    ensures
        pairs@.len() == keys@.len(),
        forall|i: int| 0 <= i < keys@.len() ==> (#[trigger] pairs@[i]).1 == keys@[i],
{
    let mut pairs: Vec<(u64, u64)> = Vec::new();
    let mut i: usize = 0;
    while i < keys.len()
        invariant
            i <= keys@.len(),
            pairs@.len() == i,
            forall|j: int| 0 <= j < i ==> (#[trigger] pairs@[j]).1 == keys@[j],
        decreases keys@.len() - i,
    {
        let key: u64 = keys[i];
        pairs.push((build_hash(build_hasher, key), key));
        i += 1;
    }
    pairs
}

} // verus!
