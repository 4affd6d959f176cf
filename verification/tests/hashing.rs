use ahash::RandomState;
use ooc_sort::bytes_hash::bytes_equal;
use ooc_sort::bytes_hash::BytesHash;
use ooc_sort::hashing::_boost_hash_combine;
use ooc_sort::hashing::_fx_hash;
use ooc_sort::hashing::combine_into;
use ooc_sort::hashing::create_hash_and_keys;
use ooc_sort::hashing::df_rows_to_hashes;
use ooc_sort::hashing::get_null_hash_value;
use ooc_sort::hashing::rows_to_hashes;
use ooc_sort::hashing::this_partition;
use ooc_sort::hashing::BinaryChunked;
use ooc_sort::hashing::BooleanChunked;
use ooc_sort::hashing::Column;
use ooc_sort::hashing::HashSeeds;
use ooc_sort::hashing::Int64Chunked;
use ooc_sort::hashing::Utf8Chunked;
use ooc_sort::hashing::VecHash;
use ooc_sort::table::prepare_hashed_relation;
use ooc_sort::table::prepare_hashed_relations;
use xxhash_rust::xxh3::xxh3_64_with_seed;

fn seeds() -> HashSeeds {
    HashSeeds { k: 3, null_h: 1000, true_h: 7, false_h: 9 }
}

#[test]
fn boost_combine_exact() {
    assert_eq!(_boost_hash_combine(1, 2), 0x9e3779b97f4a7c56);
    assert_eq!(_boost_hash_combine(0, 0), 0x9e3779b97f4a7c15);
    // Every sum wraps round 64 bits.
    assert_eq!(
        _boost_hash_combine(u64::MAX, u64::MAX),
        u64::MAX
            ^ u64::MAX.wrapping_add(
                0x9e3779b97f4a7c15u64
                    .wrapping_add(u64::MAX << 6)
                    .wrapping_add(u64::MAX >> 2)
            )
    );
}

#[test]
fn fx_hash_exact() {
    assert_eq!(_fx_hash(5, 3), 15);
    assert_eq!(_fx_hash(-1, 3), 0xFFFF_FFFF_FFFF_FFFD);
    assert_eq!(_fx_hash(i64::MIN, 2), 0);
    assert_eq!(_fx_hash(0, u64::MAX), 0);
}

#[test]
fn this_partition_by_low_bits() {
    assert!(this_partition(5, 3, 4));
    assert!(!this_partition(5, 0, 4));
    assert!(this_partition(8, 0, 8));
    assert!(this_partition(u64::MAX, 1, 2));
    assert!(this_partition(77, 0, 1));
    for h in [0u64, 1, 2, 3, 12345, u64::MAX] {
        let mine: Vec<u64> = (0..8).filter(|p| this_partition(h, *p, 8)).collect();
        assert_eq!(mine.len(), 1);
    }
}

#[test]
fn integer_column_hashes() {
    let ca = Int64Chunked { chunks: vec![vec![Some(5), None], vec![], vec![Some(-1)]] };
    let mut buf = vec![42, 42, 42, 42, 42];
    ca.vec_hash(&seeds(), &mut buf);
    assert_eq!(buf, vec![15, 1000, 0xFFFF_FFFF_FFFF_FFFD]);
    let mut hashes = vec![1, 2, 3];
    ca.vec_hash_combine(&seeds(), &mut hashes);
    assert_eq!(
        hashes,
        vec![
            _boost_hash_combine(15, 1),
            _boost_hash_combine(1000, 2),
            _boost_hash_combine(0xFFFF_FFFF_FFFF_FFFD, 3)
        ]
    );
}

#[test]
fn split_column_hashes_the_same() {
    let whole = Int64Chunked { chunks: vec![vec![Some(1), None, Some(3), Some(4)]] };
    let split = Int64Chunked { chunks: vec![vec![Some(1)], vec![None, Some(3)], vec![Some(4)]] };
    assert_eq!(whole.value_hashes(&seeds()), split.value_hashes(&seeds()));
}

#[test]
fn binary_column_hashes_with_xxh3() {
    let ca = BinaryChunked {
        chunks: vec![vec![Some(b"abc".to_vec()), None], vec![Some(Vec::new()), Some(vec![0u8; 300])]],
    };
    let mut buf = Vec::new();
    ca.vec_hash(&seeds(), &mut buf);
    assert_eq!(
        buf,
        vec![
            xxh3_64_with_seed(b"abc", 1000),
            1000,
            xxh3_64_with_seed(b"", 1000),
            xxh3_64_with_seed(&[0u8; 300], 1000)
        ]
    );
    // The seed is the hash of a null: another one gives other hashes.
    let other = HashSeeds { null_h: 1001, ..seeds() };
    assert_ne!(ca.value_hashes(&other)[0], buf[0]);
    assert_ne!(buf[0], buf[2]);
}

#[test]
fn string_column_hashes_as_its_bytes() {
    let text = Utf8Chunked { chunks: vec![vec![Some("abc".to_string()), None, Some("\u{e9}".to_string())]] };
    let bytes = BinaryChunked { chunks: vec![vec![Some(b"abc".to_vec())], vec![None, Some(vec![0xc3, 0xa9])]] };
    let mut of_text = Vec::new();
    text.vec_hash(&seeds(), &mut of_text);
    assert_eq!(of_text, bytes.value_hashes(&seeds()));
    assert_eq!(of_text[0], xxh3_64_with_seed(b"abc", 1000));
    let mut hashes = vec![5, 6, 7];
    Column::Utf8(text).vec_hash_combine(&seeds(), &mut hashes);
    assert_eq!(hashes[1], _boost_hash_combine(1000, 6));
}

#[test]
fn boolean_column_hashes() {
    let ca = BooleanChunked { chunks: vec![vec![Some(true), Some(false)], vec![None, Some(true)]] };
    let mut buf = Vec::new();
    ca.vec_hash(&seeds(), &mut buf);
    assert_eq!(buf, vec![7, 9, 1000, 7]);
}

#[test]
fn combine_stops_at_the_shorter() {
    let mut hashes = vec![1, 2, 3];
    combine_into(&mut hashes, &vec![10, 20]);
    assert_eq!(hashes, vec![_boost_hash_combine(10, 1), _boost_hash_combine(20, 2), 3]);
    let mut hashes = vec![1];
    combine_into(&mut hashes, &vec![10, 20]);
    assert_eq!(hashes, vec![_boost_hash_combine(10, 1)]);
}

#[test]
fn rows_combine_column_by_column() {
    let keys = vec![
        Column::Int64(Int64Chunked { chunks: vec![vec![Some(1), Some(2)]] }),
        Column::Boolean(BooleanChunked { chunks: vec![vec![Some(true)], vec![None]] }),
        Column::Binary(BinaryChunked { chunks: vec![vec![None, Some(b"x".to_vec())]] }),
    ];
    let hashes = rows_to_hashes(&keys, &seeds());
    let first = _boost_hash_combine(1000, _boost_hash_combine(7, 3));
    let second = _boost_hash_combine(xxh3_64_with_seed(b"x", 1000), _boost_hash_combine(1000, 6));
    assert_eq!(hashes, vec![first, second]);
    assert_eq!(rows_to_hashes(&keys[..1].to_vec(), &seeds()), vec![3, 6]);
}

#[test]
fn one_state_gives_the_same_hashes() {
    let keys = vec![
        Column::Int64(Int64Chunked { chunks: vec![vec![Some(1), None, Some(1)]] }),
        Column::Boolean(BooleanChunked { chunks: vec![vec![Some(true), None, Some(true)]] }),
    ];
    let state = RandomState::with_seeds(1, 2, 3, 4);
    let (hashes, state) = df_rows_to_hashes(&keys, Some(state));
    let (again, state) = df_rows_to_hashes(&keys, Some(state));
    assert_eq!(hashes, again);
    assert_eq!(hashes.len(), 3);
    assert_eq!(hashes[0], hashes[2]);
    assert_ne!(hashes[0], hashes[1]);
    let drawn = HashSeeds::new(&state);
    assert_eq!(hashes, rows_to_hashes(&keys, &drawn));
    assert_eq!(drawn.null_h, get_null_hash_value(&state));
    assert_ne!(drawn.true_h, drawn.false_h);
    let (own, _) = df_rows_to_hashes(&keys, None);
    assert_eq!(own.len(), 3);
    assert_eq!(own[0], own[2]);
}

#[test]
fn hash_and_keys_keeps_the_keys() {
    let state = RandomState::with_seeds(5, 6, 7, 8);
    let pairs = create_hash_and_keys(&vec![10, 20, 10], &state);
    assert_eq!(pairs.iter().map(|p| p.1).collect::<Vec<u64>>(), vec![10, 20, 10]);
    assert_eq!(pairs[0].0, pairs[2].0);
    assert_ne!(pairs[0].0, pairs[1].0);
    assert_ne!(pairs[0].0, 10);
}

#[test]
fn relation_collects_rows_of_each_key() {
    // The hashes are chosen: even ones fall to partition 0 of 2.
    let pairs = vec![vec![(2, 100), (3, 200), (4, 300)], vec![], vec![(2, 100), (3, 200), (6, 100)]];
    let even = prepare_hashed_relation(&pairs, 0, 2, RandomState::with_seeds(1, 2, 3, 4));
    assert_eq!(even.rows_of(100), Some((false, vec![0, 3, 5])));
    assert_eq!(even.rows_of(300), Some((false, vec![2])));
    assert_eq!(even.rows_of(200), None);
    let odd = prepare_hashed_relation(&pairs, 1, 2, RandomState::with_seeds(1, 2, 3, 4));
    assert_eq!(odd.rows_of(200), Some((false, vec![1, 4])));
    assert_eq!(odd.rows_of(100), None);
    let empty = prepare_hashed_relation(&Vec::new(), 0, 1, RandomState::new());
    assert_eq!(empty.rows_of(0), None);
}

#[test]
fn relations_cover_every_key_once() {
    let state = RandomState::with_seeds(9, 9, 9, 9);
    let keys: Vec<u64> = (0..200).map(|i| i % 37).collect();
    let pairs = vec![create_hash_and_keys(&keys[..120].to_vec(), &state), create_hash_and_keys(&keys[120..].to_vec(), &state)];
    let tables = prepare_hashed_relations(&pairs, 4, &state);
    assert_eq!(tables.len(), 4);
    for key in 0..37u64 {
        let found: Vec<(bool, Vec<u32>)> = tables.iter().filter_map(|t| t.rows_of(key)).collect();
        assert_eq!(found.len(), 1);
        let expected: Vec<u32> = (0..200u32).filter(|i| (*i as u64) % 37 == key).collect();
        assert_eq!(found[0], (false, expected));
    }
    assert!(tables.iter().all(|t| t.rows_of(37).is_none()));
}

#[test]
fn bytes_hash_compares_hash_and_bytes() {
    let a = BytesHash::new(Some(b"abc"), 1);
    let b = BytesHash::new(Some(b"abc"), 1);
    let other_hash = BytesHash::new(Some(b"abc"), 2);
    let other_bytes = BytesHash::new(Some(b"abd"), 1);
    let null = BytesHash::new(None, 1);
    assert!(a == b);
    assert!(a != other_hash);
    assert!(a != other_bytes);
    assert!(a != null);
    assert!(null == BytesHash::new(None, 1));
    assert!(null != BytesHash::new(None, 3));
    assert_eq!(a.hash(), 1);
    assert!(bytes_equal(b"", b""));
    assert!(!bytes_equal(b"a", b"ab"));
}
