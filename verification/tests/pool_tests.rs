//! Tests for the pools

use std::fmt::Debug;

use bit_set::BitSet;
use regexlr::bitset::Bits;
use regexlr::key::PoolKey;
use regexlr::pool::{Pool, UniquePool};

/// List of strings to test [Pool]
fn strings_to_ten() -> Vec<&'static str> {
    vec![
        "zero", "one", "two", "three", "four", "five", "six", "seven", "eight", "nine",
    ]
}

/// List of bitsets to test [Pool]
fn bitsets_to_twenty() -> Vec<BitSet> {
    vec![
        BitSet::new(),
        BitSet::from_bytes(&[0x1]),
        BitSet::from_bytes(&[0x2]),
        BitSet::from_bytes(&[0x3]),
        BitSet::from_bytes(&[0x4]),
        BitSet::from_bytes(&[0x5]),
        BitSet::from_bytes(&[0x6]),
        BitSet::from_bytes(&[0x7]),
        BitSet::from_bytes(&[0x8]),
        BitSet::from_bytes(&[0x9]),
        BitSet::from_bytes(&[0xA]),
        BitSet::from_bytes(&[0xB]),
        BitSet::from_bytes(&[0xC]),
        BitSet::from_bytes(&[0xD]),
        BitSet::from_bytes(&[0xE]),
        BitSet::from_bytes(&[0xF]),
        BitSet::from_bytes(&[0x10]),
        BitSet::from_bytes(&[0x11]),
        BitSet::from_bytes(&[0x12]),
        BitSet::from_bytes(&[0x13]),
    ]
}

/// The same sets as [bitsets_to_twenty], as keys of a unique pool
fn bits_to_twenty() -> Vec<Bits> {
    let mut sets = vec![Bits::from_bytes(&[])];
    for b in 0x1u8..=0x13 {
        sets.push(Bits::from_bytes(&[b]));
    }
    sets
}

/// Test that a pool accurately creates its items
fn test_pool<Element: Clone + Debug + Eq>(elems: Vec<Element>) {
    let mut pool = Pool::new();

    // test element insertion
    let xs = elems.clone();
    let mut inds = Vec::new();
    for (i, x) in xs.into_iter().enumerate() {
        let ind = pool.insert(x);
        assert_eq!(ind.to_usize(), i);
        inds.push(ind);
    }

    // test element retrieval
    for (i, ind) in inds.into_iter().enumerate() {
        assert_eq!(*pool.get(ind), elems[i]);
    }
    assert_eq!(pool.len(), elems.len());
}

/// Test that a unique pool accurately creates its items.
/// `elems` should have at least 8 items.
fn test_unique_pool<Element: Clone + Debug + Eq + PoolKey>(elems: Vec<Element>) {
    let mut pool = UniquePool::new();

    // test element insertion
    let xs = elems.clone();
    let mut inds = Vec::new();
    for (i, x) in xs.into_iter().enumerate() {
        // check element deduplication
        if i == 2 {
            assert_eq!(pool.insert(x.clone()).to_usize(), i);
        }

        let ind = pool.insert(x);
        assert_eq!(ind.to_usize(), i);
        inds.push(ind);
    }

    // test element deduplication after inserts
    assert_eq!(pool.insert(elems[7].clone()).to_usize(), 7);

    for (i, ind) in inds.into_iter().enumerate() {
        assert_eq!(*pool.get(ind), elems[i]);
    }
    assert_eq!(pool.len(), elems.len());
}

#[test]
fn string_pool() {
    test_pool(strings_to_ten());
}

#[test]
fn bitset_pool() {
    test_pool(bitsets_to_twenty());
}

#[test]
fn bitset_unique_pool() {
    test_unique_pool(bits_to_twenty());
}

#[test]
fn bits_from_bytes_reads_most_significant_bit_first() {
    let a = Bits::from_bytes(&[0x1]);
    let b = Bits::from_bytes(&[0x80]);
    assert_ne!(a, b);
    let mut pool = UniquePool::new();
    assert_eq!(pool.insert(a.clone()).to_usize(), 0);
    assert_eq!(pool.insert(b).to_usize(), 1);
    assert_eq!(pool.insert(a).to_usize(), 0);
    assert_eq!(pool.len(), 2);
}

#[test]
fn equal_bit_sets_are_one_key() {
    let short = Bits::from_bytes(&[0x1]);
    let long = Bits::from_bytes(&[0x1, 0x0]);
    assert!(short.key_eq(&long));
    assert_eq!(short.key_hash(), long.key_hash());
    assert!(!short.key_eq(&Bits::from_bytes(&[0x2])));
    assert!(Bits::from_bytes(&[]).key_eq(&Bits::from_bytes(&[0x0, 0x0])));
}

#[test]
fn string_unique_pool() {
    test_unique_pool(strings_to_ten());
}

#[test]
fn owned_string_unique_pool() {
    let elems: Vec<String> = strings_to_ten().into_iter().map(|s| s.to_string()).collect();
    test_unique_pool(elems);
}

#[test]
fn empty_pools() {
    let pool: UniquePool<String> = UniquePool::new();
    assert!(pool.is_empty());
    assert_eq!(pool.len(), 0);
    let plain: Pool<u8> = Pool::new();
    assert_eq!(plain.len(), 0);
}

#[test]
fn unique_pool_grows_and_deduplicates() {
    // enough keys to make the hash index grow several times
    let keys: Vec<String> = (0..2000).map(|i| format!("key{}", i)).collect();
    let mut pool = UniquePool::new();
    for (i, k) in keys.iter().enumerate() {
        assert_eq!(pool.insert(k.clone()).to_usize(), i);
    }
    assert_eq!(pool.len(), keys.len());
    assert!(!pool.is_empty());
    // every key inserted again comes back at its first index
    for (i, k) in keys.iter().enumerate().rev() {
        assert_eq!(pool.insert(k.clone()).to_usize(), i);
    }
    assert_eq!(pool.len(), keys.len());
}

#[test]
fn unique_pool_same_key_same_index() {
    let mut pool = UniquePool::new();
    let a = pool.insert("a");
    let b = pool.insert("b");
    let a2 = pool.insert("a");
    assert_eq!(a.to_usize(), 0);
    assert_eq!(b.to_usize(), 1);
    assert_eq!(a2.to_usize(), 0);
    assert_eq!(pool.len(), 2);
    assert_eq!(*pool.get(a2), "a");
}

#[test]
fn pool_set_replaces() {
    let mut pool = Pool::new();
    let i = pool.insert(1u32);
    let j = pool.insert(2u32);
    pool.set(i, 10);
    assert_eq!(*pool.get(i), 10);
    assert_eq!(*pool.get(j), 2);
}
