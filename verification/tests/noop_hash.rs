use ecs_trie::{NoopBuildHasher, NoopHasher, PreHashedMap};
use std::hash::{BuildHasher, Hash, Hasher};

fn make_hash<K: Hash + std::fmt::Debug + ?Sized>(hash_builder: &impl BuildHasher, val: &K) -> u64 {
    let mut state = hash_builder.build_hasher();
    val.hash(&mut state);
    state.finish()
}

#[test]
fn test_noop_hash() {
    let cmp_done1 = 12638194897137039473_u64;
    let cmp_done2 = 12638189399578898418_u64;
    let cmp_done3 = 12638193797625411262_u64;

    let cmp_done4 = 0_u64;

    let hasher = NoopBuildHasher::default();

    let hash1 = make_hash(&hasher, &cmp_done1);
    assert_eq!(hash1, cmp_done1);

    let hash2 = make_hash(&hasher, &cmp_done2);
    assert_eq!(hash2, cmp_done2);

    let hash3 = make_hash(&hasher, &cmp_done3);
    assert_eq!(hash3, cmp_done3);

    let hash4 = make_hash(&hasher, &cmp_done4);
    assert_eq!(hash4, cmp_done4);
}

#[test]
fn noop_hasher_ignores_bytes() {
    let mut hasher = NoopHasher::default();
    assert_eq!(hasher.finish(), 0);
    hasher.write_u64(7);
    hasher.write(&[1, 2, 3]);
    assert_eq!(hasher.finish(), 7);
    hasher.write_u64(9);
    assert_eq!(hasher.finish(), 9);
}

#[test]
fn pre_hashed_map_keeps_its_entries() {
    let mut map: PreHashedMap<u64, &str> = PreHashedMap::default();
    map.insert(12638194897137039473, "devin");
    map.insert(0, "zero");
    assert_eq!(map.get(&12638194897137039473), Some(&"devin"));
    assert_eq!(map.get(&0), Some(&"zero"));
    assert_eq!(map.get(&1), None);
}
