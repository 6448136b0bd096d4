use apedb::dbio::dbuuid::{UuidV4, UuidV4Cache};
use apedb::uuid;

fn is_v4(bytes: &[u8]) -> bool {
    bytes[6] >> 4 == 4 && bytes[8] >> 6 == 2
}

// test the uuid v4 generation
#[test]
fn test_uuid_v4() {
    let uuid = UuidV4::new();

    assert_eq!(uuid.to_bytes().len(), 16); // Check the length of the uuid
    assert_ne!(uuid.to_bytes(), UuidV4::new().to_bytes()); // Check that the uuid is unique
}

// test the uuid v4 cache creation
#[test]
fn test_uuid_v4_cache_new() {
    let cache = UuidV4Cache::new(10);

    assert_eq!(cache.cache.len(), 10); // Check the length of the cache
    assert_eq!(cache.cache.capacity(), 10); // Check the capacity of the cache
}

// test the uuid v4 cache get
#[test]
fn test_uuid_v4_cache_get() {
    let mut cache = UuidV4Cache::new(10);

    let uuid = cache.get();

    assert_eq!(cache.cache.len(), 9); // Check the length of the cache

    assert_eq!(uuid.to_bytes().len(), 16); // Check the length of the uuid
    assert_ne!(uuid.to_bytes(), UuidV4::new().to_bytes()); // Check that the uuid is unique
}

// make sure the cache functions propertly when empty
#[test]
fn test_uuid_v4_cache_drain() {
    let mut cache = UuidV4Cache::new(10);

    cache.cache.drain(..);

    assert_eq!(cache.cache.len(), 0); // Check the length of the cache

    assert_ne!(cache.get().to_bytes(), cache.get().to_bytes()); // Check that the cache doesn't spit out the same uuid if drained
}

// test the uuid v4 cache refill
#[test]
fn test_uuid_v4_cache_refill() {
    let mut cache = UuidV4Cache::new(10);

    cache.cache.drain(..);

    cache.refill();

    assert_eq!(cache.cache.len(), 10); // Check the length of the cache
}

#[test]
fn uuids_carry_version_and_variant_bits() {
    for _ in 0..50 {
        assert!(is_v4(&UuidV4::new().to_bytes()));
        assert!(is_v4(&uuid::generate().to_be_bytes()));
    }
}

#[test]
fn cache_hands_out_its_uuids_from_the_back() {
    let mut cache = UuidV4Cache::new(3);
    let last = cache.cache[2];
    assert!(!cache.is_empty());
    assert_eq!(cache.get(), last);
    assert_eq!(cache.cache.len(), 2);
    cache.refill();
    assert_eq!(cache.cache.len(), 3);
    cache.get();
    cache.get();
    cache.get();
    assert!(cache.is_empty());
}

#[test]
fn plain_uuid_pool() {
    let mut pool = uuid::generate_cache(4);
    assert_eq!(pool.len(), 4);
    let last = pool[3];
    assert_eq!(uuid::get(&mut pool), last);
    assert_eq!(pool.len(), 3);
    uuid::fill(&mut pool, 4);
    assert_eq!(pool.len(), 4);
    let mut empty: Vec<u128> = Vec::new();
    let fresh = uuid::get(&mut empty);
    assert!(is_v4(&fresh.to_be_bytes()));
    assert!(empty.is_empty());
}
