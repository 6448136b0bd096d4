//! UUIDs as plain 128-bit numbers, and pools of them as vectors.
use vstd::prelude::*;
use crate::dbio::dbuuid::{is_v4, random_uuid_v4};

verus! {

/// A version-4 UUID as a big-endian 128-bit number.
pub type UuidV4 = u128;

/// A pool of UUIDs, taken from the back.
pub type UuidV4Cache = Vec<UuidV4>;

/// A fresh random UUID.
pub fn generate() -> (r: UuidV4)
    ensures
        is_v4(r),
{
    random_uuid_v4()
}

/// A pool holding `size` fresh UUIDs.
pub fn generate_cache(size: usize) -> (r: UuidV4Cache)
    ensures
        r@.len() == size,
        forall|k: int| 0 <= k < size ==> is_v4(#[trigger] r@[k]),
{
    let mut cache: UuidV4Cache = Vec::with_capacity(size);
    fill(&mut cache, size);
    cache
}

/// Takes the last UUID of the pool, or draws a fresh one when the pool is empty.
pub fn get(cache: &mut UuidV4Cache) -> (r: UuidV4)
    ensures
        old(cache)@.len() > 0 ==> r == old(cache)@.last() && final(cache)@ == old(cache)@.drop_last(),
        old(cache)@.len() == 0 ==> is_v4(r) && final(cache)@ == old(cache)@,
{
    match cache.pop() {
        Some(uuid_v4) => uuid_v4,
        None => generate(),
    }
}

/// Draws fresh UUIDs until the pool holds `size` of them; the ones it holds stay.
pub fn fill(cache: &mut UuidV4Cache, size: usize)
    ensures
        final(cache)@.len() == if old(cache)@.len() < size {
            size as nat
        } else {
            old(cache)@.len()
        },
        final(cache)@.take(old(cache)@.len() as int) == old(cache)@,
        forall|k: int|
            old(cache)@.len() <= k < final(cache)@.len() ==> is_v4(#[trigger] final(cache)@[k]),
{
    let ghost before = cache@;
    while cache.len() < size
        invariant
            before == old(cache)@,
            before.len() <= cache@.len(),
            before.len() < size ==> cache@.len() <= size,
            before.len() >= size ==> cache@ == before,
            cache@.take(before.len() as int) == before,
            forall|k: int| before.len() <= k < cache@.len() ==> is_v4(#[trigger] cache@[k]),
        decreases size - cache@.len(),
    {
        let ghost prev = cache@;
        cache.push(generate());
        assert(cache@.take(before.len() as int) =~= prev.take(before.len() as int));
    }
    assert(before.take(before.len() as int) =~= before);
}

} // verus!
