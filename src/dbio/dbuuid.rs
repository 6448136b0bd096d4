//! Entry identifiers: random version-4 UUIDs, and a pool of them drawn in advance.
use vstd::prelude::*;

verus! {

/// Whether `u` has the version bits of a random UUID and the variant bits of RFC 4122.
pub open spec fn is_v4(u: u128) -> bool {
    (u >> 76u128) & 0xFu128 == 4u128 && (u >> 62u128) & 0x3u128 == 2u128
}

/// The sixteen big-endian bytes of `u`.
pub open spec fn be16(u: u128) -> Seq<u8> {
    Seq::new(16, |k: int| (u >> ((8 * (15 - k)) as u128)) as u8)
}

/// Relies on `uuid::Uuid::new_v4` and `Uuid::as_u128`: a random UUID whose version bits say 4 and
/// whose variant bits say RFC 4122, as a big-endian 128-bit number.
#[verifier::external_body]
pub(crate) fn random_uuid_v4() -> (r: u128)
    ensures
        is_v4(r),
{
    ::uuid::Uuid::new_v4().as_u128()
}

/// A version-4 UUID.
#[derive(Debug, Clone, Copy, PartialEq, Eq, Structural)]
pub struct UuidV4 {
    uuid: u128,
}

impl View for UuidV4 {
    type V = u128;

    closed spec fn view(&self) -> u128 {
        self.uuid
    }
}

impl UuidV4 {
    /// A fresh random UUID.
    pub fn new() -> (r: UuidV4)
        ensures
            is_v4(r@),
    {
        UuidV4 { uuid: random_uuid_v4() }
    }

    /// The sixteen big-endian bytes of the UUID.
    pub fn to_bytes(&self) -> (r: Vec<u8>)
        ensures
            r@ == be16(self@),
    {
        let mut data: Vec<u8> = Vec::new();
        let mut k: usize = 0;
        while k < 16
            invariant
                k <= 16,
                data@ == be16(self@).take(k as int),
            decreases 16 - k,
        {
            data.push((self.uuid >> ((8 * (15 - k)) as u128)) as u8);
            k = k + 1;
            assert(data@ =~= be16(self@).take(k as int));
        }
        assert(be16(self@).take(16) =~= be16(self@));
        data
    }
}

/// A pool of UUIDs drawn in advance, refilled up to `size`.
#[derive(Debug)]
pub struct UuidV4Cache {
    pub cache: Vec<UuidV4>,
    pub size: usize,
}

impl UuidV4Cache {
    /// A pool holding `size` fresh UUIDs.
    pub fn new(size: usize) -> (r: UuidV4Cache)
        ensures
            r.size == size,
            r.cache@.len() == size,
            forall|k: int| 0 <= k < size ==> is_v4((#[trigger] r.cache@[k])@),
    {
        let mut cache: Vec<UuidV4> = Vec::with_capacity(size);
        while cache.len() < size
            invariant
                cache@.len() <= size,
                forall|k: int| 0 <= k < cache@.len() ==> is_v4((#[trigger] cache@[k])@),
            decreases size - cache@.len(),
        {
            cache.push(UuidV4::new());
        }
        UuidV4Cache { cache, size }
    }

    /// Takes the last UUID of the pool, or draws a fresh one when the pool is empty.
    pub fn get(&mut self) -> (r: UuidV4)
        ensures
            final(self).size == old(self).size,
            old(self).cache@.len() > 0 ==> r == old(self).cache@.last() && final(self).cache@
                == old(self).cache@.drop_last(),
            old(self).cache@.len() == 0 ==> is_v4(r@) && final(self).cache@ == old(self).cache@,
    {
        match self.cache.pop() {
            Some(uuid) => uuid,
            None => UuidV4::new(),
        }
    }

    /// Whether the pool is empty.
    pub fn is_empty(&self) -> (r: bool)
        ensures
            r == (self.cache@.len() == 0),
    {
        self.cache.len() == 0
    }

    /// Draws fresh UUIDs until the pool holds `size` of them; the ones it holds stay.
    pub fn refill(&mut self)
        ensures
            final(self).size == old(self).size,
            final(self).cache@.len() == if old(self).cache@.len() < old(self).size {
                old(self).size as nat
            } else {
                old(self).cache@.len()
            },
            final(self).cache@.take(old(self).cache@.len() as int) == old(self).cache@,
            forall|k: int|
                old(self).cache@.len() <= k < final(self).cache@.len() ==> is_v4(
                    (#[trigger] final(self).cache@[k])@,
                ),
    {
        let ghost before = self.cache@;
        while self.cache.len() < self.size
            invariant
                self.size == old(self).size,
                before == old(self).cache@,
                before.len() <= self.cache@.len(),
                before.len() < self.size ==> self.cache@.len() <= self.size,
                before.len() >= self.size ==> self.cache@ == before,
                self.cache@.take(before.len() as int) == before,
                forall|k: int|
                    before.len() <= k < self.cache@.len() ==> is_v4((#[trigger] self.cache@[k])@),
            decreases self.size - self.cache@.len(),
        {
            let ghost prev = self.cache@;
            self.cache.push(UuidV4::new());
            assert(self.cache@.take(before.len() as int) =~= prev.take(before.len() as int));
        }
        assert(before.take(before.len() as int) =~= before);
    }
}

} // verus!
