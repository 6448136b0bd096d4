//! Byte-level helpers: big-endian words, and appending and copying bytes.
use vstd::prelude::*;

verus! {

/// The eight big-endian bytes of `u`.
pub open spec fn be8(u: u64) -> Seq<u8> {
    seq![
        (u >> 56u64) as u8,
        (u >> 48u64) as u8,
        (u >> 40u64) as u8,
        (u >> 32u64) as u8,
        (u >> 24u64) as u8,
        (u >> 16u64) as u8,
        (u >> 8u64) as u8,
        u as u8,
    ]
}

/// The word whose big-endian bytes are the first eight of `s`.
pub open spec fn be8_value(s: Seq<u8>) -> u64
    recommends
        s.len() >= 8,
{
    ((s[0] as u64) << 56u64) | ((s[1] as u64) << 48u64) | ((s[2] as u64) << 40u64) | ((
    s[3] as u64) << 32u64) | ((s[4] as u64) << 24u64) | ((s[5] as u64) << 16u64) | ((
    s[6] as u64) << 8u64) | (s[7] as u64)
}

/// Reading back the bytes of a word gives the word.
pub proof fn lemma_be8_round_trip(u: u64)
    ensures
        be8_value(be8(u)) == u,
{
    let b = be8(u);
    assert(((((u >> 56u64) as u8) as u64) << 56u64) | ((((u >> 48u64) as u8) as u64) << 48u64)
        | ((((u >> 40u64) as u8) as u64) << 40u64) | ((((u >> 32u64) as u8) as u64) << 32u64)
        | ((((u >> 24u64) as u8) as u64) << 24u64) | ((((u >> 16u64) as u8) as u64) << 16u64)
        | ((((u >> 8u64) as u8) as u64) << 8u64) | ((u as u8) as u64) == u) by (bit_vector);
}

/// Appends the big-endian bytes of `u`.
pub fn push_u64_be(v: &mut Vec<u8>, u: u64)
    ensures
        final(v)@ == old(v)@ + be8(u),
{
    v.push((u >> 56u64) as u8);
    v.push((u >> 48u64) as u8);
    v.push((u >> 40u64) as u8);
    v.push((u >> 32u64) as u8);
    v.push((u >> 24u64) as u8);
    v.push((u >> 16u64) as u8);
    v.push((u >> 8u64) as u8);
    v.push(u as u8);
    assert(v@ =~= old(v)@ + be8(u));
}

/// Reads the big-endian word stored at `data[start..start + 8]`.
pub fn read_u64_be(data: &[u8], start: usize) -> (r: u64)
    requires
        start + 8 <= data@.len(),
    ensures
        r == be8_value(data@.subrange(start as int, start + 8)),
{
    let r = ((data[start] as u64) << 56u64) | ((data[start + 1] as u64) << 48u64) | ((data[start
        + 2] as u64) << 40u64) | ((data[start + 3] as u64) << 32u64) | ((data[start + 4] as u64)
        << 24u64) | ((data[start + 5] as u64) << 16u64) | ((data[start + 6] as u64) << 8u64) | (
    data[start + 7] as u64);
    r
}

/// Appends every byte of `s`.
pub fn append_bytes(v: &mut Vec<u8>, s: &[u8])
    ensures
        final(v)@ == old(v)@ + s@,
{
    let mut i: usize = 0;
    while i < s.len()
        invariant
            i <= s@.len(),
            v@ == old(v)@ + s@.subrange(0, i as int),
        decreases s@.len() - i,
    {
        v.push(s[i]);
        i = i + 1;
        assert(v@ =~= old(v)@ + s@.subrange(0, i as int));
    }
    assert(s@.subrange(0, i as int) =~= s@);
}

/// Appends `n` zero bytes.
pub fn push_zeros(v: &mut Vec<u8>, n: usize)
    ensures
        final(v)@ == old(v)@ + Seq::new(n as nat, |k: int| 0u8),
{
    let mut i: usize = 0;
    while i < n
        invariant
            i <= n,
            v@ == old(v)@ + Seq::new(i as nat, |k: int| 0u8),
        decreases n - i,
    {
        v.push(0u8);
        i = i + 1;
        assert(v@ =~= old(v)@ + Seq::new(i as nat, |k: int| 0u8));
    }
}

/// A copy of `data[from..to]`.
pub fn copy_range(data: &[u8], from: usize, to: usize) -> (r: Vec<u8>)
    requires
        from <= to <= data@.len(),
    ensures
        r@ == data@.subrange(from as int, to as int),
{
    let mut r: Vec<u8> = Vec::new();
    let mut i: usize = from;
    while i < to
        invariant
            from <= i <= to <= data@.len(),
            r@ == data@.subrange(from as int, i as int),
        decreases to - i,
    {
        r.push(data[i]);
        i = i + 1;
        assert(r@ =~= data@.subrange(from as int, i as int));
    }
    r
}

} // verus!
