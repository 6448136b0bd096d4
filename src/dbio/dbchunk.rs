//! The chunk file: an append-only sequence of checksummed 256-byte chunks, and the packing of
//! entries into them.
use vstd::prelude::*;
use vstd::utf8::encode_utf8;
use crate::bytes::{be8, push_u64_be, append_bytes, push_zeros};
use crate::crc24::{compute, crc24_of, crc24_bytes};
use crate::apetypes::{Type, ValueV, S, I, B};
use crate::dbio::dbfield::{Field, FieldV, field_bytes, encodable};
use crate::dbio::dblist::Entry;
use crate::error::DbError;

verus! {

/// Total size of a chunk.
pub const CHUNKSZ: usize = 256;

/// Size of the checksum that ends every chunk.
pub const CHUNKCRCSZ: usize = 3;

/// Bytes of a chunk before its checksum.
pub const CHUNK_BODYSZ: usize = 253;

/// Header of a continued entry chunk: the header byte and the offset of the next chunk.
pub const CHUNK_ENTRY_CONT_HEADSZ: usize = 9;

/// Field bytes that a continued entry chunk carries.
pub const CHUNK_ENTRY_CONT_DATASZ: usize = 244;

/// Header of a stub entry chunk: the header byte and the length byte.
pub const CHUNK_ENTRY_STUB_HEADSZ: usize = 2;

/// Field bytes that a stub entry chunk can carry.
pub const CHUNK_ENTRY_STUB_DATASZ: usize = 251;

/// The chunk variant of a free chunk.
pub const CHUNK_TYPE_FREE: u8 = 0x00;

/// The chunk variant of the database header.
pub const CHUNK_TYPE_DBHEAD: u8 = 0x01;

/// The chunk variant of an entry.
pub const CHUNK_TYPE_ENTRY: u8 = 0x02;

/// The flag of a chunk that is not to be trusted yet.
pub const CHUNK_FLAG_UNDER_CONSTRUCTION: u8 = 0x80;

/// The flag of a chunk whose stream goes on in another chunk.
pub const CHUNK_FLAG_CONTINUED: u8 = 0x40;

/// A chunk body followed by its checksum.
pub open spec fn sealed(body: Seq<u8>) -> Seq<u8> {
    body + crc24_bytes(crc24_of(body))
}

/// `data` followed by zeros up to `size` bytes.
pub open spec fn padded(data: Seq<u8>, size: nat) -> Seq<u8> {
    data + Seq::new((size - data.len()) as nat, |k: int| 0u8)
}

/// A continued chunk of the given variant, pointing at `next` and carrying `data`, zero-padded.
pub open spec fn continued_chunk(variant: u8, next: u64, data: Seq<u8>) -> Seq<u8> {
    sealed(seq![CHUNK_FLAG_CONTINUED | variant] + be8(next) + padded(data, 244))
}

/// A stub chunk of the given variant carrying `data`, zero-padded.
pub open spec fn stub_chunk(variant: u8, data: Seq<u8>) -> Seq<u8> {
    sealed(seq![variant, data.len() as u8] + padded(data, 251))
}

/// The total length of the records.
pub open spec fn total_len(rs: Seq<Seq<u8>>) -> nat
    decreases rs.len(),
{
    if rs.len() == 0 {
        0
    } else {
        rs[0].len() + total_len(rs.drop_first())
    }
}

/// The records one after another.
pub open spec fn concat(rs: Seq<Seq<u8>>) -> Seq<u8>
    decreases rs.len(),
{
    if rs.len() == 0 {
        Seq::empty()
    } else {
        rs[0] + concat(rs.drop_first())
    }
}

/// How many leading records fit, whole, into `room` bytes.
pub open spec fn fit_count(rs: Seq<Seq<u8>>, room: int) -> nat
    decreases rs.len(),
{
    if rs.len() == 0 || rs[0].len() > room {
        0
    } else {
        1 + fit_count(rs.drop_first(), room - rs[0].len())
    }
}

/// The chunks that carry the records `rs` when the first of them is written at offset `base`:
/// while the records left need more than a stub holds, a continued chunk takes as many whole
/// records as fit; then one stub takes the rest. No record is split.
pub open spec fn layout(variant: u8, rs: Seq<Seq<u8>>, base: nat) -> Seq<u8>
    decreases rs.len(),
{
    if rs.len() == 0 {
        Seq::empty()
    } else if total_len(rs) <= CHUNK_ENTRY_STUB_DATASZ {
        stub_chunk(variant, concat(rs))
    } else if fit_count(rs, 244) == 0 || fit_count(rs, 244) > rs.len() {
        Seq::empty()
    } else {
        let k = fit_count(rs, 244) as int;
        continued_chunk(variant, ((base + CHUNKSZ) as nat) as u64, concat(rs.take(k))) + layout(
            variant,
            rs.skip(k),
            (base + CHUNKSZ) as nat,
        )
    }
}

/// The file offset at which record `i` of `rs` begins when laid out from offset `base`.
pub open spec fn record_point(rs: Seq<Seq<u8>>, i: int, base: nat) -> nat
    decreases rs.len(),
{
    if total_len(rs) <= CHUNK_ENTRY_STUB_DATASZ {
        base + 2 + total_len(rs.take(i))
    } else if fit_count(rs, 244) == 0 || fit_count(rs, 244) > rs.len() {
        base
    } else if i < fit_count(rs, 244) {
        base + 9 + total_len(rs.take(i))
    } else {
        let k = fit_count(rs, 244) as int;
        record_point(rs.skip(k), i - k, (base + CHUNKSZ) as nat)
    }
}

/// The records of the fields.
pub open spec fn records_of(fields: Seq<Field>) -> Seq<Seq<u8>> {
    Seq::new(fields.len(), |i: int| field_bytes(fields[i]@))
}

/// Whether every field's value is present.
pub open spec fn all_present(fields: Seq<Field>) -> bool {
    forall|i: int| 0 <= i < fields.len() ==> (#[trigger] fields[i]).value@.is_present()
}

/// Why a field cannot be written, if it cannot: an empty id, or an id or payload too long.
pub open spec fn field_error(f: FieldV) -> Option<DbError> {
    if encode_utf8(f.id).len() == 0 {
        Some(DbError::EmptyId)
    } else if !encodable(f) {
        Some(DbError::ValueTooLarge)
    } else {
        None
    }
}

/// Why the first field that cannot be written cannot be, if one cannot.
pub open spec fn field_errors(fields: Seq<Field>) -> Option<DbError>
    decreases fields.len(),
{
    if fields.len() == 0 {
        None
    } else if field_error(fields[0]@) is Some {
        field_error(fields[0]@)
    } else {
        field_errors(fields.drop_first())
    }
}

/// Whether the records can be laid out without splitting one: wherever what is left needs more
/// than a stub holds, a continued chunk can take at least the next record whole.
pub open spec fn packs(rs: Seq<Seq<u8>>) -> bool
    decreases rs.len(),
{
    if rs.len() == 0 || total_len(rs) <= CHUNK_ENTRY_STUB_DATASZ {
        true
    } else if fit_count(rs, 244) == 0 || fit_count(rs, 244) > rs.len() {
        false
    } else {
        packs(rs.skip(fit_count(rs, 244) as int))
    }
}

/// Why the fields cannot be written as chunks, if they cannot: the first field's own error, or
/// `ValueTooLarge` where some record would have to be split (it is longer than the 244 data
/// bytes of a continued chunk and does not end up in the final stub).
pub open spec fn pack_error(fields: Seq<Field>) -> Option<DbError> {
    if field_errors(fields) is Some {
        field_errors(fields)
    } else if !packs(records_of(fields)) {
        Some(DbError::ValueTooLarge)
    } else {
        None
    }
}

/// Appending a record to a prefix of records extends their concatenation by it.
pub proof fn lemma_concat_take(s: Seq<Seq<u8>>, m: int)
    requires
        0 <= m < s.len(),
    ensures
        concat(s.take(m + 1)) == concat(s.take(m)) + s[m],
        total_len(s.take(m + 1)) == total_len(s.take(m)) + s[m].len(),
    decreases m,
{
    if m > 0 {
        lemma_concat_take(s.drop_first(), m - 1);
        assert(s.take(m + 1).drop_first() =~= s.drop_first().take(m));
        assert(s.take(m).drop_first() =~= s.drop_first().take(m - 1));
        assert(s.take(m + 1)[0] == s[0]);
        assert(s.take(m)[0] == s[0]);
        assert(concat(s.take(m + 1)) == s[0] + concat(s.drop_first().take(m)));
        assert(concat(s.take(m)) == s[0] + concat(s.drop_first().take(m - 1)));
        assert(concat(s.take(m + 1)) =~= concat(s.take(m)) + s[m]);
    } else {
        assert(s.take(1).drop_first() =~= Seq::<Seq<u8>>::empty());
        assert(s.take(0) =~= Seq::<Seq<u8>>::empty());
        assert(s.take(1)[0] == s[0]);
        assert(concat(s.take(1).drop_first()) == Seq::<u8>::empty());
        assert(concat(s.take(1)) =~= s[0]);
    }
}

/// The total length splits at any point.
pub proof fn lemma_total_split(s: Seq<Seq<u8>>, k: int)
    requires
        0 <= k <= s.len(),
    ensures
        total_len(s) == total_len(s.take(k)) + total_len(s.skip(k)),
    decreases k,
{
    if k == 0 {
        assert(s.take(0) =~= Seq::<Seq<u8>>::empty());
        assert(s.skip(0) =~= s);
    } else {
        lemma_total_split(s.drop_first(), k - 1);
        assert(s.take(k).drop_first() =~= s.drop_first().take(k - 1));
        assert(s.take(k)[0] == s[0]);
        assert(s.drop_first().skip(k - 1) =~= s.skip(k));
    }
}

/// The length of the concatenation is the total length.
pub proof fn lemma_concat_len(s: Seq<Seq<u8>>)
    ensures
        concat(s).len() == total_len(s),
    decreases s.len(),
{
    if s.len() > 0 {
        lemma_concat_len(s.drop_first());
    }
}

/// Record `i` sits in the concatenation right after the records before it.
pub proof fn lemma_concat_piece(s: Seq<Seq<u8>>, i: int)
    requires
        0 <= i < s.len(),
    ensures
        total_len(s.take(i)) + s[i].len() <= total_len(s),
        concat(s).subrange(total_len(s.take(i)) as int, (total_len(s.take(i)) + s[i].len()) as int) == s[i],
    decreases i,
{
    lemma_concat_len(s);
    lemma_concat_len(s.drop_first());
    if i > 0 {
        lemma_concat_piece(s.drop_first(), i - 1);
        assert(s.take(i).drop_first() =~= s.drop_first().take(i - 1));
        assert(s.take(i)[0] == s[0]);
        let t = total_len(s.take(i));
        assert(t == s[0].len() + total_len(s.drop_first().take(i - 1)));
        assert(concat(s).subrange(t as int, (t + s[i].len()) as int) =~= concat(s.drop_first()).subrange(
            total_len(s.drop_first().take(i - 1)) as int,
            (total_len(s.drop_first().take(i - 1)) + s[i].len()) as int,
        ));
    } else {
        assert(s.take(0) =~= Seq::<Seq<u8>>::empty());
        assert(concat(s).subrange(0, s[0].len() as int) =~= s[0]);
    }
}

/// The records that `fit_count` counts do fit.
pub proof fn lemma_fit(s: Seq<Seq<u8>>, room: int)
    requires
        room >= 0,
    ensures
        fit_count(s, room) <= s.len(),
        total_len(s.take(fit_count(s, room) as int)) <= room,
    decreases s.len(),
{
    let k = fit_count(s, room) as int;
    if k > 0 {
        lemma_fit(s.drop_first(), room - s[0].len());
        assert(s.take(k).drop_first() =~= s.drop_first().take(k - 1));
        assert(s.take(k)[0] == s[0]);
    } else {
        assert(s.take(0) =~= Seq::<Seq<u8>>::empty());
    }
}

/// A leading part of the first `k` records is a leading part of all of them.
proof fn lemma_take_take(s: Seq<Seq<u8>>, k: int, i: int)
    requires
        0 <= i < k <= s.len(),
    ensures
        total_len(s.take(i)) + s[i].len() <= total_len(s.take(k)),
        concat(s.take(k)).subrange(
            total_len(s.take(i)) as int,
            (total_len(s.take(i)) + s[i].len()) as int,
        )
            == s[i],
{
    assert(s.take(k).take(i) =~= s.take(i));
    lemma_concat_piece(s.take(k), i);
}

/// Every record is laid out whole inside the body of one chunk: after the chunk's header and
/// length bytes (after its next-chunk offset too, where the chunk is continued) and before its
/// checksum.
pub proof fn lemma_records_in_bodies(variant: u8, rs: Seq<Seq<u8>>, base: nat)
    requires
        variant < 0x40,
        packs(rs),
        forall|i: int| 0 <= i < rs.len() ==> 0 < (#[trigger] rs[i]).len(),
    ensures
        layout(variant, rs, base).len() % 256 == 0,
        forall|i: int|
            0 <= i < rs.len() ==> {
                let q = #[trigger] record_point(rs, i, base) - base;
                let l = layout(variant, rs, base);
                &&& 0 <= q
                &&& q + rs[i].len() <= l.len()
                &&& l.subrange(q, q + rs[i].len()) == rs[i]
                &&& 2 <= q % 256
                &&& q % 256 + rs[i].len() <= CHUNK_BODYSZ
                &&& (l[q - q % 256] & CHUNK_FLAG_CONTINUED) != 0 ==> 9 <= q % 256
            },
    decreases rs.len(),
{
    let l = layout(variant, rs, base);
    if rs.len() == 0 {
    } else if total_len(rs) <= CHUNK_ENTRY_STUB_DATASZ {
        lemma_concat_len(rs);
        let c = concat(rs);
        assert(l[0] == variant);
        assert((variant & 0x40u8) == 0) by (bit_vector)
            requires
                variant < 0x40,
        ;
        assert forall|i: int| 0 <= i < rs.len() implies {
            let q = #[trigger] record_point(rs, i, base) - base;
            &&& 0 <= q
            &&& q + rs[i].len() <= l.len()
            &&& l.subrange(q, q + rs[i].len()) == rs[i]
            &&& 2 <= q % 256
            &&& q % 256 + rs[i].len() <= CHUNK_BODYSZ
            &&& (l[q - q % 256] & CHUNK_FLAG_CONTINUED) != 0 ==> 9 <= q % 256
        } by {
            lemma_concat_piece(rs, i);
            let t = total_len(rs.take(i)) as int;
            assert(l.subrange(2 + t, 2 + t + rs[i].len()) =~= c.subrange(t, t + rs[i].len()));
        }
    } else {
        let k = fit_count(rs, 244) as int;
        assert(k > 0);
        lemma_fit(rs, 244);
        let c = concat(rs.take(k));
        lemma_concat_len(rs.take(k));
        let h = CHUNK_FLAG_CONTINUED | variant;
        assert((h & 0x40u8) != 0) by (bit_vector)
            requires
                h == 0x40u8 | variant,
        ;
        let next = ((base + CHUNKSZ) as nat) as u64;
        let chunk = continued_chunk(variant, next, c);
        let rest = rs.skip(k);
        let lr = layout(variant, rest, (base + CHUNKSZ) as nat);
        assert(l == chunk + lr);
        assert(chunk.len() == 256);
        assert forall|i: int| 0 <= i < rest.len() implies 0 < (#[trigger] rest[i]).len() by {
            assert(rest[i] == rs[i + k]);
        }
        lemma_records_in_bodies(variant, rest, (base + CHUNKSZ) as nat);
        assert forall|i: int| 0 <= i < rs.len() implies {
            let q = #[trigger] record_point(rs, i, base) - base;
            &&& 0 <= q
            &&& q + rs[i].len() <= l.len()
            &&& l.subrange(q, q + rs[i].len()) == rs[i]
            &&& 2 <= q % 256
            &&& q % 256 + rs[i].len() <= CHUNK_BODYSZ
            &&& (l[q - q % 256] & CHUNK_FLAG_CONTINUED) != 0 ==> 9 <= q % 256
        } by {
            if i < k {
                lemma_take_take(rs, k, i);
                let t = total_len(rs.take(i)) as int;
                assert(l[0] == h);
                assert(l.subrange(9 + t, 9 + t + rs[i].len()) =~= c.subrange(t, t + rs[i].len()));
            } else {
                let j = i - k;
                assert(rest[j] == rs[i]);
                let q1 = record_point(rest, j, (base + CHUNKSZ) as nat) - (base + CHUNKSZ);
                assert(record_point(rs, i, base) - base == 256 + q1);
                vstd::arithmetic::div_mod::lemma_mod_add_multiples_vanish(q1, 256);
                assert(l.subrange(256 + q1, 256 + q1 + rs[i].len()) =~= lr.subrange(
                    q1,
                    q1 + rs[i].len(),
                ));
                assert(l[256 + q1 - q1 % 256] == lr[q1 - q1 % 256]);
            }
        }
    }
}

/// Every chunk that carries records ends with the checksum of its first 253 bytes.
pub proof fn lemma_layout_chunks_sealed(variant: u8, rs: Seq<Seq<u8>>, base: nat)
    requires
        variant < 0x40,
        packs(rs),
        forall|i: int| 0 <= i < rs.len() ==> 0 < (#[trigger] rs[i]).len(),
    ensures
        forall|j: int|
            0 <= j < layout(variant, rs, base).len() / 256 ==> #[trigger] layout(
                variant,
                rs,
                base,
            ).subrange(256 * j, 256 * j + 256) == sealed(
                layout(variant, rs, base).subrange(256 * j, 256 * j + 253),
            ),
    decreases rs.len(),
{
    let l = layout(variant, rs, base);
    lemma_records_in_bodies(variant, rs, base);
    if rs.len() == 0 {
    } else if total_len(rs) <= CHUNK_ENTRY_STUB_DATASZ {
        lemma_concat_len(rs);
        let body = seq![variant, concat(rs).len() as u8] + padded(concat(rs), 251);
        assert(l.subrange(0, 253) =~= body);
        assert(l.subrange(0, 256) =~= l);
    } else {
        let k = fit_count(rs, 244) as int;
        lemma_fit(rs, 244);
        lemma_concat_len(rs.take(k));
        let next = ((base + CHUNKSZ) as nat) as u64;
        let body = seq![CHUNK_FLAG_CONTINUED | variant] + be8(next) + padded(concat(rs.take(k)), 244);
        let rest = rs.skip(k);
        let lr = layout(variant, rest, (base + CHUNKSZ) as nat);
        assert forall|i: int| 0 <= i < rest.len() implies 0 < (#[trigger] rest[i]).len() by {
            assert(rest[i] == rs[i + k]);
        }
        lemma_layout_chunks_sealed(variant, rest, (base + CHUNKSZ) as nat);
        lemma_records_in_bodies(variant, rest, (base + CHUNKSZ) as nat);
        assert(l == sealed(body) + lr);
        assert forall|j: int| 0 <= j < l.len() / 256 implies #[trigger] l.subrange(
            256 * j,
            256 * j + 256,
        ) == sealed(l.subrange(256 * j, 256 * j + 253)) by {
            if j == 0 {
                assert(l.subrange(0, 253) =~= body);
                assert(l.subrange(0, 256) =~= sealed(body));
            } else {
                assert(l.subrange(256 * j, 256 * j + 256) =~= lr.subrange(
                    256 * (j - 1),
                    256 * (j - 1) + 256,
                ));
                assert(l.subrange(256 * j, 256 * j + 253) =~= lr.subrange(
                    256 * (j - 1),
                    256 * (j - 1) + 253,
                ));
            }
        }
    }
}

/// A record is at least as long as its fixed header.
pub proof fn lemma_field_bytes_len(f: FieldV)
    ensures
        19 <= field_bytes(f).len(),
        encodable(f) ==> field_bytes(f).len() <= 530,
{
}

/// Appends the checksum of a 253-byte chunk body.
fn seal(body: &mut Vec<u8>)
    requires
        old(body)@.len() == CHUNK_BODYSZ,
    ensures
        final(body)@ == sealed(old(body)@),
{
    let crc = compute(body.as_slice());
    body.push((crc >> 16u32) as u8);
    body.push((crc >> 8u32) as u8);
    body.push(crc as u8);
    assert(body@ =~= sealed(old(body)@));
}

/// The continued chunk that points at `next` and carries `data`.
fn continued_chunk_bytes(variant: u8, next: u64, data: &[u8]) -> (r: Vec<u8>)
    requires
        data@.len() <= CHUNK_ENTRY_CONT_DATASZ,
    ensures
        r@ == continued_chunk(variant, next, data@),
{
    let mut chunk: Vec<u8> = Vec::new();
    chunk.push(CHUNK_FLAG_CONTINUED | variant);
    push_u64_be(&mut chunk, next);
    append_bytes(&mut chunk, data);
    push_zeros(&mut chunk, CHUNK_ENTRY_CONT_DATASZ - data.len());
    assert(chunk@ =~= seq![CHUNK_FLAG_CONTINUED | variant] + be8(next) + padded(data@, 244));
    seal(&mut chunk);
    chunk
}

/// The stub chunk that carries `data`.
fn stub_chunk_bytes(variant: u8, data: &[u8]) -> (r: Vec<u8>)
    requires
        data@.len() <= CHUNK_ENTRY_STUB_DATASZ,
    ensures
        r@ == stub_chunk(variant, data@),
{
    let mut chunk: Vec<u8> = Vec::new();
    chunk.push(variant);
    chunk.push(data.len() as u8);
    append_bytes(&mut chunk, data);
    push_zeros(&mut chunk, CHUNK_ENTRY_STUB_DATASZ - data.len());
    assert(chunk@ =~= seq![variant, data@.len() as u8] + padded(data@, 251));
    seal(&mut chunk);
    chunk
}

/// Fields without an error of their own give records of 19 to 530 bytes.
pub proof fn lemma_fields_ok(fields: Seq<Field>)
    requires
        field_errors(fields) is None,
    ensures
        forall|i: int|
            0 <= i < fields.len() ==> 0 < (#[trigger] records_of(fields)[i]).len() <= 530
                && encodable(fields[i]@),
    decreases fields.len(),
{
    if fields.len() > 0 {
        lemma_fields_ok(fields.drop_first());
        assert forall|i: int| 0 <= i < fields.len() implies 0 < (#[trigger] records_of(
            fields,
        )[i]).len() <= 530 && encodable(fields[i]@) by {
            lemma_field_bytes_len(fields[i]@);
            if i > 0 {
                assert(fields[i] == fields.drop_first()[i - 1]);
                assert(records_of(fields.drop_first())[i - 1] == records_of(fields)[i]);
            }
        }
    }
}

/// Each record written for fields that can all be written lies whole inside one chunk body of
/// the file: at or after the chunk's first data byte (byte 9 of a continued chunk, byte 2 of a
/// stub) and before its checksum; and the file holds exactly the record's bytes there.
pub proof fn lemma_points_placed(variant: u8, fields: Seq<Field>, d: Seq<u8>)
    requires
        variant < 0x40,
        d.len() % 256 == 0,
        pack_error(fields) is None,
        d.len() + layout(variant, records_of(fields), d.len()).len() <= u64::MAX,
    ensures
        forall|i: int|
            0 <= i < fields.len() ==> {
                let f = d + layout(variant, records_of(fields), d.len());
                let p = #[trigger] insertion_points(fields, d.len())[i] as int;
                let n = field_bytes(fields[i]@).len();
                &&& d.len() <= p
                &&& p + n <= f.len()
                &&& f.subrange(p, p + n) == field_bytes(fields[i]@)
                &&& 2 <= p % 256
                &&& p % 256 + n <= CHUNK_BODYSZ
                &&& (f[p - p % 256] & CHUNK_FLAG_CONTINUED) != 0 ==> 9 <= p % 256
            },
{
    let rs = records_of(fields);
    let l = layout(variant, rs, d.len());
    lemma_fields_ok(fields);
    lemma_records_in_bodies(variant, rs, d.len());
    assert forall|i: int| 0 <= i < fields.len() implies {
        let f = d + l;
        let p = #[trigger] insertion_points(fields, d.len())[i] as int;
        let n = field_bytes(fields[i]@).len();
        &&& d.len() <= p
        &&& p + n <= f.len()
        &&& f.subrange(p, p + n) == field_bytes(fields[i]@)
        &&& 2 <= p % 256
        &&& p % 256 + n <= CHUNK_BODYSZ
        &&& (f[p - p % 256] & CHUNK_FLAG_CONTINUED) != 0 ==> 9 <= p % 256
    } by {
        let f = d + l;
        let q = record_point(rs, i, d.len()) - d.len();
        assert(rs[i] == field_bytes(fields[i]@));
        let p = d.len() + q;
        assert(insertion_points(fields, d.len())[i] as int == p);
        let n = rs[i].len();
        vstd::arithmetic::div_mod::lemma_fundamental_div_mod(d.len() as int, 256);
        vstd::arithmetic::div_mod::lemma_mod_multiples_vanish(d.len() as int / 256, q, 256);
        assert(f.subrange(p, p + n) =~= l.subrange(q, q + n));
        assert(f[p - p % 256] == l[q - q % 256]);
    }
}

/// Whether the eight bytes at `node + 9` of a file of `len` bytes, and all before them back to
/// `node`, lie inside the body of the chunk that holds `node`: its left and right child offsets
/// can then be rewritten without touching another chunk or a checksum.
pub open spec fn pointer_writable(len: nat, node: nat) -> bool {
    &&& node < len
    &&& node % 256 >= 1
    &&& node % 256 + 17 <= CHUNK_BODYSZ
}

/// `d` with the big-endian bytes of `u` written at `at`.
pub open spec fn with_u64_at(d: Seq<u8>, at: int, u: u64) -> Seq<u8> {
    d.subrange(0, at) + be8(u) + d.skip(at + 8)
}

/// `d` with the checksum of chunk `n` computed again from its body.
pub open spec fn resealed(d: Seq<u8>, n: int) -> Seq<u8> {
    d.subrange(0, 256 * n) + sealed(d.subrange(256 * n, 256 * n + 253)) + d.skip(256 * n + 256)
}

/// `d` with the child offset at `node + offset` set to `child`, and its chunk sealed again.
pub open spec fn with_child(d: Seq<u8>, node: nat, offset: nat, child: u64) -> Seq<u8> {
    resealed(with_u64_at(d, (node + offset) as int, child), (node / 256) as int)
}

/// The default size of the pool of UUIDs, recorded in the database header.
pub const DB_DEFAULT_UUID_CACHE_SIZE: i64 = 1024;

/// The default Unix permissions, recorded in the database header.
pub const DB_DEFAULT_UNIX_PERMISSIONS: i64 = 0o777;

/// The fields of an entry, ready to be written as entry chunks.
pub struct EntryChunk {
    pub fields: Vec<Field>,
}

impl EntryChunk {
    /// The entry chunks of `entry`.
    pub fn new(entry: Entry) -> (r: Self)
        ensures
            r.fields@ == entry.fields@,
    {
        EntryChunk { fields: entry.fields }
    }
}

/// The metadata fields of a database, ready to be written as header chunks.
pub struct DbHeadChunk {
    pub fields: Vec<Field>,
}

/// A field outside any tree.
pub open spec fn plain_field(id: Seq<char>, value: ValueV) -> FieldV {
    FieldV { balance: 0, left: 0, right: 0, id, value }
}

impl DbHeadChunk {
    /// The header of a database named `name` and owned by `owner`: its name, file version 0,
    /// UUID pool size, Unix permissions, owner, and the sanity flags true and false.
    pub fn new(name: &str, owner: &str) -> (r: DbHeadChunk)
        ensures
            r.fields@.len() == 7,
            r.fields@[0]@ == plain_field("name"@, ValueV::S(Some(name@))),
            r.fields@[1]@ == plain_field("ver"@, ValueV::I(Some(0))),
            r.fields@[2]@ == plain_field(
                "uuid_cache_size"@,
                ValueV::I(Some(DB_DEFAULT_UUID_CACHE_SIZE)),
            ),
            r.fields@[3]@ == plain_field("perm"@, ValueV::I(Some(DB_DEFAULT_UNIX_PERMISSIONS))),
            r.fields@[4]@ == plain_field("owner"@, ValueV::S(Some(owner@))),
            r.fields@[5]@ == plain_field("sane"@, ValueV::B(Some(true))),
            r.fields@[6]@ == plain_field("insane"@, ValueV::B(Some(false))),
            all_present(r.fields@),
    {
        let mut dbfields: Vec<Field> = Vec::new();
        dbfields.push(Field::new("name", Type::S(Some(S::new(name)))));
        dbfields.push(Field::new("ver", Type::I(Some(I::new(0)))));
        dbfields.push(
            Field::new("uuid_cache_size", Type::I(Some(I::new(DB_DEFAULT_UUID_CACHE_SIZE)))),
        );
        dbfields.push(Field::new("perm", Type::I(Some(I::new(DB_DEFAULT_UNIX_PERMISSIONS)))));
        dbfields.push(Field::new("owner", Type::S(Some(S::new(owner)))));
        dbfields.push(Field::new("sane", Type::B(Some(B::new(true)))));
        dbfields.push(Field::new("insane", Type::B(Some(B::new(false)))));
        DbHeadChunk { fields: dbfields }
    }
}

/// A group of chunks of one variant.
pub enum ChunkTypes {
    DbHead(DbHeadChunk),
    Entry(EntryChunk),
}

/// The fields that a group of chunks carries, and their chunk variant.
pub open spec fn chunk_fields(chunk: &ChunkTypes) -> (Seq<Field>, u8) {
    match chunk {
        ChunkTypes::DbHead(c) => (c.fields@, CHUNK_TYPE_DBHEAD),
        ChunkTypes::Entry(c) => (c.fields@, CHUNK_TYPE_ENTRY),
    }
}

/// The file offsets at which the records of `fields` begin once laid out from offset `base`.
pub open spec fn insertion_points(fields: Seq<Field>, base: nat) -> Seq<u64> {
    Seq::new(fields.len(), |i: int| record_point(records_of(fields), i, base) as u64)
}

/// `d` with the balance byte of the record at `node` set to `balance`, and its chunk sealed again.
pub open spec fn with_balance(d: Seq<u8>, node: nat, balance: i8) -> Seq<u8> {
    resealed(d.update(node as int, balance as u8), (node / 256) as int)
}

/// Rewriting a child offset changes only its eight bytes and the checksum of the chunk that
/// holds them.
pub proof fn lemma_with_child_bytes(d: Seq<u8>, node: nat, offset: nat, child: u64)
    requires
        d.len() % 256 == 0,
        pointer_writable(d.len(), node),
        offset == 1 || offset == 9,
    ensures
        with_child(d, node, offset, child).len() == d.len(),
        forall|i: int|
            0 <= i < d.len() && !(node + offset <= i < node + offset + 8) && !(node / 256 * 256
                + 253 <= i < node / 256 * 256 + 256) ==> #[trigger] with_child(
                d,
                node,
                offset,
                child,
            )[i] == d[i],
        forall|k: int|
            0 <= k < 8 ==> #[trigger] with_child(d, node, offset, child)[node + offset + k] == be8(
                child,
            )[k],
        node + offset + 8 <= node / 256 * 256 + 253,
        node / 256 * 256 + 256 <= d.len(),
{
    let at = (node + offset) as int;
    let n = (node / 256) as int;
    let cs = 256 * n;
    vstd::arithmetic::div_mod::lemma_fundamental_div_mod(node as int, 256);
    vstd::arithmetic::div_mod::lemma_fundamental_div_mod(d.len() as int, 256);
    let k = d.len() as int / 256;
    assert(cs + 256 <= d.len()) by (nonlinear_arith)
        requires
            cs == 256 * n,
            node == 256 * n + node as int % 256,
            0 <= node as int % 256 < 256,
            node < d.len(),
            d.len() == 256 * k,
    ;
    assert(n / 1 * 256 == cs);
    let w = with_u64_at(d, at, child);
    let d1 = resealed(w, n);
    assert(w.len() == d.len());
    assert(d1 == with_child(d, node, offset, child));
    assert forall|i: int|
        0 <= i < d.len() && !(at <= i < at + 8) && !(cs + 253 <= i < cs + 256) implies #[trigger] d1[i]
        == d[i] by {
        assert(w[i] == d[i]);
    }
    assert forall|j: int| 0 <= j < 8 implies #[trigger] d1[at + j] == be8(child)[j] by {
        assert(w[at + j] == be8(child)[j]);
    }
}

/// A chunk file, held as the bytes of the file.
pub struct ChunkyFile {
    data: Vec<u8>,
}

impl View for ChunkyFile {
    type V = Seq<u8>;

    closed spec fn view(&self) -> Seq<u8> {
        self.data@
    }
}

impl ChunkyFile {
    /// Whether the file is a whole number of chunks.
    pub open spec fn wf(&self) -> bool {
        self@.len() % 256 == 0
    }

    /// The empty file of a newly created database.
    pub fn new() -> (r: ChunkyFile)
        ensures
            r@ == Seq::<u8>::empty(),
            r.wf(),
    {
        ChunkyFile { data: Vec::new() }
    }

    /// The chunk file whose bytes are `data`; `Corruption` where they are not whole chunks.
    pub fn from_bytes(data: Vec<u8>) -> (r: Result<ChunkyFile, DbError>)
        ensures
            r is Ok <==> data@.len() % 256 == 0,
            r is Ok ==> r->Ok_0@ == data@ && r->Ok_0.wf(),
            r is Err ==> r->Err_0 == DbError::Corruption,
    {
        if data.len() % CHUNKSZ != 0 {
            return Err(DbError::Corruption);
        }
        Ok(ChunkyFile { data })
    }

    /// The size of the file in bytes.
    pub fn size(&self) -> (r: usize)
        ensures
            r == self@.len(),
    {
        self.data.len()
    }

    /// The bytes of the file.
    pub fn as_bytes(&self) -> (r: &[u8])
        ensures
            r@ == self@,
    {
        self.data.as_slice()
    }

    /// Whether chunk `number` is present and its checksum verifies.
    pub open spec fn chunk_verifies(&self, number: nat) -> bool {
        crc24_of(self@.subrange(256 * number as int, 256 * number as int + 256)) == 0
    }

    /// Checks the checksum of chunk `number`: true where the CRC-24 of its 256 bytes is zero;
    /// `ShortBuffer` where the file holds no such chunk.
    pub fn verify_chunk(&self, number: u64) -> (r: Result<bool, DbError>)
        requires
            self.wf(),
        ensures
            r is Ok <==> 256 * number + 256 <= self@.len(),
            r is Ok ==> r->Ok_0 == self.chunk_verifies(number as nat),
            r is Err ==> r->Err_0 == DbError::ShortBuffer,
    {
        let count = self.data.len() / CHUNKSZ;
        if number >= count as u64 {
            return Err(DbError::ShortBuffer);
        }
        let start = number as usize * CHUNKSZ;
        let chunk = crate::bytes::copy_range(self.data.as_slice(), start, start + CHUNKSZ);
        Ok(compute(chunk.as_slice()) == 0)
    }

    /// Sets the child offset stored at `node + offset` to `child` and computes the checksum of
    /// the chunk again; `Corruption` where those bytes do not lie in a chunk body.
    pub fn write_child(&mut self, node: u64, offset: u64, child: u64) -> (r: Result<(), DbError>)
        requires
            old(self).wf(),
            offset == 1 || offset == 9,
        ensures
            final(self).wf(),
            final(self)@.len() == old(self)@.len(),
            r is Ok <==> pointer_writable(old(self)@.len(), node as nat),
            r is Ok ==> final(self)@ == with_child(old(self)@, node as nat, offset as nat, child),
            r is Err ==> r->Err_0 == DbError::Corruption && final(self)@ == old(self)@,
    {
        let len = self.data.len();
        if node >= len as u64 || node % 256 < 1 || node % 256 + 17 > 253 {
            return Err(DbError::Corruption);
        }
        let at = (node + offset) as usize;
        let ghost d0 = self.data@;
        let bytes = {
            let mut b: Vec<u8> = Vec::new();
            push_u64_be(&mut b, child);
            b
        };
        let mut k: usize = 0;
        while k < 8
            invariant
                k <= 8,
                bytes@ == be8(child),
                at + 8 <= len,
                len == d0.len(),
                self.data@.len() == d0.len(),
                self.data@ == d0.subrange(0, at as int) + bytes@.subrange(0, k as int) + d0.skip(
                    at + k,
                ),
            decreases 8 - k,
        {
            self.data[at + k] = bytes[k];
            k = k + 1;
            assert(self.data@ =~= d0.subrange(0, at as int) + bytes@.subrange(0, k as int)
                + d0.skip(at + k));
        }
        assert(bytes@.subrange(0, 8) =~= bytes@);
        let ghost d1 = self.data@;
        let n = (node / 256) as usize;
        let start = n * CHUNKSZ;
        let mut body = crate::bytes::copy_range(self.data.as_slice(), start, start + CHUNK_BODYSZ);
        seal(&mut body);
        let mut j: usize = 0;
        while j < 3
            invariant
                j <= 3,
                body@ == sealed(d1.subrange(start as int, start + 253)),
                start + 256 <= len,
                len == d1.len(),
                self.data@.len() == d1.len(),
                self.data@ == d1.subrange(0, start + 253) + body@.subrange(253, 253 + j as int)
                    + d1.skip(start + 253 + j),
            decreases 3 - j,
        {
            self.data[start + 253 + j] = body[253 + j];
            j = j + 1;
            assert(self.data@ =~= d1.subrange(0, start + 253) + body@.subrange(253, 253 + j as int)
                + d1.skip(start + 253 + j));
        }
        assert(self.data@ =~= resealed(d1, n as int));
        Ok(())
    }

    /// Sets the balance byte of the record at `node` to `balance` and computes the checksum of
    /// the chunk again; `Corruption` where the record's tree header does not lie in a chunk body.
    pub fn write_balance(&mut self, node: u64, balance: i8) -> (r: Result<(), DbError>)
        requires
            old(self).wf(),
        ensures
            final(self).wf(),
            final(self)@.len() == old(self)@.len(),
            r is Ok <==> pointer_writable(old(self)@.len(), node as nat),
            r is Ok ==> final(self)@ == with_balance(old(self)@, node as nat, balance),
            r is Err ==> r->Err_0 == DbError::Corruption && final(self)@ == old(self)@,
    {
        let len = self.data.len();
        if node >= len as u64 || node % 256 < 1 || node % 256 + 17 > 253 {
            return Err(DbError::Corruption);
        }
        let at = node as usize;
        self.data[at] = balance as u8;
        let ghost d1 = self.data@;
        assert(d1 == old(self)@.update(node as int, balance as u8));
        let n = (node / 256) as usize;
        let start = n * CHUNKSZ;
        let mut body = crate::bytes::copy_range(self.data.as_slice(), start, start + CHUNK_BODYSZ);
        seal(&mut body);
        let mut j: usize = 0;
        while j < 3
            invariant
                j <= 3,
                body@ == sealed(d1.subrange(start as int, start + 253)),
                start + 256 <= len,
                len == d1.len(),
                self.data@.len() == d1.len(),
                self.data@ == d1.subrange(0, start + 253) + body@.subrange(253, 253 + j as int)
                    + d1.skip(start + 253 + j),
            decreases 3 - j,
        {
            self.data[start + 253 + j] = body[253 + j];
            j = j + 1;
            assert(self.data@ =~= d1.subrange(0, start + 253) + body@.subrange(253, 253 + j as int)
                + d1.skip(start + 253 + j));
        }
        assert(self.data@ =~= resealed(d1, n as int));
        Ok(())
    }

    /// Appends the entry chunks that carry the records of the fields, and returns the file offset
    /// at which each record begins. No record is split: each lies whole inside one chunk body.
    /// With the file unchanged, `EmptyId` or `ValueTooLarge` where a field cannot be written (see
    /// `field_error`), for the first such field.
    pub fn add_entry_chunk(&mut self, chunk: EntryChunk) -> (r: Result<Vec<u64>, DbError>)
        requires
            old(self).wf(),
            all_present(chunk.fields@),
            old(self)@.len() + 600 * chunk.fields@.len() + 256 <= usize::MAX,
        ensures
            final(self).wf(),
            r is Ok <==> pack_error(chunk.fields@) is None,
            r is Err ==> r->Err_0 == pack_error(chunk.fields@)->Some_0 && final(self)@ == old(
                self,
            )@,
            r is Ok ==> final(self)@ == old(self)@ + layout(
                CHUNK_TYPE_ENTRY,
                records_of(chunk.fields@),
                old(self)@.len(),
            ),
            r is Ok ==> r->Ok_0@ == insertion_points(chunk.fields@, old(self)@.len()),
            r is Ok ==> forall|i: int|
                0 <= i < chunk.fields@.len() ==> {
                    let p = #[trigger] r->Ok_0@[i] as int;
                    let n = field_bytes(chunk.fields@[i]@).len();
                    &&& old(self)@.len() <= p
                    &&& p + n <= final(self)@.len()
                    &&& final(self)@.subrange(p, p + n) == field_bytes(chunk.fields@[i]@)
                    &&& 2 <= p % 256
                    &&& p % 256 + n <= CHUNK_BODYSZ
                    &&& (final(self)@[p - p % 256] & CHUNK_FLAG_CONTINUED) != 0 ==> 9 <= p % 256
                },
    {
        let r = self.add_fields(CHUNK_TYPE_ENTRY, &chunk.fields);
        let size = self.data.len();
        proof {
            if r is Ok {
                lemma_points_placed(CHUNK_TYPE_ENTRY, chunk.fields@, old(self)@);
            }
        }
        r
    }

    /// Appends the header chunks that carry the database's metadata, and returns the file offset
    /// at which each record begins; with the file unchanged, `ValueTooLarge` where the name or the
    /// owner is too long to be written, or `EmptyId` as `field_error` gives it.
    pub fn add_dbhead_chunk(&mut self, chunk: DbHeadChunk) -> (r: Result<Vec<u64>, DbError>)
        requires
            old(self).wf(),
            all_present(chunk.fields@),
            old(self)@.len() + 600 * chunk.fields@.len() + 256 <= usize::MAX,
        ensures
            final(self).wf(),
            r is Ok <==> pack_error(chunk.fields@) is None,
            r is Err ==> r->Err_0 == pack_error(chunk.fields@)->Some_0 && final(self)@ == old(
                self,
            )@,
            r is Ok ==> final(self)@ == old(self)@ + layout(
                CHUNK_TYPE_DBHEAD,
                records_of(chunk.fields@),
                old(self)@.len(),
            ),
            r is Ok ==> r->Ok_0@ == insertion_points(chunk.fields@, old(self)@.len()),
    {
        self.add_fields(CHUNK_TYPE_DBHEAD, &chunk.fields)
    }

    /// Appends a group of chunks of either variant, and returns the file offset at which each of
    /// its records begins.
    pub fn add_chunk(&mut self, chunk: &ChunkTypes) -> (r: Result<Option<Vec<u64>>, DbError>)
        requires
            old(self).wf(),
            all_present(chunk_fields(chunk).0),
            old(self)@.len() + 600 * chunk_fields(chunk).0.len() + 256 <= usize::MAX,
        ensures
            final(self).wf(),
            r is Ok <==> pack_error(chunk_fields(chunk).0) is None,
            r is Err ==> r->Err_0 == pack_error(chunk_fields(chunk).0)->Some_0 && final(self)@
                == old(self)@,
            r is Ok ==> final(self)@ == old(self)@ + layout(
                chunk_fields(chunk).1,
                records_of(chunk_fields(chunk).0),
                old(self)@.len(),
            ),
            r is Ok ==> r->Ok_0 is Some && r->Ok_0->Some_0@ == insertion_points(
                chunk_fields(chunk).0,
                old(self)@.len(),
            ),
    {
        let r = match chunk {
            ChunkTypes::DbHead(c) => self.add_fields(CHUNK_TYPE_DBHEAD, &c.fields),
            ChunkTypes::Entry(c) => self.add_fields(CHUNK_TYPE_ENTRY, &c.fields),
        };
        match r {
            Ok(points) => Ok(Some(points)),
            Err(e) => Err(e),
        }
    }

    /// Appends the chunks of variant `variant` that carry the records of `fields`, and returns
    /// the file offset at which each record begins.
    fn add_fields(&mut self, variant: u8, fields: &Vec<Field>) -> (r: Result<Vec<u64>, DbError>)
        requires
            old(self).wf(),
            variant < 0x40,
            all_present(fields@),
            old(self)@.len() + 600 * fields@.len() + 256 <= usize::MAX,
        ensures
            final(self).wf(),
            r is Ok <==> pack_error(fields@) is None,
            r is Err ==> r->Err_0 == pack_error(fields@)->Some_0 && final(self)@ == old(self)@,
            r is Ok ==> final(self)@ == old(self)@ + layout(
                variant,
                records_of(fields@),
                old(self)@.len(),
            ),
            r is Ok ==> r->Ok_0@ == insertion_points(fields@, old(self)@.len()),
    {
        let n = fields.len();
        let ghost rs = records_of(fields@);
        let mut recs: Vec<Vec<u8>> = Vec::new();
        let mut i: usize = 0;
        assert(fields@.skip(0) =~= fields@);
        while i < n
            invariant
                n == fields@.len(),
                rs == records_of(fields@),
                i <= n,
                self.data@ == old(self).data@,
                self.wf(),
                all_present(fields@),
                recs@.len() == i,
                forall|k: int| 0 <= k < i ==> (#[trigger] recs@[k])@ == rs[k],
                forall|k: int| 0 <= k < i ==> 0 < (#[trigger] rs[k]).len() <= 530,
                field_errors(fields@) == field_errors(fields@.skip(i as int)),
            decreases n - i,
        {
            let ghost rest = fields@.skip(i as int);
            assert(rest[0] == fields@[i as int]);
            assert(rest.drop_first() =~= fields@.skip(i + 1));
            let bytes = match fields[i].to_bytes() {
                Ok(bytes) => bytes,
                Err(e) => {
                    return Err(e);
                },
            };
            proof {
                lemma_field_bytes_len(fields@[i as int]@);
            }
            recs.push(bytes);
            i = i + 1;
        }
        assert(fields@.skip(n as int) =~= Seq::<Field>::empty());
        let mut rem: usize = 0;
        let mut j: usize = n;
        assert(rs.skip(n as int) =~= Seq::<Seq<u8>>::empty());
        while j > 0
            invariant
                j <= n,
                n == fields@.len(),
                rs.len() == n,
                recs@.len() == n,
                forall|k: int| 0 <= k < n ==> (#[trigger] recs@[k])@ == rs[k],
                forall|k: int| 0 <= k < n ==> 0 < (#[trigger] rs[k]).len() <= 530,
                rem == total_len(rs.skip(j as int)),
                rem <= 530 * (n - j),
                600 * n + 256 <= usize::MAX,
            decreases j,
        {
            j = j - 1;
            assert(rs.skip(j as int)[0] == rs[j as int]);
            assert(rs.skip(j as int).drop_first() =~= rs.skip(j + 1));
            rem = rem + recs[j].len();
        }
        let total = rem;
        assert(rs.skip(0) =~= rs);
        i = 0;
        while i < n
            invariant
                n == fields@.len(),
                rs == records_of(fields@),
                self.data@ == old(self).data@,
                self.wf(),
                field_errors(fields@) is None,
                rs.len() == n,
                i <= n,
                recs@.len() == n,
                forall|k: int| 0 <= k < n ==> (#[trigger] recs@[k])@ == rs[k],
                forall|k: int| 0 <= k < n ==> 0 < (#[trigger] rs[k]).len() <= 530,
                rem == total_len(rs.skip(i as int)),
                packs(rs) == packs(rs.skip(i as int)),
            decreases n - i,
        {
            let ghost s = rs.skip(i as int);
            if rem <= CHUNK_ENTRY_STUB_DATASZ {
                assert(rs.skip(n as int) =~= Seq::<Seq<u8>>::empty());
                rem = 0;
                i = n;
            } else {
                let mut j: usize = i;
                let mut used: usize = 0;
                assert(s.take(0) =~= Seq::<Seq<u8>>::empty());
                assert(s.skip(0) =~= s);
                while j < n && used + recs[j].len() <= CHUNK_ENTRY_CONT_DATASZ
                    invariant
                        i <= j <= n,
                        rs.len() == n,
                        s == rs.skip(i as int),
                        recs@.len() == n,
                        forall|k: int| 0 <= k < n ==> (#[trigger] recs@[k])@ == rs[k],
                        forall|k: int| 0 <= k < n ==> 0 < (#[trigger] rs[k]).len() <= 530,
                        used == total_len(s.take(j - i)),
                        used <= 244,
                        fit_count(s, 244) == (j - i) + fit_count(s.skip(j - i), 244 - used),
                    decreases n - j,
                {
                    proof {
                        lemma_concat_take(s, j - i);
                        let t = s.skip(j - i);
                        assert(t[0] == rs[j as int]);
                        assert(t.drop_first() =~= s.skip(j - i + 1));
                    }
                    used = used + recs[j].len();
                    j = j + 1;
                }
                proof {
                    if j < n {
                        assert(s.skip(j - i)[0] == rs[j as int]);
                    }
                    lemma_fit(s, 244);
                }
                if j == i {
                    return Err(DbError::ValueTooLarge);
                }
                proof {
                    let k = (j - i) as int;
                    assert(s.skip(k) =~= rs.skip(j as int));
                    lemma_total_split(s, k);
                }
                rem = rem - used;
                i = j;
            }
        }
        rem = total;
        let ghost base = self.data@.len() as nat;
        let mut points: Vec<u64> = Vec::new();
        i = 0;
        while i < n
            invariant
                n == fields@.len(),
                rs.len() == n,
                i <= n,
                recs@.len() == n,
                forall|k: int| 0 <= k < n ==> (#[trigger] recs@[k])@ == rs[k],
                forall|k: int| 0 <= k < n ==> 0 < (#[trigger] rs[k]).len() <= 530,
                rem == total_len(rs.skip(i as int)),
                packs(rs.skip(i as int)),
                self.data@.len() % 256 == 0,
                base <= self.data@.len(),
                self.data@.len() + 256 * (n - i) + 256 <= usize::MAX,
                self.data@ + layout(variant, rs.skip(i as int), self.data@.len() as nat) == old(
                    self,
                ).data@ + layout(variant, rs, base),
                points@.len() == i,
                forall|k: int|
                    0 <= k < i ==> #[trigger] points@[k] as nat == record_point(rs, k, base),
                forall|k: int|
                    i <= k < n ==> #[trigger] record_point(rs, k, base) == record_point(
                        rs.skip(i as int),
                        k - i,
                        self.data@.len() as nat,
                    ),
            decreases n - i,
        {
            let cur = self.data.len();
            let ghost s = rs.skip(i as int);
            let mut buf: Vec<u8> = Vec::new();
            let mut j: usize = i;
            let mut used: usize = 0;
            assert(s.take(0) =~= Seq::<Seq<u8>>::empty());
            assert(s.skip(0) =~= s);
            if rem <= CHUNK_ENTRY_STUB_DATASZ {
                while j < n
                    invariant
                        i <= j <= n,
                        n == fields@.len(),
                        rs.len() == n,
                        s == rs.skip(i as int),
                        recs@.len() == n,
                        forall|k: int| 0 <= k < n ==> (#[trigger] recs@[k])@ == rs[k],
                        rem == total_len(s),
                        rem <= 251,
                        cur == self.data@.len(),
                        cur + 256 <= usize::MAX,
                        buf@ == concat(s.take(j - i)),
                        used == total_len(s.take(j - i)),
                        points@.len() == j,
                        forall|k: int|
                            0 <= k < j ==> #[trigger] points@[k] as nat == record_point(rs, k, base),
                        forall|k: int|
                            i <= k < n ==> #[trigger] record_point(rs, k, base) == record_point(
                                s,
                                k - i,
                                cur as nat,
                            ),
                    decreases n - j,
                {
                    proof {
                        lemma_concat_piece(s, j - i);
                        lemma_concat_take(s, j - i);
                        assert(s[j - i] == rs[j as int]);
                        assert(record_point(s, j - i, cur as nat) == cur + 2 + used);
                    }
                    points.push((cur + CHUNK_ENTRY_STUB_HEADSZ + used) as u64);
                    append_bytes(&mut buf, recs[j].as_slice());
                    used = used + recs[j].len();
                    j = j + 1;
                }
                assert(s.take(n - i) =~= s);
                proof {
                    lemma_concat_len(s);
                }
                let chunk = stub_chunk_bytes(variant, buf.as_slice());
                append_bytes(&mut self.data, chunk.as_slice());
                assert(s.len() > 0);
                assert(rs.skip(n as int) =~= Seq::<Seq<u8>>::empty());
                assert(self.data@ + layout(variant, rs.skip(n as int), self.data@.len() as nat)
                    =~= self.data@);
                rem = 0;
            } else {
                while j < n && used + recs[j].len() <= CHUNK_ENTRY_CONT_DATASZ
                    invariant
                        i <= j <= n,
                        n == fields@.len(),
                        rs.len() == n,
                        s == rs.skip(i as int),
                        recs@.len() == n,
                        forall|k: int| 0 <= k < n ==> (#[trigger] recs@[k])@ == rs[k],
                        forall|k: int| 0 <= k < n ==> 0 < (#[trigger] rs[k]).len() <= 530,
                        rem == total_len(s),
                        rem > 251,
                        cur == self.data@.len(),
                        cur + 256 <= usize::MAX,
                        buf@ == concat(s.take(j - i)),
                        used == total_len(s.take(j - i)),
                        used <= 244,
                        fit_count(s, 244) == (j - i) + fit_count(s.skip(j - i), 244 - used),
                        points@.len() == j,
                        forall|k: int|
                            0 <= k < j ==> #[trigger] points@[k] as nat == record_point(rs, k, base),
                        forall|k: int|
                            i <= k < n ==> #[trigger] record_point(rs, k, base) == record_point(
                                s,
                                k - i,
                                cur as nat,
                            ),
                    decreases n - j,
                {
                    proof {
                        lemma_concat_take(s, j - i);
                        let t = s.skip(j - i);
                        assert(t[0] == rs[j as int]);
                        assert(t.drop_first() =~= s.skip(j - i + 1));
                        assert(fit_count(s, 244) > j - i);
                        lemma_fit(s, 244);
                        assert(record_point(s, j - i, cur as nat) == cur + 9 + used);
                    }
                    points.push((cur + CHUNK_ENTRY_CONT_HEADSZ + used) as u64);
                    append_bytes(&mut buf, recs[j].as_slice());
                    used = used + recs[j].len();
                    j = j + 1;
                }
                let ghost k = (j - i) as int;
                proof {
                    lemma_concat_len(s.take(k));
                    if j < n {
                        assert(s.skip(k)[0] == rs[j as int]);
                    }
                    assert(fit_count(s, 244) == k);
                    assert(s[0] == rs[i as int]);
                    assert(k > 0);
                    assert(s.skip(k) =~= rs.skip(j as int));
                    assert forall|m: int| j <= m < n implies #[trigger] record_point(rs, m, base)
                        == record_point(rs.skip(j as int), m - j, (cur + 256) as nat) by {
                        assert(record_point(rs, m, base) == record_point(s, m - i, cur as nat));
                    }
                }
                let chunk = continued_chunk_bytes(variant, (cur + CHUNKSZ) as u64, buf.as_slice());
                let ghost before = self.data@;
                append_bytes(&mut self.data, chunk.as_slice());
                proof {
                    assert(layout(variant, s, cur as nat) == chunk@ + layout(
                        variant,
                        rs.skip(j as int),
                        (cur + 256) as nat,
                    ));
                    assert(self.data@ + layout(variant, rs.skip(j as int), (cur + 256) as nat)
                        =~= before + layout(variant, s, cur as nat));
                    lemma_fit(s, 244);
                    lemma_total_split(s, k);
                }
                rem = rem - used;
            }
            i = j;
        }
        assert(points@ =~= insertion_points(fields@, base));
        Ok(points)
    }
}

} // verus!
