//! The database file: chunks, fields, schemas, lists and the search tree threaded through them.
use vstd::prelude::*;
use crate::crc24::{compute, crc24_of, crc24_bytes};
use crate::error::DbError;

pub mod dbchunk;
pub mod dbcrc24;
pub mod dbfield;
pub mod dblist;
pub mod dbstruct;
pub mod dbtree;
pub mod dbuuid;

verus! {

/// Size of one chunk in bytes.
pub const CHUNK_SIZE: usize = 256;

/// Size of a chunk's header in bytes.
pub const CHUNK_HEADSZ: usize = 1;

/// Size of a chunk's checksum in bytes.
pub const CHUNK_CRCSZ: usize = 3;

/// Room left for data in a chunk.
pub const CHUNK_DATASZ: usize = 252;

/// A raw chunk: flags and variant for its header byte, and the data that follows it.
pub struct Chunk {
    pub flags: u8,
    pub variant: u8,
    pub data: Vec<u8>,
    pub number: u64,
}

/// The 256 bytes of a raw chunk: the header byte, the data, zeros up to the checksum, and the
/// checksum of all that.
pub open spec fn raw_chunk_bytes(flags: u8, variant: u8, data: Seq<u8>) -> Seq<u8> {
    let body = seq![flags | variant] + data + Seq::new(
        (CHUNK_DATASZ - data.len()) as nat,
        |k: int| 0u8,
    );
    body + crc24_bytes(crc24_of(body))
}

impl Chunk {
    /// The bytes to write for the chunk; `ValueTooLarge` where its data exceeds the room a chunk
    /// has.
    pub fn to_bytes(&self) -> (r: Result<Vec<u8>, DbError>)
        ensures
            r is Ok <==> self.data@.len() <= CHUNK_DATASZ,
            r is Ok ==> r->Ok_0@ == raw_chunk_bytes(self.flags, self.variant, self.data@),
            r is Err ==> r->Err_0 == DbError::ValueTooLarge,
    {
        if self.data.len() > CHUNK_DATASZ {
            return Err(DbError::ValueTooLarge);
        }
        let padding = CHUNK_DATASZ - self.data.len();
        let mut data: Vec<u8> = Vec::new();
        data.push(self.flags | self.variant);
        crate::bytes::append_bytes(&mut data, self.data.as_slice());
        crate::bytes::push_zeros(&mut data, padding);
        let ghost body = data@;
        let crc = compute(data.as_slice());
        data.push((crc >> 16u32) as u8);
        data.push((crc >> 8u32) as u8);
        data.push(crc as u8);
        assert(data@ =~= raw_chunk_bytes(self.flags, self.variant, self.data@));
        Ok(data)
    }
}

/// The number of chunks in a file of `file_length` bytes; `Corruption` where the length is not a
/// whole number of chunks.
pub fn chunk_count_of(file_length: u64) -> (r: Result<u64, DbError>)
    ensures
        r is Ok <==> file_length % 256 == 0,
        r is Ok ==> r->Ok_0 == file_length / 256,
        r is Err ==> r->Err_0 == DbError::Corruption,
{
    if file_length % (CHUNK_SIZE as u64) != 0 {
        return Err(DbError::Corruption);
    }
    Ok(file_length / (CHUNK_SIZE as u64))
}

/// The file offset of chunk `number`; `None` where it does not fit in 64 bits.
pub fn chunk_offset(number: u64) -> (r: Option<u64>)
    ensures
        r is Some <==> number * 256 <= u64::MAX,
        r is Some ==> r->Some_0 == number * 256,
{
    if number > u64::MAX / (CHUNK_SIZE as u64) {
        return None;
    }
    Some(number * (CHUNK_SIZE as u64))
}

} // verus!
