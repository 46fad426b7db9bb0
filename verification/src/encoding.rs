//! Byte-sink helpers for encoders: length-prefixed strings, chunk framing,
//! and the checksum the file format carries.

use vstd::prelude::*;
use vstd::string::StringSliceAdditionalSpecFns;

verus! {

/// A growable byte sink. Encoders write through this so a caller can supply
/// its own buffer type.
pub trait ExtendFromSlice {
    spec fn view_bytes(&self) -> Seq<u8>;

    fn extend_from_slice(&mut self, slice: &[u8])
        ensures
            final(self).view_bytes() == old(self).view_bytes() + slice@,
    ;
}

impl ExtendFromSlice for Vec<u8> {
    open spec fn view_bytes(&self) -> Seq<u8> {
        self@
    }

    fn extend_from_slice(&mut self, slice: &[u8]) {
        let n = slice.len();
        let mut i: usize = 0;
        while i < n
            invariant
                n == slice@.len(),
                i <= n,
                self@ =~= old(self)@ + slice@.subrange(0, i as int),
            decreases n - i,
        {
            self.push(slice[i]);
            proof {
                assert(self@ =~= old(self)@ + slice@.subrange(0, i + 1));
            }
            i = i + 1;
        }
        proof {
            assert(slice@.subrange(0, n as int) =~= slice@);
        }
    }
}

/// `n` in the base-128 variable-length encoding, low group first; the high
/// bit marks a continuation byte.
pub open spec fn varint_bytes(n: int) -> Seq<u8>
    decreases n,
{
    if n < 128 {
        seq![n as u8]
    } else {
        seq![((n % 128) + 128) as u8] + varint_bytes(n / 128)
    }
}

/// Append `val` as a variable-length integer.
pub fn push_usize<V: ExtendFromSlice>(into: &mut V, val: usize)
    ensures
        final(into).view_bytes() == old(into).view_bytes() + varint_bytes(val as int),
{
    let mut buf: Vec<u8> = Vec::new();
    let mut cur = val;
    while cur >= 128
        invariant
            buf@ + varint_bytes(cur as int) =~= varint_bytes(val as int),
        decreases cur,
    {
        buf.push(((cur % 128) + 128) as u8);
        proof {
            assert(buf@ + varint_bytes(cur as int / 128) =~= varint_bytes(val as int));
        }
        cur = cur / 128;
    }
    buf.push(cur as u8);
    proof {
        assert(buf@ =~= varint_bytes(val as int));
    }
    into.extend_from_slice(buf.as_slice());
}

/// Append `val` as a variable-length integer.
pub fn push_u32<V: ExtendFromSlice>(into: &mut V, val: u32)
    ensures
        final(into).view_bytes() == old(into).view_bytes() + varint_bytes(val as int),
{
    push_usize(into, val as usize);
}

/// Append a string: its byte length as a varint, then its bytes.
pub fn push_str<V: ExtendFromSlice>(into: &mut V, val: &str)
    ensures
        final(into).view_bytes() == old(into).view_bytes() + varint_bytes(
            val.spec_bytes().len() as int,
        ) + val.spec_bytes(),
{
    let bytes = val.as_bytes();
    push_usize(into, bytes.len());
    into.extend_from_slice(bytes);
}



/// The kinds of chunk an encoded file is framed into.
#[derive(Clone, Copy, Debug, PartialEq, Eq, Structural)]
pub enum ChunkType {
    FileInfo,
    AgentNames,
    Operations,
    Parents,
}

impl ChunkType {
    /// The wire code of this chunk kind.
    pub open spec fn spec_code(self) -> u32 {
        match self {
            ChunkType::FileInfo => 0,
            ChunkType::AgentNames => 1,
            ChunkType::Operations => 2,
            ChunkType::Parents => 3,
        }
    }

    pub fn code(self) -> (r: u32)
        ensures
            r == self.spec_code(),
    {
        match self {
            ChunkType::FileInfo => 0,
            ChunkType::AgentNames => 1,
            ChunkType::Operations => 2,
            ChunkType::Parents => 3,
        }
    }
}

/// Append a chunk header: the chunk kind's code, then the body length.
pub fn push_chunk_header<V: ExtendFromSlice>(into: &mut V, chunk_type: ChunkType, len: usize)
    ensures
        final(into).view_bytes() == old(into).view_bytes() + varint_bytes(
            chunk_type.spec_code() as int,
        ) + varint_bytes(len as int),
{
    push_u32(into, chunk_type.code());
    push_usize(into, len);
}

/// Append a whole chunk: its header, then its body.
pub fn push_chunk<V: ExtendFromSlice>(into: &mut V, chunk_type: ChunkType, data: &[u8])
    ensures
        final(into).view_bytes() == old(into).view_bytes() + varint_bytes(
            chunk_type.spec_code() as int,
        ) + varint_bytes(data@.len() as int) + data@,
{
    push_chunk_header(into, chunk_type, data.len());
    into.extend_from_slice(data);
}

/// The CRC-32C checksum of a byte string.
pub uninterp spec fn crc32c_of(data: Seq<u8>) -> u32;

/// Relies on the crc crate's `Crc::<u32>::checksum` with the CRC-32-ISCSI
/// parameters: the checksum depends on the bytes alone.
#[verifier::external_body]
pub fn calc_checksum(data: &[u8]) -> (r: u32)
    ensures
        r == crc32c_of(data@),
{
    crc::Crc::<u32>::new(&crc::CRC_32_ISCSI).checksum(data)
}

} // verus!
