use vstd::prelude::*;
use vstd::bytes::{
    spec_u16_from_le_bytes,
    spec_u16_to_le_bytes,
    spec_u64_from_le_bytes,
    spec_u64_to_le_bytes,
    u16_from_le_bytes,
    u16_to_le_bytes,
    u64_from_le_bytes,
    u64_to_le_bytes,
};
use crate::format::error::{FormatError, IoErrorKind};
use crate::format::stream::{PxadReader, append};

verus! {

pub const CURRENT_MAJOR_VERSION: u16 = 1;

pub const CURRENT_MINOR_VERSION: u16 = 2;

/// `PXAD` in ASCII: the first four bytes of every file.
pub open spec fn pxad_magic() -> Seq<u8> {
    seq![0x50u8, 0x58, 0x41, 0x44]
}

/// The 32-byte file header.
#[derive(Clone, Copy, Debug, PartialEq, Eq)]
pub struct PxadHeader {
    pub magic: [u8; 4],
    pub major_version: u16,
    pub minor_version: u16,
    pub file_size: u64,
    pub block_count: u64,
    pub reserved: [u8; 8],
}

/// The header's bytes: magic, the two versions, file size, block count and the
/// reserved bytes, numbers in little-endian order.
pub open spec fn header_bytes(h: PxadHeader) -> Seq<u8> {
    h.magic@ + spec_u16_to_le_bytes(h.major_version) + spec_u16_to_le_bytes(h.minor_version)
        + spec_u64_to_le_bytes(h.file_size) + spec_u64_to_le_bytes(h.block_count) + h.reserved@
}

/// The 12-byte header in front of every block.
#[derive(Clone, Copy, Debug, PartialEq, Eq)]
pub struct BlockHeader {
    pub block_type: [u8; 4],
    pub payload_length: u64,
}

/// The block header's bytes: the type tag, then the payload length in little-endian order.
pub open spec fn block_header_bytes(b: BlockHeader) -> Seq<u8> {
    b.block_type@ + spec_u64_to_le_bytes(b.payload_length)
}

pub(crate) proof fn lemma_le_lengths()
    ensures
        forall|x: u16| #[trigger] spec_u16_to_le_bytes(x).len() == 2,
        forall|x: u64| #[trigger] spec_u64_to_le_bytes(x).len() == 8,
        forall|x: u16| spec_u16_from_le_bytes(#[trigger] spec_u16_to_le_bytes(x)) == x,
        forall|x: u64| spec_u64_from_le_bytes(#[trigger] spec_u64_to_le_bytes(x)) == x,
{
    vstd::bytes::lemma_auto_spec_u16_to_from_le_bytes();
    vstd::bytes::lemma_auto_spec_u64_to_from_le_bytes();
    assert forall|x: u16| spec_u16_from_le_bytes(#[trigger] spec_u16_to_le_bytes(x)) == x by {
        assert(spec_u16_to_le_bytes(x).len() == 2);
    }
}

fn array4(v: &Vec<u8>) -> (a: [u8; 4])
    requires
        v@.len() == 4,
    ensures
        a@ == v@,
{
    let a = [v[0], v[1], v[2], v[3]];
    assert(a@ =~= v@);
    a
}

fn array8(v: &Vec<u8>) -> (a: [u8; 8])
    requires
        v@.len() == 8,
    ensures
        a@ == v@,
{
    let a = [v[0], v[1], v[2], v[3], v[4], v[5], v[6], v[7]];
    assert(a@ =~= v@);
    a
}

fn push_array4(out: &mut Vec<u8>, a: &[u8; 4])
    ensures
        final(out)@ == old(out)@ + a@,
{
    out.push(a[0]);
    out.push(a[1]);
    out.push(a[2]);
    out.push(a[3]);
    assert(out@ =~= old(out)@ + a@);
}

fn push_array8(out: &mut Vec<u8>, a: &[u8; 8])
    ensures
        final(out)@ == old(out)@ + a@,
{
    let ghost start = out@;
    for i in 0..8
        invariant
            out@ == start + a@.take(i as int),
    {
        out.push(a[i]);
        assert(a@.take(i + 1) =~= a@.take(i as int).push(a@[i as int]));
    }
    assert(a@.take(8) =~= a@);
}

impl PxadHeader {
    /// A header of the current version with a zero size and block count.
    pub fn new() -> (h: PxadHeader)
        ensures
            h.magic@ == pxad_magic(),
            h.major_version == CURRENT_MAJOR_VERSION,
            h.minor_version == CURRENT_MINOR_VERSION,
            h.file_size == 0,
            h.block_count == 0,
            h.reserved@ == Seq::new(8, |i: int| 0u8),
    {
        let h = PxadHeader {
            magic: [0x50u8, 0x58, 0x41, 0x44],
            major_version: CURRENT_MAJOR_VERSION,
            minor_version: CURRENT_MINOR_VERSION,
            file_size: 0,
            block_count: 0,
            reserved: [0u8; 8],
        };
        assert(h.magic@ =~= pxad_magic());
        assert(h.reserved@ =~= Seq::new(8, |i: int| 0u8));
        h
    }

    /// Appends the header's 32 bytes.
    pub fn write_to(&self, out: &mut Vec<u8>) -> (r: Result<(), FormatError>)
        ensures
            r is Ok,
            final(out)@ == old(out)@ + header_bytes(*self),
    {
        push_array4(out, &self.magic);
        append(out, &u16_to_le_bytes(self.major_version));
        append(out, &u16_to_le_bytes(self.minor_version));
        append(out, &u64_to_le_bytes(self.file_size));
        append(out, &u64_to_le_bytes(self.block_count));
        push_array8(out, &self.reserved);
        assert(out@ =~= old(out)@ + header_bytes(*self));
        Ok(())
    }

    /// Reads a header; fails on a wrong magic or where the data ends early.
    pub fn read_from(reader: &mut PxadReader) -> (r: Result<PxadHeader, FormatError>)
        requires
            old(reader).wf(),
        ensures
            final(reader).wf(),
            final(reader).data@ == old(reader).data@,
            ({
                let d = old(reader).data@;
                let p = old(reader).pos as int;
                if p + 4 > d.len() {
                    &&& r matches Err(FormatError::Io(IoErrorKind::UnexpectedEof))
                    &&& final(reader).pos == d.len()
                } else if d.subrange(p, p + 4) != pxad_magic() {
                    &&& r matches Err(FormatError::InvalidData(_))
                    &&& final(reader).pos == p + 4
                } else if p + 32 > d.len() {
                    &&& r matches Err(FormatError::Io(IoErrorKind::UnexpectedEof))
                    &&& final(reader).pos == d.len()
                } else {
                    &&& r matches Ok(h) && header_bytes(h) == d.subrange(p, p + 32)
                    &&& final(reader).pos == p + 32
                }
            }),
    {
        let ghost d = reader.data@;
        let ghost p = reader.pos as int;
        let magic_v = reader.read_exact(4)?;
        let magic = array4(&magic_v);
        let expected = [0x50u8, 0x58, 0x41, 0x44];
        if magic[0] != expected[0] || magic[1] != expected[1] || magic[2] != expected[2]
            || magic[3] != expected[3] {
            proof {
                if d.subrange(p, p + 4) == pxad_magic() {
                    assert(magic@ =~= pxad_magic());
                }
            }
            return Err(FormatError::InvalidData("invalid magic".to_owned()));
        }
        assert(magic@ =~= pxad_magic());
        proof {
            lemma_le_lengths();
        }
        let major_v = reader.read_exact(2)?;
        let major_version = u16_from_le_bytes(major_v.as_slice());
        let minor_v = reader.read_exact(2)?;
        let minor_version = u16_from_le_bytes(minor_v.as_slice());
        let size_v = reader.read_exact(8)?;
        let file_size = u64_from_le_bytes(size_v.as_slice());
        let count_v = reader.read_exact(8)?;
        let block_count = u64_from_le_bytes(count_v.as_slice());
        let reserved_v = reader.read_exact(8)?;
        let reserved = array8(&reserved_v);
        let h = PxadHeader { magic, major_version, minor_version, file_size, block_count, reserved };
        proof {
            vstd::bytes::lemma_auto_spec_u16_to_from_le_bytes();
            vstd::bytes::lemma_auto_spec_u64_to_from_le_bytes();
            assert(spec_u16_to_le_bytes(major_version) == major_v@);
            assert(spec_u16_to_le_bytes(minor_version) == minor_v@);
            assert(spec_u64_to_le_bytes(file_size) == size_v@);
            assert(spec_u64_to_le_bytes(block_count) == count_v@);
            assert(header_bytes(h) =~= d.subrange(p, p + 32));
        }
        Ok(h)
    }
}

impl BlockHeader {
    pub fn new(block_type: [u8; 4], payload_length: u64) -> (b: BlockHeader)
        ensures
            b == (BlockHeader { block_type, payload_length }),
    {
        BlockHeader { block_type, payload_length }
    }

    /// Appends the block header's 12 bytes.
    pub fn write_to(&self, out: &mut Vec<u8>) -> (r: Result<(), FormatError>)
        ensures
            r is Ok,
            final(out)@ == old(out)@ + block_header_bytes(*self),
    {
        push_array4(out, &self.block_type);
        append(out, &u64_to_le_bytes(self.payload_length));
        assert(out@ =~= old(out)@ + block_header_bytes(*self));
        Ok(())
    }

    /// Reads a block header; fails where fewer than 12 bytes remain.
    pub fn read_from(reader: &mut PxadReader) -> (r: Result<BlockHeader, FormatError>)
        requires
            old(reader).wf(),
        ensures
            final(reader).wf(),
            final(reader).data@ == old(reader).data@,
            ({
                let d = old(reader).data@;
                let p = old(reader).pos as int;
                if p + 12 > d.len() {
                    r matches Err(FormatError::Io(IoErrorKind::UnexpectedEof))
                } else {
                    &&& r matches Ok(b) && block_header_bytes(b) == d.subrange(p, p + 12)
                    &&& final(reader).pos == p + 12
                }
            }),
    {
        let ghost d = reader.data@;
        let ghost p = reader.pos as int;
        let type_v = reader.read_exact(4)?;
        let block_type = array4(&type_v);
        let len_v = reader.read_exact(8)?;
        let payload_length = u64_from_le_bytes(len_v.as_slice());
        let b = BlockHeader { block_type, payload_length };
        proof {
            vstd::bytes::lemma_auto_spec_u64_to_from_le_bytes();
            assert(spec_u64_to_le_bytes(payload_length) == len_v@);
            assert(block_header_bytes(b) =~= d.subrange(p, p + 12));
        }
        Ok(b)
    }
}

/// Distinct headers have distinct bytes, so reading back written bytes gives the
/// header that was written.
pub proof fn law_header_bytes_injective(h1: PxadHeader, h2: PxadHeader)
    requires
        header_bytes(h1) == header_bytes(h2),
    ensures
        h1 == h2,
{
    lemma_le_lengths();
    let b1 = header_bytes(h1);
    let b2 = header_bytes(h2);
    assert(h1.magic@ =~= b1.subrange(0, 4));
    assert(h2.magic@ =~= b2.subrange(0, 4));
    assert(spec_u16_to_le_bytes(h1.major_version) =~= b1.subrange(4, 6));
    assert(spec_u16_to_le_bytes(h2.major_version) =~= b2.subrange(4, 6));
    assert(spec_u16_to_le_bytes(h1.minor_version) =~= b1.subrange(6, 8));
    assert(spec_u16_to_le_bytes(h2.minor_version) =~= b2.subrange(6, 8));
    assert(spec_u64_to_le_bytes(h1.file_size) =~= b1.subrange(8, 16));
    assert(spec_u64_to_le_bytes(h2.file_size) =~= b2.subrange(8, 16));
    assert(spec_u64_to_le_bytes(h1.block_count) =~= b1.subrange(16, 24));
    assert(spec_u64_to_le_bytes(h2.block_count) =~= b2.subrange(16, 24));
    assert(h1.reserved@ =~= b1.subrange(24, 32));
    assert(h2.reserved@ =~= b2.subrange(24, 32));
    assert(h1.magic =~= h2.magic);
    assert(h1.reserved =~= h2.reserved);
}

/// Distinct block headers have distinct bytes.
pub proof fn law_block_header_bytes_injective(b1: BlockHeader, b2: BlockHeader)
    requires
        block_header_bytes(b1) == block_header_bytes(b2),
    ensures
        b1 == b2,
{
    lemma_le_lengths();
    let s1 = block_header_bytes(b1);
    let s2 = block_header_bytes(b2);
    assert(b1.block_type@ =~= s1.subrange(0, 4));
    assert(b2.block_type@ =~= s2.subrange(0, 4));
    assert(spec_u64_to_le_bytes(b1.payload_length) =~= s1.subrange(4, 12));
    assert(spec_u64_to_le_bytes(b2.payload_length) =~= s2.subrange(4, 12));
    assert(b1.block_type =~= b2.block_type);
}

} // verus!
