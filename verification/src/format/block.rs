use vstd::prelude::*;
use vstd::bytes::{spec_u64_from_le_bytes, spec_u64_to_le_bytes};
use crate::format::error::{FormatError, IoErrorKind};
use crate::format::header::{BlockHeader, block_header_bytes, lemma_le_lengths};
use crate::format::stream::{PxadReader, PxadWriter};

verus! {

/// The largest payload a block may declare: 256 MiB.
pub const MAX_BLOCK_PAYLOAD: u64 = 268435456;

/// Number of zero bytes that bring `n` up to a multiple of eight.
pub open spec fn pad_len(n: int) -> int {
    if n % 8 == 0 {
        0
    } else {
        8 - n % 8
    }
}

/// The bytes of one block written at stream position `pos`: the block header,
/// the payload and the zero padding that aligns the stream to eight bytes.
pub open spec fn block_bytes(pos: int, block_type: Seq<u8>, payload: Seq<u8>) -> Seq<u8> {
    block_type + spec_u64_to_le_bytes(payload.len() as u64) + payload + Seq::new(
        pad_len(pos + 12 + payload.len()) as nat,
        |i: int| 0u8,
    )
}

/// The payload length declared by the block header at `p`.
pub open spec fn block_len_at(d: Seq<u8>, p: int) -> u64 {
    spec_u64_from_le_bytes(d.subrange(p + 4, p + 12))
}

/// Writes a block header, the payload and the alignment padding.
pub fn write_block(writer: &mut PxadWriter, block_type: [u8; 4], payload: &[u8]) -> (r: Result<
    (),
    FormatError,
>)
    requires
        old(writer).wf(),
        old(writer).buffer@.len() + 12 + payload@.len() + 8 <= u64::MAX,
    ensures
        r is Ok,
        final(writer).wf(),
        final(writer).buffer@ == old(writer).buffer@ + block_bytes(
            old(writer).buffer@.len() as int,
            block_type@,
            payload@,
        ),
{
    let ghost start = writer.buffer@;
    let header = BlockHeader::new(block_type, payload.len() as u64);
    let mut hb: Vec<u8> = Vec::new();
    header.write_to(&mut hb)?;
    proof {
        lemma_le_lengths();
    }
    assert(hb@ == block_header_bytes(header));
    writer.write_all(hb.as_slice());
    writer.write_all(payload);
    let ghost mid = writer.buffer@;
    let pad = writer.write_padding()?;
    proof {
        assert(mid.len() == start.len() + 12 + payload@.len());
        assert(writer.buffer@ =~= start + block_bytes(start.len() as int, block_type@, payload@));
    }
    Ok(())
}

/// Reads one block: its type tag and payload, then skips the padding. Fails on a
/// short stream, on a declared length over 256 MiB, or on non-zero padding.
pub fn read_block(reader: &mut PxadReader) -> (r: Result<([u8; 4], Vec<u8>), FormatError>)
    requires
        old(reader).wf(),
    ensures
        final(reader).wf(),
        final(reader).data@ == old(reader).data@,
        ({
            let d = old(reader).data@;
            let p = old(reader).pos as int;
            let n = block_len_at(d, p) as int;
            let q = p + 12 + n;
            if p + 12 > d.len() {
                r matches Err(FormatError::Io(IoErrorKind::UnexpectedEof))
            } else if n > MAX_BLOCK_PAYLOAD {
                r matches Err(FormatError::InvalidData(_))
            } else if q + pad_len(q) > d.len() {
                r matches Err(FormatError::Io(IoErrorKind::UnexpectedEof))
            } else if exists|k: int| q <= k < q + pad_len(q) && d[k] != 0 {
                r matches Err(FormatError::InvalidData(_))
            } else {
                &&& r matches Ok((t, v)) && t@ == d.subrange(p, p + 4) && v@ == d.subrange(p + 12, q)
                &&& final(reader).pos == q + pad_len(q)
            }
        }),
{
    let ghost d = reader.data@;
    let ghost p = reader.pos as int;
    let header = BlockHeader::read_from(reader)?;
    proof {
        lemma_le_lengths();
        let hb = block_header_bytes(header);
        assert(spec_u64_to_le_bytes(header.payload_length) =~= hb.subrange(4, 12));
        assert(d.subrange(p + 4, p + 12) =~= hb.subrange(4, 12));
        assert(header.block_type@ =~= d.subrange(p, p + 4));
    }
    if header.payload_length > MAX_BLOCK_PAYLOAD {
        return Err(FormatError::InvalidData("block too large".to_owned()));
    }
    let payload = reader.read_exact(header.payload_length as usize)?;
    reader.skip_padding()?;
    Ok((header.block_type, payload))
}

/// Reading a block back from where it was written gives the block type and the
/// payload that were written, and ends where the written block ends.
pub proof fn law_block_roundtrip(d: Seq<u8>, p: int, block_type: Seq<u8>, payload: Seq<u8>)
    requires
        block_type.len() == 4,
        payload.len() <= MAX_BLOCK_PAYLOAD,
        0 <= p,
        p + block_bytes(p, block_type, payload).len() <= d.len(),
        d.subrange(p, p + block_bytes(p, block_type, payload).len()) == block_bytes(
            p,
            block_type,
            payload,
        ),
    ensures
        ({
            let n = block_len_at(d, p) as int;
            let q = p + 12 + n;
            &&& p + 12 <= d.len()
            &&& n == payload.len()
            &&& q + pad_len(q) <= d.len()
            &&& forall|k: int| q <= k < q + pad_len(q) ==> d[k] == 0
            &&& d.subrange(p, p + 4) == block_type
            &&& d.subrange(p + 12, q) == payload
            &&& q + pad_len(q) == p + block_bytes(p, block_type, payload).len()
        }),
{
    lemma_le_lengths();
    let b = block_bytes(p, block_type, payload);
    let len = payload.len() as u64;
    assert(spec_u64_to_le_bytes(len).len() == 8);
    assert(d.subrange(p + 4, p + 12) =~= b.subrange(4, 12));
    assert(b.subrange(4, 12) =~= spec_u64_to_le_bytes(len));
    assert(block_len_at(d, p) == len);
    let q = p + 12 + payload.len();
    assert forall|k: int| q <= k < q + pad_len(q) implies d[k] == 0 by {
        assert(d[k] == b[k - p]);
    }
    assert(d.subrange(p, p + 4) =~= b.subrange(0, 4));
    assert(d.subrange(p + 12, q) =~= b.subrange(12, 12 + payload.len() as int));
}

} // verus!
