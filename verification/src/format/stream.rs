use vstd::prelude::*;
use vstd::bytes::{spec_u32_to_le_bytes, u32_to_le_bytes};
use crate::format::error::{FormatError, IoErrorKind};

verus! {

/// The CRC-32 (IEEE) checksum of a byte sequence.
pub uninterp spec fn crc32_checksum(data: Seq<u8>) -> u32;

/// Calls `crc32fast::hash`, which returns the CRC-32 checksum of the bytes; the
/// contract only names that result and says nothing of how it is computed.
#[verifier::external_body]
fn crc32(data: &[u8]) -> (r: u32)
    ensures
        r == crc32_checksum(data@),
{
    crc32fast::hash(data)
}

/// The twelve bytes that close every PXAD file: `PXA_EOF_2026` in ASCII.
pub open spec fn eof_marker() -> Seq<u8> {
    seq![0x50u8, 0x58, 0x41, 0x5F, 0x45, 0x4F, 0x46, 0x5F, 0x32, 0x30, 0x32, 0x36]
}

fn eof_marker_bytes() -> (v: Vec<u8>)
    ensures
        v@ == eof_marker(),
{
    let v = vec![0x50u8, 0x58, 0x41, 0x5F, 0x45, 0x4F, 0x46, 0x5F, 0x32, 0x30, 0x32, 0x36];
    assert(v@ =~= eof_marker());
    v
}

/// A complete file body: the bytes written, their checksum in little-endian
/// order, and the closing marker.
pub open spec fn framed(payload: Seq<u8>) -> Seq<u8> {
    payload + spec_u32_to_le_bytes(crc32_checksum(payload)) + eof_marker()
}

/// The footer at `pos` holds the checksum of everything before it and the marker.
pub open spec fn footer_valid(data: Seq<u8>, pos: int) -> bool {
    &&& 0 <= pos
    &&& pos + 16 <= data.len()
    &&& data.subrange(pos, pos + 4) == spec_u32_to_le_bytes(crc32_checksum(data.take(pos)))
    &&& data.subrange(pos + 4, pos + 16) == eof_marker()
}

/// Collects the bytes written to a PXAD file, counting them so blocks can be
/// aligned, and closes the file with a checksum footer.
pub struct PxadWriter {
    pub buffer: Vec<u8>,
    pub bytes_written: u64,
}

impl PxadWriter {
    pub open spec fn wf(&self) -> bool {
        self.bytes_written == self.buffer@.len()
    }

    pub fn new() -> (w: PxadWriter)
        ensures
            w.wf(),
            w.buffer@.len() == 0,
    {
        PxadWriter { buffer: Vec::new(), bytes_written: 0 }
    }

    pub fn bytes_written(&self) -> (n: u64)
        ensures
            n == self.bytes_written,
    {
        self.bytes_written
    }

    /// Appends `data`.
    pub fn write_all(&mut self, data: &[u8])
        requires
            old(self).wf(),
            old(self).buffer@.len() + data@.len() <= u64::MAX,
        ensures
            final(self).wf(),
            final(self).buffer@ == old(self).buffer@ + data@,
    {
        let n = data.len();
        let ghost start = self.buffer@;
        for i in 0..n
            invariant
                n == data@.len(),
                self.buffer@ == start + data@.take(i as int),
                self.bytes_written == start.len(),
                start.len() + n <= u64::MAX,
        {
            self.buffer.push(data[i]);
            assert(data@.take(i + 1) =~= data@.take(i as int).push(data@[i as int]));
        }
        assert(data@.take(n as int) =~= data@);
        self.bytes_written = self.bytes_written + n as u64;
    }

    /// Appends zero bytes up to the next multiple of eight written bytes and
    /// returns how many were appended.
    pub fn write_padding(&mut self) -> (r: Result<u64, FormatError>)
        requires
            old(self).wf(),
            old(self).buffer@.len() + 8 <= u64::MAX,
        ensures
            final(self).wf(),
            r matches Ok(pad) && pad == (if old(self).bytes_written % 8 == 0 {
                0
            } else {
                8 - old(self).bytes_written % 8
            }) && final(self).buffer@ == old(self).buffer@ + Seq::new(pad as nat, |i: int| 0u8),
            final(self).bytes_written % 8 == 0,
    {
        let rem = self.bytes_written % 8;
        if rem != 0 {
            let pad_len = 8 - rem;
            let padding = vec![0u8; pad_len as usize];
            self.write_all(padding.as_slice());
            assert(padding@ =~= Seq::new(pad_len as nat, |i: int| 0u8));
            Ok(pad_len)
        } else {
            assert(old(self).buffer@ + Seq::new(0, |i: int| 0u8) =~= old(self).buffer@);
            Ok(0)
        }
    }

    /// The finished file: every byte written, then the checksum footer.
    pub fn finish(self) -> (out: Vec<u8>)
        requires
            self.wf(),
        ensures
            out@ == framed(self.buffer@),
    {
        let crc = crc32(self.buffer.as_slice());
        let mut out = self.buffer;
        let crc_bytes = u32_to_le_bytes(crc);
        let marker = eof_marker_bytes();
        let ghost body = out@;
        append(&mut out, &crc_bytes);
        append(&mut out, &marker);
        assert(out@ =~= framed(body));
        out
    }
}

/// Appends all of `src` to `dst`.
pub fn append(dst: &mut Vec<u8>, src: &Vec<u8>)
    ensures
        final(dst)@ == old(dst)@ + src@,
{
    let n = src.len();
    for i in 0..n
        invariant
            n == src@.len(),
            dst@ == old(dst)@ + src@.take(i as int),
    {
        dst.push(src[i]);
        assert(src@.take(i + 1) =~= src@.take(i as int).push(src@[i as int]));
    }
    assert(src@.take(n as int) =~= src@);
}

/// Reads a PXAD file front to back, counting the bytes consumed so blocks can be
/// aligned, and checks the footer against the checksum of what was read.
pub struct PxadReader {
    pub data: Vec<u8>,
    pub pos: usize,
}

impl PxadReader {
    pub open spec fn wf(&self) -> bool {
        self.pos <= self.data@.len()
    }

    pub fn new(data: Vec<u8>) -> (r: PxadReader)
        ensures
            r.wf(),
            r.data@ == data@,
            r.pos == 0,
    {
        PxadReader { data, pos: 0 }
    }

    pub fn bytes_read(&self) -> (n: u64)
        ensures
            n == self.pos,
    {
        self.pos as u64
    }

    /// The next `n` bytes; fails and moves to the end where fewer remain.
    pub fn read_exact(&mut self, n: usize) -> (r: Result<Vec<u8>, FormatError>)
        requires
            old(self).wf(),
        ensures
            final(self).wf(),
            final(self).data@ == old(self).data@,
            old(self).pos + n <= old(self).data@.len() ==> (r matches Ok(v) && v@
                == old(self).data@.subrange(old(self).pos as int, old(self).pos + n))
                && final(self).pos == old(self).pos + n,
            old(self).pos + n > old(self).data@.len() ==> (r matches Err(
                FormatError::Io(IoErrorKind::UnexpectedEof),
            )) && final(self).pos == old(self).data@.len(),
    {
        let len = self.data.len();
        if n > len - self.pos {
            self.pos = len;
            return Err(FormatError::Io(IoErrorKind::UnexpectedEof));
        }
        let mut v: Vec<u8> = Vec::new();
        let start = self.pos;
        for i in 0..n
            invariant
                start == self.pos,
                start + n <= self.data@.len(),
                len == self.data@.len(),
                v@ == self.data@.subrange(start as int, start + i),
        {
            v.push(self.data[start + i]);
            assert(self.data@.subrange(start as int, start + i + 1) =~= self.data@.subrange(
                start as int,
                start + i,
            ).push(self.data@[start + i]));
        }
        self.pos = start + n;
        Ok(v)
    }

    /// Skips the zero bytes that align the read position to a multiple of eight,
    /// failing where they run past the end or are not all zero.
    pub fn skip_padding(&mut self) -> (r: Result<u64, FormatError>)
        requires
            old(self).wf(),
        ensures
            final(self).wf(),
            final(self).data@ == old(self).data@,
            ({
                let p = old(self).pos as int;
                let pad = if p % 8 == 0 {
                    0
                } else {
                    8 - p % 8
                };
                let d = old(self).data@;
                if p + pad > d.len() {
                    r matches Err(FormatError::Io(IoErrorKind::UnexpectedEof))
                } else if exists|k: int| p <= k < p + pad && d[k] != 0 {
                    r matches Err(FormatError::InvalidData(_))
                } else {
                    (r matches Ok(n) && n == pad) && final(self).pos == p + pad
                }
            }),
    {
        let rem = self.pos % 8;
        if rem == 0 {
            return Ok(0);
        }
        let pad_len = 8 - rem;
        let ghost p = self.pos as int;
        let dump = self.read_exact(pad_len)?;
        let n = dump.len();
        let ghost d = self.data@;
        for i in 0..n
            invariant
                n == dump@.len(),
                n == pad_len,
                self.wf(),
                self.data@ == d,
                d == old(self).data@,
                p == old(self).pos,
                p + pad_len <= d.len(),
                p % 8 != 0,
                pad_len == 8 - p % 8,
                dump@ == d.subrange(p, p + pad_len),
                forall|k: int| 0 <= k < i ==> dump@[k] == 0,
        {
            if dump[i] != 0 {
                assert(d[p + i] != 0);
                assert(exists|k: int| p <= k < p + pad_len && old(self).data@[k] != 0);
                return Err(FormatError::InvalidData("Invalid padding: non-zero bytes found".to_owned()));
            }
        }
        assert forall|k: int| p <= k < p + pad_len implies self.data@[k] == 0 by {
            assert(dump@[k - p] == 0);
        }
        Ok(pad_len as u64)
    }

    /// Checks that the next bytes are the checksum of everything read so far,
    /// followed by the closing marker.
    pub fn verify_footer(self) -> (r: Result<(), FormatError>)
        requires
            self.wf(),
        ensures
            r is Ok <==> footer_valid(self.data@, self.pos as int),
            ({
                let d = self.data@;
                let p = self.pos as int;
                if p + 4 > d.len() {
                    r matches Err(FormatError::Io(IoErrorKind::UnexpectedEof))
                } else if d.subrange(p, p + 4) != spec_u32_to_le_bytes(crc32_checksum(d.take(p))) {
                    r matches Err(FormatError::InvalidData(_))
                } else if p + 16 > d.len() {
                    r matches Err(FormatError::Io(IoErrorKind::UnexpectedEof))
                } else if d.subrange(p + 4, p + 16) != eof_marker() {
                    r matches Err(FormatError::InvalidData(_))
                } else {
                    r is Ok
                }
            }),
    {
        let mut me = self;
        let computed = crc32(&me.data.as_slice()[0..me.pos]);
        let ghost d = me.data@;
        let ghost p = me.pos as int;
        assert(me.data@.subrange(0, p) =~= d.take(p));
        let crc_buf = me.read_exact(4)?;
        let file_crc = vstd::bytes::u32_from_le_bytes(crc_buf.as_slice());
        proof {
            vstd::bytes::lemma_auto_spec_u32_to_from_le_bytes();
        }
        proof {
            if computed == file_crc {
                assert(crc_buf@ =~= d.subrange(p, p + 4));
                assert(spec_u32_to_le_bytes(vstd::bytes::spec_u32_from_le_bytes(crc_buf@)) == crc_buf@);
            }
        }
        if computed != file_crc {
            proof {
                assert(crc_buf@ =~= d.subrange(p, p + 4));
                if d.subrange(p, p + 4) == spec_u32_to_le_bytes(computed) {
                    assert(spec_u32_to_le_bytes(computed).len() == 4);
                    assert(vstd::bytes::spec_u32_from_le_bytes(spec_u32_to_le_bytes(computed)) == computed);
                }
                if footer_valid(d, p) {
                    assert(crc_buf@ =~= d.subrange(p, p + 4));
                    assert(spec_u32_to_le_bytes(computed).len() == 4);
                    assert(vstd::bytes::spec_u32_from_le_bytes(spec_u32_to_le_bytes(computed)) == computed);
                }
            }
            return Err(FormatError::InvalidData("CRC mismatch".to_owned()));
        }
        let eof_buf = me.read_exact(12)?;
        let marker = eof_marker_bytes();
        let mut same = true;
        for i in 0..12
            invariant
                eof_buf@.len() == 12,
                marker@ == eof_marker(),
                same == (forall|k: int| 0 <= k < i ==> eof_buf@[k] == marker@[k]),
        {
            if eof_buf[i] != marker[i] {
                same = false;
            }
        }
        if !same {
            assert(eof_buf@ != eof_marker());
            return Err(FormatError::InvalidData("Invalid EOF marker".to_owned()));
        }
        assert(eof_buf@ =~= eof_marker());
        Ok(())
    }
}

/// A file produced by the writer passes the footer check once every written
/// byte has been read back.
pub proof fn law_footer_roundtrip(payload: Seq<u8>)
    ensures
        footer_valid(framed(payload), payload.len() as int),
{
    vstd::bytes::lemma_auto_spec_u32_to_from_le_bytes();
    let d = framed(payload);
    let n = payload.len() as int;
    assert(d.take(n) =~= payload);
    assert(d.subrange(n, n + 4) =~= spec_u32_to_le_bytes(crc32_checksum(payload)));
    assert(d.subrange(n + 4, n + 16) =~= eof_marker());
}

} // verus!
