use vstd::prelude::*;
use vstd::utf8::{decode_utf8, encode_utf8, valid_utf8};
use crate::format::bytes::{
    copy_range,
    flag_byte,
    le32,
    lemma_le32_roundtrip,
    push_slice,
    push_u32,
    read_u32_at,
    u32_at,
};
use crate::format::error::{FormatError, IoErrorKind};
use crate::model::blend_mode::{BlendMode, blend_mode_code, blend_mode_of_code};
use crate::model::layer::{
    CHUNK_BYTES,
    Chunk,
    ChunkModel,
    Layer,
    LayerModel,
    LayerProps,
    chunk_has_key,
    chunk_index,
    chunks_wf,
    has_chunk,
    lemma_chunk_index_unique,
};

verus! {

/// The longest layer id, in bytes, a payload may declare.
pub const MAX_ID_BYTES: u32 = 1024;

/// The longest layer name, in bytes, a payload may declare.
pub const MAX_NAME_BYTES: u32 = 2048;

/// The most tiles a layer payload may declare.
pub const MAX_CHUNKS: u32 = 100000;

/// Bytes of one stored tile in a payload: its two coordinates and its pixels.
pub const CHUNK_ENTRY_BYTES: u64 = 16392;

/// Calls `String::from_utf8`, which std documents as giving the string whose
/// UTF-8 bytes are `bytes` when they are valid UTF-8 and an error otherwise.
#[verifier::external_body]
fn string_from_utf8(bytes: Vec<u8>) -> (r: Option<String>)
    ensures
        r is Some <==> valid_utf8(bytes@),
        r matches Some(s) ==> s@ == decode_utf8(bytes@),
{
    String::from_utf8(bytes).ok()
}

/// The bytes of one stored tile: its coordinates, then its pixels.
pub open spec fn chunk_entry_bytes(c: ChunkModel) -> Seq<u8> {
    le32(c.cx) + le32(c.cy) + c.data
}

pub open spec fn chunks_bytes(cs: Seq<ChunkModel>) -> Seq<u8>
    decreases cs.len(),
{
    if cs.len() == 0 {
        Seq::empty()
    } else {
        chunks_bytes(cs.drop_last()) + chunk_entry_bytes(cs.last())
    }
}

/// The layer payload: id and name (each a length and UTF-8 bytes), visibility,
/// lock, opacity and blend mode bytes, size, offsets, then the stored tiles.
pub open spec fn layer_bytes(l: LayerModel) -> Seq<u8> {
    let id = encode_utf8(l.props.id);
    let name = encode_utf8(l.props.name);
    le32(id.len() as u32) + id + le32(name.len() as u32) + name + seq![
        flag_byte(l.props.visible),
        flag_byte(l.props.locked),
        l.props.opacity,
        blend_mode_code(l.props.blend_mode),
    ] + le32(l.props.width) + le32(l.props.height) + le32(l.props.offset_x as u32) + le32(
        l.props.offset_y as u32,
    ) + le32(l.chunks.len() as u32) + chunks_bytes(l.chunks)
}

/// The tile stored at byte `p` of a payload.
pub open spec fn chunk_entry_at(d: Seq<u8>, p: int) -> ChunkModel {
    ChunkModel { cx: u32_at(d, p), cy: u32_at(d, p + 4), data: d.subrange(p + 8, p + 16392) }
}

/// Stores a tile, replacing the stored tile with the same coordinates if any.
pub open spec fn insert_chunk(cs: Seq<ChunkModel>, c: ChunkModel) -> Seq<ChunkModel> {
    if has_chunk(cs, c.cx, c.cy) {
        cs.update(chunk_index(cs, c.cx, c.cy), c)
    } else {
        cs.push(c)
    }
}

/// The tiles the first `n` entries from byte `p` leave stored, a later entry
/// replacing an earlier one with the same coordinates.
pub open spec fn decoded_chunks(d: Seq<u8>, p: int, n: nat) -> Seq<ChunkModel>
    decreases n,
{
    if n == 0 {
        Seq::empty()
    } else {
        insert_chunk(decoded_chunks(d, p, (n - 1) as nat), chunk_entry_at(d, p + (n - 1) * 16392))
    }
}

/// How reading a layer payload ends.
pub enum LayerDecoding {
    Decoded(LayerModel),
    /// The data ends inside a field.
    Truncated,
    /// A length or count is over its limit.
    Invalid,
    /// The id or the name is not valid UTF-8.
    BadUtf8,
    /// The declared tiles need more bytes than remain.
    ChunksTruncated,
}

/// Where the name's length field starts.
pub open spec fn name_len_pos(d: Seq<u8>) -> int {
    4 + u32_at(d, 0)
}

/// Where the visibility flag starts.
pub open spec fn flags_pos(d: Seq<u8>) -> int {
    name_len_pos(d) + 4 + u32_at(d, name_len_pos(d))
}

/// Where the width starts: after the two flags and, from minor version 1 on,
/// the opacity byte and, from minor version 2 on, the blend mode byte.
pub open spec fn size_pos(d: Seq<u8>, minor: u16) -> int {
    flags_pos(d) + 2 + (if minor >= 1 {
        1int
    } else {
        0int
    }) + (if minor >= 2 {
        1int
    } else {
        0int
    })
}

/// Where the first tile entry starts.
pub open spec fn chunks_pos(d: Seq<u8>, minor: u16) -> int {
    size_pos(d, minor) + 20
}

/// The outcome of reading a layer payload written with the given minor version.
pub open spec fn layer_decode(d: Seq<u8>, minor: u16) -> LayerDecoding {
    let id_len = u32_at(d, 0) as int;
    let np = name_len_pos(d);
    let name_len = u32_at(d, np) as int;
    let fp = flags_pos(d);
    let sp = size_pos(d, minor);
    let cp = chunks_pos(d, minor);
    let count = u32_at(d, sp + 16) as int;
    if d.len() < 4 {
        LayerDecoding::Truncated
    } else if id_len > MAX_ID_BYTES {
        LayerDecoding::Invalid
    } else if d.len() < 4 + id_len {
        LayerDecoding::Truncated
    } else if !valid_utf8(d.subrange(4, 4 + id_len)) {
        LayerDecoding::BadUtf8
    } else if d.len() < np + 4 {
        LayerDecoding::Truncated
    } else if name_len > MAX_NAME_BYTES {
        LayerDecoding::Invalid
    } else if d.len() < fp {
        LayerDecoding::Truncated
    } else if !valid_utf8(d.subrange(np + 4, fp)) {
        LayerDecoding::BadUtf8
    } else if d.len() < cp {
        LayerDecoding::Truncated
    } else if count > MAX_CHUNKS {
        LayerDecoding::Invalid
    } else if count * 16392 > d.len() - cp {
        LayerDecoding::ChunksTruncated
    } else {
        LayerDecoding::Decoded(
            LayerModel {
                props: LayerProps {
                    id: decode_utf8(d.subrange(4, 4 + id_len)),
                    name: decode_utf8(d.subrange(np + 4, fp)),
                    visible: d[fp] != 0,
                    locked: d[fp + 1] != 0,
                    opacity: if minor >= 1 {
                        d[fp + 2]
                    } else {
                        255
                    },
                    blend_mode: if minor >= 2 {
                        blend_mode_of_code(d[fp + 3])
                    } else {
                        BlendMode::Normal
                    },
                    width: u32_at(d, sp),
                    height: u32_at(d, sp + 4),
                    offset_x: u32_at(d, sp + 8) as i32,
                    offset_y: u32_at(d, sp + 12) as i32,
                },
                chunks: decoded_chunks(d, cp, count as nat),
            },
        )
    }
}

pub proof fn lemma_chunks_bytes_len(cs: Seq<ChunkModel>)
    requires
        forall|i: int| 0 <= i < cs.len() ==> (#[trigger] cs[i]).data.len() == CHUNK_BYTES,
    ensures
        chunks_bytes(cs).len() == cs.len() * 16392,
    decreases cs.len(),
{
    lemma_le32_roundtrip();
    if cs.len() > 0 {
        let p = cs.drop_last();
        assert forall|i: int| 0 <= i < p.len() implies (#[trigger] p[i]).data.len() == CHUNK_BYTES by {
            assert(p[i] == cs[i]);
        }
        lemma_chunks_bytes_len(p);
        assert(cs.last() == cs[cs.len() - 1]);
    }
}

pub fn serialize_layer(layer: &Layer) -> (out: Vec<u8>)
    ensures
        out@ == layer_bytes(layer@),
{
    let id_bytes = layer.id.as_str().as_bytes();
    let name_bytes = layer.name.as_str().as_bytes();
    let mut buf: Vec<u8> = Vec::new();
    push_u32(&mut buf, id_bytes.len() as u32);
    push_slice(&mut buf, id_bytes);
    push_u32(&mut buf, name_bytes.len() as u32);
    push_slice(&mut buf, name_bytes);
    buf.push(if layer.visible { 1 } else { 0 });
    buf.push(if layer.locked { 1 } else { 0 });
    buf.push(layer.opacity);
    buf.push(layer.blend_mode.to_u8());
    push_u32(&mut buf, layer.width);
    push_u32(&mut buf, layer.height);
    push_u32(&mut buf, layer.offset_x as u32);
    push_u32(&mut buf, layer.offset_y as u32);
    push_u32(&mut buf, layer.chunks.len() as u32);
    let ghost start = buf@;
    let ghost cs = layer@.chunks;
    let n = layer.chunks.len();
    for i in 0..n
        invariant
            n == layer.chunks@.len(),
            cs == layer@.chunks,
            buf@ == start + chunks_bytes(cs.take(i as int)),
    {
        let c = &layer.chunks[i];
        push_u32(&mut buf, c.cx);
        push_u32(&mut buf, c.cy);
        push_slice(&mut buf, c.data.as_slice());
        assert(cs[i as int] == c@);
        assert(cs.take(i + 1).drop_last() =~= cs.take(i as int));
        assert(buf@ =~= start + chunks_bytes(cs.take(i + 1)));
    }
    assert(cs.take(n as int) =~= cs);
    assert(buf@ =~= layer_bytes(layer@));
    buf
}

/// Stores `c` in `layer`, replacing the tile with the same coordinates if any.
fn store_chunk(layer: &mut Layer, c: Chunk)
    requires
        old(layer)@.wf(),
        c.data@.len() == CHUNK_BYTES,
    ensures
        final(layer)@.wf(),
        final(layer)@.props == old(layer)@.props,
        final(layer)@.chunks == insert_chunk(old(layer)@.chunks, c@),
{
    let ghost before = layer@.chunks;
    match layer.find_chunk(c.cx, c.cy) {
        Some(j) => {
            proof {
                lemma_chunk_index_unique(before, j as int);
            }
            layer.chunks.set(j, c);
            assert(layer@.chunks =~= before.update(j as int, c@));
            assert(has_chunk(before, c.cx, c.cy));
            assert forall|a: int, b: int|
                0 <= a < layer@.chunks.len() && 0 <= b < layer@.chunks.len() && a != b implies !chunk_has_key(
                #[trigger] layer@.chunks[a],
                #[trigger] layer@.chunks[b].cx,
                layer@.chunks[b].cy,
            ) by {
                assert(!chunk_has_key(before[a], before[b].cx, before[b].cy));
            }
        },
        None => {
            let ghost cm = c@;
            layer.chunks.push(c);
            assert(layer@.chunks =~= before.push(cm));
            assert forall|a: int, b: int|
                0 <= a < layer@.chunks.len() && 0 <= b < layer@.chunks.len() && a != b implies !chunk_has_key(
                #[trigger] layer@.chunks[a],
                #[trigger] layer@.chunks[b].cx,
                layer@.chunks[b].cy,
            ) by {
                if a == before.len() {
                    assert(!chunk_has_key(before[b], cm.cx, cm.cy));
                } else if b == before.len() {
                    assert(!chunk_has_key(before[a], cm.cx, cm.cy));
                } else {
                    assert(!chunk_has_key(before[a], before[b].cx, before[b].cy));
                }
            }
        },
    }
}

/// Reads `n` bytes at `pos` and moves past them; fails where fewer remain.
fn take_bytes(data: &[u8], pos: &mut usize, n: usize) -> (r: Result<Vec<u8>, FormatError>)
    requires
        *old(pos) <= data@.len(),
    ensures
        *final(pos) <= data@.len(),
        *old(pos) + n <= data@.len() ==> (r matches Ok(v) && v@ == data@.subrange(
            *old(pos) as int,
            *old(pos) + n,
        )) && *final(pos) == *old(pos) + n,
        *old(pos) + n > data@.len() ==> r matches Err(FormatError::Io(IoErrorKind::UnexpectedEof)),
{
    if n > data.len() - *pos {
        return Err(FormatError::Io(IoErrorKind::UnexpectedEof));
    }
    let v = copy_range(data, *pos, n);
    *pos = *pos + n;
    Ok(v)
}

/// Reads the little-endian `u32` at `pos` and moves past it.
fn take_u32(data: &[u8], pos: &mut usize) -> (r: Result<u32, FormatError>)
    requires
        *old(pos) <= data@.len(),
    ensures
        *final(pos) <= data@.len(),
        *old(pos) + 4 <= data@.len() ==> r == Ok::<u32, FormatError>(u32_at(data@, *old(pos) as int))
            && *final(pos) == *old(pos) + 4,
        *old(pos) + 4 > data@.len() ==> r matches Err(FormatError::Io(IoErrorKind::UnexpectedEof)),
{
    if 4 > data.len() - *pos {
        return Err(FormatError::Io(IoErrorKind::UnexpectedEof));
    }
    let x = read_u32_at(data, *pos);
    *pos = *pos + 4;
    Ok(x)
}

/// Reads a layer payload written with the given minor file version: before
/// version 1 it has no opacity byte (the layer is opaque), before version 2 no
/// blend mode byte (the layer blends normally).
pub fn deserialize_layer(data: &[u8], minor_version: u16) -> (r: Result<Layer, FormatError>)
    ensures
        r matches Ok(l) ==> l@.wf(),
        match layer_decode(data@, minor_version) {
            LayerDecoding::Decoded(m) => r matches Ok(l) && l@ == m,
            LayerDecoding::Truncated => r matches Err(FormatError::Io(IoErrorKind::UnexpectedEof)),
            LayerDecoding::Invalid => r matches Err(FormatError::InvalidData(_)),
            LayerDecoding::BadUtf8 => r matches Err(FormatError::InvalidUtf8(_)),
            LayerDecoding::ChunksTruncated => r matches Err(FormatError::UnexpectedEof(_)),
        },
{
    let ghost d = data@;
    let mut pos: usize = 0;
    let id_len = take_u32(data, &mut pos)?;
    if id_len > MAX_ID_BYTES {
        return Err(FormatError::InvalidData("layer id too long".to_owned()));
    }
    let id_buf = take_bytes(data, &mut pos, id_len as usize)?;
    let id = match string_from_utf8(id_buf) {
        Some(s) => s,
        None => {
            return Err(FormatError::InvalidUtf8("ID".to_owned()));
        },
    };
    assert(pos == name_len_pos(d));
    let name_len = take_u32(data, &mut pos)?;
    if name_len > MAX_NAME_BYTES {
        return Err(FormatError::InvalidData("layer name too long".to_owned()));
    }
    let name_buf = take_bytes(data, &mut pos, name_len as usize)?;
    let name = match string_from_utf8(name_buf) {
        Some(s) => s,
        None => {
            return Err(FormatError::InvalidUtf8("Name".to_owned()));
        },
    };
    let ghost fp = pos as int;
    assert(fp == flags_pos(d));
    let flags = take_bytes(data, &mut pos, 2)?;
    let opacity = if minor_version >= 1 {
        let op_buf = take_bytes(data, &mut pos, 1)?;
        op_buf[0]
    } else {
        255
    };
    let blend_mode = if minor_version >= 2 {
        let bm_buf = take_bytes(data, &mut pos, 1)?;
        BlendMode::from_u8(bm_buf[0])
    } else {
        BlendMode::Normal
    };
    let ghost sp = pos as int;
    assert(sp == size_pos(d, minor_version));
    let width = take_u32(data, &mut pos)?;
    let height = take_u32(data, &mut pos)?;
    let offsets = take_bytes(data, &mut pos, 8)?;
    let offset_x = read_u32_at(offsets.as_slice(), 0) as i32;
    let offset_y = read_u32_at(offsets.as_slice(), 4) as i32;
    proof {
        assert(offsets@.subrange(0, 4) =~= d.subrange(sp + 8, sp + 12));
        assert(offsets@.subrange(4, 8) =~= d.subrange(sp + 12, sp + 16));
    }
    let mut layer = Layer::new(id, name, width, height);
    layer.visible = flags[0] != 0;
    layer.locked = flags[1] != 0;
    layer.opacity = opacity;
    layer.blend_mode = blend_mode;
    layer.offset_x = offset_x;
    layer.offset_y = offset_y;
    let chunk_count = take_u32(data, &mut pos)?;
    let ghost cp = pos as int;
    assert(cp == chunks_pos(d, minor_version));
    if chunk_count > MAX_CHUNKS {
        return Err(FormatError::InvalidData("too many chunks".to_owned()));
    }
    let total_required_bytes = chunk_count as u64 * CHUNK_ENTRY_BYTES;
    let remaining_bytes = (data.len() - pos) as u64;
    if total_required_bytes > remaining_bytes {
        return Err(FormatError::UnexpectedEof("layer chunks incomplete".to_owned()));
    }
    assert(layer@.chunks =~= decoded_chunks(d, cp, 0));
    let ghost props = layer@.props;
    for i in 0..chunk_count
        invariant
            d == data@,
            cp == chunks_pos(d, minor_version),
            chunk_count <= MAX_CHUNKS,
            cp + chunk_count * 16392 <= d.len(),
            pos == cp + i * 16392,
            layer@.wf(),
            layer@.chunks == decoded_chunks(d, cp, i as nat),
            layer@.props == props,
    {
        proof {
            assert(pos + 16392 <= d.len()) by (nonlinear_arith)
                requires
                    pos == cp + i * 16392,
                    i < chunk_count,
                    cp + chunk_count * 16392 <= d.len(),
            ;
        }
        let ghost p = pos as int;
        let cx = take_u32(data, &mut pos)?;
        let cy = take_u32(data, &mut pos)?;
        let chunk_data = take_bytes(data, &mut pos, CHUNK_BYTES)?;
        let c = Chunk { cx, cy, data: chunk_data };
        assert(c@ == chunk_entry_at(d, p));
        store_chunk(&mut layer, c);
    }
    Ok(layer)
}

proof fn lemma_chunks_bytes_index(cs: Seq<ChunkModel>, i: int)
    requires
        forall|k: int| 0 <= k < cs.len() ==> (#[trigger] cs[k]).data.len() == CHUNK_BYTES,
        0 <= i < cs.len(),
    ensures
        chunks_bytes(cs).subrange(i * 16392, i * 16392 + 16392) == chunk_entry_bytes(cs[i]),
    decreases cs.len(),
{
    lemma_le32_roundtrip();
    let p = cs.drop_last();
    assert forall|k: int| 0 <= k < p.len() implies (#[trigger] p[k]).data.len() == CHUNK_BYTES by {
        assert(p[k] == cs[k]);
    }
    lemma_chunks_bytes_len(p);
    let whole = chunks_bytes(cs);
    if i == cs.len() - 1 {
        assert(whole.subrange(i * 16392, i * 16392 + 16392) =~= chunk_entry_bytes(cs.last()));
    } else {
        lemma_chunks_bytes_index(p, i);
        assert(i * 16392 + 16392 <= p.len() * 16392) by (nonlinear_arith)
            requires
                i < p.len(),
        ;
        assert(whole.subrange(i * 16392, i * 16392 + 16392) =~= chunks_bytes(p).subrange(
            i * 16392,
            i * 16392 + 16392,
        ));
        assert(p[i] == cs[i]);
    }
}

proof fn lemma_chunk_entry_decode(c: ChunkModel, d: Seq<u8>, p: int)
    requires
        c.data.len() == CHUNK_BYTES,
        0 <= p,
        p + 16392 <= d.len(),
        d.subrange(p, p + 16392) == chunk_entry_bytes(c),
    ensures
        chunk_entry_at(d, p) == c,
{
    lemma_le32_roundtrip();
    let e = chunk_entry_bytes(c);
    assert(d.subrange(p, p + 4) =~= e.subrange(0, 4));
    assert(e.subrange(0, 4) =~= le32(c.cx));
    assert(d.subrange(p + 4, p + 8) =~= e.subrange(4, 8));
    assert(e.subrange(4, 8) =~= le32(c.cy));
    assert(le32(c.cx).len() == 4 && le32(c.cy).len() == 4);
    assert(d.subrange(p + 8, p + 16392) =~= e.subrange(8, 16392));
    assert(e.subrange(8, 16392) =~= c.data);
}

proof fn lemma_decoded_prefix(d: Seq<u8>, cp: int, cs: Seq<ChunkModel>, k: nat)
    requires
        chunks_wf(cs),
        k <= cs.len(),
        forall|i: int| 0 <= i < cs.len() ==> chunk_entry_at(d, cp + i * 16392) == #[trigger] cs[i],
    ensures
        decoded_chunks(d, cp, k) == cs.take(k as int),
    decreases k,
{
    if k == 0 {
        assert(cs.take(0) =~= Seq::<ChunkModel>::empty());
    } else {
        let k1 = (k - 1) as nat;
        lemma_decoded_prefix(d, cp, cs, k1);
        let prev = cs.take(k1 as int);
        let c = cs[k1 as int];
        assert(chunk_entry_at(d, cp + k1 * 16392) == c);
        if has_chunk(prev, c.cx, c.cy) {
            let j = chunk_index(prev, c.cx, c.cy);
            assert(chunk_has_key(cs[j], cs[k1 as int].cx, cs[k1 as int].cy));
        }
        assert(prev.push(c) =~= cs.take(k as int));
    }
}

/// Reading back a written layer payload gives the layer that was written, for
/// well-formed layers whose id, name and tile count are within the limits.
pub proof fn law_layer_roundtrip(l: LayerModel)
    requires
        l.wf(),
        encode_utf8(l.props.id).len() <= MAX_ID_BYTES,
        encode_utf8(l.props.name).len() <= MAX_NAME_BYTES,
        l.chunks.len() <= MAX_CHUNKS,
    ensures
        layer_decode(layer_bytes(l), 2) == LayerDecoding::Decoded(l),
{
    broadcast use vstd::utf8::encode_utf8_valid_utf8, vstd::utf8::encode_utf8_decode_utf8;

    lemma_le32_roundtrip();
    let cs = l.chunks;
    lemma_chunks_bytes_len(cs);
    let d = layer_bytes(l);
    let id = encode_utf8(l.props.id);
    let name = encode_utf8(l.props.name);
    let il = id.len() as int;
    let nl = name.len() as int;
    assert(d.subrange(0, 4) =~= le32(id.len() as u32));
    assert(u32_at(d, 0) == il);
    assert(d.subrange(4, 4 + il) =~= id);
    let np = 4 + il;
    assert(name_len_pos(d) == np);
    assert(d.subrange(np, np + 4) =~= le32(name.len() as u32));
    let fp = np + 4 + nl;
    assert(flags_pos(d) == fp);
    assert(d.subrange(np + 4, fp) =~= name);
    let sp = fp + 4;
    assert(size_pos(d, 2) == sp);
    assert(d.subrange(sp, sp + 4) =~= le32(l.props.width));
    assert(d.subrange(sp + 4, sp + 8) =~= le32(l.props.height));
    assert(d.subrange(sp + 8, sp + 12) =~= le32(l.props.offset_x as u32));
    assert(d.subrange(sp + 12, sp + 16) =~= le32(l.props.offset_y as u32));
    assert(d.subrange(sp + 16, sp + 20) =~= le32(cs.len() as u32));
    let cp = sp + 20;
    assert(chunks_pos(d, 2) == cp);
    assert(d.len() == cp + cs.len() * 16392);
    let ox = l.props.offset_x;
    let oy = l.props.offset_y;
    assert((ox as u32) as i32 == ox) by (bit_vector);
    assert((oy as u32) as i32 == oy) by (bit_vector);
    assert(d[fp] == flag_byte(l.props.visible));
    assert(d[fp + 1] == flag_byte(l.props.locked));
    assert(d[fp + 2] == l.props.opacity);
    assert(d[fp + 3] == blend_mode_code(l.props.blend_mode));
    assert(blend_mode_of_code(blend_mode_code(l.props.blend_mode)) == l.props.blend_mode);
    assert forall|i: int| 0 <= i < cs.len() implies chunk_entry_at(d, cp + i * 16392)
        == #[trigger] cs[i] by {
        lemma_chunks_bytes_index(cs, i);
        assert(i * 16392 + 16392 <= cs.len() * 16392) by (nonlinear_arith)
            requires
                i < cs.len(),
        ;
        assert(d.subrange(cp + i * 16392, cp + i * 16392 + 16392) =~= chunks_bytes(cs).subrange(
            i * 16392,
            i * 16392 + 16392,
        ));
        lemma_chunk_entry_decode(cs[i], d, cp + i * 16392);
    }
    lemma_decoded_prefix(d, cp, cs, cs.len());
    assert(cs.take(cs.len() as int) =~= cs);
    let m = match layer_decode(d, 2) {
        LayerDecoding::Decoded(m) => m,
        _ => l,
    };
    assert(layer_decode(d, 2) is Decoded);
    assert(m.props =~= l.props);
    assert(m =~= l);
}

} // verus!
