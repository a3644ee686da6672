use vstd::prelude::*;
use crate::format::bytes::{
    flag_byte,
    le32,
    le64,
    lemma_le32_roundtrip,
    lemma_le64_roundtrip,
    push_u32,
    push_u64,
    read_u32_at,
    read_u64_at,
    u32_at,
    u64_at,
};
use crate::format::error::FormatError;
use crate::model::color::{Color, color_bytes};
use crate::model::palette::Palette;
use crate::model::selection::{SelectionData, SelectionModel};
use crate::model::store::PixelStore;
use crate::model::symmetry::{SymmetryConfig, SymmetryMode};

verus! {

// ---------------------------------------------------------------- symmetry
/// The byte that stands for a symmetry mode on disk.
pub open spec fn sym_mode_code(m: SymmetryMode) -> u8 {
    match m {
        SymmetryMode::Off => 0,
        SymmetryMode::Horizontal => 1,
        SymmetryMode::Vertical => 2,
        SymmetryMode::Quad => 3,
        SymmetryMode::Translational => 4,
    }
}

/// The symmetry mode a byte stands for; unknown bytes mean no symmetry.
pub open spec fn sym_mode_of_code(v: u8) -> SymmetryMode {
    if v == 1 {
        SymmetryMode::Horizontal
    } else if v == 2 {
        SymmetryMode::Vertical
    } else if v == 3 {
        SymmetryMode::Quad
    } else if v == 4 {
        SymmetryMode::Translational
    } else {
        SymmetryMode::Off
    }
}

pub fn sym_mode_to_u8(mode: SymmetryMode) -> (v: u8)
    ensures
        v == sym_mode_code(mode),
{
    match mode {
        SymmetryMode::Off => 0,
        SymmetryMode::Horizontal => 1,
        SymmetryMode::Vertical => 2,
        SymmetryMode::Quad => 3,
        SymmetryMode::Translational => 4,
    }
}

pub fn u8_to_sym_mode(val: u8) -> (m: SymmetryMode)
    ensures
        m == sym_mode_of_code(val),
{
    match val {
        1 => SymmetryMode::Horizontal,
        2 => SymmetryMode::Vertical,
        3 => SymmetryMode::Quad,
        4 => SymmetryMode::Translational,
        _ => SymmetryMode::Off,
    }
}

/// The 18-byte symmetry payload: mode, both axes, both translations, guide flag.
pub open spec fn symmetry_bytes(s: SymmetryConfig) -> Seq<u8> {
    seq![sym_mode_code(s.mode)] + le32(s.axis_x) + le32(s.axis_y) + le32(s.translation_dx as u32)
        + le32(s.translation_dy as u32) + seq![flag_byte(s.visible_guides)]
}

/// The symmetry settings an 18-byte (or longer) payload holds.
pub open spec fn symmetry_of_bytes(d: Seq<u8>) -> SymmetryConfig {
    SymmetryConfig {
        mode: sym_mode_of_code(d[0]),
        axis_x: u32_at(d, 1),
        axis_y: u32_at(d, 5),
        translation_dx: u32_at(d, 9) as i32,
        translation_dy: u32_at(d, 13) as i32,
        visible_guides: d[17] != 0,
    }
}

pub fn serialize_symmetry(sym: &SymmetryConfig) -> (out: Vec<u8>)
    ensures
        out@ == symmetry_bytes(*sym),
{
    let mut buf: Vec<u8> = Vec::new();
    buf.push(sym_mode_to_u8(sym.mode));
    push_u32(&mut buf, sym.axis_x);
    push_u32(&mut buf, sym.axis_y);
    push_u32(&mut buf, sym.translation_dx as u32);
    push_u32(&mut buf, sym.translation_dy as u32);
    buf.push(if sym.visible_guides { 1 } else { 0 });
    assert(buf@ =~= symmetry_bytes(*sym));
    buf
}

pub fn deserialize_symmetry(data: &[u8]) -> (r: Result<SymmetryConfig, FormatError>)
    ensures
        data@.len() < 18 ==> r matches Err(FormatError::UnexpectedEof(_)),
        data@.len() >= 18 ==> r == Ok::<SymmetryConfig, FormatError>(symmetry_of_bytes(data@)),
{
    if data.len() < 18 {
        return Err(FormatError::UnexpectedEof("SYMM payload too short".to_owned()));
    }
    Ok(
        SymmetryConfig {
            mode: u8_to_sym_mode(data[0]),
            axis_x: read_u32_at(data, 1),
            axis_y: read_u32_at(data, 5),
            translation_dx: read_u32_at(data, 9) as i32,
            translation_dy: read_u32_at(data, 13) as i32,
            visible_guides: data[17] != 0,
        },
    )
}

/// Reading back a written symmetry payload gives the settings that were written.
pub proof fn law_symmetry_roundtrip(s: SymmetryConfig)
    ensures
        symmetry_bytes(s).len() == 18,
        symmetry_of_bytes(symmetry_bytes(s)) == s,
{
    lemma_le32_roundtrip();
    let d = symmetry_bytes(s);
    assert(d.subrange(1, 5) =~= le32(s.axis_x));
    assert(d.subrange(5, 9) =~= le32(s.axis_y));
    assert(d.subrange(9, 13) =~= le32(s.translation_dx as u32));
    assert(d.subrange(13, 17) =~= le32(s.translation_dy as u32));
    let dx = s.translation_dx;
    let dy = s.translation_dy;
    assert((dx as u32) as i32 == dx) by (bit_vector);
    assert((dy as u32) as i32 == dy) by (bit_vector);
}

// ---------------------------------------------------------------- canvas
/// The 32-byte canvas payload: canvas size, primary colour, brush size, and the
/// bit patterns of the view's horizontal and vertical pan (`f32`) and zoom (`f64`).
pub open spec fn canvas_bytes(
    width: u32,
    height: u32,
    color: Color,
    brush_size: u32,
    pan_x: u32,
    pan_y: u32,
    zoom: u64,
) -> Seq<u8> {
    le32(width) + le32(height) + color_bytes(color) + le32(brush_size) + le32(pan_x) + le32(pan_y)
        + le64(zoom)
}

pub fn serialize_canvas(store: &PixelStore, pan_x: u32, pan_y: u32, zoom_level: u64) -> (out: Vec<
    u8,
>)
    ensures
        out@ == canvas_bytes(
            store.canvas_width,
            store.canvas_height,
            store.primary_color,
            store.brush_size,
            pan_x,
            pan_y,
            zoom_level,
        ),
{
    let mut buf: Vec<u8> = Vec::new();
    push_u32(&mut buf, store.canvas_width);
    push_u32(&mut buf, store.canvas_height);
    buf.push(store.primary_color.r);
    buf.push(store.primary_color.g);
    buf.push(store.primary_color.b);
    buf.push(store.primary_color.a);
    push_u32(&mut buf, store.brush_size);
    push_u32(&mut buf, pan_x);
    push_u32(&mut buf, pan_y);
    push_u64(&mut buf, zoom_level);
    assert(buf@ =~= canvas_bytes(
        store.canvas_width,
        store.canvas_height,
        store.primary_color,
        store.brush_size,
        pan_x,
        pan_y,
        zoom_level,
    ));
    buf
}

/// Restores the canvas size, primary colour and brush size into `store` and
/// returns the bit patterns of the pan and zoom; fails on fewer than 32 bytes,
/// leaving the store unchanged.
pub fn deserialize_canvas(data: &[u8], store: &mut PixelStore) -> (r: Result<
    (u32, u32, u64),
    FormatError,
>)
    ensures
        data@.len() < 32 ==> (r matches Err(FormatError::UnexpectedEof(_))) && *final(store)
            == *old(store),
        data@.len() >= 32 ==> {
            let d = data@;
            &&& r == Ok::<(u32, u32, u64), FormatError>((u32_at(d, 16), u32_at(d, 20), u64_at(d, 24)))
            &&& *final(store) == (PixelStore {
                canvas_width: u32_at(d, 0),
                canvas_height: u32_at(d, 4),
                primary_color: Color { r: d[8], g: d[9], b: d[10], a: d[11] },
                brush_size: u32_at(d, 12),
                ..*old(store)
            })
        },
{
    if data.len() < 32 {
        return Err(FormatError::UnexpectedEof("CANV payload too short".to_owned()));
    }
    store.canvas_width = read_u32_at(data, 0);
    store.canvas_height = read_u32_at(data, 4);
    store.primary_color = Color::new(data[8], data[9], data[10], data[11]);
    store.brush_size = read_u32_at(data, 12);
    let pan_x = read_u32_at(data, 16);
    let pan_y = read_u32_at(data, 20);
    let zoom_level = read_u64_at(data, 24);
    Ok((pan_x, pan_y, zoom_level))
}

/// Reading back a written canvas payload gives the values that were written.
pub proof fn law_canvas_roundtrip(
    width: u32,
    height: u32,
    color: Color,
    brush_size: u32,
    pan_x: u32,
    pan_y: u32,
    zoom: u64,
)
    ensures
        ({
            let d = canvas_bytes(width, height, color, brush_size, pan_x, pan_y, zoom);
            &&& d.len() == 32
            &&& u32_at(d, 0) == width
            &&& u32_at(d, 4) == height
            &&& (Color { r: d[8], g: d[9], b: d[10], a: d[11] }) == color
            &&& u32_at(d, 12) == brush_size
            &&& u32_at(d, 16) == pan_x
            &&& u32_at(d, 20) == pan_y
            &&& u64_at(d, 24) == zoom
        }),
{
    lemma_le32_roundtrip();
    lemma_le64_roundtrip();
    let d = canvas_bytes(width, height, color, brush_size, pan_x, pan_y, zoom);
    assert(d.subrange(0, 4) =~= le32(width));
    assert(d.subrange(4, 8) =~= le32(height));
    assert(d.subrange(12, 16) =~= le32(brush_size));
    assert(d.subrange(16, 20) =~= le32(pan_x));
    assert(d.subrange(20, 24) =~= le32(pan_y));
    assert(d.subrange(24, 32) =~= le64(zoom));
}

// ---------------------------------------------------------------- palette
/// The most colours a palette payload may declare.
pub const MAX_PALETTE_COLORS: usize = 4096;

/// The bytes of a colour list, four per colour.
pub open spec fn colors_bytes(cs: Seq<Color>) -> Seq<u8>
    decreases cs.len(),
{
    if cs.len() == 0 {
        Seq::empty()
    } else {
        colors_bytes(cs.drop_last()) + color_bytes(cs.last())
    }
}

/// The colour list a palette payload holds: `n` colours of four bytes after the count.
pub open spec fn colors_of_bytes(d: Seq<u8>, n: int) -> Seq<Color> {
    Seq::new(
        n as nat,
        |i: int| Color { r: d[4 + 4 * i], g: d[4 + 4 * i + 1], b: d[4 + 4 * i + 2], a: d[4 + 4 * i + 3] },
    )
}

pub proof fn lemma_colors_bytes_len(cs: Seq<Color>)
    ensures
        colors_bytes(cs).len() == 4 * cs.len(),
    decreases cs.len(),
{
    if cs.len() > 0 {
        lemma_colors_bytes_len(cs.drop_last());
    }
}

proof fn lemma_colors_bytes_index(cs: Seq<Color>, i: int)
    requires
        0 <= i < cs.len(),
    ensures
        colors_bytes(cs).subrange(4 * i, 4 * i + 4) == color_bytes(cs[i]),
    decreases cs.len(),
{
    lemma_colors_bytes_len(cs);
    lemma_colors_bytes_len(cs.drop_last());
    let prefix = colors_bytes(cs.drop_last());
    if i == cs.len() - 1 {
        assert(colors_bytes(cs).subrange(4 * i, 4 * i + 4) =~= color_bytes(cs.last()));
    } else {
        lemma_colors_bytes_index(cs.drop_last(), i);
        assert(colors_bytes(cs).subrange(4 * i, 4 * i + 4) =~= prefix.subrange(4 * i, 4 * i + 4));
    }
}

/// The palette payload: the colour count, then four bytes per colour.
pub open spec fn palette_bytes(colors: Seq<Color>) -> Seq<u8> {
    le32(colors.len() as u32) + colors_bytes(colors)
}

pub fn serialize_palette(palette: &Palette) -> (out: Vec<u8>)
    ensures
        out@ == palette_bytes(palette.colors@),
{
    let mut buf: Vec<u8> = Vec::new();
    push_u32(&mut buf, palette.colors.len() as u32);
    let n = palette.colors.len();
    let ghost start = buf@;
    for i in 0..n
        invariant
            n == palette.colors@.len(),
            buf@ == start + colors_bytes(palette.colors@.take(i as int)),
    {
        let c = palette.colors[i];
        buf.push(c.r);
        buf.push(c.g);
        buf.push(c.b);
        buf.push(c.a);
        assert(palette.colors@.take(i + 1).drop_last() =~= palette.colors@.take(i as int));
        assert(buf@ =~= start + colors_bytes(palette.colors@.take(i + 1)));
    }
    assert(palette.colors@.take(n as int) =~= palette.colors@);
    buf
}

/// Reads a palette payload. Fails on fewer than four bytes, on a count over
/// 4096, or where the colours run past the end. The palette is named
/// "Project Palette".
pub fn deserialize_palette(data: &[u8]) -> (r: Result<Palette, FormatError>)
    ensures
        ({
            let d = data@;
            if d.len() < 4 {
                r matches Err(FormatError::UnexpectedEof(_))
            } else if u32_at(d, 0) > MAX_PALETTE_COLORS {
                r matches Err(FormatError::InvalidData(_))
            } else if d.len() < 4 + 4 * u32_at(d, 0) {
                r matches Err(FormatError::UnexpectedEof(_))
            } else {
                r matches Ok(p) && p.colors@ == colors_of_bytes(d, u32_at(d, 0) as int) && p.name@
                    == "Project Palette"@
            }
        }),
{
    if data.len() < 4 {
        return Err(FormatError::UnexpectedEof("PALT payload too short".to_owned()));
    }
    let count = read_u32_at(data, 0) as usize;
    if count > MAX_PALETTE_COLORS {
        return Err(FormatError::InvalidData("too many colors".to_owned()));
    }
    if data.len() < 4 + count * 4 {
        return Err(FormatError::UnexpectedEof("palette colors incomplete".to_owned()));
    }
    let mut colors: Vec<Color> = Vec::new();
    for i in 0..count
        invariant
            count <= MAX_PALETTE_COLORS,
            4 + count * 4 <= data@.len(),
            colors@ == colors_of_bytes(data@, count as int).take(i as int),
    {
        let offset = 4 + i * 4;
        colors.push(Color::new(data[offset], data[offset + 1], data[offset + 2], data[offset + 3]));
        assert(colors@ =~= colors_of_bytes(data@, count as int).take(i + 1));
    }
    assert(colors@ =~= colors_of_bytes(data@, count as int));
    Ok(Palette { name: "Project Palette".to_owned(), colors })
}

/// Reading back a written palette payload gives the colours that were written,
/// for palettes within the 4096-colour limit.
pub proof fn law_palette_roundtrip(colors: Seq<Color>)
    requires
        colors.len() <= MAX_PALETTE_COLORS,
    ensures
        ({
            let d = palette_bytes(colors);
            &&& d.len() >= 4
            &&& u32_at(d, 0) == colors.len()
            &&& d.len() == 4 + 4 * u32_at(d, 0)
            &&& colors_of_bytes(d, u32_at(d, 0) as int) == colors
        }),
{
    lemma_le32_roundtrip();
    lemma_colors_bytes_len(colors);
    let d = palette_bytes(colors);
    assert(d.subrange(0, 4) =~= le32(colors.len() as u32));
    assert forall|i: int| 0 <= i < colors.len() implies #[trigger] colors_of_bytes(d, colors.len() as int)[i]
        == colors[i] by {
        lemma_colors_bytes_index(colors, i);
        let cb = colors_bytes(colors);
        assert(d[4 + 4 * i] == cb[4 * i]);
        assert(d[4 + 4 * i + 1] == cb[4 * i + 1]);
        assert(d[4 + 4 * i + 2] == cb[4 * i + 2]);
        assert(d[4 + 4 * i + 3] == cb[4 * i + 3]);
        assert(cb.subrange(4 * i, 4 * i + 4)[0] == cb[4 * i]);
        assert(cb.subrange(4 * i, 4 * i + 4)[1] == cb[4 * i + 1]);
        assert(cb.subrange(4 * i, 4 * i + 4)[2] == cb[4 * i + 2]);
        assert(cb.subrange(4 * i, 4 * i + 4)[3] == cb[4 * i + 3]);
    }
    assert(colors_of_bytes(d, colors.len() as int) =~= colors);
}

// ---------------------------------------------------------------- selection
/// The largest selection width or height a payload may declare.
pub const MAX_SELECTION_SIDE: u32 = 16384;

/// The mask bytes of a selection, one per entry.
pub open spec fn mask_bytes(mask: Seq<bool>) -> Seq<u8> {
    mask.map_values(|b: bool| flag_byte(b))
}

/// The selection payload: active flag, width, height, then the mask.
pub open spec fn selection_bytes(s: SelectionModel) -> Seq<u8> {
    seq![flag_byte(s.is_active)] + le32(s.width) + le32(s.height) + mask_bytes(s.mask)
}

/// The selection a payload holds: a `w` by `h` mask filled from the bytes after
/// the nine-byte head, entries past the end of the payload left clear.
pub open spec fn selection_of_bytes(d: Seq<u8>) -> SelectionModel {
    let w = u32_at(d, 1);
    let h = u32_at(d, 5);
    SelectionModel {
        is_active: d[0] != 0,
        width: w,
        height: h,
        mask: Seq::new((w * h) as nat, |i: int| i + 9 < d.len() && d[i + 9] != 0),
    }
}

pub fn serialize_selection(sel: &SelectionData) -> (out: Vec<u8>)
    ensures
        out@ == selection_bytes(sel@),
{
    let mut buf: Vec<u8> = Vec::new();
    buf.push(if sel.is_active { 1 } else { 0 });
    push_u32(&mut buf, sel.width);
    push_u32(&mut buf, sel.height);
    let ghost start = buf@;
    let n = sel.mask.len();
    for i in 0..n
        invariant
            n == sel.mask@.len(),
            buf@ == start + mask_bytes(sel.mask@.take(i as int)),
    {
        buf.push(if sel.mask[i] { 1 } else { 0 });
        assert(buf@ =~= start + mask_bytes(sel.mask@.take(i + 1)));
    }
    assert(sel.mask@.take(n as int) =~= sel.mask@);
    assert(buf@ =~= selection_bytes(sel@));
    buf
}

/// Reads a selection payload. Fails on fewer than nine bytes or on a side over
/// 16384.
pub fn deserialize_selection(data: &[u8]) -> (r: Result<SelectionData, FormatError>)
    ensures
        ({
            let d = data@;
            if d.len() < 9 {
                r matches Err(FormatError::UnexpectedEof(_))
            } else if u32_at(d, 1) > MAX_SELECTION_SIDE || u32_at(d, 5) > MAX_SELECTION_SIDE {
                r matches Err(FormatError::InvalidData(_))
            } else {
                r matches Ok(s) && s@ == selection_of_bytes(d)
            }
        }),
{
    if data.len() < 9 {
        return Err(FormatError::UnexpectedEof("SELE payload too short".to_owned()));
    }
    let is_active = data[0] != 0;
    let w = read_u32_at(data, 1);
    let h = read_u32_at(data, 5);
    if w > MAX_SELECTION_SIDE || h > MAX_SELECTION_SIDE {
        return Err(FormatError::InvalidData("Selection dimension exceeds safety limit".to_owned()));
    }
    proof {
        assert(w * h <= 16384 * 16384) by (nonlinear_arith)
            requires
                w <= 16384,
                h <= 16384,
        ;
    }
    let mut sel = SelectionData::new(w, h);
    sel.is_active = is_active;
    let n = (w * h) as usize;
    let ghost target = selection_of_bytes(data@);
    for i in 0..n
        invariant
            n == w * h,
            n <= 16384 * 16384,
            data@.len() >= 9,
            w == u32_at(data@, 1),
            h == u32_at(data@, 5),
            sel@.mask.len() == n,
            sel@.width == w,
            sel@.height == h,
            sel@.is_active == (data@[0] != 0),
            target == selection_of_bytes(data@),
            forall|k: int| 0 <= k < i ==> sel@.mask[k] == target.mask[k],
            forall|k: int| i <= k < n ==> !sel@.mask[k],
    {
        if i + 9 < data.len() {
            sel.mask.set(i, data[i + 9] != 0);
        }
    }
    assert(sel@.mask =~= target.mask);
    Ok(sel)
}

/// Reading back a written selection payload gives the selection that was
/// written, for well-formed selections within the size limit.
pub proof fn law_selection_roundtrip(s: SelectionModel)
    requires
        s.wf(),
        s.width <= MAX_SELECTION_SIDE,
        s.height <= MAX_SELECTION_SIDE,
    ensures
        selection_bytes(s).len() >= 9,
        u32_at(selection_bytes(s), 1) == s.width,
        u32_at(selection_bytes(s), 5) == s.height,
        selection_of_bytes(selection_bytes(s)) == s,
{
    lemma_le32_roundtrip();
    let d = selection_bytes(s);
    assert(d.subrange(1, 5) =~= le32(s.width));
    assert(d.subrange(5, 9) =~= le32(s.height));
    let t = selection_of_bytes(d);
    assert forall|i: int| 0 <= i < s.mask.len() implies #[trigger] t.mask[i] == s.mask[i] by {
        assert(d[i + 9] == flag_byte(s.mask[i]));
    }
    assert(t.mask =~= s.mask);
}

} // verus!
