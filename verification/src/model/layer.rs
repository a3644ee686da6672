use vstd::prelude::*;
use crate::model::blend_mode::BlendMode;
use crate::model::color::{Color, color_at, transparent_color};
use crate::model::error::CoreError;

verus! {

/// Side length, in pixels, of the square tiles a layer's pixels are stored in.
pub const CHUNK_SIZE: u32 = 64;

/// Number of bytes of one tile: `CHUNK_SIZE * CHUNK_SIZE` RGBA pixels.
pub const CHUNK_BYTES: usize = 16384;

/// One stored tile of a layer, at tile coordinates `(cx, cy)`.
pub struct Chunk {
    pub cx: u32,
    pub cy: u32,
    pub data: Vec<u8>,
}

#[verifier::ext_equal]
pub struct ChunkModel {
    pub cx: u32,
    pub cy: u32,
    pub data: Seq<u8>,
}

impl View for Chunk {
    type V = ChunkModel;

    open spec fn view(&self) -> ChunkModel {
        ChunkModel { cx: self.cx, cy: self.cy, data: self.data@ }
    }
}

impl Clone for Chunk {
    fn clone(&self) -> (r: Self)
        ensures
            r@ == self@,
    {
        let data = self.data.clone();
        assert(data@ =~= self.data@);
        Chunk { cx: self.cx, cy: self.cy, data }
    }
}

/// `d` with the four bytes of `c` written at offset `off`.
pub open spec fn write_color_bytes(d: Seq<u8>, off: int, c: Color) -> Seq<u8> {
    d.update(off, c.r).update(off + 1, c.g).update(off + 2, c.b).update(off + 3, c.a)
}

impl Chunk {
    fn write_color(&mut self, off: usize, c: Color)
        requires
            off + 4 <= old(self).data.len(),
        ensures
            final(self)@ == (ChunkModel {
                cx: old(self).cx,
                cy: old(self).cy,
                data: write_color_bytes(old(self).data@, off as int, c),
            }),
    {
        self.data[off] = c.r;
        self.data[off + 1] = c.g;
        self.data[off + 2] = c.b;
        self.data[off + 3] = c.a;
    }
}

/// Byte offset, inside its tile, of the pixel at layer coordinates `(x, y)`.
pub open spec fn pixel_offset(x: u32, y: u32) -> int {
    ((y % 64) * 64 + (x % 64)) * 4
}

pub open spec fn chunk_has_key(c: ChunkModel, cx: u32, cy: u32) -> bool {
    c.cx == cx && c.cy == cy
}

/// Every tile has the full size and no two tiles share coordinates.
pub open spec fn chunks_wf(cs: Seq<ChunkModel>) -> bool {
    &&& forall|i: int| 0 <= i < cs.len() ==> (#[trigger] cs[i]).data.len() == CHUNK_BYTES
    &&& forall|i: int, j: int|
        0 <= i < cs.len() && 0 <= j < cs.len() && i != j ==> !chunk_has_key(
            #[trigger] cs[i],
            #[trigger] cs[j].cx,
            cs[j].cy,
        )
}

pub open spec fn has_chunk(cs: Seq<ChunkModel>, cx: u32, cy: u32) -> bool {
    exists|i: int| 0 <= i < cs.len() && chunk_has_key(#[trigger] cs[i], cx, cy)
}

pub open spec fn chunk_index(cs: Seq<ChunkModel>, cx: u32, cy: u32) -> int {
    choose|i: int| 0 <= i < cs.len() && chunk_has_key(#[trigger] cs[i], cx, cy)
}

/// The colour of the pixel at layer coordinates `(x, y)`: the bytes of its tile,
/// or transparent where no tile is stored.
pub open spec fn chunks_pixel(cs: Seq<ChunkModel>, x: u32, y: u32) -> Color {
    if has_chunk(cs, x / 64, y / 64) {
        color_at(cs[chunk_index(cs, x / 64, y / 64)].data, pixel_offset(x, y))
    } else {
        transparent_color()
    }
}

/// With distinct keys, the tile holding a key is the one `chunk_index` names.
pub proof fn lemma_chunk_index_unique(cs: Seq<ChunkModel>, i: int)
    requires
        chunks_wf(cs),
        0 <= i < cs.len(),
    ensures
        has_chunk(cs, cs[i].cx, cs[i].cy),
        chunk_index(cs, cs[i].cx, cs[i].cy) == i,
{
    assert(chunk_has_key(cs[i], cs[i].cx, cs[i].cy));
    let j = chunk_index(cs, cs[i].cx, cs[i].cy);
    if j != i {
        assert(!chunk_has_key(cs[j], cs[i].cx, cs[i].cy));
    }
}

/// Distinct pixels of one tile occupy disjoint four-byte windows.
proof fn lemma_pixel_offsets_disjoint(x: u32, y: u32, px: u32, py: u32)
    requires
        px / 64 == x / 64,
        py / 64 == y / 64,
        !(px == x && py == y),
    ensures
        pixel_offset(px, py) + 4 <= pixel_offset(x, y) || pixel_offset(x, y) + 4 <= pixel_offset(
            px,
            py,
        ),
        0 <= pixel_offset(x, y) && pixel_offset(x, y) + 4 <= CHUNK_BYTES,
{
    assert(px == 64 * (px / 64) + px % 64);
    assert(x == 64 * (x / 64) + x % 64);
    assert(py == 64 * (py / 64) + py % 64);
    assert(y == 64 * (y / 64) + y % 64);
}

proof fn lemma_pixel_offset_range(x: u32, y: u32)
    ensures
        0 <= pixel_offset(x, y) && pixel_offset(x, y) + 4 <= CHUNK_BYTES,
        pixel_offset(x, y) % 4 == 0,
{
}

/// Writing one pixel's bytes into its tile changes that pixel and no other.
proof fn lemma_write_in_chunk(cs: Seq<ChunkModel>, i: int, x: u32, y: u32, c: Color)
    requires
        chunks_wf(cs),
        0 <= i < cs.len(),
        chunk_has_key(cs[i], x / 64, y / 64),
    ensures
        ({
            let cs2 = cs.update(
                i,
                ChunkModel {
                    cx: cs[i].cx,
                    cy: cs[i].cy,
                    data: write_color_bytes(cs[i].data, pixel_offset(x, y), c),
                },
            );
            &&& chunks_wf(cs2)
            &&& forall|px: u32, py: u32| #[trigger]
                chunks_pixel(cs2, px, py) == if px == x && py == y {
                    c
                } else {
                    chunks_pixel(cs, px, py)
                }
        }),
{
    let cs2 = cs.update(
        i,
        ChunkModel {
            cx: cs[i].cx,
            cy: cs[i].cy,
            data: write_color_bytes(cs[i].data, pixel_offset(x, y), c),
        },
    );
    lemma_pixel_offset_range(x, y);
    assert(chunks_wf(cs2));
    assert forall|px: u32, py: u32| #[trigger]
        chunks_pixel(cs2, px, py) == if px == x && py == y {
            c
        } else {
            chunks_pixel(cs, px, py)
        } by {
        let kx = px / 64;
        let ky = py / 64;
        if has_chunk(cs, kx, ky) {
            let j = chunk_index(cs, kx, ky);
            lemma_chunk_index_unique(cs, j);
            lemma_chunk_index_unique(cs2, j);
            assert(has_chunk(cs2, kx, ky));
            if j == i {
                lemma_pixel_offset_range(px, py);
                if !(px == x && py == y) {
                    lemma_pixel_offsets_disjoint(x, y, px, py);
                }
            }
        } else {
            if has_chunk(cs2, kx, ky) {
                let j = chunk_index(cs2, kx, ky);
                assert(chunk_has_key(cs[j], kx, ky));
            }
        }
    }
}

/// Appending a fresh tile keeps the tiles well formed and changes no pixel.
pub proof fn lemma_push_blank_chunk(cs: Seq<ChunkModel>, cx: u32, cy: u32)
    requires
        chunks_wf(cs),
        !has_chunk(cs, cx, cy),
    ensures
        ({
            let cs2 = cs.push(ChunkModel { cx, cy, data: Seq::new(CHUNK_BYTES as nat, |k: int| 0u8) });
            &&& chunks_wf(cs2)
            &&& forall|px: u32, py: u32| #[trigger] chunks_pixel(cs2, px, py) == chunks_pixel(cs, px, py)
        }),
{
    let cs2 = cs.push(ChunkModel { cx, cy, data: Seq::new(CHUNK_BYTES as nat, |k: int| 0u8) });
    assert forall|i: int, j: int|
        0 <= i < cs2.len() && 0 <= j < cs2.len() && i != j implies !chunk_has_key(
        #[trigger] cs2[i],
        #[trigger] cs2[j].cx,
        cs2[j].cy,
    ) by {
        if i == cs.len() as int {
            assert(!chunk_has_key(cs[j], cx, cy));
        } else if j == cs.len() as int {
            assert(!chunk_has_key(cs[i], cx, cy));
        }
    }
    assert forall|px: u32, py: u32| #[trigger] chunks_pixel(cs2, px, py) == chunks_pixel(cs, px, py) by {
        let kx = px / 64;
        let ky = py / 64;
        lemma_pixel_offset_range(px, py);
        if has_chunk(cs, kx, ky) {
            let j = chunk_index(cs, kx, ky);
            lemma_chunk_index_unique(cs, j);
            lemma_chunk_index_unique(cs2, j);
        } else if has_chunk(cs2, kx, ky) {
            let j = chunk_index(cs2, kx, ky);
            if j < cs.len() {
                assert(chunk_has_key(cs[j], kx, ky));
            }
            assert(j == cs.len() as int);
        }
    }
}

/// The attributes of a layer other than its pixels.
#[verifier::ext_equal]
pub struct LayerProps {
    pub id: Seq<char>,
    pub name: Seq<char>,
    pub visible: bool,
    pub locked: bool,
    pub opacity: u8,
    pub blend_mode: BlendMode,
    pub width: u32,
    pub height: u32,
    pub offset_x: i32,
    pub offset_y: i32,
}

#[verifier::ext_equal]
pub struct LayerModel {
    pub props: LayerProps,
    pub chunks: Seq<ChunkModel>,
}

impl LayerModel {
    pub open spec fn wf(self) -> bool {
        chunks_wf(self.chunks)
    }

    pub open spec fn pixel(self, x: u32, y: u32) -> Color {
        chunks_pixel(self.chunks, x, y)
    }

    pub open spec fn in_bounds(self, x: int, y: int) -> bool {
        0 <= x < self.props.width && 0 <= y < self.props.height
    }

    /// Both layers show the same colour at every coordinate.
    pub open spec fn same_image(self, other: LayerModel) -> bool {
        forall|x: u32, y: u32| #[trigger] self.pixel(x, y) == other.pixel(x, y)
    }
}

/// A paintable raster layer, stored as sparse tiles.
pub struct Layer {
    pub id: String,
    pub name: String,
    pub visible: bool,
    pub locked: bool,
    pub opacity: u8,
    pub blend_mode: BlendMode,
    pub width: u32,
    pub height: u32,
    pub offset_x: i32,
    pub offset_y: i32,
    pub chunks: Vec<Chunk>,
}

impl View for Layer {
    type V = LayerModel;

    open spec fn view(&self) -> LayerModel {
        LayerModel {
            props: LayerProps {
                id: self.id@,
                name: self.name@,
                visible: self.visible,
                locked: self.locked,
                opacity: self.opacity,
                blend_mode: self.blend_mode,
                width: self.width,
                height: self.height,
                offset_x: self.offset_x,
                offset_y: self.offset_y,
            },
            chunks: self.chunks@.map_values(|c: Chunk| c@),
        }
    }
}

impl Clone for Layer {
    fn clone(&self) -> (r: Self)
        ensures
            r@ == self@,
    {
        let mut chunks: Vec<Chunk> = Vec::new();
        let n = self.chunks.len();
        for i in 0..n
            invariant
                n == self.chunks.len(),
                chunks.len() == i,
                forall|k: int| 0 <= k < i ==> (#[trigger] chunks@[k])@ == self.chunks@[k]@,
        {
            chunks.push(self.chunks[i].clone());
        }
        let r = Layer {
            id: self.id.clone(),
            name: self.name.clone(),
            visible: self.visible,
            locked: self.locked,
            opacity: self.opacity,
            blend_mode: self.blend_mode,
            width: self.width,
            height: self.height,
            offset_x: self.offset_x,
            offset_y: self.offset_y,
            chunks,
        };
        assert(r@.chunks =~= self@.chunks);
        r
    }
}

impl Layer {
    /// A visible, unlocked, fully opaque and fully transparent layer.
    pub fn new(id: String, name: String, width: u32, height: u32) -> (l: Layer)
        ensures
            l@.wf(),
            l@.props == (LayerProps {
                id: id@,
                name: name@,
                visible: true,
                locked: false,
                opacity: 255,
                blend_mode: BlendMode::Normal,
                width,
                height,
                offset_x: 0,
                offset_y: 0,
            }),
            l@.chunks.len() == 0,
            forall|x: u32, y: u32| #[trigger] l@.pixel(x, y) == transparent_color(),
    {
        let l = Layer {
            id,
            name,
            visible: true,
            locked: false,
            opacity: 255,
            blend_mode: BlendMode::Normal,
            width,
            height,
            offset_x: 0,
            offset_y: 0,
            chunks: Vec::new(),
        };
        assert(l@.chunks =~= Seq::<ChunkModel>::empty());
        l
    }

    /// The position in `chunks` of the tile at tile coordinates `(cx, cy)`.
    pub fn find_chunk(&self, cx: u32, cy: u32) -> (r: Option<usize>)
        ensures
            match r {
                Some(i) => i < self.chunks.len() && chunk_has_key(self@.chunks[i as int], cx, cy),
                None => !has_chunk(self@.chunks, cx, cy),
            },
    {
        let n = self.chunks.len();
        for i in 0..n
            invariant
                n == self.chunks.len(),
                forall|k: int| 0 <= k < i ==> !chunk_has_key(#[trigger] self@.chunks[k], cx, cy),
        {
            if self.chunks[i].cx == cx && self.chunks[i].cy == cy {
                return Some(i);
            }
        }
        None
    }

    /// The colour at layer coordinates `(x, y)`, or `None` outside the layer.
    pub fn get_pixel(&self, x: u32, y: u32) -> (r: Option<Color>)
        requires
            self@.wf(),
        ensures
            r == (if self@.in_bounds(x as int, y as int) {
                Some(self@.pixel(x, y))
            } else {
                None
            }),
    {
        if x >= self.width || y >= self.height {
            return None;
        }
        Some(self.pixel_at(x, y))
    }

    /// Sets the pixel at layer coordinates `(x, y)`; fails outside the layer.
    pub fn set_pixel(&mut self, x: u32, y: u32, c: Color) -> (r: Result<(), CoreError>)
        requires
            old(self)@.wf(),
        ensures
            final(self)@.wf(),
            final(self)@.props == old(self)@.props,
            old(self)@.in_bounds(x as int, y as int) ==> r is Ok && forall|px: u32, py: u32| #[trigger]
                final(self)@.pixel(px, py) == if px == x && py == y {
                    c
                } else {
                    old(self)@.pixel(px, py)
                },
            !old(self)@.in_bounds(x as int, y as int) ==> (r matches Err(CoreError::OutOfBounds))
                && final(self)@ == old(self)@,
            old(self)@.in_bounds(x as int, y as int) && has_chunk(old(self)@.chunks, x / 64, y / 64)
                ==> final(self)@.chunks == old(self)@.chunks.update(
                chunk_index(old(self)@.chunks, x / 64, y / 64),
                ChunkModel {
                    cx: x / 64,
                    cy: y / 64,
                    data: write_color_bytes(
                        old(self)@.chunks[chunk_index(old(self)@.chunks, x / 64, y / 64)].data,
                        pixel_offset(x, y),
                        c,
                    ),
                },
            ),
            old(self)@.in_bounds(x as int, y as int) && !has_chunk(old(self)@.chunks, x / 64, y / 64)
                ==> final(self)@.chunks == if c == transparent_color() {
                old(self)@.chunks
            } else {
                old(self)@.chunks.push(
                    ChunkModel {
                        cx: x / 64,
                        cy: y / 64,
                        data: write_color_bytes(
                            Seq::new(CHUNK_BYTES as nat, |k: int| 0u8),
                            pixel_offset(x, y),
                            c,
                        ),
                    },
                )
            },
    {
        if x >= self.width || y >= self.height {
            return Err(CoreError::OutOfBounds);
        }
        let cx = x / 64;
        let cy = y / 64;
        let off = (((y % 64) * 64 + (x % 64)) * 4) as usize;
        proof {
            lemma_pixel_offset_range(x, y);
        }
        match self.find_chunk(cx, cy) {
            Some(i) => {
                proof {
                    lemma_write_in_chunk(self@.chunks, i as int, x, y, c);
                    lemma_chunk_index_unique(self@.chunks, i as int);
                }
                let ghost before = self@;
                self.chunks[i].write_color(off, c);
                assert(self@.chunks =~= before.chunks.update(
                    i as int,
                    ChunkModel {
                        cx: before.chunks[i as int].cx,
                        cy: before.chunks[i as int].cy,
                        data: write_color_bytes(before.chunks[i as int].data, pixel_offset(x, y), c),
                    },
                ));
            },
            None => {
                if c.r == 0 && c.g == 0 && c.b == 0 && c.a == 0 {
                    return Ok(());
                }
                let ghost before = self@;
                proof {
                    lemma_push_blank_chunk(before.chunks, cx, cy);
                }
                let data = vec![0u8; CHUNK_BYTES];
                assert(data@ =~= Seq::new(CHUNK_BYTES as nat, |k: int| 0u8));
                self.chunks.push(Chunk { cx, cy, data });
                let ghost mid = self@;
                assert(mid.chunks =~= before.chunks.push(
                    ChunkModel { cx, cy, data: Seq::new(CHUNK_BYTES as nat, |k: int| 0u8) },
                ));
                let i = self.chunks.len() - 1;
                proof {
                    lemma_write_in_chunk(mid.chunks, i as int, x, y, c);
                }
                self.chunks[i].write_color(off, c);
                assert(self@.chunks =~= mid.chunks.update(
                    i as int,
                    ChunkModel {
                        cx: mid.chunks[i as int].cx,
                        cy: mid.chunks[i as int].cy,
                        data: write_color_bytes(mid.chunks[i as int].data, pixel_offset(x, y), c),
                    },
                ));
            },
        }
        Ok(())
    }

    /// The colour at any layer coordinates, transparent where no tile is stored.
    pub fn pixel_at(&self, x: u32, y: u32) -> (c: Color)
        requires
            self@.wf(),
        ensures
            c == self@.pixel(x, y),
    {
        match self.find_chunk(x / 64, y / 64) {
            Some(i) => {
                proof {
                    lemma_chunk_index_unique(self@.chunks, i as int);
                }
                let off = (((y % 64) * 64 + (x % 64)) * 4) as usize;
                let d = &self.chunks[i].data;
                assert(d@ == self@.chunks[i as int].data);
                Color::new(d[off], d[off + 1], d[off + 2], d[off + 3])
            },
            None => Color::transparent(),
        }
    }
}

} // verus!
