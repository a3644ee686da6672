use vstd::prelude::*;
use crate::model::color::{Color, color_at, transparent_color};
use crate::model::error::CoreError;
use crate::model::ids::{find_id, is_first_id, lemma_find_id_absent, lemma_find_id_first, str_eq};
use crate::model::layer::{Layer, LayerModel, LayerProps};
use crate::model::path::{BezierPath, PathModel};
use crate::model::selection::{SelectionData, SelectionModel};

verus! {

#[derive(Clone, Copy, Debug, PartialEq, Eq, Structural)]
pub enum BrushShape {
    Square,
    Circle,
}

/// A layer seen only through its attributes and its image.
#[verifier::ext_equal]
pub struct AbsLayer {
    pub props: LayerProps,
    pub image: spec_fn(u32, u32) -> Color,
}

impl LayerModel {
    pub open spec fn abs(self) -> AbsLayer {
        AbsLayer { props: self.props, image: |x: u32, y: u32| self.pixel(x, y) }
    }
}

#[verifier::ext_equal]
pub struct StoreModel {
    pub canvas_width: u32,
    pub canvas_height: u32,
    pub layers: Seq<LayerModel>,
    pub active_layer_id: Option<Seq<char>>,
    pub selection: SelectionModel,
    pub primary_color: Color,
    pub brush_size: u32,
    pub brush_shape: BrushShape,
    pub brush_jitter: u32,
    pub composite_cache: Seq<u8>,
    pub active_path: PathModel,
}

/// The document as the user sees it: every layer reduced to attributes and image.
#[verifier::ext_equal]
pub struct AbsStore {
    pub canvas_width: u32,
    pub canvas_height: u32,
    pub layers: Seq<AbsLayer>,
    pub active_layer_id: Option<Seq<char>>,
    pub selection: SelectionModel,
    pub primary_color: Color,
    pub brush_size: u32,
    pub brush_shape: BrushShape,
    pub brush_jitter: u32,
    pub composite_cache: Seq<u8>,
    pub active_path: PathModel,
}

pub open spec fn layer_ids(ls: Seq<LayerModel>) -> Seq<Seq<char>> {
    ls.map_values(|l: LayerModel| l.props.id)
}

pub open spec fn abs_layer_ids(ls: Seq<AbsLayer>) -> Seq<Seq<char>> {
    ls.map_values(|l: AbsLayer| l.props.id)
}

pub open spec fn opt_string_view(o: Option<String>) -> Option<Seq<char>> {
    match o {
        Some(s) => Some(s@),
        None => None,
    }
}

impl StoreModel {
    pub open spec fn wf(self) -> bool {
        &&& forall|i: int| 0 <= i < self.layers.len() ==> (#[trigger] self.layers[i]).wf()
        &&& self.selection.wf()
    }

    pub open spec fn abs(self) -> AbsStore {
        AbsStore {
            canvas_width: self.canvas_width,
            canvas_height: self.canvas_height,
            layers: self.layers.map_values(|l: LayerModel| l.abs()),
            active_layer_id: self.active_layer_id,
            selection: self.selection,
            primary_color: self.primary_color,
            brush_size: self.brush_size,
            brush_shape: self.brush_shape,
            brush_jitter: self.brush_jitter,
            composite_cache: self.composite_cache,
            active_path: self.active_path,
        }
    }

    /// Position of the first layer carrying `id`.
    pub open spec fn find_layer(self, id: Seq<char>) -> Option<int> {
        find_id(layer_ids(self.layers), id)
    }
}

/// Layer coordinates of canvas point `(x, y)` on a layer with the given offset.
pub open spec fn to_layer(x: int, offset: i32) -> int {
    x - offset
}

/// The colour a layer shows at canvas point `(x, y)`, if the point lies on it.
pub open spec fn canvas_pixel(l: LayerModel, x: int, y: int) -> Option<Color> {
    let lx = to_layer(x, l.props.offset_x);
    let ly = to_layer(y, l.props.offset_y);
    if l.in_bounds(lx, ly) {
        Some(l.pixel(lx as u32, ly as u32))
    } else {
        None
    }
}

/// The whole editable state of a document.
pub struct PixelStore {
    pub canvas_width: u32,
    pub canvas_height: u32,
    pub layers: Vec<Layer>,
    pub active_layer_id: Option<String>,
    pub selection: SelectionData,
    pub primary_color: Color,
    pub brush_size: u32,
    pub brush_shape: BrushShape,
    pub brush_jitter: u32,
    pub composite_cache: Vec<u8>,
    pub active_path: BezierPath,
}

impl View for PixelStore {
    type V = StoreModel;

    open spec fn view(&self) -> StoreModel {
        StoreModel {
            canvas_width: self.canvas_width,
            canvas_height: self.canvas_height,
            layers: self.layers@.map_values(|l: Layer| l@),
            active_layer_id: opt_string_view(self.active_layer_id),
            selection: self.selection@,
            primary_color: self.primary_color,
            brush_size: self.brush_size,
            brush_shape: self.brush_shape,
            brush_jitter: self.brush_jitter,
            composite_cache: self.composite_cache@,
            active_path: self.active_path@,
        }
    }
}

pub fn clone_opt_string(o: &Option<String>) -> (r: Option<String>)
    ensures
        opt_string_view(r) == opt_string_view(*o),
{
    match o {
        Some(s) => Some(s.clone()),
        None => None,
    }
}

impl PixelStore {
    /// An empty document of the given canvas size: no layers, nothing selected,
    /// an opaque black brush of size one and a zeroed composite buffer.
    pub fn new(width: u32, height: u32) -> (s: PixelStore)
        requires
            width * height * 4 <= usize::MAX,
        ensures
            s@.wf(),
            s@.canvas_width == width,
            s@.canvas_height == height,
            s@.layers.len() == 0,
            s@.active_layer_id is None,
            !s@.selection.is_active,
            s@.selection.width == width,
            s@.selection.height == height,
            s@.primary_color == (Color { r: 0, g: 0, b: 0, a: 255 }),
            s@.brush_size == 1,
            s@.brush_shape == BrushShape::Square,
            s@.brush_jitter == 0,
            s@.composite_cache.len() == width * height * 4,
            s@.active_path.nodes.len() == 0,
            !s@.active_path.is_closed,
    {
        let n = (width as usize) * (height as usize) * 4;
        let s = PixelStore {
            canvas_width: width,
            canvas_height: height,
            layers: Vec::new(),
            active_layer_id: None,
            selection: SelectionData::new(width, height),
            primary_color: Color::new(0, 0, 0, 255),
            brush_size: 1,
            brush_shape: BrushShape::Square,
            brush_jitter: 0,
            composite_cache: vec![0u8; n],
            active_path: BezierPath::new(),
        };
        assert(s@.layers =~= Seq::<LayerModel>::empty());
        s
    }

    /// Position of the first layer carrying `id`.
    pub fn find_layer(&self, id: &str) -> (r: Option<usize>)
        ensures
            match r {
                Some(i) => i < self.layers.len() && self@.find_layer(id@) == Some(i as int),
                None => self@.find_layer(id@) is None,
            },
    {
        let n = self.layers.len();
        for i in 0..n
            invariant
                n == self.layers.len(),
                forall|k: int| 0 <= k < i ==> #[trigger] layer_ids(self@.layers)[k] != id@,
        {
            if str_eq(self.layers[i].id.as_str(), id) {
                proof {
                    lemma_find_id_first(layer_ids(self@.layers), id@, i as int);
                }
                return Some(i);
            }
        }
        proof {
            lemma_find_id_absent(layer_ids(self@.layers), id@);
        }
        None
    }

    /// The first layer carrying `id`.
    pub fn get_layer(&self, id: &str) -> (r: Option<&Layer>)
        ensures
            match self@.find_layer(id@) {
                Some(i) => r matches Some(l) && l@ == self@.layers[i],
                None => r is None,
            },
    {
        match self.find_layer(id) {
            Some(i) => Some(&self.layers[i]),
            None => None,
        }
    }

    /// Appends a layer on top and makes it the active one.
    pub fn add_layer(&mut self, layer: Layer)
        requires
            old(self)@.wf(),
            layer@.wf(),
        ensures
            final(self)@.wf(),
            final(self)@ == (StoreModel {
                layers: old(self)@.layers.push(layer@),
                active_layer_id: Some(layer@.props.id),
                ..old(self)@
            }),
    {
        let id = layer.id.clone();
        self.layers.push(layer);
        self.active_layer_id = Some(id);
        assert(self@.layers =~= old(self)@.layers.push(layer@));
    }

    /// Inserts a layer at `index`, or on top where `index` is past the end.
    pub fn add_layer_at(&mut self, layer: Layer, index: usize)
        requires
            old(self)@.wf(),
            layer@.wf(),
        ensures
            final(self)@.wf(),
            final(self)@ == (StoreModel {
                layers: old(self)@.layers.insert(
                    if index <= old(self)@.layers.len() {
                        index as int
                    } else {
                        old(self)@.layers.len() as int
                    },
                    layer@,
                ),
                ..old(self)@
            }),
    {
        let n = self.layers.len();
        let idx = if index <= n {
            index
        } else {
            n
        };
        self.layers.insert(idx, layer);
        assert(self@.layers =~= old(self)@.layers.insert(idx as int, layer@));
    }

    /// Removes the first layer carrying `id`; if it was the active layer, no layer
    /// stays active. Nothing happens where no layer carries `id`.
    pub fn remove_layer_by_id(&mut self, id: &str)
        requires
            old(self)@.wf(),
        ensures
            final(self)@.wf(),
            final(self)@ == remove_layer_spec(old(self)@, id@),
    {
        match self.find_layer(id) {
            Some(i) => {
                self.layers.remove(i);
                let was_active = match &self.active_layer_id {
                    Some(a) => str_eq(a.as_str(), id),
                    None => false,
                };
                if was_active {
                    self.active_layer_id = None;
                }
                assert(self@.layers =~= old(self)@.layers.remove(i as int));
            },
            None => {},
        }
    }

    /// Shows or hides the first layer carrying `id`, if there is one.
    pub fn set_layer_visibility(&mut self, id: &str, visible: bool)
        requires
            old(self)@.wf(),
        ensures
            final(self)@.wf(),
            final(self)@ == (match old(self)@.find_layer(id@) {
                Some(i) => StoreModel {
                    layers: old(self)@.layers.update(
                        i,
                        LayerModel {
                            props: LayerProps { visible, ..old(self)@.layers[i].props },
                            ..old(self)@.layers[i]
                        },
                    ),
                    ..old(self)@
                },
                None => old(self)@,
            }),
    {
        if let Some(i) = self.find_layer(id) {
            self.layers[i].visible = visible;
            assert(self@.layers =~= old(self)@.layers.update(
                i as int,
                LayerModel {
                    props: LayerProps { visible, ..old(self)@.layers[i as int].props },
                    ..old(self)@.layers[i as int]
                },
            ));
        }
    }

    /// The colour the first layer carrying `id` shows at canvas point `(x, y)`;
    /// `None` where no layer carries `id` or the point lies off that layer.
    pub fn get_pixel(&self, id: &str, x: u32, y: u32) -> (r: Option<Color>)
        requires
            self@.wf(),
        ensures
            r == (match self@.find_layer(id@) {
                Some(i) => canvas_pixel(self@.layers[i], x as int, y as int),
                None => None,
            }),
    {
        match self.find_layer(id) {
            Some(i) => {
                let layer = &self.layers[i];
                assert(layer@ == self@.layers[i as int]);
                let lx = x as i64 - layer.offset_x as i64;
                let ly = y as i64 - layer.offset_y as i64;
                if lx < 0 || ly < 0 || lx >= layer.width as i64 || ly >= layer.height as i64 {
                    None
                } else {
                    Some(layer.pixel_at(lx as u32, ly as u32))
                }
            },
            None => None,
        }
    }

    /// Paints canvas point `(x, y)` of the first layer carrying `id`.
    pub fn mut_set_pixel(&mut self, id: &str, x: u32, y: u32, c: Color) -> (r: Result<
        (),
        CoreError,
    >)
        requires
            old(self)@.wf(),
        ensures
            final(self)@.wf(),
            match old(self)@.find_layer(id@) {
                None => (r matches Err(CoreError::LayerNotFound(e)) && e@ == id@) && final(self)@
                    == old(self)@,
                Some(i) => {
                    let l = old(self)@.layers[i];
                    let lx = to_layer(x as int, l.props.offset_x);
                    let ly = to_layer(y as int, l.props.offset_y);
                    if l.props.locked {
                        (r matches Err(CoreError::LayerLocked)) && final(self)@ == old(self)@
                    } else if !l.in_bounds(lx, ly) {
                        (r matches Err(CoreError::OutOfBounds)) && final(self)@ == old(self)@
                    } else {
                        &&& r is Ok
                        &&& final(self)@.layers.len() == old(self)@.layers.len()
                        &&& final(self)@ == (StoreModel {
                            layers: final(self)@.layers,
                            ..old(self)@
                        })
                        &&& forall|j: int|
                            0 <= j < old(self)@.layers.len() && j != i ==> #[trigger] final(self)@.layers[j] == old(self)@.layers[j]
                        &&& final(self)@.layers[i].props == l.props
                        &&& forall|px: u32, py: u32| #[trigger]
                            final(self)@.layers[i].pixel(px, py) == if px == lx && py == ly {
                                c
                            } else {
                                l.pixel(px, py)
                            }
                    }
                },
            },
    {
        match self.find_layer(id) {
            None => Err(CoreError::LayerNotFound(id.to_owned())),
            Some(i) => {
                if self.layers[i].locked {
                    return Err(CoreError::LayerLocked);
                }
                let lx = x as i64 - self.layers[i].offset_x as i64;
                let ly = y as i64 - self.layers[i].offset_y as i64;
                if lx < 0 || ly < 0 || lx >= self.layers[i].width as i64 || ly
                    >= self.layers[i].height as i64 {
                    return Err(CoreError::OutOfBounds);
                }
                assert(self.layers[i as int]@ == self@.layers[i as int]);
                let r = self.layers[i].set_pixel(lx as u32, ly as u32, c);
                assert(self@.layers[i as int] == self.layers[i as int]@);
                assert forall|k: int| 0 <= k < self@.layers.len() implies (#[trigger] self@.layers[k]).wf() by {
                    if k != i {
                        assert(self@.layers[k] == old(self)@.layers[k]);
                    }
                }
                r
            },
        }
    }

    /// The composited colour at canvas point `(x, y)`, read from the composite
    /// buffer; transparent off the canvas or past the end of the buffer.
    pub fn get_composite_pixel(&self, x: u32, y: u32) -> (c: Color)
        ensures
            c == composite_pixel(self@, x as int, y as int),
    {
        if x >= self.canvas_width || y >= self.canvas_height {
            return Color::transparent();
        }
        proof {
            lemma_mul_u32_bound(y, self.canvas_width);
        }
        let idx = ((y as u128) * (self.canvas_width as u128) + (x as u128)) * 4;
        if idx + 4 > self.composite_cache.len() as u128 {
            return Color::transparent();
        }
        let i = idx as usize;
        Color::new(
            self.composite_cache[i],
            self.composite_cache[i + 1],
            self.composite_cache[i + 2],
            self.composite_cache[i + 3],
        )
    }
}

pub proof fn lemma_mul_u32_bound(a: u32, b: u32)
    ensures
        (a as int) * (b as int) <= 0xFFFF_FFFE_0000_0001,
        0 <= (a as int) * (b as int),
{
    assert((a as int) * (b as int) <= 0xFFFF_FFFFint * 0xFFFF_FFFFint) by (nonlinear_arith)
        requires
            a <= 0xFFFF_FFFF,
            b <= 0xFFFF_FFFF,
    ;
    assert(0 <= (a as int) * (b as int)) by (nonlinear_arith);
}

/// The store after removing the first layer carrying `id`.
pub open spec fn remove_layer_spec(s: StoreModel, id: Seq<char>) -> StoreModel {
    match s.find_layer(id) {
        Some(i) => StoreModel {
            layers: s.layers.remove(i),
            active_layer_id: if s.active_layer_id == Some(id) {
                None
            } else {
                s.active_layer_id
            },
            ..s
        },
        None => s,
    }
}

/// The colour the composite buffer holds for canvas point `(x, y)`.
pub open spec fn composite_pixel(s: StoreModel, x: int, y: int) -> Color {
    let idx = (y * s.canvas_width + x) * 4;
    if 0 <= x < s.canvas_width && 0 <= y < s.canvas_height && idx + 4 <= s.composite_cache.len() {
        color_at(s.composite_cache, idx)
    } else {
        transparent_color()
    }
}

} // verus!
