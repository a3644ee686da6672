use vstd::prelude::*;

verus! {

/// A per-pixel selection mask over the canvas, stored row by row.
pub struct SelectionData {
    pub is_active: bool,
    pub width: u32,
    pub height: u32,
    pub mask: Vec<bool>,
}

#[verifier::ext_equal]
pub struct SelectionModel {
    pub is_active: bool,
    pub width: u32,
    pub height: u32,
    pub mask: Seq<bool>,
}

impl View for SelectionData {
    type V = SelectionModel;

    open spec fn view(&self) -> SelectionModel {
        SelectionModel {
            is_active: self.is_active,
            width: self.width,
            height: self.height,
            mask: self.mask@,
        }
    }
}

impl SelectionModel {
    pub open spec fn wf(self) -> bool {
        self.mask.len() == self.width * self.height
    }

    /// Whether the pixel `(x, y)` may be edited: everywhere while no selection is
    /// active, and otherwise exactly where the mask is set.
    pub open spec fn contains(self, x: int, y: int) -> bool {
        !self.is_active || (0 <= x < self.width && 0 <= y < self.height && self.mask[y
            * self.width + x])
    }

    /// Number of set mask entries among the first `n`.
    pub open spec fn count_prefix(self, n: int) -> nat
        decreases n,
    {
        if n <= 0 {
            0
        } else {
            self.count_prefix(n - 1) + if self.mask[n - 1] {
                1nat
            } else {
                0nat
            }
        }
    }

    pub open spec fn count(self) -> nat {
        self.count_prefix(self.mask.len() as int)
    }
}

/// `y * w + x` lies inside a `w`-by-`h` grid.
pub proof fn lemma_grid_index(x: int, y: int, w: int, h: int)
    requires
        0 <= x < w,
        0 <= y < h,
    ensures
        0 <= y * w + x < w * h,
        y * w + x < (y + 1) * w,
        y * w <= y * w + x,
{
    assert(y * w + x < w * h) by (nonlinear_arith)
        requires
            0 <= x < w,
            0 <= y < h,
    ;
    assert(0 <= y * w) by (nonlinear_arith)
        requires
            0 <= y,
            0 <= w,
    ;
    assert((y + 1) * w == y * w + w) by (nonlinear_arith);
}

/// Grid cells with different coordinates have different indices.
pub proof fn lemma_grid_index_injective(x1: int, y1: int, x2: int, y2: int, w: int)
    requires
        0 <= x1 < w,
        0 <= x2 < w,
        0 <= y1,
        0 <= y2,
        y1 * w + x1 == y2 * w + x2,
    ensures
        x1 == x2 && y1 == y2,
{
    if y1 < y2 {
        assert((y1 + 1) * w <= y2 * w) by (nonlinear_arith)
            requires
                y1 < y2,
                0 <= w,
        ;
        assert((y1 + 1) * w == y1 * w + w) by (nonlinear_arith);
    } else if y2 < y1 {
        assert((y2 + 1) * w <= y1 * w) by (nonlinear_arith)
            requires
                y2 < y1,
                0 <= w,
        ;
        assert((y2 + 1) * w == y2 * w + w) by (nonlinear_arith);
    }
}

impl Clone for SelectionData {
    fn clone(&self) -> (r: Self)
        ensures
            r@ == self@,
    {
        let mask = self.mask.clone();
        assert(mask@ =~= self.mask@);
        SelectionData { is_active: self.is_active, width: self.width, height: self.height, mask }
    }
}

impl SelectionData {
    /// An inactive, empty selection over a `width` by `height` canvas.
    pub fn new(width: u32, height: u32) -> (s: SelectionData)
        requires
            width * height <= usize::MAX,
        ensures
            s@.wf(),
            !s@.is_active,
            s@.width == width,
            s@.height == height,
            forall|i: int| 0 <= i < s@.mask.len() ==> !(#[trigger] s@.mask[i]),
    {
        let n = (width as usize) * (height as usize);
        SelectionData { is_active: false, width, height, mask: vec![false; n] }
    }

    pub fn contains(&self, x: u32, y: u32) -> (r: bool)
        requires
            self@.wf(),
        ensures
            r == self@.contains(x as int, y as int),
    {
        if !self.is_active {
            return true;
        }
        if x >= self.width || y >= self.height {
            return false;
        }
        proof {
            lemma_grid_index(x as int, y as int, self.width as int, self.height as int);
            assert(y * self.width + x < self.mask.len());
        }
        let idx = (y as usize) * (self.width as usize) + (x as usize);
        self.mask[idx]
    }

    /// Whether both selections hold the same state.
    pub fn same_as(&self, other: &SelectionData) -> (r: bool)
        ensures
            r == (self@ == other@),
    {
        if self.is_active != other.is_active || self.width != other.width || self.height
            != other.height {
            return false;
        }
        let eq = self.mask == other.mask;
        if eq {
            assert(self.mask@ =~= other.mask@);
        }
        eq
    }

    /// Number of set mask entries.
    pub fn count(&self) -> (n: usize)
        ensures
            n == self@.count(),
    {
        let len = self.mask.len();
        let mut n: usize = 0;
        for i in 0..len
            invariant
                len == self.mask.len(),
                n == self@.count_prefix(i as int),
                n <= i,
        {
            if self.mask[i] {
                n = n + 1;
            }
        }
        n
    }

    /// Deselects everything.
    pub fn clear(&mut self)
        requires
            old(self)@.wf(),
        ensures
            final(self)@.wf(),
            !final(self)@.is_active,
            final(self)@.width == old(self)@.width,
            final(self)@.height == old(self)@.height,
            forall|i: int| 0 <= i < final(self)@.mask.len() ==> !(#[trigger] final(self)@.mask[i]),
    {
        let n = self.mask.len();
        self.is_active = false;
        for i in 0..n
            invariant
                n == self.mask.len(),
                self.width == old(self).width,
                self.height == old(self).height,
                self@.wf(),
                !self.is_active,
                forall|k: int| 0 <= k < i ==> !(#[trigger] self.mask@[k]),
        {
            self.mask[i] = false;
        }
    }

    /// Selects exactly the pixels of the rectangle at `(x, y)` of size `w` by `h`
    /// that lie on the canvas.
    pub fn set_rect(&mut self, x: u32, y: u32, w: u32, h: u32)
        requires
            old(self)@.wf(),
        ensures
            final(self)@.wf(),
            final(self)@.is_active,
            final(self)@.width == old(self)@.width,
            final(self)@.height == old(self)@.height,
            forall|px: int, py: int|
                0 <= px < old(self)@.width && 0 <= py < old(self)@.height ==> #[trigger] final(self)@.mask[py * old(self)@.width + px]
                    == (x <= px < x + w && y <= py < y + h),
    {
        let sw = self.width;
        let sh = self.height;
        self.is_active = true;
        for py in 0..sh
            invariant
                sw == self.width,
                sh == self.height,
                self@.wf(),
                self.is_active,
                forall|qx: int, qy: int|
                    0 <= qx < sw && 0 <= qy < py ==> #[trigger] self@.mask[qy * sw + qx] == (x <= qx
                        < x + w && y <= qy < y + h),
        {
            for px in 0..sw
                invariant
                    sw == self.width,
                    sh == self.height,
                    py < sh,
                    self@.wf(),
                    self.is_active,
                    forall|qx: int, qy: int|
                        0 <= qx < sw && 0 <= qy < py ==> #[trigger] self@.mask[qy * sw + qx] == (x
                            <= qx < x + w && y <= qy < y + h),
                    forall|qx: int|
                        0 <= qx < px ==> #[trigger] self@.mask[py * sw + qx] == (x <= qx < x + w
                            && y <= py < y + h),
            {
                proof {
                    lemma_grid_index(px as int, py as int, sw as int, sh as int);
                    assert(py * sw + px < self.mask.len());
                }
                let idx = (py as usize) * (sw as usize) + (px as usize);
                let inside = x <= px && (px as u64) < (x as u64) + (w as u64) && y <= py && (py as u64)
                    < (y as u64) + (h as u64);
                let ghost before = self@.mask;
                self.mask[idx] = inside;
                assert forall|qx: int, qy: int|
                    0 <= qx < sw && 0 <= qy < py implies #[trigger] self@.mask[qy * sw + qx] == (x
                        <= qx < x + w && y <= qy < y + h) by {
                    lemma_grid_index(qx, qy, sw as int, sh as int);
                    if qy * sw + qx == idx {
                        lemma_grid_index_injective(qx, qy, px as int, py as int, sw as int);
                    }
                }
                assert forall|qx: int|
                    0 <= qx < px + 1 implies #[trigger] self@.mask[py * sw + qx] == (x <= qx < x + w
                        && y <= py < y + h) by {
                    lemma_grid_index(qx, py as int, sw as int, sh as int);
                    if qx != px {
                        if py * sw + qx == idx {
                            lemma_grid_index_injective(qx, py as int, px as int, py as int, sw as int);
                        }
                    }
                }
            }
        }
    }
}

} // verus!
