use vstd::prelude::*;
use crate::MASK_PIECE_PIXEL;
use crate::MASK_HIDDEN_BUMP;

verus! {

/// A grayscale raster holding one label byte per pixel, row major.
/// It carries the silhouette of a piece (or a composition canvas) for
/// the pixel-overlap scoring stage.
pub struct Mask {
    width: u32,
    height: u32,
    pixels: Vec<u8>,
}

impl Mask {
    /// The pixel vector holds exactly one byte per coordinate pair.
    pub closed spec fn wf(self) -> bool {
        self.pixels@.len() == (self.width as int) * (self.height as int)
    }

    pub closed spec fn w(self) -> int {
        self.width as int
    }

    pub closed spec fn h(self) -> int {
        self.height as int
    }

    /// The label stored at column `x`, row `y`.
    pub closed spec fn pix(self, x: int, y: int) -> u8 {
        self.pixels@[y * self.w() + x]
    }

    /// Every pixel lies at a distinct index of the row-major vector.
    proof fn lemma_index_in_range(self, x: int, y: int)
        requires
            self.wf(),
            0 <= x < self.w(),
            0 <= y < self.h(),
        ensures
            0 <= y * self.w() + x < self.pixels@.len(),
    {
        assert(y * self.w() + x < self.h() * self.w()) by (nonlinear_arith)
            requires
                0 <= x < self.w(),
                0 <= y < self.h(),
        ;
        assert(self.h() * self.w() == self.w() * self.h()) by (nonlinear_arith);
    }

    fn index_of(&self, x: u32, y: u32) -> (i: usize)
        requires
            self.wf(),
            x < self.width,
            y < self.height,
        ensures
            i == (y as int) * self.w() + (x as int),
            i < self.pixels@.len(),
    {
        let l = self.pixels.len();
        proof {
            self.lemma_index_in_range(x as int, y as int);
            assert(l == self.pixels@.len());
        }
        (y as usize) * (self.width as usize) + (x as usize)
    }

    /// A fresh raster of the given size, every pixel zero (the background
    /// label).
    pub fn new(width: u32, height: u32) -> (m: Mask)
        requires
            (width as int) * (height as int) <= usize::MAX,
        ensures
            m.wf(),
            m.w() == width,
            m.h() == height,
            forall|x: int, y: int|
                0 <= x < m.w() && 0 <= y < m.h() ==> m.pix(x, y) == 0u8,
    {
        let n: usize = (width as usize) * (height as usize);
        let mut pixels: Vec<u8> = Vec::new();
        let mut i: usize = 0;
        while i < n
            invariant
                i <= n,
                pixels@.len() == i,
                forall|k: int| 0 <= k < i ==> pixels@[k] == 0u8,
            decreases n - i,
        {
            pixels.push(0u8);
            i = i + 1;
        }
        let m = Mask { width, height, pixels };
        proof {
            assert forall|x: int, y: int|
                0 <= x < m.w() && 0 <= y < m.h() implies m.pix(x, y) == 0u8 by {
                m.lemma_index_in_range(x, y);
            }
        }
        m
    }

    /// Wrap an existing row-major pixel vector.
    pub fn from_vec(width: u32, height: u32, pixels: Vec<u8>) -> (m: Mask)
        requires
            pixels@.len() == (width as int) * (height as int),
        ensures
            m.wf(),
            m.w() == width,
            m.h() == height,
            forall|x: int, y: int|
                0 <= x < m.w() && 0 <= y < m.h()
                    ==> m.pix(x, y) == pixels@[y * (width as int) + x],
    {
        Mask { width, height, pixels }
    }

    /// The mathematical raster this mask denotes.
    pub open spec fn raster(self) -> Raster {
        Raster { w: self.w(), h: self.h(), at: |x: int, y: int| self.pix(x, y) }
    }

    /// Both dimensions fit the unsigned pixel coordinate range.
    pub proof fn lemma_dims(self)
        ensures
            0 <= self.w() <= u32::MAX,
            0 <= self.h() <= u32::MAX,
    {
    }

    pub fn dimensions(&self) -> (d: (u32, u32))
        ensures
            d.0 == self.w(),
            d.1 == self.h(),
    {
        (self.width, self.height)
    }

    pub fn get_pixel(&self, x: u32, y: u32) -> (p: u8)
        requires
            self.wf(),
            x < self.w(),
            y < self.h(),
        ensures
            p == self.pix(x as int, y as int),
    {
        let i = self.index_of(x, y);
        self.pixels[i]
    }

    pub fn put_pixel(&mut self, x: u32, y: u32, p: u8)
        requires
            old(self).wf(),
            x < old(self).w(),
            y < old(self).h(),
        ensures
            final(self).wf(),
            final(self).w() == old(self).w(),
            final(self).h() == old(self).h(),
            final(self).pix(x as int, y as int) == p,
            forall|i: int, j: int|
                0 <= i < old(self).w() && 0 <= j < old(self).h() && !(i == x && j == y)
                    ==> final(self).pix(i, j) == old(self).pix(i, j),
    {
        let i = self.index_of(x, y);
        self.pixels.set(i, p);
        proof {
            assert forall|i2: int, j2: int|
                0 <= i2 < self.w() && 0 <= j2 < self.h() && !(i2 == x && j2 == y)
                    implies self.pix(i2, j2) == old(self).pix(i2, j2) by {
                self.lemma_index_in_range(i2, j2);
                if j2 == y {
                    assert(i2 != x);
                } else {
                    assert(j2 * self.w() + i2 != (y as int) * self.w() + x) by (nonlinear_arith)
                        requires
                            0 <= i2 < self.w(),
                            0 <= x < self.w(),
                            0 <= j2,
                            0 <= y,
                            j2 != y,
                    ;
                }
            }
        }
    }

    /// True when every pixel label stays at or below the piece-interior
    /// label, so that two rasters can be summed without wrapping a byte.
    pub open spec fn bounded(self) -> bool {
        forall|x: int, y: int|
            0 <= x < self.w() && 0 <= y < self.h() ==> self.pix(x, y) <= MASK_PIECE_PIXEL
    }

    /// Quarter turn clockwise: the result reads its pixel at `(x, y)` from
    /// the source at `(y, h - 1 - x)`.
    pub fn rotated90(&self) -> (r: Mask)
        requires
            self.wf(),
        ensures
            r.wf(),
            r.w() == self.h(),
            r.h() == self.w(),
            forall|x: int, y: int|
                0 <= x < r.w() && 0 <= y < r.h()
                    ==> r.pix(x, y) == self.pix(y, self.h() - 1 - x),
    {
        let (w, h) = (self.width, self.height);
        let mut pixels: Vec<u8> = Vec::new();
        let mut yy: u32 = 0;
        while yy < w
            invariant
                self.wf(),
                w == self.w(),
                h == self.h(),
                yy <= w,
                pixels@.len() == (yy as int) * self.h(),
                forall|x: int, y: int|
                    0 <= x < self.h() && 0 <= y < yy
                        ==> #[trigger] pixels@[y * self.h() + x] == self.pix(y, self.h() - 1 - x),
            decreases w - yy,
        {
            let mut xx: u32 = 0;
            while xx < h
                invariant
                    self.wf(),
                    w == self.w(),
                    h == self.h(),
                    yy < w,
                    xx <= h,
                    pixels@.len() == (yy as int) * self.h() + xx,
                    forall|x: int, y: int|
                        0 <= x < self.h() && 0 <= y < yy
                            ==> #[trigger] pixels@[y * self.h() + x]
                                == self.pix(y, self.h() - 1 - x),
                    forall|x: int|
                        0 <= x < xx
                            ==> #[trigger] pixels@[(yy as int) * self.h() + x]
                                == self.pix(yy as int, self.h() - 1 - x),
                decreases h - xx,
            {
                let p = self.get_pixel(yy, h - 1 - xx);
                let ghost prev = pixels@;
                pixels.push(p);
                proof {
                    assert forall|x: int, y: int|
                        0 <= x < self.h() && 0 <= y < yy
                            implies #[trigger] pixels@[y * self.h() + x]
                                == self.pix(y, self.h() - 1 - x) by {
                        assert(0 <= y * self.h() + x < prev.len()) by (nonlinear_arith)
                            requires
                                0 <= x < self.h(),
                                0 <= y < yy as int,
                                prev.len() == (yy as int) * self.h() + (xx as int),
                                0 <= xx as int,
                        ;
                        assert(pixels@[y * self.h() + x] == prev[y * self.h() + x]);
                    }
                    assert forall|x: int|
                        0 <= x < xx + 1
                            implies #[trigger] pixels@[(yy as int) * self.h() + x]
                                == self.pix(yy as int, self.h() - 1 - x) by {
                        if x < xx {
                            assert(0 <= (yy as int) * self.h() + x < prev.len());
                            assert(pixels@[(yy as int) * self.h() + x]
                                == prev[(yy as int) * self.h() + x]);
                        } else {
                            assert((yy as int) * self.h() + x == prev.len());
                        }
                    }
                }
                xx = xx + 1;
            }
            proof {
                assert((yy as int + 1) * self.h() == (yy as int) * self.h() + self.h())
                    by (nonlinear_arith);
                assert forall|x: int, y: int|
                    0 <= x < self.h() && 0 <= y < yy + 1
                        implies #[trigger] pixels@[y * self.h() + x]
                            == self.pix(y, self.h() - 1 - x) by {
                    if y == yy {
                        assert(pixels@[(yy as int) * self.h() + x]
                            == self.pix(yy as int, self.h() - 1 - x));
                    }
                }
            }
            yy = yy + 1;
        }
        let r = Mask { width: h, height: w, pixels };
        proof {
            assert((w as int) * (h as int) == (h as int) * (w as int)) by (nonlinear_arith);
            assert forall|x: int, y: int|
                0 <= x < r.w() && 0 <= y < r.h()
                    implies r.pix(x, y) == self.pix(y, self.h() - 1 - x) by {
                r.lemma_index_in_range(x, y);
                assert(r.pix(x, y) == r.pixels@[y * r.w() + x]);
            }
        }
        r
    }

    /// Half turn: the result reads its pixel at `(x, y)` from the source at
    /// `(w - 1 - x, h - 1 - y)`.
    pub fn rotated180(&self) -> (r: Mask)
        requires
            self.wf(),
        ensures
            r.wf(),
            r.w() == self.w(),
            r.h() == self.h(),
            forall|x: int, y: int|
                0 <= x < r.w() && 0 <= y < r.h()
                    ==> r.pix(x, y) == self.pix(self.w() - 1 - x, self.h() - 1 - y),
    {
        let a = self.rotated90();
        let r = a.rotated90();
        proof {
            assert forall|x: int, y: int|
                0 <= x < r.w() && 0 <= y < r.h()
                    implies r.pix(x, y) == self.pix(self.w() - 1 - x, self.h() - 1 - y) by {
                assert(r.pix(x, y) == a.pix(y, a.h() - 1 - x));
            }
        }
        r
    }

    /// Quarter turn counter-clockwise: the result reads its pixel at
    /// `(x, y)` from the source at `(w - 1 - y, x)`.
    pub fn rotated270(&self) -> (r: Mask)
        requires
            self.wf(),
        ensures
            r.wf(),
            r.w() == self.h(),
            r.h() == self.w(),
            forall|x: int, y: int|
                0 <= x < r.w() && 0 <= y < r.h()
                    ==> r.pix(x, y) == self.pix(self.w() - 1 - y, x),
    {
        let a = self.rotated180();
        let r = a.rotated90();
        proof {
            assert forall|x: int, y: int|
                0 <= x < r.w() && 0 <= y < r.h()
                    implies r.pix(x, y) == self.pix(self.w() - 1 - y, x) by {
                assert(r.pix(x, y) == a.pix(y, a.h() - 1 - x));
            }
        }
        r
    }

    /// An exact structural copy.
    pub fn duplicate(&self) -> (r: Mask)
        ensures
            r.w() == self.w(),
            r.h() == self.h(),
            forall|x: int, y: int| r.pix(x, y) == self.pix(x, y),
            r.wf() == self.wf(),
    {
        let mut pixels: Vec<u8> = Vec::new();
        let n: usize = self.pixels.len();
        let mut i: usize = 0;
        while i < n
            invariant
                n == self.pixels@.len(),
                i <= n,
                pixels@.len() == i,
                forall|k: int| 0 <= k < i ==> pixels@[k] == self.pixels@[k],
            decreases n - i,
        {
            let p = self.pixels[i];
            pixels.push(p);
            i = i + 1;
        }
        proof {
            assert(pixels@ =~= self.pixels@);
        }
        Mask { width: self.width, height: self.height, pixels }
    }
}

/// The mathematical shadow of a raster: dimensions and a total pixel
/// function. Composition steps of the overlap scorer are specified as
/// transformations of this value.
#[verifier::ext_equal]
pub ghost struct Raster {
    pub w: int,
    pub h: int,
    pub at: spec_fn(int, int) -> u8,
}

/// Two rasters of the same size that agree on every pixel inside it.
pub open spec fn same_raster(a: Raster, b: Raster) -> bool {
    &&& a.w == b.w
    &&& a.h == b.h
    &&& forall|x: int, y: int| 0 <= x < a.w && 0 <= y < a.h ==> (#[trigger] (a.at)(x, y)) == (b.at)(x, y)
}

/// Column `x` of the raster holds a material pixel.
pub open spec fn col_has_mat(r: Raster, x: int) -> bool {
    exists|y: int| 0 <= y < r.h && is_material(#[trigger] (r.at)(x, y))
}

/// Row `y` of the raster holds a material pixel.
pub open spec fn row_has_mat(r: Raster, y: int) -> bool {
    exists|x: int| 0 <= x < r.w && is_material(#[trigger] (r.at)(x, y))
}

/// Leftmost material column at or right of `x0`; `u32::MAX` when none.
pub open spec fn mat_xmin(r: Raster, x0: int) -> int
    decreases r.w - x0,
{
    if x0 >= r.w {
        u32::MAX as int
    } else if col_has_mat(r, x0) {
        x0
    } else {
        mat_xmin(r, x0 + 1)
    }
}

/// Rightmost material column at or left of `x0`; `0` when none.
pub open spec fn mat_xmax(r: Raster, x0: int) -> int
    decreases x0 + 1,
{
    if x0 < 0 {
        0
    } else if col_has_mat(r, x0) {
        x0
    } else {
        mat_xmax(r, x0 - 1)
    }
}

/// Topmost material row at or below `y0`; `u32::MAX` when none.
pub open spec fn mat_ymin(r: Raster, y0: int) -> int
    decreases r.h - y0,
{
    if y0 >= r.h {
        u32::MAX as int
    } else if row_has_mat(r, y0) {
        y0
    } else {
        mat_ymin(r, y0 + 1)
    }
}

/// Bottom material row at or above `y0`; `0` when none.
pub open spec fn mat_ymax(r: Raster, y0: int) -> int
    decreases y0 + 1,
{
    if y0 < 0 {
        0
    } else if row_has_mat(r, y0) {
        y0
    } else {
        mat_ymax(r, y0 - 1)
    }
}

proof fn lemma_mat_xmin_of(r: Raster, x0: int, v: int)
    requires
        x0 <= v < r.w,
        col_has_mat(r, v),
        forall|x: int| x0 <= x < v ==> !col_has_mat(r, x),
    ensures
        mat_xmin(r, x0) == v,
    decreases v - x0,
{
    if x0 < v {
        lemma_mat_xmin_of(r, x0 + 1, v);
    }
}

proof fn lemma_mat_xmin_none(r: Raster, x0: int)
    requires
        forall|x: int| x0 <= x < r.w ==> !col_has_mat(r, x),
    ensures
        mat_xmin(r, x0) == u32::MAX,
    decreases r.w - x0,
{
    if x0 < r.w {
        lemma_mat_xmin_none(r, x0 + 1);
    }
}

proof fn lemma_mat_xmax_of(r: Raster, x0: int, v: int)
    requires
        0 <= v <= x0,
        col_has_mat(r, v),
        forall|x: int| v < x <= x0 ==> !col_has_mat(r, x),
    ensures
        mat_xmax(r, x0) == v,
    decreases x0 - v,
{
    if v < x0 {
        lemma_mat_xmax_of(r, x0 - 1, v);
    }
}

proof fn lemma_mat_xmax_none(r: Raster, x0: int)
    requires
        forall|x: int| 0 <= x <= x0 ==> !col_has_mat(r, x),
    ensures
        mat_xmax(r, x0) == 0,
    decreases x0 + 1,
{
    if x0 >= 0 {
        lemma_mat_xmax_none(r, x0 - 1);
    }
}

proof fn lemma_mat_ymin_of(r: Raster, y0: int, v: int)
    requires
        y0 <= v < r.h,
        row_has_mat(r, v),
        forall|y: int| y0 <= y < v ==> !row_has_mat(r, y),
    ensures
        mat_ymin(r, y0) == v,
    decreases v - y0,
{
    if y0 < v {
        lemma_mat_ymin_of(r, y0 + 1, v);
    }
}

proof fn lemma_mat_ymin_none(r: Raster, y0: int)
    requires
        forall|y: int| y0 <= y < r.h ==> !row_has_mat(r, y),
    ensures
        mat_ymin(r, y0) == u32::MAX,
    decreases r.h - y0,
{
    if y0 < r.h {
        lemma_mat_ymin_none(r, y0 + 1);
    }
}

proof fn lemma_mat_ymax_of(r: Raster, y0: int, v: int)
    requires
        0 <= v <= y0,
        row_has_mat(r, v),
        forall|y: int| v < y <= y0 ==> !row_has_mat(r, y),
    ensures
        mat_ymax(r, y0) == v,
    decreases y0 - v,
{
    if v < y0 {
        lemma_mat_ymax_of(r, y0 - 1, v);
    }
}

proof fn lemma_mat_ymax_none(r: Raster, y0: int)
    requires
        forall|y: int| 0 <= y <= y0 ==> !row_has_mat(r, y),
    ensures
        mat_ymax(r, y0) == 0,
    decreases y0 + 1,
{
    if y0 >= 0 {
        lemma_mat_ymax_none(r, y0 - 1);
    }
}

/// The four material bounds agree between rasters that agree pixelwise.
pub proof fn lemma_mat_bounds_congruence(a: Raster, b: Raster)
    requires
        same_raster(a, b),
    ensures
        mat_xmin(a, 0) == mat_xmin(b, 0),
        mat_xmax(a, a.w - 1) == mat_xmax(b, b.w - 1),
        mat_ymin(a, 0) == mat_ymin(b, 0),
        mat_ymax(a, a.h - 1) == mat_ymax(b, b.h - 1),
{
    assert forall|x: int| 0 <= x < a.w implies col_has_mat(a, x) == col_has_mat(b, x) by {
        lemma_col_mat_congruence(a, b, x);
    }
    assert forall|y: int| 0 <= y < a.h implies row_has_mat(a, y) == row_has_mat(b, y) by {
        lemma_row_mat_congruence(a, b, y);
    }
    lemma_mat_xmin_congruence(a, b, 0);
    lemma_mat_xmax_congruence(a, b, a.w - 1);
    lemma_mat_ymin_congruence(a, b, 0);
    lemma_mat_ymax_congruence(a, b, a.h - 1);
}

proof fn lemma_col_mat_congruence(a: Raster, b: Raster, x: int)
    requires
        same_raster(a, b),
        0 <= x < a.w,
    ensures
        col_has_mat(a, x) == col_has_mat(b, x),
{
    if col_has_mat(a, x) {
        let y = choose|y: int| 0 <= y < a.h && is_material(#[trigger] (a.at)(x, y));
        assert(is_material((b.at)(x, y)));
    }
    if col_has_mat(b, x) {
        let y = choose|y: int| 0 <= y < b.h && is_material(#[trigger] (b.at)(x, y));
        assert(is_material((a.at)(x, y)));
    }
}

proof fn lemma_row_mat_congruence(a: Raster, b: Raster, y: int)
    requires
        same_raster(a, b),
        0 <= y < a.h,
    ensures
        row_has_mat(a, y) == row_has_mat(b, y),
{
    if row_has_mat(a, y) {
        let x = choose|x: int| 0 <= x < a.w && is_material(#[trigger] (a.at)(x, y));
        assert(is_material((b.at)(x, y)));
    }
    if row_has_mat(b, y) {
        let x = choose|x: int| 0 <= x < b.w && is_material(#[trigger] (b.at)(x, y));
        assert(is_material((a.at)(x, y)));
    }
}

proof fn lemma_mat_xmin_congruence(a: Raster, b: Raster, x0: int)
    requires
        a.w == b.w,
        0 <= x0,
        forall|x: int| 0 <= x < a.w ==> col_has_mat(a, x) == col_has_mat(b, x),
    ensures
        mat_xmin(a, x0) == mat_xmin(b, x0),
    decreases a.w - x0,
{
    if x0 < a.w && !col_has_mat(a, x0) {
        lemma_mat_xmin_congruence(a, b, x0 + 1);
    }
}

proof fn lemma_mat_xmax_congruence(a: Raster, b: Raster, x0: int)
    requires
        x0 < a.w,
        forall|x: int| 0 <= x < a.w ==> col_has_mat(a, x) == col_has_mat(b, x),
    ensures
        mat_xmax(a, x0) == mat_xmax(b, x0),
    decreases x0 + 1,
{
    if x0 >= 0 && !col_has_mat(a, x0) {
        lemma_mat_xmax_congruence(a, b, x0 - 1);
    }
}

proof fn lemma_mat_ymin_congruence(a: Raster, b: Raster, y0: int)
    requires
        a.h == b.h,
        0 <= y0,
        forall|y: int| 0 <= y < a.h ==> row_has_mat(a, y) == row_has_mat(b, y),
    ensures
        mat_ymin(a, y0) == mat_ymin(b, y0),
    decreases a.h - y0,
{
    if y0 < a.h && !row_has_mat(a, y0) {
        lemma_mat_ymin_congruence(a, b, y0 + 1);
    }
}

proof fn lemma_mat_ymax_congruence(a: Raster, b: Raster, y0: int)
    requires
        y0 < a.h,
        forall|y: int| 0 <= y < a.h ==> row_has_mat(a, y) == row_has_mat(b, y),
    ensures
        mat_ymax(a, y0) == mat_ymax(b, y0),
    decreases y0 + 1,
{
    if y0 >= 0 && !row_has_mat(a, y0) {
        lemma_mat_ymax_congruence(a, b, y0 - 1);
    }
}

/// True of a pixel label that counts as piece material: either the visible
/// interior or a bump that the upstream pipeline blanked out.
pub open spec fn is_material(p: u8) -> bool {
    p == MASK_PIECE_PIXEL || p == MASK_HIDDEN_BUMP
}

/// True when the mask holds at least one material pixel.
pub open spec fn has_material(img: Mask) -> bool {
    exists|x: int, y: int|
        0 <= x < img.w() && 0 <= y < img.h() && is_material(img.pix(x, y))
}

/// The tightest bounds `(xmin, ymin, xmax, ymax)` over every material pixel
/// of the mask. A mask without material keeps the initial sentinel bounds
/// `(u32::MAX, u32::MAX, 0, 0)`.
pub fn extract_surrounding_rect(img: &Mask) -> (r: (u32, u32, u32, u32))
    requires
        img.wf(),
    ensures
        forall|x: int, y: int|
            0 <= x < img.w() && 0 <= y < img.h() && is_material(#[trigger] img.pix(x, y))
                ==> r.0 <= x && x <= r.2 && r.1 <= y && y <= r.3,
        !has_material(*img) ==> r == (u32::MAX, u32::MAX, 0u32, 0u32),
        has_material(*img) ==> {
            &&& exists|x: int, y: int|
                0 <= x < img.w() && 0 <= y < img.h() && is_material(#[trigger] img.pix(x, y))
                    && x == r.0
            &&& exists|x: int, y: int|
                0 <= x < img.w() && 0 <= y < img.h() && is_material(#[trigger] img.pix(x, y))
                    && x == r.2
            &&& exists|x: int, y: int|
                0 <= x < img.w() && 0 <= y < img.h() && is_material(#[trigger] img.pix(x, y))
                    && y == r.1
            &&& exists|x: int, y: int|
                0 <= x < img.w() && 0 <= y < img.h() && is_material(#[trigger] img.pix(x, y))
                    && y == r.3
        },
        r.0 == mat_xmin(img.raster(), 0),
        r.2 == mat_xmax(img.raster(), img.w() - 1),
        r.1 == mat_ymin(img.raster(), 0),
        r.3 == mat_ymax(img.raster(), img.h() - 1),
{
    let (w, h) = img.dimensions();
    let mut xmin: u32 = u32::MAX;
    let mut xmax: u32 = 0;
    let mut ymin: u32 = u32::MAX;
    let mut ymax: u32 = 0;
    let ghost mut seen: bool = false;
    let ghost mut wxmin: (int, int) = (0int, 0int);
    let ghost mut wxmax: (int, int) = (0int, 0int);
    let ghost mut wymin: (int, int) = (0int, 0int);
    let ghost mut wymax: (int, int) = (0int, 0int);
    let mut x: u32 = 0;
    while x < w
        invariant
            img.wf(),
            w == img.w(),
            h == img.h(),
            x <= w,
            forall|i: int, j: int|
                0 <= i < w && 0 <= j < h && i < x && is_material(#[trigger] img.pix(i, j))
                    ==> xmin <= i && i <= xmax && ymin <= j && j <= ymax,
            !seen ==> forall|i: int, j: int|
                0 <= i < w && 0 <= j < h && i < x ==> !is_material(#[trigger] img.pix(i, j)),
            !seen ==> xmin == u32::MAX && xmax == 0 && ymin == u32::MAX && ymax == 0,
            seen ==> in_scan(*img, x as int, 0, wxmin) && wxmin.0 == xmin,
            seen ==> in_scan(*img, x as int, 0, wxmax) && wxmax.0 == xmax,
            seen ==> in_scan(*img, x as int, 0, wymin) && wymin.1 == ymin,
            seen ==> in_scan(*img, x as int, 0, wymax) && wymax.1 == ymax,
        decreases w - x,
    {
        let mut y: u32 = 0;
        while y < h
            invariant
                img.wf(),
                w == img.w(),
                h == img.h(),
                x < w,
                y <= h,
                forall|i: int, j: int|
                    0 <= i < w && 0 <= j < h && (i < x || (i == x && j < y))
                        && is_material(#[trigger] img.pix(i, j))
                        ==> xmin <= i && i <= xmax && ymin <= j && j <= ymax,
                !seen ==> forall|i: int, j: int|
                    0 <= i < w && 0 <= j < h && (i < x || (i == x && j < y))
                        ==> !is_material(#[trigger] img.pix(i, j)),
                !seen ==> xmin == u32::MAX && xmax == 0 && ymin == u32::MAX && ymax == 0,
                seen ==> in_scan(*img, x as int, y as int, wxmin) && wxmin.0 == xmin,
                seen ==> in_scan(*img, x as int, y as int, wxmax) && wxmax.0 == xmax,
                seen ==> in_scan(*img, x as int, y as int, wymin) && wymin.1 == ymin,
                seen ==> in_scan(*img, x as int, y as int, wymax) && wymax.1 == ymax,
            decreases h - y,
        {
            let p = img.get_pixel(x, y);
            if p == MASK_PIECE_PIXEL || p == MASK_HIDDEN_BUMP {
                proof {
                    if !seen {
                        seen = true;
                        wxmin = (x as int, y as int);
                        wxmax = (x as int, y as int);
                        wymin = (x as int, y as int);
                        wymax = (x as int, y as int);
                    } else {
                        if x < xmin {
                            wxmin = (x as int, y as int);
                        }
                        if x > xmax {
                            wxmax = (x as int, y as int);
                        }
                        if y < ymin {
                            wymin = (x as int, y as int);
                        }
                        if y > ymax {
                            wymax = (x as int, y as int);
                        }
                    }
                }
                if x < xmin {
                    xmin = x;
                }
                if x > xmax {
                    xmax = x;
                }
                if y < ymin {
                    ymin = y;
                }
                if y > ymax {
                    ymax = y;
                }
            }
            y = y + 1;
        }
        x = x + 1;
    }
    proof {
        let rst = img.raster();
        if has_material(*img) {
            let (i, j) = choose|i: int, j: int|
                0 <= i < img.w() && 0 <= j < img.h() && is_material(#[trigger] img.pix(i, j));
            assert(seen);
            assert(is_material(img.pix(wxmin.0, wxmin.1)) && wxmin.0 == xmin);
            assert(is_material(img.pix(wxmax.0, wxmax.1)) && wxmax.0 == xmax);
            assert(is_material(img.pix(wymin.0, wymin.1)) && wymin.1 == ymin);
            assert(is_material(img.pix(wymax.0, wymax.1)) && wymax.1 == ymax);
        }
        if seen {
            assert(is_material((rst.at)(wxmin.0, wxmin.1)));
            assert(col_has_mat(rst, xmin as int));
            assert(is_material((rst.at)(wxmax.0, wxmax.1)));
            assert(col_has_mat(rst, xmax as int));
            assert(is_material((rst.at)(wymin.0, wymin.1)));
            assert(row_has_mat(rst, ymin as int));
            assert(is_material((rst.at)(wymax.0, wymax.1)));
            assert(row_has_mat(rst, ymax as int));
            assert forall|x2: int| 0 <= x2 < xmin implies !col_has_mat(rst, x2) by {
                if col_has_mat(rst, x2) {
                    let y2 = choose|y2: int| 0 <= y2 < rst.h && is_material(
                        #[trigger] (rst.at)(x2, y2),
                    );
                    assert(is_material(img.pix(x2, y2)));
                }
            }
            assert forall|x2: int| xmax < x2 < w implies !col_has_mat(rst, x2) by {
                if col_has_mat(rst, x2) {
                    let y2 = choose|y2: int| 0 <= y2 < rst.h && is_material(
                        #[trigger] (rst.at)(x2, y2),
                    );
                    assert(is_material(img.pix(x2, y2)));
                }
            }
            assert forall|y2: int| 0 <= y2 < ymin implies !row_has_mat(rst, y2) by {
                if row_has_mat(rst, y2) {
                    let x2 = choose|x2: int| 0 <= x2 < rst.w && is_material(
                        #[trigger] (rst.at)(x2, y2),
                    );
                    assert(is_material(img.pix(x2, y2)));
                }
            }
            assert forall|y2: int| ymax < y2 < h implies !row_has_mat(rst, y2) by {
                if row_has_mat(rst, y2) {
                    let x2 = choose|x2: int| 0 <= x2 < rst.w && is_material(
                        #[trigger] (rst.at)(x2, y2),
                    );
                    assert(is_material(img.pix(x2, y2)));
                }
            }
            lemma_mat_xmin_of(rst, 0, xmin as int);
            lemma_mat_xmax_of(rst, w as int - 1, xmax as int);
            lemma_mat_ymin_of(rst, 0, ymin as int);
            lemma_mat_ymax_of(rst, h as int - 1, ymax as int);
        } else {
            assert forall|x2: int| 0 <= x2 < rst.w implies !col_has_mat(rst, x2) by {
                if col_has_mat(rst, x2) {
                    let y2 = choose|y2: int| 0 <= y2 < rst.h && is_material(
                        #[trigger] (rst.at)(x2, y2),
                    );
                    assert(is_material(img.pix(x2, y2)));
                }
            }
            assert forall|y2: int| 0 <= y2 < rst.h implies !row_has_mat(rst, y2) by {
                if row_has_mat(rst, y2) {
                    let x2 = choose|x2: int| 0 <= x2 < rst.w && is_material(
                        #[trigger] (rst.at)(x2, y2),
                    );
                    assert(is_material(img.pix(x2, y2)));
                }
            }
            lemma_mat_xmin_none(rst, 0);
            lemma_mat_xmax_none(rst, w as int - 1);
            lemma_mat_ymin_none(rst, 0);
            lemma_mat_ymax_none(rst, h as int - 1);
        }
    }
    (xmin, ymin, xmax, ymax)
}

/// Pixel `p` is material and lies in the region that a column-major sweep
/// standing at column `x`, row `y` has already visited.
pub open spec fn in_scan(img: Mask, x: int, y: int, p: (int, int)) -> bool {
    &&& 0 <= p.0 < img.w()
    &&& 0 <= p.1 < img.h()
    &&& (p.0 < x || (p.0 == x && p.1 < y))
    &&& is_material(img.pix(p.0, p.1))
}

} // verus!
