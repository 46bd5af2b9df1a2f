use vstd::prelude::*;
use crate::mask::Mask;
use crate::mask::Raster;
use crate::mask::same_raster;
use crate::mask::extract_surrounding_rect;
use crate::mask::mat_xmin;
use crate::mask::mat_xmax;
use crate::mask::mat_ymin;
use crate::mask::mat_ymax;
use crate::piece::Piece;
use crate::piece::PieceFace;
use crate::piece::PieceSideType;
use crate::piece::PieceVec;
use crate::piece::PieceMatch;
use crate::piece::PieceMatchVec;
use crate::piece::face_within;
use crate::MASK_BACKGROUND;
use crate::MASK_PIECE_PIXEL;
use crate::MASK_IGNORE_SUPERP;
use crate::MATCH_MASK_OFFET;
use crate::MATCH_MASK_OFFSET_STEP;

verus! {

/// Largest coordinate magnitude the face arithmetic is specified for; wide
/// enough for any pixel coordinate and narrow enough that sums of a few
/// coordinates never leave `i64`.
pub const COORD_BOUND: i64 = 0x1_0000_0000;

/// Every coordinate of the face lies within the signed working range.
pub open spec fn face_bounded(f: PieceFace) -> bool {
    &&& -COORD_BOUND <= f.top.0 <= COORD_BOUND && -COORD_BOUND <= f.top.1 <= COORD_BOUND
    &&& -COORD_BOUND <= f.middle.0 <= COORD_BOUND && -COORD_BOUND <= f.middle.1 <= COORD_BOUND
    &&& -COORD_BOUND <= f.bottom.0 <= COORD_BOUND && -COORD_BOUND <= f.bottom.1 <= COORD_BOUND
}

/// The face translated by `(dx, dy)`.
pub open spec fn spec_move_face(face: PieceFace, dx: int, dy: int) -> PieceFace {
    PieceFace {
        top: ((face.top.0 + dx) as i64, (face.top.1 + dy) as i64),
        middle: ((face.middle.0 + dx) as i64, (face.middle.1 + dy) as i64),
        bottom: ((face.bottom.0 + dx) as i64, (face.bottom.1 + dy) as i64),
        mode: face.mode,
    }
}

/// Translate all three points of a face by the same offset.
pub fn move_face(face: &PieceFace, dx: i64, dy: i64) -> (r: PieceFace)
    requires
        face_bounded(*face),
        -COORD_BOUND <= dx <= COORD_BOUND,
        -COORD_BOUND <= dy <= COORD_BOUND,
    ensures
        r == spec_move_face(*face, dx as int, dy as int),
{
    PieceFace {
        top: (face.top.0 + dx, face.top.1 + dy),
        middle: (face.middle.0 + dx, face.middle.1 + dy),
        bottom: (face.bottom.0 + dx, face.bottom.1 + dy),
        mode: face.mode,
    }
}

/// How many quarter turns bring side `face` onto side `want_on`.
pub open spec fn spec_rotation_of(face: int, want_on: int) -> int {
    ((want_on + 4) - face) % 4
}

/// Number of quarter turns that bring side index `face` onto side index
/// `want_on`.
pub fn cacl_rotate(face: usize, want_on: usize) -> (r: usize)
    requires
        face < 4,
        want_on < 4,
    ensures
        r == spec_rotation_of(face as int, want_on as int),
        r < 4,
{
    ((want_on + 4) - face) % 4
}

/// One point of a `w` by `h` frame after `rot` quarter turns clockwise of
/// the frame, in the coordinates of the turned frame.
pub open spec fn quarter_point(p: (i64, i64), w: int, h: int, rot: int) -> (int, int) {
    if rot == 0 {
        (p.0 as int, p.1 as int)
    } else if rot == 1 {
        (h - p.1, p.0 as int)
    } else if rot == 2 {
        (w - p.0, h - p.1)
    } else {
        (p.1 as int, w - p.0)
    }
}

/// The face as `rotate_face_center` prepares it: every point turned with
/// the frame by `rot` quarter turns, and, when the destination side is
/// vertical, the two corner points swapped so that `top` is the upper one.
pub open spec fn spec_rotate_face_center(
    size: (int, int),
    face: PieceFace,
    rot: int,
    want_on: int,
) -> PieceFace {
    let w = size.0;
    let h = size.1;
    let t = quarter_point(face.top, w, h, rot);
    let m = quarter_point(face.middle, w, h, rot);
    let b = quarter_point(face.bottom, w, h, rot);
    let raw = PieceFace {
        top: (t.0 as i64, t.1 as i64),
        middle: (m.0 as i64, m.1 as i64),
        bottom: (b.0 as i64, b.1 as i64),
        mode: face.mode,
    };
    if raw.top.1 > raw.bottom.1 && (want_on == 1 || want_on == 3) {
        PieceFace { top: raw.bottom, middle: raw.middle, bottom: raw.top, mode: raw.mode }
    } else {
        raw
    }
}

/// Turn a face of a `piece_size` frame so that side `faceid` comes to lie
/// on side `want_on`, keeping `top` above `bottom` for vertical sides.
pub fn rotate_face_center(
    piece_size: (u32, u32),
    face: &PieceFace,
    faceid: usize,
    want_on: usize,
) -> (r: PieceFace)
    requires
        faceid < 4,
        want_on < 4,
        face_within(*face, piece_size.0 as int, piece_size.1 as int),
    ensures
        r == spec_rotate_face_center(
            (piece_size.0 as int, piece_size.1 as int),
            *face,
            spec_rotation_of(faceid as int, want_on as int),
            want_on as int,
        ),
        face_within(
            r,
            if spec_rotation_of(faceid as int, want_on as int) == 1
                || spec_rotation_of(faceid as int, want_on as int) == 3 {
                piece_size.1 as int
            } else {
                piece_size.0 as int
            },
            if spec_rotation_of(faceid as int, want_on as int) == 1
                || spec_rotation_of(faceid as int, want_on as int) == 3 {
                piece_size.0 as int
            } else {
                piece_size.1 as int
            },
        ),
{
    let (w, h) = piece_size;
    let rot = cacl_rotate(faceid, want_on);
    let wi = w as i64;
    let hi = h as i64;
    let top: (i64, i64);
    let middle: (i64, i64);
    let bottom: (i64, i64);
    if rot == 0 {
        top = face.top;
        middle = face.middle;
        bottom = face.bottom;
    } else if rot == 1 {
        top = (hi - face.top.1, face.top.0);
        middle = (hi - face.middle.1, face.middle.0);
        bottom = (hi - face.bottom.1, face.bottom.0);
    } else if rot == 2 {
        top = (wi - face.top.0, hi - face.top.1);
        middle = (wi - face.middle.0, hi - face.middle.1);
        bottom = (wi - face.bottom.0, hi - face.bottom.1);
    } else {
        top = (face.top.1, wi - face.top.0);
        middle = (face.middle.1, wi - face.middle.0);
        bottom = (face.bottom.1, wi - face.bottom.0);
    }
    let mut ret = PieceFace { top, middle, bottom, mode: face.mode };
    if ret.top.1 > ret.bottom.1 && (want_on == 1 || want_on == 3) {
        let t = ret.top;
        ret.top = ret.bottom;
        ret.bottom = t;
    }
    ret
}

/// A signed value clamped into the unsigned pixel range, the way a float
/// to unsigned cast saturates.
pub open spec fn clamp_u32(v: int) -> u32 {
    if v < 0 {
        0u32
    } else if v > u32::MAX {
        u32::MAX
    } else {
        v as u32
    }
}

/// Where the second piece's canvas lands so that its face's reference
/// corner meets the first piece's, nudged by the sweep offset.
pub fn calc_right_mask_pos(
    left_face: &PieceFace,
    right_face: &PieceFace,
    left_pos: (u32, u32),
    offset: (i32, i32),
) -> (r: (u32, u32))
    requires
        face_bounded(*left_face),
        face_bounded(*right_face),
    ensures
        r.0 == clamp_u32(offset.0 + left_pos.0 + left_face.top.0 - right_face.top.0),
        r.1 == clamp_u32(offset.1 + left_pos.1 + left_face.top.1 - right_face.top.1),
{
    let x: i64 = offset.0 as i64 + left_pos.0 as i64 + left_face.top.0 - right_face.top.0;
    let y: i64 = offset.1 as i64 + left_pos.1 as i64 + left_face.top.1 - right_face.top.1;
    let rx: u32 = if x < 0 {
        0
    } else if x > u32::MAX as i64 {
        u32::MAX
    } else {
        x as u32
    };
    let ry: u32 = if y < 0 {
        0
    } else if y > u32::MAX as i64 {
        u32::MAX
    } else {
        y as u32
    };
    (rx, ry)
}

/// A rectangle shifted by a position offset.
pub fn move_rect(rect: (u32, u32, u32, u32), pos: (u32, u32)) -> (r: (u32, u32, u32, u32))
    requires
        rect.0 + pos.0 <= u32::MAX,
        rect.1 + pos.1 <= u32::MAX,
        rect.2 + pos.0 <= u32::MAX,
        rect.3 + pos.1 <= u32::MAX,
    ensures
        r == (
            (rect.0 + pos.0) as u32,
            (rect.1 + pos.1) as u32,
            (rect.2 + pos.0) as u32,
            (rect.3 + pos.1) as u32,
        ),
{
    (rect.0 + pos.0, rect.1 + pos.1, rect.2 + pos.0, rect.3 + pos.1)
}

/// Width of a mask after `rot` quarter turns.
pub open spec fn rot_w(m: Mask, rot: int) -> int {
    if rot == 1 || rot == 3 {
        m.h()
    } else {
        m.w()
    }
}

/// Height of a mask after `rot` quarter turns.
pub open spec fn rot_h(m: Mask, rot: int) -> int {
    if rot == 1 || rot == 3 {
        m.w()
    } else {
        m.h()
    }
}

/// The pixel a mask shows at `(x, y)` after `rot` quarter turns clockwise.
pub open spec fn rot_pix(m: Mask, rot: int, x: int, y: int) -> u8 {
    if rot == 0 {
        m.pix(x, y)
    } else if rot == 1 {
        m.pix(y, m.h() - 1 - x)
    } else if rot == 2 {
        m.pix(m.w() - 1 - x, m.h() - 1 - y)
    } else {
        m.pix(m.w() - 1 - y, x)
    }
}

/// The mask turned so that its side `face` comes to lie on side `want_on`.
pub fn get_rotated_mask(img: &Mask, face: usize, want_on: usize) -> (r: Mask)
    requires
        img.wf(),
        face < 4,
        want_on < 4,
    ensures
        r.wf(),
        r.w() == rot_w(*img, spec_rotation_of(face as int, want_on as int)),
        r.h() == rot_h(*img, spec_rotation_of(face as int, want_on as int)),
        forall|x: int, y: int|
            0 <= x < r.w() && 0 <= y < r.h()
                ==> r.pix(x, y) == rot_pix(*img, spec_rotation_of(face as int, want_on as int), x, y),
{
    let rot = cacl_rotate(face, want_on);
    if rot == 0 {
        img.duplicate()
    } else if rot == 1 {
        img.rotated90()
    } else if rot == 2 {
        img.rotated180()
    } else {
        img.rotated270()
    }
}

/// Paste a mask onto the canvas at `pos` by pixelwise addition; pixels of
/// the canvas outside the pasted window keep their value.
pub fn add_mask(out: &mut Mask, mask: &Mask, pos: (u32, u32))
    requires
        old(out).wf(),
        mask.wf(),
        pos.0 + mask.w() <= old(out).w(),
        pos.1 + mask.h() <= old(out).h(),
        forall|x: int, y: int|
            0 <= x < mask.w() && 0 <= y < mask.h()
                ==> mask.pix(x, y) + old(out).pix(pos.0 + x, pos.1 + y) <= u8::MAX,
    ensures
        final(out).wf(),
        final(out).w() == old(out).w(),
        final(out).h() == old(out).h(),
        forall|x: int, y: int|
            0 <= x < mask.w() && 0 <= y < mask.h()
                ==> final(out).pix(pos.0 + x, pos.1 + y)
                    == old(out).pix(pos.0 + x, pos.1 + y) + mask.pix(x, y),
        forall|x: int, y: int|
            0 <= x < old(out).w() && 0 <= y < old(out).h()
                && !(pos.0 <= x < pos.0 + mask.w() && pos.1 <= y < pos.1 + mask.h())
                ==> final(out).pix(x, y) == old(out).pix(x, y),
{
    let (w, h) = mask.dimensions();
    let (x0, y0) = pos;
    proof {
        old(out).lemma_dims();
    }
    let mut y: u32 = 0;
    while y < h
        invariant
            out.wf(),
            out.w() <= u32::MAX,
            out.h() <= u32::MAX,
            mask.wf(),
            w == mask.w(),
            h == mask.h(),
            x0 == pos.0,
            y0 == pos.1,
            out.w() == old(out).w(),
            out.h() == old(out).h(),
            x0 + w <= out.w(),
            y0 + h <= out.h(),
            y <= h,
            forall|i: int, j: int|
                0 <= i < w && 0 <= j < h
                    ==> mask.pix(i, j) + old(out).pix(x0 + i, y0 + j) <= u8::MAX,
            forall|i: int, j: int|
                0 <= i < w && 0 <= j < y
                    ==> out.pix(x0 + i, y0 + j) == old(out).pix(x0 + i, y0 + j) + mask.pix(i, j),
            forall|i: int, j: int|
                0 <= i < out.w() && 0 <= j < out.h()
                    && !(x0 <= i < x0 + w && y0 <= j < y0 + y)
                    ==> out.pix(i, j) == old(out).pix(i, j),
        decreases h - y,
    {
        let mut x: u32 = 0;
        while x < w
            invariant
                out.wf(),
                out.w() <= u32::MAX,
                out.h() <= u32::MAX,
                mask.wf(),
                w == mask.w(),
                h == mask.h(),
                x0 == pos.0,
                y0 == pos.1,
                out.w() == old(out).w(),
                out.h() == old(out).h(),
                x0 + w <= out.w(),
                y0 + h <= out.h(),
                y < h,
                x <= w,
                forall|i: int, j: int|
                    0 <= i < w && 0 <= j < h
                        ==> mask.pix(i, j) + old(out).pix(x0 + i, y0 + j) <= u8::MAX,
                forall|i: int, j: int|
                    0 <= i < w && 0 <= j < y
                        ==> out.pix(x0 + i, y0 + j)
                            == old(out).pix(x0 + i, y0 + j) + mask.pix(i, j),
                forall|i: int|
                    0 <= i < x
                        ==> out.pix(x0 + i, y0 + y) == old(out).pix(x0 + i, y0 + y) + mask.pix(
                            i,
                            y as int,
                        ),
                forall|i: int, j: int|
                    0 <= i < out.w() && 0 <= j < out.h()
                        && !(x0 <= i < x0 + w && y0 <= j < y0 + y)
                        && !(x0 <= i < x0 + x && j == y0 + y)
                        ==> out.pix(i, j) == old(out).pix(i, j),
            decreases w - x,
        {
            let m = mask.get_pixel(x, y);
            let o = out.get_pixel(x0 + x, y0 + y);
            out.put_pixel(x0 + x, y0 + y, m + o);
            x = x + 1;
        }
        y = y + 1;
    }
}

/// A pixel the overlap score counts against a candidate seam: either both
/// rasters left it uncovered (a gap) or both covered it (a collision).
pub open spec fn is_superp_pixel(p: u8) -> bool {
    p == MASK_BACKGROUND || p == 2 * MASK_PIECE_PIXEL
}

/// Number of counted pixels in row `y` between columns `x0` and `x1`.
pub open spec fn count_superp_row(img: Mask, y: int, x0: int, x1: int) -> int
    decreases x1 - x0,
{
    if x0 >= x1 {
        0
    } else {
        count_superp_row(img, y, x0, x1 - 1) + if is_superp_pixel(img.pix(x1 - 1, y)) {
            1int
        } else {
            0int
        }
    }
}

/// Number of counted pixels in the half-open rectangle.
pub open spec fn count_superp_rect(img: Mask, x0: int, y0: int, x1: int, y1: int) -> int
    decreases y1 - y0,
{
    if y0 >= y1 {
        0
    } else {
        count_superp_rect(img, x0, y0, x1, y1 - 1) + count_superp_row(img, y1 - 1, x0, x1)
    }
}

/// A row's count stays between zero and the row's width.
pub proof fn lemma_count_row_bound(img: Mask, y: int, x0: int, x1: int)
    ensures
        0 <= count_superp_row(img, y, x0, x1),
        count_superp_row(img, y, x0, x1) <= if x1 >= x0 { x1 - x0 } else { 0 },
    decreases x1 - x0,
{
    if x0 < x1 {
        lemma_count_row_bound(img, y, x0, x1 - 1);
    }
}

/// A rectangle's count stays between zero and its area.
pub proof fn lemma_count_rect_bound(img: Mask, x0: int, y0: int, x1: int, y1: int)
    ensures
        0 <= count_superp_rect(img, x0, y0, x1, y1),
        count_superp_rect(img, x0, y0, x1, y1) <= if x1 >= x0 && y1 >= y0 {
            (x1 - x0) * (y1 - y0)
        } else {
            0
        },
    decreases y1 - y0,
{
    if y0 < y1 {
        lemma_count_rect_bound(img, x0, y0, x1, y1 - 1);
        lemma_count_row_bound(img, y1 - 1, x0, x1);
        if x1 >= x0 {
            assert((x1 - x0) * (y1 - 1 - y0) + (x1 - x0) == (x1 - x0) * (y1 - y0))
                by (nonlinear_arith);
        }
    }
}

/// Count, inside the given rectangle of the composed canvas, the pixels
/// that witness a gap or a collision between the two pasted pieces.
pub fn count_superp(img: &Mask, rect: (u32, u32, u32, u32)) -> (r: u32)
    requires
        img.wf(),
        rect.2 <= img.w(),
        rect.3 <= img.h(),
        count_superp_rect(*img, rect.0 as int, rect.1 as int, rect.2 as int, rect.3 as int)
            <= u32::MAX,
    ensures
        r == count_superp_rect(*img, rect.0 as int, rect.1 as int, rect.2 as int, rect.3 as int),
{
    let (x0, y0, x1, y1) = rect;
    let mut cnt: u32 = 0;
    let mut y: u32 = y0;
    if y1 <= y0 || x1 <= x0 {
        proof {
            if x1 <= x0 {
                lemma_count_rect_zero_width(*img, x0 as int, y0 as int, x1 as int, y1 as int);
            }
        }
        if y1 <= y0 {
            return 0;
        }
        if x1 <= x0 {
            return 0;
        }
    }
    while y < y1
        invariant
            img.wf(),
            x1 <= img.w(),
            y1 <= img.h(),
            y0 <= y <= y1,
            x0 < x1,
            count_superp_rect(*img, x0 as int, y0 as int, x1 as int, y1 as int) <= u32::MAX,
            cnt == count_superp_rect(*img, x0 as int, y0 as int, x1 as int, y as int),
        decreases y1 - y,
    {
        let mut x: u32 = x0;
        while x < x1
            invariant
                img.wf(),
                x1 <= img.w(),
                y1 <= img.h(),
                y0 <= y < y1,
                x0 <= x <= x1,
                count_superp_rect(*img, x0 as int, y0 as int, x1 as int, y1 as int) <= u32::MAX,
                cnt == count_superp_rect(*img, x0 as int, y0 as int, x1 as int, y as int)
                    + count_superp_row(*img, y as int, x0 as int, x as int),
            decreases x1 - x,
        {
            proof {
                lemma_count_rect_bound(*img, x0 as int, y0 as int, x1 as int, y as int);
                lemma_count_row_bound(*img, y as int, x0 as int, x as int + 1);
                lemma_count_prefix_le(*img, x0 as int, y0 as int, x1 as int, y as int, y1 as int);
                lemma_count_row_rect_le(
                    *img,
                    x0 as int,
                    y0 as int,
                    x1 as int,
                    y as int,
                    y1 as int,
                    x as int + 1,
                );
            }
            let p = img.get_pixel(x, y);
            if p == MASK_BACKGROUND || p == 2 * MASK_PIECE_PIXEL {
                cnt = cnt + 1;
            }
            x = x + 1;
        }
        y = y + 1;
    }
    cnt
}

/// A rectangle with no width counts nothing, whatever its height.
proof fn lemma_count_rect_zero_width(img: Mask, x0: int, y0: int, x1: int, y1: int)
    requires
        x1 <= x0,
    ensures
        count_superp_rect(img, x0, y0, x1, y1) == 0,
    decreases y1 - y0,
{
    if y0 < y1 {
        lemma_count_rect_zero_width(img, x0, y0, x1, y1 - 1);
    }
}

/// Counts over a lower band never exceed the count over the whole
/// rectangle.
proof fn lemma_count_prefix_le(img: Mask, x0: int, y0: int, x1: int, ymid: int, y1: int)
    requires
        y0 <= ymid <= y1,
    ensures
        count_superp_rect(img, x0, y0, x1, ymid) <= count_superp_rect(img, x0, y0, x1, y1),
    decreases y1 - ymid,
{
    if ymid < y1 {
        lemma_count_prefix_le(img, x0, y0, x1, ymid, y1 - 1);
        lemma_count_row_bound(img, y1 - 1, x0, x1);
    }
}

/// A band plus part of its next row never exceeds the whole rectangle's
/// count.
proof fn lemma_count_row_rect_le(
    img: Mask,
    x0: int,
    y0: int,
    x1: int,
    ymid: int,
    y1: int,
    xpart: int,
)
    requires
        y0 <= ymid < y1,
        x0 <= xpart <= x1,
    ensures
        count_superp_rect(img, x0, y0, x1, ymid) + count_superp_row(img, ymid, x0, xpart)
            <= count_superp_rect(img, x0, y0, x1, y1),
{
    lemma_count_row_split(img, ymid, x0, xpart, x1);
    lemma_count_row_bound(img, ymid, xpart, x1);
    lemma_count_prefix_le(img, x0, y0, x1, ymid + 1, y1);
}

/// Splitting a row at `xm` splits its count.
proof fn lemma_count_row_split(img: Mask, y: int, x0: int, xm: int, x1: int)
    requires
        x0 <= xm <= x1,
    ensures
        count_superp_row(img, y, x0, x1) == count_superp_row(img, y, x0, xm)
            + count_superp_row(img, y, xm, x1),
    decreases x1 - xm,
{
    if xm < x1 {
        lemma_count_row_split(img, y, x0, xm, x1 - 1);
    }
}


/// `y` lies in the leading background run of column `x` of the raster.
pub open spec fn lead_bg_r(r: Raster, x: int, y: int) -> bool {
    forall|y2: int| 0 <= y2 <= y ==> (#[trigger] (r.at)(x, y2)) == MASK_BACKGROUND
}

/// `y` lies in the trailing background run of column `x` of the raster.
pub open spec fn trail_bg_r(r: Raster, x: int, y: int) -> bool {
    forall|y2: int| y <= y2 < r.h ==> (#[trigger] (r.at)(x, y2)) == MASK_BACKGROUND
}

/// The raster after the seam-side background runs are marked to be
/// ignored: in every column left of the face's two reference columns, the
/// leading (respectively trailing) background run becomes the ignore
/// label.
pub open spec fn hidden_r(r: Raster, face: PieceFace) -> Raster {
    Raster {
        w: r.w,
        h: r.h,
        at: |x: int, y: int|
            if (x < face.top.0 && lead_bg_r(r, x, y)) || (x < face.bottom.0 && trail_bg_r(r, x, y)) {
                MASK_IGNORE_SUPERP
            } else {
                (r.at)(x, y)
            },
    }
}

/// Blank the outside background of the piece on the seam side, so that
/// only the seam region of the silhouette weighs in the overlap count.
pub fn hide_external_black_pixel(mask: &mut Mask, face: &PieceFace)
    requires
        old(mask).wf(),
        0 <= face.top.0,
        0 <= face.bottom.0,
    ensures
        final(mask).wf(),
        final(mask).w() == old(mask).w(),
        final(mask).h() == old(mask).h(),
        forall|x: int, y: int|
            0 <= x < old(mask).w() && 0 <= y < old(mask).h()
                ==> final(mask).pix(x, y) == (hidden_r(old(mask).raster(), *face).at)(x, y),
{
    let (w, h) = mask.dimensions();
    let xm_t: u32 = if face.top.0 >= w as i64 {
        w
    } else {
        face.top.0 as u32
    };
    let xm_b: u32 = if face.bottom.0 >= w as i64 {
        w
    } else {
        face.bottom.0 as u32
    };
    let ghost orig = *mask;
    let mut x: u32 = 0;
    while x < w
        invariant
            mask.wf(),
            mask.w() == orig.w(),
            mask.h() == orig.h(),
            orig.wf(),
            orig == *old(mask),
            w == orig.w(),
            h == orig.h(),
            x <= w,
            xm_t as int == if face.top.0 >= w as i64 { w as int } else { face.top.0 as int },
            xm_b as int == if face.bottom.0 >= w as i64 { w as int } else { face.bottom.0 as int },
            0 <= face.top.0,
            0 <= face.bottom.0,
            forall|i: int, j: int|
                x <= i < w && 0 <= j < h ==> mask.pix(i, j) == orig.pix(i, j),
            forall|i: int, j: int|
                0 <= i < x && 0 <= j < h
                    ==> mask.pix(i, j) == (hidden_r(orig.raster(), *face).at)(i, j),
        decreases w - x,
    {
        // find the end of the leading background run of this column
        let mut e: u32 = 0;
        while e < h
            invariant
                mask.wf(),
                w == mask.w(),
                h == mask.h(),
                x < w,
                e <= h,
                forall|j: int| 0 <= j < e ==> mask.pix(x as int, j) == MASK_BACKGROUND,
            ensures
                e <= h,
                forall|j: int| 0 <= j < e ==> mask.pix(x as int, j) == MASK_BACKGROUND,
                e == h || mask.pix(x as int, e as int) != MASK_BACKGROUND,
            decreases h - e,
        {
            let p = mask.get_pixel(x, e);
            if p != MASK_BACKGROUND {
                break;
            }
            e = e + 1;
        }
        // find the start of the trailing background run of this column
        let mut rs: u32 = h;
        while rs > 0
            invariant
                mask.wf(),
                w == mask.w(),
                h == mask.h(),
                x < w,
                rs <= h,
                forall|j: int| rs <= j < h ==> mask.pix(x as int, j) == MASK_BACKGROUND,
            ensures
                rs <= h,
                forall|j: int| rs <= j < h ==> mask.pix(x as int, j) == MASK_BACKGROUND,
                rs == 0 || mask.pix(x as int, rs as int - 1) != MASK_BACKGROUND,
            decreases rs,
        {
            let p = mask.get_pixel(x, rs - 1);
            if p != MASK_BACKGROUND {
                break;
            }
            rs = rs - 1;
        }
        let ghost col_e = e as int;
        let ghost col_rs = rs as int;
        // mark the leading run
        if x < xm_t {
            let mut j: u32 = 0;
            while j < e
                invariant
                    mask.wf(),
                    w == mask.w(),
                    h == mask.h(),
                    x < w,
                    e <= h,
                    j <= e,
                    forall|j2: int| 0 <= j2 < j ==> mask.pix(x as int, j2) == MASK_IGNORE_SUPERP,
                    forall|j2: int| j <= j2 < h ==> mask.pix(x as int, j2) == orig.pix(x as int, j2),
                    forall|i: int, j2: int|
                        0 <= i < w && 0 <= j2 < h && i != x
                            ==> mask.pix(i, j2) == old_cols(i, j2, x as int, orig, *mask, *face),
                    col_sound(*mask, orig, *face, x as int, w as int, h as int),
                decreases e - j,
            {
                mask.put_pixel(x, j, MASK_IGNORE_SUPERP);
                j = j + 1;
            }
        }
        // mark the trailing run
        if x < xm_b {
            let mut j: u32 = rs;
            while j < h
                invariant
                    mask.wf(),
                    w == mask.w(),
                    h == mask.h(),
                    x < w,
                    rs <= j <= h,
                    0 <= col_e <= h,
                    forall|j2: int|
                        0 <= j2 < h && !(rs <= j2 < j) && !(x < xm_t && 0 <= j2 < col_e)
                            ==> mask.pix(x as int, j2) == orig.pix(x as int, j2),
                    x < xm_t ==> forall|j2: int|
                        0 <= j2 < col_e ==> mask.pix(x as int, j2) == MASK_IGNORE_SUPERP,
                    forall|j2: int| rs <= j2 < j ==> mask.pix(x as int, j2) == MASK_IGNORE_SUPERP,
                    forall|i: int, j2: int|
                        0 <= i < w && 0 <= j2 < h && i != x
                            ==> mask.pix(i, j2) == old_cols(i, j2, x as int, orig, *mask, *face),
                    col_sound(*mask, orig, *face, x as int, w as int, h as int),
                decreases h - j,
            {
                mask.put_pixel(x, j, MASK_IGNORE_SUPERP);
                j = j + 1;
            }
        }
        proof {
            let hid = hidden_r(orig.raster(), *face);
            assert forall|j: int| 0 <= j < h implies mask.pix(x as int, j) == (hid.at)(
                x as int,
                j,
            ) by {
                let xi = x as int;
                if j < col_e {
                    assert(lead_bg_r(orig.raster(), xi, j));
                } else {
                    assert(col_e < h ==> (orig.raster().at)(xi, col_e) != MASK_BACKGROUND);
                    assert(!lead_bg_r(orig.raster(), xi, j));
                }
                if j >= col_rs {
                    assert(trail_bg_r(orig.raster(), xi, j));
                } else {
                    assert((orig.raster().at)(xi, col_rs - 1) != MASK_BACKGROUND);
                    assert(!trail_bg_r(orig.raster(), xi, j));
                }
            }
        }
        x = x + 1;
    }
}

/// Helper naming for the untouched columns during the per-column sweep:
/// columns already processed follow the hidden formula, the rest keep
/// their original value.
pub open spec fn old_cols(i: int, j: int, x: int, orig: Mask, cur: Mask, face: PieceFace) -> u8 {
    if i < x {
        (hidden_r(orig.raster(), face).at)(i, j)
    } else {
        orig.pix(i, j)
    }
}

/// The processed columns of the sweep agree with the hidden formula and
/// the untouched ones with the original mask.
pub open spec fn col_sound(cur: Mask, orig: Mask, face: PieceFace, x: int, w: int, h: int) -> bool {
    forall|i: int, j: int|
        0 <= i < w && 0 <= j < h && i != x ==> cur.pix(i, j) == old_cols(i, j, x, orig, cur, face)
}



/// The smaller of two values.
pub open spec fn imin(a: int, b: int) -> int {
    if a <= b {
        a
    } else {
        b
    }
}

/// The larger of two values.
pub open spec fn imax(a: int, b: int) -> int {
    if a >= b {
        a
    } else {
        b
    }
}

fn umax(a: u32, b: u32) -> (r: u32)
    ensures
        r == imax(a as int, b as int),
{
    if a >= b {
        a
    } else {
        b
    }
}

/// The seam window that the overlap count inspects: the union-like box
/// between the right piece's material box and face points on one side and
/// the left piece's on the other, everything taken after moving each part
/// to its canvas position.
pub open spec fn spec_intersection(
    rl: (int, int, int, int),
    lf: PieceFace,
    pl: (int, int),
    rr: (int, int, int, int),
    rf: PieceFace,
    pr: (int, int),
) -> (int, int, int, int) {
    let xmin = imin(imin(rr.0 + pr.0, lf.top.0 + pl.0), lf.bottom.0 + pl.0);
    let xmax = imax(imax(rl.2 + pl.0, rf.top.0 + pr.0), rf.bottom.0 + pr.0);
    let ymin = imin(lf.top.1 + pl.1, rf.top.1 + pr.1);
    let ymax = imax(lf.bottom.1 + pl.1, rf.bottom.1 + pr.1);
    (xmin, ymin, xmax + 1, ymax + 1)
}

/// Compute the seam window from the two material boxes, the two faces and
/// the two canvas positions.
pub fn get_intersection(
    rect_left: (u32, u32, u32, u32),
    left_face: &PieceFace,
    pleft: (u32, u32),
    rect_right: (u32, u32, u32, u32),
    right_face: &PieceFace,
    pright: (u32, u32),
) -> (r: (u32, u32, u32, u32))
    requires
        0 <= left_face.top.0 && 0 <= left_face.top.1,
        0 <= left_face.bottom.0 && 0 <= left_face.bottom.1,
        0 <= right_face.top.0 && 0 <= right_face.top.1,
        0 <= right_face.bottom.0 && 0 <= right_face.bottom.1,
        face_bounded(*left_face),
        face_bounded(*right_face),
        rect_right.0 + pright.0 <= u32::MAX,
        rect_left.2 + pleft.0 < u32::MAX,
        left_face.top.0 + pleft.0 <= u32::MAX,
        left_face.top.1 + pleft.1 <= u32::MAX,
        left_face.bottom.0 + pleft.0 <= u32::MAX,
        left_face.bottom.1 + pleft.1 < u32::MAX,
        right_face.top.0 + pright.0 < u32::MAX,
        right_face.top.1 + pright.1 <= u32::MAX,
        right_face.bottom.0 + pright.0 < u32::MAX,
        right_face.bottom.1 + pright.1 < u32::MAX,
    ensures
        ({
            let sr = spec_intersection(
                (rect_left.0 as int, rect_left.1 as int, rect_left.2 as int, rect_left.3 as int),
                *left_face,
                (pleft.0 as int, pleft.1 as int),
                (
                    rect_right.0 as int,
                    rect_right.1 as int,
                    rect_right.2 as int,
                    rect_right.3 as int,
                ),
                *right_face,
                (pright.0 as int, pright.1 as int),
            );
            r.0 == sr.0 && r.1 == sr.1 && r.2 == sr.2 && r.3 == sr.3
        }),
{
    let lf_top_x: u32 = (left_face.top.0 + pleft.0 as i64) as u32;
    let lf_top_y: u32 = (left_face.top.1 + pleft.1 as i64) as u32;
    let lf_bot_x: u32 = (left_face.bottom.0 + pleft.0 as i64) as u32;
    let lf_bot_y: u32 = (left_face.bottom.1 + pleft.1 as i64) as u32;
    let rf_top_x: u32 = (right_face.top.0 + pright.0 as i64) as u32;
    let rf_top_y: u32 = (right_face.top.1 + pright.1 as i64) as u32;
    let rf_bot_x: u32 = (right_face.bottom.0 + pright.0 as i64) as u32;
    let rf_bot_y: u32 = (right_face.bottom.1 + pright.1 as i64) as u32;
    let rrx: u32 = rect_right.0 + pright.0;
    let rlx: u32 = rect_left.2 + pleft.0;
    let mut xmin: u32 = rrx;
    if lf_top_x < xmin {
        xmin = lf_top_x;
    }
    if lf_bot_x < xmin {
        xmin = lf_bot_x;
    }
    let mut xmax: u32 = rlx;
    if rf_top_x > xmax {
        xmax = rf_top_x;
    }
    if rf_bot_x > xmax {
        xmax = rf_bot_x;
    }
    let ymin: u32 = if lf_top_y <= rf_top_y {
        lf_top_y
    } else {
        rf_top_y
    };
    let ymax: u32 = if lf_bot_y >= rf_bot_y {
        lf_bot_y
    } else {
        rf_bot_y
    };
    (xmin, ymin, xmax + 1, ymax + 1)
}

/// The raster after `rot` quarter turns clockwise.
pub open spec fn rotated_r(r: Raster, rot: int) -> Raster {
    Raster {
        w: if rot == 1 || rot == 3 {
            r.h
        } else {
            r.w
        },
        h: if rot == 1 || rot == 3 {
            r.w
        } else {
            r.h
        },
        at: |x: int, y: int|
            if rot == 0 {
                (r.at)(x, y)
            } else if rot == 1 {
                (r.at)(y, r.h - 1 - x)
            } else if rot == 2 {
                (r.at)(r.w - 1 - x, r.h - 1 - y)
            } else {
                (r.at)(r.w - 1 - y, x)
            },
    }
}

/// Turning pixelwise-equal rasters gives pixelwise-equal rasters.
pub proof fn lemma_rotated_congruence(a: Raster, b: Raster, rot: int)
    requires
        same_raster(a, b),
        0 <= rot < 4,
    ensures
        same_raster(rotated_r(a, rot), rotated_r(b, rot)),
{
    let ra = rotated_r(a, rot);
    let rb = rotated_r(b, rot);
    assert forall|x: int, y: int|
        0 <= x < ra.w && 0 <= y < ra.h implies #[trigger] (ra.at)(x, y) == (rb.at)(x, y) by {
        if rot == 0 {
            assert((a.at)(x, y) == (b.at)(x, y));
        } else if rot == 1 {
            assert((a.at)(y, a.h - 1 - x) == (b.at)(y, b.h - 1 - x));
        } else if rot == 2 {
            assert((a.at)(a.w - 1 - x, a.h - 1 - y) == (b.at)(b.w - 1 - x, b.h - 1 - y));
        } else {
            assert((a.at)(a.w - 1 - y, x) == (b.at)(b.w - 1 - y, x));
        }
    }
}

/// Hiding the seam-side background of pixelwise-equal rasters gives
/// pixelwise-equal rasters.
pub proof fn lemma_hidden_congruence(a: Raster, b: Raster, face: PieceFace)
    requires
        same_raster(a, b),
    ensures
        same_raster(hidden_r(a, face), hidden_r(b, face)),
{
    let ha = hidden_r(a, face);
    let hb = hidden_r(b, face);
    assert forall|x: int, y: int|
        0 <= x < ha.w && 0 <= y < ha.h implies #[trigger] (ha.at)(x, y) == (hb.at)(x, y) by {
        assert forall|y2: int| 0 <= y2 < a.h implies #[trigger] (a.at)(x, y2) == (b.at)(x, y2) by {}
        assert(lead_bg_r(a, x, y) == lead_bg_r(b, x, y)) by {
            if lead_bg_r(a, x, y) {
                assert forall|y2: int| 0 <= y2 <= y implies #[trigger] (b.at)(x, y2)
                    == MASK_BACKGROUND by {
                    assert((a.at)(x, y2) == MASK_BACKGROUND);
                }
            }
            if lead_bg_r(b, x, y) {
                assert forall|y2: int| 0 <= y2 <= y implies #[trigger] (a.at)(x, y2)
                    == MASK_BACKGROUND by {
                    assert((b.at)(x, y2) == MASK_BACKGROUND);
                }
            }
        }
        assert(trail_bg_r(a, x, y) == trail_bg_r(b, x, y)) by {
            if trail_bg_r(a, x, y) {
                assert forall|y2: int| y <= y2 < b.h implies #[trigger] (b.at)(x, y2)
                    == MASK_BACKGROUND by {
                    assert((a.at)(x, y2) == MASK_BACKGROUND);
                }
            }
            if trail_bg_r(b, x, y) {
                assert forall|y2: int| y <= y2 < a.h implies #[trigger] (a.at)(x, y2)
                    == MASK_BACKGROUND by {
                    assert((b.at)(x, y2) == MASK_BACKGROUND);
                }
            }
        }
    }
}



/// Number of counted pixels in row `y` of a raster between two columns.
pub open spec fn count_superp_row_r(r: Raster, y: int, x0: int, x1: int) -> int
    decreases x1 - x0,
{
    if x0 >= x1 {
        0
    } else {
        count_superp_row_r(r, y, x0, x1 - 1) + if is_superp_pixel((r.at)(x1 - 1, y)) {
            1int
        } else {
            0int
        }
    }
}

/// Number of counted pixels of a raster in the half-open rectangle.
pub open spec fn count_superp_rect_r(r: Raster, x0: int, y0: int, x1: int, y1: int) -> int
    decreases y1 - y0,
{
    if y0 >= y1 {
        0
    } else {
        count_superp_rect_r(r, x0, y0, x1, y1 - 1) + count_superp_row_r(r, y1 - 1, x0, x1)
    }
}

/// A mask that matches a raster pixelwise over a rectangle shows the same
/// count there.
pub proof fn lemma_count_mask_vs_raster(m: Mask, r: Raster, x0: int, y0: int, x1: int, y1: int)
    requires
        forall|x: int, y: int| x0 <= x < x1 && y0 <= y < y1 ==> m.pix(x, y) == (r.at)(x, y),
    ensures
        count_superp_rect(m, x0, y0, x1, y1) == count_superp_rect_r(r, x0, y0, x1, y1),
    decreases y1 - y0,
{
    if y0 < y1 {
        lemma_count_mask_vs_raster(m, r, x0, y0, x1, y1 - 1);
        lemma_count_row_mask_vs_raster(m, r, y1 - 1, x0, x1);
    }
}

proof fn lemma_count_row_mask_vs_raster(m: Mask, r: Raster, y: int, x0: int, x1: int)
    requires
        forall|x: int| x0 <= x < x1 ==> m.pix(x, y) == (r.at)(x, y),
    ensures
        count_superp_row(m, y, x0, x1) == count_superp_row_r(r, y, x0, x1),
    decreases x1 - x0,
{
    if x0 < x1 {
        lemma_count_row_mask_vs_raster(m, r, y, x0, x1 - 1);
    }
}

/// Side length of the shared canvas the two pieces are composed on.
pub open spec fn spec_canvas_size(lp: Piece, rp: Piece) -> int {
    2 * imax(imax(lp.mask.w(), lp.mask.h()), imax(rp.mask.w(), rp.mask.h()))
}

/// The piece's face turned so that side `f` lies on side `want`.
pub open spec fn spec_face_on(p: Piece, f: int, want: int) -> PieceFace {
    spec_rotate_face_center(
        (p.mask.w(), p.mask.h()),
        p.faces@[f],
        spec_rotation_of(f, want),
        want,
    )
}

/// The left piece's raster as it is pasted: turned so the candidate side
/// faces right, the seam-side background blanked.
pub open spec fn spec_left_raster(lp: Piece, fl: int) -> Raster {
    hidden_r(rotated_r(lp.mask.raster(), spec_rotation_of(fl, 1)), spec_face_on(lp, fl, 1))
}

/// The right piece's raster as it is pasted: prepared like the left one,
/// then given a half turn so the two candidate sides face each other.
pub open spec fn spec_right_raster(rp: Piece, fr: int) -> Raster {
    rotated_r(
        hidden_r(rotated_r(rp.mask.raster(), spec_rotation_of(fr, 1)), spec_face_on(rp, fr, 1)),
        2,
    )
}

/// Where the left raster is pasted on the canvas.
pub open spec fn spec_left_pos(lp: Piece, rp: Piece, fl: int) -> (int, int) {
    let size = spec_canvas_size(lp, rp);
    let lr = spec_left_raster(lp, fl);
    (size / 2 - lr.w, size / 2 - lr.h / 2)
}

/// Where the right raster is pasted, derived from the two faces and the
/// sweep offset.
pub open spec fn spec_right_pos(lp: Piece, rp: Piece, fl: int, fr: int, off: (int, int)) -> (
    int,
    int,
) {
    let lpos = spec_left_pos(lp, rp, fl);
    let lf = spec_face_on(lp, fl, 1);
    let rf = spec_face_on(rp, fr, 3);
    (
        clamp_u32(off.0 + lpos.0 + lf.top.0 - rf.top.0) as int,
        clamp_u32(off.1 + lpos.1 + lf.top.1 - rf.top.1) as int,
    )
}

/// The composed canvas: both prepared rasters pasted at their positions by
/// pixelwise addition onto a zero canvas.
pub open spec fn spec_canvas(lp: Piece, fl: int, rp: Piece, fr: int, off: (int, int)) -> Raster {
    let size = spec_canvas_size(lp, rp);
    let lr = spec_left_raster(lp, fl);
    let rr = spec_right_raster(rp, fr);
    let lpos = spec_left_pos(lp, rp, fl);
    let rpos = spec_right_pos(lp, rp, fl, fr, off);
    Raster {
        w: size,
        h: size,
        at: |x: int, y: int|
            ((if lpos.0 <= x < lpos.0 + lr.w && lpos.1 <= y < lpos.1 + lr.h {
                (lr.at)(x - lpos.0, y - lpos.1) as int
            } else {
                0
            }) + (if rpos.0 <= x < rpos.0 + rr.w && rpos.1 <= y < rpos.1 + rr.h {
                (rr.at)(x - rpos.0, y - rpos.1) as int
            } else {
                0
            })) as u8,
    }
}

/// The seam window that the count inspects, from the two material boxes
/// and faces after placement.
pub open spec fn spec_seam_rect(lp: Piece, fl: int, rp: Piece, fr: int, off: (int, int)) -> (
    int,
    int,
    int,
    int,
) {
    let lr = spec_left_raster(lp, fl);
    let rr = spec_right_raster(rp, fr);
    spec_intersection(
        (mat_xmin(lr, 0), mat_ymin(lr, 0), mat_xmax(lr, lr.w - 1), mat_ymax(lr, lr.h - 1)),
        spec_face_on(lp, fl, 1),
        spec_left_pos(lp, rp, fl),
        (mat_xmin(rr, 0), mat_ymin(rr, 0), mat_xmax(rr, rr.w - 1), mat_ymax(rr, rr.h - 1)),
        spec_face_on(rp, fr, 3),
        spec_right_pos(lp, rp, fl, fr, off),
    )
}

/// The placement or the seam window leaves the canvas (or one piece shows
/// no material at all): the sweep point is scored with the worst cost
/// instead of a count.
pub open spec fn spec_offset_degenerate(
    lp: Piece,
    fl: int,
    rp: Piece,
    fr: int,
    off: (int, int),
) -> bool {
    let size = spec_canvas_size(lp, rp);
    let lr = spec_left_raster(lp, fl);
    let rr = spec_right_raster(rp, fr);
    let rpos = spec_right_pos(lp, rp, fl, fr, off);
    let rect = spec_seam_rect(lp, fl, rp, fr, off);
    ||| rpos.0 + rr.w > size
    ||| rpos.1 + rr.h > size
    ||| mat_xmin(lr, 0) == u32::MAX
    ||| mat_xmin(rr, 0) == u32::MAX
    ||| rect.2 > size
    ||| rect.3 > size
    ||| (rect.0 < rect.2 && rect.1 < rect.3 && (rect.2 - rect.0) * (rect.3 - rect.1) > u32::MAX)
}

/// The overlap penalty of one sweep point: the count of gap and collision
/// pixels inside the seam window of the composed canvas, or the worst cost
/// where the composition degenerates.
pub open spec fn spec_mask_dist_offset(
    lp: Piece,
    fl: int,
    rp: Piece,
    fr: int,
    off: (int, int),
) -> int {
    if spec_offset_degenerate(lp, fl, rp, fr, off) {
        u32::MAX as int
    } else {
        let rect = spec_seam_rect(lp, fl, rp, fr, off);
        count_superp_rect_r(spec_canvas(lp, fl, rp, fr, off), rect.0, rect.1, rect.2, rect.3)
    }
}

/// The canvas arithmetic fits the machine: twice the canvas side stays
/// below the unsigned pixel range and the canvas area fits an allocation.
pub open spec fn spec_dims_ok(lp: Piece, rp: Piece) -> bool {
    &&& 2 * spec_canvas_size(lp, rp) + 2 <= u32::MAX
    &&& spec_canvas_size(lp, rp) * spec_canvas_size(lp, rp) <= usize::MAX
}



/// Prepare one piece's raster for pasting as the left part of the seam:
/// turn it so the candidate side faces right and blank the seam-side
/// background.
#[verifier::rlimit(60)]
fn prepare_seam_raster(p: &Piece, f: usize) -> (m: Mask)
    requires
        p.wf(),
        p.faces_within(),
        f < 4,
    ensures
        m.wf(),
        m.w() == spec_left_raster(*p, f as int).w,
        m.h() == spec_left_raster(*p, f as int).h,
        same_raster(m.raster(), spec_left_raster(*p, f as int)),
        p.mask.bounded() ==> forall|x: int, y: int|
            0 <= x < m.w() && 0 <= y < m.h() ==> m.pix(x, y) <= MASK_PIECE_PIXEL,
{
    let ghost fi = f as int;
    let ghost rot = spec_rotation_of(fi, 1);
    let (w, h) = p.mask.dimensions();
    let mut m = get_rotated_mask(&p.mask, f, 1);
    let ghost base = rotated_r(p.mask.raster(), rot);
    proof {
        assert(face_within(p.faces@[fi], p.mask.w(), p.mask.h()));
        assert(same_raster(m.raster(), base)) by {
            assert forall|x: int, y: int|
                0 <= x < base.w && 0 <= y < base.h implies #[trigger] (m.raster().at)(x, y)
                == (base.at)(x, y) by {
                assert(m.pix(x, y) == rot_pix(p.mask, rot, x, y));
            }
        }
    }
    let face = p.faces[f];
    let rface = rotate_face_center((w, h), &face, f, 1);
    proof {
        assert(rface == spec_face_on(*p, fi, 1));
    }
    let ghost pre = m;
    hide_external_black_pixel(&mut m, &rface);
    let ghost target = spec_left_raster(*p, fi);
    proof {
        lemma_hidden_congruence(pre.raster(), base, rface);
        assert(same_raster(m.raster(), target)) by {
            assert forall|x: int, y: int|
                0 <= x < target.w && 0 <= y < target.h implies #[trigger] (m.raster().at)(x, y)
                == (target.at)(x, y) by {
                assert(m.pix(x, y) == (hidden_r(pre.raster(), rface).at)(x, y));
                assert((hidden_r(pre.raster(), rface).at)(x, y) == (hidden_r(base, rface).at)(
                    x,
                    y,
                ));
            }
        }
        if p.mask.bounded() {
            assert forall|x: int, y: int|
                0 <= x < m.w() && 0 <= y < m.h() implies m.pix(x, y) <= MASK_PIECE_PIXEL by {
                assert(m.pix(x, y) == (target.at)(x, y));
                assert(rot_pix(p.mask, rot, x, y) <= MASK_PIECE_PIXEL);
            }
        }
    }
    m
}

/// Prepare one piece's raster for pasting as the right part of the seam:
/// like the left preparation, then a half turn so the two candidate sides
/// face each other.
#[verifier::rlimit(60)]
fn prepare_seam_raster_flipped(p: &Piece, f: usize) -> (m: Mask)
    requires
        p.wf(),
        p.faces_within(),
        f < 4,
    ensures
        m.wf(),
        m.w() == spec_right_raster(*p, f as int).w,
        m.h() == spec_right_raster(*p, f as int).h,
        same_raster(m.raster(), spec_right_raster(*p, f as int)),
        p.mask.bounded() ==> forall|x: int, y: int|
            0 <= x < m.w() && 0 <= y < m.h() ==> m.pix(x, y) <= MASK_PIECE_PIXEL,
{
    let ghost fi = f as int;
    let pre = prepare_seam_raster(p, f);
    let m = pre.rotated180();
    let ghost hb = spec_left_raster(*p, fi);
    let ghost target = spec_right_raster(*p, fi);
    proof {
        lemma_rotated_congruence(pre.raster(), hb, 2);
        assert(rotated_r(hb, 2) == target);
        assert(same_raster(m.raster(), target)) by {
            assert forall|x: int, y: int|
                0 <= x < target.w && 0 <= y < target.h implies #[trigger] (m.raster().at)(x, y)
                == (target.at)(x, y) by {
                assert(m.pix(x, y) == pre.pix(pre.w() - 1 - x, pre.h() - 1 - y));
                assert((rotated_r(pre.raster(), 2).at)(x, y) == (pre.raster().at)(
                    pre.w() - 1 - x,
                    pre.h() - 1 - y,
                ));
                assert((rotated_r(pre.raster(), 2).at)(x, y) == (rotated_r(hb, 2).at)(x, y));
            }
        }
        if p.mask.bounded() {
            assert forall|x: int, y: int|
                0 <= x < m.w() && 0 <= y < m.h() implies m.pix(x, y) <= MASK_PIECE_PIXEL by {
                assert(m.pix(x, y) == pre.pix(pre.w() - 1 - x, pre.h() - 1 - y));
            }
        }
    }
    m
}

/// Paste the two prepared rasters onto a fresh zero canvas by pixelwise
/// addition.
#[verifier::rlimit(100)]
fn build_canvas(
    size: u32,
    lm: &Mask,
    rm: &Mask,
    lpos: (u32, u32),
    rpos: (u32, u32),
) -> (img: Mask)
    requires
        lm.wf(),
        rm.wf(),
        (size as int) * (size as int) <= usize::MAX,
        lpos.0 + lm.w() <= size,
        lpos.1 + lm.h() <= size,
        rpos.0 + rm.w() <= size,
        rpos.1 + rm.h() <= size,
        forall|x: int, y: int|
            0 <= x < lm.w() && 0 <= y < lm.h() ==> lm.pix(x, y) <= MASK_PIECE_PIXEL,
        forall|x: int, y: int|
            0 <= x < rm.w() && 0 <= y < rm.h() ==> rm.pix(x, y) <= MASK_PIECE_PIXEL,
    ensures
        img.wf(),
        img.w() == size,
        img.h() == size,
        forall|x: int, y: int|
            0 <= x < size && 0 <= y < size ==> img.pix(x, y) == ((if lpos.0 <= x < lpos.0
                + lm.w() && lpos.1 <= y < lpos.1 + lm.h() {
                lm.pix(x - lpos.0, y - lpos.1) as int
            } else {
                0
            }) + (if rpos.0 <= x < rpos.0 + rm.w() && rpos.1 <= y < rpos.1 + rm.h() {
                rm.pix(x - rpos.0, y - rpos.1) as int
            } else {
                0
            })) as u8,
{
    let mut img = Mask::new(size, size);
    let ghost img0 = img;
    add_mask(&mut img, lm, lpos);
    let ghost img1 = img;
    proof {
        assert forall|x: int, y: int|
            0 <= x < img.w() && 0 <= y < img.h() implies img.pix(x, y) <= MASK_PIECE_PIXEL by {
            if lpos.0 <= x < lpos.0 + lm.w() && lpos.1 <= y < lpos.1 + lm.h() {
                assert(img.pix(x, y) == img0.pix(x, y) + lm.pix(x - lpos.0, y - lpos.1));
            } else {
                assert(img.pix(x, y) == img0.pix(x, y));
            }
        }
    }
    add_mask(&mut img, rm, rpos);
    proof {
        assert forall|x: int, y: int|
            0 <= x < size && 0 <= y < size implies img.pix(x, y) == ((if lpos.0 <= x < lpos.0
                + lm.w() && lpos.1 <= y < lpos.1 + lm.h() {
                lm.pix(x - lpos.0, y - lpos.1) as int
            } else {
                0
            }) + (if rpos.0 <= x < rpos.0 + rm.w() && rpos.1 <= y < rpos.1 + rm.h() {
                rm.pix(x - rpos.0, y - rpos.1) as int
            } else {
                0
            })) as u8 by {
            if lpos.0 <= x < lpos.0 + lm.w() && lpos.1 <= y < lpos.1 + lm.h() {
                assert(img1.pix(x, y) == img0.pix(x, y) + lm.pix(x - lpos.0, y - lpos.1));
            } else {
                assert(img1.pix(x, y) == img0.pix(x, y));
            }
            assert(img0.pix(x, y) == 0);
            if rpos.0 <= x < rpos.0 + rm.w() && rpos.1 <= y < rpos.1 + rm.h() {
                assert(img.pix(x, y) == img1.pix(x, y) + rm.pix(x - rpos.0, y - rpos.1));
            } else {
                assert(img.pix(x, y) == img1.pix(x, y));
            }
        }
    }
    img
}

/// Compose the two candidate pieces on the shared canvas at one sweep
/// offset and count the gap and collision pixels inside the seam window;
/// a composition that leaves the canvas scores the worst cost instead.
#[verifier::rlimit(100)]
#[verifier::spinoff_prover]
pub fn calc_face_mask_dist_offset(
    left: &Piece,
    fid_left: usize,
    right: &Piece,
    fid_right: usize,
    offset: (i32, i32),
) -> (r: u32)
    requires
        left.wf(),
        right.wf(),
        left.mask.bounded(),
        right.mask.bounded(),
        left.faces_within(),
        right.faces_within(),
        fid_left < 4,
        fid_right < 4,
        spec_dims_ok(*left, *right),
    ensures
        r == spec_mask_dist_offset(
            *left,
            fid_left as int,
            *right,
            fid_right as int,
            (offset.0 as int, offset.1 as int),
        ),
{
    let ghost fl = fid_left as int;
    let ghost fr = fid_right as int;
    let ghost off = (offset.0 as int, offset.1 as int);
    let (lw, lh) = left.mask.dimensions();
    let (rw, rh) = right.mask.dimensions();
    let m1 = umax(umax(lw, lh), umax(rw, rh));
    let size = m1 * 2;
    proof {
        assert(size as int == spec_canvas_size(*left, *right));
    }
    let left_mask = prepare_seam_raster(left, fid_left);
    let right_mask = prepare_seam_raster_flipped(right, fid_right);
    let ghost slr = spec_left_raster(*left, fl);
    let ghost srr = spec_right_raster(*right, fr);
    let face_l = left.faces[fid_left];
    let face_r = right.faces[fid_right];
    proof {
        assert(face_within(left.faces@[fl], left.mask.w(), left.mask.h()));
        assert(face_within(right.faces@[fr], right.mask.w(), right.mask.h()));
    }
    let lface = rotate_face_center((lw, lh), &face_l, fid_left, 1);
    let rface = rotate_face_center((rw, rh), &face_r, fid_right, 3);
    proof {
        assert(lface == spec_face_on(*left, fl, 1));
        assert(rface == spec_face_on(*right, fr, 3));
    }
    let (lw2, lh2) = left_mask.dimensions();
    let left_pos = (size / 2 - lw2, size / 2 - lh2 / 2);
    proof {
        assert((left_pos.0 as int, left_pos.1 as int) == spec_left_pos(*left, *right, fl));
    }
    let right_pos = calc_right_mask_pos(&lface, &rface, left_pos, offset);
    proof {
        assert((right_pos.0 as int, right_pos.1 as int) == spec_right_pos(
            *left,
            *right,
            fl,
            fr,
            off,
        ));
    }
    let (rw2, rh2) = right_mask.dimensions();
    if (right_pos.0 as u64) + (rw2 as u64) > (size as u64) || (right_pos.1 as u64) + (rh2 as u64)
        > (size as u64) {
        proof {
            assert(spec_offset_degenerate(*left, fl, *right, fr, off));
        }
        return u32::MAX;
    }
    let img = build_canvas(size, &left_mask, &right_mask, left_pos, right_pos);
    let ghost cnv = spec_canvas(*left, fl, *right, fr, off);
    proof {
        assert forall|x: int, y: int|
            0 <= x < size && 0 <= y < size implies img.pix(x, y) == (cnv.at)(x, y) by {
            if left_pos.0 <= x < left_pos.0 + left_mask.w() && left_pos.1 <= y < left_pos.1
                + left_mask.h() {
                assert((left_mask.raster().at)(x - left_pos.0, y - left_pos.1) == left_mask.pix(
                    x - left_pos.0,
                    y - left_pos.1,
                ));
                assert((left_mask.raster().at)(x - left_pos.0, y - left_pos.1) == (slr.at)(
                    x - left_pos.0,
                    y - left_pos.1,
                ));
            }
            if right_pos.0 <= x < right_pos.0 + right_mask.w() && right_pos.1 <= y < right_pos.1
                + right_mask.h() {
                assert((right_mask.raster().at)(x - right_pos.0, y - right_pos.1)
                    == right_mask.pix(x - right_pos.0, y - right_pos.1));
                assert((right_mask.raster().at)(x - right_pos.0, y - right_pos.1) == (srr.at)(
                    x - right_pos.0,
                    y - right_pos.1,
                ));
            }
        }
    }
    let rect_l = extract_surrounding_rect(&left_mask);
    let rect_r = extract_surrounding_rect(&right_mask);
    proof {
        crate::mask::lemma_mat_bounds_congruence(left_mask.raster(), slr);
        crate::mask::lemma_mat_bounds_congruence(right_mask.raster(), srr);
    }
    if rect_l.0 == u32::MAX || rect_r.0 == u32::MAX {
        proof {
            assert(spec_offset_degenerate(*left, fl, *right, fr, off));
        }
        return u32::MAX;
    }
    proof {
        assert(crate::mask::has_material(left_mask)) by {
            if !crate::mask::has_material(left_mask) {
                assert(rect_l.0 == u32::MAX);
            }
        }
        assert(crate::mask::has_material(right_mask)) by {
            if !crate::mask::has_material(right_mask) {
                assert(rect_r.0 == u32::MAX);
            }
        }
    }
    let rect = get_intersection(rect_l, &lface, left_pos, rect_r, &rface, right_pos);
    proof {
        let sr = spec_seam_rect(*left, fl, *right, fr, off);
        assert(rect.0 as int == sr.0 && rect.1 as int == sr.1 && rect.2 as int == sr.2
            && rect.3 as int == sr.3);
    }
    if rect.2 > size || rect.3 > size {
        proof {
            assert(spec_offset_degenerate(*left, fl, *right, fr, off));
        }
        return u32::MAX;
    }
    let (x0, y0, x1, y1) = rect;
    if x0 < x1 && y0 < y1 {
        proof {
            assert(((x1 as int) - (x0 as int)) * ((y1 as int) - (y0 as int)) < u64::MAX)
                by (nonlinear_arith)
                requires
                    0 <= (x1 as int) - (x0 as int) <= u32::MAX,
                    0 <= (y1 as int) - (y0 as int) <= u32::MAX,
            ;
        }
        let area = ((x1 - x0) as u64) * ((y1 - y0) as u64);
        if area > (u32::MAX as u64) {
            proof {
                assert(spec_offset_degenerate(*left, fl, *right, fr, off));
            }
            return u32::MAX;
        }
    }
    proof {
        if x0 >= x1 {
            lemma_count_rect_zero_width(img, x0 as int, y0 as int, x1 as int, y1 as int);
        } else if y0 < y1 {
            lemma_count_rect_bound(img, x0 as int, y0 as int, x1 as int, y1 as int);
        }
    }
    let c = count_superp(&img, rect);
    proof {
        lemma_count_mask_vs_raster(img, cnv, x0 as int, y0 as int, x1 as int, y1 as int);
        assert(!spec_offset_degenerate(*left, fl, *right, fr, off));
    }
    c
}



/// True of a sweep-window index pair.
pub open spec fn in_sweep_window(i: int, j: int) -> bool {
    &&& -(MATCH_MASK_OFFET as int) <= i < MATCH_MASK_OFFET as int
    &&& -(MATCH_MASK_OFFET as int) <= j < MATCH_MASK_OFFET as int
}

/// The sweep offset of an index pair.
pub open spec fn sweep_offset(i: int, j: int) -> (int, int) {
    (i * (MATCH_MASK_OFFSET_STEP as int), j * (MATCH_MASK_OFFSET_STEP as int))
}

/// The overlap penalty of a candidate seam: the least sweep-point penalty
/// over the fixed symmetric offset window.
#[verifier::rlimit(100)]
pub fn calc_face_mask_dist(
    left: &Piece,
    fid_left: usize,
    right: &Piece,
    fid_right: usize,
) -> (r: u32)
    requires
        left.wf(),
        right.wf(),
        left.mask.bounded(),
        right.mask.bounded(),
        left.faces_within(),
        right.faces_within(),
        fid_left < 4,
        fid_right < 4,
        spec_dims_ok(*left, *right),
    ensures
        forall|i: int, j: int|
            in_sweep_window(i, j) ==> r <= spec_mask_dist_offset(
                *left,
                fid_left as int,
                *right,
                fid_right as int,
                sweep_offset(i, j),
            ),
        exists|i: int, j: int|
            in_sweep_window(i, j) && r == spec_mask_dist_offset(
                *left,
                fid_left as int,
                *right,
                fid_right as int,
                sweep_offset(i, j),
            ),
        r == spec_best_mask_dist(*left, fid_left as int, *right, fid_right as int),
{
    let ghost fl = fid_left as int;
    let ghost fr = fid_right as int;
    let mut min: u32 = u32::MAX;
    let ghost mut wit: (int, int) = (0int, 0int);
    let mut y: i32 = -MATCH_MASK_OFFET;
    while y < MATCH_MASK_OFFET
        invariant
            left.wf(),
            right.wf(),
            left.mask.bounded(),
            right.mask.bounded(),
            left.faces_within(),
            right.faces_within(),
            fid_left < 4,
            fid_right < 4,
            fl == fid_left as int,
            fr == fid_right as int,
            spec_dims_ok(*left, *right),
            -(MATCH_MASK_OFFET as int) <= y <= MATCH_MASK_OFFET as int,
            forall|i: int, j: int|
                in_sweep_window(i, j) && j < y ==> min <= spec_mask_dist_offset(
                    *left,
                    fl,
                    *right,
                    fr,
                    sweep_offset(i, j),
                ),
            min < u32::MAX ==> in_sweep_window(wit.0, wit.1) && wit.1 < y && min
                == spec_mask_dist_offset(*left, fl, *right, fr, sweep_offset(wit.0, wit.1)),
            min == u32::MAX ==> forall|i: int, j: int|
                in_sweep_window(i, j) && j < y ==> spec_mask_dist_offset(
                    *left,
                    fl,
                    *right,
                    fr,
                    sweep_offset(i, j),
                ) == u32::MAX,
        decreases MATCH_MASK_OFFET as int - y,
    {
        let mut x: i32 = -MATCH_MASK_OFFET;
        while x < MATCH_MASK_OFFET
            invariant
                left.wf(),
                right.wf(),
                left.mask.bounded(),
                right.mask.bounded(),
                left.faces_within(),
                right.faces_within(),
                fid_left < 4,
                fid_right < 4,
                fl == fid_left as int,
                fr == fid_right as int,
                spec_dims_ok(*left, *right),
                -(MATCH_MASK_OFFET as int) <= y < MATCH_MASK_OFFET as int,
                -(MATCH_MASK_OFFET as int) <= x <= MATCH_MASK_OFFET as int,
                forall|i: int, j: int|
                    in_sweep_window(i, j) && (j < y || (j == y && i < x))
                        ==> min <= spec_mask_dist_offset(
                        *left,
                        fl,
                        *right,
                        fr,
                        sweep_offset(i, j),
                    ),
                min < u32::MAX ==> in_sweep_window(wit.0, wit.1) && (wit.1 < y || (wit.1 == y
                    && wit.0 < x)) && min == spec_mask_dist_offset(
                    *left,
                    fl,
                    *right,
                    fr,
                    sweep_offset(wit.0, wit.1),
                ),
                min == u32::MAX ==> forall|i: int, j: int|
                    in_sweep_window(i, j) && (j < y || (j == y && i < x))
                        ==> spec_mask_dist_offset(*left, fl, *right, fr, sweep_offset(i, j))
                        == u32::MAX,
            decreases MATCH_MASK_OFFET as int - x,
        {
            let dist = calc_face_mask_dist_offset(
                left,
                fid_left,
                right,
                fid_right,
                (x * MATCH_MASK_OFFSET_STEP, y * MATCH_MASK_OFFSET_STEP),
            );
            proof {
                assert((x * MATCH_MASK_OFFSET_STEP) as int == (x as int)
                    * (MATCH_MASK_OFFSET_STEP as int));
                assert((y * MATCH_MASK_OFFSET_STEP) as int == (y as int)
                    * (MATCH_MASK_OFFSET_STEP as int));
            }
            if dist < min {
                min = dist;
                proof {
                    wit = (x as int, y as int);
                }
            }
            x = x + 1;
        }
        y = y + 1;
    }
    proof {
        if min == u32::MAX {
            assert(in_sweep_window(-3, -3));
            assert(spec_mask_dist_offset(*left, fl, *right, fr, sweep_offset(-3, -3))
                == u32::MAX);
        }
        lemma_sweep_min_from(*left, fl, *right, fr, 0);
        let best = spec_best_mask_dist(*left, fl, *right, fr);
        assert(min <= best) by {
            if best < u32::MAX {
                let (i, j) = choose|i: int, j: int|
                    in_sweep_window(i, j) && (j + 3) * 6 + (i + 3) >= 0 && best
                        == #[trigger] spec_mask_dist_offset(*left, fl, *right, fr, sweep_offset(
                        i,
                        j,
                    ));
            }
        }
        assert(best <= min) by {
            if min < u32::MAX {
                assert((wit.1 + 3) * 6 + (wit.0 + 3) >= 0);
                assert(best <= spec_mask_dist_offset(*left, fl, *right, fr, sweep_offset(
                    wit.0,
                    wit.1,
                )));
            } else {
                assert(best <= spec_mask_dist_offset(*left, fl, *right, fr, sweep_offset(-3, -3)));
            }
        }
    }
    min
}



/// One face-pair candidate flowing through the match pipeline: a cost key
/// (lower is better) and the two piece/face indices it scored.
#[derive(Debug, Copy, Clone, PartialEq, Eq, Structural)]
pub struct FacePairCandidate {
    pub dist: u64,
    pub piece1: usize,
    pub face1: usize,
    pub piece2: usize,
    pub face2: usize,
}

/// The candidate names two distinct pieces of the collection and two
/// classified faces of opposite mode.
pub open spec fn candidate_ok(pieces: Seq<Piece>, c: FacePairCandidate) -> bool {
    &&& c.piece1 < pieces.len()
    &&& c.piece2 < pieces.len()
    &&& c.piece1 != c.piece2
    &&& c.face1 < 4
    &&& c.face2 < 4
    &&& pieces[c.piece1 as int].faces@[c.face1 as int].mode != PieceSideType::Unknown
    &&& pieces[c.piece2 as int].faces@[c.face2 as int].mode != PieceSideType::Unknown
    &&& pieces[c.piece1 as int].faces@[c.face1 as int].mode != pieces[c.piece2 as int].faces@[
        c.face2 as int].mode
}

/// Cost keys never decrease along the sequence.
pub open spec fn sorted_by_dist(s: Seq<FacePairCandidate>) -> bool {
    forall|a: int, b: int| 0 <= a < b < s.len() ==> s[a].dist <= s[b].dist
}

/// `c` inserted into the sorted sequence `s`, after every entry whose cost
/// key is at most `c`'s: the insertion that keeps equal keys in arrival
/// order.
pub open spec fn insert_by_key(s: Seq<FacePairCandidate>, c: FacePairCandidate) -> Seq<
    FacePairCandidate,
>
    decreases s.len(),
{
    if s.len() == 0 {
        seq![c]
    } else if s.last().dist <= c.dist {
        s.push(c)
    } else {
        insert_by_key(s.drop_last(), c).push(s.last())
    }
}

/// The sequence ordered by cost key, cheapest first, entries with equal
/// keys keeping their relative order: the unique stable order.
pub open spec fn sort_by_key(s: Seq<FacePairCandidate>) -> Seq<FacePairCandidate>
    decreases s.len(),
{
    if s.len() == 0 {
        Seq::empty()
    } else {
        insert_by_key(sort_by_key(s.drop_last()), s.last())
    }
}

/// Where the stable insertion lands: right after the last entry with a
/// key at most `c`'s.
proof fn lemma_insert_by_key_at(s: Seq<FacePairCandidate>, c: FacePairCandidate, k: int)
    requires
        sorted_by_dist(s),
        0 <= k <= s.len(),
        forall|j: int| 0 <= j < k ==> (#[trigger] s[j]).dist <= c.dist,
        forall|j: int| k <= j < s.len() ==> (#[trigger] s[j]).dist > c.dist,
    ensures
        insert_by_key(s, c) == s.subrange(0, k) + seq![c] + s.subrange(k, s.len() as int),
    decreases s.len(),
{
    if s.len() == 0 {
        assert(insert_by_key(s, c) =~= s.subrange(0, k) + seq![c] + s.subrange(
            k,
            s.len() as int,
        ));
    } else if s.last().dist <= c.dist {
        assert(k == s.len());
        assert(s.push(c) =~= s.subrange(0, k) + seq![c] + s.subrange(k, s.len() as int));
    } else {
        assert(k < s.len());
        let dl = s.drop_last();
        assert(sorted_by_dist(dl)) by {
            assert forall|a: int, b: int| 0 <= a < b < dl.len() implies dl[a].dist
                <= dl[b].dist by {
                assert(dl[a] == s[a] && dl[b] == s[b]);
            }
        }
        assert forall|j: int| 0 <= j < k implies (#[trigger] dl[j]).dist <= c.dist by {
            assert(dl[j] == s[j]);
        }
        assert forall|j: int| k <= j < dl.len() implies (#[trigger] dl[j]).dist > c.dist by {
            assert(dl[j] == s[j]);
        }
        lemma_insert_by_key_at(dl, c, k);
        assert(insert_by_key(dl, c).push(s.last()) =~= s.subrange(0, k) + seq![c] + s.subrange(
            k,
            s.len() as int,
        ));
    }
}

/// The stable insertion adds one entry to the multiset.
proof fn lemma_insert_by_key_multiset(s: Seq<FacePairCandidate>, c: FacePairCandidate)
    ensures
        insert_by_key(s, c).to_multiset() == s.to_multiset().insert(c),
        insert_by_key(s, c).len() == s.len() + 1,
    decreases s.len(),
{
    broadcast use vstd::seq_lib::group_to_multiset_ensures;

    if s.len() == 0 {
        assert(seq![c] =~= Seq::<FacePairCandidate>::empty().push(c));
        assert(Seq::<FacePairCandidate>::empty().push(c).to_multiset() =~= Seq::<
            FacePairCandidate,
        >::empty().to_multiset().insert(c));
        assert(insert_by_key(s, c).to_multiset() =~= s.to_multiset().insert(c));
    } else if s.last().dist <= c.dist {
        assert(s.push(c).to_multiset() =~= s.to_multiset().insert(c));
    } else {
        lemma_insert_by_key_multiset(s.drop_last(), c);
        let rec = insert_by_key(s.drop_last(), c);
        assert(rec.push(s.last()).to_multiset() =~= rec.to_multiset().insert(s.last()));
        assert(s.drop_last().push(s.last()) =~= s);
        assert(s.drop_last().push(s.last()).to_multiset() =~= s.drop_last().to_multiset().insert(
            s.last(),
        ));
        assert(rec.push(s.last()).to_multiset() =~= s.to_multiset().insert(c));
    }
}

/// The stable order is a permutation of the input.
pub proof fn lemma_sort_by_key_multiset(s: Seq<FacePairCandidate>)
    ensures
        sort_by_key(s).to_multiset() == s.to_multiset(),
        sort_by_key(s).len() == s.len(),
    decreases s.len(),
{
    broadcast use vstd::seq_lib::group_to_multiset_ensures;

    if s.len() > 0 {
        lemma_sort_by_key_multiset(s.drop_last());
        lemma_insert_by_key_multiset(sort_by_key(s.drop_last()), s.last());
        assert(s.drop_last().push(s.last()) =~= s);
        assert(s.drop_last().push(s.last()).to_multiset() =~= s.drop_last().to_multiset().insert(
            s.last(),
        ));
        assert(sort_by_key(s).to_multiset() =~= s.to_multiset());
    }
}

/// Order the candidates by cost key, cheapest first; candidates with
/// equal keys keep their relative order. The result is exactly the stable
/// order `sort_by_key` of the input.
pub fn sort_candidates(v: Vec<FacePairCandidate>) -> (r: Vec<FacePairCandidate>)
    ensures
        r@ == sort_by_key(v@),
        sorted_by_dist(r@),
        r@.to_multiset() == v@.to_multiset(),
        r@.len() == v@.len(),
{
    let mut out: Vec<FacePairCandidate> = Vec::new();
    let mut t: usize = 0;
    while t < v.len()
        invariant
            t <= v@.len(),
            out@ == sort_by_key(v@.take(t as int)),
            out@.len() == t,
            sorted_by_dist(out@),
        decreases v@.len() - t,
    {
        let c = v[t];
        let mut i: usize = out.len();
        while i > 0
            invariant
                i <= out@.len(),
                forall|j: int| i <= j < out@.len() ==> (#[trigger] out@[j]).dist > c.dist,
            ensures
                i <= out@.len(),
                forall|j: int| i <= j < out@.len() ==> (#[trigger] out@[j]).dist > c.dist,
                i == 0 || out@[i as int - 1].dist <= c.dist,
            decreases i,
        {
            if out[i - 1].dist <= c.dist {
                break;
            }
            i = i - 1;
        }
        let ghost out0 = out@;
        out.insert(i, c);
        proof {
            assert forall|j: int| 0 <= j < i implies (#[trigger] out0[j]).dist <= c.dist by {
                if i > 0 {
                    assert(out0[j].dist <= out0[i as int - 1].dist);
                }
            }
            lemma_insert_by_key_at(out0, c, i as int);
            assert(out@ =~= out0.subrange(0, i as int) + seq![c] + out0.subrange(
                i as int,
                out0.len() as int,
            ));
            assert(v@.take(t as int + 1).drop_last() =~= v@.take(t as int));
            assert(v@.take(t as int + 1).last() == v@[t as int]);
            assert(out@ == sort_by_key(v@.take(t as int + 1)));
            assert(sorted_by_dist(out@)) by {
                assert forall|a: int, b: int|
                    0 <= a < b < out@.len() implies out@[a].dist <= out@[b].dist by {
                    if a < i && b < i {
                        assert(out@[a] == out0[a] && out@[b] == out0[b]);
                    } else if a < i && b == i {
                        assert(out@[a] == out0[a]);
                    } else if a < i && b > i {
                        assert(out@[a] == out0[a] && out@[b] == out0[b - 1]);
                        assert(out0[a].dist <= out0[b - 1].dist);
                    } else if a == i && b > i {
                        assert(out@[b] == out0[b - 1]);
                    } else if a > i && b > i {
                        assert(out@[a] == out0[a - 1] && out@[b] == out0[b - 1]);
                    }
                }
            }
        }
        t = t + 1;
    }
    proof {
        assert(v@.take(v@.len() as int) =~= v@);
        lemma_sort_by_key_multiset(v@);
    }
    out
}

/// Keep the candidates whose cost key lies strictly below the cut; on a
/// sorted list they form the longest such prefix.
pub fn cut_below(v: &Vec<FacePairCandidate>, cut: u64) -> (r: Vec<FacePairCandidate>)
    requires
        sorted_by_dist(v@),
    ensures
        r@.len() <= v@.len(),
        r@ == v@.subrange(0, r@.len() as int),
        forall|i: int| 0 <= i < r@.len() ==> v@[i].dist < cut,
        r@.len() == v@.len() || v@[r@.len() as int].dist >= cut,
{
    let mut r: Vec<FacePairCandidate> = Vec::new();
    let mut i: usize = 0;
    while i < v.len()
        invariant
            sorted_by_dist(v@),
            i <= v@.len(),
            r@.len() == i,
            r@ == v@.subrange(0, i as int),
            forall|j: int| 0 <= j < i ==> v@[j].dist < cut,
        ensures
            i <= v@.len(),
            r@.len() == i,
            r@ == v@.subrange(0, i as int),
            forall|j: int| 0 <= j < i ==> v@[j].dist < cut,
            i == v@.len() || v@[i as int].dist >= cut,
        decreases v@.len() - i,
    {
        let c = v[i];
        if c.dist >= cut {
            break;
        }
        r.push(c);
        proof {
            assert(r@ =~= v@.subrange(0, i as int + 1));
        }
        i = i + 1;
    }
    r
}

/// Keep the candidates whose cost key lies at or below the cut.
pub fn cut_at_or_below(v: &Vec<FacePairCandidate>, cut: u64) -> (r: Vec<FacePairCandidate>)
    requires
        sorted_by_dist(v@),
    ensures
        r@.len() <= v@.len(),
        r@ == v@.subrange(0, r@.len() as int),
        forall|i: int| 0 <= i < r@.len() ==> v@[i].dist <= cut,
        r@.len() == v@.len() || v@[r@.len() as int].dist > cut,
{
    let mut r: Vec<FacePairCandidate> = Vec::new();
    let mut i: usize = 0;
    while i < v.len()
        invariant
            sorted_by_dist(v@),
            i <= v@.len(),
            r@.len() == i,
            r@ == v@.subrange(0, i as int),
            forall|j: int| 0 <= j < i ==> v@[j].dist <= cut,
        ensures
            i <= v@.len(),
            r@.len() == i,
            r@ == v@.subrange(0, i as int),
            forall|j: int| 0 <= j < i ==> v@[j].dist <= cut,
            i == v@.len() || v@[i as int].dist > cut,
        decreases v@.len() - i,
    {
        let c = v[i];
        if c.dist > cut {
            break;
        }
        r.push(c);
        proof {
            assert(r@ =~= v@.subrange(0, i as int + 1));
        }
        i = i + 1;
    }
    r
}



/// The least sweep-point penalty over the tail of the window, walking the
/// window row by row from linear index `t`.
pub open spec fn sweep_min_from(lp: Piece, fl: int, rp: Piece, fr: int, t: int) -> int
    decreases 36 - t,
{
    if t < 0 || t >= 36 {
        u32::MAX as int
    } else {
        let v = spec_mask_dist_offset(lp, fl, rp, fr, sweep_offset(t % 6 - 3, t / 6 - 3));
        let rest = sweep_min_from(lp, fl, rp, fr, t + 1);
        if v <= rest {
            v
        } else {
            rest
        }
    }
}

/// The overlap penalty of a candidate seam: the least sweep-point penalty
/// over the whole offset window.
pub open spec fn spec_best_mask_dist(lp: Piece, fl: int, rp: Piece, fr: int) -> int {
    sweep_min_from(lp, fl, rp, fr, 0)
}

proof fn lemma_sweep_min_from(lp: Piece, fl: int, rp: Piece, fr: int, t: int)
    requires
        0 <= t <= 36,
    ensures
        sweep_min_from(lp, fl, rp, fr, t) <= u32::MAX,
        forall|i: int, j: int|
            in_sweep_window(i, j) && (j + 3) * 6 + (i + 3) >= t ==> sweep_min_from(
                lp,
                fl,
                rp,
                fr,
                t,
            ) <= #[trigger] spec_mask_dist_offset(lp, fl, rp, fr, sweep_offset(i, j)),
        sweep_min_from(lp, fl, rp, fr, t) == u32::MAX || exists|i: int, j: int|
            in_sweep_window(i, j) && (j + 3) * 6 + (i + 3) >= t && sweep_min_from(lp, fl, rp, fr, t)
                == #[trigger] spec_mask_dist_offset(lp, fl, rp, fr, sweep_offset(i, j)),
    decreases 36 - t,
{
    if t < 36 {
        lemma_sweep_min_from(lp, fl, rp, fr, t + 1);
        let i0 = t % 6 - 3;
        let j0 = t / 6 - 3;
        assert(in_sweep_window(i0, j0));
        assert((j0 + 3) * 6 + (i0 + 3) == t);
        assert forall|i: int, j: int|
            in_sweep_window(i, j) && (j + 3) * 6 + (i + 3) >= t implies sweep_min_from(
            lp,
            fl,
            rp,
            fr,
            t,
        ) <= #[trigger] spec_mask_dist_offset(lp, fl, rp, fr, sweep_offset(i, j)) by {
            if (j + 3) * 6 + (i + 3) == t {
                assert(j + 3 == t / 6 && i + 3 == t % 6) by (nonlinear_arith)
                    requires
                        (j + 3) * 6 + (i + 3) == t,
                        0 <= i + 3 < 6,
                        0 <= j + 3 < 6,
                ;
            }
        }
    }
}

/// Re-score the surviving candidates with the pixel-overlap penalty; every
/// candidate keeps its piece and face indices and takes the overlap
/// penalty as its new cost key.
pub fn refine_candidates(pieces: &PieceVec, survivors: &Vec<FacePairCandidate>) -> (r: Vec<
    FacePairCandidate,
>)
    requires
        forall|p: int| 0 <= p < pieces@.len() ==> (#[trigger] pieces@[p]).wf(),
        forall|p: int| 0 <= p < pieces@.len() ==> (#[trigger] pieces@[p]).mask.bounded(),
        forall|p: int| 0 <= p < pieces@.len() ==> (#[trigger] pieces@[p]).faces_within(),
        forall|a: int, b: int|
            0 <= a < pieces@.len() && 0 <= b < pieces@.len() ==> spec_dims_ok(
                #[trigger] pieces@[a],
                #[trigger] pieces@[b],
            ),
        forall|k: int|
            0 <= k < survivors@.len() ==> candidate_ok(pieces@, #[trigger] survivors@[k]),
    ensures
        r@.len() == survivors@.len(),
        forall|k: int|
            0 <= k < r@.len() ==> {
                let c = #[trigger] r@[k];
                let s = survivors@[k];
                &&& c.piece1 == s.piece1
                &&& c.face1 == s.face1
                &&& c.piece2 == s.piece2
                &&& c.face2 == s.face2
                &&& c.dist == spec_best_mask_dist(
                    pieces@[s.piece1 as int],
                    s.face1 as int,
                    pieces@[s.piece2 as int],
                    s.face2 as int,
                )
            },
{
    let mut r: Vec<FacePairCandidate> = Vec::new();
    let mut k: usize = 0;
    while k < survivors.len()
        invariant
            forall|p: int| 0 <= p < pieces@.len() ==> (#[trigger] pieces@[p]).wf(),
            forall|p: int| 0 <= p < pieces@.len() ==> (#[trigger] pieces@[p]).mask.bounded(),
            forall|p: int| 0 <= p < pieces@.len() ==> (#[trigger] pieces@[p]).faces_within(),
            forall|a: int, b: int|
                0 <= a < pieces@.len() && 0 <= b < pieces@.len() ==> spec_dims_ok(
                    #[trigger] pieces@[a],
                    #[trigger] pieces@[b],
                ),
            forall|k2: int|
                0 <= k2 < survivors@.len() ==> candidate_ok(pieces@, #[trigger] survivors@[k2]),
            k <= survivors@.len(),
            r@.len() == k,
            forall|k2: int|
                0 <= k2 < k ==> {
                    let c = #[trigger] r@[k2];
                    let s = survivors@[k2];
                    &&& c.piece1 == s.piece1
                    &&& c.face1 == s.face1
                    &&& c.piece2 == s.piece2
                    &&& c.face2 == s.face2
                    &&& c.dist == spec_best_mask_dist(
                        pieces@[s.piece1 as int],
                        s.face1 as int,
                        pieces@[s.piece2 as int],
                        s.face2 as int,
                    )
                },
        decreases survivors@.len() - k,
    {
        let c = survivors[k];
        let p1 = &pieces[c.piece1];
        let p2 = &pieces[c.piece2];
        let d = calc_face_mask_dist(p1, c.face1, p2, c.face2);
        r.push(
            FacePairCandidate {
                dist: d as u64,
                piece1: c.piece1,
                face1: c.face1,
                piece2: c.piece2,
                face2: c.face2,
            },
        );
        k = k + 1;
    }
    r
}



/// The quadruple names two distinct pieces in order and two faces whose
/// classified modes differ.
pub open spec fn pair_ok(pieces: Seq<Piece>, t: (usize, usize, usize, usize)) -> bool {
    &&& t.0 < t.2
    &&& t.2 < pieces.len()
    &&& t.1 < 4
    &&& t.3 < 4
    &&& pieces[t.0 as int].faces@[t.1 as int].mode != pieces[t.2 as int].faces@[t.3 as int].mode
}

/// The scan of piece pairs and faces has passed quadruple `(a, b, c, d)`
/// when it stands at pieces `(i1, i2)`, faces `(f1, f2)`.
pub open spec fn pair_scanned(
    a: int,
    b: int,
    c: int,
    d: int,
    i1: int,
    i2: int,
    f1: int,
    f2: int,
) -> bool {
    ||| a < i1
    ||| (a == i1 && c < i2)
    ||| (a == i1 && c == i2 && b < f1)
    ||| (a == i1 && c == i2 && b == f1 && d < f2)
}

/// Enumerate, in scan order, every combination of an unordered piece pair
/// and a face of each whose modes differ: the candidates the alignment
/// stage scores. Quadruples read `(first piece, its face, second piece,
/// its face)`.
pub fn candidate_pairs(pieces: &PieceVec) -> (r: Vec<(usize, usize, usize, usize)>)
    ensures
        forall|k: int| 0 <= k < r@.len() ==> pair_ok(pieces@, #[trigger] r@[k]),
        forall|a: usize, b: usize, c: usize, d: usize|
            #[trigger] pair_ok(pieces@, (a, b, c, d)) ==> r@.contains((a, b, c, d)),
        forall|k1: int, k2: int|
            0 <= k1 < k2 < r@.len() ==> pair_scanned(
                r@[k1].0 as int,
                r@[k1].1 as int,
                r@[k1].2 as int,
                r@[k1].3 as int,
                r@[k2].0 as int,
                r@[k2].2 as int,
                r@[k2].1 as int,
                r@[k2].3 as int,
            ),
{
    let n = pieces.len();
    let mut r: Vec<(usize, usize, usize, usize)> = Vec::new();
    let mut i1: usize = 0;
    while i1 < n
        invariant
            n == pieces@.len(),
            i1 <= n,
            forall|k: int| 0 <= k < r@.len() ==> pair_ok(pieces@, #[trigger] r@[k]),
            forall|k: int|
                0 <= k < r@.len() ==> pair_scanned(
                    (#[trigger] r@[k]).0 as int,
                    r@[k].1 as int,
                    r@[k].2 as int,
                    r@[k].3 as int,
                    i1 as int,
                    i1 as int + 1,
                    0,
                    0,
                ),
            forall|a: usize, b: usize, c: usize, d: usize|
                #[trigger] pair_ok(pieces@, (a, b, c, d)) && pair_scanned(
                    a as int,
                    b as int,
                    c as int,
                    d as int,
                    i1 as int,
                    i1 as int + 1,
                    0,
                    0,
                ) ==> r@.contains((a, b, c, d)),
            forall|k1: int, k2: int|
                0 <= k1 < k2 < r@.len() ==> pair_scanned(
                    r@[k1].0 as int,
                    r@[k1].1 as int,
                    r@[k1].2 as int,
                    r@[k1].3 as int,
                    r@[k2].0 as int,
                    r@[k2].2 as int,
                    r@[k2].1 as int,
                    r@[k2].3 as int,
                ),
        decreases n - i1,
    {
        let mut i2: usize = i1 + 1;
        while i2 < n
            invariant
                n == pieces@.len(),
                i1 < n,
                i1 < i2 <= n,
                forall|k: int| 0 <= k < r@.len() ==> pair_ok(pieces@, #[trigger] r@[k]),
                forall|k: int|
                    0 <= k < r@.len() ==> pair_scanned(
                        (#[trigger] r@[k]).0 as int,
                        r@[k].1 as int,
                        r@[k].2 as int,
                        r@[k].3 as int,
                        i1 as int,
                        i2 as int,
                        0,
                        0,
                    ),
                forall|a: usize, b: usize, c: usize, d: usize|
                    #[trigger] pair_ok(pieces@, (a, b, c, d)) && pair_scanned(
                        a as int,
                        b as int,
                        c as int,
                        d as int,
                        i1 as int,
                        i2 as int,
                        0,
                        0,
                    ) ==> r@.contains((a, b, c, d)),
                forall|k1: int, k2: int|
                    0 <= k1 < k2 < r@.len() ==> pair_scanned(
                        r@[k1].0 as int,
                        r@[k1].1 as int,
                        r@[k1].2 as int,
                        r@[k1].3 as int,
                        r@[k2].0 as int,
                        r@[k2].2 as int,
                        r@[k2].1 as int,
                        r@[k2].3 as int,
                    ),
            decreases n - i2,
        {
            let mut f1: usize = 0;
            while f1 < 4
                invariant
                    n == pieces@.len(),
                    i1 < i2 < n,
                    f1 <= 4,
                    forall|k: int| 0 <= k < r@.len() ==> pair_ok(pieces@, #[trigger] r@[k]),
                    forall|k: int|
                        0 <= k < r@.len() ==> pair_scanned(
                            (#[trigger] r@[k]).0 as int,
                            r@[k].1 as int,
                            r@[k].2 as int,
                            r@[k].3 as int,
                            i1 as int,
                            i2 as int,
                            f1 as int,
                            0,
                        ),
                    forall|a: usize, b: usize, c: usize, d: usize|
                        #[trigger] pair_ok(pieces@, (a, b, c, d)) && pair_scanned(
                            a as int,
                            b as int,
                            c as int,
                            d as int,
                            i1 as int,
                            i2 as int,
                            f1 as int,
                            0,
                        ) ==> r@.contains((a, b, c, d)),
                    forall|k1: int, k2: int|
                        0 <= k1 < k2 < r@.len() ==> pair_scanned(
                            r@[k1].0 as int,
                            r@[k1].1 as int,
                            r@[k1].2 as int,
                            r@[k1].3 as int,
                            r@[k2].0 as int,
                            r@[k2].2 as int,
                            r@[k2].1 as int,
                            r@[k2].3 as int,
                        ),
                decreases 4 - f1,
            {
                let mut f2: usize = 0;
                while f2 < 4
                    invariant
                        n == pieces@.len(),
                        i1 < i2 < n,
                        f1 < 4,
                        f2 <= 4,
                        forall|k: int| 0 <= k < r@.len() ==> pair_ok(pieces@, #[trigger] r@[k]),
                        forall|k: int|
                            0 <= k < r@.len() ==> pair_scanned(
                                (#[trigger] r@[k]).0 as int,
                                r@[k].1 as int,
                                r@[k].2 as int,
                                r@[k].3 as int,
                                i1 as int,
                                i2 as int,
                                f1 as int,
                                f2 as int,
                            ),
                        forall|a: usize, b: usize, c: usize, d: usize|
                            #[trigger] pair_ok(pieces@, (a, b, c, d)) && pair_scanned(
                                a as int,
                                b as int,
                                c as int,
                                d as int,
                                i1 as int,
                                i2 as int,
                                f1 as int,
                                f2 as int,
                            ) ==> r@.contains((a, b, c, d)),
                        forall|k1: int, k2: int|
                            0 <= k1 < k2 < r@.len() ==> pair_scanned(
                                r@[k1].0 as int,
                                r@[k1].1 as int,
                                r@[k1].2 as int,
                                r@[k1].3 as int,
                                r@[k2].0 as int,
                                r@[k2].2 as int,
                                r@[k2].1 as int,
                                r@[k2].3 as int,
                            ),
                    decreases 4 - f2,
                {
                    let m1 = pieces[i1].faces[f1].mode;
                    let m2 = pieces[i2].faces[f2].mode;
                    let ghost r0 = r@;
                    if m1 != m2 {
                        r.push((i1, f1, i2, f2));
                    }
                    proof {
                        if m1 != m2 {
                            assert(r@ == r0.push((i1, f1, i2, f2)));
                        }
                        assert forall|a: usize, b: usize, c: usize, d: usize|
                            #[trigger] pair_ok(pieces@, (a, b, c, d)) && pair_scanned(
                                a as int,
                                b as int,
                                c as int,
                                d as int,
                                i1 as int,
                                i2 as int,
                                f1 as int,
                                f2 as int + 1,
                            ) implies r@.contains((a, b, c, d)) by {
                            if a == i1 && c == i2 && b == f1 && d == f2 {
                                assert(m1 != m2);
                                assert(r@[r@.len() - 1] == (i1, f1, i2, f2));
                            } else {
                                assert(pair_scanned(a as int, b as int, c as int, d as int,
                                    i1 as int, i2 as int, f1 as int, f2 as int));
                                assert(r0.contains((a, b, c, d)));
                                if m1 != m2 {
                                    let k = choose|k: int|
                                        0 <= k < r0.len() && r0[k] == (a, b, c, d);
                                    assert(r@[k] == r0[k]);
                                }
                            }
                        }
                    }
                    f2 = f2 + 1;
                }
                f1 = f1 + 1;
            }
            i2 = i2 + 1;
        }
        i1 = i1 + 1;
    }
    proof {
        assert forall|a: usize, b: usize, c: usize, d: usize|
            #[trigger] pair_ok(pieces@, (a, b, c, d)) implies r@.contains((a, b, c, d)) by {
            assert(pair_scanned(a as int, b as int, c as int, d as int, n as int, n as int + 1, 0,
                0));
        }
    }
    r
}



/// The match entries that one accepted candidate writes into the list
/// of piece `p`, face `f`.
pub open spec fn candidate_entries(c: FacePairCandidate, p: int, f: int) -> Seq<PieceMatch> {
    (if c.piece1 == p && c.face1 == f {
        seq![PieceMatch { piece: c.piece2, side: c.face2, distance: c.dist }]
    } else {
        Seq::empty()
    }) + (if c.piece2 == p && c.face2 == f {
        seq![PieceMatch { piece: c.piece1, side: c.face1, distance: c.dist }]
    } else {
        Seq::empty()
    })
}

/// The match entries that a sequence of accepted candidates, taken in
/// order, writes into the list of piece `p`, face `f`.
pub open spec fn assigned(acc: Seq<FacePairCandidate>, p: int, f: int) -> Seq<PieceMatch>
    decreases acc.len(),
{
    if acc.len() == 0 {
        Seq::empty()
    } else {
        assigned(acc.drop_last(), p, f) + candidate_entries(acc.last(), p, f)
    }
}

fn push_match(pieces: &mut PieceVec, i: usize, f: usize, m: PieceMatch)
    requires
        i < old(pieces)@.len(),
        f < 4,
        old(pieces)@[i as int].matches@.len() == 4,
    ensures
        final(pieces)@.len() == old(pieces)@.len(),
        forall|p: int|
            0 <= p < old(pieces)@.len() && p != i ==> final(pieces)@[p] == old(pieces)@[p],
        final(pieces)@[i as int] == (Piece {
            matches: final(pieces)@[i as int].matches,
            ..old(pieces)@[i as int]
        }),
        final(pieces)@[i as int].matches@.len() == 4,
        forall|g: int|
            0 <= g < 4 && g != f ==> final(pieces)@[i as int].matches@[g]
                == old(pieces)@[i as int].matches@[g],
        final(pieces)@[i as int].matches@[f as int]@ == old(pieces)@[i as int].matches@[
            f as int]@.push(m),
{
    let piece = &mut pieces[i];
    let lst = &mut piece.matches[f];
    lst.push(m);
}

/// Write every accepted candidate into both named pieces' per-face match
/// lists, appending in acceptance order.
pub fn assign_matches(pieces: &mut PieceVec, accepted: &Vec<FacePairCandidate>)
    requires
        forall|p: int| 0 <= p < old(pieces)@.len() ==> (#[trigger] old(pieces)@[p]).wf(),
        forall|k: int|
            0 <= k < accepted@.len() ==> candidate_ok(old(pieces)@, #[trigger] accepted@[k]),
    ensures
        final(pieces)@.len() == old(pieces)@.len(),
        forall|p: int|
            0 <= p < old(pieces)@.len() ==> (#[trigger] final(pieces)@[p]) == (Piece {
                matches: final(pieces)@[p].matches,
                ..old(pieces)@[p]
            }),
        forall|p: int| 0 <= p < old(pieces)@.len() ==> (#[trigger] final(pieces)@[p]).wf(),
        forall|p: int, f: int|
            0 <= p < old(pieces)@.len() && 0 <= f < 4
                ==> (#[trigger] final(pieces)@[p].matches@[f])@ == old(pieces)@[p].matches@[f]@
                + assigned(accepted@, p, f),
{
    let n = pieces.len();
    let mut k: usize = 0;
    while k < accepted.len()
        invariant
            n == old(pieces)@.len(),
            pieces@.len() == n,
            k <= accepted@.len(),
            forall|k2: int|
                0 <= k2 < accepted@.len() ==> candidate_ok(old(pieces)@, #[trigger] accepted@[k2]),
            forall|p: int|
                0 <= p < n ==> (#[trigger] pieces@[p]) == (Piece {
                    matches: pieces@[p].matches,
                    ..old(pieces)@[p]
                }),
            forall|p: int| 0 <= p < n ==> (#[trigger] pieces@[p]).matches@.len() == 4,
            forall|p: int| 0 <= p < n ==> (#[trigger] pieces@[p]).wf(),
            forall|p: int, f: int|
                0 <= p < n && 0 <= f < 4 ==> (#[trigger] pieces@[p].matches@[f])@ == old(
                    pieces,
                )@[p].matches@[f]@ + assigned(accepted@.take(k as int), p, f),
        decreases accepted@.len() - k,
    {
        let c = accepted[k];
        let ghost before = pieces@;
        push_match(pieces, c.piece1, c.face1, PieceMatch {
            piece: c.piece2,
            side: c.face2,
            distance: c.dist,
        });
        push_match(pieces, c.piece2, c.face2, PieceMatch {
            piece: c.piece1,
            side: c.face1,
            distance: c.dist,
        });
        proof {
            assert(accepted@.take(k as int + 1).drop_last() =~= accepted@.take(k as int));
            assert(accepted@.take(k as int + 1).last() == accepted@[k as int]);
            assert forall|p: int, f: int|
                0 <= p < n && 0 <= f < 4 implies (#[trigger] pieces@[p].matches@[f])@ == old(
                pieces,
            )@[p].matches@[f]@ + assigned(accepted@.take(k as int + 1), p, f) by {
                assert(assigned(accepted@.take(k as int + 1), p, f) == assigned(
                    accepted@.take(k as int),
                    p,
                    f,
                ) + candidate_entries(c, p, f));
                if p == c.piece1 as int && f == c.face1 as int {
                    assert(pieces@[p].matches@[f]@ =~= old(pieces)@[p].matches@[f]@ + assigned(
                        accepted@.take(k as int + 1),
                        p,
                        f,
                    ));
                } else if p == c.piece2 as int && f == c.face2 as int {
                    assert(pieces@[p].matches@[f]@ =~= old(pieces)@[p].matches@[f]@ + assigned(
                        accepted@.take(k as int + 1),
                        p,
                        f,
                    ));
                } else {
                    assert(candidate_entries(c, p, f) =~= Seq::<PieceMatch>::empty());
                    assert(pieces@[p].matches@[f]@ =~= old(pieces)@[p].matches@[f]@ + assigned(
                        accepted@.take(k as int + 1),
                        p,
                        f,
                    ));
                }
            }
        }
        k = k + 1;
    }
    proof {
        assert(accepted@.take(accepted@.len() as int) =~= accepted@);
    }
}

/// Index of the earliest entry with the least cost in a non-empty list;
/// zero for lists of at most one entry.
pub open spec fn earliest_min_index(s: Seq<PieceMatch>) -> int
    decreases s.len(),
{
    if s.len() <= 1 {
        0
    } else {
        let r = earliest_min_index(s.drop_first()) + 1;
        if s[0].distance <= s[r].distance {
            0
        } else {
            r
        }
    }
}

/// What the best-of-one pruning keeps of a match list: nothing of an empty
/// list, else exactly the earliest entry with the least cost.
pub open spec fn retained(s: Seq<PieceMatch>) -> Seq<PieceMatch> {
    if s.len() == 0 {
        s
    } else {
        seq![s[earliest_min_index(s)]]
    }
}

/// The earliest-minimum index points at a least-cost entry and everything
/// before it costs strictly more.
pub proof fn lemma_earliest_min_index(s: Seq<PieceMatch>)
    requires
        s.len() > 0,
    ensures
        0 <= earliest_min_index(s) < s.len(),
        forall|j: int| 0 <= j < s.len() ==> s[earliest_min_index(s)].distance <= (#[trigger] s[j]).distance,
        forall|j: int| 0 <= j < earliest_min_index(s) ==> (#[trigger] s[j]).distance
            > s[earliest_min_index(s)].distance,
    decreases s.len(),
{
    if s.len() > 1 {
        lemma_earliest_min_index(s.drop_first());
        let e = earliest_min_index(s.drop_first());
        assert forall|j: int| 0 <= j < s.len() implies s[earliest_min_index(s)].distance
            <= (#[trigger] s[j]).distance by {
            if j > 0 {
                assert(s.drop_first()[j - 1] == s[j]);
                assert(s.drop_first()[e].distance <= s.drop_first()[j - 1].distance);
            }
        }
        assert forall|j: int| 0 <= j < earliest_min_index(s) implies (#[trigger] s[j]).distance
            > s[earliest_min_index(s)].distance by {
            if j > 0 {
                assert(s.drop_first()[j - 1] == s[j]);
            }
        }
    }
}

/// Cut every piece's per-face match list down to its single best entry,
/// the earliest one with the least cost.
pub fn prune_matches(pieces: &mut PieceVec)
    requires
        forall|p: int| 0 <= p < old(pieces)@.len() ==> (#[trigger] old(pieces)@[p]).wf(),
    ensures
        final(pieces)@.len() == old(pieces)@.len(),
        forall|p: int|
            0 <= p < old(pieces)@.len() ==> (#[trigger] final(pieces)@[p]) == (Piece {
                matches: final(pieces)@[p].matches,
                ..old(pieces)@[p]
            }),
        forall|p: int| 0 <= p < old(pieces)@.len() ==> (#[trigger] final(pieces)@[p]).wf(),
        forall|p: int, f: int|
            0 <= p < old(pieces)@.len() && 0 <= f < 4
                ==> (#[trigger] final(pieces)@[p].matches@[f])@ == retained(
                old(pieces)@[p].matches@[f]@,
            ),
{
    let n = pieces.len();
    let mut p: usize = 0;
    while p < n
        invariant
            n == old(pieces)@.len(),
            pieces@.len() == n,
            p <= n,
            forall|q: int|
                0 <= q < n ==> (#[trigger] pieces@[q]) == (Piece {
                    matches: pieces@[q].matches,
                    ..old(pieces)@[q]
                }),
            forall|q: int| 0 <= q < n ==> (#[trigger] pieces@[q]).matches@.len() == 4,
            forall|q: int| 0 <= q < n ==> (#[trigger] pieces@[q]).wf(),
            forall|q: int, f: int|
                0 <= q < p && 0 <= f < 4 ==> (#[trigger] pieces@[q].matches@[f])@ == retained(
                    old(pieces)@[q].matches@[f]@,
                ),
            forall|q: int, f: int|
                p <= q < n && 0 <= f < 4 ==> (#[trigger] pieces@[q].matches@[f])@ == old(
                    pieces,
                )@[q].matches@[f]@,
        decreases n - p,
    {
        let mut f: usize = 0;
        while f < 4
            invariant
                n == old(pieces)@.len(),
                pieces@.len() == n,
                p < n,
                f <= 4,
                forall|q: int|
                    0 <= q < n ==> (#[trigger] pieces@[q]) == (Piece {
                        matches: pieces@[q].matches,
                        ..old(pieces)@[q]
                    }),
                forall|q: int| 0 <= q < n ==> (#[trigger] pieces@[q]).matches@.len() == 4,
                forall|q: int| 0 <= q < n ==> (#[trigger] pieces@[q]).wf(),
                forall|q: int, g: int|
                    0 <= q < p && 0 <= g < 4 ==> (#[trigger] pieces@[q].matches@[g])@ == retained(
                        old(pieces)@[q].matches@[g]@,
                    ),
                forall|g: int|
                    0 <= g < f ==> (#[trigger] pieces@[p as int].matches@[g])@ == retained(
                        old(pieces)@[p as int].matches@[g]@,
                    ),
                forall|g: int|
                    f <= g < 4 ==> (#[trigger] pieces@[p as int].matches@[g])@ == old(
                        pieces,
                    )@[p as int].matches@[g]@,
                forall|q: int, g: int|
                    p < q < n && 0 <= g < 4 ==> (#[trigger] pieces@[q].matches@[g])@ == old(
                        pieces,
                    )@[q].matches@[g]@,
        decreases 4 - f,
        {
            let len = pieces[p].matches[f].len();
            if len > 0 {
                let ghost lst = pieces@[p as int].matches@[f as int]@;
                let mut mi: usize = 0;
                let mut j: usize = 1;
                while j < len
                    invariant
                        p < pieces@.len(),
                        f < 4,
                        pieces@[p as int].matches@.len() == 4,
                        len == pieces@[p as int].matches@[f as int]@.len(),
                        lst == pieces@[p as int].matches@[f as int]@,
                        mi < j,
                        j <= len,
                        forall|t: int| 0 <= t < j ==> lst[mi as int].distance <= lst[t].distance,
                        forall|t: int| 0 <= t < mi ==> lst[t].distance > lst[mi as int].distance,
                    decreases len - j,
                {
                    let dj = pieces[p].matches[f][j].distance;
                    let dmi = pieces[p].matches[f][mi].distance;
                    if dj < dmi {
                        mi = j;
                    }
                    j = j + 1;
                }
                let kept = pieces[p].matches[f][mi];
                let mut newlist: PieceMatchVec = Vec::new();
                newlist.push(kept);
                proof {
                    lemma_earliest_min_index(lst);
                    let e = earliest_min_index(lst);
                    assert(mi as int == e) by {
                        if (mi as int) < e {
                            assert(lst[mi as int].distance > lst[e].distance);
                            assert(lst[e].distance <= lst[mi as int].distance);
                        } else if e < mi as int {
                            assert(lst[e].distance > lst[mi as int].distance);
                            assert(lst[e].distance <= lst[mi as int].distance);
                        }
                    }
                    assert(newlist@ =~= retained(lst));
                }
                let piece = &mut pieces[p];
                piece.matches.set(f, newlist);
            }
            f = f + 1;
        }
        p = p + 1;
    }
}



/// The longest prefix of the sequence whose cost keys lie strictly below
/// the cut.
pub open spec fn take_below(s: Seq<FacePairCandidate>, cut: u64) -> Seq<FacePairCandidate>
    decreases s.len(),
{
    if s.len() == 0 || s.first().dist >= cut {
        Seq::empty()
    } else {
        seq![s.first()] + take_below(s.drop_first(), cut)
    }
}

/// The longest prefix of the sequence whose cost keys lie at or below the
/// cut.
pub open spec fn take_at_or_below(s: Seq<FacePairCandidate>, cut: u64) -> Seq<FacePairCandidate>
    decreases s.len(),
{
    if s.len() == 0 || s.first().dist > cut {
        Seq::empty()
    } else {
        seq![s.first()] + take_at_or_below(s.drop_first(), cut)
    }
}

proof fn lemma_take_below_is_prefix(s: Seq<FacePairCandidate>, cut: u64, k: int)
    requires
        0 <= k <= s.len(),
        forall|i: int| 0 <= i < k ==> (#[trigger] s[i]).dist < cut,
        k == s.len() || s[k].dist >= cut,
    ensures
        take_below(s, cut) == s.subrange(0, k),
    decreases s.len(),
{
    if k == 0 {
        assert(take_below(s, cut) =~= s.subrange(0, 0));
    } else {
        assert(s.first().dist < cut);
        let df = s.drop_first();
        assert forall|i: int| 0 <= i < k - 1 implies (#[trigger] df[i]).dist < cut by {
            assert(df[i] == s[i + 1]);
        }
        assert(k - 1 == df.len() || df[k - 1].dist >= cut);
        lemma_take_below_is_prefix(df, cut, k - 1);
        assert(seq![s.first()] + df.subrange(0, k - 1) =~= s.subrange(0, k));
    }
}

proof fn lemma_take_at_or_below_is_prefix(s: Seq<FacePairCandidate>, cut: u64, k: int)
    requires
        0 <= k <= s.len(),
        forall|i: int| 0 <= i < k ==> (#[trigger] s[i]).dist <= cut,
        k == s.len() || s[k].dist > cut,
    ensures
        take_at_or_below(s, cut) == s.subrange(0, k),
    decreases s.len(),
{
    if k == 0 {
        assert(take_at_or_below(s, cut) =~= s.subrange(0, 0));
    } else {
        assert(s.first().dist <= cut);
        let df = s.drop_first();
        assert forall|i: int| 0 <= i < k - 1 implies (#[trigger] df[i]).dist <= cut by {
            assert(df[i] == s[i + 1]);
        }
        assert(k - 1 == df.len() || df[k - 1].dist > cut);
        lemma_take_at_or_below_is_prefix(df, cut, k - 1);
        assert(seq![s.first()] + df.subrange(0, k - 1) =~= s.subrange(0, k));
    }
}

/// The candidate with its cost key replaced by the overlap penalty of its
/// own face pair.
pub open spec fn rescored(ps: Seq<Piece>, c: FacePairCandidate) -> FacePairCandidate {
    FacePairCandidate {
        dist: spec_best_mask_dist(
            ps[c.piece1 as int],
            c.face1 as int,
            ps[c.piece2 as int],
            c.face2 as int,
        ) as u64,
        piece1: c.piece1,
        face1: c.face1,
        piece2: c.piece2,
        face2: c.face2,
    }
}

/// Every candidate of the sequence re-scored by its overlap penalty, in
/// order.
pub open spec fn rescore(ps: Seq<Piece>, s: Seq<FacePairCandidate>) -> Seq<FacePairCandidate>
    decreases s.len(),
{
    if s.len() == 0 {
        Seq::empty()
    } else {
        rescore(ps, s.drop_last()).push(rescored(ps, s.last()))
    }
}

proof fn lemma_rescore_index(ps: Seq<Piece>, s: Seq<FacePairCandidate>)
    ensures
        rescore(ps, s).len() == s.len(),
        forall|k: int| 0 <= k < s.len() ==> rescore(ps, s)[k] == rescored(ps, #[trigger] s[k]),
    decreases s.len(),
{
    if s.len() > 0 {
        lemma_rescore_index(ps, s.drop_last());
        assert forall|k: int|
            0 <= k < s.len() implies rescore(ps, s)[k] == rescored(ps, #[trigger] s[k]) by {
            if k < s.len() - 1 {
                assert(s.drop_last()[k] == s[k]);
                assert(rescore(ps, s)[k] == rescore(ps, s.drop_last())[k]);
            }
        }
    }
}

/// The candidates the match pipeline accepts, as a function of the pieces
/// and the alignment cost keys: order the keys (stable), keep the
/// candidates strictly below the key at the middle of the order, re-score
/// the survivors by pixel overlap, order again, and keep those at or
/// below half the middle overlap score.
pub open spec fn accepted_candidates(ps: Seq<Piece>, coarse: Seq<FacePairCandidate>) -> Seq<
    FacePairCandidate,
> {
    if coarse.len() == 0 {
        Seq::empty()
    } else {
        let sorted = sort_by_key(coarse);
        let cut = sorted[coarse.len() as int / 2].dist;
        let survivors = take_below(sorted, cut);
        let refined = rescore(ps, survivors);
        if refined.len() == 0 {
            Seq::empty()
        } else {
            let sorted2 = sort_by_key(refined);
            let cut2 = sorted2[refined.len() as int / 2].dist / 2;
            take_at_or_below(sorted2, cut2)
        }
    }
}

/// Candidate `c` writes entry `m` into the list of piece `p`, face `f`.
pub open spec fn candidate_links(c: FacePairCandidate, p: int, f: int, m: PieceMatch) -> bool {
    ||| (c.piece1 == p && c.face1 == f && m.piece == c.piece2 && m.side == c.face2 && m.distance
        == c.dist)
    ||| (c.piece2 == p && c.face2 == f && m.piece == c.piece1 && m.side == c.face1 && m.distance
        == c.dist)
}

/// Every entry of an assigned list traces back to one accepted candidate.
pub proof fn lemma_assigned_membership(acc: Seq<FacePairCandidate>, p: int, f: int, t: int)
    requires
        0 <= t < assigned(acc, p, f).len(),
    ensures
        exists|k: int| 0 <= k < acc.len() && candidate_links(#[trigger] acc[k], p, f, assigned(acc, p, f)[t]),
    decreases acc.len(),
{
    let s = assigned(acc, p, f);
    if acc.len() > 0 {
        let prev = assigned(acc.drop_last(), p, f);
        let add = candidate_entries(acc.last(), p, f);
        assert(s == prev + add);
        if t < prev.len() {
            lemma_assigned_membership(acc.drop_last(), p, f, t);
            let k = choose|k: int|
                0 <= k < acc.drop_last().len() && candidate_links(
                    #[trigger] acc.drop_last()[k],
                    p,
                    f,
                    prev[t],
                );
            assert(acc[k] == acc.drop_last()[k]);
            assert(s[t] == prev[t]);
            assert(candidate_links(acc[k], p, f, s[t]));
        } else {
            let c = acc.last();
            assert(s[t] == add[t - prev.len()]);
            assert(candidate_links(c, p, f, add[t - prev.len()]));
            assert(acc[acc.len() - 1] == c);
        }
    }
}

/// The candidate's cost key is the overlap penalty of its face pair.
pub open spec fn candidate_scored(pieces: Seq<Piece>, c: FacePairCandidate) -> bool {
    c.dist == spec_best_mask_dist(
        pieces[c.piece1 as int],
        c.face1 as int,
        pieces[c.piece2 as int],
        c.face2 as int,
    )
}

/// A permutation of overlap-scored candidates is overlap-scored.
proof fn lemma_perm_candidate_scored(
    pieces: Seq<Piece>,
    s1: Seq<FacePairCandidate>,
    s2: Seq<FacePairCandidate>,
)
    requires
        s1.to_multiset() == s2.to_multiset(),
        forall|k: int| 0 <= k < s1.len() ==> candidate_scored(pieces, #[trigger] s1[k]),
    ensures
        forall|k: int| 0 <= k < s2.len() ==> candidate_scored(pieces, #[trigger] s2[k]),
{
    assert forall|k: int| 0 <= k < s2.len() implies candidate_scored(pieces, #[trigger] s2[k]) by {
        s2.to_multiset_ensures();
        s1.to_multiset_ensures();
        assert(s2.contains(s2[k]));
        assert(s2.to_multiset().count(s2[k]) > 0);
        assert(s1.to_multiset().count(s2[k]) > 0);
        assert(s1.contains(s2[k]));
        let t = choose|t: int| 0 <= t < s1.len() && s1[t] == s2[k];
        assert(candidate_scored(pieces, s1[t]));
    }
}

/// A permutation of valid candidates is valid.
proof fn lemma_perm_candidate_ok(
    pieces: Seq<Piece>,
    s1: Seq<FacePairCandidate>,
    s2: Seq<FacePairCandidate>,
)
    requires
        s1.to_multiset() == s2.to_multiset(),
        forall|k: int| 0 <= k < s1.len() ==> candidate_ok(pieces, #[trigger] s1[k]),
    ensures
        forall|k: int| 0 <= k < s2.len() ==> candidate_ok(pieces, #[trigger] s2[k]),
{
    assert forall|k: int| 0 <= k < s2.len() implies candidate_ok(pieces, #[trigger] s2[k]) by {
        s2.to_multiset_ensures();
        s1.to_multiset_ensures();
        assert(s2.contains(s2[k]));
        assert(s2.to_multiset().count(s2[k]) > 0);
        assert(s1.to_multiset().count(s2[k]) > 0);
        assert(s1.contains(s2[k]));
        let t = choose|t: int| 0 <= t < s1.len() && s1[t] == s2[k];
        assert(candidate_ok(pieces, s1[t]));
    }
}

/// Populate every piece's per-face match lists from the cheap alignment
/// costs: order the candidates, keep those strictly under the cost at the
/// middle of the order, re-score the survivors by pixel overlap, keep
/// those at or under half the middle overlap score, write the accepted
/// candidates into both pieces' lists, and keep only the single best entry
/// per face. Each final list equals `retained(assigned(..))` of the
/// accepted set, so `lemma_assigned_symmetry` and `lemma_retained_mutual`
/// apply to the result directly.
#[verifier::rlimit(100)]
#[verifier::spinoff_prover]
pub fn compute_matching(pieces: &mut PieceVec, coarse: Vec<FacePairCandidate>)
    requires
        forall|p: int| 0 <= p < old(pieces)@.len() ==> (#[trigger] old(pieces)@[p]).wf(),
        forall|p: int| 0 <= p < old(pieces)@.len() ==> (#[trigger] old(pieces)@[p]).mask.bounded(),
        forall|p: int| 0 <= p < old(pieces)@.len() ==> (#[trigger] old(pieces)@[p]).faces_within(),
        forall|p: int| 0 <= p < old(pieces)@.len() ==> (#[trigger] old(pieces)@[p]).modes_known(),
        forall|p: int, f: int|
            0 <= p < old(pieces)@.len() && 0 <= f < 4
                ==> (#[trigger] old(pieces)@[p].matches@[f])@.len() == 0,
        forall|a: int, b: int|
            0 <= a < old(pieces)@.len() && 0 <= b < old(pieces)@.len() ==> spec_dims_ok(
                #[trigger] old(pieces)@[a],
                #[trigger] old(pieces)@[b],
            ),
        forall|k: int| 0 <= k < coarse@.len() ==> candidate_ok(old(pieces)@, #[trigger] coarse@[k]),
    ensures
        final(pieces)@.len() == old(pieces)@.len(),
        forall|p: int|
            0 <= p < old(pieces)@.len() ==> (#[trigger] final(pieces)@[p]) == (Piece {
                matches: final(pieces)@[p].matches,
                ..old(pieces)@[p]
            }),
        forall|p: int| 0 <= p < old(pieces)@.len() ==> (#[trigger] final(pieces)@[p]).wf(),
        forall|p: int, f: int|
            0 <= p < old(pieces)@.len() && 0 <= f < 4
                ==> (#[trigger] final(pieces)@[p].matches@[f])@ == retained(
                assigned(accepted_candidates(old(pieces)@, coarse@), p, f),
            ),
        forall|p: int, f: int|
            0 <= p < old(pieces)@.len() && 0 <= f < 4
                ==> (#[trigger] final(pieces)@[p].matches@[f])@.len() <= 1,
        forall|p: int, f: int|
            0 <= p < old(pieces)@.len() && 0 <= f < 4
                && (#[trigger] final(pieces)@[p].matches@[f])@.len() == 1 ==> {
                let m = final(pieces)@[p].matches@[f]@[0];
                &&& m.piece < old(pieces)@.len()
                &&& m.side < 4
                &&& m.piece != p
                &&& old(pieces)@[p].faces@[f].mode != PieceSideType::Unknown
                &&& old(pieces)@[m.piece as int].faces@[m.side as int].mode
                    != PieceSideType::Unknown
                &&& old(pieces)@[p].faces@[f].mode != old(pieces)@[m.piece as int].faces@[
                    m.side as int].mode
                &&& (m.distance == spec_best_mask_dist(
                    old(pieces)@[p],
                    f,
                    old(pieces)@[m.piece as int],
                    m.side as int,
                ) || m.distance == spec_best_mask_dist(
                    old(pieces)@[m.piece as int],
                    m.side as int,
                    old(pieces)@[p],
                    f,
                ))
            },
        coarse@.len() == 0 ==> forall|p: int, f: int|
            0 <= p < old(pieces)@.len() && 0 <= f < 4
                ==> (#[trigger] final(pieces)@[p].matches@[f])@.len() == 0,
{
    let ghost ps0 = pieces@;
    if coarse.len() == 0 {
        proof {
            assert forall|p: int, f: int|
                0 <= p < ps0.len() && 0 <= f < 4 implies (#[trigger] pieces@[p].matches@[f])@
                == retained(assigned(accepted_candidates(ps0, coarse@), p, f)) by {
                assert(accepted_candidates(ps0, coarse@) == Seq::<FacePairCandidate>::empty());
                assert(pieces@[p].matches@[f]@ =~= Seq::<PieceMatch>::empty());
            }
        }
        return;
    }
    let sorted = sort_candidates(coarse);
    proof {
        lemma_perm_candidate_ok(ps0, coarse@, sorted@);
    }
    let mid = sorted.len() / 2;
    let cut = sorted[mid].dist;
    let survivors = cut_below(&sorted, cut);
    proof {
        assert forall|k: int| 0 <= k < survivors@.len() implies candidate_ok(
            ps0,
            #[trigger] survivors@[k],
        ) by {
            assert(survivors@[k] == sorted@[k]);
        }
        lemma_take_below_is_prefix(sorted@, cut, survivors@.len() as int);
        assert(survivors@ == take_below(sort_by_key(coarse@), cut));
    }
    let refined = refine_candidates(pieces, &survivors);
    proof {
        assert forall|k: int| 0 <= k < refined@.len() implies candidate_ok(
            ps0,
            #[trigger] refined@[k],
        ) by {
            assert(candidate_ok(ps0, survivors@[k]));
        }
        lemma_rescore_index(ps0, survivors@);
        assert(refined@ =~= rescore(ps0, survivors@)) by {
            assert forall|k: int|
                0 <= k < refined@.len() implies #[trigger] refined@[k]
                == rescore(ps0, survivors@)[k] by {
                assert(rescore(ps0, survivors@)[k] == rescored(ps0, survivors@[k]));
            }
        }
    }
    proof {
        assert forall|k: int| 0 <= k < refined@.len() implies candidate_scored(
            ps0,
            #[trigger] refined@[k],
        ) by {
            assert(candidate_ok(ps0, survivors@[k]));
        }
    }
    let ghost refined0 = refined@;
    let sorted2 = sort_candidates(refined);
    if sorted2.len() == 0 {
        proof {
            assert(refined0.len() == 0);
            assert forall|p: int, f: int|
                0 <= p < ps0.len() && 0 <= f < 4 implies (#[trigger] pieces@[p].matches@[f])@
                == retained(assigned(accepted_candidates(ps0, coarse@), p, f)) by {
                assert(accepted_candidates(ps0, coarse@) == Seq::<FacePairCandidate>::empty());
                assert(pieces@[p].matches@[f]@ =~= Seq::<PieceMatch>::empty());
            }
        }
        return;
    }
    proof {
        lemma_perm_candidate_ok(ps0, refined@, sorted2@);
        lemma_perm_candidate_scored(ps0, refined@, sorted2@);
    }
    let mid2 = sorted2.len() / 2;
    let cut2 = sorted2[mid2].dist / 2;
    let accepted = cut_at_or_below(&sorted2, cut2);
    proof {
        assert forall|k: int| 0 <= k < accepted@.len() implies candidate_ok(
            ps0,
            #[trigger] accepted@[k],
        ) && candidate_scored(ps0, accepted@[k]) by {
            assert(accepted@[k] == sorted2@[k]);
        }
        lemma_take_at_or_below_is_prefix(sorted2@, cut2, accepted@.len() as int);
        assert(accepted@ == accepted_candidates(ps0, coarse@));
    }
    assign_matches(pieces, &accepted);
    prune_matches(pieces);
    proof {
        assert forall|p: int, f: int|
            0 <= p < ps0.len() && 0 <= f < 4 implies (#[trigger] pieces@[p].matches@[f])@
            == retained(assigned(accepted_candidates(ps0, coarse@), p, f)) by {
            assert(Seq::<PieceMatch>::empty() + assigned(accepted@, p, f) =~= assigned(
                accepted@,
                p,
                f,
            ));
        }
        assert forall|p: int, f: int|
            0 <= p < ps0.len() && 0 <= f < 4 implies (#[trigger] pieces@[p].matches@[f])@.len()
            <= 1 by {
            assert(Seq::<PieceMatch>::empty() + assigned(accepted@, p, f) =~= assigned(
                accepted@,
                p,
                f,
            ));
        }
        assert forall|p: int, f: int|
            0 <= p < ps0.len() && 0 <= f < 4 && (#[trigger] pieces@[p].matches@[f])@.len()
                == 1 implies {
            let m = pieces@[p].matches@[f]@[0];
            &&& m.piece < ps0.len()
            &&& m.side < 4
            &&& m.piece != p
            &&& ps0[p].faces@[f].mode != PieceSideType::Unknown
            &&& ps0[m.piece as int].faces@[m.side as int].mode != PieceSideType::Unknown
            &&& ps0[p].faces@[f].mode != ps0[m.piece as int].faces@[m.side as int].mode
            &&& (m.distance == spec_best_mask_dist(ps0[p], f, ps0[m.piece as int], m.side as int)
                || m.distance == spec_best_mask_dist(
                ps0[m.piece as int],
                m.side as int,
                ps0[p],
                f,
            ))
        } by {
            let lst = assigned(accepted@, p, f);
            assert(Seq::<PieceMatch>::empty() + lst =~= lst);
            assert(pieces@[p].matches@[f]@ == retained(lst));
            assert(lst.len() > 0);
            lemma_earliest_min_index(lst);
            let e = earliest_min_index(lst);
            let m = lst[e];
            lemma_assigned_membership(accepted@, p, f, e);
            let k = choose|k: int|
                0 <= k < accepted@.len() && candidate_links(#[trigger] accepted@[k], p, f, m);
            assert(candidate_ok(ps0, accepted@[k]));
            assert(candidate_scored(ps0, accepted@[k]));
        }
    }
}



/// Law of symmetric assignment: after the assignment phase, piece `a`'s
/// face `i` holds an entry naming piece `b`'s face `j` at some cost
/// exactly when piece `b`'s face `j` holds the mirrored entry naming piece
/// `a`'s face `i` at the same cost.
pub proof fn lemma_assigned_symmetry(
    acc: Seq<FacePairCandidate>,
    a: usize,
    i: usize,
    b: usize,
    j: usize,
    d: u64,
)
    ensures
        assigned(acc, a as int, i as int).contains(
            PieceMatch { piece: b, side: j, distance: d },
        ) <==> assigned(acc, b as int, j as int).contains(
            PieceMatch { piece: a, side: i, distance: d },
        ),
    decreases acc.len(),
{
    let ma = PieceMatch { piece: b, side: j, distance: d };
    let mb = PieceMatch { piece: a, side: i, distance: d };
    if acc.len() == 0 {
        assert(!assigned(acc, a as int, i as int).contains(ma));
        assert(!assigned(acc, b as int, j as int).contains(mb));
    } else {
        lemma_assigned_symmetry(acc.drop_last(), a, i, b, j, d);
        let c = acc.last();
        let pa = assigned(acc.drop_last(), a as int, i as int);
        let pb = assigned(acc.drop_last(), b as int, j as int);
        let ea = candidate_entries(c, a as int, i as int);
        let eb = candidate_entries(c, b as int, j as int);
        assert(assigned(acc, a as int, i as int) == pa + ea);
        assert(assigned(acc, b as int, j as int) == pb + eb);
        assert(ea.contains(ma) <==> eb.contains(mb)) by {
            if ea.contains(ma) {
                assert(candidate_links(c, a as int, i as int, ma));
                assert(eb.contains(mb)) by {
                    if c.piece1 == a as int && c.face1 == i as int && ma.piece == c.piece2
                        && ma.side == c.face2 && ma.distance == c.dist {
                        assert(c.piece2 == b && c.face2 == j);
                        assert(eb[eb.len() - 1] == mb);
                    } else {
                        assert(c.piece2 == a && c.face2 == i && c.piece1 == b && c.face1 == j);
                        assert(eb[0] == mb);
                    }
                }
            }
            if eb.contains(mb) {
                assert(candidate_links(c, b as int, j as int, mb));
                assert(ea.contains(ma)) by {
                    if c.piece1 == b as int && c.face1 == j as int && mb.piece == c.piece2
                        && mb.side == c.face2 && mb.distance == c.dist {
                        assert(c.piece2 == a && c.face2 == i);
                        assert(ea[ea.len() - 1] == ma);
                    } else {
                        assert(c.piece2 == b && c.face2 == j && c.piece1 == a && c.face1 == i);
                        assert(ea[0] == ma);
                    }
                }
            }
        }
        assert(assigned(acc, a as int, i as int).contains(ma) <==> (pa.contains(ma)
            || ea.contains(ma))) by {
            lemma_contains_concat(pa, ea, ma);
        }
        assert(assigned(acc, b as int, j as int).contains(mb) <==> (pb.contains(mb)
            || eb.contains(mb))) by {
            lemma_contains_concat(pb, eb, mb);
        }
    }
}

proof fn lemma_contains_concat(s1: Seq<PieceMatch>, s2: Seq<PieceMatch>, m: PieceMatch)
    ensures
        (s1 + s2).contains(m) <==> (s1.contains(m) || s2.contains(m)),
{
    if s1.contains(m) {
        let t = choose|t: int| 0 <= t < s1.len() && s1[t] == m;
        assert((s1 + s2)[t] == m);
    }
    if s2.contains(m) {
        let t = choose|t: int| 0 <= t < s2.len() && s2[t] == m;
        assert((s1 + s2)[s1.len() + t] == m);
    }
    if (s1 + s2).contains(m) {
        let t = choose|t: int| 0 <= t < (s1 + s2).len() && (s1 + s2)[t] == m;
        if t < s1.len() {
            assert(s1[t] == m);
        } else {
            assert(s2[t - s1.len()] == m);
        }
    }
}

/// Law of mutual retention: when piece `a`'s face `i` retains the entry
/// naming piece `b`'s face `j`, and the mirrored entry strictly undercuts
/// every other entry written into `b`'s face `j`, the best-of-one
/// truncation leaves the two pieces naming each other exactly.
pub proof fn lemma_retained_mutual(
    acc: Seq<FacePairCandidate>,
    a: usize,
    i: usize,
    b: usize,
    j: usize,
    d: u64,
)
    requires
        retained(assigned(acc, a as int, i as int)) == seq![
            PieceMatch { piece: b, side: j, distance: d },
        ],
        forall|t: int|
            0 <= t < assigned(acc, b as int, j as int).len() && (#[trigger] assigned(
                acc,
                b as int,
                j as int,
            )[t]) != (PieceMatch { piece: a, side: i, distance: d }) ==> assigned(
                acc,
                b as int,
                j as int,
            )[t].distance > d,
    ensures
        retained(assigned(acc, b as int, j as int)) == seq![
            PieceMatch { piece: a, side: i, distance: d },
        ],
{
    let la = assigned(acc, a as int, i as int);
    let lb = assigned(acc, b as int, j as int);
    let ma = PieceMatch { piece: b, side: j, distance: d };
    let mb = PieceMatch { piece: a, side: i, distance: d };
    assert(la.len() > 0) by {
        if la.len() == 0 {
            assert(retained(la).len() == 0);
        }
    }
    lemma_earliest_min_index(la);
    assert(retained(la)[0] == ma);
    assert(retained(la)[0] == la[earliest_min_index(la)]);
    assert(la[earliest_min_index(la)] == ma);
    assert(la.contains(ma));
    lemma_assigned_symmetry(acc, a, i, b, j, d);
    assert(lb.contains(mb));
    lemma_retained_strict_min(lb, mb);
}

/// Law of retained symmetry: a match list keeps exactly the entry that
/// strictly undercuts every other entry of the list. So when piece `a`'s
/// retained entry names piece `b`'s face `j`, and its mirrored entry
/// strictly undercuts everything else written into `b`'s face `j`, the
/// truncation leaves the two pieces naming each other.
pub proof fn lemma_retained_strict_min(lb: Seq<PieceMatch>, m: PieceMatch)
    requires
        lb.contains(m),
        forall|t: int| 0 <= t < lb.len() && lb[t] != m ==> (#[trigger] lb[t]).distance
            > m.distance,
    ensures
        retained(lb) == seq![m],
{
    lemma_earliest_min_index(lb);
    let e = earliest_min_index(lb);
    let t = choose|t: int| 0 <= t < lb.len() && lb[t] == m;
    assert(lb[e].distance <= lb[t].distance);
    assert(lb[e] == m) by {
        if lb[e] != m {
            assert(lb[e].distance > m.distance);
        }
    }
    assert(retained(lb) =~= seq![m]);
}


} // verus!
