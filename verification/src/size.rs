use vstd::prelude::*;
use crate::mask::extract_surrounding_rect;
use crate::mask::has_material;
use crate::mask::mat_xmin;
use crate::mask::mat_xmax;
use crate::mask::mat_ymin;
use crate::mask::mat_ymax;
use crate::matching::imax;
use crate::piece::PieceVec;
use crate::solver::Soluce;
use crate::solver::soluce_cells;
use crate::solver::soluce_dims;
use crate::solver::grid_small;
use crate::solver::all_empty;

verus! {

/// One bounding box per piece: corner position and size.
pub type SurroundVec = Vec<(u32, u32, u32, u32)>;

/// The material bounding box of every piece, as corner and size.
pub fn build_surround(pieces: &PieceVec) -> (r: SurroundVec)
    requires
        forall|p: int| 0 <= p < pieces@.len() ==> (#[trigger] pieces@[p]).mask.wf(),
        forall|p: int| 0 <= p < pieces@.len() ==> has_material((#[trigger] pieces@[p]).mask),
    ensures
        r@.len() == pieces@.len(),
        forall|p: int|
            0 <= p < pieces@.len() ==> {
                let rst = (#[trigger] pieces@[p]).mask.raster();
                let xmin = mat_xmin(rst, 0);
                let ymin = mat_ymin(rst, 0);
                let xmax = mat_xmax(rst, rst.w - 1);
                let ymax = mat_ymax(rst, rst.h - 1);
                r@[p] == ((xmin as u32, ymin as u32, (xmax - xmin) as u32, (ymax - ymin) as u32))
            },
{
    let mut r: SurroundVec = Vec::new();
    let mut p: usize = 0;
    while p < pieces.len()
        invariant
            forall|q: int| 0 <= q < pieces@.len() ==> (#[trigger] pieces@[q]).mask.wf(),
            forall|q: int| 0 <= q < pieces@.len() ==> has_material((#[trigger] pieces@[q]).mask),
            p <= pieces@.len(),
            r@.len() == p,
            forall|q: int|
                0 <= q < p ==> {
                    let rst = (#[trigger] pieces@[q]).mask.raster();
                    let xmin = mat_xmin(rst, 0);
                    let ymin = mat_ymin(rst, 0);
                    let xmax = mat_xmax(rst, rst.w - 1);
                    let ymax = mat_ymax(rst, rst.h - 1);
                    r@[q] == ((xmin as u32, ymin as u32, (xmax - xmin) as u32, (ymax
                        - ymin) as u32))
                },
        decreases pieces@.len() - p,
    {
        let (xmin, ymin, xmax, ymax) = extract_surrounding_rect(&pieces[p].mask);
        r.push((xmin, ymin, xmax - xmin, ymax - ymin));
        p = p + 1;
    }
    r
}

/// Largest box width over the collection.
pub open spec fn spec_max_w(s: Seq<(u32, u32, u32, u32)>) -> int
    decreases s.len(),
{
    if s.len() == 0 {
        0
    } else {
        imax(spec_max_w(s.drop_last()), s.last().2 as int)
    }
}

/// Largest box height over the collection.
pub open spec fn spec_max_h(s: Seq<(u32, u32, u32, u32)>) -> int
    decreases s.len(),
{
    if s.len() == 0 {
        0
    } else {
        imax(spec_max_h(s.drop_last()), s.last().3 as int)
    }
}

/// The square tile size every piece of the collection fits in: the larger
/// of the largest box width and the largest box height, in both axes.
pub fn max_size(surround: &SurroundVec) -> (r: (u32, u32))
    ensures
        r.0 as int == imax(spec_max_w(surround@), spec_max_h(surround@)),
        r.1 == r.0,
{
    let mut wmax: u32 = 0;
    let mut hmax: u32 = 0;
    let mut i: usize = 0;
    while i < surround.len()
        invariant
            i <= surround@.len(),
            wmax as int == spec_max_w(surround@.take(i as int)),
            hmax as int == spec_max_h(surround@.take(i as int)),
        decreases surround@.len() - i,
    {
        proof {
            assert(surround@.take(i as int + 1).drop_last() =~= surround@.take(i as int));
        }
        let s = surround[i];
        if s.2 > wmax {
            wmax = s.2;
        }
        if s.3 > hmax {
            hmax = s.3;
        }
        i = i + 1;
    }
    proof {
        assert(surround@.take(surround@.len() as int) =~= surround@);
    }
    let m = if wmax >= hmax {
        wmax
    } else {
        hmax
    };
    (m, m)
}

/// The bounding box of the occupied cells of a solution: corner position
/// and cell counts.
pub fn get_soluce_size(soluce: &Soluce) -> (r: (usize, usize, usize, usize))
    requires
        grid_small(soluce),
        !all_empty(soluce),
    ensures
        forall|x: int, y: int|
            0 <= x < soluce_dims(soluce).0 && 0 <= y < soluce_dims(soluce).1 && (
            #[trigger] soluce_cells(soluce)[(x, y)]).piece_id is Some ==> r.0 <= x && r.1 <= y
                && x < r.0 + r.2 && y < r.1 + r.3,
        exists|x: int, y: int|
            0 <= x < soluce_dims(soluce).0 && 0 <= y < soluce_dims(soluce).1 && (
            #[trigger] soluce_cells(soluce)[(x, y)]).piece_id is Some && x == r.0,
        exists|x: int, y: int|
            0 <= x < soluce_dims(soluce).0 && 0 <= y < soluce_dims(soluce).1 && (
            #[trigger] soluce_cells(soluce)[(x, y)]).piece_id is Some && y == r.1,
        exists|x: int, y: int|
            0 <= x < soluce_dims(soluce).0 && 0 <= y < soluce_dims(soluce).1 && (
            #[trigger] soluce_cells(soluce)[(x, y)]).piece_id is Some && x == r.0 + r.2 - 1,
        exists|x: int, y: int|
            0 <= x < soluce_dims(soluce).0 && 0 <= y < soluce_dims(soluce).1 && (
            #[trigger] soluce_cells(soluce)[(x, y)]).piece_id is Some && y == r.1 + r.3 - 1,
{
    let (w, h) = soluce.dims();
    let mut xmin: usize = usize::MAX;
    let mut ymin: usize = usize::MAX;
    let mut xmax: usize = 0;
    let mut ymax: usize = 0;
    let ghost mut seen: bool = false;
    let ghost mut wxmin: (int, int) = (0int, 0int);
    let ghost mut wxmax: (int, int) = (0int, 0int);
    let ghost mut wymin: (int, int) = (0int, 0int);
    let ghost mut wymax: (int, int) = (0int, 0int);
    let mut y: usize = 0;
    while y < h
        invariant
            grid_small(soluce),
            w == soluce_dims(soluce).0,
            h == soluce_dims(soluce).1,
            y <= h,
            forall|x2: int, y2: int|
                0 <= x2 < w && 0 <= y2 < y && (#[trigger] soluce_cells(soluce)[(x2, y2)]).piece_id is Some ==> xmin <= x2 && x2 <= xmax && ymin <= y2 && y2 <= ymax,
            !seen ==> forall|x2: int, y2: int|
                0 <= x2 < w && 0 <= y2 < y ==> (#[trigger] soluce_cells(soluce)[(x2, y2)]).piece_id is None,
            !seen ==> xmin == usize::MAX && ymin == usize::MAX && xmax == 0 && ymax == 0,
            seen ==> occ_at(soluce, wxmin) && wxmin.1 < y && wxmin.0 == xmin,
            seen ==> occ_at(soluce, wxmax) && wxmax.1 < y && wxmax.0 == xmax,
            seen ==> occ_at(soluce, wymin) && wymin.1 < y && wymin.1 == ymin,
            seen ==> occ_at(soluce, wymax) && wymax.1 < y && wymax.1 == ymax,
            seen ==> xmin <= xmax && ymin <= ymax && xmax < w && ymax < h,
        decreases h - y,
    {
        let mut x: usize = 0;
        while x < w
            invariant
                grid_small(soluce),
                w == soluce_dims(soluce).0,
                h == soluce_dims(soluce).1,
                y < h,
                x <= w,
                forall|x2: int, y2: int|
                    0 <= x2 < w && 0 <= y2 < h && (y2 < y || (y2 == y && x2 < x)) && (
                    #[trigger] soluce_cells(soluce)[(x2, y2)]).piece_id is Some ==> xmin <= x2
                        && x2 <= xmax && ymin <= y2 && y2 <= ymax,
                !seen ==> forall|x2: int, y2: int|
                    0 <= x2 < w && 0 <= y2 < h && (y2 < y || (y2 == y && x2 < x)) ==> (
                    #[trigger] soluce_cells(soluce)[(x2, y2)]).piece_id is None,
                !seen ==> xmin == usize::MAX && ymin == usize::MAX && xmax == 0 && ymax == 0,
                seen ==> occ_at(soluce, wxmin) && (wxmin.1 < y || (wxmin.1 == y && wxmin.0 < x))
                    && wxmin.0 == xmin,
                seen ==> occ_at(soluce, wxmax) && (wxmax.1 < y || (wxmax.1 == y && wxmax.0 < x))
                    && wxmax.0 == xmax,
                seen ==> occ_at(soluce, wymin) && (wymin.1 < y || (wymin.1 == y && wymin.0 < x))
                    && wymin.1 == ymin,
                seen ==> occ_at(soluce, wymax) && (wymax.1 < y || (wymax.1 == y && wymax.0 < x))
                    && wymax.1 == ymax,
                seen ==> xmin <= xmax && ymin <= ymax && xmax < w && ymax < h,
            decreases w - x,
        {
            let cell = soluce.get(x, y);
            if cell.piece_id.is_some() {
                proof {
                    if !seen {
                        seen = true;
                        wxmin = (x as int, y as int);
                        wxmax = (x as int, y as int);
                        wymin = (x as int, y as int);
                        wymax = (x as int, y as int);
                    } else {
                        if (x as int) < xmin {
                            wxmin = (x as int, y as int);
                        }
                        if (x as int) > xmax {
                            wxmax = (x as int, y as int);
                        }
                        if (y as int) < ymin {
                            wymin = (x as int, y as int);
                        }
                        if (y as int) > ymax {
                            wymax = (x as int, y as int);
                        }
                    }
                }
                if x < xmin {
                    xmin = x;
                }
                if x > xmax {
                    xmax = x;
                }
                if y < ymin {
                    ymin = y;
                }
                if y > ymax {
                    ymax = y;
                }
            }
            x = x + 1;
        }
        y = y + 1;
    }
    proof {
        let (x0, y0) = choose|x0: int, y0: int|
            0 <= x0 < soluce_dims(soluce).0 && 0 <= y0 < soluce_dims(soluce).1 && (
            #[trigger] soluce_cells(soluce)[(x0, y0)]).piece_id is Some;
        assert(seen);
    }
    (xmin, ymin, xmax - xmin + 1, ymax - ymin + 1)
}

/// Coordinate pair `p` lies on the grid and holds a piece.
pub open spec fn occ_at(s: &Soluce, p: (int, int)) -> bool {
    &&& 0 <= p.0 < soluce_dims(s).0
    &&& 0 <= p.1 < soluce_dims(s).1
    &&& soluce_cells(s)[(p.0, p.1)].piece_id is Some
}

} // verus!
