use vstd::prelude::*;
use crate::piece::Piece;
use crate::piece::PieceVec;
use crate::piece::PieceMatch;

verus! {

/// One cell of the solution grid: the piece placed there, if any, and how
/// many quarter turns it is rotated into its board position.
#[derive(Debug, Copy, Clone, PartialEq, Eq)]
pub struct SoluceElmt {
    pub piece_id: Option<usize>,
    pub rotation: usize,
}

impl Default for SoluceElmt {
    /// An empty cell.
    fn default() -> (r: Self)
        ensures
            r.piece_id is None,
            r.rotation == 0,
    {
        SoluceElmt { piece_id: None, rotation: 0 }
    }
}

/// Errors the assembly search surfaces to the operator.
#[derive(Debug, Copy, Clone, PartialEq, Eq, Structural)]
pub enum SolverError {
    /// The retained-solution cap overflowed: the match pruning was not
    /// selective enough.
    TooManySolutions,
}

/// The solution grid: a fixed-size two-dimensional array of cells.
#[verifier::external_body]
pub struct Soluce {
    grid: ndarray::Array2<SoluceElmt>,
}

/// The cell the grid holds at each coordinate pair inside its bounds.
pub uninterp spec fn soluce_cells(s: &Soluce) -> Map<(int, int), SoluceElmt>;

/// The grid's dimensions, columns then rows.
pub uninterp spec fn soluce_dims(s: &Soluce) -> (int, int);

/// Relies on ndarray::Array2::from_elem: a fresh array of the given shape
/// with every element a clone of the given one.
#[verifier::external_body]
fn soluce_new(w: usize, h: usize, fill: SoluceElmt) -> (s: Soluce)
    ensures
        soluce_dims(&s) == (w as int, h as int),
        forall|x: int, y: int|
            0 <= x < w && 0 <= y < h ==> soluce_cells(&s)[(x, y)] == fill,
{
    Soluce { grid: ndarray::Array2::from_elem((w, h), fill) }
}

/// Relies on ndarray::ArrayBase::get: the element at an index pair, which
/// is present exactly when the index is in bounds.
#[verifier::external_body]
fn soluce_get(s: &Soluce, x: usize, y: usize) -> (r: SoluceElmt)
    requires
        x < soluce_dims(s).0,
        y < soluce_dims(s).1,
    ensures
        r == soluce_cells(s)[(x as int, y as int)],
{
    *s.grid.get((x, y)).unwrap()
}

/// Relies on ndarray::ArrayBase::get_mut: writing through it replaces that
/// element and no other.
#[verifier::external_body]
fn soluce_set(s: &mut Soluce, x: usize, y: usize, v: SoluceElmt)
    requires
        x < soluce_dims(old(s)).0,
        y < soluce_dims(old(s)).1,
    ensures
        soluce_dims(final(s)) == soluce_dims(old(s)),
        soluce_cells(final(s)) == soluce_cells(old(s)).insert((x as int, y as int), v),
{
    *s.grid.get_mut((x, y)).unwrap() = v;
}

/// Relies on ndarray::ArrayBase::len_of: the length of each axis.
#[verifier::external_body]
fn soluce_len_of(s: &Soluce) -> (d: (usize, usize))
    ensures
        d.0 == soluce_dims(s).0,
        d.1 == soluce_dims(s).1,
{
    (s.grid.len_of(ndarray::Axis(0)), s.grid.len_of(ndarray::Axis(1)))
}

/// Relies on ndarray::ArrayBase::clone: an exact copy of the array.
#[verifier::external_body]
fn soluce_duplicate(s: &Soluce) -> (r: Soluce)
    ensures
        soluce_dims(&r) == soluce_dims(s),
        soluce_cells(&r) == soluce_cells(s),
{
    Soluce { grid: s.grid.clone() }
}

impl Soluce {
    /// A fresh grid of the given size, every cell empty.
    pub fn new(w: usize, h: usize) -> (s: Soluce)
        ensures
            soluce_dims(&s) == (w as int, h as int),
            forall|x: int, y: int|
                0 <= x < w && 0 <= y < h ==> soluce_cells(&s)[(x, y)] == (SoluceElmt {
                    piece_id: None,
                    rotation: 0,
                }),
    {
        soluce_new(w, h, SoluceElmt { piece_id: None, rotation: 0 })
    }

    pub fn dims(&self) -> (d: (usize, usize))
        ensures
            d.0 == soluce_dims(self).0,
            d.1 == soluce_dims(self).1,
    {
        soluce_len_of(self)
    }

    pub fn get(&self, x: usize, y: usize) -> (r: SoluceElmt)
        requires
            x < soluce_dims(self).0,
            y < soluce_dims(self).1,
        ensures
            r == soluce_cells(self)[(x as int, y as int)],
    {
        soluce_get(self, x, y)
    }

    pub fn set(&mut self, x: usize, y: usize, v: SoluceElmt)
        requires
            x < soluce_dims(old(self)).0,
            y < soluce_dims(old(self)).1,
        ensures
            soluce_dims(final(self)) == soluce_dims(old(self)),
            soluce_cells(final(self)) == soluce_cells(old(self)).insert((x as int, y as int), v),
    {
        soluce_set(self, x, y, v)
    }

    /// An exact structural copy of the grid.
    pub fn duplicate(&self) -> (r: Soluce)
        ensures
            soluce_dims(&r) == soluce_dims(self),
            soluce_cells(&r) == soluce_cells(self),
    {
        soluce_duplicate(self)
    }
}

/// Every filled cell names a piece of the collection with a quarter-turn
/// rotation, empty cells carry rotation zero, and no piece occupies two
/// cells.
pub open spec fn grid_valid(s: &Soluce, n: int) -> bool {
    &&& forall|x: int, y: int|
        0 <= x < soluce_dims(s).0 && 0 <= y < soluce_dims(s).1 ==> cell_valid(
            #[trigger] soluce_cells(s)[(x, y)],
            n,
        )
    &&& forall|x1: int, y1: int, x2: int, y2: int|
        0 <= x1 < soluce_dims(s).0 && 0 <= y1 < soluce_dims(s).1 && 0 <= x2 < soluce_dims(s).0
            && 0 <= y2 < soluce_dims(s).1 && (#[trigger] soluce_cells(s)[(x1, y1)]).piece_id
            is Some && soluce_cells(s)[(x1, y1)].piece_id
            == (#[trigger] soluce_cells(s)[(x2, y2)]).piece_id ==> x1 == x2 && y1 == y2
}

/// A cell is either empty at rotation zero or holds a piece of the
/// collection at a quarter-turn rotation.
pub open spec fn cell_valid(c: SoluceElmt, n: int) -> bool {
    match c.piece_id {
        Some(p) => p < n && c.rotation < 4,
        None => c.rotation == 0,
    }
}

/// Number of `true` entries of the usage map.
pub open spec fn count_true(s: Seq<bool>) -> int
    decreases s.len(),
{
    if s.len() == 0 {
        0
    } else {
        count_true(s.drop_last()) + if s.last() {
            1int
        } else {
            0int
        }
    }
}

/// Counting stays within the sequence's length.
pub proof fn lemma_count_true_bound(s: Seq<bool>)
    ensures
        0 <= count_true(s) <= s.len(),
    decreases s.len(),
{
    if s.len() > 0 {
        lemma_count_true_bound(s.drop_last());
    }
}

/// Flipping one entry moves the count by exactly one.
pub proof fn lemma_count_true_update(s: Seq<bool>, i: int, v: bool)
    requires
        0 <= i < s.len(),
        s[i] != v,
    ensures
        count_true(s.update(i, v)) == count_true(s) + if v {
            1int
        } else {
            -1int
        },
    decreases s.len(),
{
    let t = s.update(i, v);
    if i == s.len() - 1 {
        assert(t.drop_last() =~= s.drop_last());
    } else {
        assert(t.drop_last() =~= s.drop_last().update(i, v));
        lemma_count_true_update(s.drop_last(), i, v);
        assert(t.last() == s.last());
    }
}

/// A sequence with a `true` entry counts at least one.
pub proof fn lemma_count_true_positive(s: Seq<bool>, i: int)
    requires
        0 <= i < s.len(),
        s[i],
    ensures
        count_true(s) >= 1,
    decreases s.len(),
{
    if i == s.len() - 1 {
        lemma_count_true_bound(s.drop_last());
    } else {
        lemma_count_true_positive(s.drop_last(), i);
    }
}

/// The side of the piece, in its own canonical frame, that faces board
/// side `board` when the piece sits at rotation `rot`. The sign
/// convention is the solver's own: `rot` counts the quarter turns that
/// carry a canonical side onto its board side, so going back to the
/// canonical frame subtracts the rotation.
pub open spec fn canonical_side(board: int, rot: int) -> int {
    (board + 4 - rot) % 4
}

/// The board side that canonical side `canonical` faces when the piece
/// sits at rotation `rot`.
pub open spec fn board_side(canonical: int, rot: int) -> int {
    (canonical + rot) % 4
}

/// Law of rotation consistency: converting a board side to the piece's
/// canonical side and back reproduces the board side, and conversely.
pub proof fn lemma_rotation_round_trip(side: int, rot: int)
    requires
        0 <= side < 4,
        0 <= rot < 4,
    ensures
        board_side(canonical_side(side, rot), rot) == side,
        canonical_side(board_side(side, rot), rot) == side,
{
}


/// Both dimensions of the grid fit the unsigned pixel range, so that
/// signed neighbour arithmetic cannot overflow.
pub open spec fn grid_small(s: &Soluce) -> bool {
    &&& 0 <= soluce_dims(s).0 <= u32::MAX
    &&& 0 <= soluce_dims(s).1 <= u32::MAX
}

/// Coordinate pair `(x, y)` lies on the grid and holds a piece.
pub open spec fn occupied(s: &Soluce, x: int, y: int) -> bool {
    &&& 0 <= x < soluce_dims(s).0
    &&& 0 <= y < soluce_dims(s).1
    &&& soluce_cells(s)[(x, y)].piece_id is Some
}

/// The coordinates of the neighbouring cell at offset `(dx, dy)` when it
/// lies on the grid and holds a piece.
pub open spec fn spec_cell_has_piece(s: &Soluce, x: int, y: int, dx: int, dy: int) -> Option<
    (usize, usize),
> {
    if occupied(s, x + dx, y + dy) {
        Some((((x + dx) as usize), ((y + dy) as usize)))
    } else {
        None
    }
}

/// The occupied cell at offset `(dx, dy)` of `(x, y)`, if any.
pub fn cell_has_piece(current: &Soluce, x: usize, y: usize, dx: i32, dy: i32) -> (r: Option<
    (usize, usize),
>)
    requires
        grid_small(current),
        x < soluce_dims(current).0,
        y < soluce_dims(current).1,
        -1 <= dx <= 1,
        -1 <= dy <= 1,
    ensures
        r == spec_cell_has_piece(current, x as int, y as int, dx as int, dy as int),
{
    let (w, h) = current.dims();
    let xt: i64 = x as i64 + dx as i64;
    let yt: i64 = y as i64 + dy as i64;
    if xt >= 0 && xt < w as i64 && yt >= 0 && yt < h as i64 {
        let cell = current.get(xt as usize, yt as usize);
        if cell.piece_id.is_some() {
            Some((xt as usize, yt as usize))
        } else {
            None
        }
    } else {
        None
    }
}

/// The neighbour the scan settles on: the four sides are inspected left,
/// above, below, right, and the last occupied one wins.
pub open spec fn spec_has_neighboor(s: &Soluce, x: int, y: int) -> Option<(usize, usize)> {
    if occupied(s, x + 1, y) {
        spec_cell_has_piece(s, x, y, 1, 0)
    } else if occupied(s, x, y + 1) {
        spec_cell_has_piece(s, x, y, 0, 1)
    } else if occupied(s, x, y - 1) {
        spec_cell_has_piece(s, x, y, 0, -1)
    } else if occupied(s, x - 1, y) {
        spec_cell_has_piece(s, x, y, -1, 0)
    } else {
        None
    }
}

/// An occupied 4-neighbour of the cell, if any.
pub fn has_neighboor(current: &Soluce, x: usize, y: usize) -> (r: Option<(usize, usize)>)
    requires
        grid_small(current),
        x < soluce_dims(current).0,
        y < soluce_dims(current).1,
    ensures
        r == spec_has_neighboor(current, x as int, y as int),
{
    let mut ret: Option<(usize, usize)> = None;
    let c1 = cell_has_piece(current, x, y, -1, 0);
    if c1.is_some() {
        ret = c1;
    }
    let c2 = cell_has_piece(current, x, y, 0, -1);
    if c2.is_some() {
        ret = c2;
    }
    let c3 = cell_has_piece(current, x, y, 0, 1);
    if c3.is_some() {
        ret = c3;
    }
    let c4 = cell_has_piece(current, x, y, 1, 0);
    if c4.is_some() {
        ret = c4;
    }
    ret
}

/// The side of the neighbouring piece that faces the cell at `pos`: right
/// when the neighbour lies to the left, and so on.
pub open spec fn spec_facing_side(pos: (int, int), other: (int, int)) -> int {
    if other.0 < pos.0 {
        crate::piece::RIGHT as int
    } else if other.0 > pos.0 {
        crate::piece::LEFT as int
    } else if other.1 < pos.1 {
        crate::piece::BOTTOM as int
    } else {
        crate::piece::TOP as int
    }
}

/// The board direction of the new piece's side that must face the
/// neighbour.
pub open spec fn spec_wanted_side(pos: (int, int), other: (int, int)) -> int {
    if other.0 < pos.0 {
        crate::piece::LEFT as int
    } else if other.0 > pos.0 {
        crate::piece::RIGHT as int
    } else if other.1 < pos.1 {
        crate::piece::TOP as int
    } else {
        crate::piece::BOTTOM as int
    }
}

/// Which piece and which of its canonical sides the empty cell must mate
/// against: the neighbour's piece, and the neighbour's edge that faces the
/// empty cell, corrected for the neighbour's rotation.
pub fn extract_candidates(current: &Soluce, pos: (usize, usize), exist: (usize, usize)) -> (r: (
    usize,
    usize,
))
    requires
        exist.0 < soluce_dims(current).0,
        exist.1 < soluce_dims(current).1,
        soluce_cells(current)[(exist.0 as int, exist.1 as int)].piece_id is Some,
        soluce_cells(current)[(exist.0 as int, exist.1 as int)].rotation < 4,
        !(pos.0 == exist.0 && pos.1 == exist.1),
    ensures
        Some(r.0) == soluce_cells(current)[(exist.0 as int, exist.1 as int)].piece_id,
        r.1 as int == canonical_side(
            spec_facing_side(
                (pos.0 as int, pos.1 as int),
                (exist.0 as int, exist.1 as int),
            ),
            soluce_cells(current)[(exist.0 as int, exist.1 as int)].rotation as int,
        ),
        r.1 < 4,
{
    let (x, y) = pos;
    let (xn, yn) = exist;
    let neighboor = current.get(xn, yn);
    let side: usize = if xn < x {
        crate::piece::RIGHT
    } else if xn > x {
        crate::piece::LEFT
    } else if yn < y {
        crate::piece::BOTTOM
    } else {
        crate::piece::TOP
    };
    let side = (side + 4 - neighboor.rotation) % 4;
    let pid = match neighboor.piece_id {
        Some(p) => p,
        None => 0,
    };
    (pid, side)
}

/// The rotation that brings canonical side `curside` of the new piece to
/// face the neighbour at `neighboor` from `pos`.
pub fn calc_rotation(pos: (usize, usize), neighboor: (usize, usize), curside: usize) -> (r: usize)
    requires
        curside < 4,
        !(pos.0 == neighboor.0 && pos.1 == neighboor.1),
    ensures
        r < 4,
        r as int == (spec_wanted_side(
            (pos.0 as int, pos.1 as int),
            (neighboor.0 as int, neighboor.1 as int),
        ) + 4 - curside) % 4,
        board_side(curside as int, r as int) == spec_wanted_side(
            (pos.0 as int, pos.1 as int),
            (neighboor.0 as int, neighboor.1 as int),
        ),
{
    let (x, y) = pos;
    let (xn, yn) = neighboor;
    let wanted: usize = if xn < x {
        crate::piece::LEFT
    } else if xn > x {
        crate::piece::RIGHT
    } else if yn < y {
        crate::piece::TOP
    } else {
        crate::piece::BOTTOM
    };
    let rot: usize;
    if curside > wanted {
        rot = wanted + 4 - curside;
    } else {
        rot = wanted - curside;
    }
    rot
}

/// The placement at `pos` is consistent with the neighbour at offset
/// `delta`: the neighbour cell is off the grid or empty, or the placed
/// piece's match list for the facing edge names the neighbour's piece and
/// the neighbour's facing edge.
pub open spec fn spec_neighbor_consistent(
    ps: Seq<Piece>,
    s: &Soluce,
    pos: (int, int),
    delta: (int, int),
    side: int,
) -> bool {
    let xt = pos.0 + delta.0;
    let yt = pos.1 + delta.1;
    if !(0 <= xt < soluce_dims(s).0 && 0 <= yt < soluce_dims(s).1) {
        true
    } else {
        let nb = soluce_cells(s)[(xt, yt)];
        let cur = soluce_cells(s)[pos];
        match nb.piece_id {
            None => true,
            Some(npid) => {
                let nfid = canonical_side(side + 2, nb.rotation as int);
                let fid = canonical_side(side, cur.rotation as int);
                exists|k: int|
                    {
                        &&& 0 <= k < ps[cur.piece_id->Some_0 as int].matches@[fid]@.len()
                        &&& (#[trigger] ps[cur.piece_id->Some_0 as int].matches@[fid]@[k]).piece
                            == npid
                        &&& ps[cur.piece_id->Some_0 as int].matches@[fid]@[k].side == nfid
                    }
            },
        }
    }
}

/// Check one neighbour of a tentative placement for match-list
/// consistency.
pub fn check_match_one_neighboot(
    pieces: &PieceVec,
    current: &Soluce,
    pos: (usize, usize),
    delta: (i32, i32),
    side: usize,
) -> (r: bool)
    requires
        grid_small(current),
        pos.0 < soluce_dims(current).0,
        pos.1 < soluce_dims(current).1,
        -1 <= delta.0 <= 1,
        -1 <= delta.1 <= 1,
        side < 4,
        ({
            let cur = soluce_cells(current)[(pos.0 as int, pos.1 as int)];
            &&& cur.piece_id is Some
            &&& cur.piece_id->Some_0 < pieces@.len()
            &&& cur.rotation < 4
        }),
        forall|p: int| 0 <= p < pieces@.len() ==> (#[trigger] pieces@[p]).wf(),
        grid_valid(current, pieces@.len() as int),
    ensures
        r == spec_neighbor_consistent(
            pieces@,
            current,
            (pos.0 as int, pos.1 as int),
            (delta.0 as int, delta.1 as int),
            side as int,
        ),
{
    let (x, y) = pos;
    let (dx, dy) = delta;
    let (w, h) = current.dims();
    let xt: i64 = x as i64 + dx as i64;
    let yt: i64 = y as i64 + dy as i64;
    if xt >= 0 && xt < w as i64 && yt >= 0 && yt < h as i64 {
        let neighboor = current.get(xt as usize, yt as usize);
        let cur = current.get(x, y);
        match neighboor.piece_id {
            Some(npid) => {
                let nfid = ((side + 2) + 4 - neighboor.rotation) % 4;
                let fid = (side + 4 - cur.rotation) % 4;
                let pid = match cur.piece_id {
                    Some(p) => p,
                    None => 0,
                };
                let p = &pieces[pid];
                let lst = &p.matches[fid];
                let mut ret = false;
                let mut k: usize = 0;
                let n = lst.len();
                while k < n
                    invariant
                        n == lst@.len(),
                        k <= n,
                        ret == exists|t: int|
                            {
                                &&& 0 <= t < k
                                &&& (#[trigger] lst@[t]).piece == npid
                                &&& lst@[t].side == nfid
                            },
                    decreases n - k,
                {
                    let link = lst[k];
                    if link.piece == npid && link.side == nfid {
                        ret = true;
                    }
                    k = k + 1;
                }
                proof {
                    let ps = pieces@;
                    let curs = soluce_cells(current)[(x as int, y as int)];
                    let fs = canonical_side(side as int, curs.rotation as int);
                    let ns = canonical_side(side as int + 2, neighboor.rotation as int);
                    assert(fid as int == fs);
                    assert(nfid as int == ns);
                    assert(lst@ == ps[pid as int].matches@[fid as int]@);
                    if ret {
                        let t = choose|t: int|
                            0 <= t < lst@.len() && (#[trigger] lst@[t]).piece == npid && lst@[t].side == nfid;
                        assert((#[trigger] ps[curs.piece_id->Some_0 as int].matches@[fs]@[t]).piece
                            == npid);
                    } else {
                        if exists|t: int|
                            {
                                &&& 0 <= t < ps[curs.piece_id->Some_0 as int].matches@[fs]@.len()
                                &&& (#[trigger] ps[curs.piece_id->Some_0 as int].matches@[fs]@[t]).piece == npid as int
                                &&& ps[curs.piece_id->Some_0 as int].matches@[fs]@[t].side == ns
                            } {
                            let t = choose|t: int|
                                {
                                    &&& 0 <= t < ps[curs.piece_id->Some_0 as int].matches@[fs]@.len()
                                    &&& (#[trigger] ps[curs.piece_id->Some_0 as int].matches@[fs]@[t]).piece == npid as int
                                    &&& ps[curs.piece_id->Some_0 as int].matches@[fs]@[t].side == ns
                                };
                            assert(lst@[t].piece == npid && lst@[t].side == nfid);
                        }
                    }
                }
                ret
            },
            None => true,
        }
    } else {
        true
    }
}

/// Check all four neighbours of a tentative placement.
pub fn check_match_all_neighboors(pieces: &PieceVec, current: &Soluce, pos: (usize, usize)) -> (r:
    bool)
    requires
        grid_small(current),
        pos.0 < soluce_dims(current).0,
        pos.1 < soluce_dims(current).1,
        ({
            let cur = soluce_cells(current)[(pos.0 as int, pos.1 as int)];
            &&& cur.piece_id is Some
            &&& cur.piece_id->Some_0 < pieces@.len()
            &&& cur.rotation < 4
        }),
        forall|p: int| 0 <= p < pieces@.len() ==> (#[trigger] pieces@[p]).wf(),
        grid_valid(current, pieces@.len() as int),
    ensures
        r == (spec_neighbor_consistent(
            pieces@,
            current,
            (pos.0 as int, pos.1 as int),
            (-1, 0),
            crate::piece::LEFT as int,
        ) && spec_neighbor_consistent(
            pieces@,
            current,
            (pos.0 as int, pos.1 as int),
            (1, 0),
            crate::piece::RIGHT as int,
        ) && spec_neighbor_consistent(
            pieces@,
            current,
            (pos.0 as int, pos.1 as int),
            (0, -1),
            crate::piece::TOP as int,
        ) && spec_neighbor_consistent(
            pieces@,
            current,
            (pos.0 as int, pos.1 as int),
            (0, 1),
            crate::piece::BOTTOM as int,
        )),
{
    check_match_one_neighboot(pieces, current, pos, (-1, 0), crate::piece::LEFT)
        && check_match_one_neighboot(pieces, current, pos, (1, 0), crate::piece::RIGHT)
        && check_match_one_neighboot(pieces, current, pos, (0, -1), crate::piece::TOP)
        && check_match_one_neighboot(pieces, current, pos, (0, 1), crate::piece::BOTTOM)
}



/// No cell of the grid holds a piece.
pub open spec fn all_empty(s: &Soluce) -> bool {
    forall|x: int, y: int|
        0 <= x < soluce_dims(s).0 && 0 <= y < soluce_dims(s).1
            ==> (#[trigger] soluce_cells(s)[(x, y)]).piece_id is None
}

/// `p` is the first occupied cell in row-major scan order, or `(0, 0)` on
/// a grid with no occupied cell.
pub open spec fn is_first_non_empty(s: &Soluce, p: (int, int)) -> bool {
    if all_empty(s) {
        p == (0int, 0int)
    } else {
        &&& 0 <= p.0 < soluce_dims(s).0
        &&& 0 <= p.1 < soluce_dims(s).1
        &&& soluce_cells(s)[p].piece_id is Some
        &&& forall|x: int, y: int|
            0 <= x < soluce_dims(s).0 && 0 <= y < soluce_dims(s).1 && (y < p.1 || (y == p.1 && x
                < p.0)) ==> (#[trigger] soluce_cells(s)[(x, y)]).piece_id is None
    }
}

/// The first occupied cell is unique.
pub proof fn lemma_first_non_empty_unique(s: &Soluce, p: (int, int), q: (int, int))
    requires
        is_first_non_empty(s, p),
        is_first_non_empty(s, q),
    ensures
        p == q,
{
    if !all_empty(s) {
        if q.1 < p.1 || (q.1 == p.1 && q.0 < p.0) {
            assert(soluce_cells(s)[(q.0, q.1)].piece_id is None);
        } else if p.1 < q.1 || (p.1 == q.1 && p.0 < q.0) {
            assert(soluce_cells(s)[(p.0, p.1)].piece_id is None);
        }
    }
}

/// The first occupied cell of the grid in row-major scan order, `(0, 0)`
/// when every cell is empty.
pub fn find_fist_non_empty(soluce: &Soluce) -> (r: (usize, usize))
    requires
        grid_small(soluce),
    ensures
        is_first_non_empty(soluce, (r.0 as int, r.1 as int)),
{
    let (w, h) = soluce.dims();
    let mut y: usize = 0;
    while y < h
        invariant
            grid_small(soluce),
            w == soluce_dims(soluce).0,
            h == soluce_dims(soluce).1,
            y <= h,
            forall|x2: int, y2: int|
                0 <= x2 < w && 0 <= y2 < y ==> (#[trigger] soluce_cells(soluce)[(x2, y2)]).piece_id is None,
        decreases h - y,
    {
        let mut x: usize = 0;
        while x < w
            invariant
                grid_small(soluce),
                w == soluce_dims(soluce).0,
                h == soluce_dims(soluce).1,
                y < h,
                x <= w,
                forall|x2: int, y2: int|
                    0 <= x2 < w && 0 <= y2 < y ==> (#[trigger] soluce_cells(soluce)[(x2, y2)]).piece_id is None,
                forall|x2: int|
                    0 <= x2 < x ==> (#[trigger] soluce_cells(soluce)[(x2, y as int)]).piece_id is None,
            decreases w - x,
        {
            let local = soluce.get(x, y);
            if local.piece_id.is_some() {
                return (x, y);
            }
            x = x + 1;
        }
        y = y + 1;
    }
    (0, 0)
}

/// The grids agree cell for cell after each is aligned at its first
/// occupied cell.
pub open spec fn windows_eq(s1: &Soluce, s2: &Soluce, p1: (int, int), p2: (int, int)) -> bool {
    let w = soluce_dims(s1).0;
    let h = soluce_dims(s1).1;
    let ww = w - crate::matching::imax(p1.0, p2.0);
    let hh = h - crate::matching::imax(p1.1, p2.1);
    forall|dx: int, dy: int|
        0 <= dx < ww && 0 <= dy < hh ==> (#[trigger] soluce_cells(s1)[(p1.0 + dx, p1.1 + dy)])
            == soluce_cells(s2)[(p2.0 + dx, p2.1 + dy)]
}

fn cells_equal(a: SoluceElmt, b: SoluceElmt) -> (r: bool)
    ensures
        r == (a == b),
{
    let ids = match (a.piece_id, b.piece_id) {
        (Some(p), Some(q)) => p == q,
        (None, None) => true,
        _ => false,
    };
    ids && a.rotation == b.rotation
}

/// Structural equality of two equally sized solutions, after aligning
/// each at its first occupied cell.
pub fn check_if_same_soluce(s1: &Soluce, s2: &Soluce) -> (r: bool)
    requires
        grid_small(s1),
        grid_small(s2),
        soluce_dims(s2) == soluce_dims(s1),
    ensures
        forall|p1: (int, int), p2: (int, int)|
            is_first_non_empty(s1, p1) && is_first_non_empty(s2, p2) ==> (r == windows_eq(
                s1,
                s2,
                p1,
                p2,
            )),
{
    let (w, h) = s1.dims();
    let (x0, y0) = find_fist_non_empty(s1);
    let (x1, y1) = find_fist_non_empty(s2);
    let xm = if x0 >= x1 {
        x0
    } else {
        x1
    };
    let ym = if y0 >= y1 {
        y0
    } else {
        y1
    };
    let ww = w - xm;
    let hh = h - ym;
    let ghost gp1 = (x0 as int, y0 as int);
    let ghost gp2 = (x1 as int, y1 as int);
    let ghost mut bad: (int, int) = (0int, 0int);
    let mut ret = true;
    let mut dy: usize = 0;
    while dy < hh
        invariant
            grid_small(s1),
            grid_small(s2),
            soluce_dims(s2) == soluce_dims(s1),
            w == soluce_dims(s1).0,
            h == soluce_dims(s1).1,
            x0 <= xm,
            x1 <= xm,
            y0 <= ym,
            y1 <= ym,
            xm as int == crate::matching::imax(gp1.0, gp2.0),
            ym as int == crate::matching::imax(gp1.1, gp2.1),
            xm <= w,
            ym <= h,
            ww == w - xm,
            hh == h - ym,
            dy <= hh,
            gp1 == (x0 as int, y0 as int),
            gp2 == (x1 as int, y1 as int),
            ret ==> (forall|dx2: int, dy2: int|
                0 <= dx2 < ww && 0 <= dy2 < dy ==> (#[trigger] soluce_cells(s1)[(gp1.0 + dx2, gp1.1 + dy2)]) == soluce_cells(s2)[(gp2.0 + dx2, gp2.1 + dy2)]),
            !ret ==> 0 <= bad.0 < ww && 0 <= bad.1 < dy && soluce_cells(s1)[(gp1.0 + bad.0, gp1.1 + bad.1)] != soluce_cells(s2)[(gp2.0 + bad.0, gp2.1 + bad.1)],
        decreases hh - dy,
    {
        let mut dx: usize = 0;
        while dx < ww
            invariant
                grid_small(s1),
                grid_small(s2),
                soluce_dims(s2) == soluce_dims(s1),
                w == soluce_dims(s1).0,
                h == soluce_dims(s1).1,
                x0 <= xm,
                x1 <= xm,
                y0 <= ym,
                y1 <= ym,
                xm <= w,
                ym <= h,
                ww == w - xm,
                hh == h - ym,
                dy < hh,
                dx <= ww,
                gp1 == (x0 as int, y0 as int),
                gp2 == (x1 as int, y1 as int),
                ret ==> (forall|dx2: int, dy2: int|
                    0 <= dx2 < ww && 0 <= dy2 < dy ==> (#[trigger] soluce_cells(s1)[(gp1.0 + dx2, gp1.1 + dy2)]) == soluce_cells(s2)[(gp2.0 + dx2, gp2.1 + dy2)]),
                ret ==> (forall|dx2: int|
                    0 <= dx2 < dx ==> (#[trigger] soluce_cells(s1)[(gp1.0 + dx2, gp1.1 + dy)]) == soluce_cells(s2)[(gp2.0 + dx2, gp2.1 + dy)]),
                !ret ==> 0 <= bad.0 < ww && (0 <= bad.1 < dy || (bad.1 == dy && bad.0 < dx))
                    && soluce_cells(s1)[(gp1.0 + bad.0, gp1.1 + bad.1)] != soluce_cells(s2)[(gp2.0 + bad.0, gp2.1 + bad.1)],
            decreases ww - dx,
        {
            let c1 = s1.get(x0 + dx, y0 + dy);
            let c2 = s2.get(x1 + dx, y1 + dy);
            if !cells_equal(c1, c2) {
                if ret {
                    proof {
                        bad = (dx as int, dy as int);
                    }
                }
                ret = false;
            }
            dx = dx + 1;
        }
        dy = dy + 1;
    }
    proof {
        assert(is_first_non_empty(s1, gp1));
        assert(is_first_non_empty(s2, gp2));
        assert forall|p1: (int, int), p2: (int, int)|
            is_first_non_empty(s1, p1) && is_first_non_empty(s2, p2) implies (ret == windows_eq(
            s1,
            s2,
            p1,
            p2,
        )) by {
            lemma_first_non_empty_unique(s1, p1, gp1);
            lemma_first_non_empty_unique(s2, p2, gp2);
            if !ret {
                assert(!windows_eq(s1, s2, gp1, gp2)) by {
                    assert(soluce_cells(s1)[(gp1.0 + bad.0, gp1.1 + bad.1)] != soluce_cells(s2)[
                        (gp2.0 + bad.0, gp2.1 + bad.1)]);
                }
            }
        }
    }
    ret
}



/// Cap on retained tied solutions; overflowing it aborts the search.
pub const SOLUTION_CAP: usize = 400;

/// The retained maximal solutions and the piece count they tie on.
pub struct SoluceProposal {
    pub list: Vec<Soluce>,
    pub nb: u32,
}

/// The proposal's books are in order for a search over `n` pieces on a
/// grid of the given dimensions.
pub open spec fn proposal_ok(pr: &SoluceProposal, n: int, dims: (int, int)) -> bool {
    &&& pr.list@.len() < SOLUTION_CAP
    &&& (pr.nb >= 1 ==> pr.list@.len() >= 1)
    &&& forall|k: int| 0 <= k < pr.list@.len() ==> soluce_dims(&(#[trigger] pr.list@[k])) == dims
    &&& forall|k: int| 0 <= k < pr.list@.len() ==> grid_valid(&(#[trigger] pr.list@[k]), n)
}

/// Every match entry of every piece names a piece of the collection and a
/// side index.
pub open spec fn pieces_links_ok(ps: Seq<Piece>) -> bool {
    forall|p: int, f: int, k: int|
        0 <= p < ps.len() && 0 <= f < 4 && 0 <= k < ps[p].matches@[f]@.len() ==> ((
        #[trigger] ps[p].matches@[f]@[k]).piece < ps.len() && ps[p].matches@[f]@[k].side < 4)
}

/// The solver's working state is coherent: the usage map covers the
/// pieces, the grid is valid, and every placed piece is marked used.
pub open spec fn state_ok(s: &Soluce, usage: Seq<bool>, n: int) -> bool {
    &&& grid_small(s)
    &&& usage.len() == n
    &&& n <= u32::MAX
    &&& grid_valid(s, n)
    &&& forall|x: int, y: int|
        0 <= x < soluce_dims(s).0 && 0 <= y < soluce_dims(s).1 && (#[trigger] soluce_cells(s)[(x, y)]).piece_id is Some ==> usage[soluce_cells(s)[(x, y)].piece_id->Some_0 as int]
}

fn copy_matches(src: &Vec<PieceMatch>) -> (r: Vec<PieceMatch>)
    ensures
        r@ == src@,
{
    let mut r: Vec<PieceMatch> = Vec::new();
    let mut i: usize = 0;
    while i < src.len()
        invariant
            i <= src@.len(),
            r@ == src@.subrange(0, i as int),
        decreases src@.len() - i,
    {
        r.push(src[i]);
        proof {
            assert(r@ =~= src@.subrange(0, i as int + 1));
        }
        i = i + 1;
    }
    proof {
        assert(r@ =~= src@);
    }
    r
}



/// Equal dimensions and equal cells at every coordinate on the grid.
pub open spec fn same_cells(a: &Soluce, b: &Soluce) -> bool {
    &&& soluce_dims(a) == soluce_dims(b)
    &&& forall|x: int, y: int|
        0 <= x < soluce_dims(a).0 && 0 <= y < soluce_dims(a).1
            ==> (#[trigger] soluce_cells(a)[(x, y)]) == soluce_cells(b)[(x, y)]
}

/// The neighbour offset that board side `d` looks toward.
pub open spec fn dir_delta(d: int) -> (int, int) {
    if d == crate::piece::TOP as int {
        (0int, -1int)
    } else if d == crate::piece::RIGHT as int {
        (1int, 0int)
    } else if d == crate::piece::BOTTOM as int {
        (0int, 1int)
    } else {
        (-1int, 0int)
    }
}

/// Every pair of adjacent placed pieces is backed by the match catalog:
/// for each filled cell and each direction, either the cell's own piece
/// names the neighbour on the facing edge, or the neighbour's piece names
/// it back from the other side. (A direction without a placed neighbour
/// is trivially backed.)
pub open spec fn grid_linked(ps: Seq<Piece>, s: &Soluce) -> bool {
    forall|x: int, y: int, d: int|
        #![trigger soluce_cells(s)[(x, y)], dir_delta(d)]
        0 <= x < soluce_dims(s).0 && 0 <= y < soluce_dims(s).1 && 0 <= d < 4 && soluce_cells(s)[
            (x, y)].piece_id is Some ==> (spec_neighbor_consistent(
            ps,
            s,
            (x, y),
            dir_delta(d),
            d,
        ) || spec_neighbor_consistent(
            ps,
            s,
            (x + dir_delta(d).0, y + dir_delta(d).1),
            dir_delta((d + 2) % 4),
            (d + 2) % 4,
        ))
}

/// Consistency of a placement toward one direction depends only on the
/// two cells it reads.
proof fn lemma_consistent_two_cells(
    ps: Seq<Piece>,
    a: &Soluce,
    b: &Soluce,
    pos: (int, int),
    delta: (int, int),
    side: int,
)
    requires
        soluce_dims(a) == soluce_dims(b),
        soluce_cells(a)[pos] == soluce_cells(b)[pos],
        (0 <= pos.0 + delta.0 < soluce_dims(a).0 && 0 <= pos.1 + delta.1 < soluce_dims(a).1)
            ==> soluce_cells(a)[(pos.0 + delta.0, pos.1 + delta.1)] == soluce_cells(b)[
            (pos.0 + delta.0, pos.1 + delta.1)],
    ensures
        spec_neighbor_consistent(ps, a, pos, delta, side) == spec_neighbor_consistent(
            ps,
            b,
            pos,
            delta,
            side,
        ),
{
}

/// A grid that matches another cell for cell is backed by the catalog
/// exactly when the other is.
proof fn lemma_grid_linked_congruence(ps: Seq<Piece>, a: &Soluce, b: &Soluce)
    requires
        same_cells(a, b),
        grid_linked(ps, b),
    ensures
        grid_linked(ps, a),
{
    assert forall|x: int, y: int, d: int|
        #![trigger soluce_cells(a)[(x, y)], dir_delta(d)]
        0 <= x < soluce_dims(a).0 && 0 <= y < soluce_dims(a).1 && 0 <= d < 4 && soluce_cells(a)[
            (x, y)].piece_id is Some implies (spec_neighbor_consistent(
        ps,
        a,
        (x, y),
        dir_delta(d),
        d,
    ) || spec_neighbor_consistent(
        ps,
        a,
        (x + dir_delta(d).0, y + dir_delta(d).1),
        dir_delta((d + 2) % 4),
        (d + 2) % 4,
    )) by {
        let delta = dir_delta(d);
        let npos = (x + delta.0, y + delta.1);
        let back = dir_delta((d + 2) % 4);
        assert(soluce_cells(a)[(x, y)] == soluce_cells(b)[(x, y)]);
        if 0 <= npos.0 < soluce_dims(a).0 && 0 <= npos.1 < soluce_dims(a).1 {
            assert(soluce_cells(a)[npos] == soluce_cells(b)[npos]);
            lemma_consistent_two_cells(ps, a, b, npos, back, (d + 2) % 4);
        }
        lemma_consistent_two_cells(ps, a, b, (x, y), delta, d);
        assert(soluce_cells(b)[(x, y)].piece_id is Some);
    }
}

/// Number of occupied cells in row `y` between columns `x0` and `x1`.
pub open spec fn filled_in_row(s: &Soluce, y: int, x0: int, x1: int) -> int
    decreases x1 - x0,
{
    if x0 >= x1 {
        0
    } else {
        filled_in_row(s, y, x0, x1 - 1) + if soluce_cells(s)[(x1 - 1, y)].piece_id is Some {
            1int
        } else {
            0int
        }
    }
}

/// Number of occupied cells in the rows below `y1`.
pub open spec fn filled_below_row(s: &Soluce, y1: int) -> int
    decreases y1,
{
    if y1 <= 0 {
        0
    } else {
        filled_below_row(s, y1 - 1) + filled_in_row(s, y1 - 1, 0, soluce_dims(s).0)
    }
}

/// Number of pieces placed on the grid.
pub open spec fn count_filled(s: &Soluce) -> int {
    filled_below_row(s, soluce_dims(s).1)
}

proof fn lemma_filled_row_congruence(a: &Soluce, b: &Soluce, y: int, x0: int, x1: int)
    requires
        forall|x: int| x0 <= x < x1 ==> (#[trigger] soluce_cells(a)[(x, y)]) == soluce_cells(b)[
            (x, y)],
    ensures
        filled_in_row(a, y, x0, x1) == filled_in_row(b, y, x0, x1),
    decreases x1 - x0,
{
    if x0 < x1 {
        lemma_filled_row_congruence(a, b, y, x0, x1 - 1);
    }
}

/// Grids that agree cell for cell hold the same number of pieces.
proof fn lemma_count_filled_congruence(a: &Soluce, b: &Soluce)
    requires
        same_cells(a, b),
    ensures
        count_filled(a) == count_filled(b),
{
    lemma_filled_below_congruence(a, b, soluce_dims(a).1);
}

proof fn lemma_filled_below_congruence(a: &Soluce, b: &Soluce, y1: int)
    requires
        same_cells(a, b),
        y1 <= soluce_dims(a).1,
    ensures
        filled_below_row(a, y1) == filled_below_row(b, y1),
    decreases y1,
{
    if y1 > 0 {
        lemma_filled_below_congruence(a, b, y1 - 1);
        lemma_filled_row_congruence(a, b, y1 - 1, 0, soluce_dims(a).0);
    }
}

proof fn lemma_filled_row_update(a: &Soluce, b: &Soluce, px: int, py: int, y: int, x1: int)
    requires
        forall|x: int, yy: int|
            !(x == px && yy == py) ==> (#[trigger] soluce_cells(a)[(x, yy)]) == soluce_cells(b)[
                (x, yy)],
        soluce_cells(a)[(px, py)].piece_id is None,
        soluce_cells(b)[(px, py)].piece_id is Some,
    ensures
        filled_in_row(b, y, 0, x1) == filled_in_row(a, y, 0, x1) + if y == py && px < x1 && px
            >= 0 {
            1int
        } else {
            0int
        },
    decreases x1,
{
    if x1 > 0 {
        lemma_filled_row_update(a, b, px, py, y, x1 - 1);
    }
}

/// Filling one empty cell raises the piece count by exactly one.
proof fn lemma_count_filled_update(a: &Soluce, b: &Soluce, px: int, py: int)
    requires
        soluce_dims(a) == soluce_dims(b),
        0 <= px < soluce_dims(a).0,
        0 <= py < soluce_dims(a).1,
        forall|x: int, yy: int|
            !(x == px && yy == py) ==> (#[trigger] soluce_cells(a)[(x, yy)]) == soluce_cells(b)[
                (x, yy)],
        soluce_cells(a)[(px, py)].piece_id is None,
        soluce_cells(b)[(px, py)].piece_id is Some,
    ensures
        count_filled(b) == count_filled(a) + 1,
{
    lemma_filled_below_update(a, b, px, py, soluce_dims(a).1);
}

proof fn lemma_filled_below_update(a: &Soluce, b: &Soluce, px: int, py: int, y1: int)
    requires
        soluce_dims(a) == soluce_dims(b),
        0 <= px < soluce_dims(a).0,
        0 <= py < soluce_dims(a).1,
        forall|x: int, yy: int|
            !(x == px && yy == py) ==> (#[trigger] soluce_cells(a)[(x, yy)]) == soluce_cells(b)[
                (x, yy)],
        soluce_cells(a)[(px, py)].piece_id is None,
        soluce_cells(b)[(px, py)].piece_id is Some,
    ensures
        filled_below_row(b, y1) == filled_below_row(a, y1) + if py < y1 {
            1int
        } else {
            0int
        },
    decreases y1,
{
    if y1 > 0 {
        lemma_filled_below_update(a, b, px, py, y1 - 1);
        lemma_filled_row_update(a, b, px, py, y1 - 1, soluce_dims(a).0);
    }
}

/// A grid with no occupied cell holds no piece.
proof fn lemma_count_filled_empty(s: &Soluce)
    requires
        all_empty(s),
    ensures
        count_filled(s) == 0,
{
    lemma_filled_below_empty(s, soluce_dims(s).1);
}

proof fn lemma_filled_below_empty(s: &Soluce, y1: int)
    requires
        all_empty(s),
        y1 <= soluce_dims(s).1,
    ensures
        filled_below_row(s, y1) == 0,
    decreases y1,
{
    if y1 > 0 {
        lemma_filled_below_empty(s, y1 - 1);
        lemma_filled_row_empty(s, y1 - 1, soluce_dims(s).0);
    }
}

proof fn lemma_filled_row_empty(s: &Soluce, y: int, x1: int)
    requires
        all_empty(s),
        0 <= y < soluce_dims(s).1,
        x1 <= soluce_dims(s).0,
    ensures
        filled_in_row(s, y, 0, x1) == 0,
    decreases x1,
{
    if x1 > 0 {
        lemma_filled_row_empty(s, y, x1 - 1);
    }
}

/// A usage map with no piece marked used counts zero.
proof fn lemma_count_true_all_false(s: Seq<bool>)
    requires
        forall|i: int| 0 <= i < s.len() ==> !(#[trigger] s[i]),
    ensures
        count_true(s) == 0,
    decreases s.len(),
{
    if s.len() > 0 {
        assert forall|i: int| 0 <= i < s.drop_last().len() implies !(
        #[trigger] s.drop_last()[i]) by {
            assert(s.drop_last()[i] == s[i]);
        }
        lemma_count_true_all_false(s.drop_last());
    }
}

/// No alignment at the two grids' first occupied cells makes them equal:
/// the structural distinctness the retained-solution set keeps.
pub open spec fn distinct_soluce(a: &Soluce, b: &Soluce) -> bool {
    forall|p1: (int, int), p2: (int, int)|
        is_first_non_empty(a, p1) && is_first_non_empty(b, p2) ==> !windows_eq(a, b, p1, p2)
}

/// Distinctness from a grid carries over to any cell-for-cell copy of it.
proof fn lemma_distinct_second_congruence(a: &Soluce, b: &Soluce, c: &Soluce)
    requires
        soluce_dims(a) == soluce_dims(b),
        same_cells(b, c),
        distinct_soluce(a, c),
    ensures
        distinct_soluce(a, b),
{
    assert forall|p1: (int, int), p2: (int, int)|
        is_first_non_empty(a, p1) && is_first_non_empty(b, p2) implies !windows_eq(
        a,
        b,
        p1,
        p2,
    ) by {
        assert(all_empty(b) == all_empty(c)) by {
            if all_empty(b) {
                assert forall|x: int, y: int|
                    0 <= x < soluce_dims(c).0 && 0 <= y < soluce_dims(c).1 implies (
                #[trigger] soluce_cells(c)[(x, y)]).piece_id is None by {
                    assert(soluce_cells(b)[(x, y)] == soluce_cells(c)[(x, y)]);
                }
            }
            if all_empty(c) {
                assert forall|x: int, y: int|
                    0 <= x < soluce_dims(b).0 && 0 <= y < soluce_dims(b).1 implies (
                #[trigger] soluce_cells(b)[(x, y)]).piece_id is None by {
                    assert(soluce_cells(b)[(x, y)] == soluce_cells(c)[(x, y)]);
                }
            }
        }
        assert(is_first_non_empty(c, p2)) by {
            if !all_empty(b) {
                assert(soluce_cells(c)[p2] == soluce_cells(b)[p2]);
                assert forall|x: int, y: int|
                    0 <= x < soluce_dims(c).0 && 0 <= y < soluce_dims(c).1 && (y < p2.1 || (y
                        == p2.1 && x < p2.0)) implies (#[trigger] soluce_cells(c)[
                    (x, y)]).piece_id is None by {
                    assert(soluce_cells(b)[(x, y)] == soluce_cells(c)[(x, y)]);
                }
            }
        }
        assert(!windows_eq(a, c, p1, p2));
        if windows_eq(a, b, p1, p2) {
            assert(windows_eq(a, c, p1, p2)) by {
                let w = soluce_dims(a).0;
                let h = soluce_dims(a).1;
                let ww = crate::matching::imax(p1.0, p2.0);
                let hh = crate::matching::imax(p1.1, p2.1);
                assert forall|dx: int, dy: int|
                    0 <= dx < w - ww && 0 <= dy < h - hh implies (#[trigger] soluce_cells(a)[
                    (p1.0 + dx, p1.1 + dy)]) == soluce_cells(c)[(p2.0 + dx, p2.1 + dy)] by {
                    assert(soluce_cells(a)[(p1.0 + dx, p1.1 + dy)] == soluce_cells(b)[
                        (p2.0 + dx, p2.1 + dy)]);
                    if 0 <= p2.0 + dx < soluce_dims(b).0 && 0 <= p2.1 + dy < soluce_dims(b).1 {
                        assert(soluce_cells(b)[(p2.0 + dx, p2.1 + dy)] == soluce_cells(c)[
                            (p2.0 + dx, p2.1 + dy)]);
                    }
                }
            }
        }
    }
}

/// Every piece's every match list is empty: the catalog offers no
/// candidate for any edge.
pub open spec fn all_matches_empty(ps: Seq<Piece>) -> bool {
    forall|p: int, f: int|
        0 <= p < ps.len() && 0 <= f < 4 ==> (#[trigger] ps[p].matches@[f])@.len() == 0
}

/// Every occupied cell of `base` is occupied by the same piece at the
/// same rotation in `e`.
pub open spec fn preserves_filled(e: &Soluce, base: &Soluce) -> bool {
    forall|x: int, y: int|
        0 <= x < soluce_dims(base).0 && 0 <= y < soluce_dims(base).1 && (#[trigger] soluce_cells(
            base,
        )[(x, y)]).piece_id is Some ==> soluce_cells(e)[(x, y)] == soluce_cells(base)[(x, y)]
}

/// Placing a piece whose four neighbour checks pass keeps the grid backed
/// by the match catalog.
proof fn lemma_placed_grid_linked(ps: Seq<Piece>, placed: &Soluce, pre: &Soluce, pos: (int, int))
    requires
        soluce_dims(placed) == soluce_dims(pre),
        0 <= pos.0 < soluce_dims(pre).0,
        0 <= pos.1 < soluce_dims(pre).1,
        forall|x1: int, y1: int|
            0 <= x1 < soluce_dims(pre).0 && 0 <= y1 < soluce_dims(pre).1 && !(x1 == pos.0 && y1
                == pos.1) ==> (#[trigger] soluce_cells(placed)[(x1, y1)]) == soluce_cells(pre)[
                (x1, y1)],
        grid_linked(ps, pre),
        spec_neighbor_consistent(ps, placed, pos, (-1, 0), crate::piece::LEFT as int),
        spec_neighbor_consistent(ps, placed, pos, (1, 0), crate::piece::RIGHT as int),
        spec_neighbor_consistent(ps, placed, pos, (0, -1), crate::piece::TOP as int),
        spec_neighbor_consistent(ps, placed, pos, (0, 1), crate::piece::BOTTOM as int),
    ensures
        grid_linked(ps, placed),
{
    let dims = soluce_dims(pre);
    assert forall|x: int, y: int, d: int|
        #![trigger soluce_cells(placed)[(x, y)], dir_delta(d)]
        0 <= x < dims.0 && 0 <= y < dims.1 && 0 <= d < 4 && soluce_cells(placed)[
            (x, y)].piece_id is Some implies (spec_neighbor_consistent(
        ps,
        placed,
        (x, y),
        dir_delta(d),
        d,
    ) || spec_neighbor_consistent(
        ps,
        placed,
        (x + dir_delta(d).0, y + dir_delta(d).1),
        dir_delta((d + 2) % 4),
        (d + 2) % 4,
    )) by {
        let delta = dir_delta(d);
        let npos = (x + delta.0, y + delta.1);
        let back = dir_delta((d + 2) % 4);
        if x == pos.0 && y == pos.1 {
            assert(spec_neighbor_consistent(ps, placed, (x, y), delta, d));
        } else if npos == pos {
            assert(spec_neighbor_consistent(ps, placed, pos, back, (d + 2) % 4));
        } else {
            assert(soluce_cells(placed)[(x, y)] == soluce_cells(pre)[(x, y)]);
            assert(soluce_cells(pre)[(x, y)].piece_id is Some);
            lemma_consistent_two_cells(ps, placed, pre, (x, y), delta, d);
            if 0 <= npos.0 < dims.0 && 0 <= npos.1 < dims.1 {
                assert(soluce_cells(placed)[npos] == soluce_cells(pre)[npos]);
                lemma_consistent_two_cells(ps, placed, pre, npos, back, (d + 2) % 4);
            }
        }
    }
}

/// One exhaustive pass of the backtracking search: find each fillable
/// empty cell, try its neighbour's retained candidate in every legal way,
/// recurse on success and undo every tentative placement; at a dead end,
/// record the placement against the best piece count seen so far. The
/// piece count of retained solutions never decreases. Aborts when the
/// retained-solution cap overflows.
#[verifier::rlimit(100)]
#[verifier::spinoff_prover]
pub fn search_next_step_recurse(
    pieces: &PieceVec,
    current: &mut Soluce,
    usage: &mut Vec<bool>,
    proposal: &mut SoluceProposal,
) -> (r: Result<(), SolverError>)
    requires
        forall|p: int| 0 <= p < pieces@.len() ==> (#[trigger] pieces@[p]).wf(),
        pieces_links_ok(pieces@),
        state_ok(old(current), old(usage)@, pieces@.len() as int),
        proposal_ok(old(proposal), pieces@.len() as int, soluce_dims(old(current))),
        grid_linked(pieces@, old(current)),
        forall|k: int|
            0 <= k < old(proposal).list@.len() ==> grid_linked(
                pieces@,
                &(#[trigger] old(proposal).list@[k]),
            ),
        forall|i: int, j: int|
            0 <= i < j < old(proposal).list@.len() ==> distinct_soluce(
                &(#[trigger] old(proposal).list@[i]),
                &(#[trigger] old(proposal).list@[j]),
            ),
        count_filled(old(current)) == count_true(old(usage)@),
        forall|k: int|
            0 <= k < old(proposal).list@.len() ==> count_filled(
                &(#[trigger] old(proposal).list@[k]),
            ) == old(proposal).nb,
    ensures
        final(proposal).nb >= old(proposal).nb,
        r is Err ==> final(proposal).list@.len() >= SOLUTION_CAP,
        all_matches_empty(pieces@) && old(proposal).list@.len() + 1 < SOLUTION_CAP ==> r is Ok,
        r is Ok ==> {
            &&& same_cells(final(current), old(current))
            &&& final(usage)@ == old(usage)@
            &&& proposal_ok(final(proposal), pieces@.len() as int, soluce_dims(old(current)))
            &&& (count_true(old(usage)@) >= 1 ==> final(proposal).nb >= 1)
            &&& forall|k: int|
                0 <= k < final(proposal).list@.len() ==> (old(proposal).list@.contains(
                    #[trigger] final(proposal).list@[k],
                ) || preserves_filled(&final(proposal).list@[k], old(current)))
            &&& (all_matches_empty(pieces@) ==> forall|k: int|
                0 <= k < final(proposal).list@.len() ==> (old(proposal).list@.contains(
                    #[trigger] final(proposal).list@[k],
                ) || same_cells(&final(proposal).list@[k], old(current))))
            &&& forall|k: int|
                0 <= k < final(proposal).list@.len() ==> grid_linked(
                    pieces@,
                    &(#[trigger] final(proposal).list@[k]),
                )
            &&& forall|i: int, j: int|
                0 <= i < j < final(proposal).list@.len() ==> distinct_soluce(
                    &(#[trigger] final(proposal).list@[i]),
                    &(#[trigger] final(proposal).list@[j]),
                )
            &&& forall|k: int|
                0 <= k < final(proposal).list@.len() ==> count_filled(
                    &(#[trigger] final(proposal).list@[k]),
                ) == final(proposal).nb
        },
    decreases old(usage)@.len() - count_true(old(usage)@),
{
    let ghost n = pieces@.len() as int;
    let ghost dims0 = soluce_dims(old(current));
    let ghost list0 = proposal.list@;
    proof {
        lemma_count_true_bound(old(usage)@);
    }
    let (w, h) = current.dims();
    let mut found = false;
    let mut y: usize = 0;
    while y < h
        invariant
            forall|p: int| 0 <= p < pieces@.len() ==> (#[trigger] pieces@[p]).wf(),
            pieces_links_ok(pieces@),
            n == pieces@.len(),
            dims0 == soluce_dims(old(current)),
            w == dims0.0,
            h == dims0.1,
            soluce_dims(current) == dims0,
            same_cells(current, old(current)),
            usage@ == old(usage)@,
            state_ok(current, usage@, n),
            proposal_ok(proposal, n, dims0),
            proposal.nb >= old(proposal).nb,
            grid_linked(pieces@, current),
            all_matches_empty(pieces@) ==> proposal.list@.len() == old(proposal).list@.len(),
            forall|i: int, j: int|
                0 <= i < j < proposal.list@.len() ==> distinct_soluce(
                    &(#[trigger] proposal.list@[i]),
                    &(#[trigger] proposal.list@[j]),
                ),
            count_filled(current) == count_true(usage@),
            forall|k: int|
                0 <= k < proposal.list@.len() ==> count_filled(
                    &(#[trigger] proposal.list@[k]),
                ) == proposal.nb,
            forall|k: int|
                0 <= k < proposal.list@.len() ==> grid_linked(
                    pieces@,
                    &(#[trigger] proposal.list@[k]),
                ),
            forall|k: int|
                0 <= k < proposal.list@.len() ==> (list0.contains(#[trigger] proposal.list@[k])
                    || preserves_filled(&proposal.list@[k], old(current))),
            all_matches_empty(pieces@) ==> forall|k: int|
                0 <= k < proposal.list@.len() ==> (list0.contains(#[trigger] proposal.list@[k])
                    || same_cells(&proposal.list@[k], old(current))),
            found ==> proposal.nb >= 1,
            y <= h,
        decreases h - y,
    {
        let mut x: usize = 0;
        while x < w
            invariant
                forall|p: int| 0 <= p < pieces@.len() ==> (#[trigger] pieces@[p]).wf(),
                pieces_links_ok(pieces@),
                n == pieces@.len(),
                dims0 == soluce_dims(old(current)),
                w == dims0.0,
                h == dims0.1,
                soluce_dims(current) == dims0,
                same_cells(current, old(current)),
                usage@ == old(usage)@,
                state_ok(current, usage@, n),
                proposal_ok(proposal, n, dims0),
                proposal.nb >= old(proposal).nb,
                grid_linked(pieces@, current),
                all_matches_empty(pieces@) ==> proposal.list@.len() == old(proposal).list@.len(),
                forall|i: int, j: int|
                    0 <= i < j < proposal.list@.len() ==> distinct_soluce(
                        &(#[trigger] proposal.list@[i]),
                        &(#[trigger] proposal.list@[j]),
                    ),
                count_filled(current) == count_true(usage@),
                forall|k: int|
                    0 <= k < proposal.list@.len() ==> count_filled(
                        &(#[trigger] proposal.list@[k]),
                    ) == proposal.nb,
                forall|k: int|
                    0 <= k < proposal.list@.len() ==> grid_linked(
                        pieces@,
                        &(#[trigger] proposal.list@[k]),
                    ),
                forall|k: int|
                    0 <= k < proposal.list@.len() ==> (list0.contains(
                        #[trigger] proposal.list@[k],
                    ) || preserves_filled(&proposal.list@[k], old(current))),
                all_matches_empty(pieces@) ==> forall|k: int|
                    0 <= k < proposal.list@.len() ==> (list0.contains(
                        #[trigger] proposal.list@[k],
                    ) || same_cells(&proposal.list@[k], old(current))),
                found ==> proposal.nb >= 1,
                y < h,
                x <= w,
            decreases w - x,
        {
            let local = current.get(x, y);
            if local.piece_id.is_none() {
                let status = has_neighboor(current, x, y);
                match status {
                    Some(coord) => {
                        proof {
                            assert(occupied(current, coord.0 as int, coord.1 as int));
                            assert(!(coord.0 == x && coord.1 == y));
                        }
                        let (id, nside) = extract_candidates(current, (x, y), coord);
                        let candidates = copy_matches(&pieces[id].matches[nside]);
                        let mut ci: usize = 0;
                        while ci < candidates.len()
                            invariant
                                forall|p: int|
                                    0 <= p < pieces@.len() ==> (#[trigger] pieces@[p]).wf(),
                                pieces_links_ok(pieces@),
                                n == pieces@.len(),
                                dims0 == soluce_dims(old(current)),
                                w == dims0.0,
                                h == dims0.1,
                                soluce_dims(current) == dims0,
                                same_cells(current, old(current)),
                                usage@ == old(usage)@,
                                state_ok(current, usage@, n),
                                proposal_ok(proposal, n, dims0),
                                proposal.nb >= old(proposal).nb,
                                grid_linked(pieces@, current),
                                all_matches_empty(pieces@) ==> proposal.list@.len() == old(proposal).list@.len(),
                                forall|i: int, j: int|
                                    0 <= i < j < proposal.list@.len() ==> distinct_soluce(
                                        &(#[trigger] proposal.list@[i]),
                                        &(#[trigger] proposal.list@[j]),
                                    ),
                                count_filled(current) == count_true(usage@),
                                forall|k: int|
                                    0 <= k < proposal.list@.len() ==> count_filled(
                                        &(#[trigger] proposal.list@[k]),
                                    ) == proposal.nb,
                                forall|k: int|
                                    0 <= k < proposal.list@.len() ==> grid_linked(
                                        pieces@,
                                        &(#[trigger] proposal.list@[k]),
                                    ),
                                forall|k: int|
                                    0 <= k < proposal.list@.len() ==> (list0.contains(
                                        #[trigger] proposal.list@[k],
                                    ) || preserves_filled(&proposal.list@[k], old(current))),
                                all_matches_empty(pieces@) ==> forall|k: int|
                                    0 <= k < proposal.list@.len() ==> (list0.contains(
                                        #[trigger] proposal.list@[k],
                                    ) || same_cells(&proposal.list@[k], old(current))),
                                found ==> proposal.nb >= 1,
                                y < h,
                                x < w,
                                ci <= candidates@.len(),
                                id < pieces@.len(),
                                nside < 4,
                                candidates@ == pieces@[id as int].matches@[nside as int]@,
                                !(coord.0 == x && coord.1 == y),
                                soluce_cells(current)[(x as int, y as int)].piece_id is None,
                            decreases candidates@.len() - ci,
                        {
                            let c = candidates[ci];
                            proof {
                                assert(c.piece < pieces@.len());
                                assert(c.side < 4);
                                assert(!all_matches_empty(pieces@)) by {
                                    if all_matches_empty(pieces@) {
                                        assert(pieces@[id as int].matches@[nside as int]@.len()
                                            == 0);
                                    }
                                }
                            }
                            if !usage[c.piece] {
                                let rot = calc_rotation((x, y), coord, c.side);
                                let ghost pre_s = *current;
                                let ghost cells_before = soluce_cells(current);
                                let ghost usage_before = usage@;
                                current.set(
                                    x,
                                    y,
                                    SoluceElmt { piece_id: Some(c.piece), rotation: rot },
                                );
                                usage.set(c.piece, true);
                                proof {
                                    assert(usage@ =~= usage_before.update(c.piece as int, true));
                                    lemma_count_filled_update(&pre_s, current, x as int, y as int);
                                    lemma_count_true_update(usage_before, c.piece as int, true);
                                    assert(state_ok(current, usage@, n)) by {
                                        assert forall|x1: int, y1: int|
                                            0 <= x1 < dims0.0 && 0 <= y1 < dims0.1 implies
                                            cell_valid(
                                            #[trigger] soluce_cells(current)[(x1, y1)],
                                            n,
                                        ) by {
                                            if !(x1 == x as int && y1 == y as int) {
                                                assert(soluce_cells(current)[(x1, y1)]
                                                    == cells_before[(x1, y1)]);
                                            }
                                        }
                                        assert forall|x1: int, y1: int, x2: int, y2: int|
                                            0 <= x1 < dims0.0 && 0 <= y1 < dims0.1 && 0 <= x2
                                                < dims0.0 && 0 <= y2 < dims0.1 && (
                                            #[trigger] soluce_cells(current)[
                                                (x1, y1)]).piece_id is Some && soluce_cells(
                                                current,
                                            )[(x1, y1)].piece_id == (
                                            #[trigger] soluce_cells(current)[
                                                (x2, y2)]).piece_id implies x1 == x2 && y1
                                            == y2 by {
                                            if x1 == x as int && y1 == y as int {
                                                if !(x2 == x as int && y2 == y as int) {
                                                    assert(soluce_cells(current)[(x2, y2)]
                                                        == cells_before[(x2, y2)]);
                                                    assert(usage_before[c.piece as int]);
                                                }
                                            } else if x2 == x as int && y2 == y as int {
                                                assert(soluce_cells(current)[(x1, y1)]
                                                    == cells_before[(x1, y1)]);
                                                assert(usage_before[c.piece as int]);
                                            } else {
                                                assert(soluce_cells(current)[(x1, y1)]
                                                    == cells_before[(x1, y1)]);
                                                assert(soluce_cells(current)[(x2, y2)]
                                                    == cells_before[(x2, y2)]);
                                            }
                                        }
                                    }
                                }
                                let consistent = check_match_all_neighboors(
                                    pieces,
                                    current,
                                    (x, y),
                                );
                                if consistent {
                                    proof {
                                        lemma_count_true_update(
                                            usage_before,
                                            c.piece as int,
                                            true,
                                        );
                                        lemma_count_true_bound(usage@);
                                        lemma_count_true_positive(usage@, c.piece as int);
                                        lemma_placed_grid_linked(
                                            pieces@,
                                            current,
                                            &pre_s,
                                            (x as int, y as int),
                                        );
                                    }
                                    let ghost mid_list = proposal.list@;
                                    let ghost placed = *current;
                                    let res = search_next_step_recurse(
                                        pieces,
                                        current,
                                        usage,
                                        proposal,
                                    );
                                    if res.is_err() {
                                        return res;
                                    }
                                    proof {
                                        lemma_count_filled_congruence(current, &placed);
                                    }
                                    proof {
                                        assert forall|k: int|
                                            0 <= k < proposal.list@.len() implies (list0.contains(
                                            #[trigger] proposal.list@[k],
                                        ) || preserves_filled(&proposal.list@[k], old(current))) by {
                                            let e = proposal.list@[k];
                                            if mid_list.contains(e) {
                                                let t = choose|t: int|
                                                    0 <= t < mid_list.len() && mid_list[t] == e;
                                            } else {
                                                assert(preserves_filled(&e, &placed));
                                                assert forall|x1: int, y1: int|
                                                    0 <= x1 < soluce_dims(old(current)).0 && 0
                                                        <= y1 < soluce_dims(old(current)).1 && (
                                                #[trigger] soluce_cells(old(current))[
                                                    (x1, y1)]).piece_id is Some implies
                                                    soluce_cells(&e)[(x1, y1)] == soluce_cells(
                                                    old(current),
                                                )[(x1, y1)] by {
                                                    assert(soluce_cells(&placed)[(x1, y1)]
                                                        == soluce_cells(old(current))[(x1, y1)]);
                                                }
                                            }
                                        }
                                    }
                                    found = true;
                                }
                                current.set(x, y, SoluceElmt { piece_id: None, rotation: 0 });
                                usage.set(c.piece, false);
                                proof {
                                    assert(cells_before[(x as int, y as int)].piece_id is None);
                                    assert(cell_valid(cells_before[(x as int, y as int)], n));
                                    assert(cells_before[(x as int, y as int)] == (SoluceElmt {
                                        piece_id: None,
                                        rotation: 0,
                                    }));
                                    assert forall|x1: int, y1: int|
                                        0 <= x1 < dims0.0 && 0 <= y1 < dims0.1 implies (
                                    #[trigger] soluce_cells(current)[(x1, y1)]) == cells_before[
                                        (x1, y1)] by {}
                                    assert(usage_before[c.piece as int] == false);
                                    assert(usage@ =~= usage_before);
                                    assert(same_cells(current, &pre_s));
                                    lemma_grid_linked_congruence(pieces@, current, &pre_s);
                                    lemma_count_filled_congruence(current, &pre_s);
                                }
                            }
                            ci = ci + 1;
                        }
                    },
                    None => {},
                }
            }
            x = x + 1;
        }
        y = y + 1;
    }
    if !found {
        let nu = usage.len();
        let mut cnt: u32 = 0;
        let mut i: usize = 0;
        while i < nu
            invariant
                nu == usage@.len(),
                nu <= u32::MAX,
                i <= nu,
                cnt <= i,
                cnt == count_true(usage@.take(i as int)),
            decreases nu - i,
        {
            proof {
                assert(usage@.take(i as int + 1).drop_last() =~= usage@.take(i as int));
            }
            if usage[i] {
                cnt = cnt + 1;
            }
            i = i + 1;
        }
        proof {
            assert(usage@.take(nu as int) =~= usage@);
            assert(count_filled(current) == cnt as int);
        }
        if cnt > proposal.nb {
            proposal.list = Vec::new();
            proposal.nb = cnt;
        }
        if cnt == proposal.nb {
            let mut keep = true;
            let mut k: usize = 0;
            while k < proposal.list.len()
                invariant
                    k <= proposal.list@.len(),
                    soluce_dims(current) == dims0,
                    grid_small(current),
                    forall|t: int|
                        0 <= t < proposal.list@.len() ==> soluce_dims(
                            &(#[trigger] proposal.list@[t]),
                        ) == dims0,
                    proposal.list@.len() == 0 ==> keep,
                    keep ==> forall|t: int|
                        0 <= t < k ==> distinct_soluce(&(#[trigger] proposal.list@[t]), current),
                decreases proposal.list@.len() - k,
            {
                if check_if_same_soluce(&proposal.list[k], current) {
                    keep = false;
                }
                k = k + 1;
            }
            if keep {
                let copy = current.duplicate();
                proposal.list.push(copy);
                proof {
                    assert(preserves_filled(&proposal.list@[proposal.list@.len() - 1], old(
                        current,
                    )));
                    assert(same_cells(&proposal.list@[proposal.list@.len() - 1], old(current)));
                    assert(same_cells(&proposal.list@[proposal.list@.len() - 1], current));
                    lemma_grid_linked_congruence(
                        pieces@,
                        &proposal.list@[proposal.list@.len() - 1],
                        current,
                    );
                    assert forall|i: int, j: int|
                        0 <= i < j < proposal.list@.len() implies distinct_soluce(
                        &(#[trigger] proposal.list@[i]),
                        &(#[trigger] proposal.list@[j]),
                    ) by {
                        if j == proposal.list@.len() - 1 {
                            assert(distinct_soluce(&proposal.list@[i], current));
                            lemma_distinct_second_congruence(
                                &proposal.list@[i],
                                &proposal.list@[j],
                                current,
                            );
                        }
                    }
                    lemma_count_filled_congruence(
                        &proposal.list@[proposal.list@.len() - 1],
                        current,
                    );
                }
            }
            if proposal.list.len() >= SOLUTION_CAP {
                return Err(SolverError::TooManySolutions);
            }
        }
    }
    Ok(())
}



/// Assemble a maximal placement: seed the first piece at the grid centre
/// with no rotation, search exhaustively for every edge-consistent
/// placement of the remaining pieces, and return one retained
/// maximal-coverage grid. Fails when the retained-solution cap overflows.
pub fn build_solution(pieces: &PieceVec) -> (r: Result<Soluce, SolverError>)
    requires
        pieces@.len() >= 1,
        2 * pieces@.len() <= u32::MAX,
        forall|p: int| 0 <= p < pieces@.len() ==> (#[trigger] pieces@[p]).wf(),
        pieces_links_ok(pieces@),
    ensures
        all_matches_empty(pieces@) ==> r is Ok,
        r is Ok ==> {
            &&& soluce_dims(&r->Ok_0) == (2 * pieces@.len() as int, 2 * pieces@.len() as int)
            &&& grid_valid(&r->Ok_0, pieces@.len() as int)
            &&& soluce_cells(&r->Ok_0)[(pieces@.len() as int, pieces@.len() as int)]
                == (SoluceElmt { piece_id: Some(0usize), rotation: 0 })
            &&& (all_matches_empty(pieces@) ==> forall|x: int, y: int|
                0 <= x < 2 * pieces@.len() && 0 <= y < 2 * pieces@.len() ==> (
                #[trigger] soluce_cells(&r->Ok_0)[(x, y)]) == if x == pieces@.len() && y
                    == pieces@.len() {
                    SoluceElmt { piece_id: Some(0usize), rotation: 0 }
                } else {
                    SoluceElmt { piece_id: None, rotation: 0 }
                })
            &&& grid_linked(pieces@, &r->Ok_0)
            &&& count_filled(&r->Ok_0) >= 1
        },
{
    let ghost n = pieces@.len() as int;
    let size = pieces.len() * 2;
    let x = size / 2;
    let y = size / 2;
    let mut current = Soluce::new(size, size);
    let mut usage: Vec<bool> = Vec::new();
    let mut i: usize = 0;
    while i < pieces.len()
        invariant
            i <= pieces@.len(),
            usage@.len() == i,
            forall|k: int| 0 <= k < i ==> !(#[trigger] usage@[k]),
        decreases pieces@.len() - i,
    {
        usage.push(false);
        i = i + 1;
    }
    let mut proposal = SoluceProposal { list: Vec::new(), nb: 0 };
    let ghost fresh = current;
    let ghost usage0 = usage@;
    current.set(x, y, SoluceElmt { piece_id: Some(0), rotation: 0 });
    usage.set(0, true);
    let ghost ps0seed = pieces@;
    proof {
        assert(all_empty(&fresh));
        lemma_count_filled_empty(&fresh);
        lemma_count_filled_update(&fresh, &current, n, n);
        lemma_count_true_all_false(usage0);
        lemma_count_true_update(usage0, 0, true);
        assert(count_filled(&current) == count_true(usage@));
        assert(state_ok(&current, usage@, n)) by {
            assert forall|x1: int, y1: int|
                0 <= x1 < soluce_dims(&current).0 && 0 <= y1 < soluce_dims(&current).1 implies
                cell_valid(#[trigger] soluce_cells(&current)[(x1, y1)], n) by {}
        }
        lemma_count_true_positive(usage@, 0);
        assert(grid_linked(pieces@, &current)) by {
            assert forall|x1: int, y1: int, d: int|
                #![trigger soluce_cells(&current)[(x1, y1)], dir_delta(d)]
                0 <= x1 < soluce_dims(&current).0 && 0 <= y1 < soluce_dims(&current).1 && 0 <= d
                    < 4 && soluce_cells(&current)[(x1, y1)].piece_id is Some implies
                spec_neighbor_consistent(ps0seed, &current, (x1, y1), dir_delta(d), d) by {
                let delta = dir_delta(d);
                let npos = (x1 + delta.0, y1 + delta.1);
                if 0 <= npos.0 < soluce_dims(&current).0 && 0 <= npos.1 < soluce_dims(
                    &current,
                ).1 {
                    assert(soluce_cells(&current)[npos].piece_id is None);
                }
            }
        }
    }
    let ghost seeded = current;
    let res = search_next_step_recurse(pieces, &mut current, &mut usage, &mut proposal);
    match res {
        Err(e) => Err(e),
        Ok(()) => {
            let sol = proposal.list[0].duplicate();
            proof {
                assert(preserves_filled(&proposal.list@[0], &seeded));
                assert(soluce_cells(&seeded)[(n, n)] == (SoluceElmt {
                    piece_id: Some(0usize),
                    rotation: 0,
                }));
                assert(soluce_cells(&proposal.list@[0])[(n, n)] == (SoluceElmt {
                    piece_id: Some(0usize),
                    rotation: 0,
                }));
                assert(grid_linked(pieces@, &proposal.list@[0]));
                assert(same_cells(&sol, &proposal.list@[0]));
                lemma_grid_linked_congruence(pieces@, &sol, &proposal.list@[0]);
                assert(count_filled(&proposal.list@[0]) == proposal.nb);
                lemma_count_filled_congruence(&sol, &proposal.list@[0]);
                if all_matches_empty(pieces@) {
                    assert(same_cells(&proposal.list@[0], &seeded));
                    assert forall|x: int, y: int|
                        0 <= x < 2 * pieces@.len() && 0 <= y < 2 * pieces@.len() implies (
                    #[trigger] soluce_cells(&sol)[(x, y)]) == if x == n && y == n {
                        SoluceElmt { piece_id: Some(0usize), rotation: 0 }
                    } else {
                        SoluceElmt { piece_id: None, rotation: 0 }
                    } by {
                        assert(soluce_cells(&sol)[(x, y)] == soluce_cells(&seeded)[(x, y)]);
                    }
                }
            }
            Ok(sol)
        },
    }
}


} // verus!
