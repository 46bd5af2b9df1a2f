use vstd::prelude::*;
use crate::mask::Mask;

verus! {

/// Side index of the upward-facing edge.
pub const TOP: usize = 0;
/// Side index of the right-facing edge.
pub const RIGHT: usize = 1;
/// Side index of the downward-facing edge.
pub const BOTTOM: usize = 2;
/// Side index of the left-facing edge.
pub const LEFT: usize = 3;

/// Classification of one edge of a piece: it either sticks out, curves in,
/// or has not been classified yet.
#[derive(Debug, Copy, Clone, PartialEq, Eq, Structural)]
pub enum PieceSideType {
    Hole,
    Bump,
    Unknown,
}

/// Remembers which side is a bump and which is a hole.
#[derive(Debug)]
pub struct PieceSideInfos {
    pub left: PieceSideType,
    pub right: PieceSideType,
    pub top: PieceSideType,
    pub bottom: PieceSideType,
}

impl PieceSideInfos {
    /// Constructor to init side infos
    pub fn new() -> (r: PieceSideInfos)
        ensures
            r.left == PieceSideType::Unknown,
            r.right == PieceSideType::Unknown,
            r.top == PieceSideType::Unknown,
            r.bottom == PieceSideType::Unknown,
    {
        PieceSideInfos {
            left: PieceSideType::Unknown,
            right: PieceSideType::Unknown,
            top: PieceSideType::Unknown,
            bottom: PieceSideType::Unknown,
        }
    }
}

/// Coordinates of the interesting points of a piece: its four corners and
/// the extremum of the shape (bump or hole) on each side. All of them live
/// in the piece's rotated mask frame; `u32::MAX` marks a point not yet set.
#[derive(Debug)]
pub struct PiecePoints {
    pub top_left_corner: (u32, u32),
    pub top_right_corner: (u32, u32),
    pub bottom_left_corner: (u32, u32),
    pub bottom_right_corner: (u32, u32),
    pub top_shape: (u32, u32),
    pub bottom_shape: (u32, u32),
    pub right_shape: (u32, u32),
    pub left_shape: (u32, u32),
}

impl PiecePoints {
    /// Constructor to init coords
    pub fn new() -> (r: PiecePoints)
        ensures
            r.top_left_corner == (u32::MAX, u32::MAX),
            r.top_right_corner == (u32::MAX, u32::MAX),
            r.bottom_left_corner == (u32::MAX, u32::MAX),
            r.bottom_right_corner == (u32::MAX, u32::MAX),
            r.top_shape == (u32::MAX, u32::MAX),
            r.bottom_shape == (u32::MAX, u32::MAX),
            r.right_shape == (u32::MAX, u32::MAX),
            r.left_shape == (u32::MAX, u32::MAX),
    {
        PiecePoints {
            top_left_corner: (u32::MAX, u32::MAX),
            top_right_corner: (u32::MAX, u32::MAX),
            bottom_left_corner: (u32::MAX, u32::MAX),
            bottom_right_corner: (u32::MAX, u32::MAX),
            top_shape: (u32::MAX, u32::MAX),
            bottom_shape: (u32::MAX, u32::MAX),
            right_shape: (u32::MAX, u32::MAX),
            left_shape: (u32::MAX, u32::MAX),
        }
    }
}

/// One retained matching candidate: this edge's counterpart is edge `side`
/// of piece `piece`, at the given discriminative cost (lower is better).
#[derive(Debug, Copy, Clone, PartialEq, Eq, Structural)]
pub struct PieceMatch {
    pub piece: usize,
    pub side: usize,
    pub distance: u64,
}

/// List of matching candidates for one edge.
pub type PieceMatchVec = Vec<PieceMatch>;

/// An edge prepared for matching: the two corner points and the shape
/// extremum, in the piece's rotated mask frame, plus the classification.
#[derive(Debug, Copy, Clone)]
pub struct PieceFace {
    pub top: (i64, i64),
    pub middle: (i64, i64),
    pub bottom: (i64, i64),
    pub mode: PieceSideType,
}

impl PieceFace {
    pub fn new() -> (r: PieceFace)
        ensures
            r.top == (0i64, 0i64),
            r.middle == (0i64, 0i64),
            r.bottom == (0i64, 0i64),
            r.mode == PieceSideType::Unknown,
    {
        PieceFace {
            top: (0, 0),
            middle: (0, 0),
            bottom: (0, 0),
            mode: PieceSideType::Unknown,
        }
    }
}

/// All three points of the face lie inside a `w` by `h` frame (the closed
/// bounds allow a point on the far border, as a rotation can produce).
pub open spec fn face_within(f: PieceFace, w: int, h: int) -> bool {
    &&& 0 <= f.top.0 <= w && 0 <= f.top.1 <= h
    &&& 0 <= f.middle.0 <= w && 0 <= f.middle.1 <= h
    &&& 0 <= f.bottom.0 <= w && 0 <= f.bottom.1 <= h
}

/// A piece of the puzzle: its identity, the rectangle it was cut from in
/// the source picture, its silhouette mask, the classification and points
/// of its four sides, the four prepared faces and the per-face match lists.
pub struct Piece {
    pub id: u32,
    pub position: (u32, u32, u32, u32),
    pub mask: Mask,
    pub angle: u32,
    pub side_infos: PieceSideInfos,
    pub points: PiecePoints,
    pub quality: u32,
    pub faces: [PieceFace; 4],
    pub matches: Vec<PieceMatchVec>,
}

/// The pieces of one puzzle.
pub type PieceVec = Vec<Piece>;

impl Piece {
    /// Structural soundness: the mask is well formed and there is exactly
    /// one match list per side.
    pub open spec fn wf(self) -> bool {
        &&& self.mask.wf()
        &&& self.matches@.len() == 4
    }

    /// The prepared faces all lie inside the mask frame.
    pub open spec fn faces_within(self) -> bool {
        forall|f: int| 0 <= f < 4 ==> face_within(#[trigger] self.faces@[f], self.mask.w(), self.mask.h())
    }

    /// Every face has been classified as a bump or a hole.
    pub open spec fn modes_known(self) -> bool {
        forall|f: int| 0 <= f < 4 ==> (#[trigger] self.faces@[f]).mode != PieceSideType::Unknown
    }

    /// Constructor of a puzzle piece from its identity, its source
    /// rectangle and its silhouette mask; everything else starts empty.
    pub fn new(id: u32, position: (u32, u32, u32, u32), mask: Mask) -> (r: Piece)
        requires
            mask.wf(),
        ensures
            r.wf(),
            r.id == id,
            r.position == position,
            r.mask == mask,
            r.angle == 0,
            r.quality == 0,
            forall|f: int| 0 <= f < 4 ==> (#[trigger] r.matches@[f])@.len() == 0,
            forall|f: int| 0 <= f < 4 ==> (#[trigger] r.faces@[f]).mode == PieceSideType::Unknown,
    {
        let mut matches: Vec<PieceMatchVec> = Vec::new();
        matches.push(Vec::new());
        matches.push(Vec::new());
        matches.push(Vec::new());
        matches.push(Vec::new());
        Piece {
            id,
            position,
            mask,
            angle: 0,
            side_infos: PieceSideInfos::new(),
            points: PiecePoints::new(),
            quality: 0,
            faces: [PieceFace::new(), PieceFace::new(), PieceFace::new(), PieceFace::new()],
            matches,
        }
    }

    /// The face built from three named points and a side classification:
    /// the corner coordinates carried over unchanged into the wider frame.
    fn helper_face(top: (u32, u32), middle: (u32, u32), bottom: (u32, u32), mode: PieceSideType)
        -> (r: PieceFace)
        ensures
            r == spec_face(top, middle, bottom, mode),
    {
        PieceFace {
            top: (top.0 as i64, top.1 as i64),
            middle: (middle.0 as i64, middle.1 as i64),
            bottom: (bottom.0 as i64, bottom.1 as i64),
            mode,
        }
    }

    /// Fill the four prepared faces from the extracted points and side
    /// classifications.
    pub fn extract_faces(&mut self)
        ensures
            *final(self) == (Piece { faces: final(self).faces, ..*old(self) }),
            final(self).faces@[TOP as int] == spec_face(
                old(self).points.top_left_corner,
                old(self).points.top_shape,
                old(self).points.top_right_corner,
                old(self).side_infos.top,
            ),
            final(self).faces@[RIGHT as int] == spec_face(
                old(self).points.top_right_corner,
                old(self).points.right_shape,
                old(self).points.bottom_right_corner,
                old(self).side_infos.right,
            ),
            final(self).faces@[BOTTOM as int] == spec_face(
                old(self).points.bottom_left_corner,
                old(self).points.bottom_shape,
                old(self).points.bottom_right_corner,
                old(self).side_infos.bottom,
            ),
            final(self).faces@[LEFT as int] == spec_face(
                old(self).points.top_left_corner,
                old(self).points.left_shape,
                old(self).points.bottom_left_corner,
                old(self).side_infos.left,
            ),
    {
        let f0 = Self::helper_face(
            self.points.top_left_corner,
            self.points.top_shape,
            self.points.top_right_corner,
            self.side_infos.top,
        );
        let f1 = Self::helper_face(
            self.points.top_right_corner,
            self.points.right_shape,
            self.points.bottom_right_corner,
            self.side_infos.right,
        );
        let f2 = Self::helper_face(
            self.points.bottom_left_corner,
            self.points.bottom_shape,
            self.points.bottom_right_corner,
            self.side_infos.bottom,
        );
        let f3 = Self::helper_face(
            self.points.top_left_corner,
            self.points.left_shape,
            self.points.bottom_left_corner,
            self.side_infos.left,
        );
        self.faces = [f0, f1, f2, f3];
    }
}

/// The face that `Piece::helper_face` builds: pixel coordinates widened
/// into the signed frame, classification carried over.
pub open spec fn spec_face(
    top: (u32, u32),
    middle: (u32, u32),
    bottom: (u32, u32),
    mode: PieceSideType,
) -> PieceFace {
    PieceFace {
        top: (top.0 as i64, top.1 as i64),
        middle: (middle.0 as i64, middle.1 as i64),
        bottom: (bottom.0 as i64, bottom.1 as i64),
        mode,
    }
}

} // verus!
