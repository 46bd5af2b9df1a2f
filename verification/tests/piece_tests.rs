use puzzle_solver::mask::Mask;
use puzzle_solver::piece::{Piece, PiecePoints, PieceSideInfos, PieceSideType};
use puzzle_solver::size::{build_surround, max_size};

#[test]
fn fresh_points_carry_the_unset_sentinel() {
    let p = PiecePoints::new();
    assert_eq!(p.top_left_corner, (u32::MAX, u32::MAX));
    assert_eq!(p.bottom_right_corner, (u32::MAX, u32::MAX));
    assert_eq!(p.left_shape, (u32::MAX, u32::MAX));
}

#[test]
fn fresh_side_infos_are_unclassified() {
    let s = PieceSideInfos::new();
    assert_eq!(s.left, PieceSideType::Unknown);
    assert_eq!(s.right, PieceSideType::Unknown);
    assert_eq!(s.top, PieceSideType::Unknown);
    assert_eq!(s.bottom, PieceSideType::Unknown);
}

#[test]
fn a_new_piece_starts_with_empty_match_lists() {
    let p = Piece::new(3, (1, 2, 3, 4), Mask::new(4, 4));
    assert_eq!(p.id, 3);
    assert_eq!(p.position, (1, 2, 3, 4));
    assert_eq!(p.quality, 0);
    assert_eq!(p.matches.len(), 4);
    for f in 0..4 {
        assert!(p.matches[f].is_empty());
        assert_eq!(p.faces[f].mode, PieceSideType::Unknown);
    }
}

#[test]
fn faces_are_extracted_from_the_recorded_points() {
    let mut p = Piece::new(0, (0, 0, 8, 8), Mask::new(8, 8));
    p.points.top_left_corner = (1, 1);
    p.points.top_right_corner = (6, 1);
    p.points.bottom_left_corner = (1, 6);
    p.points.bottom_right_corner = (6, 6);
    p.points.top_shape = (3, 0);
    p.points.right_shape = (7, 3);
    p.points.bottom_shape = (3, 7);
    p.points.left_shape = (0, 3);
    p.side_infos.top = PieceSideType::Bump;
    p.side_infos.right = PieceSideType::Hole;
    p.side_infos.bottom = PieceSideType::Bump;
    p.side_infos.left = PieceSideType::Hole;
    p.extract_faces();
    assert_eq!(p.faces[0].top, (1, 1));
    assert_eq!(p.faces[0].middle, (3, 0));
    assert_eq!(p.faces[0].bottom, (6, 1));
    assert_eq!(p.faces[0].mode, PieceSideType::Bump);
    assert_eq!(p.faces[1].top, (6, 1));
    assert_eq!(p.faces[1].middle, (7, 3));
    assert_eq!(p.faces[1].bottom, (6, 6));
    assert_eq!(p.faces[1].mode, PieceSideType::Hole);
    assert_eq!(p.faces[2].top, (1, 6));
    assert_eq!(p.faces[2].middle, (3, 7));
    assert_eq!(p.faces[2].bottom, (6, 6));
    assert_eq!(p.faces[3].top, (1, 1));
    assert_eq!(p.faces[3].middle, (0, 3));
    assert_eq!(p.faces[3].bottom, (1, 6));
}

#[test]
fn tile_size_covers_every_piece_box() {
    let mut m1 = Mask::new(6, 6);
    m1.put_pixel(1, 1, 127);
    m1.put_pixel(4, 2, 127);
    let mut m2 = Mask::new(6, 6);
    m2.put_pixel(0, 0, 127);
    m2.put_pixel(1, 5, 64);
    let pieces = vec![
        Piece::new(0, (0, 0, 0, 0), m1),
        Piece::new(1, (0, 0, 0, 0), m2),
    ];
    let surround = build_surround(&pieces);
    assert_eq!(surround[0], (1, 1, 3, 1));
    assert_eq!(surround[1], (0, 0, 1, 5));
    assert_eq!(max_size(&surround), (5, 5));
}

#[test]
fn tile_size_of_no_pieces_is_zero() {
    let surround: puzzle_solver::size::SurroundVec = Vec::new();
    assert_eq!(max_size(&surround), (0, 0));
}
