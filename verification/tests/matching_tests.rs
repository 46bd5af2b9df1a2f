use puzzle_solver::mask::Mask;
use puzzle_solver::matching::{
    cacl_rotate, calc_face_mask_dist, calc_face_mask_dist_offset, calc_right_mask_pos,
    candidate_pairs, compute_matching, cut_at_or_below, cut_below, count_superp,
    get_intersection, get_rotated_mask, hide_external_black_pixel, move_face, move_rect,
    prune_matches, rotate_face_center, sort_candidates, FacePairCandidate,
};
use puzzle_solver::piece::{Piece, PieceFace, PieceMatch, PieceSideType};

fn full_mask(w: u32, h: u32) -> Mask {
    Mask::from_vec(w, h, vec![puzzle_solver::MASK_PIECE_PIXEL; (w * h) as usize])
}

/// A piece whose whole square is material, with every face classified.
fn square_piece(id: u32, mode: PieceSideType) -> Piece {
    let mut p = Piece::new(id, (0, 0, 4, 4), full_mask(4, 4));
    for f in 0..4 {
        p.faces[f] = PieceFace { top: (0, 0), middle: (0, 1), bottom: (0, 3), mode };
    }
    p
}

/// Two full squares side by side form an exact interlock: their seam
/// window holds no gap and no collision pixel.
fn interlock_pieces() -> (Piece, Piece) {
    let mut left = square_piece(0, PieceSideType::Bump);
    let mut right = square_piece(1, PieceSideType::Hole);
    left.faces[1] = PieceFace {
        top: (4, 0),
        middle: (4, 1),
        bottom: (4, 3),
        mode: PieceSideType::Bump,
    };
    right.faces[3] = PieceFace {
        top: (0, 0),
        middle: (0, 1),
        bottom: (0, 3),
        mode: PieceSideType::Hole,
    };
    (left, right)
}

#[test]
fn exact_interlock_scores_zero_at_the_centre_offset() {
    let (left, right) = interlock_pieces();
    let score = calc_face_mask_dist_offset(&left, 1, &right, 3, (0, 0));
    assert_eq!(score, 0);
}

#[test]
fn best_offset_score_of_an_exact_interlock_is_zero() {
    let (left, right) = interlock_pieces();
    assert_eq!(calc_face_mask_dist(&left, 1, &right, 3), 0);
}

#[test]
fn matching_is_mutual_and_only_pairs_opposite_modes() {
    let (left, right) = interlock_pieces();
    let mut pieces = vec![left, right];
    let coarse = vec![
        FacePairCandidate { dist: 1, piece1: 0, face1: 1, piece2: 1, face2: 3 },
        FacePairCandidate { dist: 100, piece1: 0, face1: 0, piece2: 1, face2: 0 },
    ];
    compute_matching(&mut pieces, coarse);
    assert_eq!(
        pieces[0].matches[1],
        vec![PieceMatch { piece: 1, side: 3, distance: 0 }]
    );
    assert_eq!(
        pieces[1].matches[3],
        vec![PieceMatch { piece: 0, side: 1, distance: 0 }]
    );
    for p in 0..2 {
        for f in 0..4 {
            assert!(pieces[p].matches[f].len() <= 1);
            for m in pieces[p].matches[f].iter() {
                let own = pieces[p].faces[f].mode;
                let other = pieces[m.piece].faces[m.side].mode;
                assert_ne!(own, other);
            }
        }
    }
}

#[test]
fn candidate_pairs_lists_every_opposite_mode_combination() {
    let a = square_piece(0, PieceSideType::Bump);
    let b = square_piece(1, PieceSideType::Hole);
    let c = square_piece(2, PieceSideType::Bump);
    let pieces = vec![a, b, c];
    let pairs = candidate_pairs(&pieces);
    // piece 0 vs 1 and 1 vs 2 give 16 combinations each; 0 vs 2 gives none
    assert_eq!(pairs.len(), 32);
    assert!(pairs.contains(&(0, 0, 1, 0)));
    assert!(pairs.contains(&(0, 3, 1, 3)));
    assert!(pairs.contains(&(1, 2, 2, 2)));
    assert!(!pairs.iter().any(|t| t.0 == 0 && t.2 == 2));
}

#[test]
fn sort_and_cuts_order_and_filter_by_cost() {
    let mk = |d: u64| FacePairCandidate { dist: d, piece1: 0, face1: 0, piece2: 1, face2: 0 };
    let v = vec![mk(5), mk(1), mk(9), mk(3)];
    let s = sort_candidates(v);
    let dists: Vec<u64> = s.iter().map(|c| c.dist).collect();
    assert_eq!(dists, vec![1, 3, 5, 9]);
    let below = cut_below(&s, 5);
    assert_eq!(below.len(), 2);
    assert_eq!(below[1].dist, 3);
    let at_or_below = cut_at_or_below(&s, 5);
    assert_eq!(at_or_below.len(), 3);
    assert_eq!(at_or_below[2].dist, 5);
}

#[test]
fn quarter_turn_bookkeeping() {
    assert_eq!(cacl_rotate(0, 1), 1);
    assert_eq!(cacl_rotate(1, 1), 0);
    assert_eq!(cacl_rotate(3, 1), 2);
    assert_eq!(cacl_rotate(2, 3), 1);
}

#[test]
fn face_rotation_into_the_canonical_frame() {
    let face = PieceFace { top: (1, 0), middle: (2, 1), bottom: (3, 0), mode: PieceSideType::Bump };
    // top side of a 4 by 3 frame brought onto the right side: one quarter turn
    let r = rotate_face_center((4, 3), &face, 0, 1);
    assert_eq!(r.top, (3, 1));
    assert_eq!(r.middle, (2, 2));
    assert_eq!(r.bottom, (3, 3));
    assert_eq!(r.mode, PieceSideType::Bump);
}

#[test]
fn face_translation_moves_all_three_points() {
    let face = PieceFace { top: (1, 2), middle: (3, 4), bottom: (5, 6), mode: PieceSideType::Hole };
    let r = move_face(&face, -1, 10);
    assert_eq!(r.top, (0, 12));
    assert_eq!(r.middle, (2, 14));
    assert_eq!(r.bottom, (4, 16));
}

#[test]
fn right_canvas_position_saturates_at_zero() {
    let lf = PieceFace { top: (2, 2), middle: (0, 0), bottom: (0, 0), mode: PieceSideType::Bump };
    let rf = PieceFace { top: (9, 1), middle: (0, 0), bottom: (0, 0), mode: PieceSideType::Hole };
    let pos = calc_right_mask_pos(&lf, &rf, (3, 3), (0, 0));
    assert_eq!(pos, (0, 4));
}

#[test]
fn rect_shift_adds_the_position() {
    assert_eq!(move_rect((1, 2, 3, 4), (10, 20)), (11, 22, 13, 24));
}

#[test]
fn seam_window_spans_the_two_boxes_and_faces() {
    let lf = PieceFace { top: (4, 0), middle: (4, 1), bottom: (4, 3), mode: PieceSideType::Bump };
    let rf = PieceFace { top: (0, 0), middle: (0, 1), bottom: (0, 3), mode: PieceSideType::Hole };
    let rect = get_intersection((0, 0, 3, 3), &lf, (0, 2), (0, 0, 3, 3), &rf, (4, 2));
    assert_eq!(rect, (4, 2, 5, 6));
}

#[test]
fn overlap_count_flags_gaps_and_collisions() {
    // one background pixel, one double-material pixel, one single cover
    let m = Mask::from_vec(3, 1, vec![0, 254, 127]);
    assert_eq!(count_superp(&m, (0, 0, 3, 1)), 2);
    assert_eq!(count_superp(&m, (2, 0, 3, 1)), 0);
    assert_eq!(count_superp(&m, (1, 0, 1, 1)), 0);
}

#[test]
fn rotated_mask_faces_the_requested_side() {
    let m = Mask::from_vec(2, 1, vec![1, 2]);
    // bring the top side onto the right side: one quarter turn clockwise
    let r = get_rotated_mask(&m, 0, 1);
    assert_eq!(r.dimensions(), (1, 2));
    assert_eq!(r.get_pixel(0, 0), 1);
    assert_eq!(r.get_pixel(0, 1), 2);
    let half = get_rotated_mask(&m, 1, 3);
    assert_eq!(half.dimensions(), (2, 1));
    assert_eq!(half.get_pixel(0, 0), 2);
    assert_eq!(half.get_pixel(1, 0), 1);
}

#[test]
fn hiding_blanks_the_seam_side_background_runs() {
    // one column of background above and below a single material pixel
    let mut m = Mask::from_vec(2, 3, vec![0, 0, 127, 0, 0, 0]);
    let face = PieceFace { top: (1, 0), middle: (0, 0), bottom: (1, 0), mode: PieceSideType::Bump };
    hide_external_black_pixel(&mut m, &face);
    let ignore = puzzle_solver::MASK_IGNORE_SUPERP;
    assert_eq!(m.get_pixel(0, 0), ignore);
    assert_eq!(m.get_pixel(0, 1), 127);
    assert_eq!(m.get_pixel(0, 2), ignore);
    // the column at and right of the face bound keeps its pixels
    assert_eq!(m.get_pixel(1, 0), 0);
    assert_eq!(m.get_pixel(1, 1), 0);
    assert_eq!(m.get_pixel(1, 2), 0);
}

#[test]
fn refused_catalog_leaves_the_lists_empty() {
    let (left, right) = interlock_pieces();
    let mut pieces = vec![left, right];
    compute_matching(&mut pieces, Vec::new());
    for p in 0..2 {
        for f in 0..4 {
            assert!(pieces[p].matches[f].is_empty());
        }
    }
}

#[test]
fn pruning_keeps_the_earliest_of_equal_costs() {
    let mut pieces = vec![square_piece(0, PieceSideType::Bump)];
    pieces[0].matches[2].push(PieceMatch { piece: 0, side: 0, distance: 7 });
    pieces[0].matches[2].push(PieceMatch { piece: 0, side: 1, distance: 3 });
    pieces[0].matches[2].push(PieceMatch { piece: 0, side: 2, distance: 3 });
    prune_matches(&mut pieces);
    assert_eq!(
        pieces[0].matches[2],
        vec![PieceMatch { piece: 0, side: 1, distance: 3 }]
    );
    assert!(pieces[0].matches[0].is_empty());
}
