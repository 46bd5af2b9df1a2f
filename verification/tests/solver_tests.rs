use puzzle_solver::mask::Mask;
use puzzle_solver::piece::{Piece, PieceMatch, PieceVec};
use puzzle_solver::solver::{
    build_solution, calc_rotation, check_if_same_soluce, extract_candidates,
    search_next_step_recurse, Soluce, SoluceElmt, SoluceProposal, SolverError,
};

fn blank_piece(id: u32) -> Piece {
    Piece::new(id, (0, 0, 10, 10), Mask::new(16, 16))
}

fn nine_linked_pieces() -> PieceVec {
    let mut all: PieceVec = Vec::new();
    for i in 0..9 {
        all.push(blank_piece(i));
    }
    all[5].matches[0].push(PieceMatch { piece: 7, side: 3, distance: 0 });
    all[7].matches[0].push(PieceMatch { piece: 3, side: 2, distance: 0 });
    all[4].matches[1].push(PieceMatch { piece: 8, side: 0, distance: 0 });
    all[8].matches[1].push(PieceMatch { piece: 6, side: 3, distance: 0 });
    all[7].matches[1].push(PieceMatch { piece: 4, side: 2, distance: 0 });
    all[3].matches[1].push(PieceMatch { piece: 2, side: 2, distance: 0 });
    all[4].matches[3].push(PieceMatch { piece: 2, side: 1, distance: 0 });
    all[2].matches[3].push(PieceMatch { piece: 0, side: 2, distance: 0 });
    all[2].matches[0].push(PieceMatch { piece: 1, side: 2, distance: 0 });
    all[7].matches[3].push(PieceMatch { piece: 5, side: 0, distance: 0 });
    all[3].matches[2].push(PieceMatch { piece: 7, side: 0, distance: 0 });
    all[8].matches[0].push(PieceMatch { piece: 4, side: 1, distance: 0 });
    all[6].matches[3].push(PieceMatch { piece: 8, side: 1, distance: 0 });
    all[4].matches[2].push(PieceMatch { piece: 7, side: 1, distance: 0 });
    all[2].matches[2].push(PieceMatch { piece: 3, side: 1, distance: 0 });
    all[2].matches[1].push(PieceMatch { piece: 4, side: 3, distance: 0 });
    all[0].matches[2].push(PieceMatch { piece: 2, side: 3, distance: 0 });
    all[1].matches[2].push(PieceMatch { piece: 2, side: 0, distance: 0 });
    all
}

#[test]
fn builder_solve_exact() {
    let all = nine_linked_pieces();
    let sol = build_solution(&all).unwrap();
    assert_eq!(sol.get(9, 9), SoluceElmt { piece_id: Some(0), rotation: 0 });
    assert_eq!(sol.get(10, 10), SoluceElmt { piece_id: Some(1), rotation: 1 });
    assert_eq!(sol.get(9, 10), SoluceElmt { piece_id: Some(2), rotation: 1 });
    assert_eq!(sol.get(8, 10), SoluceElmt { piece_id: Some(3), rotation: 0 });
    assert_eq!(sol.get(9, 11), SoluceElmt { piece_id: Some(4), rotation: 1 });
    assert_eq!(sol.get(7, 11), SoluceElmt { piece_id: Some(5), rotation: 1 });
    assert_eq!(sol.get(10, 12), SoluceElmt { piece_id: Some(6), rotation: 0 });
    assert_eq!(sol.get(8, 11), SoluceElmt { piece_id: Some(7), rotation: 0 });
    assert_eq!(sol.get(9, 12), SoluceElmt { piece_id: Some(8), rotation: 0 });
}

#[test]
fn no_candidates_keeps_only_the_seed() {
    let mut all: PieceVec = Vec::new();
    for i in 0..4 {
        all.push(blank_piece(i));
    }
    let sol = build_solution(&all).unwrap();
    let (w, h) = sol.dims();
    assert_eq!((w, h), (8, 8));
    let mut placed = 0;
    for y in 0..h {
        for x in 0..w {
            if sol.get(x, y).piece_id.is_some() {
                placed += 1;
            }
        }
    }
    assert_eq!(placed, 1);
    assert_eq!(sol.get(4, 4), SoluceElmt { piece_id: Some(0), rotation: 0 });
}

#[test]
fn repeated_runs_return_the_same_grid() {
    let all = nine_linked_pieces();
    let sol1 = build_solution(&all).unwrap();
    let sol2 = build_solution(&all).unwrap();
    let (w, h) = sol1.dims();
    assert_eq!(sol2.dims(), (w, h));
    let mut count1 = 0;
    let mut count2 = 0;
    for y in 0..h {
        for x in 0..w {
            assert_eq!(sol1.get(x, y), sol2.get(x, y));
            if sol1.get(x, y).piece_id.is_some() {
                count1 += 1;
            }
            if sol2.get(x, y).piece_id.is_some() {
                count2 += 1;
            }
        }
    }
    assert_eq!(count1, count2);
    assert_eq!(count1, 9);
}

#[test]
fn permissive_catalog_overflows_the_solution_cap() {
    let mut all: PieceVec = Vec::new();
    for i in 0..5 {
        all.push(blank_piece(i));
    }
    // every edge of every piece names every edge of every other piece
    for p in 0..5usize {
        for f in 0..4usize {
            for q in 0..5usize {
                if p != q {
                    for g in 0..4usize {
                        all[p].matches[f].push(PieceMatch { piece: q, side: g, distance: 0 });
                    }
                }
            }
        }
    }
    let res = build_solution(&all);
    assert_eq!(res.err(), Some(SolverError::TooManySolutions));
}

#[test]
fn grid_cells_read_back_what_was_set() {
    let mut s = Soluce::new(3, 2);
    assert_eq!(s.dims(), (3, 2));
    for y in 0..2 {
        for x in 0..3 {
            assert_eq!(s.get(x, y), SoluceElmt { piece_id: None, rotation: 0 });
        }
    }
    s.set(2, 1, SoluceElmt { piece_id: Some(7), rotation: 3 });
    assert_eq!(s.get(2, 1), SoluceElmt { piece_id: Some(7), rotation: 3 });
    assert_eq!(s.get(0, 0), SoluceElmt { piece_id: None, rotation: 0 });
    let t = s.duplicate();
    assert_eq!(t.get(2, 1), SoluceElmt { piece_id: Some(7), rotation: 3 });
    s.set(2, 1, SoluceElmt { piece_id: None, rotation: 0 });
    assert_eq!(t.get(2, 1), SoluceElmt { piece_id: Some(7), rotation: 3 });
    assert_eq!(s.get(2, 1), SoluceElmt { piece_id: None, rotation: 0 });
}

#[test]
fn same_solution_detected_after_alignment() {
    let mut a = Soluce::new(4, 4);
    let mut b = Soluce::new(4, 4);
    a.set(1, 1, SoluceElmt { piece_id: Some(0), rotation: 0 });
    a.set(2, 1, SoluceElmt { piece_id: Some(1), rotation: 2 });
    b.set(0, 0, SoluceElmt { piece_id: Some(0), rotation: 0 });
    b.set(1, 0, SoluceElmt { piece_id: Some(1), rotation: 2 });
    assert!(check_if_same_soluce(&a, &b));
    b.set(1, 0, SoluceElmt { piece_id: Some(1), rotation: 1 });
    assert!(!check_if_same_soluce(&a, &b));
}

#[test]
fn placement_rotation_round_trips_between_frames() {
    // the neighbour to the left wants the new piece's side to face left
    for curside in 0..4usize {
        let rot = calc_rotation((5, 5), (4, 5), curside);
        assert!(rot < 4);
        // board side = (canonical side + rotation) mod 4 must be LEFT
        assert_eq!((curside + rot) % 4, puzzle_solver::piece::LEFT);
        // and converting that board side back recovers the canonical side
        assert_eq!((puzzle_solver::piece::LEFT + 4 - rot) % 4, curside);
    }
    // the neighbour below wants the new piece's side to face down
    let rot = calc_rotation((5, 5), (5, 6), 1);
    assert_eq!((1 + rot) % 4, puzzle_solver::piece::BOTTOM);
}

#[test]
fn neighbour_candidate_accounts_for_the_neighbour_rotation() {
    let mut s = Soluce::new(4, 4);
    s.set(1, 1, SoluceElmt { piece_id: Some(6), rotation: 1 });
    // the neighbour sits left of the empty cell, so its right side faces
    // it; one quarter turn maps that to its canonical top side
    let (pid, side) = extract_candidates(&s, (2, 1), (1, 1));
    assert_eq!(pid, 6);
    assert_eq!(side, (puzzle_solver::piece::RIGHT + 4 - 1) % 4);
}

#[test]
fn retained_solution_count_never_decreases() {
    let pieces = vec![blank_piece(0), blank_piece(1)];
    let mut current = Soluce::new(4, 4);
    current.set(2, 2, SoluceElmt { piece_id: Some(0), rotation: 0 });
    let mut usage = vec![true, false];
    let mut proposal = SoluceProposal { list: Vec::new(), nb: 0 };

    search_next_step_recurse(&pieces, &mut current, &mut usage, &mut proposal).unwrap();
    assert_eq!(proposal.nb, 1);
    assert_eq!(proposal.list.len(), 1);

    // a second pass over the same state finds the same dead end again:
    // the count stays put and the duplicate is not retained
    search_next_step_recurse(&pieces, &mut current, &mut usage, &mut proposal).unwrap();
    assert_eq!(proposal.nb, 1);
    assert_eq!(proposal.list.len(), 1);

    // the search restored its working state
    assert_eq!(current.get(2, 2), SoluceElmt { piece_id: Some(0), rotation: 0 });
    assert_eq!(usage, vec![true, false]);
}

#[test]
fn solution_bounding_box_covers_the_placed_cells() {
    let all = nine_linked_pieces();
    let sol = build_solution(&all).unwrap();
    assert_eq!(puzzle_solver::size::get_soluce_size(&sol), (7, 9, 4, 4));
}
