use polytile::board::Board;

fn full_board_except(free: &[(usize, usize)]) -> Board {
    let mut b = Board::new();
    for x in 0..8 {
        for y in 0..8 {
            if !free.contains(&(x, y)) {
                b.mark(x as i8, y as i8, 'x');
            }
        }
    }
    b
}

#[test]
fn new_board_is_empty() {
    let b = Board::new();
    assert_eq!(b.board.len(), 64);
    assert!(b.board.iter().all(|c| c.is_none()));
    assert_eq!(b.pieces_left, (0..13).collect::<Vec<u8>>());
    assert!(b.pieces.is_empty());
}

#[test]
fn try_mark_bounds_and_occupancy() {
    let mut b = Board::new();
    assert!(!b.try_mark(-1, 0));
    assert!(!b.try_mark(8, 0));
    assert!(!b.try_mark(0, -1));
    assert!(!b.try_mark(0, 8));
    assert!(b.try_mark(0, 0));
    assert!(b.try_mark(7, 7));
    b.mark(3, 4, 'a');
    assert!(!b.try_mark(3, 4));
    assert!(b.try_mark(4, 3));
}

#[test]
fn try_mark_is_idempotent() {
    let b = Board::new();
    let before = b.duplicate();
    let first = b.try_mark(2, 2);
    let second = b.try_mark(2, 2);
    assert_eq!(first, second);
    assert_eq!(b.board, before.board);
    assert_eq!(b.pieces_left, before.pieces_left);
    assert_eq!(b.pieces, before.pieces);
}

#[test]
fn mark_sets_exactly_one_cell() {
    let mut b = Board::new();
    b.mark(1, 2, 'z');
    for i in 0..64 {
        if i == 1 * 8 + 2 {
            assert_eq!(b.board[i], Some('z'));
        } else {
            assert_eq!(b.board[i], None);
        }
    }
}

#[test]
fn place_piece_marks_all_cells() {
    let mut b = Board::new();
    let piece = vec![(0, 0, 'a'), (1, 0, 'b'), (0, 1, 'c')];
    assert!(b.place_piece(0, 0, &piece));
    assert_eq!(b.board[0], Some('a'));
    assert_eq!(b.board[8], Some('b'));
    assert_eq!(b.board[1], Some('c'));
    assert_eq!(b.board.iter().filter(|c| c.is_some()).count(), 3);
}

#[test]
fn place_piece_false_on_occupied_is_atomic() {
    let mut b = Board::new();
    b.mark(1, 0, 'q');
    let before = b.duplicate();
    let piece = vec![(0, 0, 'a'), (1, 0, 'b')];
    assert!(!b.place_piece(0, 0, &piece));
    assert_eq!(b.board, before.board);
    assert_eq!(b.pieces_left, before.pieces_left);
    assert_eq!(b.pieces, before.pieces);
}

#[test]
fn place_piece_false_off_grid_is_atomic() {
    let mut b = Board::new();
    let before = b.duplicate();
    let piece = vec![(0, 0, 'a'), (1, 0, 'b')];
    assert!(!b.place_piece(7, 7, &piece));
    assert_eq!(b.board, before.board);
}

#[test]
fn check_solution_ignores_empty_cells() {
    let mut target = Board::new();
    for x in 0..8 {
        for y in 0..8 {
            target.mark(x, y, if (x + y) % 2 == 0 { 'x' } else { '.' });
        }
    }
    let mut b = Board::new();
    assert!(b.check_solution(&target));
    b.mark(0, 0, 'x');
    assert!(b.check_solution(&target));
    b.mark(0, 1, 'x');
    assert!(!b.check_solution(&target));
}

#[test]
fn broken_match_stays_broken_after_more_placements() {
    let mut target = Board::new();
    for x in 0..8 {
        for y in 0..8 {
            target.mark(x, y, 'x');
        }
    }
    let mut b = Board::new();
    b.mark(4, 4, 'w');
    assert!(!b.check_solution(&target));
    assert!(b.place_piece(0, 0, &vec![(0, 0, 'x'), (1, 0, 'x')]));
    assert!(!b.check_solution(&target));
}

#[test]
fn single_isolated_cell_is_a_pocket() {
    let mut b = full_board_except(&[(4, 4)]);
    assert!(b.has_pockets());
    let mut corner = full_board_except(&[(0, 0)]);
    assert!(corner.has_pockets());
}

#[test]
fn two_cell_pocket_is_reported() {
    let mut b = full_board_except(&[(0, 0), (0, 1)]);
    assert!(b.has_pockets());
}

#[test]
fn three_cell_bent_pocket_is_reported() {
    let mut b = full_board_except(&[(0, 0), (0, 1), (1, 0)]);
    assert!(b.has_pockets());
}

#[test]
fn square_four_cell_hole_is_no_pocket() {
    let mut b = full_board_except(&[(0, 0), (0, 1), (1, 0), (1, 1)]);
    assert!(!b.has_pockets());
}

#[test]
fn empty_board_has_no_pockets() {
    let mut b = Board::new();
    assert!(!b.has_pockets());
}

#[test]
fn pockets_leave_board_unchanged() {
    let mut b = full_board_except(&[(4, 4)]);
    let before = b.duplicate();
    let _ = b.has_pockets();
    assert_eq!(b.board, before.board);
    assert_eq!(b.pieces_left, before.pieces_left);
    assert_eq!(b.pieces, before.pieces);
}
