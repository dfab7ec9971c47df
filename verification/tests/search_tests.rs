use polytile::board::Board;
use polytile::search::{solve, SearchOutcome};
use polytile::shapes::shape_library;
use polytile::target::target_board;

#[test]
fn target_is_fully_occupied_and_matches_itself() {
    let target = target_board();
    assert_eq!(target.board.len(), 64);
    assert!(target.board.iter().all(|c| c.is_some()));
    assert!(target.check_solution(&target));
    assert!(Board::new().check_solution(&target));
}

#[test]
fn first_empty_column_scan() {
    let b = Board::new();
    assert_eq!(b.first_empty_in_column(0), Some(0));
    let mut c = Board::new();
    for y in 0..8 {
        c.mark(3, y, 'x');
    }
    assert_eq!(c.first_empty_in_column(3), None);
    let mut d = Board::new();
    d.mark(5, 0, 'x');
    d.mark(5, 1, 'x');
    assert_eq!(d.first_empty_in_column(5), Some(2));
}

#[test]
fn expansion_of_the_empty_board() {
    let lib = shape_library();
    let target = target_board();
    let root = Board::new();
    let children = root.expand(&lib, &target);
    assert!(!children.is_empty());
    for child in &children {
        assert_eq!(child.pieces_left.len(), 12);
        assert_eq!(child.pieces.len(), 1);
        let occupied = child.board.iter().filter(|c| c.is_some()).count();
        assert!(occupied == 4 || occupied == 5);
        assert!(child.check_solution(&target));
        assert!(child.duplicate().has_pockets() == false);
    }
}

#[test]
fn expansion_removes_the_placed_piece() {
    let lib = shape_library();
    let target = target_board();
    let root = Board::new();
    let children = root.expand(&lib, &target);
    for child in &children {
        let (id, variant, x, y) = child.pieces[0];
        assert!(!child.pieces_left.contains(&id));
        assert!((variant as usize) < lib.shapes[id as usize].len());
        assert!(x < 8 && y < 8);
    }
}

#[test]
fn solve_with_no_budget_runs_out() {
    let lib = shape_library();
    let target = target_board();
    assert!(matches!(solve(&lib, &target, 0), SearchOutcome::OutOfBudget));
}

#[test]
fn solve_within_a_small_budget_runs_out() {
    let lib = shape_library();
    let target = target_board();
    assert!(matches!(solve(&lib, &target, 40), SearchOutcome::OutOfBudget));
}

#[test]
fn repeated_expansion_goes_deeper_and_keeps_matching() {
    let lib = shape_library();
    let target = target_board();
    let mut state = Board::new();
    for depth in 1..=5 {
        let mut children = state.expand(&lib, &target);
        assert!(!children.is_empty());
        let next = children.pop().unwrap();
        assert_eq!(next.pieces_left.len(), 13 - depth);
        assert_eq!(next.pieces.len(), depth);
        assert!(next.check_solution(&target));
        state = next;
    }
}
