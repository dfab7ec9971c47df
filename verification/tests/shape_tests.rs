use polytile::shapes::{make_shape, rotations, shape_library, ID_BIGC, ID_LINE, ID_PLUS, ID_SMALLT};

#[test]
fn rotations_of_a_domino() {
    let r = rotations(vec![(0, 0, 'a'), (1, 0, 'b')]);
    assert_eq!(r.len(), 4);
    assert_eq!(r[0], vec![(0, 0, 'a'), (1, 0, 'b')]);
    assert_eq!(r[1], vec![(0, 0, 'a'), (-1, 0, 'b')]);
    assert_eq!(r[2], vec![(0, 0, 'a'), (0, -1, 'b')]);
    assert_eq!(r[3], vec![(0, 0, 'a'), (0, 1, 'b')]);
}

#[test]
fn rotations_of_empty_side() {
    let r = rotations(Vec::new());
    assert_eq!(r.len(), 4);
    assert!(r.iter().all(|p| p.is_empty()));
}

#[test]
fn asymmetric_one_sided_piece_has_four_variants() {
    let variants = make_shape(vec![(0, 0, 'a'), (1, 0, 'b')], Vec::new());
    assert_eq!(variants.len(), 4);
}

#[test]
fn fully_symmetric_single_cell_has_one_variant() {
    let variants = make_shape(vec![(0, 0, 'a')], Vec::new());
    assert_eq!(variants.len(), 1);
    assert_eq!(variants[0], vec![(0, 0, 'a')]);
}

#[test]
fn duplicate_sides_add_no_variants() {
    let one = make_shape(vec![(0, 0, 'a'), (1, 0, 'b')], Vec::new());
    let two = make_shape(vec![(0, 0, 'a'), (1, 0, 'b')], vec![(0, 0, 'a'), (1, 0, 'b')]);
    assert_eq!(one, two);
}

#[test]
fn empty_sides_produce_no_variants() {
    let variants = make_shape(Vec::new(), Vec::new());
    assert!(variants.is_empty());
}

#[test]
fn library_has_thirteen_pieces_with_sensible_variant_counts() {
    let lib = shape_library();
    assert_eq!(lib.shapes.len(), 13);
    for piece in &lib.shapes {
        assert!(!piece.is_empty());
        assert!(piece.len() <= 8);
        for variant in piece {
            assert!(variant.len() == 4 || variant.len() == 5);
            assert!(variant.iter().any(|c| c.0 == 0 && c.1 == 0));
        }
    }
}

#[test]
fn library_variant_counts_follow_the_dedup_rule() {
    let lib = shape_library();
    // one raw side, no structural rotational symmetry
    assert_eq!(lib.shapes[ID_BIGC as usize].len(), 4);
    assert_eq!(lib.shapes[ID_LINE as usize].len(), 4);
    // two raw sides, all eight rotations structurally distinct
    assert_eq!(lib.shapes[ID_PLUS as usize].len(), 8);
    // the one four-cell piece
    assert!(lib.shapes[ID_SMALLT as usize].iter().all(|v| v.len() == 4));
}

#[test]
fn piece_cell_totals_cover_the_grid() {
    let lib = shape_library();
    let total: usize = lib.shapes.iter().map(|p| p[0].len()).sum();
    assert_eq!(total, 64);
}
