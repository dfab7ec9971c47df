//! The constant target pattern: the known-correct final tiling's symbol
//! assignment, one symbol per cell, constructed once and shared read-only
//! by every worker.

use vstd::prelude::*;
use crate::board::{Board, fully_occupied};

verus! {

/// Append eight occupied cells to the flat grid under construction.
fn push_row(
    g: &mut Vec<Option<char>>,
    c0: char,
    c1: char,
    c2: char,
    c3: char,
    c4: char,
    c5: char,
    c6: char,
    c7: char,
)
    ensures
        final(g)@ == old(g)@ + seq![
            Some(c0),
            Some(c1),
            Some(c2),
            Some(c3),
            Some(c4),
            Some(c5),
            Some(c6),
            Some(c7),
        ],
{
    g.push(Some(c0));
    g.push(Some(c1));
    g.push(Some(c2));
    g.push(Some(c3));
    g.push(Some(c4));
    g.push(Some(c5));
    g.push(Some(c6));
    g.push(Some(c7));
    assert(g@ =~= old(g)@ + seq![
        Some(c0),
        Some(c1),
        Some(c2),
        Some(c3),
        Some(c4),
        Some(c5),
        Some(c6),
        Some(c7),
    ]);
}

/// The fixed target board: all 64 cells pre-filled with the symbols the
/// finished tiling must reproduce exactly. It carries no remaining pieces
/// and no placement records.
pub fn target_board() -> (r: Board)
    ensures
        r.wf(),
        fully_occupied(r.grid()),
        r.remaining().len() == 0,
        r.placed().len() == 0,
{
    let mut g: Vec<Option<char>> = Vec::new();
    push_row(&mut g, 'x', '.', 'D', '.', 'x', '.', 'x', '.');
    push_row(&mut g, '.', 'S', '.', 'x', '.', 'x', '.', 'x');
    push_row(&mut g, 'R', '.', 'x', '.', 'x', '.', 'x', '.');
    push_row(&mut g, '.', 'x', '.', 'x', '.', 'x', '.', 'x');
    push_row(&mut g, 'x', '.', 'x', '.', 'x', '.', 'x', '.');
    push_row(&mut g, '.', 'x', '.', 'x', '.', 'x', '.', 'x');
    push_row(&mut g, 'x', '.', 'x', '.', 'x', '.', 'x', '.');
    push_row(&mut g, '.', 'x', '.', 'x', '.', 'x', '.', 'x');
    assert(g@.len() == 64);
    assert(forall|i: int| 0 <= i < 64 ==> g@[i] is Some);
    let r = Board { board: g, pieces_left: Vec::new(), pieces: Vec::new() };
    assert(fully_occupied(r.grid()));
    r
}

} // verus!

