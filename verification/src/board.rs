//! The 8x8 board: placement, validity testing, partial-match testing
//! against the target pattern, and local pocket detection.

use vstd::prelude::*;
use crate::shapes::Piece;

verus! {

/// Index of cell `(x, y)` in the flat grid, column-major: `x * 8 + y`.
pub open spec fn grid_index(x: int, y: int) -> int {
    x * 8 + y
}

/// Whether `(x, y)` lies on the 8x8 grid.
pub open spec fn on_grid(x: int, y: int) -> bool {
    0 <= x < 8 && 0 <= y < 8
}

/// Whether `(x, y)` is a grid cell that is currently unoccupied.
pub open spec fn cell_free(g: Seq<Option<char>>, x: int, y: int) -> bool {
    on_grid(x, y) && g[grid_index(x, y)] is None
}

/// No two entries of the pattern name the same cell offset.
pub open spec fn distinct_offsets(p: Seq<(i8, i8, char)>) -> bool {
    forall|i: int, j: int|
        0 <= i < j < p.len() ==> (p[i].0 != p[j].0 || p[i].1 != p[j].1)
}

/// Every absolute coordinate `anchor + offset` stays within the range of
/// `i8`, so that computing it cannot overflow.
pub open spec fn offsets_fit(ax: int, ay: int, p: Seq<(i8, i8, char)>) -> bool {
    forall|i: int|
        0 <= i < p.len() ==> {
            &&& i8::MIN <= ax + #[trigger] p[i].0 as int <= i8::MAX
            &&& i8::MIN <= ay + p[i].1 as int <= i8::MAX
        }
}

/// Every cell of the pattern, anchored at `(ax, ay)`, lies on the grid and
/// is unoccupied in `g`.
pub open spec fn fits(g: Seq<Option<char>>, ax: int, ay: int, p: Seq<(i8, i8, char)>) -> bool {
    forall|i: int| 0 <= i < p.len() ==> cell_free(g, ax + p[i].0 as int, ay + p[i].1 as int)
}

/// The grid `g` with the pattern `p`, anchored at `(ax, ay)`, written onto
/// it: each entry's cell set to its symbol, in pattern order.
pub open spec fn placed_grid(
    g: Seq<Option<char>>,
    ax: int,
    ay: int,
    p: Seq<(i8, i8, char)>,
) -> Seq<Option<char>>
    decreases p.len(),
{
    if p.len() == 0 {
        g
    } else {
        placed_grid(g, ax, ay, p.drop_last()).update(
            grid_index(ax + p.last().0 as int, ay + p.last().1 as int),
            Some(p.last().2),
        )
    }
}

/// Two distinct on-grid cells have distinct flat indices.
pub proof fn lemma_grid_index_injective(x1: int, y1: int, x2: int, y2: int)
    requires
        on_grid(x1, y1),
        on_grid(x2, y2),
        grid_index(x1, y1) == grid_index(x2, y2),
    ensures
        x1 == x2 && y1 == y2,
{
}

/// Writing a pattern onto a grid leaves the cells the pattern does not
/// name unchanged, and keeps the grid's length.
pub proof fn lemma_placed_grid_frame(
    g: Seq<Option<char>>,
    ax: int,
    ay: int,
    p: Seq<(i8, i8, char)>,
)
    requires
        g.len() == 64,
        fits(g, ax, ay, p),
    ensures
        placed_grid(g, ax, ay, p).len() == 64,
        forall|x: int, y: int|
            on_grid(x, y) && (forall|i: int|
                0 <= i < p.len() ==> !(ax + p[i].0 as int == x && ay + p[i].1 as int == y))
                ==> placed_grid(g, ax, ay, p)[grid_index(x, y)] == g[grid_index(x, y)],
    decreases p.len(),
{
    if p.len() > 0 {
        assert(fits(g, ax, ay, p.drop_last())) by {
            assert(forall|i: int|
                0 <= i < p.drop_last().len() ==> p.drop_last()[i] == p[i]);
        }
        lemma_placed_grid_frame(g, ax, ay, p.drop_last());
        assert forall|x: int, y: int|
            on_grid(x, y) && (forall|i: int|
                0 <= i < p.len() ==> !(ax + p[i].0 as int == x && ay + p[i].1 as int == y))
            implies placed_grid(g, ax, ay, p)[grid_index(x, y)] == g[grid_index(x, y)] by {
            let lx = ax + p.last().0 as int;
            let ly = ay + p.last().1 as int;
            assert(p[p.len() - 1] == p.last());
            assert(!(lx == x && ly == y));
            assert(on_grid(lx, ly));
            if grid_index(lx, ly) == grid_index(x, y) {
                lemma_grid_index_injective(lx, ly, x, y);
            }
            assert(forall|i: int|
                0 <= i < p.drop_last().len() ==> p.drop_last()[i] == p[i]);
        }
    }
}

/// Partial match: every occupied cell of `g` carries the same symbol as
/// the corresponding cell of `t`; unoccupied cells are unconstrained.
pub open spec fn agrees(g: Seq<Option<char>>, t: Seq<Option<char>>) -> bool {
    forall|x: int, y: int|
        on_grid(x, y) && #[trigger] g[grid_index(x, y)] is Some ==> g[grid_index(x, y)]
            == t[grid_index(x, y)]
}

/// Every cell of the grid is occupied.
pub open spec fn fully_occupied(g: Seq<Option<char>>) -> bool {
    forall|x: int, y: int| on_grid(x, y) ==> #[trigger] g[grid_index(x, y)] is Some
}

/// The partial-match test never un-breaks by adding placements: a grid
/// extended by further placements (`g2` keeps every symbol `g1` already
/// carries) can only match the target if the grid it grew from matched.
/// Equivalently, a board that fails the match cannot be repaired by
/// placing more pieces.
pub proof fn lemma_agrees_monotone(g1: Seq<Option<char>>, g2: Seq<Option<char>>, t: Seq<Option<char>>)
    requires
        agrees(g1, g2),
        agrees(g2, t),
    ensures
        agrees(g1, t),
{
}

/// Placing a piece only fills cells that were free, so the grown grid
/// keeps every symbol the original grid already carried. Together with
/// `lemma_agrees_monotone` this gives the other face of the same law: a
/// board that fails the match cannot be repaired by placing more pieces.
pub proof fn lemma_place_extends(g: Seq<Option<char>>, ax: int, ay: int, p: Seq<(i8, i8, char)>)
    requires
        g.len() == 64,
        fits(g, ax, ay, p),
    ensures
        agrees(g, placed_grid(g, ax, ay, p)),
{
    lemma_placed_grid_frame(g, ax, ay, p);
    assert forall|x: int, y: int|
        on_grid(x, y) && #[trigger] g[grid_index(x, y)] is Some implies g[grid_index(x, y)]
        == placed_grid(g, ax, ay, p)[grid_index(x, y)] by {
        assert forall|i: int|
            0 <= i < p.len() implies !(ax + p[i].0 as int == x && ay + p[i].1 as int == y) by {
            if ax + p[i].0 as int == x && ay + p[i].1 as int == y {
                assert(cell_free(g, x, y));
            }
        }
    }
}

/// Any two fully occupied grids that both match the target are equal to
/// the target, and hence to each other: every complete solution the
/// search can report carries the same board, however many workers raced
/// to find it and whatever order its placements were taken in.
pub proof fn lemma_complete_solutions_agree(
    g1: Seq<Option<char>>,
    g2: Seq<Option<char>>,
    t: Seq<Option<char>>,
)
    requires
        g1.len() == 64,
        g2.len() == 64,
        t.len() == 64,
        fully_occupied(g1),
        fully_occupied(g2),
        agrees(g1, t),
        agrees(g2, t),
    ensures
        g1 == t,
        g2 == t,
        g1 == g2,
{
    assert forall|i: int| 0 <= i < 64 implies g1[i] == t[i] && g2[i] == t[i] by {
        let x = i / 8;
        let y = i % 8;
        assert(on_grid(x, y));
        assert(grid_index(x, y) == i);
        assert(g1[grid_index(x, y)] is Some);
        assert(g2[grid_index(x, y)] is Some);
    }
    assert(g1 =~= t);
    assert(g2 =~= t);
}

/// The empty 4-neighbours of cell `(x, y)`: the adjacent cells (left,
/// right, up, down, clipped at the board edge) that are unoccupied, in
/// that order. An occupied cell has no entries at all.
pub open spec fn none_neighbors(g: Seq<Option<char>>, x: int, y: int) -> Seq<(usize, usize)> {
    if g[grid_index(x, y)] is Some {
        Seq::empty()
    } else {
        (if x > 0 && g[grid_index(x - 1, y)] is None {
            seq![(((x - 1) as usize), (y as usize))]
        } else {
            Seq::empty()
        }) + (if x < 7 && g[grid_index(x + 1, y)] is None {
            seq![(((x + 1) as usize), (y as usize))]
        } else {
            Seq::empty()
        }) + (if y > 0 && g[grid_index(x, y - 1)] is None {
            seq![((x as usize), ((y - 1) as usize))]
        } else {
            Seq::empty()
        }) + (if y < 7 && g[grid_index(x, y + 1)] is None {
            seq![((x as usize), ((y + 1) as usize))]
        } else {
            Seq::empty()
        })
    }
}

/// Every entry of the neighbour list is itself an unoccupied on-grid cell
/// sharing an edge with `(x, y)`.
pub proof fn lemma_neighbors_free(g: Seq<Option<char>>, x: int, y: int)
    requires
        on_grid(x, y),
    ensures
        forall|k: int|
            0 <= k < none_neighbors(g, x, y).len() ==> {
                let c = #[trigger] none_neighbors(g, x, y)[k];
                cell_free(g, c.0 as int, c.1 as int) && cells_adjacent(
                    (c.0 as int, c.1 as int),
                    (x, y),
                )
            },
{
}

/// A pocket at `(x, y)`: an unoccupied cell whose local neighbourhood
/// shows an isolated region of one, two or three empty cells — too small
/// for any piece, every piece occupying at least four cells.
pub open spec fn pocket_at(g: Seq<Option<char>>, x: int, y: int) -> bool {
    &&& on_grid(x, y)
    &&& g[grid_index(x, y)] is None
    &&& {
        let nn = none_neighbors(g, x, y);
        ||| nn.len() == 0
        ||| (nn.len() == 1 && none_neighbors(g, nn[0].0 as int, nn[0].1 as int).len() == 1)
        ||| (nn.len() == 2 && none_neighbors(g, nn[0].0 as int, nn[0].1 as int).len() == 1
            && none_neighbors(g, nn[1].0 as int, nn[1].1 as int).len() == 1)
    }
}

/// Whether any cell of the grid sits in a pocket.
pub open spec fn has_pocket(g: Seq<Option<char>>) -> bool {
    exists|x: int, y: int| pocket_at(g, x, y)
}

/// A single empty cell whose four sides are all walls or occupied cells is
/// a pocket: the detector is obliged to report such a board.
pub proof fn lemma_isolated_cell_is_pocket(g: Seq<Option<char>>, x: int, y: int)
    requires
        g.len() == 64,
        on_grid(x, y),
        g[grid_index(x, y)] is None,
        x > 0 ==> g[grid_index(x - 1, y)] is Some,
        x < 7 ==> g[grid_index(x + 1, y)] is Some,
        y > 0 ==> g[grid_index(x, y - 1)] is Some,
        y < 7 ==> g[grid_index(x, y + 1)] is Some,
    ensures
        has_pocket(g),
{
    assert(none_neighbors(g, x, y).len() == 0);
    assert(pocket_at(g, x, y));
}

/// Whether two cells share an edge of the grid.
pub open spec fn cells_adjacent(a: (int, int), b: (int, int)) -> bool {
    ||| (a.0 == b.0 && (a.1 == b.1 + 1 || a.1 + 1 == b.1))
    ||| (a.1 == b.1 && (a.0 == b.0 + 1 || a.0 + 1 == b.0))
}

/// An isolated group of empty cells: every listed cell is an unoccupied
/// grid cell, and every empty cell adjacent to a listed cell is itself
/// listed — nothing empty leads out of the group.
pub open spec fn isolated_cells(g: Seq<Option<char>>, cs: Seq<(int, int)>) -> bool {
    &&& forall|i: int| 0 <= i < cs.len() ==> cell_free(g, #[trigger] cs[i].0, cs[i].1)
    &&& forall|i: int, x: int, y: int|
        0 <= i < cs.len() && #[trigger] cells_adjacent(cs[i], (x, y)) && cell_free(g, x, y)
            ==> cs.contains((x, y))
}

/// The neighbour list is complete: every unoccupied cell sharing an edge
/// with `(x, y)` appears in it (converse of `lemma_neighbors_free`).
pub proof fn lemma_neighbors_complete(g: Seq<Option<char>>, x: int, y: int)
    requires
        on_grid(x, y),
        g[grid_index(x, y)] is None,
    ensures
        forall|a: int, b: int|
            cells_adjacent((x, y), (a, b)) && cell_free(g, a, b) ==> none_neighbors(
                g,
                x,
                y,
            ).contains(((a as usize), (b as usize))),
{
    assert forall|a: int, b: int|
        cells_adjacent((x, y), (a, b)) && cell_free(g, a, b) implies none_neighbors(
        g,
        x,
        y,
    ).contains(((a as usize), (b as usize))) by {
        let nn = none_neighbors(g, x, y);
        let le = (if x > 0 && g[grid_index(x - 1, y)] is None {
            seq![(((x - 1) as usize), (y as usize))]
        } else {
            Seq::<(usize, usize)>::empty()
        });
        let ri = (if x < 7 && g[grid_index(x + 1, y)] is None {
            seq![(((x + 1) as usize), (y as usize))]
        } else {
            Seq::<(usize, usize)>::empty()
        });
        let up = (if y > 0 && g[grid_index(x, y - 1)] is None {
            seq![((x as usize), ((y - 1) as usize))]
        } else {
            Seq::<(usize, usize)>::empty()
        });
        let dn = (if y < 7 && g[grid_index(x, y + 1)] is None {
            seq![((x as usize), ((y + 1) as usize))]
        } else {
            Seq::<(usize, usize)>::empty()
        });
        assert(nn == le + ri + up + dn);
        if a == x - 1 && b == y {
            assert(nn[0] == ((a as usize), (b as usize)));
        } else if a == x + 1 && b == y {
            assert(nn[le.len() as int] == ((a as usize), (b as usize)));
        } else if a == x && b == y - 1 {
            assert(nn[le.len() as int + ri.len() as int] == ((a as usize), (b as usize)));
        } else {
            assert(a == x && b == y + 1);
            assert(nn[le.len() as int + ri.len() as int + up.len() as int] == ((a as usize), (b as usize)));
        }
    }
}

/// What a reported pocket means on the board: the flagged cell belongs to
/// an isolated group of at most three empty cells — too small for any
/// piece, every piece occupying at least four cells.
#[verifier::rlimit(60)]
pub proof fn lemma_pocket_is_small_region(g: Seq<Option<char>>, x: int, y: int)
    requires
        g.len() == 64,
        pocket_at(g, x, y),
    ensures
        exists|cs: Seq<(int, int)>|
            1 <= cs.len() <= 3 && cs.contains((x, y)) && isolated_cells(g, cs),
{
    let nn = none_neighbors(g, x, y);
    lemma_neighbors_free(g, x, y);
    lemma_neighbors_complete(g, x, y);
    assert(cell_free(g, x, y));
    if nn.len() == 0 {
        let cs = seq![(x, y)];
        assert forall|i: int, a: int, b: int|
            0 <= i < cs.len() && #[trigger] cells_adjacent(cs[i], (a, b)) && cell_free(g, a, b)
            implies cs.contains((a, b)) by {
            assert(nn.contains(((a as usize), (b as usize))));
        }
        assert(cs[0] == (x, y));
        assert(1 <= cs.len() <= 3 && cs.contains((x, y)) && isolated_cells(g, cs));
    } else if nn.len() == 1 {
        let ox = nn[0].0 as int;
        let oy = nn[0].1 as int;
        lemma_neighbors_free(g, ox, oy);
        lemma_neighbors_complete(g, ox, oy);
        let onn = none_neighbors(g, ox, oy);
        assert(cells_adjacent((ox, oy), (x, y)));
        assert(onn.contains(((x as usize), (y as usize))));
        assert(onn[0] == ((x as usize), (y as usize))) by {
            let j = choose|j: int| 0 <= j < onn.len() && onn[j] == ((x as usize), (y as usize));
        }
        let cs = seq![(x, y), (ox, oy)];
        assert(cs[0] == (x, y) && cs[1] == (ox, oy));
        assert forall|i: int, a: int, b: int|
            0 <= i < cs.len() && #[trigger] cells_adjacent(cs[i], (a, b)) && cell_free(g, a, b)
            implies cs.contains((a, b)) by {
            if i == 0 {
                assert(nn.contains(((a as usize), (b as usize))));
                assert(((a as usize), (b as usize)) == nn[0]);
                assert(cs[1] == (a, b));
            } else {
                assert(onn.contains(((a as usize), (b as usize))));
                assert(((a as usize), (b as usize)) == onn[0]);
                assert(cs[0] == (a, b));
            }
        }
        assert(1 <= cs.len() <= 3 && cs.contains((x, y)) && isolated_cells(g, cs));
    } else {
        assert(nn.len() == 2);
        let ox1 = nn[0].0 as int;
        let oy1 = nn[0].1 as int;
        let ox2 = nn[1].0 as int;
        let oy2 = nn[1].1 as int;
        lemma_neighbors_free(g, ox1, oy1);
        lemma_neighbors_complete(g, ox1, oy1);
        lemma_neighbors_free(g, ox2, oy2);
        lemma_neighbors_complete(g, ox2, oy2);
        let onn1 = none_neighbors(g, ox1, oy1);
        let onn2 = none_neighbors(g, ox2, oy2);
        assert(cells_adjacent((ox1, oy1), (x, y)));
        assert(cells_adjacent((ox2, oy2), (x, y)));
        assert(onn1.contains(((x as usize), (y as usize))));
        assert(onn1[0] == ((x as usize), (y as usize))) by {
            let j = choose|j: int| 0 <= j < onn1.len() && onn1[j] == ((x as usize), (y as usize));
        }
        assert(onn2.contains(((x as usize), (y as usize))));
        assert(onn2[0] == ((x as usize), (y as usize))) by {
            let j = choose|j: int| 0 <= j < onn2.len() && onn2[j] == ((x as usize), (y as usize));
        }
        let cs = seq![(x, y), (ox1, oy1), (ox2, oy2)];
        assert(cs[0] == (x, y) && cs[1] == (ox1, oy1) && cs[2] == (ox2, oy2));
        assert forall|i: int, a: int, b: int|
            0 <= i < cs.len() && #[trigger] cells_adjacent(cs[i], (a, b)) && cell_free(g, a, b)
            implies cs.contains((a, b)) by {
            if i == 0 {
                assert(nn.contains(((a as usize), (b as usize))));
                let j = choose|j: int|
                    0 <= j < nn.len() && nn[j] == ((a as usize), (b as usize));
                if j == 0 {
                    assert(cs[1] == (a, b));
                } else {
                    assert(cs[2] == (a, b));
                }
            } else if i == 1 {
                assert(onn1.contains(((a as usize), (b as usize))));
                assert(((a as usize), (b as usize)) == onn1[0]);
                assert(cs[0] == (a, b));
            } else {
                assert(onn2.contains(((a as usize), (b as usize))));
                assert(((a as usize), (b as usize)) == onn2[0]);
                assert(cs[0] == (a, b));
            }
        }
        assert(1 <= cs.len() <= 3 && cs.contains((x, y)) && isolated_cells(g, cs));
    }
}

/// The detector never cries wolf on large regions: on a board whose empty
/// cells form no isolated group of one, two or three cells — every empty
/// region has four or more cells — no pocket is reported.
pub proof fn lemma_large_regions_no_pocket(g: Seq<Option<char>>)
    requires
        g.len() == 64,
        forall|cs: Seq<(int, int)>| 1 <= cs.len() <= 3 ==> !isolated_cells(g, cs),
    ensures
        !has_pocket(g),
{
    if has_pocket(g) {
        let (x, y) = choose|x: int, y: int| pocket_at(g, x, y);
        lemma_pocket_is_small_region(g, x, y);
        let cs = choose|cs: Seq<(int, int)>|
            1 <= cs.len() <= 3 && cs.contains((x, y)) && isolated_cells(g, cs);
        assert(!isolated_cells(g, cs));
    }
}

/// A valid set of remaining piece identities: pairwise distinct values
/// below 13.
pub open spec fn valid_remaining(r: Seq<u8>) -> bool {
    &&& forall|i: int| 0 <= i < r.len() ==> r[i] < 13
    &&& forall|i: int, j: int| 0 <= i < j < r.len() ==> r[i] != r[j]
}

/// Removing an entry keeps the remaining-piece set valid.
pub proof fn lemma_valid_remaining_remove(r: Seq<u8>, k: int)
    requires
        valid_remaining(r),
        0 <= k < r.len(),
    ensures
        valid_remaining(r.remove(k)),
{
    let rr = r.remove(k);
    assert forall|i: int| 0 <= i < rr.len() implies rr[i] < 13 by {
        if i < k {
            assert(rr[i] == r[i]);
        } else {
            assert(rr[i] == r[i + 1]);
        }
    }
    assert forall|i: int, j: int| 0 <= i < j < rr.len() implies rr[i] != rr[j] by {
        let i0: int = if i < k { i } else { i + 1 };
        let j0: int = if j < k { j } else { j + 1 };
        assert(rr[i] == r[i0]);
        assert(rr[j] == r[j0]);
        assert(r[i0] != r[j0]);
    }
}

/// Copy a vector of copyable values, element by element.
fn copy_vec<T: Copy>(v: &Vec<T>) -> (r: Vec<T>)
    ensures
        r@ == v@,
{
    let mut r: Vec<T> = Vec::new();
    let mut i: usize = 0;
    while i < v.len()
        invariant
            i <= v@.len(),
            r@ == v@.take(i as int),
        decreases v@.len() - i,
    {
        r.push(v[i]);
        proof {
            assert(v@.take(i as int + 1) =~= v@.take(i as int).push(v@[i as int]));
        }
        i = i + 1;
    }
    assert(v@.take(v@.len() as int) =~= v@);
    r
}

/// A search state: the grid itself, the identities of the pieces still to
/// be placed, and the ordered record of placements taken so far
/// (piece identity, variant index, anchor x, anchor y).
pub struct Board {
    pub board: Vec<Option<char>>,
    pub pieces_left: Vec<u8>,
    pub pieces: Vec<(u8, usize, i8, i8)>,
}

impl Board {
    /// The grid contents, as a mathematical sequence of 64 optional symbols.
    pub open spec fn grid(&self) -> Seq<Option<char>> {
        self.board@
    }

    /// The remaining piece identities, in worklist order.
    pub open spec fn remaining(&self) -> Seq<u8> {
        self.pieces_left@
    }

    /// The placement records taken so far.
    pub open spec fn placed(&self) -> Seq<(u8, usize, i8, i8)> {
        self.pieces@
    }

    /// Well-formedness: the grid has exactly 64 cells, and the remaining
    /// piece identities are pairwise distinct values below 13.
    pub open spec fn wf(&self) -> bool {
        &&& self.grid().len() == 64
        &&& valid_remaining(self.remaining())
    }

    /// An empty board with every cell unoccupied, all 13 piece identities
    /// remaining (in increasing order), and no placements recorded.
    pub fn new() -> (b: Board)
        ensures
            b.wf(),
            b.grid().len() == 64,
            forall|i: int| 0 <= i < 64 ==> b.grid()[i] is None,
            b.remaining().len() == 13,
            forall|i: int| 0 <= i < 13 ==> b.remaining()[i] == i as u8,
            b.placed().len() == 0,
    {
        let mut grid: Vec<Option<char>> = Vec::new();
        let mut i: usize = 0;
        while i < 64
            invariant
                i <= 64,
                grid@.len() == i,
                forall|j: int| 0 <= j < i ==> grid@[j] is None,
            decreases 64 - i,
        {
            grid.push(None);
            i = i + 1;
        }

        let mut left: Vec<u8> = Vec::new();
        let mut id: u8 = 0;
        while id < 13
            invariant
                id <= 13,
                left@.len() == id,
                forall|j: int| 0 <= j < id ==> left@[j] == j as u8,
            decreases 13 - id,
        {
            left.push(id);
            id = id + 1;
        }

        Board { board: grid, pieces_left: left, pieces: Vec::new() }
    }

    /// An exact copy: search states are cloned per expansion, each branch
    /// owning its own board.
    pub fn duplicate(&self) -> (r: Board)
        ensures
            r.grid() == self.grid(),
            r.remaining() == self.remaining(),
            r.placed() == self.placed(),
    {
        Board {
            board: copy_vec(&self.board),
            pieces_left: copy_vec(&self.pieces_left),
            pieces: copy_vec(&self.pieces),
        }
    }

    /// Whether `(x, y)` is on the grid and currently unoccupied.
    /// A pure query: the board is not touched.
    pub fn try_mark(&self, x: i8, y: i8) -> (r: bool)
        requires
            self.wf(),
        ensures
            r == cell_free(self.grid(), x as int, y as int),
    {
        if x >= 8 || x < 0 {
            return false;
        }
        if y >= 8 || y < 0 {
            return false;
        }
        let index = x as usize * 8 + y as usize;
        self.board[index].is_none()
    }

    /// Set the symbol of the unoccupied cell `(x, y)`. Marking a cell out
    /// of range or already occupied is a contract violation, so such
    /// inputs are excluded outright.
    pub fn mark(&mut self, x: i8, y: i8, marking: char)
        requires
            old(self).wf(),
            on_grid(x as int, y as int),
            old(self).grid()[grid_index(x as int, y as int)] is None,
        ensures
            final(self).wf(),
            final(self).grid() == old(self).grid().update(
                grid_index(x as int, y as int),
                Some(marking),
            ),
            final(self).remaining() == old(self).remaining(),
            final(self).placed() == old(self).placed(),
    {
        let index = x as usize * 8 + y as usize;
        self.board.set(index, Some(marking));
    }

    /// Attempt to place one variant, anchored at `(curr_x, curr_y)`.
    /// Placement is atomic: either every cell of the variant is free, all
    /// of them are marked with their symbols and `true` comes back, or the
    /// board is left exactly as it was and `false` comes back.
    pub fn place_piece(&mut self, curr_x: i8, curr_y: i8, piece: &Piece) -> (r: bool)
        requires
            old(self).wf(),
            distinct_offsets(piece@),
            offsets_fit(curr_x as int, curr_y as int, piece@),
        ensures
            final(self).wf(),
            r == fits(old(self).grid(), curr_x as int, curr_y as int, piece@),
            r ==> final(self).grid() == placed_grid(
                old(self).grid(),
                curr_x as int,
                curr_y as int,
                piece@,
            ),
            !r ==> final(self).grid() == old(self).grid(),
            final(self).remaining() == old(self).remaining(),
            final(self).placed() == old(self).placed(),
    {
        let ghost g0 = self.grid();
        let mut i: usize = 0;
        while i < piece.len()
            invariant
                i <= piece@.len(),
                self == old(self),
                self.wf(),
                g0 == self.grid(),
                offsets_fit(curr_x as int, curr_y as int, piece@),
                forall|j: int|
                    0 <= j < i ==> cell_free(
                        g0,
                        curr_x as int + piece@[j].0 as int,
                        curr_y as int + piece@[j].1 as int,
                    ),
            decreases piece@.len() - i,
        {
            let (dx, dy, _ch) = piece[i];
            let x = curr_x + dx;
            let y = curr_y + dy;
            if !self.try_mark(x, y) {
                assert(!cell_free(g0, curr_x as int + piece@[i as int].0 as int,
                    curr_y as int + piece@[i as int].1 as int));
                return false;
            }
            i = i + 1;
        }
        assert(fits(g0, curr_x as int, curr_y as int, piece@));

        let mut i: usize = 0;
        while i < piece.len()
            invariant
                i <= piece@.len(),
                self.wf(),
                g0 == old(self).grid(),
                g0.len() == 64,
                distinct_offsets(piece@),
                offsets_fit(curr_x as int, curr_y as int, piece@),
                fits(g0, curr_x as int, curr_y as int, piece@),
                self.grid() == placed_grid(g0, curr_x as int, curr_y as int, piece@.take(i as int)),
                self.remaining() == old(self).remaining(),
                self.placed() == old(self).placed(),
            decreases piece@.len() - i,
        {
            let ghost prefix = piece@.take(i as int);
            let (dx, dy, ch) = piece[i];
            let x = curr_x + dx;
            let y = curr_y + dy;
            proof {
                assert(cell_free(g0, x as int, y as int));
                assert(fits(g0, curr_x as int, curr_y as int, prefix)) by {
                    assert(forall|j: int| 0 <= j < prefix.len() ==> prefix[j] == piece@[j]);
                }
                lemma_placed_grid_frame(g0, curr_x as int, curr_y as int, prefix);
                assert(forall|j: int|
                    0 <= j < prefix.len() ==> !(curr_x as int + prefix[j].0 as int == x as int
                        && curr_y as int + prefix[j].1 as int == y as int)) by {
                    assert(forall|j: int| 0 <= j < prefix.len() ==> prefix[j] == piece@[j]);
                }
                assert(self.grid()[grid_index(x as int, y as int)] == g0[grid_index(
                    x as int,
                    y as int,
                )]);
            }
            self.mark(x, y, ch);
            proof {
                let extended = piece@.take(i as int + 1);
                assert(extended.drop_last() =~= prefix);
                assert(extended.last() == piece@[i as int]);
                assert(self.grid() == placed_grid(g0, curr_x as int, curr_y as int, extended));
            }
            i = i + 1;
        }
        assert(piece@.take(piece@.len() as int) =~= piece@);
        true
    }

    /// Partial-match test against the target pattern: true when every
    /// occupied cell of this board carries exactly the symbol the target
    /// has there. Cells still unoccupied are unconstrained, so a board
    /// with fewer pieces placed can still match a full target.
    pub fn check_solution(&self, solution: &Board) -> (r: bool)
        requires
            self.wf(),
            solution.wf(),
        ensures
            r == agrees(self.grid(), solution.grid()),
    {
        let mut y: usize = 0;
        while y < 8
            invariant
                y <= 8,
                self.wf(),
                solution.wf(),
                forall|xx: int, yy: int|
                    on_grid(xx, yy) && yy < y && #[trigger] self.grid()[grid_index(xx, yy)] is Some
                        ==> self.grid()[grid_index(xx, yy)] == solution.grid()[grid_index(xx, yy)],
            decreases 8 - y,
        {
            let mut x: usize = 0;
            while x < 8
                invariant
                    x <= 8,
                    y < 8,
                    self.wf(),
                    solution.wf(),
                    forall|xx: int, yy: int|
                        on_grid(xx, yy) && yy < y && #[trigger] self.grid()[grid_index(
                            xx,
                            yy,
                        )] is Some ==> self.grid()[grid_index(xx, yy)] == solution.grid()[
                            grid_index(xx, yy)],
                    forall|xx: int|
                        0 <= xx < x && #[trigger] self.grid()[grid_index(xx, y as int)] is Some
                            ==> self.grid()[grid_index(xx, y as int)] == solution.grid()[grid_index(
                            xx,
                            y as int,
                        )],
                decreases 8 - x,
            {
                let index = x * 8 + y;
                let here = self.board[index];
                if let Some(ch) = here {
                    let there = solution.board[index];
                    proof {
                        assert(self.grid()[grid_index(x as int, y as int)] == Some(ch));
                    }
                    match there {
                        Some(ch2) => {
                            if ch != ch2 {
                                assert(!agrees(self.grid(), solution.grid()));
                                return false;
                            }
                        },
                        None => {
                            assert(!agrees(self.grid(), solution.grid()));
                            return false;
                        },
                    }
                }
                x = x + 1;
            }
            y = y + 1;
        }
        true
    }

    /// The unoccupied 4-neighbours of `(x, y)`, clipped at the board edge,
    /// in the fixed order left, right, up, down. Empty when `(x, y)` is
    /// itself occupied.
    pub fn get_none_neighbors(&self, x: usize, y: usize) -> (r: Vec<(usize, usize)>)
        requires
            self.wf(),
            x < 8,
            y < 8,
        ensures
            r@ == none_neighbors(self.grid(), x as int, y as int),
    {
        let index = x * 8 + y;
        if self.board[index].is_some() {
            assert(none_neighbors(self.grid(), x as int, y as int) =~= Seq::<(usize, usize)>::empty());
            return Vec::new();
        }

        let mut none_found: Vec<(usize, usize)> = Vec::new();
        if x > 0 {
            let left_index = (x - 1) * 8 + y;
            if self.board[left_index].is_none() {
                none_found.push((x - 1, y));
            }
        }
        if x < 7 {
            let right_index = (x + 1) * 8 + y;
            if self.board[right_index].is_none() {
                none_found.push((x + 1, y));
            }
        }
        if y > 0 {
            let up_index = x * 8 + (y - 1);
            if self.board[up_index].is_none() {
                none_found.push((x, y - 1));
            }
        }
        if y < 7 {
            let down_index = x * 8 + (y + 1);
            if self.board[down_index].is_none() {
                none_found.push((x, y + 1));
            }
        }
        assert(none_found@ =~= none_neighbors(self.grid(), x as int, y as int));
        none_found
    }

    /// Scan the whole grid for a pocket: an isolated empty region of one,
    /// two or three cells that no piece can ever fill. Returns on the
    /// first pocket found; the board itself is left untouched.
    pub fn has_pockets(&mut self) -> (r: bool)
        requires
            old(self).wf(),
        ensures
            *final(self) == *old(self),
            r == has_pocket(old(self).grid()),
    {
        let ghost g = self.grid();
        let mut y: usize = 0;
        while y < 8
            invariant
                y <= 8,
                self.wf(),
                self == old(self),
                g == self.grid(),
                forall|xx: int, yy: int| 0 <= yy < y && on_grid(xx, yy) ==> !pocket_at(g, xx, yy),
            decreases 8 - y,
        {
            let mut x: usize = 0;
            while x < 8
                invariant
                    x <= 8,
                    y < 8,
                    self.wf(),
                    self == old(self),
                    g == self.grid(),
                    forall|xx: int, yy: int|
                        0 <= yy < y && on_grid(xx, yy) ==> !pocket_at(g, xx, yy),
                    forall|xx: int| 0 <= xx < x ==> !pocket_at(g, xx, y as int),
                decreases 8 - x,
            {
                let index = x * 8 + y;
                if self.board[index].is_some() {
                    x = x + 1;
                    continue;
                }

                let none_neighbors_here = self.get_none_neighbors(x, y);
                if none_neighbors_here.len() == 0 {
                    assert(pocket_at(g, x as int, y as int));
                    return true;
                }

                if none_neighbors_here.len() == 1 {
                    let (other_x, other_y) = none_neighbors_here[0];
                    proof {
                        lemma_neighbors_free(g, x as int, y as int);
                    }
                    let other_none_neighbors = self.get_none_neighbors(other_x, other_y);
                    if other_none_neighbors.len() == 1 {
                        assert(pocket_at(g, x as int, y as int));
                        return true;
                    }
                }

                if none_neighbors_here.len() == 2 {
                    proof {
                        lemma_neighbors_free(g, x as int, y as int);
                    }
                    let (other_x1, other_y1) = none_neighbors_here[0];
                    let first_count_is_one = self.get_none_neighbors(other_x1, other_y1).len()
                        == 1;
                    let (other_x2, other_y2) = none_neighbors_here[1];
                    let second_count_is_one = self.get_none_neighbors(other_x2, other_y2).len()
                        == 1;
                    if first_count_is_one && second_count_is_one {
                        assert(pocket_at(g, x as int, y as int));
                        return true;
                    }
                }

                assert(!pocket_at(g, x as int, y as int));
                x = x + 1;
            }
            y = y + 1;
        }
        assert forall|xx: int, yy: int| !pocket_at(g, xx, yy) by {
            if pocket_at(g, xx, yy) {
                assert(on_grid(xx, yy));
            }
        }
        false
    }
}

} // verus!
