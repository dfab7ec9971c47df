//! Search-state expansion and the single-threaded driver: for one partial
//! solution, enumerate every remaining piece, every column's first empty
//! cell and every variant, keeping exactly the children that place
//! cleanly, still match the target and open no pocket.

use vstd::prelude::*;
use crate::board::{
    Board, agrees, fits, grid_index, has_pocket, lemma_valid_remaining_remove, placed_grid,
};
use crate::shapes::{Piece, ShapeLibrary, wf_variant};

verus! {

/// The pattern of variant `v` of the piece identified by entry `k` of the
/// parent's remaining set.
pub open spec fn variant_of(parent: Board, lib: ShapeLibrary, k: int, v: int) -> Seq<(i8, i8, char)> {
    lib.shapes@[parent.remaining()[k] as int]@[v]@
}

/// Whether entry `k` of the remaining set, variant `v`, anchored at
/// `(x, y)`, would produce a child worth keeping: the variant fits on free
/// cells, the grown board still matches the target, and it opens no pocket.
pub open spec fn child_ok(
    parent: Board,
    lib: ShapeLibrary,
    target: Board,
    k: int,
    v: int,
    x: int,
    y: int,
) -> bool {
    let pat = variant_of(parent, lib, k, v);
    let grown = placed_grid(parent.grid(), x, y, pat);
    &&& fits(parent.grid(), x, y, pat)
    &&& agrees(grown, target.grid())
    &&& !has_pocket(grown)
}

/// The child that placing entry `k`'s variant `v` at `(x, y)` produces:
/// the grown grid, the piece taken out of the remaining set, and the
/// placement recorded.
pub open spec fn is_child(
    parent: Board,
    child: Board,
    lib: ShapeLibrary,
    target: Board,
    k: int,
    v: int,
    x: int,
    y: int,
) -> bool {
    let id = parent.remaining()[k];
    let pat = variant_of(parent, lib, k, v);
    &&& child_ok(parent, lib, target, k, v, x, y)
    &&& child.grid() == placed_grid(parent.grid(), x, y, pat)
    &&& child.remaining() == parent.remaining().remove(k)
    &&& child.placed() == parent.placed().push((id, v as usize, x as i8, y as i8))
}

/// The first empty row at or below `y` in column `x`, if any.
pub open spec fn first_empty_from(g: Seq<Option<char>>, x: int, y: int) -> Option<int>
    decreases 8 - y,
{
    if y < 0 || y >= 8 {
        None
    } else if g[grid_index(x, y)] is None {
        Some(y)
    } else {
        first_empty_from(g, x, y + 1)
    }
}

/// The first empty row of column `x`: the sole anchor candidate the scan
/// considers in that column.
pub open spec fn first_empty_row(g: Seq<Option<char>>, x: int) -> Option<int> {
    first_empty_from(g, x, 0)
}

/// The anchor candidates one expansion step enumerates: every entry of the
/// remaining set, every variant of that piece, anchored at the first empty
/// cell of each column.
pub open spec fn candidate(parent: Board, lib: ShapeLibrary, k: int, v: int, x: int, y: int) -> bool {
    &&& 0 <= k < parent.remaining().len()
    &&& 0 <= v < lib.shapes@[parent.remaining()[k] as int]@.len()
    &&& 0 <= x < 8
    &&& first_empty_row(parent.grid(), x) == Some(y)
}

/// A board that one expansion step may hand back: the child of the parent
/// under some enumerated candidate.
pub open spec fn sound_child(parent: Board, child: Board, lib: ShapeLibrary, target: Board) -> bool {
    exists|k: int, v: int, x: int, y: int|
        candidate(parent, lib, k, v, x, y) && is_child(parent, child, lib, target, k, v, x, y)
}

/// A well-formed child of `parent` produced at anchor `(x, y)` from some
/// variant of remaining entry `k`.
pub open spec fn child_for_anchor(
    parent: Board,
    lib: ShapeLibrary,
    target: Board,
    k: int,
    x: int,
    y: int,
    child: Board,
) -> bool {
    &&& child.wf()
    &&& exists|v: int|
        0 <= v < lib.shapes@[parent.remaining()[k] as int]@.len() && is_child(
            parent,
            child,
            lib,
            target,
            k,
            v,
            x,
            y,
        )
}

/// The list `kids` holds a child of `parent` for exactly the candidate
/// `(k, v, x, y)`.
pub open spec fn covered(
    parent: Board,
    lib: ShapeLibrary,
    target: Board,
    k: int,
    v: int,
    x: int,
    y: int,
    kids: Seq<Board>,
) -> bool {
    exists|c: int|
        0 <= c < kids.len() && is_child(parent, #[trigger] kids[c], lib, target, k, v, x, y)
}

/// A candidate stays covered when the list only grows at its end.
pub proof fn lemma_covered_extend(
    parent: Board,
    lib: ShapeLibrary,
    target: Board,
    k: int,
    v: int,
    x: int,
    y: int,
    pre: Seq<Board>,
    post: Seq<Board>,
)
    requires
        covered(parent, lib, target, k, v, x, y, pre),
        post.len() >= pre.len(),
        forall|c: int| 0 <= c < pre.len() ==> post[c] == pre[c],
    ensures
        covered(parent, lib, target, k, v, x, y, post),
{
    let c0 = choose|c: int|
        0 <= c < pre.len() && is_child(parent, #[trigger] pre[c], lib, target, k, v, x, y);
    assert(post[c0] == pre[c0]);
    assert(is_child(parent, post[c0], lib, target, k, v, x, y));
}

impl Board {
    /// Attempt one candidate: clone this state, place entry `k`'s variant
    /// `v` at `(x, y)`, and keep the clone only if the placement succeeds,
    /// the grown board still matches the target and no pocket appears.
    pub fn make_child(
        &self,
        lib: &ShapeLibrary,
        target: &Board,
        k: usize,
        v: usize,
        x: i8,
        y: i8,
    ) -> (r: Option<Board>)
        requires
            self.wf(),
            lib.wf(),
            target.wf(),
            k < self.remaining().len(),
            v < lib.shapes@[self.remaining()[k as int] as int]@.len(),
            0 <= x < 8,
            0 <= y < 8,
        ensures
            r is Some <==> child_ok(*self, *lib, *target, k as int, v as int, x as int, y as int),
            r matches Some(c) ==> is_child(
                *self,
                c,
                *lib,
                *target,
                k as int,
                v as int,
                x as int,
                y as int,
            ) && c.wf(),
    {
        let id = self.pieces_left[k];
        let pat: &Piece = &lib.shapes[id as usize][v];
        proof {
            assert(wf_variant(pat@));
        }
        let mut child = self.duplicate();
        if !child.place_piece(x, y, pat) {
            return None;
        }
        if !child.check_solution(target) {
            return None;
        }
        if child.has_pockets() {
            return None;
        }
        child.pieces_left.remove(k);
        child.pieces.push((id, v, x, y));
        proof {
            lemma_valid_remaining_remove(self.remaining(), k as int);
        }
        Some(child)
    }

    /// Scan column `x` top to bottom for its first empty cell.
    pub fn first_empty_in_column(&self, x: i8) -> (r: Option<i8>)
        requires
            self.wf(),
            0 <= x < 8,
        ensures
            match r {
                Some(y) => 0 <= y < 8 && first_empty_row(self.grid(), x as int) == Some(y as int),
                None => first_empty_row(self.grid(), x as int) is None,
            },
    {
        let mut y: i8 = 0;
        while y < 8
            invariant
                0 <= y <= 8,
                0 <= x < 8,
                self.wf(),
                first_empty_row(self.grid(), x as int) == first_empty_from(
                    self.grid(),
                    x as int,
                    y as int,
                ),
            decreases 8 - y,
        {
            let index = x as usize * 8 + y as usize;
            if self.board[index].is_none() {
                return Some(y);
            }
            y = y + 1;
        }
        None
    }

    /// Try every variant of remaining entry `k` anchored at `(x, y)`,
    /// appending each child that survives the placement, match and pocket
    /// tests. Earlier entries of `children` are left untouched, every new
    /// entry is a child for this anchor, and every variant that would
    /// survive contributes one.
    fn expand_cell(
        &self,
        lib: &ShapeLibrary,
        target: &Board,
        k: usize,
        x: i8,
        y: i8,
        children: &mut Vec<Board>,
    )
        requires
            self.wf(),
            lib.wf(),
            target.wf(),
            k < self.remaining().len(),
            0 <= x < 8,
            0 <= y < 8,
        ensures
            final(children)@.len() >= old(children)@.len(),
            forall|c: int|
                0 <= c < old(children)@.len() ==> final(children)@[c] == old(children)@[c],
            forall|c: int|
                old(children)@.len() <= c < final(children)@.len() ==> child_for_anchor(
                    *self,
                    *lib,
                    *target,
                    k as int,
                    x as int,
                    y as int,
                    #[trigger] final(children)@[c],
                ),
            forall|v: int|
                0 <= v < lib.shapes@[self.remaining()[k as int] as int]@.len() && child_ok(
                    *self,
                    *lib,
                    *target,
                    k as int,
                    v,
                    x as int,
                    y as int,
                ) ==> covered(*self, *lib, *target, k as int, v, x as int, y as int, final(children)@),
    {
        let id = self.pieces_left[k];
        let num_variants = lib.shapes[id as usize].len();
        let mut v: usize = 0;
        while v < num_variants
            invariant
                v <= num_variants,
                num_variants == lib.shapes@[self.remaining()[k as int] as int]@.len(),
                self.wf(),
                lib.wf(),
                target.wf(),
                k < self.remaining().len(),
                0 <= x < 8,
                0 <= y < 8,
                children@.len() >= old(children)@.len(),
                forall|c: int|
                    0 <= c < old(children)@.len() ==> children@[c] == old(children)@[c],
                forall|c: int|
                    old(children)@.len() <= c < children@.len() ==> child_for_anchor(
                        *self,
                        *lib,
                        *target,
                        k as int,
                        x as int,
                        y as int,
                        #[trigger] children@[c],
                    ),
                forall|vv: int|
                    0 <= vv < v && child_ok(*self, *lib, *target, k as int, vv, x as int, y as int)
                        ==> covered(*self, *lib, *target, k as int, vv, x as int, y as int, children@),
            decreases num_variants - v,
        {
            let ghost pre = children@;
            let made = self.make_child(lib, target, k, v, x, y);
            match made {
                Some(child) => {
                    proof {
                        assert(child_for_anchor(
                            *self,
                            *lib,
                            *target,
                            k as int,
                            x as int,
                            y as int,
                            child,
                        ));
                    }
                    children.push(child);
                    proof {
                        assert forall|c: int|
                            old(children)@.len() <= c < children@.len() implies child_for_anchor(
                            *self,
                            *lib,
                            *target,
                            k as int,
                            x as int,
                            y as int,
                            #[trigger] children@[c],
                        ) by {
                            if c < pre.len() {
                                assert(children@[c] == pre[c]);
                                assert(child_for_anchor(
                                    *self,
                                    *lib,
                                    *target,
                                    k as int,
                                    x as int,
                                    y as int,
                                    pre[c],
                                ));
                            } else {
                                assert(children@[c] == child);
                            }
                        }
                        assert(is_child(
                            *self,
                            children@[children@.len() - 1],
                            *lib,
                            *target,
                            k as int,
                            v as int,
                            x as int,
                            y as int,
                        ));
                        assert(covered(
                            *self,
                            *lib,
                            *target,
                            k as int,
                            v as int,
                            x as int,
                            y as int,
                            children@,
                        ));
                    }
                },
                None => {},
            }
            proof {
                assert forall|vv: int|
                    0 <= vv < v + 1 && child_ok(
                        *self,
                        *lib,
                        *target,
                        k as int,
                        vv,
                        x as int,
                        y as int,
                    ) implies covered(
                    *self,
                    *lib,
                    *target,
                    k as int,
                    vv,
                    x as int,
                    y as int,
                    children@,
                ) by {
                    if vv < v {
                        assert(covered(*self, *lib, *target, k as int, vv, x as int, y as int, pre));
                        lemma_covered_extend(
                            *self,
                            *lib,
                            *target,
                            k as int,
                            vv,
                            x as int,
                            y as int,
                            pre,
                            children@,
                        );
                    }
                }
            }
            v = v + 1;
        }
    }

    /// Expand remaining entry `k` over the whole board: columns are scanned
    /// from the last to the first, and in each column only the first empty
    /// cell serves as anchor for this piece.
    fn expand_piece(&self, lib: &ShapeLibrary, target: &Board, k: usize, children: &mut Vec<Board>)
        requires
            self.wf(),
            lib.wf(),
            target.wf(),
            k < self.remaining().len(),
        ensures
            final(children)@.len() >= old(children)@.len(),
            forall|c: int|
                0 <= c < old(children)@.len() ==> final(children)@[c] == old(children)@[c],
            forall|c: int|
                old(children)@.len() <= c < final(children)@.len()
                    ==> (#[trigger] final(children)@[c]).wf() && sound_child(
                    *self,
                    final(children)@[c],
                    *lib,
                    *target,
                ),
            forall|v: int, x: int, y: int|
                candidate(*self, *lib, k as int, v, x, y) && child_ok(
                    *self,
                    *lib,
                    *target,
                    k as int,
                    v,
                    x,
                    y,
                ) ==> covered(*self, *lib, *target, k as int, v, x, y, final(children)@),
    {
        let mut xi: usize = 0;
        while xi < 8
            invariant
                xi <= 8,
                self.wf(),
                lib.wf(),
                target.wf(),
                k < self.remaining().len(),
                children@.len() >= old(children)@.len(),
                forall|c: int|
                    0 <= c < old(children)@.len() ==> children@[c] == old(children)@[c],
                forall|c: int|
                    old(children)@.len() <= c < children@.len() ==> (#[trigger] children@[c]).wf()
                        && sound_child(*self, children@[c], *lib, *target),
                forall|v: int, x: int, y: int|
                    8 - xi <= x < 8 && candidate(*self, *lib, k as int, v, x, y) && child_ok(
                        *self,
                        *lib,
                        *target,
                        k as int,
                        v,
                        x,
                        y,
                    ) ==> covered(*self, *lib, *target, k as int, v, x, y, children@),
            decreases 8 - xi,
        {
            let x: i8 = 7 - (xi as i8);
            let ghost pre = children@;
            let found = self.first_empty_in_column(x);
            match found {
                Some(y) => {
                    self.expand_cell(lib, target, k, x, y, children);
                    proof {
                        assert forall|c: int|
                            old(children)@.len() <= c < children@.len() implies (
                        #[trigger] children@[c]).wf() && sound_child(
                            *self,
                            children@[c],
                            *lib,
                            *target,
                        ) by {
                            if c < pre.len() {
                                assert(children@[c] == pre[c]);
                                assert(pre[c].wf() && sound_child(*self, pre[c], *lib, *target));
                            } else {
                                assert(child_for_anchor(
                                    *self,
                                    *lib,
                                    *target,
                                    k as int,
                                    x as int,
                                    y as int,
                                    children@[c],
                                ));
                                let vv = choose|v: int|
                                    0 <= v < lib.shapes@[self.remaining()[k as int] as int]@.len()
                                        && is_child(
                                        *self,
                                        children@[c],
                                        *lib,
                                        *target,
                                        k as int,
                                        v,
                                        x as int,
                                        y as int,
                                    );
                                assert(candidate(*self, *lib, k as int, vv, x as int, y as int));
                                assert(sound_child(*self, children@[c], *lib, *target));
                            }
                        }
                        assert forall|v: int, xx: int, yy: int|
                            8 - (xi + 1) <= xx < 8 && candidate(*self, *lib, k as int, v, xx, yy)
                                && child_ok(*self, *lib, *target, k as int, v, xx, yy) implies covered(
                            *self,
                            *lib,
                            *target,
                            k as int,
                            v,
                            xx,
                            yy,
                            children@,
                        ) by {
                            if xx == x as int {
                                assert(yy == y as int);
                                assert(covered(
                                    *self,
                                    *lib,
                                    *target,
                                    k as int,
                                    v,
                                    xx,
                                    yy,
                                    children@,
                                ));
                            } else {
                                assert(covered(*self, *lib, *target, k as int, v, xx, yy, pre));
                                lemma_covered_extend(
                                    *self,
                                    *lib,
                                    *target,
                                    k as int,
                                    v,
                                    xx,
                                    yy,
                                    pre,
                                    children@,
                                );
                            }
                        }
                    }
                },
                None => {
                    proof {
                        assert forall|v: int, xx: int, yy: int|
                            8 - (xi + 1) <= xx < 8 && candidate(*self, *lib, k as int, v, xx, yy)
                                && child_ok(*self, *lib, *target, k as int, v, xx, yy) implies covered(
                            *self,
                            *lib,
                            *target,
                            k as int,
                            v,
                            xx,
                            yy,
                            children@,
                        ) by {
                            if xx == x as int {
                                assert(first_empty_row(self.grid(), xx) is None);
                                assert(false);
                            }
                        }
                    }
                },
            }
            xi = xi + 1;
        }
    }

    /// One full expansion step: every remaining piece, every column's first
    /// empty cell, every variant. Every child handed back is a sound child
    /// of this state, and every enumerated candidate that passes the
    /// placement, match and pocket tests is represented among them.
    pub fn expand(&self, lib: &ShapeLibrary, target: &Board) -> (children: Vec<Board>)
        requires
            self.wf(),
            lib.wf(),
            target.wf(),
        ensures
            forall|c: int|
                0 <= c < children@.len() ==> (#[trigger] children@[c]).wf() && sound_child(
                    *self,
                    children@[c],
                    *lib,
                    *target,
                ),
            forall|k: int, v: int, x: int, y: int|
                candidate(*self, *lib, k, v, x, y) && child_ok(*self, *lib, *target, k, v, x, y)
                    ==> covered(*self, *lib, *target, k, v, x, y, children@),
    {
        let mut children: Vec<Board> = Vec::new();
        let n = self.pieces_left.len();
        let mut k: usize = 0;
        while k < n
            invariant
                k <= n,
                n == self.remaining().len(),
                self.wf(),
                lib.wf(),
                target.wf(),
                forall|c: int|
                    0 <= c < children@.len() ==> (#[trigger] children@[c]).wf() && sound_child(
                        *self,
                        children@[c],
                        *lib,
                        *target,
                    ),
                forall|kk: int, v: int, x: int, y: int|
                    0 <= kk < k && candidate(*self, *lib, kk, v, x, y) && child_ok(
                        *self,
                        *lib,
                        *target,
                        kk,
                        v,
                        x,
                        y,
                    ) ==> covered(*self, *lib, *target, kk, v, x, y, children@),
            decreases n - k,
        {
            let ghost pre = children@;
            self.expand_piece(lib, target, k, &mut children);
            proof {
                assert forall|kk: int, v: int, x: int, y: int|
                    0 <= kk < k + 1 && candidate(*self, *lib, kk, v, x, y) && child_ok(
                        *self,
                        *lib,
                        *target,
                        kk,
                        v,
                        x,
                        y,
                    ) implies covered(*self, *lib, *target, kk, v, x, y, children@) by {
                    if kk < k {
                        assert(covered(*self, *lib, *target, kk, v, x, y, pre));
                        lemma_covered_extend(*self, *lib, *target, kk, v, x, y, pre, children@);
                    }
                }
            }
            k = k + 1;
        }
        children
    }
}

/// Everything a sound child guarantees: it still matches the target, and
/// exactly one piece left the remaining set.
pub proof fn lemma_sound_child_props(parent: Board, child: Board, lib: ShapeLibrary, target: Board)
    requires
        sound_child(parent, child, lib, target),
    ensures
        agrees(child.grid(), target.grid()),
        child.remaining().len() + 1 == parent.remaining().len(),
{
    let (k, v, x, y) = choose|k: int, v: int, x: int, y: int|
        candidate(parent, lib, k, v, x, y) && is_child(parent, child, lib, target, k, v, x, y);
}

/// Two boards carrying the same search state: equal grids, equal
/// remaining sets, equal placement records.
pub open spec fn same_state(a: Board, b: Board) -> bool {
    &&& a.grid() == b.grid()
    &&& a.remaining() == b.remaining()
    &&& a.placed() == b.placed()
}

/// The state every search starts from: an empty well-formed board with
/// all thirteen piece identities remaining, in increasing order, and no
/// placements recorded — what `Board::new` returns.
pub open spec fn is_initial(b: Board) -> bool {
    &&& b.wf()
    &&& b.grid().len() == 64
    &&& forall|i: int| 0 <= i < 64 ==> b.grid()[i] is None
    &&& b.remaining() == Seq::new(13, |i: int| i as u8)
    &&& b.placed().len() == 0
}

/// `s` arises from `w` by at most `n` expansion steps of the engine, each
/// step taking an enumerated, test-passing child.
pub open spec fn reachable_steps(
    lib: ShapeLibrary,
    target: Board,
    w: Board,
    s: Board,
    n: nat,
) -> bool
    decreases n,
{
    same_state(w, s) || (n > 0 && exists|c: Board|
        sound_child(w, c, lib, target) && reachable_steps(lib, target, c, s, (n - 1) as nat))
}

/// `s` arises from `w` by some number of expansion steps.
pub open spec fn leads_to(lib: ShapeLibrary, target: Board, w: Board, s: Board) -> bool {
    exists|n: nat| reachable_steps(lib, target, w, s, n)
}

/// `s` is a state the engine can reach from the empty board.
pub open spec fn reachable_from_start(lib: ShapeLibrary, target: Board, s: Board) -> bool {
    exists|b: Board, n: nat| is_initial(b) && reachable_steps(lib, target, b, s, n)
}

/// Being a sound child only depends on the states' views, not on the
/// identity of the board values carrying them.
pub proof fn lemma_sound_child_same_state(
    p1: Board,
    p2: Board,
    c1: Board,
    c2: Board,
    lib: ShapeLibrary,
    target: Board,
)
    requires
        same_state(p1, p2),
        same_state(c1, c2),
        sound_child(p1, c1, lib, target),
    ensures
        sound_child(p2, c2, lib, target),
{
    let (k, v, x, y) = choose|k: int, v: int, x: int, y: int|
        candidate(p1, lib, k, v, x, y) && is_child(p1, c1, lib, target, k, v, x, y);
    assert(variant_of(p2, lib, k, v) == variant_of(p1, lib, k, v));
    assert(candidate(p2, lib, k, v, x, y));
    assert(child_ok(p2, lib, target, k, v, x, y));
    assert(is_child(p2, c2, lib, target, k, v, x, y));
}

/// Reachability only depends on the starting state's views.
pub proof fn lemma_reachable_same_state(
    lib: ShapeLibrary,
    target: Board,
    w1: Board,
    w2: Board,
    s: Board,
    n: nat,
)
    requires
        same_state(w1, w2),
        reachable_steps(lib, target, w1, s, n),
    ensures
        reachable_steps(lib, target, w2, s, n),
    decreases n,
{
    if same_state(w1, s) {
        assert(same_state(w2, s));
    } else {
        let c = choose|c: Board|
            sound_child(w1, c, lib, target) && reachable_steps(lib, target, c, s, (n - 1) as nat);
        lemma_sound_child_same_state(w1, w2, c, c, lib, target);
        assert(sound_child(w2, c, lib, target) && reachable_steps(lib, target, c, s, (n - 1) as nat));
    }
}

/// When a state leads to a solution further down the tree, and every
/// enumerated candidate that passes the tests is represented among `kids`
/// (as `expand` guarantees of its result), then one of the kids leads to
/// that solution: popping a state and pushing its children loses nothing.
pub proof fn lemma_witness_moves_to_children(
    lib: ShapeLibrary,
    target: Board,
    p: Board,
    s: Board,
    n: nat,
    kids: Seq<Board>,
)
    requires
        reachable_steps(lib, target, p, s, n),
        !same_state(p, s),
        forall|k: int, v: int, x: int, y: int|
            candidate(p, lib, k, v, x, y) && child_ok(p, lib, target, k, v, x, y) ==> covered(
                p,
                lib,
                target,
                k,
                v,
                x,
                y,
                kids,
            ),
    ensures
        exists|c: int|
            0 <= c < kids.len() && reachable_steps(lib, target, kids[c], s, (n - 1) as nat),
{
    let c0 = choose|c: Board|
        sound_child(p, c, lib, target) && reachable_steps(lib, target, c, s, (n - 1) as nat);
    let (k, v, x, y) = choose|k: int, v: int, x: int, y: int|
        candidate(p, lib, k, v, x, y) && is_child(p, c0, lib, target, k, v, x, y);
    assert(covered(p, lib, target, k, v, x, y, kids));
    let ci = choose|c: int|
        0 <= c < kids.len() && is_child(p, #[trigger] kids[c], lib, target, k, v, x, y);
    assert(same_state(c0, kids[ci]));
    lemma_reachable_same_state(lib, target, c0, kids[ci], s, (n - 1) as nat);
}

/// How one bounded run of the search ends.
pub enum SearchOutcome {
    /// A complete solution: no piece left, every cell matching the target.
    Solved(Board),
    /// The worklist drained: no reachable state solves the puzzle.
    Exhausted,
    /// The step budget ran out first; nothing is claimed either way.
    OutOfBudget,
}

/// Drive the search from an empty board with a single worker and a
/// last-in-first-out worklist, for at most `max_steps` expansion steps.
/// A `Solved` outcome carries a genuine complete solution: a well-formed
/// state with no piece left to place whose every cell matches the target.
/// An `Exhausted` outcome proves the search space empty of solutions: no
/// state the engine can reach from the empty board has all pieces placed.
/// `OutOfBudget` says only that the budget ran out first.
pub fn solve(lib: &ShapeLibrary, target: &Board, max_steps: usize) -> (r: SearchOutcome)
    requires
        lib.wf(),
        target.wf(),
    ensures
        r matches SearchOutcome::Solved(b) ==> b.wf() && b.remaining().len() == 0 && agrees(
            b.grid(),
            target.grid(),
        ),
        r is Exhausted ==> forall|s: Board|
            reachable_from_start(*lib, *target, s) ==> s.remaining().len() > 0,
{
    let mut worklist: Vec<Board> = Vec::new();
    let seed = Board::new();
    proof {
        assert(agrees(seed.grid(), target.grid()));
        assert(seed.remaining() =~= Seq::new(13, |i: int| i as u8));
        assert(is_initial(seed));
    }
    worklist.push(seed);
    proof {
        assert forall|s: Board|
            reachable_from_start(*lib, *target, s) && s.remaining().len() == 0 implies exists|i: int|
            0 <= i < worklist@.len() && leads_to(*lib, *target, #[trigger] worklist@[i], s) by {
            let (b, n): (Board, nat) = choose|b: Board, n: nat|
                is_initial(b) && reachable_steps(*lib, *target, b, s, n);
            assert(b.grid() =~= seed.grid());
            assert(b.placed() =~= seed.placed());
            assert(same_state(b, seed));
            lemma_reachable_same_state(*lib, *target, b, seed, s, n);
            assert(worklist@[0] == seed);
            assert(leads_to(*lib, *target, worklist@[0], s));
        }
    }

    let mut steps: usize = 0;
    while steps < max_steps
        invariant
            lib.wf(),
            target.wf(),
            forall|i: int|
                0 <= i < worklist@.len() ==> (#[trigger] worklist@[i]).wf() && agrees(
                    worklist@[i].grid(),
                    target.grid(),
                ) && worklist@[i].remaining().len() > 0,
            forall|s: Board|
                #[trigger] reachable_from_start(*lib, *target, s) && s.remaining().len() == 0
                    ==> exists|i: int|
                    0 <= i < worklist@.len() && leads_to(*lib, *target, #[trigger] worklist@[i], s),
        decreases max_steps - steps,
    {
        if worklist.len() == 0 {
            proof {
                assert forall|s: Board|
                    reachable_from_start(*lib, *target, s) implies s.remaining().len() > 0 by {
                    if s.remaining().len() == 0 {
                        let i0 = choose|i: int|
                            0 <= i < worklist@.len() && leads_to(
                                *lib,
                                *target,
                                #[trigger] worklist@[i],
                                s,
                            );
                        assert(false);
                    }
                }
            }
            return SearchOutcome::Exhausted;
        }
        let ghost wl_before = worklist@;
        let state = worklist.pop().unwrap();
        let mut children = state.expand(lib, target);
        let ghost all_children = children@;
        proof {
            assert(children@ == all_children.take(children@.len() as int)) by {
                assert(all_children.take(all_children.len() as int) =~= all_children);
            }
            assert forall|s: Board|
                #[trigger] reachable_from_start(*lib, *target, s) && s.remaining().len() == 0
                    implies (exists|i: int|
                    0 <= i < worklist@.len() && leads_to(*lib, *target, #[trigger] worklist@[i], s))
                    || (exists|c: int|
                    0 <= c < children@.len() && leads_to(*lib, *target, children@[c], s)) by {
                let i0 = choose|i: int|
                    0 <= i < wl_before.len() && leads_to(*lib, *target, #[trigger] wl_before[i], s);
                if i0 < wl_before.len() - 1 {
                    assert(worklist@[i0] == wl_before[i0]);
                    assert(leads_to(*lib, *target, worklist@[i0], s));
                } else {
                    assert(wl_before[i0] == state);
                    assert(leads_to(*lib, *target, state, s));
                    let n = choose|n: nat| reachable_steps(*lib, *target, state, s, n);
                    assert(state.remaining().len() > 0);
                    assert(!same_state(state, s));
                    lemma_witness_moves_to_children(*lib, *target, state, s, n, all_children);
                    let ci = choose|c: int|
                        0 <= c < all_children.len() && reachable_steps(
                            *lib,
                            *target,
                            all_children[c],
                            s,
                            (n - 1) as nat,
                        );
                    assert(children@[ci] == all_children[ci]);
                    assert(leads_to(*lib, *target, children@[ci], s));
                }
            }
        }

        while children.len() > 0
            invariant
                lib.wf(),
                target.wf(),
                children@.len() <= all_children.len(),
                children@ == all_children.take(children@.len() as int),
                forall|c: int|
                    0 <= c < all_children.len() ==> (#[trigger] all_children[c]).wf()
                        && sound_child(state, all_children[c], *lib, *target),
                forall|i: int|
                    0 <= i < worklist@.len() ==> (#[trigger] worklist@[i]).wf() && agrees(
                        worklist@[i].grid(),
                        target.grid(),
                    ) && worklist@[i].remaining().len() > 0,
                forall|s: Board|
                    #[trigger] reachable_from_start(*lib, *target, s) && s.remaining().len() == 0
                        ==> (exists|i: int|
                        0 <= i < worklist@.len() && leads_to(
                            *lib,
                            *target,
                            #[trigger] worklist@[i],
                            s,
                        )) || (exists|c: int|
                        0 <= c < children@.len() && leads_to(*lib, *target, children@[c], s)),
            decreases children@.len(),
        {
            let ghost pre_children = children@;
            let ghost pre_worklist = worklist@;
            let child = children.pop().unwrap();
            proof {
                assert(child == pre_children[pre_children.len() - 1]);
                assert(pre_children[pre_children.len() - 1] == all_children.take(
                    pre_children.len() as int,
                )[pre_children.len() - 1]);
                assert(child == all_children[pre_children.len() - 1]);
                assert(child.wf() && sound_child(state, child, *lib, *target));
                lemma_sound_child_props(state, child, *lib, *target);
                assert(pre_children.take(pre_children.len() - 1) =~= all_children.take(
                    pre_children.len() - 1,
                ));
            }
            if child.pieces_left.len() == 0 {
                return SearchOutcome::Solved(child);
            }
            worklist.push(child);
            proof {
                assert forall|i: int|
                    0 <= i < worklist@.len() implies (#[trigger] worklist@[i]).wf() && agrees(
                    worklist@[i].grid(),
                    target.grid(),
                ) && worklist@[i].remaining().len() > 0 by {
                    if i < pre_worklist.len() {
                        assert(worklist@[i] == pre_worklist[i]);
                        assert(pre_worklist[i].wf() && agrees(
                            pre_worklist[i].grid(),
                            target.grid(),
                        ) && pre_worklist[i].remaining().len() > 0);
                    } else {
                        assert(worklist@[i] == child);
                    }
                }
                assert forall|s: Board|
                    #[trigger] reachable_from_start(*lib, *target, s) && s.remaining().len() == 0
                        implies (exists|i: int|
                        0 <= i < worklist@.len() && leads_to(
                            *lib,
                            *target,
                            #[trigger] worklist@[i],
                            s,
                        )) || (exists|c: int|
                        0 <= c < children@.len() && leads_to(*lib, *target, children@[c], s)) by {
                    if exists|i: int|
                        0 <= i < pre_worklist.len() && leads_to(
                            *lib,
                            *target,
                            #[trigger] pre_worklist[i],
                            s,
                        ) {
                        let i0 = choose|i: int|
                            0 <= i < pre_worklist.len() && leads_to(
                                *lib,
                                *target,
                                #[trigger] pre_worklist[i],
                                s,
                            );
                        assert(worklist@[i0] == pre_worklist[i0]);
                        assert(leads_to(*lib, *target, worklist@[i0], s));
                    } else {
                        let c0 = choose|c: int|
                            0 <= c < pre_children.len() && leads_to(*lib, *target, pre_children[c], s);
                        if c0 < pre_children.len() - 1 {
                            assert(children@[c0] == all_children.take(children@.len() as int)[c0]);
                            assert(pre_children[c0] == all_children.take(
                                pre_children.len() as int,
                            )[c0]);
                            assert(children@[c0] == pre_children[c0]);
                            assert(leads_to(*lib, *target, children@[c0], s));
                        } else {
                            assert(pre_children[c0] == child);
                            assert(worklist@[worklist@.len() - 1] == child);
                            assert(leads_to(*lib, *target, worklist@[worklist@.len() - 1], s));
                        }
                    }
                }
            }
        }
        steps = steps + 1;
    }
    SearchOutcome::OutOfBudget
}

} // verus!
