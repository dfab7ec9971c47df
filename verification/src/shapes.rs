//! Piece orientations: rotation of raw cell-offset patterns and
//! deduplication into each piece's final variant list.

use vstd::prelude::*;
use crate::board::distinct_offsets;

verus! {

/// One orientation of a piece: cell offsets relative to the anchor `(0, 0)`,
/// each with the symbol the board must show at that cell.
pub type Piece = Vec<(i8, i8, char)>;

/// The mathematical value of one orientation.
pub type Pattern = Seq<(i8, i8, char)>;

/// The patterns carried by a list of pieces.
pub open spec fn views_of(v: Seq<Piece>) -> Seq<Pattern> {
    v.map_values(|p: Piece| p@)
}

/// Every coordinate of the pattern is strictly above `i8::MIN`, so that
/// negating it during rotation cannot overflow.
pub open spec fn coords_negatable(p: Seq<(i8, i8, char)>) -> bool {
    forall|i: int| 0 <= i < p.len() ==> p[i].0 > i8::MIN && p[i].1 > i8::MIN
}

/// The pattern rotated by 180 degrees: both offsets negated, symbols kept.
pub open spec fn rot180(p: Seq<(i8, i8, char)>) -> Seq<(i8, i8, char)> {
    p.map_values(|t: (i8, i8, char)| ((-(t.0 as int)) as i8, (-(t.1 as int)) as i8, t.2))
}

/// The pattern rotated by 90 degrees: `(dx, dy)` becomes `(dy, -dx)`.
pub open spec fn rot90(p: Seq<(i8, i8, char)>) -> Seq<(i8, i8, char)> {
    p.map_values(|t: (i8, i8, char)| (t.1, (-(t.0 as int)) as i8, t.2))
}

/// The four rotations of a raw pattern, in the order they are generated:
/// the pattern itself, its 180-degree rotation, its 90-degree rotation,
/// and the 180-degree rotation of the latter (i.e. 270 degrees).
pub open spec fn rots_of(p: Seq<(i8, i8, char)>) -> Seq<Seq<(i8, i8, char)>> {
    seq![p, rot180(p), rot90(p), rot180(rot90(p))]
}

/// Generate the four rotations of a pattern, in the fixed order
/// original / 180 / 90 / 270.
pub fn rotations(piece: Piece) -> (r: Vec<Piece>)
    requires
        coords_negatable(piece@),
    ensures
        r@.len() == 4,
        r@[0]@ == piece@,
        r@[1]@ == rot180(piece@),
        r@[2]@ == rot90(piece@),
        r@[3]@ == rot180(rot90(piece@)),
{
    let mut result: Vec<Piece> = Vec::new();

    let mut rotate_180: Piece = Vec::new();
    let mut i: usize = 0;
    while i < piece.len()
        invariant
            i <= piece@.len(),
            coords_negatable(piece@),
            rotate_180@.len() == i,
            forall|j: int| 0 <= j < i ==> rotate_180@[j] == rot180(piece@)[j],
        decreases piece@.len() - i,
    {
        let (x, y, ch) = piece[i];
        rotate_180.push((-x, -y, ch));
        i = i + 1;
    }
    assert(rotate_180@ =~= rot180(piece@));

    let mut rotate_90: Piece = Vec::new();
    let mut i: usize = 0;
    while i < piece.len()
        invariant
            i <= piece@.len(),
            coords_negatable(piece@),
            rotate_90@.len() == i,
            forall|j: int| 0 <= j < i ==> rotate_90@[j] == rot90(piece@)[j],
        decreases piece@.len() - i,
    {
        let (x, y, ch) = piece[i];
        rotate_90.push((y, -x, ch));
        i = i + 1;
    }
    assert(rotate_90@ =~= rot90(piece@));

    let mut rotate_270: Piece = Vec::new();
    let mut i: usize = 0;
    while i < rotate_90.len()
        invariant
            i <= rotate_90@.len(),
            rotate_90@ == rot90(piece@),
            coords_negatable(piece@),
            rotate_270@.len() == i,
            forall|j: int| 0 <= j < i ==> rotate_270@[j] == rot180(rot90(piece@))[j],
        decreases rotate_90@.len() - i,
    {
        let (x, y, ch) = rotate_90[i];
        assert(rot90(piece@)[i as int].0 == piece@[i as int].1);
        rotate_270.push((-x, -y, ch));
        i = i + 1;
    }
    assert(rotate_270@ =~= rot180(rot90(piece@)));

    result.push(piece);
    result.push(rotate_180);
    result.push(rotate_90);
    result.push(rotate_270);
    result
}

/// Every offset of the pattern lies within eight cells of the anchor, so
/// that an absolute coordinate computed from an on-grid anchor fits in `i8`.
pub open spec fn bounded_offsets(p: Pattern) -> bool {
    forall|i: int|
        0 <= i < p.len() ==> -8 <= #[trigger] p[i].0 <= 8 && -8 <= p[i].1 <= 8
}

/// The anchor `(0, 0)` is itself a member of the pattern, as every raw
/// shape definition must guarantee: placement aligns it to a grid cell.
pub open spec fn anchored(p: Pattern) -> bool {
    exists|i: int| 0 <= i < p.len() && (#[trigger] p[i]).0 == 0 && p[i].1 == 0
}

/// A placeable variant: nonempty, offsets pairwise distinct and bounded,
/// and the anchor among its cells.
pub open spec fn wf_variant(p: Pattern) -> bool {
    &&& p.len() > 0
    &&& distinct_offsets(p)
    &&& bounded_offsets(p)
    &&& anchored(p)
}

/// A raw side definition fit for rotation: distinct bounded offsets
/// containing the anchor, or entirely empty (an absent second side).
pub open spec fn wf_raw_side(p: Pattern) -> bool {
    &&& distinct_offsets(p)
    &&& bounded_offsets(p)
    &&& p.len() > 0 ==> anchored(p)
}

/// Rotation keeps a pattern's length and preserves distinctness,
/// boundedness and anchor membership of its offsets.
pub proof fn lemma_rot_wf(p: Pattern)
    requires
        distinct_offsets(p),
        bounded_offsets(p),
    ensures
        rot180(p).len() == p.len(),
        rot90(p).len() == p.len(),
        distinct_offsets(rot180(p)),
        bounded_offsets(rot180(p)),
        distinct_offsets(rot90(p)),
        bounded_offsets(rot90(p)),
        anchored(p) ==> anchored(rot180(p)),
        anchored(p) ==> anchored(rot90(p)),
{
    assert(forall|i: int|
        0 <= i < p.len() ==> #[trigger] rot180(p)[i] == ((-(p[i].0 as int)) as i8, (-(
        p[i].1 as int)) as i8, p[i].2));
    assert(forall|i: int|
        0 <= i < p.len() ==> #[trigger] rot90(p)[i] == (p[i].1, (-(p[i].0 as int)) as i8, p[i].2));
    if anchored(p) {
        let i = choose|i: int| 0 <= i < p.len() && (#[trigger] p[i]).0 == 0 && p[i].1 == 0;
        assert(rot180(p)[i].0 == 0 && rot180(p)[i].1 == 0);
        assert(rot90(p)[i].0 == 0 && rot90(p)[i].1 == 0);
    }
}

/// The constant raw side definitions of each piece, as mathematical
/// values: the pair of cell-offset patterns that `shape_library` expands
/// and deduplicates for that identity (the second is empty for a piece
/// with a single side).
pub open spec fn raw_sides(id: int) -> (Pattern, Pattern) {
    if id == ID_LIGHTNING as int {
        (seq![(0i8, 0i8, 'x'), (0i8, -1i8, '.'), (1i8, -1i8, 'x'), (2i8, -1i8, '.'), (2i8, -2i8, 'x')], seq![(0i8, 0i8, '.'), (0i8, -1i8, 'x'), (-1i8, -1i8, '.'), (-2i8, -1i8, 'x'), (-2i8, -2i8, '.')])
    } else if id == ID_BIGT as int {
        (seq![(0i8, 0i8, '.'), (1i8, 0i8, 'x'), (2i8, 0i8, '.'), (1i8, -1i8, '.'), (1i8, -2i8, 'x')], Seq::empty())
    } else if id == ID_L as int {
        (seq![(0i8, 0i8, 'x'), (0i8, -1i8, '.'), (1i8, -1i8, 'x'), (2i8, -1i8, '.'), (3i8, -1i8, 'x')], seq![(0i8, 0i8, '.'), (1i8, 0i8, 'x'), (2i8, 0i8, '.'), (3i8, 0i8, 'x'), (3i8, 1i8, '.')])
    } else if id == ID_BIGC as int {
        (seq![(0i8, 0i8, 'R'), (1i8, 0i8, '.'), (2i8, 0i8, 'x'), (0i8, -1i8, '.'), (2i8, -1i8, '.')], Seq::empty())
    } else if id == ID_WEIRDO as int {
        (seq![(0i8, 0i8, '.'), (0i8, 1i8, 'x'), (1i8, 1i8, '.'), (2i8, 1i8, 'x'), (1i8, 2i8, 'x')], seq![(0i8, 0i8, 'x'), (0i8, 1i8, '.'), (-1i8, 1i8, 'x'), (-2i8, 1i8, '.'), (-1i8, 2i8, '.')])
    } else if id == ID_SMALLT as int {
        (seq![(0i8, 0i8, 'x'), (1i8, 0i8, '.'), (2i8, 0i8, 'x'), (1i8, -1i8, 'x')], Seq::empty())
    } else if id == ID_V as int {
        (seq![(0i8, 0i8, '.'), (1i8, 0i8, 'x'), (2i8, 0i8, '.'), (0i8, -1i8, 'x'), (0i8, -2i8, '.')], Seq::empty())
    } else if id == ID_PLUS as int {
        (seq![(0i8, 0i8, 'x'), (1i8, 0i8, '.'), (0i8, 1i8, '.'), (0i8, -1i8, '.'), (-1i8, 0i8, '.')], seq![(0i8, 0i8, '.'), (1i8, 0i8, 'x'), (0i8, 1i8, 'x'), (0i8, -1i8, 'x'), (-1i8, 0i8, 'x')])
    } else if id == ID_LINE as int {
        (seq![(0i8, 0i8, 'x'), (1i8, 0i8, '.'), (2i8, 0i8, 'x'), (3i8, 0i8, '.'), (4i8, 0i8, 'x')], Seq::empty())
    } else if id == ID_S as int {
        (seq![(0i8, 0i8, '.'), (1i8, 0i8, 'x'), (2i8, 0i8, '.'), (2i8, -1i8, 'x'), (3i8, -1i8, '.')], seq![(0i8, 0i8, 'x'), (-1i8, 0i8, '.'), (-2i8, 0i8, 'x'), (-2i8, -1i8, '.'), (-3i8, -1i8, 'x')])
    } else if id == ID_HAMMER as int {
        (seq![(0i8, 0i8, 'x'), (1i8, 0i8, '.'), (2i8, 0i8, 'x'), (3i8, 0i8, '.'), (1i8, -1i8, 'x')], seq![(0i8, 0i8, 'x'), (1i8, 0i8, '.'), (2i8, 0i8, 'x'), (3i8, 0i8, '.'), (2i8, -1i8, '.')])
    } else if id == ID_STAIRS as int {
        (seq![(0i8, 0i8, 'S'), (1i8, 0i8, '.'), (1i8, -1i8, 'x'), (2i8, -1i8, '.'), (2i8, -2i8, 'x')], Seq::empty())
    } else if id == ID_GUN as int {
        (seq![(0i8, 0i8, 'D'), (1i8, 0i8, '.'), (2i8, 0i8, 'x'), (1i8, -1i8, 'x'), (2i8, -1i8, '.')], Seq::empty())
    } else {
        (Seq::empty(), Seq::empty())
    }
}

/// Deduplication keeps at least the first pattern when it is nonempty.
pub proof fn lemma_dedup_keeps_first(s: Seq<Pattern>)
    requires
        s.len() > 0,
        s[0].len() > 0,
    ensures
        dedup_nonempty(s).len() >= 1,
    decreases s.len(),
{
    if s.len() == 1 {
        assert(s.drop_last() =~= Seq::<Pattern>::empty());
        assert(s.last() == s[0]);
    } else {
        assert(s.drop_last()[0] == s[0]);
        lemma_dedup_keeps_first(s.drop_last());
    }
}

/// One deduplication step: append the pattern unless it is empty or
/// already present.
pub open spec fn dedup_step(acc: Seq<Pattern>, p: Pattern) -> Seq<Pattern> {
    if p.len() == 0 || acc.contains(p) {
        acc
    } else {
        acc.push(p)
    }
}

/// Left-to-right deduplication of a list of patterns, dropping empty ones:
/// the order of first appearances is kept, and equality is exact
/// structural equality of the listed sequences (no canonical sorting).
pub open spec fn dedup_nonempty(s: Seq<Pattern>) -> Seq<Pattern>
    decreases s.len(),
{
    if s.len() == 0 {
        Seq::empty()
    } else {
        dedup_step(dedup_nonempty(s.drop_last()), s.last())
    }
}

/// Appending one pattern extends the deduplication by one step.
pub proof fn lemma_dedup_push(s: Seq<Pattern>, x: Pattern)
    ensures
        dedup_nonempty(s.push(x)) == dedup_step(dedup_nonempty(s), x),
{
    assert(s.push(x).drop_last() =~= s);
    assert(s.push(x).last() == x);
}

/// Deduplication only keeps nonempty patterns that were in the input, never
/// repeats one, and cannot return more patterns than it was given.
pub proof fn lemma_dedup_props(s: Seq<Pattern>)
    ensures
        dedup_nonempty(s).len() <= s.len(),
        forall|k: int|
            0 <= k < dedup_nonempty(s).len() ==> s.contains(#[trigger] dedup_nonempty(s)[k])
                && dedup_nonempty(s)[k].len() > 0,
        forall|k: int, l: int|
            0 <= k < l < dedup_nonempty(s).len() ==> dedup_nonempty(s)[k] != dedup_nonempty(s)[l],
    decreases s.len(),
{
    if s.len() > 0 {
        lemma_dedup_props(s.drop_last());
        let prev = dedup_nonempty(s.drop_last());
        assert forall|k: int|
            0 <= k < dedup_nonempty(s).len() implies s.contains(#[trigger] dedup_nonempty(s)[k])
            && dedup_nonempty(s)[k].len() > 0 by {
            if k < prev.len() {
                let e = prev[k];
                let i = choose|i: int| 0 <= i < s.drop_last().len() && s.drop_last()[i] == e;
                assert(s[i] == e);
            } else {
                assert(dedup_nonempty(s)[k] == s.last());
                assert(s[s.len() - 1] == s.last());
            }
        }
        assert forall|k: int, l: int|
            0 <= k < l < dedup_nonempty(s).len() implies dedup_nonempty(s)[k] != dedup_nonempty(
            s,
        )[l] by {
            if l == prev.len() && dedup_nonempty(s).len() > prev.len() {
                assert(!prev.contains(s.last()));
                assert(prev[k] != s.last());
            }
        }
    }
}

/// Rotating by 90 degrees and then by 180 is rotating by 180 and then by
/// 90: both give the 270-degree rotation.
pub proof fn lemma_rot_commute(p: Pattern)
    requires
        coords_negatable(p),
    ensures
        rot180(rot90(p)) == rot90(rot180(p)),
{
    assert forall|i: int| 0 <= i < p.len() implies rot180(rot90(p))[i] == rot90(rot180(p))[i] by {
        assert(rot90(p)[i] == (p[i].1, (-(p[i].0 as int)) as i8, p[i].2));
        assert(rot180(p)[i] == ((-(p[i].0 as int)) as i8, (-(p[i].1 as int)) as i8, p[i].2));
    }
    assert(rot180(rot90(p)) =~= rot90(rot180(p)));
}

/// Variant count, one raw side with no rotational symmetry: the four
/// rotations are pairwise distinct, so the variant list has exactly four
/// entries.
pub proof fn lemma_one_side_asymmetric_count(p: Pattern)
    requires
        p.len() > 0,
        p != rot180(p),
        p != rot90(p),
        p != rot180(rot90(p)),
        rot180(p) != rot90(p),
        rot180(p) != rot180(rot90(p)),
        rot90(p) != rot180(rot90(p)),
    ensures
        dedup_nonempty(rots_of(p) + rots_of(Seq::empty())).len() == 4,
{
    let e: Pattern = Seq::empty();
    let r1 = rot180(p);
    let r2 = rot90(p);
    let r3 = rot180(rot90(p));
    assert(rot180(e) =~= e);
    assert(rot90(e) =~= e);
    let s0 = Seq::<Pattern>::empty();
    let s1 = s0.push(p);
    let s2 = s1.push(r1);
    let s3 = s2.push(r2);
    let s4 = s3.push(r3);
    let s5 = s4.push(e);
    let s6 = s5.push(e);
    let s7 = s6.push(e);
    let s8 = s7.push(e);
    assert(rots_of(p) + rots_of(e) =~= s8);
    lemma_dedup_push(s0, p);
    lemma_dedup_push(s1, r1);
    lemma_dedup_push(s2, r2);
    lemma_dedup_push(s3, r3);
    lemma_dedup_push(s4, e);
    lemma_dedup_push(s5, e);
    lemma_dedup_push(s6, e);
    lemma_dedup_push(s7, e);
    assert(dedup_nonempty(s0) == Seq::<Pattern>::empty());
    assert(dedup_nonempty(s1) == s0.push(p));
    assert(!dedup_nonempty(s1).contains(r1));
    assert(dedup_nonempty(s2) == s0.push(p).push(r1));
    assert(!dedup_nonempty(s2).contains(r2));
    assert(dedup_nonempty(s3) == s0.push(p).push(r1).push(r2));
    assert(!dedup_nonempty(s3).contains(r3));
    assert(dedup_nonempty(s4) == s0.push(p).push(r1).push(r2).push(r3));
    assert(dedup_nonempty(s8) == dedup_nonempty(s4));
}

/// Variant count, one raw side carried onto itself by the 180-degree
/// rotation: at most two distinct variants survive deduplication.
pub proof fn lemma_one_side_symmetric_count(p: Pattern)
    requires
        coords_negatable(p),
        rot180(p) == p,
    ensures
        dedup_nonempty(rots_of(p) + rots_of(Seq::empty())).len() <= 2,
{
    let e: Pattern = Seq::empty();
    let q = rot90(p);
    lemma_rot_commute(p);
    assert(rot180(rot90(p)) == rot90(rot180(p)));
    assert(rot180(e) =~= e);
    assert(rot90(e) =~= e);
    let all = rots_of(p) + rots_of(e);
    assert(all =~= seq![p, p, q, q, e, e, e, e]);
    lemma_dedup_props(all);
    let d = dedup_nonempty(all);
    if d.len() > 2 {
        assert(all.contains(d[0]) && d[0].len() > 0);
        assert(all.contains(d[1]) && d[1].len() > 0);
        assert(all.contains(d[2]) && d[2].len() > 0);
        assert forall|k: int| 0 <= k < 3 implies d[k] == p || d[k] == q by {
            let j = choose|j: int| 0 <= j < all.len() && all[j] == d[k];
        }
        assert(d[0] != d[1] && d[0] != d[2] && d[1] != d[2]);
        assert(false);
    }
}

/// Copy a piece, cell by cell.
pub fn copy_piece(p: &Piece) -> (r: Piece)
    ensures
        r@ == p@,
{
    let mut r: Piece = Vec::new();
    let mut i: usize = 0;
    while i < p.len()
        invariant
            i <= p@.len(),
            r@ == p@.take(i as int),
        decreases p@.len() - i,
    {
        r.push(p[i]);
        proof {
            assert(p@.take(i as int + 1) =~= p@.take(i as int).push(p@[i as int]));
        }
        i = i + 1;
    }
    assert(p@.take(p@.len() as int) =~= p@);
    r
}

/// Exact structural equality of two patterns.
pub fn piece_eq(a: &Piece, b: &Piece) -> (r: bool)
    ensures
        r == (a@ == b@),
{
    if a.len() != b.len() {
        return false;
    }
    let mut i: usize = 0;
    while i < a.len()
        invariant
            i <= a@.len(),
            a@.len() == b@.len(),
            forall|j: int| 0 <= j < i ==> a@[j] == b@[j],
        decreases a@.len() - i,
    {
        let (ax, ay, ac) = a[i];
        let (bx, by, bc) = b[i];
        if ax != bx || ay != by || ac != bc {
            assert(a@[i as int] != b@[i as int]);
            return false;
        }
        i = i + 1;
    }
    assert(a@ =~= b@);
    true
}

/// Whether the list already holds a structurally equal pattern.
pub fn contains_piece(v: &Vec<Piece>, p: &Piece) -> (r: bool)
    ensures
        r == views_of(v@).contains(p@),
{
    let mut i: usize = 0;
    while i < v.len()
        invariant
            i <= v@.len(),
            forall|j: int| 0 <= j < i ==> views_of(v@)[j] != p@,
        decreases v@.len() - i,
    {
        if piece_eq(&v[i], p) {
            assert(views_of(v@)[i as int] == p@);
            return true;
        }
        i = i + 1;
    }
    assert(!views_of(v@).contains(p@));
    false
}

/// Build one piece's final variant list from its raw side definitions: the
/// four rotations of each side, in generation order, with empty sides
/// dropped and exact structural duplicates removed. A piece ends up with
/// between one and eight variants depending on its symmetry and on whether
/// a second (mirrored) side was supplied.
pub fn make_shape(side1: Piece, side2: Piece) -> (r: Vec<Piece>)
    requires
        coords_negatable(side1@),
        coords_negatable(side2@),
    ensures
        views_of(r@) == dedup_nonempty(rots_of(side1@) + rots_of(side2@)),
        r@.len() <= 8,
        wf_raw_side(side1@) && wf_raw_side(side2@) ==> forall|k: int|
            0 <= k < r@.len() ==> wf_variant(#[trigger] r@[k]@),
{
    let ghost all = rots_of(side1@) + rots_of(side2@);
    let rots1 = rotations(side1);
    let rots2 = rotations(side2);
    let mut patterns: Vec<Piece> = Vec::new();

    let mut i: usize = 0;
    while i < rots1.len()
        invariant
            i <= 4,
            rots1@.len() == 4,
            all.len() == 8,
            forall|j: int| 0 <= j < 4 ==> rots1@[j]@ == all[j],
            views_of(patterns@) == dedup_nonempty(all.take(i as int)),
        decreases 4 - i,
    {
        let cand = copy_piece(&rots1[i]);
        proof {
            assert(all.take(i as int + 1) =~= all.take(i as int).push(all[i as int]));
            lemma_dedup_push(all.take(i as int), all[i as int]);
        }
        if cand.len() > 0 && !contains_piece(&patterns, &cand) {
            patterns.push(cand);
            proof {
                assert(views_of(patterns@) =~= dedup_nonempty(all.take(i as int)).push(
                    all[i as int],
                ));
            }
        }
        i = i + 1;
    }

    let mut i: usize = 0;
    while i < rots2.len()
        invariant
            i <= 4,
            rots2@.len() == 4,
            all.len() == 8,
            forall|j: int| 0 <= j < 4 ==> rots2@[j]@ == all[4 + j],
            views_of(patterns@) == dedup_nonempty(all.take(4 + i as int)),
        decreases 4 - i,
    {
        let cand = copy_piece(&rots2[i]);
        proof {
            assert(all.take(4 + i as int + 1) =~= all.take(4 + i as int).push(all[4 + i as int]));
            lemma_dedup_push(all.take(4 + i as int), all[4 + i as int]);
        }
        if cand.len() > 0 && !contains_piece(&patterns, &cand) {
            patterns.push(cand);
            proof {
                assert(views_of(patterns@) =~= dedup_nonempty(all.take(4 + i as int)).push(
                    all[4 + i as int],
                ));
            }
        }
        i = i + 1;
    }

    proof {
        assert(all.take(8) =~= all);
        lemma_dedup_props(all);
        if wf_raw_side(side1@) && wf_raw_side(side2@) {
            lemma_rot_wf(side1@);
            lemma_rot_wf(side2@);
            lemma_rot_wf(rot90(side1@));
            lemma_rot_wf(rot90(side2@));
            assert forall|j: int|
                0 <= j < 8 implies distinct_offsets(#[trigger] all[j]) && bounded_offsets(all[j])
                && (all[j].len() > 0 ==> anchored(all[j])) by {
                if anchored(side1@) {
                    lemma_rot_wf(rot90(side1@));
                }
            }
            assert forall|k: int|
                0 <= k < patterns@.len() implies wf_variant(#[trigger] patterns@[k]@) by {
                assert(views_of(patterns@)[k] == patterns@[k]@);
                let e = patterns@[k]@;
                assert(all.contains(e) && e.len() > 0);
                let j = choose|j: int| 0 <= j < all.len() && all[j] == e;
            }
        }
    }
    patterns
}


/// Identities of the thirteen pieces.
pub const ID_LIGHTNING: u8 = 0;

pub const ID_BIGT: u8 = 1;

pub const ID_L: u8 = 2;

pub const ID_BIGC: u8 = 3;

pub const ID_WEIRDO: u8 = 4;

pub const ID_SMALLT: u8 = 5;

pub const ID_V: u8 = 6;

pub const ID_PLUS: u8 = 7;

pub const ID_LINE: u8 = 8;

pub const ID_S: u8 = 9;

pub const ID_HAMMER: u8 = 10;

pub const ID_STAIRS: u8 = 11;

pub const ID_GUN: u8 = 12;

/// The deduplicated variant lists of all thirteen pieces, indexed by piece
/// identity. Built once at startup, read-only thereafter.
pub struct ShapeLibrary {
    pub shapes: Vec<Vec<Piece>>,
}

impl ShapeLibrary {
    /// Every piece identity has its variant list, and every variant is a
    /// placeable pattern.
    pub open spec fn wf(&self) -> bool {
        &&& self.shapes@.len() == 13
        &&& forall|k: int, v: int|
            0 <= k < 13 && 0 <= v < self.shapes@[k]@.len() ==> wf_variant(
                #[trigger] self.shapes@[k]@[v]@,
            )
    }
}

/// Build the variant lists of all thirteen pieces from their constant raw
/// side definitions. A pure function of the constants; the result is
/// shared read-only by every worker.
pub fn shape_library() -> (r: ShapeLibrary)
    ensures
        r.wf(),
        forall|k: int|
            0 <= k < 13 ==> views_of(#[trigger] r.shapes@[k]@) == dedup_nonempty(
                rots_of(raw_sides(k).0) + rots_of(raw_sides(k).1),
            ),
        forall|k: int| 0 <= k < 13 ==> 1 <= #[trigger] r.shapes@[k]@.len() <= 8,
{
    let mut shapes: Vec<Vec<Piece>> = Vec::new();

    // x       .
    // .x.   x.x
    //   x   .
    let mut lightning_side1: Piece = Vec::new();
    lightning_side1.push((0, 0, 'x'));
    lightning_side1.push((0, -1, '.'));
    lightning_side1.push((1, -1, 'x'));
    lightning_side1.push((2, -1, '.'));
    lightning_side1.push((2, -2, 'x'));
    let mut lightning_side2: Piece = Vec::new();
    lightning_side2.push((0, 0, '.'));
    lightning_side2.push((0, -1, 'x'));
    lightning_side2.push((-1, -1, '.'));
    lightning_side2.push((-2, -1, 'x'));
    lightning_side2.push((-2, -2, '.'));
    proof {
        assert(lightning_side1@[0].0 == 0 && lightning_side1@[0].1 == 0);
        assert(wf_raw_side(lightning_side1@));
        assert(lightning_side2@[0].0 == 0 && lightning_side2@[0].1 == 0);
        assert(wf_raw_side(lightning_side2@));
    }
    let lightning = make_shape(lightning_side1, lightning_side2);
    assert(forall|v: int| 0 <= v < lightning@.len() ==> wf_variant(#[trigger] lightning@[v]@));
    let ghost lightning_pats = lightning@;
    proof {
        assert(lightning_side1@ =~= raw_sides(ID_LIGHTNING as int).0);
        assert(lightning_side2@ =~= raw_sides(ID_LIGHTNING as int).1);
        let all_rots = rots_of(raw_sides(ID_LIGHTNING as int).0) + rots_of(raw_sides(ID_LIGHTNING as int).1);
        assert(all_rots[0] == raw_sides(ID_LIGHTNING as int).0);
        lemma_dedup_keeps_first(all_rots);
        assert(views_of(lightning_pats) == dedup_nonempty(all_rots));
        assert(1 <= lightning_pats.len() <= 8);
    }
    shapes.push(lightning);

    // .x.
    //  .
    //  x
    let mut bigt_side1: Piece = Vec::new();
    bigt_side1.push((0, 0, '.'));
    bigt_side1.push((1, 0, 'x'));
    bigt_side1.push((2, 0, '.'));
    bigt_side1.push((1, -1, '.'));
    bigt_side1.push((1, -2, 'x'));
    let bigt_side2: Piece = Vec::new();
    proof {
        assert(bigt_side1@[0].0 == 0 && bigt_side1@[0].1 == 0);
        assert(wf_raw_side(bigt_side1@));
        assert(wf_raw_side(bigt_side2@));
    }
    let bigt = make_shape(bigt_side1, bigt_side2);
    assert(forall|v: int| 0 <= v < bigt@.len() ==> wf_variant(#[trigger] bigt@[v]@));
    let ghost bigt_pats = bigt@;
    proof {
        assert(bigt_side1@ =~= raw_sides(ID_BIGT as int).0);
        assert(bigt_side2@ =~= raw_sides(ID_BIGT as int).1);
        let all_rots = rots_of(raw_sides(ID_BIGT as int).0) + rots_of(raw_sides(ID_BIGT as int).1);
        assert(all_rots[0] == raw_sides(ID_BIGT as int).0);
        lemma_dedup_keeps_first(all_rots);
        assert(views_of(bigt_pats) == dedup_nonempty(all_rots));
        assert(1 <= bigt_pats.len() <= 8);
    }
    shapes.push(bigt);

    // x        .
    // .x.x  .x.x
    let mut l_side1: Piece = Vec::new();
    l_side1.push((0, 0, 'x'));
    l_side1.push((0, -1, '.'));
    l_side1.push((1, -1, 'x'));
    l_side1.push((2, -1, '.'));
    l_side1.push((3, -1, 'x'));
    let mut l_side2: Piece = Vec::new();
    l_side2.push((0, 0, '.'));
    l_side2.push((1, 0, 'x'));
    l_side2.push((2, 0, '.'));
    l_side2.push((3, 0, 'x'));
    l_side2.push((3, 1, '.'));
    proof {
        assert(l_side1@[0].0 == 0 && l_side1@[0].1 == 0);
        assert(wf_raw_side(l_side1@));
        assert(l_side2@[0].0 == 0 && l_side2@[0].1 == 0);
        assert(wf_raw_side(l_side2@));
    }
    let l = make_shape(l_side1, l_side2);
    assert(forall|v: int| 0 <= v < l@.len() ==> wf_variant(#[trigger] l@[v]@));
    let ghost l_pats = l@;
    proof {
        assert(l_side1@ =~= raw_sides(ID_L as int).0);
        assert(l_side2@ =~= raw_sides(ID_L as int).1);
        let all_rots = rots_of(raw_sides(ID_L as int).0) + rots_of(raw_sides(ID_L as int).1);
        assert(all_rots[0] == raw_sides(ID_L as int).0);
        lemma_dedup_keeps_first(all_rots);
        assert(views_of(l_pats) == dedup_nonempty(all_rots));
        assert(1 <= l_pats.len() <= 8);
    }
    shapes.push(l);

    // R.x
    // . .
    let mut bigc_side1: Piece = Vec::new();
    bigc_side1.push((0, 0, 'R'));
    bigc_side1.push((1, 0, '.'));
    bigc_side1.push((2, 0, 'x'));
    bigc_side1.push((0, -1, '.'));
    bigc_side1.push((2, -1, '.'));
    let bigc_side2: Piece = Vec::new();
    proof {
        assert(bigc_side1@[0].0 == 0 && bigc_side1@[0].1 == 0);
        assert(wf_raw_side(bigc_side1@));
        assert(wf_raw_side(bigc_side2@));
    }
    let bigc = make_shape(bigc_side1, bigc_side2);
    assert(forall|v: int| 0 <= v < bigc@.len() ==> wf_variant(#[trigger] bigc@[v]@));
    let ghost bigc_pats = bigc@;
    proof {
        assert(bigc_side1@ =~= raw_sides(ID_BIGC as int).0);
        assert(bigc_side2@ =~= raw_sides(ID_BIGC as int).1);
        let all_rots = rots_of(raw_sides(ID_BIGC as int).0) + rots_of(raw_sides(ID_BIGC as int).1);
        assert(all_rots[0] == raw_sides(ID_BIGC as int).0);
        lemma_dedup_keeps_first(all_rots);
        assert(views_of(bigc_pats) == dedup_nonempty(all_rots));
        assert(1 <= bigc_pats.len() <= 8);
    }
    shapes.push(bigc);

    //  x    .
    // x.x  .x.
    // .      x
    let mut weirdo_side1: Piece = Vec::new();
    weirdo_side1.push((0, 0, '.'));
    weirdo_side1.push((0, 1, 'x'));
    weirdo_side1.push((1, 1, '.'));
    weirdo_side1.push((2, 1, 'x'));
    weirdo_side1.push((1, 2, 'x'));
    let mut weirdo_side2: Piece = Vec::new();
    weirdo_side2.push((0, 0, 'x'));
    weirdo_side2.push((0, 1, '.'));
    weirdo_side2.push((-1, 1, 'x'));
    weirdo_side2.push((-2, 1, '.'));
    weirdo_side2.push((-1, 2, '.'));
    proof {
        assert(weirdo_side1@[0].0 == 0 && weirdo_side1@[0].1 == 0);
        assert(wf_raw_side(weirdo_side1@));
        assert(weirdo_side2@[0].0 == 0 && weirdo_side2@[0].1 == 0);
        assert(wf_raw_side(weirdo_side2@));
    }
    let weirdo = make_shape(weirdo_side1, weirdo_side2);
    assert(forall|v: int| 0 <= v < weirdo@.len() ==> wf_variant(#[trigger] weirdo@[v]@));
    let ghost weirdo_pats = weirdo@;
    proof {
        assert(weirdo_side1@ =~= raw_sides(ID_WEIRDO as int).0);
        assert(weirdo_side2@ =~= raw_sides(ID_WEIRDO as int).1);
        let all_rots = rots_of(raw_sides(ID_WEIRDO as int).0) + rots_of(raw_sides(ID_WEIRDO as int).1);
        assert(all_rots[0] == raw_sides(ID_WEIRDO as int).0);
        lemma_dedup_keeps_first(all_rots);
        assert(views_of(weirdo_pats) == dedup_nonempty(all_rots));
        assert(1 <= weirdo_pats.len() <= 8);
    }
    shapes.push(weirdo);

    // x.x
    //  x
    let mut smallt_side1: Piece = Vec::new();
    smallt_side1.push((0, 0, 'x'));
    smallt_side1.push((1, 0, '.'));
    smallt_side1.push((2, 0, 'x'));
    smallt_side1.push((1, -1, 'x'));
    let smallt_side2: Piece = Vec::new();
    proof {
        assert(smallt_side1@[0].0 == 0 && smallt_side1@[0].1 == 0);
        assert(wf_raw_side(smallt_side1@));
        assert(wf_raw_side(smallt_side2@));
    }
    let smallt = make_shape(smallt_side1, smallt_side2);
    assert(forall|v: int| 0 <= v < smallt@.len() ==> wf_variant(#[trigger] smallt@[v]@));
    let ghost smallt_pats = smallt@;
    proof {
        assert(smallt_side1@ =~= raw_sides(ID_SMALLT as int).0);
        assert(smallt_side2@ =~= raw_sides(ID_SMALLT as int).1);
        let all_rots = rots_of(raw_sides(ID_SMALLT as int).0) + rots_of(raw_sides(ID_SMALLT as int).1);
        assert(all_rots[0] == raw_sides(ID_SMALLT as int).0);
        lemma_dedup_keeps_first(all_rots);
        assert(views_of(smallt_pats) == dedup_nonempty(all_rots));
        assert(1 <= smallt_pats.len() <= 8);
    }
    shapes.push(smallt);

    // .x.
    // x
    // .
    let mut vee_side1: Piece = Vec::new();
    vee_side1.push((0, 0, '.'));
    vee_side1.push((1, 0, 'x'));
    vee_side1.push((2, 0, '.'));
    vee_side1.push((0, -1, 'x'));
    vee_side1.push((0, -2, '.'));
    let vee_side2: Piece = Vec::new();
    proof {
        assert(vee_side1@[0].0 == 0 && vee_side1@[0].1 == 0);
        assert(wf_raw_side(vee_side1@));
        assert(wf_raw_side(vee_side2@));
    }
    let vee = make_shape(vee_side1, vee_side2);
    assert(forall|k: int| 0 <= k < vee@.len() ==> wf_variant(#[trigger] vee@[k]@));
    let ghost vee_pats = vee@;
    proof {
        assert(vee_side1@ =~= raw_sides(ID_V as int).0);
        assert(vee_side2@ =~= raw_sides(ID_V as int).1);
        let all_rots = rots_of(raw_sides(ID_V as int).0) + rots_of(raw_sides(ID_V as int).1);
        assert(all_rots[0] == raw_sides(ID_V as int).0);
        lemma_dedup_keeps_first(all_rots);
        assert(views_of(vee_pats) == dedup_nonempty(all_rots));
        assert(1 <= vee_pats.len() <= 8);
    }
    shapes.push(vee);

    //  .    x
    // .x.  x.x
    //  .    x
    let mut plus_side1: Piece = Vec::new();
    plus_side1.push((0, 0, 'x'));
    plus_side1.push((1, 0, '.'));
    plus_side1.push((0, 1, '.'));
    plus_side1.push((0, -1, '.'));
    plus_side1.push((-1, 0, '.'));
    let mut plus_side2: Piece = Vec::new();
    plus_side2.push((0, 0, '.'));
    plus_side2.push((1, 0, 'x'));
    plus_side2.push((0, 1, 'x'));
    plus_side2.push((0, -1, 'x'));
    plus_side2.push((-1, 0, 'x'));
    proof {
        assert(plus_side1@[0].0 == 0 && plus_side1@[0].1 == 0);
        assert(wf_raw_side(plus_side1@));
        assert(plus_side2@[0].0 == 0 && plus_side2@[0].1 == 0);
        assert(wf_raw_side(plus_side2@));
    }
    let plus = make_shape(plus_side1, plus_side2);
    assert(forall|v: int| 0 <= v < plus@.len() ==> wf_variant(#[trigger] plus@[v]@));
    let ghost plus_pats = plus@;
    proof {
        assert(plus_side1@ =~= raw_sides(ID_PLUS as int).0);
        assert(plus_side2@ =~= raw_sides(ID_PLUS as int).1);
        let all_rots = rots_of(raw_sides(ID_PLUS as int).0) + rots_of(raw_sides(ID_PLUS as int).1);
        assert(all_rots[0] == raw_sides(ID_PLUS as int).0);
        lemma_dedup_keeps_first(all_rots);
        assert(views_of(plus_pats) == dedup_nonempty(all_rots));
        assert(1 <= plus_pats.len() <= 8);
    }
    shapes.push(plus);

    // x.x.x
    let mut line_side1: Piece = Vec::new();
    line_side1.push((0, 0, 'x'));
    line_side1.push((1, 0, '.'));
    line_side1.push((2, 0, 'x'));
    line_side1.push((3, 0, '.'));
    line_side1.push((4, 0, 'x'));
    let line_side2: Piece = Vec::new();
    proof {
        assert(line_side1@[0].0 == 0 && line_side1@[0].1 == 0);
        assert(wf_raw_side(line_side1@));
        assert(wf_raw_side(line_side2@));
    }
    let line = make_shape(line_side1, line_side2);
    assert(forall|v: int| 0 <= v < line@.len() ==> wf_variant(#[trigger] line@[v]@));
    let ghost line_pats = line@;
    proof {
        assert(line_side1@ =~= raw_sides(ID_LINE as int).0);
        assert(line_side2@ =~= raw_sides(ID_LINE as int).1);
        let all_rots = rots_of(raw_sides(ID_LINE as int).0) + rots_of(raw_sides(ID_LINE as int).1);
        assert(all_rots[0] == raw_sides(ID_LINE as int).0);
        lemma_dedup_keeps_first(all_rots);
        assert(views_of(line_pats) == dedup_nonempty(all_rots));
        assert(1 <= line_pats.len() <= 8);
    }
    shapes.push(line);

    // .x.    x.x
    //   x.  x.
    let mut s_side1: Piece = Vec::new();
    s_side1.push((0, 0, '.'));
    s_side1.push((1, 0, 'x'));
    s_side1.push((2, 0, '.'));
    s_side1.push((2, -1, 'x'));
    s_side1.push((3, -1, '.'));
    let mut s_side2: Piece = Vec::new();
    s_side2.push((0, 0, 'x'));
    s_side2.push((-1, 0, '.'));
    s_side2.push((-2, 0, 'x'));
    s_side2.push((-2, -1, '.'));
    s_side2.push((-3, -1, 'x'));
    proof {
        assert(s_side1@[0].0 == 0 && s_side1@[0].1 == 0);
        assert(wf_raw_side(s_side1@));
        assert(s_side2@[0].0 == 0 && s_side2@[0].1 == 0);
        assert(wf_raw_side(s_side2@));
    }
    let s = make_shape(s_side1, s_side2);
    assert(forall|v: int| 0 <= v < s@.len() ==> wf_variant(#[trigger] s@[v]@));
    let ghost s_pats = s@;
    proof {
        assert(s_side1@ =~= raw_sides(ID_S as int).0);
        assert(s_side2@ =~= raw_sides(ID_S as int).1);
        let all_rots = rots_of(raw_sides(ID_S as int).0) + rots_of(raw_sides(ID_S as int).1);
        assert(all_rots[0] == raw_sides(ID_S as int).0);
        lemma_dedup_keeps_first(all_rots);
        assert(views_of(s_pats) == dedup_nonempty(all_rots));
        assert(1 <= s_pats.len() <= 8);
    }
    shapes.push(s);

    // x.x.   x.x.
    //  x       .
    let mut hammer_side1: Piece = Vec::new();
    hammer_side1.push((0, 0, 'x'));
    hammer_side1.push((1, 0, '.'));
    hammer_side1.push((2, 0, 'x'));
    hammer_side1.push((3, 0, '.'));
    hammer_side1.push((1, -1, 'x'));
    let mut hammer_side2: Piece = Vec::new();
    hammer_side2.push((0, 0, 'x'));
    hammer_side2.push((1, 0, '.'));
    hammer_side2.push((2, 0, 'x'));
    hammer_side2.push((3, 0, '.'));
    hammer_side2.push((2, -1, '.'));
    proof {
        assert(hammer_side1@[0].0 == 0 && hammer_side1@[0].1 == 0);
        assert(wf_raw_side(hammer_side1@));
        assert(hammer_side2@[0].0 == 0 && hammer_side2@[0].1 == 0);
        assert(wf_raw_side(hammer_side2@));
    }
    let hammer = make_shape(hammer_side1, hammer_side2);
    assert(forall|v: int| 0 <= v < hammer@.len() ==> wf_variant(#[trigger] hammer@[v]@));
    let ghost hammer_pats = hammer@;
    proof {
        assert(hammer_side1@ =~= raw_sides(ID_HAMMER as int).0);
        assert(hammer_side2@ =~= raw_sides(ID_HAMMER as int).1);
        let all_rots = rots_of(raw_sides(ID_HAMMER as int).0) + rots_of(raw_sides(ID_HAMMER as int).1);
        assert(all_rots[0] == raw_sides(ID_HAMMER as int).0);
        lemma_dedup_keeps_first(all_rots);
        assert(views_of(hammer_pats) == dedup_nonempty(all_rots));
        assert(1 <= hammer_pats.len() <= 8);
    }
    shapes.push(hammer);

    // S.
    //  x.
    //   x
    let mut stairs_side1: Piece = Vec::new();
    stairs_side1.push((0, 0, 'S'));
    stairs_side1.push((1, 0, '.'));
    stairs_side1.push((1, -1, 'x'));
    stairs_side1.push((2, -1, '.'));
    stairs_side1.push((2, -2, 'x'));
    let stairs_side2: Piece = Vec::new();
    proof {
        assert(stairs_side1@[0].0 == 0 && stairs_side1@[0].1 == 0);
        assert(wf_raw_side(stairs_side1@));
        assert(wf_raw_side(stairs_side2@));
    }
    let stairs = make_shape(stairs_side1, stairs_side2);
    assert(forall|v: int| 0 <= v < stairs@.len() ==> wf_variant(#[trigger] stairs@[v]@));
    let ghost stairs_pats = stairs@;
    proof {
        assert(stairs_side1@ =~= raw_sides(ID_STAIRS as int).0);
        assert(stairs_side2@ =~= raw_sides(ID_STAIRS as int).1);
        let all_rots = rots_of(raw_sides(ID_STAIRS as int).0) + rots_of(raw_sides(ID_STAIRS as int).1);
        assert(all_rots[0] == raw_sides(ID_STAIRS as int).0);
        lemma_dedup_keeps_first(all_rots);
        assert(views_of(stairs_pats) == dedup_nonempty(all_rots));
        assert(1 <= stairs_pats.len() <= 8);
    }
    shapes.push(stairs);

    // D.x
    //  x.
    let mut gun_side1: Piece = Vec::new();
    gun_side1.push((0, 0, 'D'));
    gun_side1.push((1, 0, '.'));
    gun_side1.push((2, 0, 'x'));
    gun_side1.push((1, -1, 'x'));
    gun_side1.push((2, -1, '.'));
    let gun_side2: Piece = Vec::new();
    proof {
        assert(gun_side1@[0].0 == 0 && gun_side1@[0].1 == 0);
        assert(wf_raw_side(gun_side1@));
        assert(wf_raw_side(gun_side2@));
    }
    let gun = make_shape(gun_side1, gun_side2);
    assert(forall|v: int| 0 <= v < gun@.len() ==> wf_variant(#[trigger] gun@[v]@));
    let ghost gun_pats = gun@;
    proof {
        assert(gun_side1@ =~= raw_sides(ID_GUN as int).0);
        assert(gun_side2@ =~= raw_sides(ID_GUN as int).1);
        let all_rots = rots_of(raw_sides(ID_GUN as int).0) + rots_of(raw_sides(ID_GUN as int).1);
        assert(all_rots[0] == raw_sides(ID_GUN as int).0);
        lemma_dedup_keeps_first(all_rots);
        assert(views_of(gun_pats) == dedup_nonempty(all_rots));
        assert(1 <= gun_pats.len() <= 8);
    }
    shapes.push(gun);

    assert(shapes@.len() == 13);
    let lib = ShapeLibrary { shapes };
    assert forall|k: int, v: int|
        0 <= k < 13 && 0 <= v < lib.shapes@[k]@.len() implies wf_variant(
        #[trigger] lib.shapes@[k]@[v]@,
    ) by {
    }
    proof {
        assert(lib.shapes@[ID_LIGHTNING as int]@ == lightning_pats);
        assert(lib.shapes@[ID_BIGT as int]@ == bigt_pats);
        assert(lib.shapes@[ID_L as int]@ == l_pats);
        assert(lib.shapes@[ID_BIGC as int]@ == bigc_pats);
        assert(lib.shapes@[ID_WEIRDO as int]@ == weirdo_pats);
        assert(lib.shapes@[ID_SMALLT as int]@ == smallt_pats);
        assert(lib.shapes@[ID_V as int]@ == vee_pats);
        assert(lib.shapes@[ID_PLUS as int]@ == plus_pats);
        assert(lib.shapes@[ID_LINE as int]@ == line_pats);
        assert(lib.shapes@[ID_S as int]@ == s_pats);
        assert(lib.shapes@[ID_HAMMER as int]@ == hammer_pats);
        assert(lib.shapes@[ID_STAIRS as int]@ == stairs_pats);
        assert(lib.shapes@[ID_GUN as int]@ == gun_pats);
        assert forall|k: int|
            0 <= k < 13 implies views_of(#[trigger] lib.shapes@[k]@) == dedup_nonempty(
            rots_of(raw_sides(k).0) + rots_of(raw_sides(k).1),
        ) && 1 <= lib.shapes@[k]@.len() <= 8 by {
        }
    }
    lib
}

} // verus!
