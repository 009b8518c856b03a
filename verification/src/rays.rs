use crate::board::{col, playable, row, Field, Piece};
use vstd::prelude::*;

verus! {

/// The field at index `i` of a padded board; everything off the array reads as a sentinel.
pub open spec fn fld(f: Seq<Field>, i: int) -> Field {
    if 0 <= i < f.len() {
        f[i]
    } else {
        Field::Invincible
    }
}

/// A padded board: 120 fields, sentinels exactly on the squares that are not playable.
pub open spec fn shaped(f: Seq<Field>) -> bool {
    &&& f.len() == 120
    &&& forall|i: int| 0 <= i < 120 ==> ((#[trigger] f[i]) == Field::Invincible <==> !playable(i))
}

/// The eight single steps of a king or of a sliding piece, as index differences.
pub open spec fn is_step(d: int) -> bool {
    d == 1 || d == -1 || d == 10 || d == -10 || d == 9 || d == -9 || d == 11 || d == -11
}

/// Steps along a rank or a file.
pub open spec fn is_straight(d: int) -> bool {
    d == 1 || d == -1 || d == 10 || d == -10
}

/// Steps along a diagonal.
pub open spec fn is_diagonal(d: int) -> bool {
    d == 9 || d == -9 || d == 11 || d == -11
}

/// The eight jumps of a knight, as index differences.
pub open spec fn is_jump(d: int) -> bool {
    d == 8 || d == -8 || d == 12 || d == -12 || d == 19 || d == -19 || d == 21 || d == -21
}

/// Change of column made by the step `d`.
pub open spec fn dx(d: int) -> int {
    if d == 1 || d == 11 || d == -9 {
        1
    } else if d == -1 || d == -11 || d == 9 {
        -1
    } else {
        0
    }
}

/// Change of row made by the step `d`.
pub open spec fn dy(d: int) -> int {
    if d == 10 || d == 11 || d == 9 {
        1
    } else if d == -10 || d == -11 || d == -9 {
        -1
    } else {
        0
    }
}

/// How many steps of `d` can be made from `a` before leaving the playable squares.
pub open spec fn room(a: int, d: int) -> int {
    let rx = if dx(d) > 0 {
        8 - col(a)
    } else if dx(d) < 0 {
        col(a) - 1
    } else {
        8
    };
    let ry = if dy(d) > 0 {
        9 - row(a)
    } else if dy(d) < 0 {
        row(a) - 2
    } else {
        8
    };
    if rx < ry {
        rx
    } else {
        ry
    }
}

/// How many steps of `d` lead from `a` to `s`, where `s` lies on that line.
pub open spec fn steps(a: int, d: int, s: int) -> int {
    if dx(d) > 0 {
        col(s) - col(a)
    } else if dx(d) < 0 {
        col(a) - col(s)
    } else if dy(d) > 0 {
        row(s) - row(a)
    } else {
        row(a) - row(s)
    }
}

/// `s` lies ahead of `a` on the line through `a` in direction `d`, both on playable squares.
pub open spec fn on_line(a: int, d: int, s: int) -> bool {
    let k = steps(a, d, s);
    &&& is_step(d)
    &&& playable(a)
    &&& playable(s)
    &&& k >= 1
    &&& (dx(d) == 0 ==> col(s) == col(a))
    &&& (dx(d) > 0 ==> col(s) - col(a) == k)
    &&& (dx(d) < 0 ==> col(a) - col(s) == k)
    &&& (dy(d) == 0 ==> row(s) == row(a))
    &&& (dy(d) > 0 ==> row(s) - row(a) == k)
    &&& (dy(d) < 0 ==> row(a) - row(s) == k)
}

/// `s` is reached from `a` by steps of `d`, all squares before `s` being empty: the
/// squares that a sliding piece on `a` attacks in direction `d`.
pub open spec fn ray_hits(f: Seq<Field>, a: int, d: int, s: int) -> bool
    decreases room(a, d),
{
    if is_step(d) && playable(a) && playable(a + d) {
        a + d == s || (fld(f, a + d) == Field::Empty && ray_hits(f, a + d, d, s))
    } else {
        false
    }
}

/// Whether a piece of kind `p` slides in direction `d`.
pub open spec fn slides(p: Piece, d: int) -> bool {
    match p {
        Piece::Queen => is_step(d),
        Piece::Rook => is_straight(d),
        Piece::Bishop => is_diagonal(d),
        _ => false,
    }
}

/// Whether what stands on a field slides in direction `d`.
pub open spec fn field_slides(x: Field, d: int) -> bool {
    match x {
        Field::WhitePiece(p) | Field::BlackPiece(p) => slides(p, d),
        _ => false,
    }
}

/// The piece on `t` slides in direction `d` and reaches `s` that way.
pub open spec fn slide_hits(f: Seq<Field>, t: int, d: int, s: int) -> bool {
    field_slides(fld(f, t), d) && ray_hits(f, t, d, s)
}

/// The piece on `t` reaches `s` by sliding in one of the eight directions.
pub open spec fn slider_attacks(f: Seq<Field>, t: int, s: int) -> bool {
    slide_hits(f, t, 1, s) || slide_hits(f, t, -1, s) || slide_hits(f, t, 10, s) || slide_hits(
        f,
        t,
        -10,
        s,
    ) || slide_hits(f, t, 9, s) || slide_hits(f, t, -9, s) || slide_hits(f, t, 11, s)
        || slide_hits(f, t, -11, s)
}

/// The piece on `t` attacks `s` without sliding: a knight's jump, a king's step, or
/// one of the two diagonal steps forward of a pawn.
pub open spec fn leaper_attacks(f: Seq<Field>, t: int, s: int) -> bool {
    match fld(f, t) {
        Field::WhitePiece(Piece::Knight) | Field::BlackPiece(Piece::Knight) => is_jump(s - t),
        Field::WhitePiece(Piece::Pawn) => s - t == 9 || s - t == 11,
        Field::BlackPiece(Piece::Pawn) => s - t == -9 || s - t == -11,
        Field::WhiteKing | Field::BlackKing => is_step(s - t),
        _ => false,
    }
}

/// The piece or king on `t` could, king safety aside, move to or capture on `s`.
pub open spec fn attacks(f: Seq<Field>, t: int, s: int) -> bool {
    playable(t) && playable(s) && (slider_attacks(f, t, s) || leaper_attacks(f, t, s))
}

/// One step from a playable square: where it lands and how much room is left.
pub proof fn lemma_step(a: int, d: int)
    requires
        playable(a),
        is_step(d),
    ensures
        playable(a + d) <==> room(a, d) >= 1,
        room(a, d) >= 0,
        playable(a + d) ==> room(a + d, d) == room(a, d) - 1,
        playable(a + d) ==> col(a + d) == col(a) + dx(d) && row(a + d) == row(a) + dy(d),
        playable(a + d) ==> on_line(a, d, a + d) && steps(a, d, a + d) == 1,
{
}

/// A square hit along a ray lies ahead on the line of that ray.
pub proof fn lemma_hits_on_line(f: Seq<Field>, a: int, d: int, s: int)
    requires
        ray_hits(f, a, d, s),
    ensures
        on_line(a, d, s),
    decreases room(a, d),
{
    lemma_step(a, d);
    if a + d != s {
        lemma_hits_on_line(f, a + d, d, s);
    }
}

/// Two squares on one line from `a`, the same number of steps away, are one square.
pub proof fn lemma_line_point(a: int, d: int, u: int, v: int)
    requires
        on_line(a, d, u),
        on_line(a, d, v),
        steps(a, d, u) == steps(a, d, v),
    ensures
        u == v,
{
}

/// A square lies ahead of another in at most one direction.
pub proof fn lemma_line_direction(a: int, d1: int, d2: int, s: int)
    requires
        on_line(a, d1, s),
        on_line(a, d2, s),
    ensures
        d1 == d2,
{
}

/// Lines compose: what lies ahead of a square ahead lies ahead.
pub proof fn lemma_line_trans(a: int, d: int, m: int, s: int)
    requires
        on_line(a, d, m),
        on_line(m, d, s),
    ensures
        on_line(a, d, s),
        steps(a, d, s) == steps(a, d, m) + steps(m, d, s),
{
}

/// A ray depends only on which squares ahead of its origin are empty.
pub proof fn lemma_hits_frame(f: Seq<Field>, g: Seq<Field>, a: int, d: int, s: int)
    requires
        forall|i: int| on_line(a, d, i) ==> (fld(f, i) == Field::Empty <==> fld(g, i) == Field::Empty),
    ensures
        ray_hits(f, a, d, s) == ray_hits(g, a, d, s),
    decreases room(a, d),
{
    if is_step(d) && playable(a) && playable(a + d) {
        lemma_step(a, d);
        assert(on_line(a, d, a + d));
        assert forall|i: int| on_line(a + d, d, i) implies (fld(f, i) == Field::Empty <==> fld(g, i)
            == Field::Empty) by {
            lemma_line_trans(a, d, a + d, i);
        }
        lemma_hits_frame(f, g, a + d, d, s);
    }
}

/// A ray stops at the first square that is not empty: nothing beyond it is hit.
pub proof fn lemma_hits_stop(f: Seq<Field>, a: int, d: int, x: int, s: int)
    requires
        ray_hits(f, a, d, x),
        fld(f, x) != Field::Empty,
        ray_hits(f, a, d, s),
    ensures
        steps(a, d, s) <= steps(a, d, x),
    decreases room(a, d),
{
    lemma_step(a, d);
    lemma_hits_on_line(f, a, d, x);
    lemma_hits_on_line(f, a, d, s);
    if a + d != x && a + d != s {
        lemma_hits_stop(f, a + d, d, x, s);
        lemma_hits_on_line(f, a + d, d, x);
        lemma_hits_on_line(f, a + d, d, s);
    }
}

/// Every square strictly between the origin of a ray and a square it hits is empty.
pub proof fn lemma_hits_between(f: Seq<Field>, a: int, d: int, m: int, s: int)
    requires
        ray_hits(f, a, d, s),
        on_line(a, d, m),
        steps(a, d, m) < steps(a, d, s),
    ensures
        fld(f, m) == Field::Empty,
        ray_hits(f, m, d, s),
        ray_hits(f, a, d, m),
    decreases room(a, d),
{
    lemma_step(a, d);
    lemma_hits_on_line(f, a, d, s);
    if a + d == m {
    } else {
        assert(a + d != s);
        lemma_hits_on_line(f, a + d, d, s);
        lemma_hits_between(f, a + d, d, m, s);
    }
}

/// A ray that hits `m`, an empty square, goes on from there.
pub proof fn lemma_hits_extend(f: Seq<Field>, a: int, d: int, m: int, s: int)
    requires
        ray_hits(f, a, d, m),
        fld(f, m) == Field::Empty,
        ray_hits(f, m, d, s),
    ensures
        ray_hits(f, a, d, s),
    decreases room(a, d),
{
    if a + d != m {
        lemma_hits_extend(f, a + d, d, m, s);
    }
}

/// Seen from a square, at most one occupied square hits it along a given direction.
pub proof fn lemma_hits_unique(f: Seq<Field>, t1: int, t2: int, d: int, s: int)
    requires
        ray_hits(f, t1, d, s),
        ray_hits(f, t2, d, s),
        fld(f, t1) != Field::Empty,
        fld(f, t2) != Field::Empty,
    ensures
        t1 == t2,
{
    lemma_hits_on_line(f, t1, d, s);
    lemma_hits_on_line(f, t2, d, s);
    let k1 = steps(t1, d, s);
    let k2 = steps(t2, d, s);
    if k1 > k2 {
        assert(on_line(t1, d, t2));
        lemma_hits_between(f, t1, d, t2, s);
    } else if k2 > k1 {
        assert(on_line(t2, d, t1));
        lemma_hits_between(f, t2, d, t1, s);
    }
}

/// Emptying the occupied square `x` lets every ray that stopped there run on, and
/// changes no other ray.
pub proof fn lemma_hits_lift(f: Seq<Field>, x: int, a: int, d: int, s: int)
    requires
        f.len() == 120,
        playable(x),
        fld(f, x) != Field::Empty,
        a != x,
    ensures
        ray_hits(f.update(x, Field::Empty), a, d, s) <==> ray_hits(f, a, d, s) || (ray_hits(
            f,
            a,
            d,
            x,
        ) && ray_hits(f, x, d, s)),
    decreases room(a, d),
{
    let g = f.update(x, Field::Empty);
    if is_step(d) && playable(a) && playable(a + d) {
        lemma_step(a, d);
        if a + d == x {
            assert forall|i: int| on_line(x, d, i) implies (fld(f, i) == Field::Empty <==> fld(g, i)
                == Field::Empty) by {}
            lemma_hits_frame(f, g, x, d, s);
        } else {
            lemma_hits_lift(f, x, a + d, d, s);
        }
    }
}

/// Rays that start on `x` do not see what stands on `x`.
pub proof fn lemma_hits_from(f: Seq<Field>, x: int, v: Field, d: int, s: int)
    requires
        f.len() == 120,
    ensures
        ray_hits(f.update(x, v), x, d, s) == ray_hits(f, x, d, s),
{
    let g = f.update(x, v);
    assert forall|i: int| on_line(x, d, i) implies (fld(f, i) == Field::Empty <==> fld(g, i)
        == Field::Empty) by {}
    lemma_hits_frame(f, g, x, d, s);
}

/// Putting something on the empty square `x` cuts every ray that ran through it,
/// and changes no other ray.
pub proof fn lemma_hits_place(f: Seq<Field>, x: int, v: Field, a: int, d: int, s: int)
    requires
        f.len() == 120,
        playable(x),
        fld(f, x) == Field::Empty,
        v != Field::Empty,
        a != x,
    ensures
        ray_hits(f.update(x, v), a, d, s) <==> ray_hits(f, a, d, s) && !(ray_hits(f, a, d, x)
            && ray_hits(f, x, d, s)),
        ray_hits(f.update(x, v), a, d, x) == ray_hits(f, a, d, x),
{
    let g = f.update(x, v);
    assert(g.update(x, Field::Empty) =~= f);
    lemma_hits_lift(g, x, a, d, s);
    lemma_hits_lift(g, x, a, d, x);
    lemma_hits_from(f, x, v, d, s);
    lemma_hits_from(f, x, v, d, x);
    if ray_hits(f, x, d, x) {
        lemma_hits_on_line(f, x, d, x);
    }
    if ray_hits(g, a, d, s) && ray_hits(g, a, d, x) && ray_hits(g, x, d, s) {
        lemma_hits_stop(g, a, d, x, s);
        lemma_hits_on_line(g, a, d, x);
        lemma_hits_on_line(g, x, d, s);
        lemma_line_trans(a, d, x, s);
    }
}

/// The step that leads from `t` towards `s`: the signs of the changes of column and row.
pub open spec fn approach(t: int, s: int) -> int {
    let sx: int = if col(s) > col(t) {
        1
    } else if col(s) < col(t) {
        -1
    } else {
        0
    };
    let sy: int = if row(s) > row(t) {
        1
    } else if row(s) < row(t) {
        -1
    } else {
        0
    };
    sx + 10 * sy
}

/// Towards a square ahead on a line, the step is the direction of the line.
pub proof fn lemma_approach(t: int, d: int, s: int)
    requires
        on_line(t, d, s),
    ensures
        approach(t, s) == d,
{
}

/// The slider on `c` reaches `x` in direction `d`, and `s` lies on the ray that goes on
/// from `x` in that direction.
pub open spec fn through(f: Seq<Field>, x: int, c: int, d: int, s: int) -> bool {
    slide_hits(f, c, d, x) && ray_hits(f, x, d, s)
}

/// `s` is one of the squares that the slider on `c` would reach past `x`, were `x` empty.
pub open spec fn extends(f: Seq<Field>, x: int, c: int, s: int) -> bool {
    playable(c) && (through(f, x, c, 1, s) || through(f, x, c, -1, s) || through(f, x, c, 10, s)
        || through(f, x, c, -10, s) || through(f, x, c, 9, s) || through(f, x, c, -9, s)
        || through(f, x, c, 11, s) || through(f, x, c, -11, s))
}

/// The direction in which a slider passes a square is the one in which it reaches
/// anything beyond it.
pub proof fn lemma_through_direction(f: Seq<Field>, x: int, c: int, d1: int, d2: int, s: int)
    requires
        through(f, x, c, d1, s),
        ray_hits(f, c, d2, s),
    ensures
        d1 == d2,
{
    lemma_hits_on_line(f, c, d1, x);
    lemma_hits_on_line(f, x, d1, s);
    lemma_hits_on_line(f, c, d2, s);
    lemma_line_trans(c, d1, x, s);
    lemma_line_direction(c, d1, d2, s);
}

/// Emptying the occupied square `x`: each piece attacks what it attacked before, and
/// the sliders that reached `x` also what lies on their ray past it.
pub proof fn lemma_attacks_lift(f: Seq<Field>, x: int, c: int, s: int)
    requires
        f.len() == 120,
        playable(x),
        fld(f, x) != Field::Empty,
        c != x,
    ensures
        attacks(f.update(x, Field::Empty), c, s) <==> attacks(f, c, s) || extends(f, x, c, s),
{
    let g = f.update(x, Field::Empty);
    assert(fld(g, c) == fld(f, c));
    assert forall|d: int| #[trigger]
        ray_hits(g, c, d, s) <==> ray_hits(f, c, d, s) || (ray_hits(f, c, d, x) && ray_hits(
            f,
            x,
            d,
            s,
        )) by {
        lemma_hits_lift(f, x, c, d, s);
    }
    assert forall|d: int| ray_hits(f, x, d, s) implies playable(s) by {
        lemma_hits_on_line(f, x, d, s);
    }
    assert forall|d: int| ray_hits(f, c, d, x) implies playable(c) by {
        lemma_hits_on_line(f, c, d, x);
    }
}

/// Putting a piece on the empty square `x`: each other piece attacks what it attacked
/// before, but for the sliders that ran through `x`, which lose what lies past it.
pub proof fn lemma_attacks_place(f: Seq<Field>, x: int, v: Field, c: int, s: int)
    requires
        f.len() == 120,
        playable(x),
        fld(f, x) == Field::Empty,
        v != Field::Empty,
        c != x,
    ensures
        attacks(f.update(x, v), c, s) <==> attacks(f, c, s) && !extends(f, x, c, s),
{
    let g = f.update(x, v);
    assert(fld(g, c) == fld(f, c));
    assert forall|d: int| #[trigger]
        ray_hits(g, c, d, s) <==> ray_hits(f, c, d, s) && !(ray_hits(f, c, d, x) && ray_hits(
            f,
            x,
            d,
            s,
        )) by {
        lemma_hits_place(f, x, v, c, d, s);
    }
    assert forall|d1: int, d2: int| through(f, x, c, d1, s) && ray_hits(f, c, d2, s) implies d1
        == d2 by {
        lemma_through_direction(f, x, c, d1, d2, s);
    }
}

/// Replacing what stands on an occupied square by something else changes no attack
/// of any other piece.
pub proof fn lemma_attacks_replace(f: Seq<Field>, x: int, v: Field, c: int, s: int)
    requires
        f.len() == 120,
        playable(x),
        fld(f, x) != Field::Empty,
        v != Field::Empty,
        c != x,
    ensures
        attacks(f.update(x, v), c, s) <==> attacks(f, c, s),
{
    let g = f.update(x, v);
    assert(fld(g, c) == fld(f, c));
    assert forall|d: int| #[trigger] ray_hits(g, c, d, s) == ray_hits(f, c, d, s) by {
        assert forall|i: int| on_line(c, d, i) implies (fld(f, i) == Field::Empty <==> fld(g, i)
            == Field::Empty) by {}
        lemma_hits_frame(f, g, c, d, s);
    }
}

/// Whether a field holds a knight.
pub open spec fn is_knight(x: Field) -> bool {
    x == Field::WhitePiece(Piece::Knight) || x == Field::BlackPiece(Piece::Knight)
}

/// A number from 0 to 7 for each of the eight steps.
pub open spec fn step_slot(d: int) -> int {
    if d == 1 {
        0
    } else if d == -1 {
        1
    } else if d == 10 {
        2
    } else if d == -10 {
        3
    } else if d == 9 {
        4
    } else if d == -9 {
        5
    } else if d == 11 {
        6
    } else {
        7
    }
}

/// A number from 8 to 15 for each of the eight jumps of a knight.
pub open spec fn jump_slot(e: int) -> int {
    if e == 8 {
        8
    } else if e == -8 {
        9
    } else if e == 12 {
        10
    } else if e == -12 {
        11
    } else if e == 19 {
        12
    } else if e == -19 {
        13
    } else if e == 21 {
        14
    } else {
        15
    }
}

/// The place, one of sixteen, from which the piece on `t` attacks `s`: one of the
/// eight lines through `s`, or one of the eight jumps that end on it.
pub open spec fn slot(f: Seq<Field>, s: int, t: int) -> int {
    if is_knight(fld(f, t)) {
        jump_slot(s - t)
    } else {
        step_slot(approach(t, s))
    }
}

/// An attacker that is no knight reaches the attacked square along a ray.
pub proof fn lemma_attack_ray(f: Seq<Field>, t: int, s: int)
    requires
        attacks(f, t, s),
        !is_knight(fld(f, t)),
    ensures
        is_step(approach(t, s)),
        ray_hits(f, t, approach(t, s), s),
        fld(f, t) != Field::Empty,
{
    if leaper_attacks(f, t, s) {
        let d = s - t;
        lemma_step(t, d);
        lemma_approach(t, d, s);
    } else {
        assert forall|d: int| ray_hits(f, t, d, s) implies approach(t, s) == d by {
            lemma_hits_on_line(f, t, d, s);
            lemma_approach(t, d, s);
        }
    }
}

/// Two pieces that attack one square do so from different places.
pub proof fn lemma_slot_injective(f: Seq<Field>, s: int, t1: int, t2: int)
    requires
        attacks(f, t1, s),
        attacks(f, t2, s),
        slot(f, s, t1) == slot(f, s, t2),
    ensures
        t1 == t2,
{
    if is_knight(fld(f, t1)) {
    } else {
        lemma_attack_ray(f, t1, s);
        if !is_knight(fld(f, t2)) {
            lemma_attack_ray(f, t2, s);
            lemma_hits_unique(f, t1, t2, approach(t1, s), s);
        }
    }
}

/// No square has more than sixteen attackers.
pub proof fn lemma_attackers_bound(f: Seq<Field>, s: int, q: Seq<int>)
    requires
        q.no_duplicates(),
        forall|i: int| 0 <= i < q.len() ==> attacks(f, #[trigger] q[i], s),
    ensures
        q.len() <= 16,
{
    let r = q.map_values(|t: int| slot(f, s, t));
    assert forall|i: int, j: int| 0 <= i < r.len() && 0 <= j < r.len() && i != j implies r[i]
        != r[j] by {
        assert(attacks(f, q[i], s));
        assert(attacks(f, q[j], s));
        if r[i] == r[j] {
            lemma_slot_injective(f, s, q[i], q[j]);
        }
    }
    r.unique_seq_to_set();
    assert forall|v: int| r.to_set().contains(v) implies vstd::set_lib::set_int_range(
        0,
        16,
    ).contains(v) by {
        let i = choose|i: int| 0 <= i < r.len() && r[i] == v;
        assert(attacks(f, q[i], s));
        if !is_knight(fld(f, q[i])) {
            lemma_attack_ray(f, q[i], s);
        }
    }
    vstd::set_lib::lemma_int_range(0, 16);
    vstd::set_lib::lemma_len_subset(r.to_set(), vstd::set_lib::set_int_range(0, 16));
}

/// A slider that reaches the occupied square `x` attacks nothing on its ray past `x`.
pub proof fn lemma_blocked(f: Seq<Field>, x: int, c: int, d: int, s: int)
    requires
        slide_hits(f, c, d, x),
        fld(f, x) != Field::Empty,
        ray_hits(f, x, d, s),
    ensures
        !attacks(f, c, s),
{
    if attacks(f, c, s) {
        assert forall|d2: int| ray_hits(f, c, d2, s) implies d2 == d by {
            lemma_through_direction(f, x, c, d, d2, s);
        }
        assert(ray_hits(f, c, d, s));
        lemma_hits_stop(f, c, d, x, s);
        lemma_hits_on_line(f, c, d, x);
        lemma_hits_on_line(f, x, d, s);
        lemma_line_trans(c, d, x, s);
    }
}

/// For a slider that reaches `x` in direction `d`, the squares it would reach past `x`
/// are those on the ray from `x` in that direction.
pub proof fn lemma_extends_ray(f: Seq<Field>, x: int, c: int, d: int, s: int)
    requires
        playable(c),
        is_step(d),
        slide_hits(f, c, d, x),
    ensures
        extends(f, x, c, s) <==> ray_hits(f, x, d, s),
{
    assert forall|d2: int| ray_hits(f, c, d2, x) implies d2 == d by {
        lemma_hits_on_line(f, c, d2, x);
        lemma_hits_on_line(f, c, d, x);
        lemma_line_direction(c, d, d2, x);
    }
}

/// A slider that attacks a square reaches it in the direction that leads towards it.
pub proof fn lemma_slider_direction(f: Seq<Field>, c: int, x: int)
    requires
        attacks(f, c, x),
        fld(f, c).piece() == Some(Piece::Queen) || fld(f, c).piece() == Some(Piece::Rook) || fld(
            f,
            c,
        ).piece() == Some(Piece::Bishop),
    ensures
        is_step(approach(c, x)),
        slide_hits(f, c, approach(c, x), x),
{
    assert forall|d: int| ray_hits(f, c, d, x) implies approach(c, x) == d by {
        lemma_hits_on_line(f, c, d, x);
        lemma_approach(c, d, x);
    }
}

} // verus!
