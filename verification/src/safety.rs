use crate::board::{col, playable, row, sq, Board, Color, CommonCoord, Field, Piece, Position};
use crate::kingmoves::{
    behind_attacked, castle_to_left, castle_to_right, king_moves, king_step, king_steps,
    threatened,
};
use crate::legal::{
    lemma_legal_moves, 
    blocks_or_takes, candidate_moves, checker, in_check, keeps_pin, legal_moves, lemma_aggressors,
    lemma_pin_direction, off_line, only_checker, pin_blocks, pin_entry, saves, saves_check,
    sole_checker,
};
use crate::movegen::{piece_moves, takeable};
use crate::moves::{
    apply_move, lemma_king_after, move_ok, moved_fields, promoted, Castle, Move, MoveType,
};
use crate::pins::{first_piece, lemma_hits_reverse, pin_on, pins_square};
use crate::rays::{
    approach, attacks, extends, fld, is_step, lemma_attacks_lift, lemma_attacks_place,
    lemma_attacks_replace, lemma_hits_between, lemma_hits_lift, lemma_hits_on_line,
    lemma_hits_stop, lemma_line_point, lemma_slider_direction, lemma_step, on_line, ray_hits,
    room, shaped, slide_hits, steps, through,
};
use crate::shape::{
    every, glider, glides, is_castling, is_passing, jumper, lands, lemma_every_concat,
    lemma_every_filter, lemma_piece_shape,
};
use crate::threat::{is_slider, Direction};
use vstd::prelude::*;

verus! {

/// After a piece has gone from `s` to `e`, a piece on another square attacks `k`
/// exactly if it did before or does now that `s` is empty, and the piece on `e`
/// does not stand in its way.
pub proof fn lemma_attack_after(f: Seq<Field>, s: int, e: int, v: Field, t: int, k: int)
    requires
        f.len() == 120,
        playable(s),
        playable(e),
        fld(f, s) != Field::Empty,
        v != Field::Empty,
        e != s,
        t != s,
        t != e,
    ensures
        attacks(f.update(s, Field::Empty).update(e, v), t, k) <==> (attacks(f, t, k) || extends(
            f,
            s,
            t,
            k,
        )) && !(fld(f, e) == Field::Empty && extends(f.update(s, Field::Empty), e, t, k)),
{
    let f1 = f.update(s, Field::Empty);
    lemma_attacks_lift(f, s, t, k);
    assert(fld(f1, e) == fld(f, e));
    if fld(f, e) == Field::Empty {
        lemma_attacks_place(f1, e, v, t, k);
    } else {
        lemma_attacks_replace(f1, e, v, t, k);
    }
}

/// The first piece on a way is the occupied square that the ray along the way hits.
pub proof fn lemma_hit_is_first(f: Seq<Field>, a: int, d: int, h: int)
    requires
        ray_hits(f, a, d, h),
        fld(f, h) != Field::Empty,
    ensures
        first_piece(f, a, d) == Some(h),
    decreases room(a, d),
{
    lemma_step(a, d);
    if a + d != h {
        lemma_hit_is_first(f, a + d, d, h);
    }
}

/// A move that lands between a slider and the king it attacks, while another piece
/// leaves its square, stands in the way of the slider.
pub proof fn lemma_answer_blocks(f: Seq<Field>, k: int, t: int, s: int, e: int)
    requires
        f.len() == 120,
        playable(s),
        fld(f, s) != Field::Empty,
        fld(f, k) != Field::Empty,
        is_slider(fld(f, t)),
        attacks(f, t, k),
        attacks(f, t, e),
        approach(t, e) == approach(t, k),
        e != k,
        e != s,
        t != s,
        k != s,
    ensures
        fld(f, e) == Field::Empty,
        extends(f.update(s, Field::Empty), e, t, k),
{
    let d = approach(t, k);
    let f1 = f.update(s, Field::Empty);
    lemma_slider_direction(f, t, k);
    lemma_slider_direction(f, t, e);
    lemma_hits_stop(f, t, d, k, e);
    lemma_hits_on_line(f, t, d, k);
    lemma_hits_on_line(f, t, d, e);
    if steps(t, d, e) == steps(t, d, k) {
        lemma_line_point(t, d, e, k);
    }
    lemma_hits_between(f, t, d, e, k);
    lemma_hits_lift(f, s, t, d, e);
    lemma_hits_lift(f, s, e, d, k);
    assert(fld(f1, t) == fld(f, t));
    assert(through(f1, e, t, d, k));
}

/// A slider of the other side that would attack the king if the king's own piece
/// on `s` were gone pins that piece.
pub proof fn lemma_discovery_is_pin(f: Seq<Field>, k: int, color: Color, s: int, t: int, d: int)
    requires
        f.len() == 120,
        is_step(d),
        through(f, s, t, d, k),
        fld(f, s).owner() == Some(color),
        fld(f, t).owner() == Some(color.opposite()),
    ensures
        pin_on(f, k, color, -d) == Some((s, t)),
{
    lemma_hits_reverse(f, s, d, k);
    lemma_hits_reverse(f, t, d, s);
    lemma_hit_is_first(f, k, -d, s);
    lemma_hit_is_first(f, s, -d, t);
}

/// A move along a line from `s` that does not leave the line of a pin runs in the
/// direction of the pin or against it.
pub proof fn lemma_on_pin_line(s: int, e: int, d: int, dir: Direction)
    requires
        on_line(s, d, e),
        !off_line(s, e, dir),
    ensures
        d == dir.step() || d == -dir.step(),
{
}

/// A pinned piece that glides along the line of its pin, and neither captures the
/// attacker nor the king, stands in the way of the attacker afterwards.
pub proof fn lemma_pinned_move_blocks(f: Seq<Field>, k: int, s: int, t: int, e: int, d: int, d2: int)
    requires
        f.len() == 120,
        playable(s),
        is_step(d),
        through(f, s, t, d, k),
        fld(f, s) != Field::Empty,
        fld(f, k) != Field::Empty,
        fld(f, t) != Field::Empty,
        ray_hits(f, s, d2, e),
        d2 == d || d2 == -d,
        e != t,
        e != k,
    ensures
        fld(f, e) == Field::Empty,
        extends(f.update(s, Field::Empty), e, t, k),
{
    let f1 = f.update(s, Field::Empty);
    lemma_hits_on_line(f, t, d, s);
    lemma_hits_on_line(f, s, d, k);
    lemma_hits_on_line(f, s, d2, e);
    assert(fld(f1, t) == fld(f, t));
    if d2 == d {
        lemma_hits_stop(f, s, d, k, e);
        if steps(s, d, e) == steps(s, d, k) {
            lemma_line_point(s, d, e, k);
        }
        lemma_hits_between(f, s, d, e, k);
        lemma_hits_lift(f, s, t, d, e);
        lemma_hits_lift(f, s, e, d, k);
        assert(through(f1, e, t, d, k));
    } else {
        lemma_hits_reverse(f, t, d, s);
        lemma_hits_on_line(f, s, -d, t);
        lemma_hits_stop(f, s, -d, t, e);
        if steps(s, -d, e) == steps(s, -d, t) {
            lemma_line_point(s, -d, e, t);
        }
        lemma_hits_between(f, s, -d, e, t);
        lemma_hits_reverse(f, e, -d, t);
        lemma_hits_reverse(f, s, -d, e);
        lemma_hits_on_line(f, e, -d, t);
        lemma_hits_lift(f, s, t, d, e);
        lemma_hits_lift(f, s, e, d, k);
        assert(through(f1, e, t, d, k));
    }
}

/// The direction whose step is `d`.
pub open spec fn direction_of(d: int) -> Direction {
    if d == 10 {
        Direction::Up
    } else if d == -10 {
        Direction::Down
    } else if d == -1 {
        Direction::Left
    } else if d == 1 {
        Direction::Right
    } else if d == 9 {
        Direction::UpLeft
    } else if d == 11 {
        Direction::UpRight
    } else if d == -11 {
        Direction::DownLeft
    } else {
        Direction::DownRight
    }
}

/// What is known of a move that the generator offers for a piece that is no king:
/// it lands as its kind asks; it glides to its end unless it is the jump of a
/// knight; the pin index lets it pass; and it answers the check if the king is in
/// check.
pub proof fn lemma_offered_piece_move(b: Board, color: Color, s: int, m: Move)
    requires
        b.wf(),
        playable(s),
        fld(b.fields(), s).piece().is_some(),
        fld(b.fields(), s).owner() == Some(color),
        legal_moves(b@, color, s).contains(m),
    ensures
        lands(b.fields(), color, s, m),
        fld(b.fields(), s).piece() != Some(Piece::Knight) ==> glides(b.fields(), s, m),
        keeps_pin(b@, color)(m),
        in_check(b@, color) ==> saves_check(b@, color, m),
{
    let p = b@;
    let f = b.fields();
    let pc = fld(f, s).piece().unwrap();
    let checked = in_check(p, color);
    let pm = piece_moves(p, s, pc, color);
    let cand = candidate_moves(p, s, checked);
    let legal = legal_moves(p, color, s);
    let shape = if pc == Piece::Knight {
        jumper(f, color, s)
    } else {
        glider(f, color, s)
    };
    lemma_aggressors(b, color);
    lemma_piece_shape(p, s, pc, color);
    assert(every(pm, shape));
    assert(cand == (if checked {
        pm.filter(saves(p, color))
    } else {
        pm
    }));
    if checked {
        lemma_every_filter(pm, shape, saves(p, color));
        lemma_every_filter(cand, saves(p, color), keeps_pin(p, color));
    }
    lemma_every_filter(cand, shape, keeps_pin(p, color));
    let i = choose|i: int| 0 <= i < legal.len() && legal[i] == m;
    assert(shape(legal[i]));
    assert(keeps_pin(p, color)(legal[i]));
    if checked {
        assert(saves(p, color)(legal[i]));
    }
}

/// A move that answers a check takes the one piece that gives it, or stands in its
/// way afterwards.
pub proof fn lemma_answer_holds(b: Board, color: Color, s: int, m: Move, t: int)
    requires
        b.wf(),
        playable(s),
        fld(b.fields(), s).piece().is_some(),
        saves_check(b@, color, m),
        checker(b.fields(), b.king(color).coord.index(), color, t),
        m.end.index() != t,
        m.end.index() != s,
        t != s,
    ensures
        fld(b.fields(), m.end.index()) == Field::Empty,
        extends(
            b.fields().update(s, Field::Empty),
            m.end.index(),
            t,
            b.king(color).coord.index(),
        ),
{
    let f = b.fields();
    let k = b.king(color).coord.index();
    lemma_aggressors(b, color);
    assert(b.king_consistent(color));
    let tt = sole_checker(f, k, color).unwrap();
    assert(only_checker(f, k, color, tt));
    assert(tt == t);
    assert(blocks_or_takes(f, k, t, m.end.index()));
    lemma_answer_blocks(f, k, t, s, m.end.index());
}

/// A move of a pinned piece that the pin index lets pass takes the attacker, or
/// stands in its way afterwards.
pub proof fn lemma_pin_holds(b: Board, color: Color, s: int, m: Move, t: int)
    requires
        b.wf(),
        playable(s),
        fld(b.fields(), s).piece().is_some(),
        fld(b.fields(), s).owner() == Some(color),
        fld(b.fields(), t).owner() == Some(color.opposite()),
        extends(b.fields(), s, t, b.king(color).coord.index()),
        keeps_pin(b@, color)(m),
        m.start.index() == s,
        fld(b.fields(), s).piece() != Some(Piece::Knight) ==> glides(b.fields(), s, m),
        m.end.index() != t,
        m.end.index() != b.king(color).coord.index(),
    ensures
        fld(b.fields(), m.end.index()) == Field::Empty,
        extends(
            b.fields().update(s, Field::Empty),
            m.end.index(),
            t,
            b.king(color).coord.index(),
        ),
{
    let f = b.fields();
    let k = b.king(color).coord.index();
    let e = m.end.index();
    lemma_aggressors(b, color);
    assert(b.king_consistent(color));
    let d: int = if through(f, s, t, 1, k) {
        1
    } else if through(f, s, t, -1, k) {
        -1
    } else if through(f, s, t, 10, k) {
        10
    } else if through(f, s, t, -10, k) {
        -10
    } else if through(f, s, t, 9, k) {
        9
    } else if through(f, s, t, -9, k) {
        -9
    } else if through(f, s, t, 11, k) {
        11
    } else {
        -11
    };
    assert(through(f, s, t, d, k));
    lemma_discovery_is_pin(f, k, color, s, t, d);
    let dir = direction_of(-d);
    assert(dir.step() == -d);
    assert(pins_square(f, k, color, dir, s));
    assert forall|d2: Direction| pins_square(f, k, color, d2, s) implies d2 == dir by {
        lemma_pin_direction(f, k, color, d2, dir, s);
    }
    assert(pin_entry(f, k, color, s) == Some((sq(t), dir)));
    assert(m.end != sq(t));
    assert(!pin_blocks(f, Some((sq(t), dir)), m));
    let d2 = choose|d2: int| is_step(d2) && #[trigger] ray_hits(f, s, d2, e);
    lemma_hits_on_line(f, s, d2, e);
    lemma_on_pin_line(s, e, d2, dir);
    lemma_pinned_move_blocks(f, k, s, t, e, d, d2);
}

/// What stands on the end of a move after the piece has come there: the piece
/// itself, or what it is promoted to.
pub open spec fn arrived(f: Seq<Field>, m: Move) -> Field {
    match m.move_type {
        MoveType::Promote(kind, _) => promoted(f[m.start.index()], kind),
        _ => f[m.start.index()],
    }
}

/// After a piece that is no king has gone from the start to the end of a move that
/// the generator offers for it, no piece of the other side attacks the own king.
pub proof fn lemma_piece_shift_safe(b: Board, color: Color, s: int, m: Move, t: int)
    requires
        b.wf(),
        playable(s),
        fld(b.fields(), s).piece().is_some(),
        fld(b.fields(), s).owner() == Some(color),
        legal_moves(b@, color, s).contains(m),
        fld(b.fields(), t).owner() == Some(color.opposite()),
        t != m.end.index(),
    ensures
        !attacks(
            b.fields().update(s, Field::Empty).update(m.end.index(), arrived(b.fields(), m)),
            t,
            b.king(color).coord.index(),
        ),
{
    let f = b.fields();
    let k = b.king(color).coord.index();
    let e = m.end.index();
    lemma_offered_piece_move(b, color, s, m);
    lemma_aggressors(b, color);
    assert(b.king_consistent(color));
    let v = arrived(f, m);
    let f2 = f.update(s, Field::Empty).update(e, v);
    if attacks(f2, t, k) {
        assert(t != s);
        lemma_attack_after(f, s, e, v, t, k);
        if attacks(f, t, k) {
            assert(checker(f, k, color, t));
            assert(threatened(f, k, color));
            lemma_answer_holds(b, color, s, m, t);
        } else {
            lemma_pin_holds(b, color, s, m, t);
        }
    }
}

/// Whether a capture in passing opens a line: with the captured pawn gone, a slider
/// of the other side attacks the king of `color` on `k` through its square.
pub open spec fn opens_line(f: Seq<Field>, m: Move, color: Color, k: int) -> bool {
    match m.move_type {
        MoveType::EnPassant(t) => exists|x: int|
            fld(f, x).owner() == Some(color.opposite()) && #[trigger] extends(
                f.update(m.start.index(), Field::Empty).update(m.end.index(), f[m.start.index()]),
                t.index(),
                x,
                k,
            ),
        _ => false,
    }
}

/// A move that the generator offers for a piece that is no king leaves the king of
/// the mover out of check, unless it is a capture in passing that opens a line.
pub proof fn lemma_piece_move_safe(b: Board, color: Color, s: int, m: Move)
    requires
        b.wf(),
        playable(s),
        fld(b.fields(), s).piece().is_some(),
        fld(b.fields(), s).owner() == Some(color),
        legal_moves(b@, color, s).contains(m),
        !opens_line(b.fields(), m, color, b.king(color).coord.index()),
    ensures
        !threatened(moved_fields(b.fields(), m), b.king(color).coord.index(), color),
{
    let f = b.fields();
    let k = b.king(color).coord.index();
    let e = m.end.index();
    lemma_offered_piece_move(b, color, s, m);
    lemma_aggressors(b, color);
    assert(b.king_consistent(color));
    let v = arrived(f, m);
    let f2 = f.update(s, Field::Empty).update(e, v);
    let g = moved_fields(f, m);
    if threatened(g, k, color) {
        let x = choose|x: int| #[trigger]
            attacks(g, x, k) && fld(g, x).owner() == Some(color.opposite());
        match m.move_type {
            MoveType::EnPassant(t) => {
                let ti = t.index();
                assert(g == f2.update(ti, Field::Empty));
                assert(x != e && x != s && x != ti);
                assert(fld(f, x) == fld(g, x));
                lemma_attacks_lift(f2, ti, x, k);
                lemma_piece_shift_safe(b, color, s, m, x);
            },
            _ => {
                assert(g == f2);
                assert(x != e && x != s);
                assert(fld(f, x) == fld(g, x));
                lemma_piece_shift_safe(b, color, s, m, x);
            },
        }
    }
}

/// A capture in passing that opens a line leaves the king of the mover in check.
pub proof fn lemma_opened_line_checks(f: Seq<Field>, m: Move, color: Color, k: int)
    requires
        f.len() == 120,
        playable(m.start.index()),
        playable(m.end.index()),
        m.start.index() != m.end.index(),
        fld(f, m.start.index()).owner() == Some(color),
        fld(f, m.end.index()) == Field::Empty,
        opens_line(f, m, color, k),
        match m.move_type {
            MoveType::EnPassant(t) => playable(t.index()) && t.index() != m.start.index()
                && t.index() != m.end.index() && fld(f, t.index()) != Field::Empty,
            _ => true,
        },
    ensures
        threatened(moved_fields(f, m), k, color),
{
    let s = m.start.index();
    let e = m.end.index();
    let f2 = f.update(s, Field::Empty).update(e, f[s]);
    match m.move_type {
        MoveType::EnPassant(t) => {
            let ti = t.index();
            let x = choose|x: int|
                fld(f, x).owner() == Some(color.opposite()) && #[trigger] extends(f2, ti, x, k);
            assert(x != s && x != e);
            assert forall|d: int| through(f2, ti, x, d, k) implies x != ti by {
                lemma_hits_on_line(f2, x, d, ti);
            }
            lemma_attacks_lift(f2, ti, x, k);
            let g = moved_fields(f, m);
            assert(g == f2.update(ti, Field::Empty));
            assert(fld(g, x) == fld(f, x));
            assert(attacks(g, x, k));
        },
        _ => {},
    }
}

/// The test of a step of the king on `k`: it leads by one step onto a square that
/// the other side does not attack, lands as its kind asks, and does not stay on
/// the line of a check as far as the generator looks.
pub open spec fn stepper(f: Seq<Field>, k: int, color: Color, checked: bool) -> spec_fn(
    Move,
) -> bool {
    |m: Move|
        lands(f, color, k, m) && !is_passing(m) && is_step(m.end.index() - k) && !threatened(
            f,
            m.end.index(),
            color,
        ) && !(checked && behind_attacked(f, k, m.end.index(), color))
}

/// The test of castling of the king on `k`: the king keeps the right and is not in
/// check, it goes two squares towards its own rook in the corner, the rook comes to
/// stand beside it on the square it crossed, and neither that square nor the one
/// the king lands on is occupied or attacked.
pub open spec fn castler(p: Position, k: int, color: Color) -> spec_fn(Move) -> bool {
    |m: Move|
        {
            let f = p.fields;
            let e = m.end.index();
            &&& m.start.index() == k
            &&& (p.castle_left(color) || p.castle_right(color))
            &&& match m.move_type {
                MoveType::Castle(c) => {
                    let side = e - k;
                    &&& (side == 2 || side == -2)
                    &&& playable(e)
                    &&& c.rook_target.index() == k + side / 2
                    &&& c.rook_pos.index() == (if side == 2 {
                        k + 3
                    } else {
                        k - 4
                    })
                    &&& playable(c.rook_pos.index())
                    &&& fld(f, e) == Field::Empty
                    &&& fld(f, c.rook_target.index()) == Field::Empty
                    &&& fld(f, c.rook_pos.index()) == Field::of(color, Piece::Rook)
                    &&& !threatened(f, e, color)
                },
                _ => false,
            }
        }
}

/// Each step that the generator offers for a king passes the test of a step.
pub proof fn lemma_king_step_shape(f: Seq<Field>, k: int, color: Color, checked: bool, d: int)
    requires
        playable(k),
        is_step(d),
    ensures
        every(king_step(f, k, color, checked, d), stepper(f, k, color, checked)),
{
    reveal(king_step);
    let q = king_step(f, k, color, checked, d);
    assert forall|i: int| 0 <= i < q.len() implies stepper(f, k, color, checked)(#[trigger] q[i]) by {
        assert(q[i].end.index() == k + d);
    }
}

/// Each move that the generator offers for a king is a step or castling, and
/// castling only while the king is not in check.
pub proof fn lemma_king_shape(p: Position, k: int, color: Color, checked: bool)
    requires
        playable(k),
    ensures
        every(
            king_moves(p, k, color, checked),
            |m: Move|
                stepper(p.fields, k, color, checked)(m) || (!checked && castler(p, k, color)(m)),
        ),
{
    let f = p.fields;
    let st = stepper(f, k, color, checked);
    let both = |m: Move|
        stepper(p.fields, k, color, checked)(m) || (!checked && castler(p, k, color)(m));
    lemma_king_step_shape(f, k, color, checked, 1);
    lemma_king_step_shape(f, k, color, checked, -1);
    lemma_king_step_shape(f, k, color, checked, 10);
    lemma_king_step_shape(f, k, color, checked, -10);
    lemma_king_step_shape(f, k, color, checked, 9);
    lemma_king_step_shape(f, k, color, checked, -11);
    lemma_king_step_shape(f, k, color, checked, 11);
    lemma_king_step_shape(f, k, color, checked, -9);
    let a0 = king_step(f, k, color, checked, 1);
    let a1 = a0 + king_step(f, k, color, checked, -1);
    let a2 = a1 + king_step(f, k, color, checked, 10);
    let a3 = a2 + king_step(f, k, color, checked, -10);
    let a4 = a3 + king_step(f, k, color, checked, 9);
    let a5 = a4 + king_step(f, k, color, checked, -11);
    let a6 = a5 + king_step(f, k, color, checked, 11);
    let a7 = a6 + king_step(f, k, color, checked, -9);
    lemma_every_concat(a0, king_step(f, k, color, checked, -1), st);
    lemma_every_concat(a1, king_step(f, k, color, checked, 10), st);
    lemma_every_concat(a2, king_step(f, k, color, checked, -10), st);
    lemma_every_concat(a3, king_step(f, k, color, checked, 9), st);
    lemma_every_concat(a4, king_step(f, k, color, checked, -11), st);
    lemma_every_concat(a5, king_step(f, k, color, checked, 11), st);
    lemma_every_concat(a6, king_step(f, k, color, checked, -9), st);
    assert(a7 == king_steps(f, k, color, checked));
    assert(every(a7, both));
    if !checked {
        let r = castle_to_right(p, k, color);
        let l = castle_to_left(p, k, color);
        assert(every(r, both)) by {
            reveal(castle_to_right);
            assert forall|i: int| 0 <= i < r.len() implies both(#[trigger] r[i]) by {
                assert(r[i].end.index() == k + 2);
                assert(castler(p, k, color)(r[i]));
            }
        }
        assert(every(l, both)) by {
            reveal(castle_to_left);
            assert forall|i: int| 0 <= i < l.len() implies both(#[trigger] l[i]) by {
                assert(l[i].end.index() == k - 2);
                assert(castler(p, k, color)(l[i]));
            }
        }
        lemma_every_concat(r, l, both);
        lemma_every_concat(a7, r + l, both);
    } else {
        lemma_every_concat(a7, Seq::<Move>::empty(), both);
    }
}

/// Whether the king on `k`, stepping to `e`, goes straight away from a slider that
/// gives check from the square next to it.
pub open spec fn flees_along(f: Seq<Field>, k: int, e: int, color: Color) -> bool {
    is_slider(fld(f, 2 * k - e)) && checker(f, k, color, 2 * k - e)
}

/// A step next to `k` that lies ahead of `k` in direction `d` is the step `d`.
pub proof fn lemma_next_on_line(k: int, d: int, e: int)
    requires
        on_line(k, d, e),
        is_step(e - k),
    ensures
        e == k + d,
{
}

/// One step back from a playable square: the column and the row it leads to.
pub proof fn lemma_step_back(k: int, d: int)
    requires
        playable(k),
        is_step(d),
    ensures
        col(k - d) == col(k) - crate::rays::dx(d),
        row(k - d) == row(k) - crate::rays::dy(d),
{
}

/// The square before `k` on a line from `t` lies on that line, unless it is `t`.
pub proof fn lemma_before_on_line(t: int, d: int, k: int)
    requires
        on_line(t, d, k),
        t != k - d,
    ensures
        on_line(t, d, k - d),
        steps(t, d, k - d) < steps(t, d, k),
{
    lemma_step_back(k, d);
    let b = k - d;
    assert(k == 10 * row(k) + col(k));
    assert(t == 10 * row(t) + col(t));
    assert(b == 10 * row(b) + col(b));
    if steps(t, d, k) == 1 {
        assert(col(k) == col(t) + crate::rays::dx(d));
        assert(row(k) == row(t) + crate::rays::dy(d));
        assert(col(b) == col(t));
        assert(row(b) == row(t));
        assert(b == t);
    }
    assert(1 <= col(b) <= 8);
    assert(2 <= row(b) <= 9);
}

/// Where a slider that gives check does not stand next to the king, the generator
/// sees that a step straight away from it stays on its line.
pub proof fn lemma_flight_seen(f: Seq<Field>, k: int, color: Color, t: int, d: int, e: int)
    requires
        is_step(d),
        through(f, k, t, d, e),
        is_step(e - k),
        fld(f, t).owner() == Some(color.opposite()),
        t != 2 * k - e,
    ensures
        threatened(f, k, color),
        behind_attacked(f, k, e, color),
{
    lemma_hits_on_line(f, t, d, k);
    lemma_hits_on_line(f, k, d, e);
    lemma_next_on_line(k, d, e);
    assert(attacks(f, t, k));
    let od = k - d;
    lemma_before_on_line(t, d, k);
    lemma_hits_between(f, t, d, od, k);
    assert(slide_hits(f, t, d, od));
    assert(attacks(f, t, od));
    assert(takeable(fld(f, t), color));
    assert(od == 2 * k - e);
}

/// A king that goes straight away from a slider that gives check from the square
/// next to it is in check afterwards.
pub proof fn lemma_flight_checks(f: Seq<Field>, k: int, e: int, color: Color)
    requires
        f.len() == 120,
        playable(k),
        playable(e),
        is_step(e - k),
        fld(f, k) == Field::king_of(color),
        !fld(f, e).is_king(),
        flees_along(f, k, e, color),
    ensures
        threatened(f.update(k, Field::Empty).update(e, f[k]), e, color),
{
    let t = 2 * k - e;
    let d = e - k;
    let f1 = f.update(k, Field::Empty);
    let f2 = f1.update(e, f[k]);
    lemma_slider_direction(f, t, k);
    lemma_hits_on_line(f, t, approach(t, k), k);
    lemma_next_on_line(t, approach(t, k), k);
    assert(approach(t, k) == d);
    assert(fld(f1, t) == fld(f, t));
    assert(ray_hits(f1, t, d, k));
    assert(ray_hits(f1, k, d, e));
    crate::rays::lemma_hits_extend(f1, t, d, k, e);
    assert(slide_hits(f1, t, d, e));
    assert(attacks(f1, t, e));
    if fld(f1, e) == Field::Empty {
        lemma_attacks_place(f1, e, f[k], t, e);
        assert forall|d2: int| through(f1, e, t, d2, e) implies false by {
            lemma_hits_on_line(f1, e, d2, e);
        }
    } else {
        lemma_attacks_replace(f1, e, f[k], t, e);
    }
    assert(fld(f2, t) == fld(f, t));
    assert(attacks(f2, t, e));
}

/// A step of the king that passes the test of a step leaves the king out of check,
/// unless the king goes straight away from a slider that gives check from the
/// square next to it.
pub proof fn lemma_king_step_safe(f: Seq<Field>, k: int, color: Color, checked: bool, m: Move)
    requires
        shaped(f),
        playable(k),
        fld(f, k) == Field::king_of(color),
        checked == threatened(f, k, color),
        stepper(f, k, color, checked)(m),
        !is_castling(m),
        !flees_along(f, k, m.end.index(), color),
    ensures
        !threatened(moved_fields(f, m), m.end.index(), color),
{
    let e = m.end.index();
    let v = match m.move_type {
        MoveType::Promote(kind, _) => promoted(f[k], kind),
        _ => f[k],
    };
    let f2 = f.update(k, Field::Empty).update(e, v);
    assert(moved_fields(f, m) == f2);
    if threatened(f2, e, color) {
        let t = choose|t: int| #[trigger]
            attacks(f2, t, e) && fld(f2, t).owner() == Some(color.opposite());
        assert(t != e && t != k);
        assert(fld(f, t) == fld(f2, t));
        lemma_attack_after(f, k, e, v, t, e);
        if attacks(f, t, e) {
            assert(threatened(f, e, color));
        } else {
            let d: int = if through(f, k, t, 1, e) {
                1
            } else if through(f, k, t, -1, e) {
                -1
            } else if through(f, k, t, 10, e) {
                10
            } else if through(f, k, t, -10, e) {
                -10
            } else if through(f, k, t, 9, e) {
                9
            } else if through(f, k, t, -9, e) {
                -9
            } else if through(f, k, t, 11, e) {
                11
            } else {
                -11
            };
            assert(through(f, k, t, d, e));
            lemma_flight_seen(f, k, color, t, d, e);
        }
    }
}

/// Castling that passes the test of castling leaves the king out of check, if the
/// king stands on its home square and is not in check.
pub proof fn lemma_castle_safe(p: Position, k: int, color: Color, m: Move)
    requires
        shaped(p.fields),
        k == crate::board::home_square(color),
        fld(p.fields, k) == Field::king_of(color),
        !threatened(p.fields, k, color),
        castler(p, k, color)(m),
    ensures
        !threatened(moved_fields(p.fields, m), m.end.index(), color),
{
    let f = p.fields;
    let e = m.end.index();
    let c = match m.move_type {
        MoveType::Castle(c) => c,
        _ => arbitrary(),
    };
    let rp = c.rook_pos.index();
    let rt = c.rook_target.index();
    let king = f[k];
    let rook = f[rp];
    let g1 = f.update(k, Field::Empty);
    let g2 = g1.update(e, king);
    let g3 = g2.update(rp, Field::Empty);
    let g4 = g3.update(rt, rook);
    assert(moved_fields(f, m) == g4);
    if threatened(g4, e, color) {
        let t = choose|t: int| #[trigger]
            attacks(g4, t, e) && fld(g4, t).owner() == Some(color.opposite());
        assert(t != e && t != k && t != rp && t != rt);
        assert(fld(f, t) == fld(g4, t));
        lemma_attacks_place(g3, rt, rook, t, e);
        lemma_attacks_lift(g2, rp, t, e);
        if extends(g2, rp, t, e) {
            assert forall|d: int| through(g2, rp, t, d, e) implies false by {
                lemma_hits_on_line(g2, t, d, rp);
                lemma_hits_on_line(g2, rp, d, e);
            }
        }
        assert(attacks(g2, t, e));
        lemma_attack_after(f, k, e, king, t, e);
        if attacks(f, t, e) {
            assert(threatened(f, e, color));
        } else {
            assert forall|d: int| through(f, k, t, d, e) implies false by {
                lemma_hits_on_line(f, t, d, k);
                assert(attacks(f, t, k));
                assert(threatened(f, k, color));
            }
        }
    }
}

/// What is known of a move that the generator offers for a king: it is a step that
/// passes the test of a step, or, while the king is not in check, castling that
/// passes the test of castling.
pub proof fn lemma_offered_king_move(b: Board, color: Color, m: Move)
    requires
        b.wf(),
        legal_moves(b@, color, b.king(color).coord.index()).contains(m),
    ensures
        stepper(b.fields(), b.king(color).coord.index(), color, in_check(b@, color))(m) || (
        !in_check(b@, color) && castler(b@, b.king(color).coord.index(), color)(m)),
{
    let p = b@;
    let f = b.fields();
    let k = b.king(color).coord.index();
    let checked = in_check(p, color);
    lemma_aggressors(b, color);
    assert(b.king_consistent(color));
    let km = king_moves(p, k, color, checked);
    assert(candidate_moves(p, k, checked) == km);
    let both = |m: Move|
        stepper(p.fields, k, color, checked)(m) || (!checked && castler(p, k, color)(m));
    lemma_king_shape(p, k, color, checked);
    lemma_every_filter(km, both, keeps_pin(p, color));
    let legal = legal_moves(p, color, k);
    let i = choose|i: int| 0 <= i < legal.len() && legal[i] == m;
    assert(both(legal[i]));
}

/// A move that the generator offers for a piece or the king of `color` is one that
/// `do_move` takes, and it leaves the king of `color` out of check, unless it is a
/// capture in passing that opens a line, or a step of the king straight away from
/// a slider that gives check from the square next to it.
pub proof fn lemma_offered_move_safe(b: Board, color: Color, s: int, m: Move)
    requires
        b.wf(),
        playable(s),
        fld(b.fields(), s).owner() == Some(color),
        legal_moves(b@, color, s).contains(m),
        !opens_line(b.fields(), m, color, b.king(color).coord.index()),
        !(fld(b.fields(), s).is_king() && flees_along(b.fields(), s, m.end.index(), color)),
    ensures
        move_ok(b@, m),
        !in_check(apply_move(b@, m), color),
{
    let p = b@;
    let f = b.fields();
    let k = b.king(color).coord.index();
    lemma_aggressors(b, color);
    assert(b.king_consistent(color));
    lemma_legal_moves(p, color, s);
    let legal = legal_moves(p, color, s);
    let i = choose|i: int| 0 <= i < legal.len() && legal[i] == m;
    assert(move_ok(p, legal[i]));
    let f2 = moved_fields(f, m);
    if fld(f, s).is_king() {
        assert(f[s] == Field::king_of(color));
        assert(s == k);
        lemma_offered_king_move(b, color, m);
        if stepper(f, k, color, in_check(p, color))(m) {
            lemma_king_step_safe(f, k, color, in_check(p, color), m);
        } else {
            lemma_castle_safe(p, k, color, m);
        }
        lemma_moved_king_square(p, m, color, k);
    } else {
        lemma_offered_piece_move(b, color, s, m);
        lemma_piece_move_safe(b, color, s, m);
        lemma_moved_king_square(p, m, color, k);
    }
}

/// The square of a king after a move that `do_move` takes: the end of the move if
/// the king moved, else the square on which it stood.
pub proof fn lemma_moved_king_square(p: Position, m: Move, color: Color, k: int)
    requires
        p.fields.len() == 120,
        playable(m.start.index()),
        playable(m.end.index()),
        match m.move_type {
            MoveType::EnPassant(t) => playable(t.index()),
            MoveType::Castle(c) => playable(c.rook_pos.index()) && playable(c.rook_target.index()),
            _ => true,
        },
        move_ok(p, m),
        0 <= k < 120,
        p.fields[k] == Field::king_of(color),
        forall|i: int| 0 <= i < 120 && #[trigger] p.fields[i] == Field::king_of(color) ==> i == k,
    ensures
        apply_move(p, m).king_square(color) == (if p.fields[m.start.index()] == Field::king_of(
            color,
        ) {
            m.end.index()
        } else {
            k
        }),
{
    lemma_king_after(p, m, color, k);
    let g = moved_fields(p.fields, m);
    let k2 = if p.fields[m.start.index()] == Field::king_of(color) {
        m.end.index()
    } else {
        k
    };
    assert(0 <= k2 < 120 && g[k2] == Field::king_of(color));
    let c = apply_move(p, m).king_square(color);
    assert(0 <= c < 120 && g[c] == Field::king_of(color));
}

} // verus!
