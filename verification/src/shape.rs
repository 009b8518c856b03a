use crate::board::{playable, Color, CommonCoord, Field, Piece, Position, UnsafeCoord};
use crate::movegen::{
    bishop_moves, forward, hop, knight_moves, mk, pawn_capture, pawn_en_passant, pawn_moves,
    pawn_pushes, pawn_step, piece_moves, queen_moves, rook_moves, slide_moves, takeable,
};
use crate::moves::{Castle, Move, MoveType, PromotionType};
use crate::rays::{fld, is_jump, is_step, lemma_hits_extend, lemma_step, ray_hits, room, shaped};
use vstd::prelude::*;

verus! {

/// Every move of a list passes a test.
pub open spec fn every(q: Seq<Move>, pred: spec_fn(Move) -> bool) -> bool {
    forall|i: int| 0 <= i < q.len() ==> pred(#[trigger] q[i])
}

/// Two lists whose moves all pass a test make one such list.
pub proof fn lemma_every_concat(a: Seq<Move>, b: Seq<Move>, pred: spec_fn(Move) -> bool)
    requires
        every(a, pred),
        every(b, pred),
    ensures
        every(a + b, pred),
{
    assert forall|i: int| 0 <= i < (a + b).len() implies pred(#[trigger] (a + b)[i]) by {
        if i < a.len() {
            assert((a + b)[i] == a[i]);
        } else {
            assert((a + b)[i] == b[i - a.len()]);
        }
    }
}

/// What is kept of a list whose moves all pass a test is such a list, and each of
/// its moves passes the test by which it was kept as well.
pub proof fn lemma_every_filter(
    q: Seq<Move>,
    pred: spec_fn(Move) -> bool,
    keep: spec_fn(Move) -> bool,
)
    requires
        every(q, pred),
    ensures
        every(q.filter(keep), pred),
        every(q.filter(keep), keep),
{
    let r = q.filter(keep);
    assert forall|i: int| 0 <= i < r.len() implies pred(#[trigger] r[i]) && keep(r[i]) by {
        assert(r.contains(r[i]));
        q.lemma_filter_contains_rev(keep, r[i]);
        let j = choose|j: int| 0 <= j < q.len() && q[j] == r[i];
        assert(pred(q[j]));
        q.lemma_filter_pred(keep, i);
    }
}

/// Whether a move is a capture in passing.
pub open spec fn is_passing(m: Move) -> bool {
    match m.move_type {
        MoveType::EnPassant(_) => true,
        _ => false,
    }
}

/// Whether a move is castling.
pub open spec fn is_castling(m: Move) -> bool {
    match m.move_type {
        MoveType::Castle(_) => true,
        _ => false,
    }
}

/// The move starts on `s`, ends on another playable square, and what stands there
/// fits its kind: nothing for a plain move, a piece to capture for a capture. A
/// capture in passing ends on an empty square and names a piece to capture on a
/// third square.
pub open spec fn lands(f: Seq<Field>, color: Color, s: int, m: Move) -> bool {
    let e = m.end.index();
    &&& m.start.index() == s
    &&& playable(e)
    &&& e != s
    &&& match m.move_type {
        MoveType::Regular | MoveType::RegularPawnDoubleForward | MoveType::Promote(
            _,
            PromotionType::Regular,
        ) => fld(f, e) == Field::Empty,
        MoveType::Capture | MoveType::Promote(_, PromotionType::Capture) => takeable(
            fld(f, e),
            color,
        ),
        MoveType::EnPassant(t) => {
            &&& fld(f, e) == Field::Empty
            &&& playable(t.index())
            &&& t.index() != e
            &&& t.index() != s
            &&& takeable(fld(f, t.index()), color)
        },
        MoveType::Castle(_) => false,
    }
}

/// The end of the move is reached from `s` by steps in one direction over empty
/// squares.
pub open spec fn glides(f: Seq<Field>, s: int, m: Move) -> bool {
    exists|d: int| is_step(d) && #[trigger] ray_hits(f, s, d, m.end.index())
}

/// The test of a move of a piece that is no knight: it lands as its kind asks, and
/// it glides to its end.
pub open spec fn glider(f: Seq<Field>, color: Color, s: int) -> spec_fn(Move) -> bool {
    |m: Move| lands(f, color, s, m) && glides(f, s, m)
}

/// The test of a move of a knight: it lands as its kind asks, by a jump.
pub open spec fn jumper(f: Seq<Field>, color: Color, s: int) -> spec_fn(Move) -> bool {
    |m: Move| lands(f, color, s, m) && is_jump(m.end.index() - s) && !is_passing(m)
}

/// The moves of a slider in one direction glide to their ends.
pub proof fn lemma_slide_shape(f: Seq<Field>, s0: int, a: int, d: int, color: Color)
    requires
        shaped(f),
        playable(s0),
        playable(a),
        is_step(d),
        a == s0 || (ray_hits(f, s0, d, a) && fld(f, a) == Field::Empty),
    ensures
        every(slide_moves(f, s0, a, d, color), glider(f, color, s0)),
    decreases room(a, d),
{
    lemma_step(a, d);
    let q = slide_moves(f, s0, a, d, color);
    if playable(a + d) {
        let n = a + d;
        assert(ray_hits(f, a, d, n));
        if a != s0 {
            lemma_hits_extend(f, s0, d, a, n);
            crate::rays::lemma_hits_on_line(f, s0, d, n);
        }
        assert(ray_hits(f, s0, d, n));
        assert(n != s0);
        if fld(f, n) == Field::Empty {
            lemma_slide_shape(f, s0, n, d, color);
            let h = seq![mk(s0, n, MoveType::Regular)];
            assert(h[0].end.index() == n);
            assert(ray_hits(f, s0, d, h[0].end.index()));
            assert(glider(f, color, s0)(h[0]));
            lemma_every_concat(h, slide_moves(f, s0, n, d, color), glider(f, color, s0));
        } else if takeable(fld(f, n), color) {
            let h = seq![mk(s0, n, MoveType::Capture)];
            assert(h[0].end.index() == n);
            assert(ray_hits(f, s0, d, h[0].end.index()));
            assert(glider(f, color, s0)(h[0]));
        }
    }
}

/// The moves of a rook, a bishop and a queen glide to their ends.
pub proof fn lemma_slider_shape(f: Seq<Field>, s: int, color: Color)
    requires
        shaped(f),
        playable(s),
    ensures
        every(rook_moves(f, s, color), glider(f, color, s)),
        every(bishop_moves(f, s, color), glider(f, color, s)),
        every(queen_moves(f, s, color), glider(f, color, s)),
{
    let g = glider(f, color, s);
    lemma_slide_shape(f, s, s, 1, color);
    lemma_slide_shape(f, s, s, -1, color);
    lemma_slide_shape(f, s, s, 10, color);
    lemma_slide_shape(f, s, s, -10, color);
    lemma_slide_shape(f, s, s, 11, color);
    lemma_slide_shape(f, s, s, 9, color);
    lemma_slide_shape(f, s, s, -9, color);
    lemma_slide_shape(f, s, s, -11, color);
    let a = slide_moves(f, s, s, 1, color);
    let b = a + slide_moves(f, s, s, -1, color);
    let c = b + slide_moves(f, s, s, 10, color);
    lemma_every_concat(a, slide_moves(f, s, s, -1, color), g);
    lemma_every_concat(b, slide_moves(f, s, s, 10, color), g);
    lemma_every_concat(c, slide_moves(f, s, s, -10, color), g);
    let a2 = slide_moves(f, s, s, 11, color);
    let b2 = a2 + slide_moves(f, s, s, 9, color);
    let c2 = b2 + slide_moves(f, s, s, -9, color);
    lemma_every_concat(a2, slide_moves(f, s, s, 9, color), g);
    lemma_every_concat(b2, slide_moves(f, s, s, -9, color), g);
    lemma_every_concat(c2, slide_moves(f, s, s, -11, color), g);
    lemma_every_concat(rook_moves(f, s, color), bishop_moves(f, s, color), g);
}

/// The move of a knight by one of its offsets is a jump.
pub proof fn lemma_hop_shape(f: Seq<Field>, s: int, o: int, color: Color)
    requires
        playable(s),
        is_jump(o),
    ensures
        every(hop(f, s, o, color), jumper(f, color, s)),
{
    reveal(hop);
    let q = hop(f, s, o, color);
    assert forall|i: int| 0 <= i < q.len() implies jumper(f, color, s)(#[trigger] q[i]) by {
        assert(q[i].end.index() == s + o);
    }
}

/// The moves of a knight are jumps.
pub proof fn lemma_knight_shape(f: Seq<Field>, s: int, color: Color)
    requires
        playable(s),
    ensures
        every(knight_moves(f, s, color), jumper(f, color, s)),
{
    let j = jumper(f, color, s);
    lemma_hop_shape(f, s, 12, color);
    lemma_hop_shape(f, s, -8, color);
    lemma_hop_shape(f, s, 21, color);
    lemma_hop_shape(f, s, -19, color);
    lemma_hop_shape(f, s, 8, color);
    lemma_hop_shape(f, s, -12, color);
    lemma_hop_shape(f, s, 19, color);
    lemma_hop_shape(f, s, -21, color);
    let a0 = hop(f, s, 12, color);
    let a1 = a0 + hop(f, s, -8, color);
    let a2 = a1 + hop(f, s, 21, color);
    let a3 = a2 + hop(f, s, -19, color);
    let a4 = a3 + hop(f, s, 8, color);
    let a5 = a4 + hop(f, s, -12, color);
    let a6 = a5 + hop(f, s, 19, color);
    lemma_every_concat(a0, hop(f, s, -8, color), j);
    lemma_every_concat(a1, hop(f, s, 21, color), j);
    lemma_every_concat(a2, hop(f, s, -19, color), j);
    lemma_every_concat(a3, hop(f, s, 8, color), j);
    lemma_every_concat(a4, hop(f, s, -12, color), j);
    lemma_every_concat(a5, hop(f, s, 19, color), j);
    lemma_every_concat(a6, hop(f, s, -21, color), j);
}

/// The step of a pawn from `s` to `e`, plain or as a promotion, glides if `e` is
/// reached from `s` and holds what the kind of step asks for.
pub proof fn lemma_pawn_step_shape(
    f: Seq<Field>,
    s: int,
    e: int,
    d: int,
    color: Color,
    t: PromotionType,
)
    requires
        playable(s),
        is_step(d),
        ray_hits(f, s, d, e),
        match t {
            PromotionType::Regular => fld(f, e) == Field::Empty,
            PromotionType::Capture => takeable(fld(f, e), color),
        },
    ensures
        every(pawn_step(s, e, color, t), glider(f, color, s)),
{
    reveal(pawn_step);
    crate::rays::lemma_hits_on_line(f, s, d, e);
    let q = pawn_step(s, e, color, t);
    assert forall|i: int| 0 <= i < q.len() implies glider(f, color, s)(#[trigger] q[i]) by {
        assert(q[i].end.index() == e);
        assert(ray_hits(f, s, d, q[i].end.index()));
    }
}

/// The pushes of a pawn glide to their ends.
pub proof fn lemma_pawn_pushes_shape(f: Seq<Field>, s: int, color: Color)
    requires
        shaped(f),
        playable(s),
    ensures
        every(pawn_pushes(f, s, color), glider(f, color, s)),
{
    reveal(pawn_pushes);
    let g = glider(f, color, s);
    let w = forward(color);
    let n = s + w;
    lemma_step(s, w);
    if playable(n) && fld(f, n) == Field::Empty {
        assert(ray_hits(f, s, w, n));
        lemma_pawn_step_shape(f, s, n, w, color, PromotionType::Regular);
        let n2 = n + w;
        lemma_step(n, w);
        if UnsafeCoord::baseline_of(s) == Some(color) && playable(n2) && fld(f, n2)
            == Field::Empty {
            let h = seq![mk(s, n2, MoveType::RegularPawnDoubleForward)];
            assert(ray_hits(f, n, w, n2));
            assert(ray_hits(f, s, w, n2));
            assert(h[0].end.index() == n2);
            assert(ray_hits(f, s, w, h[0].end.index()));
            assert(g(h[0]));
            lemma_every_concat(pawn_step(s, n, color, PromotionType::Regular), h, g);
        } else {
            lemma_every_concat(
                pawn_step(s, n, color, PromotionType::Regular),
                Seq::<Move>::empty(),
                g,
            );
        }
    }
}

/// The capture of a pawn towards one side glides to its end.
pub proof fn lemma_pawn_capture_shape(f: Seq<Field>, s: int, color: Color, side: int)
    requires
        shaped(f),
        playable(s),
        side == 1 || side == -1,
    ensures
        every(pawn_capture(f, s, color, side), glider(f, color, s)),
{
    reveal(pawn_capture);
    let d = side + forward(color);
    let n = s + d;
    lemma_step(s, d);
    if playable(n) && takeable(fld(f, n), color) {
        assert(ray_hits(f, s, d, n));
        lemma_pawn_step_shape(f, s, n, d, color, PromotionType::Capture);
    }
}

/// The capture in passing of a pawn glides by one diagonal step onto the empty
/// square behind the pawn that it captures.
pub proof fn lemma_pawn_passing_shape(p: Position, s: int, color: Color)
    requires
        playable(s),
        match p.en_passant {
            Some(t) => playable(t.index()),
            None => true,
        },
    ensures
        every(pawn_en_passant(p, s, color), glider(p.fields, color, s)),
{
    reveal(pawn_en_passant);
    let f = p.fields;
    let q = pawn_en_passant(p, s, color);
    assert forall|i: int| 0 <= i < q.len() implies glider(f, color, s)(#[trigger] q[i]) by {
        let t = p.en_passant.unwrap();
        let e = t.index() + forward(color);
        let d = e - s;
        assert(q[i].end.index() == e);
        assert(q[i].move_type == MoveType::EnPassant(t));
        lemma_step(s, d);
        assert(ray_hits(f, s, d, q[i].end.index()));
    }
}

/// The moves of a pawn glide to their ends.
pub proof fn lemma_pawn_shape(p: Position, s: int, color: Color)
    requires
        shaped(p.fields),
        playable(s),
        match p.en_passant {
            Some(t) => playable(t.index()),
            None => true,
        },
    ensures
        every(pawn_moves(p, s, color), glider(p.fields, color, s)),
{
    let f = p.fields;
    let g = glider(f, color, s);
    lemma_pawn_pushes_shape(f, s, color);
    lemma_pawn_capture_shape(f, s, color, -1);
    lemma_pawn_capture_shape(f, s, color, 1);
    lemma_pawn_passing_shape(p, s, color);
    let a0 = pawn_pushes(f, s, color);
    let a1 = a0 + pawn_capture(f, s, color, -1);
    let a2 = a1 + pawn_capture(f, s, color, 1);
    lemma_every_concat(a0, pawn_capture(f, s, color, -1), g);
    lemma_every_concat(a1, pawn_capture(f, s, color, 1), g);
    lemma_every_concat(a2, pawn_en_passant(p, s, color), g);
}

/// The moves of a piece that is no knight glide to their ends; the moves of a
/// knight are jumps.
pub proof fn lemma_piece_shape(p: Position, s: int, piece: Piece, color: Color)
    requires
        shaped(p.fields),
        playable(s),
        match p.en_passant {
            Some(t) => playable(t.index()),
            None => true,
        },
    ensures
        piece == Piece::Knight ==> every(
            piece_moves(p, s, piece, color),
            jumper(p.fields, color, s),
        ),
        piece != Piece::Knight ==> every(
            piece_moves(p, s, piece, color),
            glider(p.fields, color, s),
        ),
{
    lemma_slider_shape(p.fields, s, color);
    lemma_knight_shape(p.fields, s, color);
    lemma_pawn_shape(p, s, color);
}

} // verus!
