use crate::board::{
    playable, sq, Board, Color, CommonCoord, Coord, Field, Piece, Position, UnsafeCoord,
};
use crate::list::List;
use crate::moves::{move_ok, Move, MoveType, PromotionType};
use crate::rays::{fld, is_step, lemma_step, room, shaped};
use vstd::prelude::*;

verus! {

/// The move from the square with index `s` to the one with index `e`.
pub open spec fn mk(s: int, e: int, t: MoveType) -> Move {
    Move { start: sq(s), end: sq(e), move_type: t }
}

/// Whether a field holds a piece, not a king, of the side opposing `color`.
pub open spec fn takeable(x: Field, color: Color) -> bool {
    x.piece().is_some() && x.owner() == Some(color.opposite())
}

/// Every move of the list is one that `do_move` takes.
pub open spec fn all_ok(p: Position, q: Seq<Move>) -> bool {
    forall|i: int| 0 <= i < q.len() ==> move_ok(p, #[trigger] q[i])
}

/// Lists of moves that `do_move` takes make one such list.
pub proof fn lemma_all_ok_concat(p: Position, a: Seq<Move>, b: Seq<Move>)
    requires
        all_ok(p, a),
        all_ok(p, b),
    ensures
        all_ok(p, a + b),
{
    assert forall|i: int| 0 <= i < (a + b).len() implies move_ok(p, #[trigger] (a + b)[i]) by {
        if i < a.len() {
            assert((a + b)[i] == a[i]);
        } else {
            assert((a + b)[i] == b[i - a.len()]);
        }
    }
}

/// The moves of a slider that stands on `s0`, from the square `a` of its ray on, in
/// direction `d`: onto every empty square up to the first that is not empty, and
/// onto that one if it holds a piece to capture.
pub open spec fn slide_moves(f: Seq<Field>, s0: int, a: int, d: int, color: Color) -> Seq<Move>
    decreases room(a, d),
{
    if is_step(d) && playable(a) && playable(a + d) {
        if fld(f, a + d) == Field::Empty {
            seq![mk(s0, a + d, MoveType::Regular)] + slide_moves(f, s0, a + d, d, color)
        } else if takeable(fld(f, a + d), color) {
            seq![mk(s0, a + d, MoveType::Capture)]
        } else {
            Seq::empty()
        }
    } else {
        Seq::empty()
    }
}

/// A slider has no more moves in a direction than there is room, and `do_move`
/// takes each of them.
pub proof fn lemma_slide_moves(p: Position, s0: int, a: int, d: int, color: Color)
    requires
        shaped(p.fields),
        playable(s0),
        p.fields[s0].occupied(),
        playable(a),
        is_step(d),
        a == s0 || crate::rays::on_line(s0, d, a),
    ensures
        slide_moves(p.fields, s0, a, d, color).len() <= room(a, d),
        all_ok(p, slide_moves(p.fields, s0, a, d, color)),
    decreases room(a, d),
{
    let f = p.fields;
    lemma_step(a, d);
    if playable(a + d) {
        let n = a + d;
        if a != s0 {
            crate::rays::lemma_line_trans(s0, d, a, n);
        }
        if fld(f, n) == Field::Empty {
            lemma_slide_moves(p, s0, n, d, color);
            let h = seq![mk(s0, n, MoveType::Regular)];
            assert(move_ok(p, h[0]));
            lemma_all_ok_concat(p, h, slide_moves(f, s0, n, d, color));
        } else if takeable(fld(f, n), color) {
            let h = seq![mk(s0, n, MoveType::Capture)];
            assert(move_ok(p, h[0]));
        }
    }
}

/// The moves of a rook on `s`.
pub open spec fn rook_moves(f: Seq<Field>, s: int, color: Color) -> Seq<Move> {
    slide_moves(f, s, s, 1, color) + slide_moves(f, s, s, -1, color) + slide_moves(
        f,
        s,
        s,
        10,
        color,
    ) + slide_moves(f, s, s, -10, color)
}

/// The moves of a bishop on `s`.
pub open spec fn bishop_moves(f: Seq<Field>, s: int, color: Color) -> Seq<Move> {
    slide_moves(f, s, s, 11, color) + slide_moves(f, s, s, 9, color) + slide_moves(
        f,
        s,
        s,
        -9,
        color,
    ) + slide_moves(f, s, s, -11, color)
}

/// The moves of a queen on `s`: those of a rook, then those of a bishop.
pub open spec fn queen_moves(f: Seq<Field>, s: int, color: Color) -> Seq<Move> {
    rook_moves(f, s, color) + bishop_moves(f, s, color)
}

/// The move of a knight or king by the offset `o`, if there is one: onto an empty
/// square, or onto a piece to capture.
#[verifier::opaque]
pub open spec fn hop(f: Seq<Field>, s: int, o: int, color: Color) -> Seq<Move> {
    if playable(s + o) && fld(f, s + o) == Field::Empty {
        seq![mk(s, s + o, MoveType::Regular)]
    } else if playable(s + o) && takeable(fld(f, s + o), color) {
        seq![mk(s, s + o, MoveType::Capture)]
    } else {
        Seq::empty()
    }
}

/// The moves of a knight on `s`.
pub open spec fn knight_moves(f: Seq<Field>, s: int, color: Color) -> Seq<Move> {
    hop(f, s, 12, color) + hop(f, s, -8, color) + hop(f, s, 21, color) + hop(f, s, -19, color)
        + hop(f, s, 8, color) + hop(f, s, -12, color) + hop(f, s, 19, color) + hop(
        f,
        s,
        -21,
        color,
    )
}

/// One rank forward for a pawn of `color`, as an index difference.
pub open spec fn forward(color: Color) -> int {
    match color {
        Color::White => 10,
        Color::Black => -10,
    }
}

/// The five promotions of a pawn that goes from `s` to `e`.
pub open spec fn promotions(s: int, e: int, t: PromotionType) -> Seq<Move> {
    seq![
        mk(s, e, MoveType::Promote(Piece::Queen, t)),
        mk(s, e, MoveType::Promote(Piece::Rook, t)),
        mk(s, e, MoveType::Promote(Piece::Knight, t)),
        mk(s, e, MoveType::Promote(Piece::Bishop, t)),
        mk(s, e, MoveType::Promote(Piece::Pawn, t)),
    ]
}

/// The move of a pawn from `s` to `e`, or its promotions if it reaches the last rank.
#[verifier::opaque]
pub open spec fn pawn_step(s: int, e: int, color: Color, t: PromotionType) -> Seq<Move> {
    if UnsafeCoord::endline_of(s + forward(color)) == Some(color) {
        promotions(s, e, t)
    } else {
        seq![
            mk(
                s,
                e,
                match t {
                    PromotionType::Regular => MoveType::Regular,
                    PromotionType::Capture => MoveType::Capture,
                },
            ),
        ]
    }
}

/// The pushes of a pawn on `s`: one square onto an empty square, and from its
/// starting rank two squares if both are empty.
#[verifier::opaque]
pub open spec fn pawn_pushes(f: Seq<Field>, s: int, color: Color) -> Seq<Move> {
    let n = s + forward(color);
    let n2 = n + forward(color);
    if playable(n) && fld(f, n) == Field::Empty {
        pawn_step(s, n, color, PromotionType::Regular) + (if UnsafeCoord::baseline_of(s) == Some(
            color,
        ) && playable(n2) && fld(f, n2) == Field::Empty {
            seq![mk(s, n2, MoveType::RegularPawnDoubleForward)]
        } else {
            Seq::empty()
        })
    } else {
        Seq::empty()
    }
}

/// The capture of a pawn on `s` towards one side (`side` is -1 or 1).
#[verifier::opaque]
pub open spec fn pawn_capture(f: Seq<Field>, s: int, color: Color, side: int) -> Seq<Move> {
    let n = s + side + forward(color);
    if playable(n) && takeable(fld(f, n), color) {
        pawn_step(s, n, color, PromotionType::Capture)
    } else {
        Seq::empty()
    }
}

/// The capture in passing of a pawn on `s`: the pawn that has just made a double
/// push stands beside it, and the square behind that pawn is empty.
#[verifier::opaque]
pub open spec fn pawn_en_passant(p: Position, s: int, color: Color) -> Seq<Move> {
    match p.en_passant {
        Some(t) => {
            let j = t.index() + forward(color);
            if playable(j) && (t.index() == s + 1 || t.index() == s - 1) && fld(
                p.fields,
                t.index(),
            ) == Field::of(color.opposite(), Piece::Pawn) && fld(p.fields, j) == Field::Empty {
                seq![mk(s, j, MoveType::EnPassant(t))]
            } else {
                Seq::empty()
            }
        },
        None => Seq::empty(),
    }
}

/// The moves of a pawn on `s`.
pub open spec fn pawn_moves(p: Position, s: int, color: Color) -> Seq<Move> {
    pawn_pushes(p.fields, s, color) + pawn_capture(p.fields, s, color, -1) + pawn_capture(
        p.fields,
        s,
        color,
        1,
    ) + pawn_en_passant(p, s, color)
}

/// The moves of a piece of kind `piece` on `s`, king safety aside.
pub open spec fn piece_moves(p: Position, s: int, piece: Piece, color: Color) -> Seq<Move> {
    match piece {
        Piece::Pawn => pawn_moves(p, s, color),
        Piece::Rook => rook_moves(p.fields, s, color),
        Piece::Bishop => bishop_moves(p.fields, s, color),
        Piece::Knight => knight_moves(p.fields, s, color),
        Piece::Queen => queen_moves(p.fields, s, color),
    }
}

/// A rook has at most 14 moves, and `do_move` takes each of them.
pub proof fn lemma_rook_moves(p: Position, s: int, color: Color)
    requires
        shaped(p.fields),
        playable(s),
        p.fields[s].occupied(),
    ensures
        rook_moves(p.fields, s, color).len() <= 14,
        all_ok(p, rook_moves(p.fields, s, color)),
{
    let f = p.fields;
    lemma_slide_moves(p, s, s, 1, color);
    lemma_slide_moves(p, s, s, -1, color);
    lemma_slide_moves(p, s, s, 10, color);
    lemma_slide_moves(p, s, s, -10, color);
    let a = slide_moves(f, s, s, 1, color);
    let b = a + slide_moves(f, s, s, -1, color);
    let c = b + slide_moves(f, s, s, 10, color);
    lemma_all_ok_concat(p, a, slide_moves(f, s, s, -1, color));
    lemma_all_ok_concat(p, b, slide_moves(f, s, s, 10, color));
    lemma_all_ok_concat(p, c, slide_moves(f, s, s, -10, color));
    assert(room(s, 1) + room(s, -1) + room(s, 10) + room(s, -10) <= 14);
}

/// A bishop has at most 13 moves, and `do_move` takes each of them.
pub proof fn lemma_bishop_moves(p: Position, s: int, color: Color)
    requires
        shaped(p.fields),
        playable(s),
        p.fields[s].occupied(),
    ensures
        bishop_moves(p.fields, s, color).len() <= 13,
        all_ok(p, bishop_moves(p.fields, s, color)),
{
    let f = p.fields;
    lemma_slide_moves(p, s, s, 11, color);
    lemma_slide_moves(p, s, s, 9, color);
    lemma_slide_moves(p, s, s, -9, color);
    lemma_slide_moves(p, s, s, -11, color);
    let a = slide_moves(f, s, s, 11, color);
    let b = a + slide_moves(f, s, s, 9, color);
    let c = b + slide_moves(f, s, s, -9, color);
    lemma_all_ok_concat(p, a, slide_moves(f, s, s, 9, color));
    lemma_all_ok_concat(p, b, slide_moves(f, s, s, -9, color));
    lemma_all_ok_concat(p, c, slide_moves(f, s, s, -11, color));
    assert(room(s, 11) + room(s, 9) + room(s, -9) + room(s, -11) <= 13);
}

/// A knight has at most 8 moves, and `do_move` takes each of them.
pub proof fn lemma_knight_moves(p: Position, s: int, color: Color)
    requires
        shaped(p.fields),
        playable(s),
        p.fields[s].occupied(),
    ensures
        knight_moves(p.fields, s, color).len() <= 8,
        all_ok(p, knight_moves(p.fields, s, color)),
{
    let f = p.fields;
    let q = knight_moves(f, s, color);
    assert forall|i: int| 0 <= i < q.len() implies move_ok(p, #[trigger] q[i]) by {
        lemma_in_hops(f, s, color, q[i], i);
    }
    assert(q.len() <= 8) by {
        reveal(hop);
    }
}

/// A pawn has at most 17 moves, and `do_move` takes each of them.
pub proof fn lemma_pawn_moves(p: Position, s: int, color: Color)
    requires
        shaped(p.fields),
        playable(s),
        p.fields[s].occupied(),
        match p.en_passant {
            Some(t) => playable(t.index()),
            None => true,
        },
    ensures
        pawn_moves(p, s, color).len() <= 17,
        all_ok(p, pawn_moves(p, s, color)),
{
    let q = pawn_moves(p, s, color);
    assert forall|i: int| 0 <= i < q.len() implies move_ok(p, #[trigger] q[i]) by {
        lemma_in_pawn_moves(p, s, color, i);
    }
    assert(q.len() <= 17) by {
        reveal(pawn_step);
        reveal(pawn_pushes);
        reveal(pawn_capture);
        reveal(pawn_en_passant);
    }
}

/// A piece has at most 27 moves, and `do_move` takes each of them.
pub proof fn lemma_piece_moves(p: Position, s: int, piece: Piece, color: Color)
    requires
        shaped(p.fields),
        playable(s),
        p.fields[s].occupied(),
        match p.en_passant {
            Some(t) => playable(t.index()),
            None => true,
        },
    ensures
        piece_moves(p, s, piece, color).len() <= 27,
        all_ok(p, piece_moves(p, s, piece, color)),
{
    match piece {
        Piece::Knight => {
            lemma_knight_moves(p, s, color);
        },
        Piece::Pawn => {
            lemma_pawn_moves(p, s, color);
        },
        Piece::Rook => {
            lemma_rook_moves(p, s, color);
        },
        Piece::Bishop => {
            lemma_bishop_moves(p, s, color);
        },
        Piece::Queen => {
            lemma_rook_moves(p, s, color);
            lemma_bishop_moves(p, s, color);
            lemma_all_ok_concat(p, rook_moves(p.fields, s, color), bishop_moves(p.fields, s, color));
        },
    }
}

/// Each move of a knight leads from its square, by one of its jumps, onto a playable
/// square that is empty or holds a piece to capture.
pub proof fn lemma_in_hops(f: Seq<Field>, s: int, color: Color, m: Move, i: int)
    requires
        0 <= i < knight_moves(f, s, color).len(),
        m == knight_moves(f, s, color)[i],
    ensures
        m.start == sq(s),
        exists|o: int| #[trigger]
            crate::rays::is_jump(o) && playable(s + o) && m.end == sq(s + o) && (fld(f, s + o)
                == Field::Empty || takeable(fld(f, s + o), color)),
        m.move_type == MoveType::Regular || m.move_type == MoveType::Capture,
{
    reveal(hop);
    let a0 = hop(f, s, 12, color);
    let a1 = a0 + hop(f, s, -8, color);
    let a2 = a1 + hop(f, s, 21, color);
    let a3 = a2 + hop(f, s, -19, color);
    let a4 = a3 + hop(f, s, 8, color);
    let a5 = a4 + hop(f, s, -12, color);
    let a6 = a5 + hop(f, s, 19, color);
    let a7 = a6 + hop(f, s, -21, color);
    assert(a7 == knight_moves(f, s, color));
    if i < a0.len() {
        assert(crate::rays::is_jump(12));
    } else if i < a1.len() {
        assert(m == hop(f, s, -8, color)[i - a0.len()]);
        assert(crate::rays::is_jump(-8));
    } else if i < a2.len() {
        assert(m == hop(f, s, 21, color)[i - a1.len()]);
        assert(crate::rays::is_jump(21));
    } else if i < a3.len() {
        assert(m == hop(f, s, -19, color)[i - a2.len()]);
        assert(crate::rays::is_jump(-19));
    } else if i < a4.len() {
        assert(m == hop(f, s, 8, color)[i - a3.len()]);
        assert(crate::rays::is_jump(8));
    } else if i < a5.len() {
        assert(m == hop(f, s, -12, color)[i - a4.len()]);
        assert(crate::rays::is_jump(-12));
    } else if i < a6.len() {
        assert(m == hop(f, s, 19, color)[i - a5.len()]);
        assert(crate::rays::is_jump(19));
    } else {
        assert(m == hop(f, s, -21, color)[i - a6.len()]);
        assert(crate::rays::is_jump(-21));
    }
}

/// `do_move` takes each move of a pawn.
pub proof fn lemma_in_pawn_moves(p: Position, s: int, color: Color, i: int)
    requires
        shaped(p.fields),
        playable(s),
        p.fields[s].occupied(),
        match p.en_passant {
            Some(t) => playable(t.index()),
            None => true,
        },
        0 <= i < pawn_moves(p, s, color).len(),
    ensures
        move_ok(p, pawn_moves(p, s, color)[i]),
{
    reveal(pawn_step);
    reveal(pawn_pushes);
    reveal(pawn_capture);
    reveal(pawn_en_passant);
    let f = p.fields;
    let a0 = pawn_pushes(f, s, color);
    let a1 = a0 + pawn_capture(f, s, color, -1);
    let a2 = a1 + pawn_capture(f, s, color, 1);
    let a3 = a2 + pawn_en_passant(p, s, color);
    let m = pawn_moves(p, s, color)[i];
    assert(a3 == pawn_moves(p, s, color));
    if i < a0.len() {
        assert(m == a0[i]);
    } else if i < a1.len() {
        assert(m == pawn_capture(f, s, color, -1)[i - a0.len()]);
    } else if i < a2.len() {
        assert(m == pawn_capture(f, s, color, 1)[i - a1.len()]);
    } else {
        assert(m == pawn_en_passant(p, s, color)[i - a2.len()]);
    }
}

impl Board {
    /// Adds the moves of the slider on `coord` in one direction.
    pub(crate) fn list_directional_moves<const N: usize>(
        &self,
        coord: Coord,
        color: Color,
        dx: i8,
        dy: i8,
        into: &mut List<Move, N>,
    )
        requires
            shaped(self.fields()),
            -1 <= dx <= 1,
            -1 <= dy <= 1,
            is_step(dx + 10 * dy),
            old(into)@.len() + room(coord.index(), dx + 10 * dy) <= N,
        ensures
            final(into)@ == old(into)@ + slide_moves(
                self.fields(),
                coord.index(),
                coord.index(),
                dx + 10 * dy,
                color,
            ),
    {
        let ghost f = self.fields();
        let ghost d = dx + 10 * dy;
        let ghost s0 = coord.index();
        let ghost total = into@ + slide_moves(f, s0, s0, d, color);
        let mut cur = coord;
        let mut go = true;
        proof {
            use_type_invariant(coord);
        }
        while go
            invariant
                shaped(self.fields()),
                f == self.fields(),
                d == dx + 10 * dy,
                s0 == coord.index(),
                -1 <= dx <= 1,
                -1 <= dy <= 1,
                is_step(d),
                playable(cur.index()),
                go ==> into@.len() + room(cur.index(), d) <= N,
                go ==> into@ + slide_moves(f, s0, cur.index(), d, color) == total,
                !go ==> into@ == total,
            decreases
                    (if go {
                        room(cur.index(), d) + 1
                    } else {
                        0
                    }),
        {
            let next = cur.rel(dx, dy);
            let ghost before = into@;
            let ghost rest = slide_moves(f, s0, cur.index(), d, color);
            proof {
                lemma_step(cur.index(), d);
            }
            match self.get_if_safe(next) {
                Some((c, field)) => {
                    if field == Field::Empty {
                        into.append(Move { start: coord, end: c, move_type: MoveType::Regular });
                        assert(into@ + slide_moves(f, s0, c.index(), d, color) =~= before + rest);
                        cur = c;
                    } else if field.is_color_piece(color) {
                        into.append(Move { start: coord, end: c, move_type: MoveType::Capture });
                        assert(into@ =~= before + rest);
                        go = false;
                    } else {
                        assert(into@ =~= before + rest);
                        go = false;
                    }
                },
                None => {
                    assert(into@ =~= before + rest);
                    go = false;
                },
            }
        }
    }

    pub(crate) fn list_rook_moves<const N: usize>(
        &self,
        coord: Coord,
        color: Color,
        into: &mut List<Move, N>,
    )
        requires
            shaped(self.fields()),
            self.fields()[coord.index()].occupied(),
            old(into)@.len() + 14 <= N,
        ensures
            final(into)@ == old(into)@ + rook_moves(self.fields(), coord.index(), color),
    {
        proof {
            use_type_invariant(coord);
            let f = self.fields();
            let s = coord.index();
            lemma_slide_moves(self@, s, s, 1, color);
            lemma_slide_moves(self@, s, s, -1, color);
            lemma_slide_moves(self@, s, s, 10, color);
            lemma_slide_moves(self@, s, s, -10, color);
            assert(room(s, 1) + room(s, -1) + room(s, 10) + room(s, -10) <= 14);
        }
        self.list_directional_moves(coord, color, 1, 0, into);
        self.list_directional_moves(coord, color, -1, 0, into);
        self.list_directional_moves(coord, color, 0, 1, into);
        self.list_directional_moves(coord, color, 0, -1, into);
        assert(into@ =~= old(into)@ + rook_moves(self.fields(), coord.index(), color));
    }

    pub(crate) fn list_bishop_moves<const N: usize>(
        &self,
        coord: Coord,
        color: Color,
        into: &mut List<Move, N>,
    )
        requires
            shaped(self.fields()),
            self.fields()[coord.index()].occupied(),
            old(into)@.len() + 13 <= N,
        ensures
            final(into)@ == old(into)@ + bishop_moves(self.fields(), coord.index(), color),
    {
        proof {
            use_type_invariant(coord);
            let f = self.fields();
            let s = coord.index();
            lemma_slide_moves(self@, s, s, 11, color);
            lemma_slide_moves(self@, s, s, 9, color);
            lemma_slide_moves(self@, s, s, -9, color);
            lemma_slide_moves(self@, s, s, -11, color);
            assert(room(s, 11) + room(s, 9) + room(s, -9) + room(s, -11) <= 13);
        }
        self.list_directional_moves(coord, color, 1, 1, into);
        self.list_directional_moves(coord, color, -1, 1, into);
        self.list_directional_moves(coord, color, 1, -1, into);
        self.list_directional_moves(coord, color, -1, -1, into);
        assert(into@ =~= old(into)@ + bishop_moves(self.fields(), coord.index(), color));
    }

    pub(crate) fn list_queen_moves<const N: usize>(
        &self,
        coord: Coord,
        color: Color,
        into: &mut List<Move, N>,
    )
        requires
            shaped(self.fields()),
            self.fields()[coord.index()].occupied(),
            old(into)@.len() + 27 <= N,
        ensures
            final(into)@ == old(into)@ + queen_moves(self.fields(), coord.index(), color),
    {
        proof {
            use_type_invariant(coord);
            lemma_rook_moves(self@, coord.index(), color);
        }
        self.list_rook_moves(coord, color, into);
        self.list_bishop_moves(coord, color, into);
        assert(into@ =~= old(into)@ + queen_moves(self.fields(), coord.index(), color));
    }

    /// Adds the move by one offset of a knight, if there is one.
    fn list_hop<const N: usize>(
        &self,
        coord: Coord,
        color: Color,
        x: i8,
        y: i8,
        into: &mut List<Move, N>,
    )
        requires
            shaped(self.fields()),
            -2 <= x <= 2,
            -2 <= y <= 2,
            old(into)@.len() < N,
        ensures
            final(into)@ == old(into)@ + hop(self.fields(), coord.index(), x + 10 * y, color),
            final(into)@.len() <= old(into)@.len() + 1,
    {
        proof {
            reveal(hop);
        }
        if let Some((target, field)) = self.get_if_safe(coord.rel(x, y)) {
            if field == Field::Empty {
                into.append(Move { start: coord, end: target, move_type: MoveType::Regular });
            } else if field.is_color_piece(color) {
                into.append(Move { start: coord, end: target, move_type: MoveType::Capture });
            }
        }
        assert(into@ =~= old(into)@ + hop(self.fields(), coord.index(), x + 10 * y, color));
    }

    pub(crate) fn list_knight_moves<const N: usize>(
        &self,
        coord: Coord,
        color: Color,
        into: &mut List<Move, N>,
    )
        requires
            shaped(self.fields()),
            old(into)@.len() + 8 <= N,
        ensures
            final(into)@ == old(into)@ + knight_moves(self.fields(), coord.index(), color),
    {
        let ghost f = self.fields();
        let ghost s = coord.index();
        let ghost o = into@;
        self.list_hop(coord, color, 2, 1, into);
        let ghost a0 = hop(f, s, 12, color);
        self.list_hop(coord, color, 2, -1, into);
        let ghost a1 = a0 + hop(f, s, -8, color);
        assert(into@ =~= o + a1);
        self.list_hop(coord, color, 1, 2, into);
        let ghost a2 = a1 + hop(f, s, 21, color);
        assert(into@ =~= o + a2);
        self.list_hop(coord, color, 1, -2, into);
        let ghost a3 = a2 + hop(f, s, -19, color);
        assert(into@ =~= o + a3);
        self.list_hop(coord, color, -2, 1, into);
        let ghost a4 = a3 + hop(f, s, 8, color);
        assert(into@ =~= o + a4);
        self.list_hop(coord, color, -2, -1, into);
        let ghost a5 = a4 + hop(f, s, -12, color);
        assert(into@ =~= o + a5);
        self.list_hop(coord, color, -1, 2, into);
        let ghost a6 = a5 + hop(f, s, 19, color);
        assert(into@ =~= o + a6);
        self.list_hop(coord, color, -1, -2, into);
        let ghost a7 = a6 + hop(f, s, -21, color);
        assert(into@ =~= o + a7);
    }

    /// Adds the move of a pawn from `start` to `end`, or its five promotions if the
    /// pawn reaches the last rank.
    fn list_pawn_step<const N: usize>(
        &self,
        start: Coord,
        end: Coord,
        color: Color,
        promotion_type: PromotionType,
        into: &mut List<Move, N>,
    )
        requires
            old(into)@.len() + 5 <= N,
        ensures
            final(into)@ == old(into)@ + pawn_step(
                start.index(),
                end.index(),
                color,
                promotion_type,
            ),
            final(into)@.len() <= old(into)@.len() + 5,
    {
        let delta: i8 = match color {
            Color::White => 1,
            Color::Black => -1,
        };
        proof {
            reveal(pawn_step);
            use_type_invariant(start);
        }
        let endline_reaching = match start.rel(0, delta).endline() {
            Some(c) => c == color,
            None => false,
        };
        if endline_reaching {
            into.append(
                Move { start, end, move_type: MoveType::Promote(Piece::Queen, promotion_type) },
            );
            into.append(
                Move { start, end, move_type: MoveType::Promote(Piece::Rook, promotion_type) },
            );
            into.append(
                Move { start, end, move_type: MoveType::Promote(Piece::Knight, promotion_type) },
            );
            into.append(
                Move { start, end, move_type: MoveType::Promote(Piece::Bishop, promotion_type) },
            );
            into.append(
                Move { start, end, move_type: MoveType::Promote(Piece::Pawn, promotion_type) },
            );
        } else {
            into.append(
                Move {
                    start,
                    end,
                    move_type: match promotion_type {
                        PromotionType::Regular => MoveType::Regular,
                        PromotionType::Capture => MoveType::Capture,
                    },
                },
            );
        }
        assert(into@ =~= old(into)@ + pawn_step(
            start.index(),
            end.index(),
            color,
            promotion_type,
        ));
    }

    fn list_pawn_pushes<const N: usize>(&self, coord: Coord, color: Color, into: &mut List<Move, N>)
        requires
            shaped(self.fields()),
            old(into)@.len() + 6 <= N,
        ensures
            final(into)@ == old(into)@ + pawn_pushes(self.fields(), coord.index(), color),
            final(into)@.len() <= old(into)@.len() + 6,
    {
        let delta: i8 = match color {
            Color::White => 1,
            Color::Black => -1,
        };
        proof {
            reveal(pawn_pushes);
            use_type_invariant(coord);
        }
        if let Some((forward1, Field::Empty)) = self.get_if_safe(coord.rel(0, delta)) {
            self.list_pawn_step(coord, forward1, color, PromotionType::Regular, into);
            let on_baseline = match coord.baseline() {
                Some(c) => c == color,
                None => false,
            };
            if on_baseline {
                if let Some((forward2, Field::Empty)) = self.get_if_safe(coord.rel(0, delta * 2)) {
                    into.append(
                        Move {
                            start: coord,
                            end: forward2,
                            move_type: MoveType::RegularPawnDoubleForward,
                        },
                    );
                }
            }
        }
        assert(into@ =~= old(into)@ + pawn_pushes(self.fields(), coord.index(), color));
    }

    fn list_pawn_capture<const N: usize>(
        &self,
        coord: Coord,
        color: Color,
        side: i8,
        into: &mut List<Move, N>,
    )
        requires
            shaped(self.fields()),
            side == 1 || side == -1,
            old(into)@.len() + 5 <= N,
        ensures
            final(into)@ == old(into)@ + pawn_capture(
                self.fields(),
                coord.index(),
                color,
                side as int,
            ),
            final(into)@.len() <= old(into)@.len() + 5,
    {
        let delta: i8 = match color {
            Color::White => 1,
            Color::Black => -1,
        };
        proof {
            reveal(pawn_capture);
            use_type_invariant(coord);
        }
        if let Some((target, field)) = self.get_if_safe(coord.rel(side, delta)) {
            if field.is_color_piece(color) {
                self.list_pawn_step(coord, target, color, PromotionType::Capture, into);
            }
        }
        assert(into@ =~= old(into)@ + pawn_capture(
            self.fields(),
            coord.index(),
            color,
            side as int,
        ));
    }

    fn list_pawn_en_passant<const N: usize>(
        &self,
        coord: Coord,
        color: Color,
        into: &mut List<Move, N>,
    )
        requires
            shaped(self.fields()),
            old(into)@.len() + 1 <= N,
        ensures
            final(into)@ == old(into)@ + pawn_en_passant(self@, coord.index(), color),
            final(into)@.len() <= old(into)@.len() + 1,
    {
        let delta: i8 = match color {
            Color::White => 1,
            Color::Black => -1,
        };
        proof {
            reveal(pawn_en_passant);
            use_type_invariant(coord);
        }
        if let Some(target) = self.en_passant_chance {
            proof {
                use_type_invariant(target);
            }
            if let Some((jump, behind)) = self.get_if_safe(target.rel(0, delta)) {
                let beside = target.as_unsafe() == coord.rel(1, 0) || target.as_unsafe()
                    == coord.rel(-1, 0);
                let pawn = match (*self.get(target), color) {
                    (Field::WhitePiece(Piece::Pawn), Color::Black) => true,
                    (Field::BlackPiece(Piece::Pawn), Color::White) => true,
                    _ => false,
                };
                if beside && pawn && behind == Field::Empty {
                    into.append(
                        Move { start: coord, end: jump, move_type: MoveType::EnPassant(target) },
                    );
                }
            }
        }
        assert(into@ =~= old(into)@ + pawn_en_passant(self@, coord.index(), color));
    }

    pub(crate) fn list_pawn_moves<const N: usize>(
        &self,
        coord: Coord,
        color: Color,
        into: &mut List<Move, N>,
    )
        requires
            shaped(self.fields()),
            old(into)@.len() + 17 <= N,
        ensures
            final(into)@ == old(into)@ + pawn_moves(self@, coord.index(), color),
    {
        let ghost f = self.fields();
        let ghost s = coord.index();
        let ghost o = into@;
        self.list_pawn_pushes(coord, color, into);
        let ghost a0 = pawn_pushes(f, s, color);
        self.list_pawn_capture(coord, color, -1, into);
        let ghost a1 = a0 + pawn_capture(f, s, color, -1);
        assert(into@ =~= o + a1);
        self.list_pawn_capture(coord, color, 1, into);
        let ghost a2 = a1 + pawn_capture(f, s, color, 1);
        assert(into@ =~= o + a2);
        self.list_pawn_en_passant(coord, color, into);
        let ghost a3 = a2 + pawn_en_passant(self@, s, color);
        assert(into@ =~= o + a3);
    }

    pub(crate) fn list_piece_moves<const N: usize>(
        &self,
        coord: Coord,
        piece: Piece,
        color: Color,
        into: &mut List<Move, N>,
    )
        requires
            shaped(self.fields()),
            self.fields()[coord.index()].occupied(),
            old(into)@.len() + 27 <= N,
        ensures
            final(into)@ == old(into)@ + piece_moves(self@, coord.index(), piece, color),
    {
        match piece {
            Piece::Pawn => self.list_pawn_moves(coord, color, into),
            Piece::Rook => self.list_rook_moves(coord, color, into),
            Piece::Bishop => self.list_bishop_moves(coord, color, into),
            Piece::Knight => self.list_knight_moves(coord, color, into),
            Piece::Queen => self.list_queen_moves(coord, color, into),
        }
    }
}

} // verus!
