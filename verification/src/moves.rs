use crate::board::{
    col, lemma_owned_update, owned_below, playable, row, Board, Color, CommonCoord, Coord, Field,
    Piece, Position,
};
use crate::list::List;
use crate::pins::enemies;
use crate::rays::{attacks, shaped};
use crate::threat::{ids, lemma_mask_same, mask_matches, King, ThreatMask};
use vstd::prelude::*;

verus! {

/// No piece has more moves than this.
pub const MAX_MOVES: usize = 27;

/// No side has more pieces than this.
pub const MAX_PIECES: usize = 16;

/// No side has more moves than this: the most moves of a piece for each piece.
pub const MAX_ALL_MOVES: usize = 432;

/// The moves of one piece.
pub type MoveList = List<Move, 27>;

/// The moves of all pieces of one side.
pub type LongMoveList = List<Move, 432>;

/// Whether a pawn promotes by a plain move or by a capture.
#[derive(Debug, Clone, Copy, PartialEq, Eq, Structural)]
pub enum PromotionType {
    Regular,
    Capture,
}

/// Where the rook of a castling move stands and where it goes.
#[derive(Debug, Clone, Copy, PartialEq, Eq, Structural)]
pub struct Castle {
    pub rook_pos: Coord,
    pub rook_target: Coord,
}

/// The kinds of move.
#[derive(Debug, Clone, Copy, PartialEq, Eq, Structural)]
pub enum MoveType {
    Regular,
    RegularPawnDoubleForward,
    Capture,
    Promote(Piece, PromotionType),
    EnPassant(Coord),
    Castle(Castle),
}

/// A move: from where, to where, and of what kind.
#[derive(Debug, Clone, Copy, PartialEq, Eq, Structural)]
pub struct Move {
    pub start: Coord,
    pub end: Coord,
    pub move_type: MoveType,
}

/// The field of the standard starting position at index `i` of the padded board.
pub open spec fn start_field(i: int) -> Field {
    if !playable(i) {
        Field::Invincible
    } else if row(i) == 3 {
        Field::WhitePiece(Piece::Pawn)
    } else if row(i) == 8 {
        Field::BlackPiece(Piece::Pawn)
    } else if row(i) == 2 {
        if col(i) == 5 {
            Field::WhiteKing
        } else {
            Field::WhitePiece(back_rank(col(i)))
        }
    } else if row(i) == 9 {
        if col(i) == 5 {
            Field::BlackKing
        } else {
            Field::BlackPiece(back_rank(col(i)))
        }
    } else {
        Field::Empty
    }
}

/// The piece that starts in column `c` of a back rank; the king's column aside.
pub open spec fn back_rank(c: int) -> Piece {
    if c == 1 || c == 8 {
        Piece::Rook
    } else if c == 2 || c == 7 {
        Piece::Knight
    } else if c == 3 || c == 6 {
        Piece::Bishop
    } else {
        Piece::Queen
    }
}

/// The standard starting position: nothing to capture in passing, all castling
/// rights in place.
pub open spec fn start_position() -> Position {
    Position {
        fields: Seq::new(120, |i: int| start_field(i)),
        en_passant: None,
        white_left: true,
        white_right: true,
        black_left: true,
        black_right: true,
    }
}

/// What a pawn becomes when it is promoted to `kind`; a king stays what it is.
pub open spec fn promoted(v: Field, kind: Piece) -> Field {
    match v {
        Field::BlackPiece(_) => Field::BlackPiece(kind),
        Field::WhitePiece(_) => Field::WhitePiece(kind),
        _ => v,
    }
}

/// The moves that `do_move` takes: a king or piece stands on the start, no king is
/// captured, and the squares that the move names are distinct.
pub open spec fn move_ok(p: Position, m: Move) -> bool {
    let f = p.fields;
    &&& f[m.start.index()].occupied()
    &&& m.end != m.start
    &&& !f[m.end.index()].is_king()
    &&& match m.move_type {
        MoveType::EnPassant(t) => t != m.start && t != m.end && !f[t.index()].is_king(),
        MoveType::Castle(c) => {
            &&& c.rook_pos != m.start
            &&& c.rook_pos != m.end
            &&& c.rook_target != m.start
            &&& c.rook_target != m.end
            &&& c.rook_target != c.rook_pos
            &&& f[c.rook_pos.index()].occupied()
            &&& !f[c.rook_pos.index()].is_king()
            &&& !f[c.rook_target.index()].is_king()
        },
        _ => true,
    }
}

/// The fields after a move.
pub open spec fn moved_fields(f: Seq<Field>, m: Move) -> Seq<Field> {
    let s = m.start.index();
    let e = m.end.index();
    match m.move_type {
        MoveType::Regular | MoveType::RegularPawnDoubleForward | MoveType::Capture => f.update(
            s,
            Field::Empty,
        ).update(e, f[s]),
        MoveType::Promote(kind, _) => f.update(s, Field::Empty).update(e, promoted(f[s], kind)),
        MoveType::EnPassant(t) => f.update(s, Field::Empty).update(e, f[s]).update(
            t.index(),
            Field::Empty,
        ),
        MoveType::Castle(c) => f.update(s, Field::Empty).update(e, f[s]).update(
            c.rook_pos.index(),
            Field::Empty,
        ).update(c.rook_target.index(), f[c.rook_pos.index()]),
    }
}

/// Whether a castling right of `color` survives a move that starts on `s` with `v`:
/// it is lost when the king moves, and when a rook leaves the corner on that side.
pub open spec fn keeps_right(v: Field, s: int, color: Color, left: bool) -> bool {
    let corner: int = match color {
        Color::White => if left {
            21
        } else {
            28
        },
        Color::Black => if left {
            91
        } else {
            98
        },
    };
    v != Field::king_of(color) && !(v == Field::of(color, Piece::Rook) && s == corner)
}

/// The position after a move.
pub open spec fn apply_move(p: Position, m: Move) -> Position {
    let v = p.fields[m.start.index()];
    let s = m.start.index();
    Position {
        fields: moved_fields(p.fields, m),
        en_passant: if m.move_type == MoveType::RegularPawnDoubleForward {
            Some(m.end)
        } else {
            None
        },
        white_left: p.white_left && keeps_right(v, s, Color::White, true),
        white_right: p.white_right && keeps_right(v, s, Color::White, false),
        black_left: p.black_left && keeps_right(v, s, Color::Black, true),
        black_right: p.black_right && keeps_right(v, s, Color::Black, false),
    }
}

fn is_a_king(x: Field) -> (b: bool)
    ensures
        b == x.is_king(),
{
    match x {
        Field::WhiteKing | Field::BlackKing => true,
        _ => false,
    }
}

fn promote_field(v: Field, kind: Piece) -> (r: Field)
    ensures
        r == promoted(v, kind),
{
    match v {
        Field::BlackPiece(_) => Field::BlackPiece(kind),
        Field::WhitePiece(_) => Field::WhitePiece(kind),
        other => other,
    }
}

impl Board {
    /// Whether `do_move` takes a move.
    pub fn is_move_ok(&self, mv: &Move) -> (b: bool)
        ensures
            b == move_ok(self@, *mv),
    {
        proof {
            use_type_invariant(mv.start);
            use_type_invariant(mv.end);
        }
        let start = *self.get(mv.start);
        let end = *self.get(mv.end);
        let origin = match start {
            Field::Empty | Field::Invincible => false,
            _ => true,
        };
        if !origin || mv.end == mv.start || is_a_king(end) {
            return false;
        }
        match mv.move_type {
            MoveType::EnPassant(t) => {
                proof {
                    use_type_invariant(t);
                }
                t != mv.start && t != mv.end && !is_a_king(*self.get(t))
            },
            MoveType::Castle(c) => {
                proof {
                    use_type_invariant(c.rook_pos);
                    use_type_invariant(c.rook_target);
                }
                let rook = *self.get(c.rook_pos);
                let there = match rook {
                    Field::WhitePiece(_) | Field::BlackPiece(_) => true,
                    _ => false,
                };
                c.rook_pos != mv.start && c.rook_pos != mv.end && c.rook_target != mv.start
                    && c.rook_target != mv.end && c.rook_target != c.rook_pos && there
                    && !is_a_king(*self.get(c.rook_target))
            },
            _ => true,
        }
    }

    /// Puts the piece or king `v` on a square, whatever stood there.
    fn put(&mut self, coord: Coord, v: Field)
        requires
            shaped(old(self).fields()),
            mask_matches(old(self).fields(), old(self).mask(), Set::full()),
            v.occupied(),
        ensures
            final(self).fields() == old(self).fields().update(coord.index(), v),
            shaped(final(self).fields()),
            mask_matches(final(self).fields(), final(self).mask(), Set::full()),
            final(self).white_king == old(self).white_king,
            final(self).black_king == old(self).black_king,
            final(self).en_passant_chance == old(self).en_passant_chance,
    {
        proof {
            use_type_invariant(coord);
        }
        if *self.get(coord) == Field::Empty {
            self.place(coord, v);
        } else {
            let _ = self.replace(coord, v);
        }
    }

    /// Empties a square, whatever stood there.
    fn clear(&mut self, coord: Coord)
        requires
            shaped(old(self).fields()),
            mask_matches(old(self).fields(), old(self).mask(), Set::full()),
        ensures
            final(self).fields() == old(self).fields().update(coord.index(), Field::Empty),
            shaped(final(self).fields()),
            mask_matches(final(self).fields(), final(self).mask(), Set::full()),
            final(self).white_king == old(self).white_king,
            final(self).black_king == old(self).black_king,
            final(self).en_passant_chance == old(self).en_passant_chance,
    {
        proof {
            use_type_invariant(coord);
        }
        if *self.get(coord) == Field::Empty {
            assert(self.fields() =~= self.fields().update(coord.index(), Field::Empty));
        } else {
            let _ = self.lift(coord);
        }
    }

    /// Changes the field array and the threat mask as the move asks.
    fn shift_pieces(&mut self, mv: Move)
        requires
            shaped(old(self).fields()),
            mask_matches(old(self).fields(), old(self).mask(), Set::full()),
            move_ok(old(self)@, mv),
        ensures
            final(self).fields() == moved_fields(old(self).fields(), mv),
            shaped(final(self).fields()),
            mask_matches(final(self).fields(), final(self).mask(), Set::full()),
            final(self).white_king == old(self).white_king,
            final(self).black_king == old(self).black_king,
            final(self).en_passant_chance == old(self).en_passant_chance,
    {
        proof {
            use_type_invariant(mv.start);
            use_type_invariant(mv.end);
        }
        let v = self.lift(mv.start);
        match mv.move_type {
            MoveType::Regular | MoveType::RegularPawnDoubleForward | MoveType::Capture => {
                self.put(mv.end, v);
            },
            MoveType::Promote(kind, _) => {
                self.put(mv.end, promote_field(v, kind));
            },
            MoveType::EnPassant(target) => {
                self.put(mv.end, v);
                self.clear(target);
            },
            MoveType::Castle(c) => {
                proof {
                    use_type_invariant(c.rook_pos);
                    use_type_invariant(c.rook_target);
                }
                self.put(mv.end, v);
                let r = self.lift(c.rook_pos);
                self.put(c.rook_target, r);
            },
        }
    }
}

/// No move adds a piece: a side has as many pieces after a move as before, or fewer.
pub proof fn lemma_move_count(f: Seq<Field>, m: Move, color: Color)
    requires
        f.len() == 120,
        playable(m.start.index()),
        playable(m.end.index()),
        match m.move_type {
            MoveType::EnPassant(t) => playable(t.index()),
            MoveType::Castle(c) => playable(c.rook_pos.index()) && playable(c.rook_target.index())
                && c.rook_pos != m.start && c.rook_pos != m.end,
            _ => true,
        },
        m.end != m.start,
    ensures
        owned_below(moved_fields(f, m), color, 120) <= owned_below(f, color, 120),
{
    let s = m.start.index();
    let e = m.end.index();
    let f1 = f.update(s, Field::Empty);
    lemma_owned_update(f, color, s, Field::Empty, 120);
    match m.move_type {
        MoveType::Regular | MoveType::RegularPawnDoubleForward | MoveType::Capture => {
            lemma_owned_update(f1, color, e, f[s], 120);
        },
        MoveType::Promote(kind, _) => {
            lemma_owned_update(f1, color, e, promoted(f[s], kind), 120);
        },
        MoveType::EnPassant(t) => {
            let f2 = f1.update(e, f[s]);
            lemma_owned_update(f1, color, e, f[s], 120);
            lemma_owned_update(f2, color, t.index(), Field::Empty, 120);
        },
        MoveType::Castle(c) => {
            let f2 = f1.update(e, f[s]);
            let f3 = f2.update(c.rook_pos.index(), Field::Empty);
            lemma_owned_update(f1, color, e, f[s], 120);
            lemma_owned_update(f2, color, c.rook_pos.index(), Field::Empty, 120);
            lemma_owned_update(f3, color, c.rook_target.index(), f[c.rook_pos.index()], 120);
        },
    }
}

/// Where a king stands after a move: on the end of the move if it was the king
/// that moved, else where it stood; and there is still one king of that side only.
pub proof fn lemma_king_after(p: Position, m: Move, color: Color, k: int)
    requires
        p.fields.len() == 120,
        playable(m.start.index()),
        playable(m.end.index()),
        match m.move_type {
            MoveType::EnPassant(t) => playable(t.index()),
            MoveType::Castle(c) => playable(c.rook_pos.index()) && playable(c.rook_target.index()),
            _ => true,
        },
        move_ok(p, m),
        0 <= k < 120,
        p.fields[k] == Field::king_of(color),
        forall|i: int| 0 <= i < 120 && #[trigger] p.fields[i] == Field::king_of(color) ==> i == k,
    ensures
        ({
            let g = moved_fields(p.fields, m);
            let k2 = if p.fields[m.start.index()] == Field::king_of(color) {
                m.end.index()
            } else {
                k
            };
            &&& g[k2] == Field::king_of(color)
            &&& forall|i: int| 0 <= i < 120 && #[trigger] g[i] == Field::king_of(color) ==> i == k2
        }),
{
    let f = p.fields;
    let g = moved_fields(f, m);
    let s = m.start.index();
    let e = m.end.index();
    Coord::lemma_index_injective(m.start, m.end);
    match m.move_type {
        MoveType::EnPassant(t) => {
            Coord::lemma_index_injective(t, m.start);
            Coord::lemma_index_injective(t, m.end);
        },
        MoveType::Castle(c) => {
            Coord::lemma_index_injective(c.rook_pos, m.start);
            Coord::lemma_index_injective(c.rook_pos, m.end);
            Coord::lemma_index_injective(c.rook_target, m.start);
            Coord::lemma_index_injective(c.rook_target, m.end);
            Coord::lemma_index_injective(c.rook_target, c.rook_pos);
        },
        _ => {},
    }
    let k2 = if f[s] == Field::king_of(color) {
        e
    } else {
        k
    };
    assert(f[s] == Field::king_of(color) ==> s == k);
    assert forall|i: int| 0 <= i < 120 && #[trigger] g[i] == Field::king_of(color) implies i
        == k2 by {
        if i != s && i != e {
            match m.move_type {
                MoveType::EnPassant(t) => {
                    if i != t.index() {
                        assert(g[i] == f[i]);
                    }
                },
                MoveType::Castle(c) => {
                    if i != c.rook_pos.index() && i != c.rook_target.index() {
                        assert(g[i] == f[i]);
                    }
                },
                _ => {
                    assert(g[i] == f[i]);
                },
            }
        }
    }
}

impl Board {
    /// Makes a move: the piece goes from the start to the end of the move, what
    /// the move captures leaves the board, a castling rook follows its king and a
    /// promoted pawn changes its kind. The threat mask, the castling rights, the
    /// en-passant chance and both king states are brought up to date.
    pub fn do_move(&mut self, mv: Move)
        requires
            old(self).wf(),
            move_ok(old(self)@, mv),
        ensures
            final(self).wf(),
            final(self)@ == apply_move(old(self)@, mv),
    {
        let ghost f = self.fields();
        let ghost p = self@;
        proof {
            use_type_invariant(mv.start);
            use_type_invariant(mv.end);
            match mv.move_type {
                MoveType::EnPassant(t) => {
                    use_type_invariant(t);
                },
                MoveType::Castle(c) => {
                    use_type_invariant(c.rook_pos);
                    use_type_invariant(c.rook_target);
                },
                _ => {},
            }
            lemma_move_count(f, mv, Color::White);
            lemma_move_count(f, mv, Color::Black);
        }
        let wk = self.white_king.coord;
        let bk = self.black_king.coord;
        proof {
            use_type_invariant(wk);
            use_type_invariant(bk);
            lemma_king_after(p, mv, Color::White, wk.index());
            lemma_king_after(p, mv, Color::Black, bk.index());
        }
        let moving = *self.get(mv.start);
        match moving {
            Field::BlackKing => {
                self.black_king.coord = mv.end;
                self.black_king.castling_to_left = false;
                self.black_king.castling_to_right = false;
            },
            Field::WhiteKing => {
                self.white_king.coord = mv.end;
                self.white_king.castling_to_left = false;
                self.white_king.castling_to_right = false;
            },
            Field::WhitePiece(Piece::Rook) => {
                if mv.start.raw() == 21 {
                    self.white_king.castling_to_left = false;
                } else if mv.start.raw() == 28 {
                    self.white_king.castling_to_right = false;
                }
            },
            Field::BlackPiece(Piece::Rook) => {
                if mv.start.raw() == 91 {
                    self.black_king.castling_to_left = false;
                } else if mv.start.raw() == 98 {
                    self.black_king.castling_to_right = false;
                }
            },
            _ => {},
        }
        self.en_passant_chance = match mv.move_type {
            MoveType::RegularPawnDoubleForward => Some(mv.end),
            _ => None,
        };
        self.shift_pieces(mv);
        self.update_potential_checks();
        self.update_aggressors(Color::White);
        self.update_aggressors(Color::Black);
        proof {
            let g = self.fields();
            assert(g == moved_fields(f, mv));
            assert(self.king_placed(Color::White));
            assert(self.king_placed(Color::Black));
        }
    }
}

impl Clone for Board {
    fn clone(&self) -> (r: Self)
        ensures
            r@ == self@,
            self.wf() ==> r.wf(),
            forall|c: Color|
                {
                    &&& (#[trigger] r.king(c)).coord == self.king(c).coord
                    &&& r.king(c).potential_check_map == self.king(c).potential_check_map
                    &&& r.king(c).aggressors@ == self.king(c).aggressors@
                },
            self.mask().wf() ==> forall|s: int|
                0 <= s < 120 ==> #[trigger] r.mask().at(s) == self.mask().at(s),
    {
        let wk = self.white_king.coord;
        let bk = self.black_king.coord;
        proof {
            use_type_invariant(wk);
            use_type_invariant(bk);
        }
        let r = Board {
            data: self.data,
            white_king: self.white_king.clone(),
            black_king: self.black_king.clone(),
            en_passant_chance: self.en_passant_chance,
            threat_mask: self.threat_mask.clone(),
        };
        proof {
            if self.wf() {
                lemma_mask_same(self.fields(), self.mask(), r.mask(), Set::full());
                assert(r.mask().at(wk.index()) == self.mask().at(wk.index()));
                assert(r.mask().at(bk.index()) == self.mask().at(bk.index()));
                assert(r.king_consistent(Color::White));
                assert(r.king_consistent(Color::Black));
            }
        }
        r
    }
}

/// The fields while the starting position is set up: the first `x` columns hold
/// their pieces, the others are still empty.
pub open spec fn setup_field(i: int, x: int) -> Field {
    if playable(i) && col(i) > x {
        Field::Empty
    } else {
        start_field(i)
    }
}

fn back_piece(x: i8) -> (p: Piece)
    requires
        0 <= x <= 7,
    ensures
        p == back_rank(x + 1),
{
    if x == 0 || x == 7 {
        Piece::Rook
    } else if x == 1 || x == 6 {
        Piece::Knight
    } else if x == 2 || x == 5 {
        Piece::Bishop
    } else {
        Piece::Queen
    }
}

impl Board {
    /// The standard starting position.
    pub fn new() -> (b: Self)
        ensures
            b.wf(),
            b@ == start_position(),
    {
        let mut data: [Field; 120] = [Field::Invincible;120];
        let mut n: usize = 0;
        while n < 120
            invariant
                n <= 120,
                forall|i: int| 0 <= i < n ==> #[trigger] data@[i] == Field::Invincible,
            decreases 120 - n,
        {
            data[n] = Field::Invincible;
            n += 1;
        }
        let mut y: i8 = 0;
        while y < 8
            invariant
                0 <= y <= 8,
                forall|i: int|
                    0 <= i < 120 ==> #[trigger] data@[i] == (if playable(i) && i < 21 + 10 * y {
                        Field::Empty
                    } else {
                        Field::Invincible
                    }),
            decreases 8 - y,
        {
            let mut x: i8 = 0;
            while x < 8
                invariant
                    0 <= y < 8,
                    0 <= x <= 8,
                    forall|i: int|
                        0 <= i < 120 ==> #[trigger] data@[i] == (if playable(i) && i < 21 + x + 10
                            * y {
                            Field::Empty
                        } else {
                            Field::Invincible
                        }),
                decreases 8 - x,
            {
                data[(21 + x + 10 * y) as usize] = Field::Empty;
                x += 1;
            }
            y += 1;
        }
        let mut b = Board {
            data,
            white_king: King::new(Color::White),
            black_king: King::new(Color::Black),
            en_passant_chance: None,
            threat_mask: ThreatMask::new(),
        };
        proof {
            let f = b.fields();
            let m = b.mask();
            assert forall|s: int| 0 <= s < 120 implies #[trigger] ids(m.at(s)).no_duplicates() by {
                assert(ids(m.at(s)) =~= Seq::<int>::empty());
            }
            assert forall|s: int, t: int| 0 <= s < 120 implies (#[trigger] m.has(s, t) <==> attacks(
                f,
                t,
                s,
            ) && Set::<int>::full().contains(t)) by {
                assert(ids(m.at(s)) =~= Seq::<int>::empty());
            }
            assert forall|n: int| 0 <= n <= 120 implies owned_below(f, Color::White, n) == 0
                && owned_below(f, Color::Black, n) == 0 by {
                lemma_none_owned(f, n);
            }
        }
        let mut x: i8 = 0;
        while x < 8
            invariant
                0 <= x <= 8,
                shaped(b.fields()),
                mask_matches(b.fields(), b.mask(), Set::full()),
                forall|i: int| 0 <= i < 120 ==> #[trigger] b.fields()[i] == setup_field(i, x as int),
                owned_below(b.fields(), Color::White, 120) <= 2 * x,
                owned_below(b.fields(), Color::Black, 120) <= 2 * x,
                b.white_king.coord.index() == 25,
                b.black_king.coord.index() == 95,
                b.white_king.castling_to_left && b.white_king.castling_to_right,
                b.black_king.castling_to_left && b.black_king.castling_to_right,
                b.en_passant_chance.is_none(),
            decreases 8 - x,
        {
            let white: Field = if x == 4 {
                Field::WhiteKing
            } else {
                Field::WhitePiece(back_piece(x))
            };
            let black: Field = if x == 4 {
                Field::BlackKing
            } else {
                Field::BlackPiece(back_piece(x))
            };
            proof {
                let f0 = b.fields();
                let i0 = 21 + x;
                let f1 = f0.update(i0, white);
                let f2 = f1.update(i0 + 10, Field::WhitePiece(Piece::Pawn));
                let f3 = f2.update(i0 + 60, Field::BlackPiece(Piece::Pawn));
                lemma_owned_update(f0, Color::White, i0, white, 120);
                lemma_owned_update(f0, Color::Black, i0, white, 120);
                lemma_owned_update(f1, Color::White, i0 + 10, Field::WhitePiece(Piece::Pawn), 120);
                lemma_owned_update(f1, Color::Black, i0 + 10, Field::WhitePiece(Piece::Pawn), 120);
                lemma_owned_update(f2, Color::White, i0 + 60, Field::BlackPiece(Piece::Pawn), 120);
                lemma_owned_update(f2, Color::Black, i0 + 60, Field::BlackPiece(Piece::Pawn), 120);
                lemma_owned_update(f3, Color::White, i0 + 70, black, 120);
                lemma_owned_update(f3, Color::Black, i0 + 70, black, 120);
            }
            b.place(Coord::from_xy(x, 0), white);
            b.place(Coord::from_xy(x, 1), Field::WhitePiece(Piece::Pawn));
            b.place(Coord::from_xy(x, 6), Field::BlackPiece(Piece::Pawn));
            b.place(Coord::from_xy(x, 7), black);
            x += 1;
        }
        b.update_potential_checks();
        b.update_aggressors(Color::White);
        b.update_aggressors(Color::Black);
        proof {
            assert(b.fields() =~= start_position().fields);
        }
        b
    }
}

/// On a board without pieces no side owns a square.
pub proof fn lemma_none_owned(f: Seq<Field>, n: int)
    requires
        forall|i: int| 0 <= i < 120 ==> !(#[trigger] f[i]).occupied(),
        f.len() == 120,
        0 <= n <= 120,
    ensures
        owned_below(f, Color::White, n) == 0,
        owned_below(f, Color::Black, n) == 0,
    decreases n,
{
    if n > 0 {
        lemma_none_owned(f, n - 1);
        assert(!f[n - 1].occupied());
    }
}

impl Default for Board {
    fn default() -> (b: Self)
        ensures
            b.wf(),
            b@ == start_position(),
    {
        Self::new()
    }
}

} // verus!
