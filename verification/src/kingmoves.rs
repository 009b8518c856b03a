use crate::board::{playable, sq, Board, Color, CommonCoord, Coord, Field, Piece, Position, UnsafeCoord};
use crate::list::List;
use crate::movegen::{all_ok, lemma_all_ok_concat, mk, takeable};
use crate::moves::{Castle, Move, MoveType};
use crate::pins::{enemies, is_enemy};
use crate::rays::{attacks, fld, is_step, shaped};
use crate::threat::{ids, mask_matches, ThreatMask};
use vstd::prelude::*;

verus! {

/// Whether a piece or the king of the side opposing `color` attacks the square `s`.
pub open spec fn threatened(f: Seq<Field>, s: int, color: Color) -> bool {
    exists|t: int| #[trigger] attacks(f, t, s) && fld(f, t).owner() == Some(color.opposite())
}

/// A mask that matches the board lists an enemy attacker of a square exactly when
/// the square is threatened.
pub proof fn lemma_threatened(f: Seq<Field>, m: ThreatMask, s: int, color: Color)
    requires
        mask_matches(f, m, Set::full()),
        0 <= s < 120,
    ensures
        (enemies(f, m.at(s), color).len() > 0) == threatened(f, s, color),
{
    let q = m.at(s);
    let pred = is_enemy(f, color);
    let r = q.filter(pred);
    if r.len() > 0 {
        q.lemma_filter_pred(pred, 0);
        assert(r.contains(r[0]));
        q.lemma_filter_contains_rev(pred, r[0]);
        let i = choose|i: int| 0 <= i < q.len() && q[i] == r[0];
        assert(ids(q)[i] == r[0].index());
        assert(ids(q).contains(r[0].index()));
        assert(m.has(s, r[0].index()));
        assert(attacks(f, r[0].index(), s));
    }
    if threatened(f, s, color) {
        let t = choose|t: int| #[trigger]
            attacks(f, t, s) && fld(f, t).owner() == Some(color.opposite());
        assert(m.has(s, t));
        let i = choose|i: int| 0 <= i < ids(q).len() && ids(q)[i] == t;
        assert(pred(q[i]));
        q.lemma_filter_contains(pred, i);
        let j = choose|j: int| 0 <= j < r.len() && r[j] == q[i];
    }
}

/// Whether one of the pieces that attack the king on `k` also attacks the square
/// behind the king as seen from `target`: a king that steps to `target` would stay
/// on the line of that attacker.
pub open spec fn behind_attacked(f: Seq<Field>, k: int, target: int, color: Color) -> bool {
    exists|t: int| #[trigger]
        attacks(f, t, k) && takeable(fld(f, t), color) && attacks(f, t, 2 * k - target)
}

/// The step of the king on `k` by `d`, if it may take it: onto a playable square
/// that the opponent does not attack and that is empty or holds a piece to capture;
/// while in check, not along the line of an attacker.
#[verifier::opaque]
pub open spec fn king_step(f: Seq<Field>, k: int, color: Color, in_check: bool, d: int) -> Seq<
    Move,
> {
    let n = k + d;
    if playable(n) && !threatened(f, n, color) && (fld(f, n) == Field::Empty || takeable(
        fld(f, n),
        color,
    )) && !(in_check && behind_attacked(f, k, n, color)) {
        seq![
            mk(
                k,
                n,
                if fld(f, n) == Field::Empty {
                    MoveType::Regular
                } else {
                    MoveType::Capture
                },
            ),
        ]
    } else {
        Seq::empty()
    }
}

/// The steps of the king on `k`.
pub open spec fn king_steps(f: Seq<Field>, k: int, color: Color, in_check: bool) -> Seq<Move> {
    king_step(f, k, color, in_check, 1) + king_step(f, k, color, in_check, -1) + king_step(
        f,
        k,
        color,
        in_check,
        10,
    ) + king_step(f, k, color, in_check, -10) + king_step(f, k, color, in_check, 9) + king_step(
        f,
        k,
        color,
        in_check,
        -11,
    ) + king_step(f, k, color, in_check, 11) + king_step(f, k, color, in_check, -9)
}

/// Castling towards the h-file, if the king on `k` may: the right is still there,
/// the two squares beside the king are empty and not attacked, and the king's own
/// rook stands on the third.
#[verifier::opaque]
pub open spec fn castle_to_right(p: Position, k: int, color: Color) -> Seq<Move> {
    let f = p.fields;
    if p.castle_right(color) && playable(k + 1) && playable(k + 2) && playable(k + 3) && fld(
        f,
        k + 1,
    ) == Field::Empty && fld(f, k + 2) == Field::Empty && fld(f, k + 3) == Field::of(
        color,
        Piece::Rook,
    ) && !threatened(f, k + 1, color) && !threatened(f, k + 2, color) {
        seq![
            mk(k, k + 2, MoveType::Castle(Castle { rook_pos: sq(k + 3), rook_target: sq(k + 1) })),
        ]
    } else {
        Seq::empty()
    }
}

/// Castling towards the a-file, if the king on `k` may: the right is still there,
/// the three squares between king and rook are empty, the two that the king
/// crosses are not attacked, and the king's own rook stands on the fourth.
#[verifier::opaque]
pub open spec fn castle_to_left(p: Position, k: int, color: Color) -> Seq<Move> {
    let f = p.fields;
    if p.castle_left(color) && playable(k - 1) && playable(k - 2) && playable(k - 3) && playable(
        k - 4,
    ) && fld(f, k - 1) == Field::Empty && fld(f, k - 2) == Field::Empty && fld(f, k - 3)
        == Field::Empty && fld(f, k - 4) == Field::of(color, Piece::Rook) && !threatened(
        f,
        k - 1,
        color,
    ) && !threatened(f, k - 2, color) {
        seq![
            mk(k, k - 2, MoveType::Castle(Castle { rook_pos: sq(k - 4), rook_target: sq(k - 1) })),
        ]
    } else {
        Seq::empty()
    }
}

/// The moves of the king on `k`: its steps, and castling while it is not in check.
pub open spec fn king_moves(p: Position, k: int, color: Color, in_check: bool) -> Seq<Move> {
    king_steps(p.fields, k, color, in_check) + (if in_check {
        Seq::empty()
    } else {
        castle_to_right(p, k, color) + castle_to_left(p, k, color)
    })
}

/// `do_move` takes the step of a king, and it is one move at most.
pub proof fn lemma_king_step(p: Position, k: int, color: Color, in_check: bool, d: int)
    requires
        shaped(p.fields),
        playable(k),
        p.fields[k].occupied(),
        is_step(d),
    ensures
        king_step(p.fields, k, color, in_check, d).len() <= 1,
        all_ok(p, king_step(p.fields, k, color, in_check, d)),
{
    reveal(king_step);
}

/// A king has at most ten moves, and `do_move` takes each of them.
pub proof fn lemma_king_moves(p: Position, k: int, color: Color, in_check: bool)
    requires
        shaped(p.fields),
        playable(k),
        p.fields[k].occupied(),
    ensures
        king_moves(p, k, color, in_check).len() <= 10,
        all_ok(p, king_moves(p, k, color, in_check)),
{
    let f = p.fields;
    lemma_king_step(p, k, color, in_check, 1);
    lemma_king_step(p, k, color, in_check, -1);
    lemma_king_step(p, k, color, in_check, 10);
    lemma_king_step(p, k, color, in_check, -10);
    lemma_king_step(p, k, color, in_check, 9);
    lemma_king_step(p, k, color, in_check, -11);
    lemma_king_step(p, k, color, in_check, 11);
    lemma_king_step(p, k, color, in_check, -9);
    let a0 = king_step(f, k, color, in_check, 1);
    let a1 = a0 + king_step(f, k, color, in_check, -1);
    let a2 = a1 + king_step(f, k, color, in_check, 10);
    let a3 = a2 + king_step(f, k, color, in_check, -10);
    let a4 = a3 + king_step(f, k, color, in_check, 9);
    let a5 = a4 + king_step(f, k, color, in_check, -11);
    let a6 = a5 + king_step(f, k, color, in_check, 11);
    let a7 = a6 + king_step(f, k, color, in_check, -9);
    lemma_all_ok_concat(p, a0, king_step(f, k, color, in_check, -1));
    lemma_all_ok_concat(p, a1, king_step(f, k, color, in_check, 10));
    lemma_all_ok_concat(p, a2, king_step(f, k, color, in_check, -10));
    lemma_all_ok_concat(p, a3, king_step(f, k, color, in_check, 9));
    lemma_all_ok_concat(p, a4, king_step(f, k, color, in_check, -11));
    lemma_all_ok_concat(p, a5, king_step(f, k, color, in_check, 11));
    lemma_all_ok_concat(p, a6, king_step(f, k, color, in_check, -9));
    assert(a7 == king_steps(f, k, color, in_check));
    if !in_check {
        let r = castle_to_right(p, k, color);
        let l = castle_to_left(p, k, color);
        assert(r.len() <= 1 && all_ok(p, r)) by {
            reveal(castle_to_right);
        }
        assert(l.len() <= 1 && all_ok(p, l)) by {
            reveal(castle_to_left);
        }
        lemma_all_ok_concat(p, r, l);
        lemma_all_ok_concat(p, a7, r + l);
    } else {
        lemma_all_ok_concat(p, a7, Seq::empty());
    }
}

impl Board {
    /// Whether the side opposing `color` attacks a playable square.
    pub(crate) fn is_threatened(&self, coord: Coord, color: Color) -> (b: bool)
        requires
            shaped(self.fields()),
            mask_matches(self.fields(), self.mask(), Set::full()),
        ensures
            b == threatened(self.fields(), coord.index(), color),
    {
        proof {
            use_type_invariant(coord);
            lemma_threatened(self.fields(), self.mask(), coord.index(), color);
        }
        self.get_threatened_by(coord, color)
    }

    /// Whether the king of `color` is in check.
    pub fn is_in_check(&self, color: Color) -> (b: bool)
        requires
            self.wf(),
        ensures
            b == threatened(self.fields(), self.king(color).coord.index(), color),
    {
        self.is_threatened(self.get_king(color).coord, color)
    }

    /// Whether the king on `coord`, stepping to `target`, would stay on the line of
    /// one of the pieces that attack it.
    fn is_bad_king_move(&self, coord: Coord, target: Coord, color: Color) -> (b: bool)
        requires
            shaped(self.fields()),
            mask_matches(self.fields(), self.mask(), Set::full()),
            is_step(target.index() - coord.index()),
        ensures
            b == behind_attacked(self.fields(), coord.index(), target.index(), color),
    {
        let ghost f = self.fields();
        let ghost k = coord.index();
        proof {
            use_type_invariant(coord);
            use_type_invariant(target);
        }
        let od = UnsafeCoord::at(coord.raw() + (coord.raw() - target.raw()));
        let ghost o = od.index();
        let kl = self.threat_mask.get(coord);
        let ol = self.threat_mask.get(od);
        let n: usize = kl.len();
        let mut i: usize = 0;
        while i < n
            invariant
                i <= n,
                n == kl@.len(),
                f == self.fields(),
                k == coord.index(),
                o == 2 * k - target.index(),
                0 <= o < 120,
                playable(k),
                mask_matches(f, self.mask(), Set::full()),
                kl@ == self.mask().at(k),
                ol@ == self.mask().at(o),
                forall|j: int|
                    0 <= j < i ==> !(takeable(fld(f, (#[trigger] kl@[j]).index()), color)
                        && ol@.contains(kl@[j])),
            decreases n - i,
        {
            let t = kl.get(i);
            proof {
                use_type_invariant(t);
            }
            if self.get(t).is_color_piece(color) && ol.contains(&t) {
                proof {
                    let ti = t.index();
                    assert(ids(kl@)[i as int] == ti);
                    assert(ids(kl@).contains(ti));
                    assert(self.mask().has(k, ti));
                    let w = choose|w: int| 0 <= w < ol@.len() && ol@[w] == t;
                    assert(ids(ol@)[w] == ti);
                    assert(ids(ol@).contains(ti));
                    assert(self.mask().has(o, ti));
                    assert(attacks(f, ti, k) && takeable(fld(f, ti), color) && attacks(f, ti, o));
                }
                return true;
            }
            i += 1;
        }
        proof {
            if behind_attacked(f, k, target.index(), color) {
                let t = choose|t: int| #[trigger]
                    attacks(f, t, k) && takeable(fld(f, t), color) && attacks(f, t, o);
                assert(self.mask().has(k, t));
                let j = choose|j: int| 0 <= j < ids(kl@).len() && ids(kl@)[j] == t;
                assert(self.mask().has(o, t));
                let w = choose|w: int| 0 <= w < ids(ol@).len() && ids(ol@)[w] == t;
                Coord::lemma_index_injective(ol@[w], kl@[j]);
                assert(ol@.contains(kl@[j]));
            }
        }
        false
    }

    /// Adds the step of the king by one offset, if it may take it.
    fn list_king_step<const N: usize>(
        &self,
        coord: Coord,
        color: Color,
        is_in_check: bool,
        dx: i8,
        dy: i8,
        into: &mut List<Move, N>,
    )
        requires
            shaped(self.fields()),
            mask_matches(self.fields(), self.mask(), Set::full()),
            -1 <= dx <= 1,
            -1 <= dy <= 1,
            is_step(dx + 10 * dy),
            old(into)@.len() < N,
        ensures
            final(into)@ == old(into)@ + king_step(
                self.fields(),
                coord.index(),
                color,
                is_in_check,
                dx + 10 * dy,
            ),
            final(into)@.len() <= old(into)@.len() + 1,
    {
        proof {
            reveal(king_step);
            use_type_invariant(coord);
        }
        if let Some((target, field)) = self.get_if_safe(coord.rel(dx, dy)) {
            if !self.is_threatened(target, color) {
                if field == Field::Empty {
                    if !is_in_check || !self.is_bad_king_move(coord, target, color) {
                        into.append(
                            Move { start: coord, end: target, move_type: MoveType::Regular },
                        );
                    }
                } else if field.is_color_piece(color) && (!is_in_check || !self.is_bad_king_move(
                    coord,
                    target,
                    color,
                )) {
                    into.append(Move { start: coord, end: target, move_type: MoveType::Capture });
                }
            }
        }
        assert(into@ =~= old(into)@ + king_step(
            self.fields(),
            coord.index(),
            color,
            is_in_check,
            dx + 10 * dy,
        ));
    }

    /// Adds castling towards the h-file, if the king on `coord` may.
    fn list_castle_right<const N: usize>(&self, coord: Coord, color: Color, into: &mut List<Move, N>)
        requires
            shaped(self.fields()),
            mask_matches(self.fields(), self.mask(), Set::full()),
            old(into)@.len() < N,
        ensures
            final(into)@ == old(into)@ + castle_to_right(self@, coord.index(), color),
            final(into)@.len() <= old(into)@.len() + 1,
    {
        proof {
            reveal(castle_to_right);
            use_type_invariant(coord);
        }
        if self.get_king(color).castling_to_right {
            if let Some((rook_target, Field::Empty)) = self.get_if_safe(coord.rel(1, 0)) {
                if let Some((king_target, Field::Empty)) = self.get_if_safe(rook_target.rel(1, 0)) {
                    if let Some((rook_pos, corner)) = self.get_if_safe(king_target.rel(1, 0)) {
                        let own_rook = match (corner, color) {
                            (Field::WhitePiece(Piece::Rook), Color::White) => true,
                            (Field::BlackPiece(Piece::Rook), Color::Black) => true,
                            _ => false,
                        };
                        if own_rook && !self.is_threatened(rook_target, color)
                            && !self.is_threatened(king_target, color) {
                            into.append(
                                Move {
                                    start: coord,
                                    end: king_target,
                                    move_type: MoveType::Castle(Castle { rook_pos, rook_target }),
                                },
                            );
                        }
                    }
                }
            }
        }
        assert(into@ =~= old(into)@ + castle_to_right(self@, coord.index(), color));
    }

    /// Adds castling towards the a-file, if the king on `coord` may.
    fn list_castle_left<const N: usize>(&self, coord: Coord, color: Color, into: &mut List<Move, N>)
        requires
            shaped(self.fields()),
            mask_matches(self.fields(), self.mask(), Set::full()),
            old(into)@.len() < N,
        ensures
            final(into)@ == old(into)@ + castle_to_left(self@, coord.index(), color),
            final(into)@.len() <= old(into)@.len() + 1,
    {
        proof {
            reveal(castle_to_left);
            use_type_invariant(coord);
        }
        if self.get_king(color).castling_to_left {
            if let Some((rook_target, Field::Empty)) = self.get_if_safe(coord.rel(-1, 0)) {
                if let Some((king_target, Field::Empty)) = self.get_if_safe(rook_target.rel(-1, 0)) {
                    if let Some((knight_home, Field::Empty)) = self.get_if_safe(
                        king_target.rel(-1, 0),
                    ) {
                        if let Some((rook_pos, corner)) = self.get_if_safe(knight_home.rel(-1, 0)) {
                            let own_rook = match (corner, color) {
                                (Field::WhitePiece(Piece::Rook), Color::White) => true,
                                (Field::BlackPiece(Piece::Rook), Color::Black) => true,
                                _ => false,
                            };
                            if own_rook && !self.is_threatened(rook_target, color)
                                && !self.is_threatened(king_target, color) {
                                into.append(
                                    Move {
                                        start: coord,
                                        end: king_target,
                                        move_type: MoveType::Castle(
                                            Castle { rook_pos, rook_target },
                                        ),
                                    },
                                );
                            }
                        }
                    }
                }
            }
        }
        assert(into@ =~= old(into)@ + castle_to_left(self@, coord.index(), color));
    }

    pub(crate) fn list_king_moves<const N: usize>(
        &self,
        coord: Coord,
        color: Color,
        is_in_check: bool,
        into: &mut List<Move, N>,
    )
        requires
            shaped(self.fields()),
            mask_matches(self.fields(), self.mask(), Set::full()),
            old(into)@.len() + 10 <= N,
        ensures
            final(into)@ == old(into)@ + king_moves(self@, coord.index(), color, is_in_check),
    {
        let ghost f = self.fields();
        let ghost k = coord.index();
        let ghost o = into@;
        let ghost c = is_in_check;
        self.list_king_step(coord, color, is_in_check, 1, 0, into);
        let ghost a0 = king_step(f, k, color, c, 1);
        self.list_king_step(coord, color, is_in_check, -1, 0, into);
        let ghost a1 = a0 + king_step(f, k, color, c, -1);
        assert(into@ =~= o + a1);
        self.list_king_step(coord, color, is_in_check, 0, 1, into);
        let ghost a2 = a1 + king_step(f, k, color, c, 10);
        assert(into@ =~= o + a2);
        self.list_king_step(coord, color, is_in_check, 0, -1, into);
        let ghost a3 = a2 + king_step(f, k, color, c, -10);
        assert(into@ =~= o + a3);
        self.list_king_step(coord, color, is_in_check, -1, 1, into);
        let ghost a4 = a3 + king_step(f, k, color, c, 9);
        assert(into@ =~= o + a4);
        self.list_king_step(coord, color, is_in_check, -1, -1, into);
        let ghost a5 = a4 + king_step(f, k, color, c, -11);
        assert(into@ =~= o + a5);
        self.list_king_step(coord, color, is_in_check, 1, 1, into);
        let ghost a6 = a5 + king_step(f, k, color, c, 11);
        assert(into@ =~= o + a6);
        self.list_king_step(coord, color, is_in_check, 1, -1, into);
        let ghost a7 = a6 + king_step(f, k, color, c, -9);
        assert(into@ =~= o + a7);
        if !is_in_check {
            self.list_castle_right(coord, color, into);
            self.list_castle_left(coord, color, into);
            assert(into@ =~= o + (a7 + (castle_to_right(self@, k, color) + castle_to_left(
                self@,
                k,
                color,
            ))));
        } else {
            assert(into@ =~= o + (a7 + Seq::<Move>::empty()));
        }
    }
}

} // verus!
