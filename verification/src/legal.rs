use crate::board::{col, owned_below, playable, row, sq, Board, Color, CommonCoord, Coord, Field, Piece, Position, UnsafeCoord};
use crate::kingmoves::{king_moves, lemma_king_moves, lemma_threatened, threatened};
use crate::list::List;
use crate::movegen::{all_ok, lemma_all_ok_concat, lemma_piece_moves, piece_moves};
use crate::moves::{move_ok, LongMoveList, Move, MoveList};
use crate::pins::{is_enemy, lemma_pin_exposes, pin_on, pins_match, pins_square};
use crate::rays::{approach, attacks, fld, lemma_hits_on_line, lemma_line_direction, shaped};
use crate::threat::{
    direction_towards, ids, is_slider, lemma_ids_push, mask_matches, Direction, King,
};
use vstd::prelude::*;

verus! {

/// Whether the piece on `t` gives check to the king of `color` on `k`.
pub open spec fn checker(f: Seq<Field>, k: int, color: Color, t: int) -> bool {
    attacks(f, t, k) && fld(f, t).owner() == Some(color.opposite())
}

/// Whether `t` is the one piece that gives check to the king of `color` on `k`.
pub open spec fn only_checker(f: Seq<Field>, k: int, color: Color, t: int) -> bool {
    checker(f, k, color, t) && forall|u: int| #[trigger] checker(f, k, color, u) ==> u == t
}

/// The square of the piece that gives check, where exactly one does.
pub open spec fn sole_checker(f: Seq<Field>, k: int, color: Color) -> Option<int> {
    if exists|t: int| only_checker(f, k, color, t) {
        Some(choose|t: int| only_checker(f, k, color, t))
    } else {
        None
    }
}

/// Whether a move that ends on `e` answers the check given by the piece on `t` to
/// the king on `k`: it captures on `t`, or it lands between a slider and the king.
pub open spec fn blocks_or_takes(f: Seq<Field>, k: int, t: int, e: int) -> bool {
    e == t || (is_slider(fld(f, t)) && attacks(f, t, e) && e != k && approach(t, e) == approach(
        t,
        k,
    ))
}

/// Whether the move of a piece answers the check to the king of `color`: exactly one
/// piece gives check, and the move captures it or blocks its line.
pub open spec fn saves_check(p: Position, color: Color, m: Move) -> bool {
    match sole_checker(p.fields, p.king_square(color), color) {
        Some(t) => fld(p.fields, t).piece().is_some() && blocks_or_takes(
            p.fields,
            p.king_square(color),
            t,
            m.end.index(),
        ),
        None => false,
    }
}

/// Whether a move from `s` to `e` leaves the line that runs in direction `dir`.
pub open spec fn off_line(s: int, e: int, dir: Direction) -> bool {
    if col(s) == col(e) {
        dir != Direction::Up && dir != Direction::Down
    } else if row(s) == row(e) {
        dir != Direction::Left && dir != Direction::Right
    } else if (col(s) > col(e)) == (row(s) > row(e)) {
        dir != Direction::UpRight && dir != Direction::DownLeft
    } else {
        dir != Direction::UpLeft && dir != Direction::DownRight
    }
}

/// Whether the pin recorded for the start of a move forbids the move: the piece is
/// pinned, the move does not capture the attacker, and it leaves the line of the pin.
pub open spec fn pin_blocks(f: Seq<Field>, entry: Option<(Coord, Direction)>, m: Move) -> bool {
    match entry {
        Some((a, dir)) => m.end != a && match fld(f, m.start.index()).piece() {
            Some(Piece::Knight) => true,
            Some(_) => off_line(m.start.index(), m.end.index(), dir),
            None => false,
        },
        None => false,
    }
}

/// The pin of the piece on `s`, if it is pinned against the king of `color` on `k`:
/// the attacker and the direction, seen from the king, in which both stand.
pub open spec fn pin_entry(f: Seq<Field>, k: int, color: Color, s: int) -> Option<
    (Coord, Direction),
> {
    if pins_square(f, k, color, Direction::Up, s) {
        Some((sq(pin_on(f, k, color, 10).unwrap().1), Direction::Up))
    } else if pins_square(f, k, color, Direction::Down, s) {
        Some((sq(pin_on(f, k, color, -10).unwrap().1), Direction::Down))
    } else if pins_square(f, k, color, Direction::Left, s) {
        Some((sq(pin_on(f, k, color, -1).unwrap().1), Direction::Left))
    } else if pins_square(f, k, color, Direction::Right, s) {
        Some((sq(pin_on(f, k, color, 1).unwrap().1), Direction::Right))
    } else if pins_square(f, k, color, Direction::UpLeft, s) {
        Some((sq(pin_on(f, k, color, 9).unwrap().1), Direction::UpLeft))
    } else if pins_square(f, k, color, Direction::UpRight, s) {
        Some((sq(pin_on(f, k, color, 11).unwrap().1), Direction::UpRight))
    } else if pins_square(f, k, color, Direction::DownLeft, s) {
        Some((sq(pin_on(f, k, color, -11).unwrap().1), Direction::DownLeft))
    } else if pins_square(f, k, color, Direction::DownRight, s) {
        Some((sq(pin_on(f, k, color, -9).unwrap().1), Direction::DownRight))
    } else {
        None
    }
}

/// A piece is pinned in one direction at most.
pub proof fn lemma_pin_direction(f: Seq<Field>, k: int, color: Color, d1: Direction, d2: Direction, s: int)
    requires
        f.len() == 120,
        pins_square(f, k, color, d1, s),
        pins_square(f, k, color, d2, s),
    ensures
        d1 == d2,
{
    let a1 = pin_on(f, k, color, d1.step()).unwrap().1;
    let a2 = pin_on(f, k, color, d2.step()).unwrap().1;
    lemma_pin_exposes(f, k, color, d1.step(), s, a1);
    lemma_pin_exposes(f, k, color, d2.step(), s, a2);
    lemma_hits_on_line(f, k, d1.step(), s);
    lemma_hits_on_line(f, k, d2.step(), s);
    lemma_line_direction(k, d1.step(), d2.step(), s);
}

/// A pin index that matches the board holds, for every square, the pin of its piece.
pub proof fn lemma_pin_entry(
    f: Seq<Field>,
    k: int,
    color: Color,
    map: Seq<Option<(Coord, Direction)>>,
    s: int,
)
    requires
        f.len() == 120,
        pins_match(f, k, color, map),
        0 <= s < 120,
    ensures
        map[s] == pin_entry(f, k, color, s),
{
    match map[s] {
        Some((a, dir)) => {
            assert(pins_square(f, k, color, dir, s));
            lemma_pin_exposes(f, k, color, dir.step(), s, a.index());
            assert(sq(a.index()) == a);
            assert forall|d2: Direction| pins_square(f, k, color, d2, s) implies d2 == dir by {
                lemma_pin_direction(f, k, color, d2, dir, s);
            }
        },
        None => {},
    }
}

/// The test of a move: whether it answers the check to the king of `color`.
pub open spec fn saves(p: Position, color: Color) -> spec_fn(Move) -> bool {
    |m: Move| saves_check(p, color, m)
}

/// The test of a move: whether the pin index of the king of `color` lets it pass.
pub open spec fn keeps_pin(p: Position, color: Color) -> spec_fn(Move) -> bool {
    |m: Move|
        !pin_blocks(
            p.fields,
            pin_entry(p.fields, p.king_square(color), color, m.start.index()),
            m,
        )
}

/// Whether the king of `color` is in check.
pub open spec fn in_check(p: Position, color: Color) -> bool {
    threatened(p.fields, p.king_square(color), color)
}

/// The moves of what stands on `s`, pins aside: those of a king, or those of a
/// piece, of which only the ones that answer the check are kept while its king is
/// in check.
pub open spec fn candidate_moves(p: Position, s: int, checked: bool) -> Seq<Move> {
    match fld(p.fields, s) {
        Field::BlackKing => king_moves(p, s, Color::Black, checked),
        Field::WhiteKing => king_moves(p, s, Color::White, checked),
        Field::BlackPiece(pc) => if checked {
            piece_moves(p, s, pc, Color::Black).filter(saves(p, Color::Black))
        } else {
            piece_moves(p, s, pc, Color::Black)
        },
        Field::WhitePiece(pc) => if checked {
            piece_moves(p, s, pc, Color::White).filter(saves(p, Color::White))
        } else {
            piece_moves(p, s, pc, Color::White)
        },
        _ => Seq::empty(),
    }
}

/// The moves that the generator offers for what stands on `s`, the king of `color`
/// being the one whose check and pins are looked at.
pub open spec fn legal_moves(p: Position, color: Color, s: int) -> Seq<Move> {
    candidate_moves(p, s, in_check(p, color)).filter(keeps_pin(p, color))
}

/// The moves that the generator offers for the pieces of `color` on the squares with
/// an index below `n`, square by square.
pub open spec fn all_moves_below(p: Position, color: Color, n: int) -> Seq<Move>
    decreases n,
{
    if n <= 0 {
        Seq::empty()
    } else {
        all_moves_below(p, color, n - 1) + (if playable(n - 1) && fld(p.fields, n - 1).owner()
            == Some(color) {
            legal_moves(p, color, n - 1)
        } else {
            Seq::empty()
        })
    }
}

/// All moves that the generator offers for `color`.
pub open spec fn all_moves(p: Position, color: Color) -> Seq<Move> {
    all_moves_below(p, color, 120)
}

/// What is kept of a list of moves that `do_move` takes is such a list.
pub proof fn lemma_all_ok_filter(p: Position, q: Seq<Move>, pred: spec_fn(Move) -> bool)
    requires
        all_ok(p, q),
    ensures
        all_ok(p, q.filter(pred)),
        q.filter(pred).len() <= q.len(),
{
    let r = q.filter(pred);
    q.lemma_filter_len(pred);
    assert forall|i: int| 0 <= i < r.len() implies move_ok(p, #[trigger] r[i]) by {
        assert(r.contains(r[i]));
        q.lemma_filter_contains_rev(pred, r[i]);
        let j = choose|j: int| 0 <= j < q.len() && q[j] == r[i];
        assert(move_ok(p, q[j]));
    }
}

/// What stands on a square has at most 27 moves before the pins are looked at, and
/// `do_move` takes each of them.
pub proof fn lemma_candidate_moves(p: Position, s: int, checked: bool)
    requires
        shaped(p.fields),
        playable(s),
        match p.en_passant {
            Some(t) => playable(t.index()),
            None => true,
        },
    ensures
        candidate_moves(p, s, checked).len() <= 27,
        all_ok(p, candidate_moves(p, s, checked)),
{
    match fld(p.fields, s) {
        Field::BlackKing => {
            lemma_king_moves(p, s, Color::Black, checked);
        },
        Field::WhiteKing => {
            lemma_king_moves(p, s, Color::White, checked);
        },
        Field::BlackPiece(pc) => {
            lemma_piece_moves(p, s, pc, Color::Black);
            lemma_all_ok_filter(p, piece_moves(p, s, pc, Color::Black), saves(p, Color::Black));
        },
        Field::WhitePiece(pc) => {
            lemma_piece_moves(p, s, pc, Color::White);
            lemma_all_ok_filter(p, piece_moves(p, s, pc, Color::White), saves(p, Color::White));
        },
        _ => {},
    }
}

/// The generator offers at most 27 moves for a square, and `do_move` takes each.
pub proof fn lemma_legal_moves(p: Position, color: Color, s: int)
    requires
        shaped(p.fields),
        playable(s),
        match p.en_passant {
            Some(t) => playable(t.index()),
            None => true,
        },
    ensures
        legal_moves(p, color, s).len() <= 27,
        all_ok(p, legal_moves(p, color, s)),
{
    lemma_candidate_moves(p, s, in_check(p, color));
    lemma_all_ok_filter(p, candidate_moves(p, s, in_check(p, color)), keeps_pin(p, color));
}

/// The generator offers at most 27 moves for each piece of a side, and `do_move`
/// takes each of them.
pub proof fn lemma_all_moves_below(p: Position, color: Color, n: int)
    requires
        shaped(p.fields),
        match p.en_passant {
            Some(t) => playable(t.index()),
            None => true,
        },
        0 <= n <= 120,
    ensures
        all_moves_below(p, color, n).len() <= 27 * owned_below(p.fields, color, n),
        all_ok(p, all_moves_below(p, color, n)),
        owned_below(p.fields, color, n) >= 0,
    decreases n,
{
    if n > 0 {
        lemma_all_moves_below(p, color, n - 1);
        if playable(n - 1) && fld(p.fields, n - 1).owner() == Some(color) {
            lemma_legal_moves(p, color, n - 1);
            lemma_all_ok_concat(p, all_moves_below(p, color, n - 1), legal_moves(p, color, n - 1));
        } else {
            lemma_all_ok_concat(p, all_moves_below(p, color, n - 1), Seq::empty());
        }
    }
}

/// What is kept of a list of coordinates without repetition has none either.
pub proof fn lemma_filter_distinct(q: Seq<Coord>, pred: spec_fn(Coord) -> bool)
    requires
        ids(q).no_duplicates(),
    ensures
        ids(q.filter(pred)).no_duplicates(),
    decreases q.len(),
{
    reveal(Seq::filter);
    if q.len() > 0 {
        let rest = q.drop_last();
        let last = q.last();
        assert forall|i: int, j: int| 0 <= i < ids(rest).len() && 0 <= j < ids(rest).len() && i
            != j implies ids(rest)[i] != ids(rest)[j] by {
            assert(ids(rest)[i] == ids(q)[i]);
            assert(ids(rest)[j] == ids(q)[j]);
        }
        lemma_filter_distinct(rest, pred);
        if pred(last) {
            let r = rest.filter(pred);
            if ids(r).contains(last.index()) {
                let i = choose|i: int| 0 <= i < ids(r).len() && ids(r)[i] == last.index();
                assert(r.contains(r[i]));
                rest.lemma_filter_contains_rev(pred, r[i]);
                let j = choose|j: int| 0 <= j < rest.len() && rest[j] == r[i];
                assert(ids(q)[j] == ids(q)[q.len() - 1]);
            }
            lemma_ids_push(r, last);
        }
    }
}

/// The pieces listed as those that give check are exactly the pieces that do,
/// each once.
pub proof fn lemma_aggressors(b: Board, color: Color)
    requires
        b.wf(),
    ensures
        b@.king_square(color) == b.king(color).coord.index(),
        playable(b@.king_square(color)),
        ids(b.king(color).aggressors@).no_duplicates(),
        forall|t: int|
            ids(b.king(color).aggressors@).contains(t) <==> checker(
                b.fields(),
                b@.king_square(color),
                color,
                t,
            ),
        (b.king(color).aggressors@.len() > 0) == in_check(b@, color),
        b.king(color).aggressors@.len() == 1 ==> sole_checker(
            b.fields(),
            b@.king_square(color),
            color,
        ) == Some(b.king(color).aggressors@[0].index()),
        b.king(color).aggressors@.len() != 1 ==> sole_checker(
            b.fields(),
            b@.king_square(color),
            color,
        ).is_none(),
{
    let f = b.fields();
    let k = b.king(color).coord.index();
    assert(b.king_consistent(color));
    assert(f[k] == Field::king_of(color));
    let k2 = b@.king_square(color);
    assert(0 <= k2 < 120 && f[k2] == Field::king_of(color));
    assert(k2 == k);
    let q = b.mask().at(k);
    let pred = is_enemy(f, color);
    let a = b.king(color).aggressors@;
    assert(a == q.filter(pred));
    lemma_filter_distinct(q, pred);
    assert forall|t: int| ids(a).contains(t) <==> checker(f, k, color, t) by {
        if ids(a).contains(t) {
            let i = choose|i: int| 0 <= i < ids(a).len() && ids(a)[i] == t;
            q.lemma_filter_pred(pred, i);
            assert(a.contains(a[i]));
            q.lemma_filter_contains_rev(pred, a[i]);
            let j = choose|j: int| 0 <= j < q.len() && q[j] == a[i];
            assert(ids(q)[j] == t);
            assert(b.mask().has(k, t));
        }
        if checker(f, k, color, t) {
            assert(b.mask().has(k, t));
            let j = choose|j: int| 0 <= j < ids(q).len() && ids(q)[j] == t;
            assert(pred(q[j]));
            q.lemma_filter_contains(pred, j);
            let i = choose|i: int| 0 <= i < a.len() && a[i] == q[j];
            assert(ids(a)[i] == t);
        }
    }
    lemma_threatened(f, b.mask(), k, color);
    if a.len() == 1 {
        let t0 = a[0].index();
        assert(ids(a)[0] == t0);
        assert(ids(a).contains(t0));
        assert forall|u: int| #[trigger] checker(f, k, color, u) implies u == t0 by {
            assert(ids(a).contains(u));
            let i = choose|i: int| 0 <= i < ids(a).len() && ids(a)[i] == u;
        }
        assert(only_checker(f, k, color, t0));
    } else {
        if exists|t: int| only_checker(f, k, color, t) {
            let t = choose|t: int| only_checker(f, k, color, t);
            assert(ids(a).contains(t));
            assert(a.len() >= 2);
            assert(ids(a)[0] != ids(a)[1]);
            assert(ids(a).contains(ids(a)[0]));
            assert(ids(a).contains(ids(a)[1]));
            assert(checker(f, k, color, ids(a)[0]));
            assert(checker(f, k, color, ids(a)[1]));
        }
    }
}

impl Board {
    /// Whether a move answers the check given by the piece on `threat`: it captures
    /// that piece, or it lands on the line between a slider and the king.
    fn is_check_saving_piece(&self, threat: Coord, piece: Piece, king: &King, mv: &Move) -> (b:
        bool)
        requires
            shaped(self.fields()),
            mask_matches(self.fields(), self.mask(), Set::full()),
            self.fields()[threat.index()].piece() == Some(piece),
        ensures
            b == blocks_or_takes(
                self.fields(),
                king.coord.index(),
                threat.index(),
                mv.end.index(),
            ),
    {
        proof {
            use_type_invariant(threat);
            use_type_invariant(mv.end);
            use_type_invariant(king.coord);
        }
        if mv.end == threat {
            return true;
        }
        if let Piece::Pawn | Piece::Knight = piece {
            return false;
        }
        let listed = self.threat_mask.get(mv.end).contains(&threat);
        proof {
            let q = self.mask().at(mv.end.index());
            let t = threat.index();
            if q.contains(threat) {
                let i = choose|i: int| 0 <= i < q.len() && q[i] == threat;
                assert(ids(q)[i] == t);
                assert(ids(q).contains(t));
            }
            if ids(q).contains(t) {
                let i = choose|i: int| 0 <= i < ids(q).len() && ids(q)[i] == t;
                Coord::lemma_index_injective(q[i], threat);
                assert(q.contains(threat));
            }
            assert(listed == self.mask().has(mv.end.index(), t));
        }
        if !listed {
            return false;
        }
        let (ex, ey) = direction_towards(threat, mv.end);
        let (kx, ky) = direction_towards(threat, king.coord);
        ex == kx && ey == ky && mv.end != king.coord
    }

    /// Whether the move of a piece answers the check to the king of `color`.
    pub fn is_check_saving(&self, color: Color, mv: &Move) -> (b: bool)
        requires
            self.wf(),
        ensures
            b == saves_check(self@, color, *mv),
    {
        proof {
            lemma_aggressors(*self, color);
        }
        let king = self.get_king(color);
        if king.aggressors.len() == 1 {
            let threat = king.aggressors.get(0);
            proof {
                use_type_invariant(threat);
            }
            match *self.get(threat) {
                Field::BlackPiece(p) | Field::WhitePiece(p) => {
                    self.is_check_saving_piece(threat, p, king, mv)
                },
                _ => false,
            }
        } else {
            false
        }
    }

    /// Whether the pin index of `king` forbids a move: the piece on its start is
    /// pinned, and the move neither captures the attacker nor stays on the line.
    pub fn is_potential_check(&self, king: &King, mv: &Move) -> (b: bool)
        ensures
            b == pin_blocks(
                self.fields(),
                entry_at(king.potential_check_map@, mv.start.index()),
                *mv,
            ),
    {
        proof {
            use_type_invariant(mv.start);
            use_type_invariant(mv.end);
        }
        match *king.get_potential_check(mv.start) {
            Some((coord, d)) => {
                if mv.end == coord {
                    return false;
                }
                match *self.get(mv.start) {
                    Field::BlackPiece(piece) | Field::WhitePiece(piece) => {
                        if let Piece::Knight = piece {
                            true
                        } else {
                            let start: i8 = mv.start.raw();
                            let end: i8 = mv.end.raw();
                            let sx: i8 = start % 10;
                            let sy: i8 = start / 10;
                            let ex: i8 = end % 10;
                            let ey: i8 = end / 10;
                            if sx == ex {
                                d != Direction::Up && d != Direction::Down
                            } else if sy == ey {
                                d != Direction::Left && d != Direction::Right
                            } else if (sx > ex) == (sy > ey) {
                                d != Direction::UpRight && d != Direction::DownLeft
                            } else {
                                d != Direction::UpLeft && d != Direction::DownRight
                            }
                        }
                    },
                    _ => false,
                }
            },
            None => false,
        }
    }

    /// Keeps, from index `start` on, the moves that answer the check to the king of
    /// `color`.
    pub fn filter_checks<const N: usize>(&self, color: Color, start: usize, list: &mut List<Move, N>)
        requires
            self.wf(),
            start <= old(list)@.len() <= N,
        ensures
            final(list)@ == old(list)@.subrange(0, start as int) + old(list)@.subrange(
                start as int,
                old(list)@.len() as int,
            ).filter(saves(self@, color)),
    {
        let n: usize = list.len();
        let mut out: List<Move, N> = List::new();
        let ghost q = list@;
        let ghost pred = saves(self@, color);
        let mut i: usize = 0;
        while i < start
            invariant
                i <= start <= n <= N,
                n == list@.len(),
                list@ == q,
                out@ == q.subrange(0, i as int),
            decreases start - i,
        {
            out.append(list.get(i));
            i += 1;
            assert(out@ =~= q.subrange(0, i as int));
        }
        proof {
            assert(q.subrange(start as int, start as int) =~= Seq::<Move>::empty());
            assert(out@ =~= q.subrange(0, start as int) + q.subrange(
                start as int,
                start as int,
            ).filter(pred));
        }
        while i < n
            invariant
                start <= i <= n <= N,
                n == list@.len(),
                list@ == q,
                self.wf(),
                pred == saves(self@, color),
                out@ == q.subrange(0, start as int) + q.subrange(start as int, i as int).filter(
                    pred,
                ),
                out@.len() <= i,
            decreases n - i,
        {
            let m = list.get(i);
            proof {
                assert(q.subrange(start as int, i + 1) =~= q.subrange(start as int, i as int).push(
                    m,
                ));
                Seq::lemma_filter_push(q.subrange(start as int, i as int), m, pred);
            }
            if self.is_check_saving(color, &m) {
                out.append(m);
            }
            i += 1;
            assert(out@ =~= q.subrange(0, start as int) + q.subrange(start as int, i as int).filter(
                pred,
            ));
        }
        *list = out;
    }

    /// Keeps, from index `start` on, the moves that the pin index of `king` lets pass.
    pub fn filter_potential_checks<const N: usize>(
        &self,
        king: &King,
        start: usize,
        list: &mut List<Move, N>,
    )
        requires
            start <= old(list)@.len() <= N,
        ensures
            final(list)@ == old(list)@.subrange(0, start as int) + old(list)@.subrange(
                start as int,
                old(list)@.len() as int,
            ).filter(passes_pins(self.fields(), king.potential_check_map@)),
            final(list)@.len() <= old(list)@.len(),
    {
        let n: usize = list.len();
        let mut out: List<Move, N> = List::new();
        let ghost q = list@;
        let ghost pred = passes_pins(self.fields(), king.potential_check_map@);
        let mut i: usize = 0;
        while i < start
            invariant
                i <= start <= n <= N,
                n == list@.len(),
                list@ == q,
                out@ == q.subrange(0, i as int),
            decreases start - i,
        {
            out.append(list.get(i));
            i += 1;
            assert(out@ =~= q.subrange(0, i as int));
        }
        proof {
            assert(q.subrange(start as int, start as int) =~= Seq::<Move>::empty());
            assert(out@ =~= q.subrange(0, start as int) + q.subrange(
                start as int,
                start as int,
            ).filter(pred));
        }
        while i < n
            invariant
                start <= i <= n <= N,
                n == list@.len(),
                list@ == q,
                pred == passes_pins(self.fields(), king.potential_check_map@),
                out@ == q.subrange(0, start as int) + q.subrange(start as int, i as int).filter(
                    pred,
                ),
                out@.len() <= i,
            decreases n - i,
        {
            let m = list.get(i);
            proof {
                assert(q.subrange(start as int, i + 1) =~= q.subrange(start as int, i as int).push(
                    m,
                ));
                Seq::lemma_filter_push(q.subrange(start as int, i as int), m, pred);
            }
            if !self.is_potential_check(king, &m) {
                out.append(m);
            }
            i += 1;
            assert(out@ =~= q.subrange(0, start as int) + q.subrange(start as int, i as int).filter(
                pred,
            ));
        }
        *list = out;
    }
}

/// The test of a move: whether a pin index lets it pass.
pub open spec fn passes_pins(f: Seq<Field>, map: Seq<Option<(Coord, Direction)>>) -> spec_fn(
    Move,
) -> bool {
    |m: Move| !pin_blocks(f, entry_at(map, m.start.index()), m)
}

/// The entry of a pin index for a square; nothing off the board.
pub open spec fn entry_at(map: Seq<Option<(Coord, Direction)>>, s: int) -> Option<
    (Coord, Direction),
> {
    if 0 <= s < map.len() {
        map[s]
    } else {
        None
    }
}

/// Under a pin index that matches the board, the moves that pass it are those that
/// keep every pin.
pub proof fn lemma_passes_pins(b: Board, color: Color)
    requires
        b.wf(),
    ensures
        passes_pins(b.fields(), b.king(color).potential_check_map@) == keeps_pin(b@, color),
{
    let f = b.fields();
    let map = b.king(color).potential_check_map@;
    lemma_aggressors(b, color);
    let k = b@.king_square(color);
    assert(b.king_consistent(color));
    assert forall|m: Move| #[trigger]
        passes_pins(f, map)(m) == keeps_pin(b@, color)(m) by {
        let s = m.start.index();
        if 0 <= s < 120 {
            lemma_pin_entry(f, k, color, map, s);
        } else {
            assert forall|dir: Direction| !pins_square(f, k, color, dir, s) by {
                if pins_square(f, k, color, dir, s) {
                    lemma_pin_exposes(
                        f,
                        k,
                        color,
                        dir.step(),
                        s,
                        pin_on(f, k, color, dir.step()).unwrap().1,
                    );
                }
            }
        }
    }
    assert(passes_pins(f, map) =~= keeps_pin(b@, color));
}

impl Board {
    /// Adds the moves of what stands on `coord`, as for a king that is not in check.
    fn add_moves<const N: usize>(&self, coord: Coord, into: &mut List<Move, N>)
        requires
            self.wf(),
            old(into)@.len() + 27 <= N,
        ensures
            final(into)@ == old(into)@ + candidate_moves(self@, coord.index(), false),
    {
        proof {
            use_type_invariant(coord);
        }
        match *self.get(coord) {
            Field::Empty | Field::Invincible => {
                assert(into@ =~= into@ + Seq::<Move>::empty());
            },
            Field::BlackKing => self.list_king_moves(coord, Color::Black, false, into),
            Field::WhiteKing => self.list_king_moves(coord, Color::White, false, into),
            Field::BlackPiece(piece) => self.list_piece_moves(coord, piece, Color::Black, into),
            Field::WhitePiece(piece) => self.list_piece_moves(coord, piece, Color::White, into),
        }
    }

    /// Adds the moves of what stands on `coord`, as for a king that is in check.
    fn add_moves_check<const N: usize>(&self, coord: Coord, into: &mut List<Move, N>)
        requires
            self.wf(),
            old(into)@.len() + 27 <= N,
        ensures
            final(into)@ == old(into)@ + candidate_moves(self@, coord.index(), true),
    {
        let n: usize = into.len();
        let ghost o = into@;
        let ghost s = coord.index();
        proof {
            use_type_invariant(coord);
            match self.en_passant_chance {
                Some(t) => {
                    use_type_invariant(t);
                },
                None => {},
            }
        }
        match *self.get(coord) {
            Field::Empty | Field::Invincible => {
                assert(into@ =~= into@ + Seq::<Move>::empty());
            },
            Field::BlackKing => self.list_king_moves(coord, Color::Black, true, into),
            Field::WhiteKing => self.list_king_moves(coord, Color::White, true, into),
            Field::BlackPiece(piece) => {
                self.list_piece_moves(coord, piece, Color::Black, into);
                proof {
                    lemma_piece_moves(self@, s, piece, Color::Black);
                    let pm = piece_moves(self@, s, piece, Color::Black);
                    assert((o + pm).subrange(0, n as int) =~= o);
                    assert((o + pm).subrange(n as int, (o + pm).len() as int) =~= pm);
                }
                self.filter_checks(Color::Black, n, into);
            },
            Field::WhitePiece(piece) => {
                self.list_piece_moves(coord, piece, Color::White, into);
                proof {
                    lemma_piece_moves(self@, s, piece, Color::White);
                    let pm = piece_moves(self@, s, piece, Color::White);
                    assert((o + pm).subrange(0, n as int) =~= o);
                    assert((o + pm).subrange(n as int, (o + pm).len() as int) =~= pm);
                }
                self.filter_checks(Color::White, n, into);
            },
        }
    }

    /// The moves that the generator offers for what stands on `coord`: the moves of
    /// the piece, of which, while the king of `color` is in check, only those that
    /// answer the check are kept, and of which those that break a pin are dropped.
    pub fn enumerate_moves(&self, color: Color, coord: Coord) -> (list: MoveList)
        requires
            self.wf(),
        ensures
            list@ == legal_moves(self@, color, coord.index()),
            all_ok(self@, list@),
    {
        let mut list = MoveList::new();
        let king = self.get_king(color);
        let ghost s = coord.index();
        proof {
            use_type_invariant(coord);
            match self.en_passant_chance {
                Some(t) => {
                    use_type_invariant(t);
                },
                None => {},
            }
            lemma_aggressors(*self, color);
            lemma_passes_pins(*self, color);
            lemma_candidate_moves(self@, s, in_check(self@, color));
            lemma_legal_moves(self@, color, s);
        }
        if king.aggressors.is_empty() {
            self.add_moves(coord, &mut list);
        } else {
            self.add_moves_check(coord, &mut list);
        }
        proof {
            let c = candidate_moves(self@, s, in_check(self@, color));
            assert(list@ =~= c);
            assert(c.subrange(0, 0) =~= Seq::<Move>::empty());
            assert(c.subrange(0, c.len() as int) =~= c);
        }
        self.filter_potential_checks(king, 0, &mut list);
        proof {
            let c = candidate_moves(self@, s, in_check(self@, color));
            assert(list@ =~= c.filter(keeps_pin(self@, color)));
        }
        list
    }

    /// Adds the moves that the generator offers for every piece of `color`, square
    /// by square.
    pub fn enumerate_all_moves_by(&self, color: Color, list: &mut LongMoveList)
        requires
            self.wf(),
            old(list)@.len() + 27 * owned_below(self.fields(), color, 120) <= 432,
        ensures
            final(list)@ == old(list)@ + all_moves(self@, color),
            all_ok(self@, all_moves(self@, color)),
    {
        let king = self.get_king(color);
        let checked = !king.aggressors.is_empty();
        let ghost o = list@;
        let ghost p = self@;
        proof {
            match self.en_passant_chance {
                Some(t) => {
                    use_type_invariant(t);
                },
                None => {},
            }
            lemma_aggressors(*self, color);
            lemma_passes_pins(*self, color);
            lemma_all_moves_below(p, color, 120);
            assert(list@ =~= o + all_moves_below(p, color, 0));
        }
        let mut n: i8 = 0;
        while n < 120
            invariant
                0 <= n <= 120,
                self.wf(),
                p == self@,
                *king == self.king(color),
                checked == in_check(p, color),
                passes_pins(self.fields(), king.potential_check_map@) == keeps_pin(p, color),
                match p.en_passant {
                    Some(t) => playable(t.index()),
                    None => true,
                },
                o.len() + 27 * owned_below(p.fields, color, 120) <= 432,
                list@ == o + all_moves_below(p, color, n as int),
            decreases 120 - n,
        {
            let ghost before = all_moves_below(p, color, n as int);
            proof {
                lemma_all_moves_below(p, color, n as int);
                lemma_all_moves_below(p, color, n + 1);
                lemma_owned_monotone(p.fields, color, n + 1, 120);
            }
            if let Some((coord, field)) = self.get_if_safe(UnsafeCoord::at(n)) {
                if field.is_color_piece_include_king(core::ops::Not::not(color)) {
                    let nbefore: usize = list.len();
                    proof {
                        lemma_candidate_moves(p, n as int, checked);
                    }
                    if checked {
                        self.add_moves_check(coord, list);
                    } else {
                        self.add_moves(coord, list);
                    }
                    proof {
                        let c = candidate_moves(p, n as int, checked);
                        let l = o + before;
                        assert((l + c).subrange(0, nbefore as int) =~= l);
                        assert((l + c).subrange(nbefore as int, (l + c).len() as int) =~= c);
                    }
                    self.filter_potential_checks(king, nbefore, list);
                    proof {
                        assert(list@ =~= o + (before + legal_moves(p, color, n as int)));
                    }
                } else {
                    assert(list@ =~= o + (before + Seq::<Move>::empty()));
                }
            } else {
                assert(list@ =~= o + (before + Seq::<Move>::empty()));
            }
            n += 1;
        }
    }
}

/// The count of a side grows with the squares that are counted.
pub proof fn lemma_owned_monotone(f: Seq<Field>, color: Color, a: int, b: int)
    requires
        0 <= a <= b,
    ensures
        owned_below(f, color, a) <= owned_below(f, color, b),
    decreases b - a,
{
    if a < b {
        lemma_owned_monotone(f, color, a, b - 1);
    }
}

} // verus!
