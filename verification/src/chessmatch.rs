use crate::board::{Board, Color, Position};
use crate::legal::{all_moves, in_check, lemma_aggressors};
use crate::moves::{apply_move, move_ok, start_position, LongMoveList, Move};
use vstd::prelude::*;

verus! {

/// How a match has ended.
#[derive(Debug, Clone, Copy, PartialEq, Eq, Structural)]
pub enum MatchResult {
    WhiteWins,
    BlackWins,
    Stalemate,
}

/// What is kept beside the board of a match: how it ended, if it has, whose turn
/// it is, and what the owner of the registry keeps with it.
pub struct MatchInfos<E: Clone> {
    pub result: Option<MatchResult>,
    pub color: Color,
    pub extra: E,
}

/// The matches in play, each under its number.
pub struct MatchRegistry<E: Clone> {
    empty_slots: Vec<u32>,
    boards: Vec<Board>,
    infos: Vec<MatchInfos<E>>,
}

/// How a match has ended when the side to move has no move: by stalemate if that
/// side is not in check, else with a win of the other side.
pub open spec fn verdict(p: Position, to_move: Color) -> MatchResult {
    if !in_check(p, to_move) {
        MatchResult::Stalemate
    } else {
        match to_move {
            Color::White => MatchResult::BlackWins,
            Color::Black => MatchResult::WhiteWins,
        }
    }
}

/// How a match stands after a move of the side `mover`: ended, if the other side has
/// no move, else as before.
pub open spec fn result_after(before: Option<MatchResult>, p: Position, mover: Color) -> Option<
    MatchResult,
> {
    if all_moves(p, mover.opposite()).len() == 0 {
        Some(verdict(p, mover.opposite()))
    } else {
        before
    }
}

impl<E: Clone> MatchRegistry<E> {
    /// How many numbers have been given out.
    pub closed spec fn len(&self) -> nat {
        self.boards@.len()
    }

    /// The board of the match with number `id`.
    pub closed spec fn board(&self, id: int) -> Board {
        self.boards@[id]
    }

    /// What is kept beside the board of the match with number `id`.
    pub closed spec fn info(&self, id: int) -> MatchInfos<E> {
        self.infos@[id]
    }

    /// The numbers that are free to be given out again.
    pub closed spec fn free(&self) -> Seq<u32> {
        self.empty_slots@
    }

    /// Every number given out has a consistent board and its record, and every
    /// free number was given out before.
    pub closed spec fn wf(&self) -> bool {
        &&& self.boards@.len() == self.infos@.len()
        &&& self.boards@.len() <= u32::MAX
        &&& forall|i: int| 0 <= i < self.boards@.len() ==> (#[trigger] self.boards@[i]).wf()
        &&& forall|i: int|
            0 <= i < self.empty_slots@.len() ==> (#[trigger] self.empty_slots@[i])
                < self.boards@.len()
    }

    /// A registry without matches.
    pub fn new() -> (r: Self)
        ensures
            r.wf(),
            r.len() == 0,
            r.free().len() == 0,
    {
        Self { empty_slots: Vec::new(), boards: Vec::new(), infos: Vec::new() }
    }

    /// How many numbers have been given out.
    pub fn count(&self) -> (n: usize)
        ensures
            n == self.len(),
    {
        self.boards.len()
    }

    /// Starts a match from the starting position, White to move, under a free number
    /// if there is one, else under the next number.
    pub fn create_match(&mut self, extra: E) -> (id: u32)
        requires
            old(self).wf(),
            old(self).len() < u32::MAX,
        ensures
            final(self).wf(),
            id < final(self).len(),
            id == (if old(self).free().len() == 0 {
                old(self).len() as u32
            } else {
                old(self).free().last()
            }),
            final(self).len() == (if old(self).free().len() == 0 {
                old(self).len() + 1
            } else {
                old(self).len()
            }),
            final(self).free() == (if old(self).free().len() == 0 {
                old(self).free()
            } else {
                old(self).free().drop_last()
            }),
            final(self).board(id as int)@ == start_position(),
            final(self).info(id as int).result.is_none(),
            final(self).info(id as int).color == Color::White,
            final(self).info(id as int).extra == extra,
            forall|i: int|
                0 <= i < old(self).len() && i != id ==> #[trigger] final(self).board(i) == old(
                    self,
                ).board(i) && final(self).info(i) == old(self).info(i),
    {
        let board = Board::new();
        let info = MatchInfos { result: None, color: Color::White, extra };
        if self.empty_slots.len() == 0 {
            self.boards.push(board);
            self.infos.push(info);
            (self.boards.len() - 1) as u32
        } else {
            let id: u32 = self.empty_slots.pop().unwrap();
            self.boards[id as usize] = board;
            self.infos[id as usize] = info;
            id
        }
    }

    /// A copy of the board of a match; nothing for a number that was never given out.
    pub fn get_board(&self, id: u32) -> (r: Option<Board>)
        requires
            self.wf(),
        ensures
            r.is_some() <==> id < self.len(),
            r.is_some() ==> r.unwrap()@ == self.board(id as int)@ && r.unwrap().wf(),
    {
        if (id as usize) < self.boards.len() {
            Some(self.boards[id as usize].clone())
        } else {
            None
        }
    }

    /// A copy of what is kept beside the board of a match; nothing for a number that
    /// was never given out.
    pub fn get_info(&self, id: u32) -> (r: Option<MatchInfos<E>>)
        requires
            self.wf(),
        ensures
            r.is_some() <==> id < self.len(),
            r.is_some() ==> r.unwrap().result == self.info(id as int).result && r.unwrap().color
                == self.info(id as int).color && cloned::<E>(
                self.info(id as int).extra,
                r.unwrap().extra,
            ),
    {
        if (id as usize) < self.infos.len() {
            let i = &self.infos[id as usize];
            Some(MatchInfos { result: i.result, color: i.color, extra: i.extra.clone() })
        } else {
            None
        }
    }

    /// Makes a move in a match and passes the turn; the match ends if the side then
    /// to move has no move. Returns whether a reply of the engine is wanted: it is
    /// asked for and the match goes on. Nothing happens for a number that was never
    /// given out.
    pub fn do_move(&mut self, id: u32, mv: Move, otherplayerdecide: bool) -> (reply: bool)
        requires
            old(self).wf(),
            id < old(self).len() ==> move_ok(old(self).board(id as int)@, mv),
        ensures
            final(self).wf(),
            final(self).len() == old(self).len(),
            final(self).free() == old(self).free(),
            forall|i: int|
                0 <= i < old(self).len() && i != id ==> #[trigger] final(self).board(i) == old(
                    self,
                ).board(i) && final(self).info(i) == old(self).info(i),
            id < old(self).len() ==> {
                &&& final(self).board(id as int)@ == apply_move(old(self).board(id as int)@, mv)
                &&& final(self).info(id as int).color == old(self).info(id as int).color.opposite()
                &&& final(self).info(id as int).extra == old(self).info(id as int).extra
                &&& final(self).info(id as int).result == result_after(
                    old(self).info(id as int).result,
                    final(self).board(id as int)@,
                    old(self).info(id as int).color,
                )
                &&& reply == (otherplayerdecide && all_moves(
                    final(self).board(id as int)@,
                    final(self).info(id as int).color,
                ).len() > 0)
            },
            id >= old(self).len() ==> !reply,
    {
        if (id as usize) >= self.boards.len() {
            return false;
        }
        let i: usize = id as usize;
        self.boards[i].do_move(mv);
        let next = match self.infos[i].color {
            Color::White => Color::Black,
            Color::Black => Color::White,
        };
        self.infos[i].color = next;
        let mut moves = LongMoveList::new();
        proof {
            let b = self.boards@[i as int];
            assert(b.king_consistent(next));
            lemma_aggressors(b, next);
        }
        self.boards[i].enumerate_all_moves_by(next, &mut moves);
        assert(moves@ =~= all_moves(self.boards@[i as int]@, next));
        if moves.is_empty() {
            let ended = if self.boards[i].get_king(next).aggressors.is_empty() {
                MatchResult::Stalemate
            } else {
                match next {
                    Color::White => MatchResult::BlackWins,
                    Color::Black => MatchResult::WhiteWins,
                }
            };
            self.infos[i].result = Some(ended);
            false
        } else {
            otherplayerdecide
        }
    }

    /// Applies the reply that the engine has found for `color` in a match, unless it
    /// comes too late: the match must exist, it must be the turn of `color`, and the
    /// move must be one that the generator offers now. Returns whether the move was
    /// made.
    pub fn apply_reply(&mut self, id: u32, color: Color, mv: Move) -> (made: bool)
        requires
            old(self).wf(),
        ensures
            final(self).wf(),
            final(self).len() == old(self).len(),
            final(self).free() == old(self).free(),
            forall|i: int|
                0 <= i < old(self).len() && i != id ==> #[trigger] final(self).board(i) == old(
                    self,
                ).board(i) && final(self).info(i) == old(self).info(i),
            made == (id < old(self).len() && old(self).info(id as int).color == color && all_moves(
                old(self).board(id as int)@,
                color,
            ).contains(mv)),
            made ==> {
                &&& final(self).board(id as int)@ == apply_move(old(self).board(id as int)@, mv)
                &&& final(self).info(id as int).color == color.opposite()
                &&& final(self).info(id as int).extra == old(self).info(id as int).extra
                &&& final(self).info(id as int).result == result_after(
                    old(self).info(id as int).result,
                    final(self).board(id as int)@,
                    color,
                )
            },
            !made && id < old(self).len() ==> final(self).board(id as int) == old(self).board(
                id as int,
            ) && final(self).info(id as int) == old(self).info(id as int),
    {
        if (id as usize) >= self.boards.len() {
            return false;
        }
        let i: usize = id as usize;
        if self.infos[i].color != color {
            return false;
        }
        let mut moves = LongMoveList::new();
        proof {
            let b = self.boards@[i as int];
            assert(b.king_consistent(color));
        }
        self.boards[i].enumerate_all_moves_by(color, &mut moves);
        assert(moves@ =~= all_moves(self.boards@[i as int]@, color));
        let n: usize = moves.len();
        let mut j: usize = 0;
        let mut found = false;
        while j < n
            invariant
                j <= n,
                n == moves@.len(),
                found == moves@.subrange(0, j as int).contains(mv),
            decreases n - j,
        {
            if moves.get(j) == mv {
                found = true;
            }
            proof {
                let a = moves@.subrange(0, j as int);
                let b = moves@.subrange(0, j + 1);
                assert(b =~= a.push(moves@[j as int]));
                if a.contains(mv) {
                    let w = choose|w: int| 0 <= w < a.len() && a[w] == mv;
                    assert(b[w] == mv);
                }
                if b.contains(mv) && moves@[j as int] != mv {
                    let w = choose|w: int| 0 <= w < b.len() && b[w] == mv;
                    assert(a[w] == mv);
                }
                if moves@[j as int] == mv {
                    assert(b[j as int] == mv);
                }
            }
            j += 1;
        }
        assert(moves@.subrange(0, n as int) =~= moves@);
        if !found {
            return false;
        }
        proof {
            let w = choose|w: int| 0 <= w < moves@.len() && moves@[w] == mv;
            assert(move_ok(self.boards@[i as int]@, moves@[w]));
        }
        let _ = self.do_move(id, mv, false);
        true
    }
}

impl<E: Clone> Default for MatchRegistry<E> {
    fn default() -> (r: Self)
        ensures
            r.wf(),
            r.len() == 0,
    {
        Self::new()
    }
}

} // verus!
