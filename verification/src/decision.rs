use crate::board::{Board, Color, Position};
use crate::eval::{get_move_score, get_white_board_score, move_score, white_score};
use crate::legal::{all_moves, in_check, lemma_aggressors, lemma_all_moves_below};
use crate::movegen::all_ok;
use crate::moves::{apply_move, move_ok, LongMoveList, Move};
use crate::score::Score;
use vstd::prelude::*;

verus! {

/// How deep the search looks: so many moves in full, and after them so many more
/// while the position is not quiet.
#[derive(Clone, Copy, Debug)]
pub struct Config {
    pub depth: u32,
    pub max_quiescence_depth: u32,
}

impl Config {
    /// Five moves in full, and up to four more while the position is not quiet.
    pub fn standard() -> (c: Config)
        ensures
            c.depth == 5,
            c.max_quiescence_depth == 4,
    {
        Config { depth: 5, max_quiescence_depth: 4 }
    }
}

impl Default for Config {
    fn default() -> (c: Config)
        ensures
            c.depth == 5,
            c.max_quiescence_depth == 4,
    {
        Config::standard()
    }
}

/// `q` with `m` put behind the last move that is tried no later than `m`: the list
/// stays ordered by falling score, and of two moves with one score the one that
/// came first stays first.
pub open spec fn insert_desc(q: Seq<Move>, m: Move, f: Seq<crate::board::Field>) -> Seq<Move>
    decreases q.len(),
{
    if q.len() == 0 {
        seq![m]
    } else if move_score(f, q.last()) >= move_score(f, m) {
        q.push(m)
    } else {
        insert_desc(q.drop_last(), m, f).push(q.last())
    }
}

/// The moves of `q` ordered by falling score; moves with one score keep their order.
pub open spec fn sort_desc(q: Seq<Move>, f: Seq<crate::board::Field>) -> Seq<Move>
    decreases q.len(),
{
    if q.len() == 0 {
        Seq::empty()
    } else {
        insert_desc(sort_desc(q.drop_last(), f), q.last(), f)
    }
}

/// Whether the scores of a list of moves never rise.
pub open spec fn falling(q: Seq<Move>, f: Seq<crate::board::Field>) -> bool {
    forall|i: int, j: int| 0 <= i <= j < q.len() ==> move_score(f, q[i]) >= move_score(f, q[j])
}

/// The moves that the generator offers for `color`, in the order in which the
/// search tries them.
pub open spec fn sorted_moves(p: Position, color: Color) -> Seq<Move> {
    sort_desc(all_moves(p, color), p.fields)
}

/// Putting a move into an ordered list keeps it ordered, adds that move and no
/// other, and keeps every move one that `do_move` takes.
pub proof fn lemma_insert_desc(p: Position, q: Seq<Move>, m: Move)
    requires
        falling(q, p.fields),
    ensures
        falling(insert_desc(q, m, p.fields), p.fields),
        insert_desc(q, m, p.fields).len() == q.len() + 1,
        insert_desc(q, m, p.fields).to_multiset() == q.to_multiset().insert(m),
        all_ok(p, q) && move_ok(p, m) ==> all_ok(p, insert_desc(q, m, p.fields)),
        forall|i: int|
            0 <= i < insert_desc(q, m, p.fields).len() ==> move_score(
                p.fields,
                #[trigger] insert_desc(q, m, p.fields)[i],
            ) >= move_score(p.fields, m) || (q.len() > 0 && move_score(
                p.fields,
                insert_desc(q, m, p.fields)[i],
            ) >= move_score(p.fields, q.last())),
    decreases q.len(),
{
    broadcast use vstd::seq_lib::group_to_multiset_ensures;

    let f = p.fields;
    let r = insert_desc(q, m, f);
    if q.len() == 0 {
        assert(q.to_multiset() =~= vstd::multiset::Multiset::empty());
        assert(r =~= Seq::<Move>::empty().push(m));
        assert(q =~= Seq::<Move>::empty());
    } else if move_score(f, q.last()) >= move_score(f, m) {
    } else {
        let rest = q.drop_last();
        let inner = insert_desc(rest, m, f);
        lemma_insert_desc(p, rest, m);
        assert(q =~= rest.push(q.last()));
        assert(r == inner.push(q.last()));
        assert(inner.to_multiset().insert(q.last()) =~= rest.to_multiset().insert(
            q.last(),
        ).insert(m));
        assert forall|i: int, j: int| 0 <= i <= j < r.len() implies move_score(f, r[i])
            >= move_score(f, r[j]) by {
            if j == r.len() - 1 && i < j {
                assert(r[i] == inner[i]);
                if rest.len() > 0 {
                    assert(move_score(f, rest.last()) >= move_score(f, q.last()));
                }
            }
        }
        if all_ok(p, q) && move_ok(p, m) {
            assert forall|i: int| 0 <= i < rest.len() implies move_ok(p, #[trigger] rest[i]) by {
                assert(rest[i] == q[i]);
            }
            assert(move_ok(p, q[q.len() - 1]));
        }
    }
}

/// Ordering a list keeps its moves, each as often as before, and puts them in
/// falling order of their scores.
pub proof fn lemma_sort_desc(p: Position, q: Seq<Move>)
    ensures
        falling(sort_desc(q, p.fields), p.fields),
        sort_desc(q, p.fields).len() == q.len(),
        sort_desc(q, p.fields).to_multiset() == q.to_multiset(),
        all_ok(p, q) ==> all_ok(p, sort_desc(q, p.fields)),
    decreases q.len(),
{
    broadcast use vstd::seq_lib::group_to_multiset_ensures;

    if q.len() == 0 {
    } else {
        let rest = q.drop_last();
        lemma_sort_desc(p, rest);
        lemma_insert_desc(p, sort_desc(rest, p.fields), q.last());
        assert(q =~= rest.push(q.last()));
        if all_ok(p, q) {
            assert forall|i: int| 0 <= i < rest.len() implies move_ok(p, #[trigger] rest[i]) by {
                assert(rest[i] == q[i]);
            }
            assert(move_ok(p, q[q.len() - 1]));
        }
    }
}

/// The moves that the generator offers for `color`, ordered by falling score.
pub fn get_sorted_moves(board: &Board, color: Color) -> (lst: LongMoveList)
    requires
        board.wf(),
    ensures
        lst@ == sorted_moves(board@, color),
        all_ok(board@, lst@),
{
    let ghost p = board@;
    let ghost f = board.fields();
    let mut all = LongMoveList::new();
    proof {
        assert(board.king_consistent(color));
        match board.en_passant_chance {
            Some(t) => {
                use_type_invariant(t);
            },
            None => {},
        }
        lemma_all_moves_below(p, color, 120);
    }
    board.enumerate_all_moves_by(color, &mut all);
    let n: usize = all.len();
    let ghost a = all@;
    proof {
        assert(a =~= all_moves(p, color));
        lemma_sort_desc(p, a);
        assert(a.subrange(0, 0) =~= Seq::<Move>::empty());
    }
    let mut out = LongMoveList::new();
    let mut i: usize = 0;
    while i < n
        invariant
            i <= n <= 432,
            n == a.len(),
            a == all@,
            f == board.fields(),
            out@ == sort_desc(a.subrange(0, i as int), f),
            out@.len() == i,
        decreases n - i,
    {
        let m = all.get(i);
        let key: i32 = get_move_score(board, &m);
        let ghost s = out@;
        let mut j: usize = out.len();
        proof {
            assert(s.subrange(0, j as int) =~= s);
            assert(s.subrange(j as int, s.len() as int) =~= Seq::<Move>::empty());
            assert(insert_desc(s, m, f) =~= insert_desc(s.subrange(0, j as int), m, f)
                + s.subrange(j as int, s.len() as int));
        }
        while j > 0 && get_move_score(board, &out.get(j - 1)) < key
            invariant
                j <= s.len(),
                s == out@,
                s.len() == i,
                f == board.fields(),
                key == move_score(f, m),
                insert_desc(s, m, f) == insert_desc(s.subrange(0, j as int), m, f) + s.subrange(
                    j as int,
                    s.len() as int,
                ),
            decreases j,
        {
            proof {
                let t = s.subrange(0, j as int);
                assert(t.last() == s[j - 1]);
                assert(t.drop_last() =~= s.subrange(0, j - 1));
                assert(insert_desc(t, m, f) == insert_desc(s.subrange(0, j - 1), m, f).push(
                    s[j - 1],
                ));
                assert(insert_desc(s.subrange(0, j - 1), m, f).push(s[j - 1]) + s.subrange(
                    j as int,
                    s.len() as int,
                ) =~= insert_desc(s.subrange(0, j - 1), m, f) + s.subrange(
                    j - 1,
                    s.len() as int,
                ));
            }
            j -= 1;
        }
        proof {
            let t = s.subrange(0, j as int);
            if j > 0 {
                assert(t.last() == s[j - 1]);
            }
            assert(insert_desc(t, m, f) == t.push(m));
            assert(t.push(m) + s.subrange(j as int, s.len() as int) =~= s.insert(j as int, m));
            assert(a.subrange(0, i + 1).drop_last() =~= a.subrange(0, i as int));
            assert(a.subrange(0, i + 1).last() == m);
        }
        out.insert(j, m);
        i += 1;
    }
    proof {
        assert(a.subrange(0, n as int) =~= a);
    }
    out
}

/// The static evaluation of a position as the search counts it: for the side at
/// the root. `color` is the side that has just moved; it is the side at the root
/// exactly where the best reply for the root is sought.
pub open spec fn leaf_score(f: Seq<crate::board::Field>, color: Color, maximizing: bool) -> Score {
    Score::Value(
        (if (color == Color::White) == maximizing {
            white_score(f)
        } else {
            -white_score(f)
        }) as i32,
    )
}

/// What a position counts in which the side to move, `opp`, has no move: a
/// stalemate if it is not in check, else a win for the side that gave mate.
pub open spec fn none_score(p: Position, opp: Color, maximizing: bool) -> Score {
    if !in_check(p, opp) {
        Score::Stalemate
    } else if maximizing {
        Score::MeWins
    } else {
        Score::EnemyWins
    }
}

/// The best score that the side to move, `opp`, can reach in the window from `w0` to
/// `w1`, for the side at the root.
pub open spec fn reply_score(
    p: Position,
    d: nat,
    q: nat,
    last: Score,
    w0: Score,
    w1: Score,
    opp: Color,
    maximizing: bool,
) -> Score
    decreases d + q, 3nat, 0nat,
{
    match stage(p, sorted_moves(p, opp), d, q, last, w0, w1, opp, !maximizing) {
        Some((_, s)) => s,
        None => none_score(p, opp, maximizing),
    }
}

/// The score of a reply: once a principal variation is found, first sought in the
/// window of width one above `w0`, and sought again from that score up to `w1` if
/// it falls strictly between the two.
pub open spec fn windowed(
    p: Position,
    d: nat,
    q: nat,
    last: Score,
    w0: Score,
    w1: Score,
    pv: bool,
    opp: Color,
    maximizing: bool,
) -> Score
    decreases d + q, 4nat, 0nat,
{
    if pv {
        let s = reply_score(p, d, q, last, w0, w0.plus(1), opp, maximizing);
        if w0.below(s) && s.below(w1) {
            reply_score(p, d, q, last, s, w1, opp, maximizing)
        } else {
            s
        }
    } else {
        reply_score(p, d, q, last, w0, w1, opp, maximizing)
    }
}

/// The score of the move `mv` of `color`: with depth left, that of the best reply;
/// without, the static evaluation if the position is quiet or no quiescence depth
/// is left, else that of the best reply one quiescence move deeper.
pub open spec fn child_score(
    p: Position,
    mv: Move,
    color: Color,
    d: nat,
    q: nat,
    last: Score,
    w0: Score,
    w1: Score,
    pv: bool,
    maximizing: bool,
) -> Score
    decreases d + q, 0nat, 0nat,
{
    let after = apply_move(p, mv);
    let now = leaf_score(after.fields, color, maximizing);
    if d > 0 {
        windowed(
            after,
            (d - 1) as nat,
            q,
            if d == 1 {
                now
            } else {
                last
            },
            w0,
            w1,
            pv,
            color.opposite(),
            maximizing,
        )
    } else if q == 0 || now.quiet_after(last) {
        now
    } else {
        windowed(after, 0, (q - 1) as nat, now, w0, w1, pv, color.opposite(), maximizing)
    }
}

/// The search over the moves from index `i` on, in a window from `w0` to `w1`, with
/// the best move found so far. The side that maximizes keeps the first move with
/// the highest score, stops at a score that reaches `w1`, and raises `w0` to every
/// score above it; the side that minimizes does the same the other way round.
pub open spec fn stage_from(
    p: Position,
    moves: Seq<Move>,
    i: nat,
    d: nat,
    q: nat,
    last: Score,
    w0: Score,
    w1: Score,
    pv: bool,
    best: Option<(Move, Score)>,
    color: Color,
    maximizing: bool,
) -> Option<(Move, Score)>
    decreases d + q, 1nat, moves.len() - i,
{
    if i >= moves.len() {
        best
    } else {
        let mv = moves[i as int];
        let score = child_score(p, mv, color, d, q, last, w0, w1, pv, maximizing);
        if maximizing {
            let improves = best.is_none() || best.unwrap().1.below(score);
            let best2 = if improves {
                Some((mv, score))
            } else {
                best
            };
            if improves && !score.below(w1) {
                best2
            } else if w0.below(score) {
                stage_from(p, moves, i + 1, d, q, last, score, w1, true, best2, color, maximizing)
            } else {
                stage_from(p, moves, i + 1, d, q, last, w0, w1, pv, best2, color, maximizing)
            }
        } else {
            let improves = best.is_none() || score.below(best.unwrap().1);
            let best2 = if improves {
                Some((mv, score))
            } else {
                best
            };
            if improves && !w0.below(score) {
                best2
            } else if score.below(w1) {
                stage_from(p, moves, i + 1, d, q, last, w0, score, true, best2, color, maximizing)
            } else {
                stage_from(p, moves, i + 1, d, q, last, w0, w1, pv, best2, color, maximizing)
            }
        }
    }
}

/// The search over a list of moves of `color`: the move that it chooses and its
/// score, or nothing for an empty list.
pub open spec fn stage(
    p: Position,
    moves: Seq<Move>,
    d: nat,
    q: nat,
    last: Score,
    w0: Score,
    w1: Score,
    color: Color,
    maximizing: bool,
) -> Option<(Move, Score)>
    decreases d + q, 2nat, 0nat,
{
    stage_from(p, moves, 0, d, q, last, w0, w1, false, None, color, maximizing)
}

/// The move that the engine chooses for `color`, if it has one.
pub open spec fn decision(p: Position, color: Color, config: Config) -> Option<Move> {
    match stage(
        p,
        sorted_moves(p, color),
        config.depth as nat,
        config.max_quiescence_depth as nat,
        Score::EnemyWins,
        Score::EnemyWins,
        Score::MeWins,
        color,
        true,
    ) {
        Some((m, _)) => Some(m),
        None => None,
    }
}

impl Score {
    /// Whether the evaluation of the score, if it is one, lies within `b` of 0.
    pub open spec fn within(self, b: int) -> bool {
        -b <= self.amount() <= b
    }
}

/// The score of the move `mv` of `color` in the search.
fn stage_common(
    board: &Board,
    mv: Move,
    color: Color,
    d: u32,
    q: u32,
    last_score: Score,
    w0: Score,
    w1: Score,
    pv_found: bool,
    maximizing: bool,
) -> (s: Score)
    requires
        board.wf(),
        move_ok(board@, mv),
        w0.within(1_560_000),
        w1.within(1_560_001),
    ensures
        s == child_score(
            board@,
            mv,
            color,
            d as nat,
            q as nat,
            last_score,
            w0,
            w1,
            pv_found,
            maximizing,
        ),
        s.within(1_560_000),
    decreases d + q, 0nat,
{
    let mut board2 = board.clone();
    board2.do_move(mv);
    let white: i32 = get_white_board_score(&board2);
    let is_white = match color {
        Color::White => true,
        Color::Black => false,
    };
    let now = Score::Value(
        if is_white == maximizing {
            white
        } else {
            -white
        },
    );
    let opp = match color {
        Color::White => Color::Black,
        Color::Black => Color::White,
    };
    if d > 0 {
        let last2 = if d == 1 {
            now
        } else {
            last_score
        };
        reply_in_window(&board2, d - 1, q, last2, w0, w1, pv_found, opp, maximizing)
    } else if q == 0 || now.is_in_quiescence_bounds(last_score) {
        now
    } else {
        reply_in_window(&board2, 0, q - 1, now, w0, w1, pv_found, opp, maximizing)
    }
}

/// The score of the best reply of `opp`, sought in the window as the search asks.
fn reply_in_window(
    board: &Board,
    d: u32,
    q: u32,
    last_score: Score,
    w0: Score,
    w1: Score,
    pv_found: bool,
    opp: Color,
    maximizing: bool,
) -> (s: Score)
    requires
        board.wf(),
        w0.within(1_560_000),
        w1.within(1_560_001),
    ensures
        s == windowed(board@, d as nat, q as nat, last_score, w0, w1, pv_found, opp, maximizing),
        s.within(1_560_000),
    decreases d + q, 4nat,
{
    let moves = get_sorted_moves(board, opp);
    if pv_found {
        let score = reply(board, &moves, d, q, last_score, w0, w0.plus_value(1), opp, maximizing);
        if w0.is_below(score) && score.is_below(w1) {
            reply(board, &moves, d, q, last_score, score, w1, opp, maximizing)
        } else {
            score
        }
    } else {
        reply(board, &moves, d, q, last_score, w0, w1, opp, maximizing)
    }
}

/// The score of the best reply of `opp` in a window.
fn reply(
    board: &Board,
    moves: &LongMoveList,
    d: u32,
    q: u32,
    last_score: Score,
    w0: Score,
    w1: Score,
    opp: Color,
    maximizing: bool,
) -> (s: Score)
    requires
        board.wf(),
        moves@ == sorted_moves(board@, opp),
        all_ok(board@, moves@),
        w0.within(1_560_000),
        w1.within(1_560_001),
    ensures
        s == reply_score(board@, d as nat, q as nat, last_score, w0, w1, opp, maximizing),
        s.within(1_560_000),
    decreases d + q, 3nat,
{
    let found = if maximizing {
        min_stage(board, moves, d, q, last_score, [w0, w1], opp)
    } else {
        max_stage(board, moves, d, q, last_score, [w0, w1], opp)
    };
    match found {
        Some((_, s)) => s,
        None => {
            proof {
                lemma_aggressors(*board, opp);
            }
            if board.get_king(opp).aggressors.is_empty() {
                Score::Stalemate
            } else if maximizing {
                Score::MeWins
            } else {
                Score::EnemyWins
            }
        },
    }
}

/// The search over a list of moves of `color`.
fn search_stage(
    board: &Board,
    moves: &LongMoveList,
    d: u32,
    q: u32,
    last_score: Score,
    win0: Score,
    win1: Score,
    color: Color,
    maximizing: bool,
) -> (r: Option<(Move, Score)>)
    requires
        board.wf(),
        all_ok(board@, moves@),
        win0.within(1_560_000),
        win1.within(1_560_001),
    ensures
        r == stage(board@, moves@, d as nat, q as nat, last_score, win0, win1, color, maximizing),
        r.is_some() ==> r.unwrap().1.within(1_560_000),
    decreases d + q, 1nat,
{
    let ghost p = board@;
    let ghost ms = moves@;
    let ghost goal = stage(p, ms, d as nat, q as nat, last_score, win0, win1, color, maximizing);
    let n: usize = moves.len();
    let mut w0: Score = win0;
    let mut w1: Score = win1;
    let mut best: Option<(Move, Score)> = None;
    let mut pv_found = false;
    let mut i: usize = 0;
    while i < n
        invariant
            i <= n,
            n == moves@.len(),
            ms == moves@,
            p == board@,
            board.wf(),
            all_ok(p, ms),
            w0.within(1_560_000),
            w1.within(1_560_001),
            best.is_some() ==> best.unwrap().1.within(1_560_000),
            goal == stage(
                board@,
                moves@,
                d as nat,
                q as nat,
                last_score,
                win0,
                win1,
                color,
                maximizing,
            ),
            goal == stage_from(
                p,
                ms,
                i as nat,
                d as nat,
                q as nat,
                last_score,
                w0,
                w1,
                pv_found,
                best,
                color,
                maximizing,
            ),
        decreases n - i,
    {
        let mv = moves.get(i);
        assert(move_ok(p, ms[i as int]));
        proof {
            lemma_stage_unfold(
                p,
                ms,
                i as nat,
                d as nat,
                q as nat,
                last_score,
                w0,
                w1,
                pv_found,
                best,
                color,
                maximizing,
            );
        }
        let score = stage_common(board, mv, color, d, q, last_score, w0, w1, pv_found, maximizing);
        if maximizing {
            let improves = match best {
                Some((_, s)) => s.is_below(score),
                None => true,
            };
            if improves {
                best = Some((mv, score));
                if !score.is_below(w1) {
                    return best;
                }
            }
            if w0.is_below(score) {
                w0 = score;
                pv_found = true;
            }
        } else {
            let improves = match best {
                Some((_, s)) => score.is_below(s),
                None => true,
            };
            if improves {
                best = Some((mv, score));
                if !w0.is_below(score) {
                    return best;
                }
            }
            if score.is_below(w1) {
                w1 = score;
                pv_found = true;
            }
        }
        i += 1;
    }
    proof {
        lemma_stage_unfold(
            p,
            ms,
            i as nat,
            d as nat,
            q as nat,
            last_score,
            w0,
            w1,
            pv_found,
            best,
            color,
            maximizing,
        );
    }
    best
}

/// One step of the search over a list of moves.
pub proof fn lemma_stage_unfold(
    p: Position,
    moves: Seq<Move>,
    i: nat,
    d: nat,
    q: nat,
    last: Score,
    w0: Score,
    w1: Score,
    pv: bool,
    best: Option<(Move, Score)>,
    color: Color,
    maximizing: bool,
)
    ensures
        stage_from(p, moves, i, d, q, last, w0, w1, pv, best, color, maximizing) == (if i
            >= moves.len() {
            best
        } else {
            let mv = moves[i as int];
            let score = child_score(p, mv, color, d, q, last, w0, w1, pv, maximizing);
            let best2 = best2_of(best, mv, score, maximizing);
            if maximizing {
                if best2 != best && !score.below(w1) {
                    best2
                } else if w0.below(score) {
                    stage_from(p, moves, i + 1, d, q, last, score, w1, true, best2, color, maximizing)
                } else {
                    stage_from(p, moves, i + 1, d, q, last, w0, w1, pv, best2, color, maximizing)
                }
            } else {
                if best2 != best && !w0.below(score) {
                    best2
                } else if score.below(w1) {
                    stage_from(p, moves, i + 1, d, q, last, w0, score, true, best2, color, maximizing)
                } else {
                    stage_from(p, moves, i + 1, d, q, last, w0, w1, pv, best2, color, maximizing)
                }
            }
        }),
{
}

/// The search of the side that takes the lowest score.
fn min_stage(
    board: &Board,
    moves: &LongMoveList,
    d: u32,
    q: u32,
    last_score: Score,
    win: [Score; 2],
    color: Color,
) -> (r: Option<(Move, Score)>)
    requires
        board.wf(),
        all_ok(board@, moves@),
        win[0].within(1_560_000),
        win[1].within(1_560_001),
    ensures
        r == stage(board@, moves@, d as nat, q as nat, last_score, win[0], win[1], color, false),
        r.is_some() ==> r.unwrap().1.within(1_560_000),
    decreases d + q, 2nat,
{
    search_stage(board, moves, d, q, last_score, win[0], win[1], color, false)
}

/// The search of the side that takes the highest score.
fn max_stage(
    board: &Board,
    moves: &LongMoveList,
    d: u32,
    q: u32,
    last_score: Score,
    win: [Score; 2],
    color: Color,
) -> (r: Option<(Move, Score)>)
    requires
        board.wf(),
        all_ok(board@, moves@),
        win[0].within(1_560_000),
        win[1].within(1_560_001),
    ensures
        r == stage(board@, moves@, d as nat, q as nat, last_score, win[0], win[1], color, true),
        r.is_some() ==> r.unwrap().1.within(1_560_000),
    decreases d + q, 2nat,
{
    search_stage(board, moves, d, q, last_score, win[0], win[1], color, true)
}

/// The move that the engine chooses for `color`, with the score that the search
/// gives it; nothing if `color` has no move.
pub fn decide_scored(board: &Board, color: Color, config: Config) -> (r: Option<(Move, Score)>)
    requires
        board.wf(),
    ensures
        r == stage(
            board@,
            sorted_moves(board@, color),
            config.depth as nat,
            config.max_quiescence_depth as nat,
            Score::EnemyWins,
            Score::EnemyWins,
            Score::MeWins,
            color,
            true,
        ),
        r.is_some() ==> move_ok(board@, r.unwrap().0),
{
    let moves = get_sorted_moves(board, color);
    let r = max_stage(
        board,
        &moves,
        config.depth,
        config.max_quiescence_depth,
        Score::min(),
        [Score::min(), Score::max()],
        color,
    );
    proof {
        lemma_stage_member(
            board@,
            moves@,
            0,
            config.depth as nat,
            config.max_quiescence_depth as nat,
            Score::EnemyWins,
            Score::EnemyWins,
            Score::MeWins,
            false,
            None,
            color,
            true,
        );
        if r.is_some() {
            let j = choose|j: int| 0 <= j < moves@.len() && r.unwrap().0 == #[trigger] moves@[j];
            assert(move_ok(board@, moves@[j]));
        }
    }
    r
}

/// The move that the engine chooses for `color`; nothing if `color` has no move.
pub fn decide(board: &Board, color: Color, config: Config) -> (r: Option<Move>)
    requires
        board.wf(),
    ensures
        r == decision(board@, color, config),
        r.is_some() ==> move_ok(board@, r.unwrap()),
{
    match decide_scored(board, color, config) {
        Some((m, _)) => Some(m),
        None => None,
    }
}

/// The search chooses one of the moves it is given, or keeps the best it had; with
/// moves left and nothing kept, it chooses one.
pub proof fn lemma_stage_member(
    p: Position,
    moves: Seq<Move>,
    i: nat,
    d: nat,
    q: nat,
    last: Score,
    w0: Score,
    w1: Score,
    pv: bool,
    best: Option<(Move, Score)>,
    color: Color,
    maximizing: bool,
)
    ensures
        ({
            let r = stage_from(p, moves, i, d, q, last, w0, w1, pv, best, color, maximizing);
            &&& (r.is_none() <==> best.is_none() && i >= moves.len())
            &&& r.is_some() ==> r == best || exists|j: int|
                i <= j < moves.len() && r.unwrap().0 == #[trigger] moves[j]
        }),
    decreases moves.len() - i,
{
    lemma_stage_unfold(p, moves, i, d, q, last, w0, w1, pv, best, color, maximizing);
    if i < moves.len() {
        let mv = moves[i as int];
        let score = child_score(p, mv, color, d, q, last, w0, w1, pv, maximizing);
        let best2 = best2_of(best, mv, score, maximizing);
        if maximizing {
            if best2 != best && !score.below(w1) {
            } else if w0.below(score) {
                lemma_stage_member(p, moves, i + 1, d, q, last, score, w1, true, best2, color, true);
            } else {
                lemma_stage_member(p, moves, i + 1, d, q, last, w0, w1, pv, best2, color, true);
            }
        } else {
            if best2 != best && !w0.below(score) {
            } else if score.below(w1) {
                lemma_stage_member(p, moves, i + 1, d, q, last, w0, score, true, best2, color, false);
            } else {
                lemma_stage_member(p, moves, i + 1, d, q, last, w0, w1, pv, best2, color, false);
            }
        }
    }
}

/// The best move after one more move with its score has been looked at.
pub open spec fn best2_of(best: Option<(Move, Score)>, mv: Move, score: Score, maximizing: bool) -> Option<
    (Move, Score),
> {
    let improves = best.is_none() || (if maximizing {
        best.unwrap().1.below(score)
    } else {
        score.below(best.unwrap().1)
    });
    if improves {
        Some((mv, score))
    } else {
        best
    }
}

/// Whether the move `m` of `color` gives mate: after it the other side is in check
/// and has no move.
pub open spec fn mates(p: Position, color: Color, m: Move) -> bool {
    all_moves(apply_move(p, m), color.opposite()).len() == 0 && in_check(
        apply_move(p, m),
        color.opposite(),
    )
}

/// With depth left, the search gives a move that mates a win as its score,
/// whatever the window.
pub proof fn lemma_mate_scores_win(
    p: Position,
    m: Move,
    color: Color,
    d: nat,
    q: nat,
    last: Score,
    w0: Score,
    w1: Score,
    pv: bool,
)
    requires
        d >= 1,
        mates(p, color, m),
    ensures
        child_score(p, m, color, d, q, last, w0, w1, pv, true) == Score::MeWins,
{
    let after = apply_move(p, m);
    let opp = color.opposite();
    lemma_sort_desc(after, all_moves(after, opp));
    assert(sorted_moves(after, opp).len() == 0);
    let now = leaf_score(after.fields, color, true);
    let last2 = if d == 1 {
        now
    } else {
        last
    };
    let d2 = (d - 1) as nat;
    assert forall|a: Score, b: Score| #[trigger]
        reply_score(after, d2, q, last2, a, b, opp, true) == Score::MeWins by {
        assert(stage(after, sorted_moves(after, opp), d2, q, last2, a, b, opp, false).is_none());
    }
}

/// From a position in which one of the moves in the list mates, the search at the
/// root, with depth left, returns a move with a win as its score: the first move
/// in the order of the list to which it gives that score, which is the mating move
/// or stands before it.
pub proof fn lemma_finds_mate(
    p: Position,
    moves: Seq<Move>,
    i: nat,
    j: nat,
    d: nat,
    q: nat,
    last: Score,
    w0: Score,
    pv: bool,
    best: Option<(Move, Score)>,
    color: Color,
)
    requires
        d >= 1,
        i <= j < moves.len(),
        mates(p, color, moves[j as int]),
        best.is_some() ==> best.unwrap().1 != Score::MeWins,
    ensures
        ({
            let r = stage_from(p, moves, i, d, q, last, w0, Score::MeWins, pv, best, color, true);
            &&& r.is_some()
            &&& r.unwrap().1 == Score::MeWins
            &&& exists|t: int| i <= t <= j && r.unwrap().0 == #[trigger] moves[t]
        }),
    decreases moves.len() - i,
{
    let mv = moves[i as int];
    let w1 = Score::MeWins;
    let score = child_score(p, mv, color, d, q, last, w0, w1, pv, true);
    if i == j {
        lemma_mate_scores_win(p, mv, color, d, q, last, w0, w1, pv);
    }
    if score == Score::MeWins {
        assert(moves[i as int] == mv);
    } else {
        let improves = best.is_none() || best.unwrap().1.below(score);
        let best2 = if improves {
            Some((mv, score))
        } else {
            best
        };
        if w0.below(score) {
            lemma_finds_mate(p, moves, i + 1, j, d, q, last, score, true, best2, color);
        } else {
            lemma_finds_mate(p, moves, i + 1, j, d, q, last, w0, pv, best2, color);
        }
    }
}

/// Where a move of `color` mates and the search looks at least one move deep, the
/// engine chooses a move to which the search gives a win as its score; it is the
/// mating move unless a move tried before it is given that score too.
pub proof fn lemma_decides_mate(p: Position, color: Color, config: Config, j: int)
    requires
        config.depth >= 1,
        0 <= j < sorted_moves(p, color).len(),
        mates(p, color, sorted_moves(p, color)[j]),
    ensures
        ({
            let r = stage(
                p,
                sorted_moves(p, color),
                config.depth as nat,
                config.max_quiescence_depth as nat,
                Score::EnemyWins,
                Score::EnemyWins,
                Score::MeWins,
                color,
                true,
            );
            &&& r.is_some()
            &&& r.unwrap().1 == Score::MeWins
            &&& decision(p, color, config) == Some(r.unwrap().0)
            &&& exists|t: int| 0 <= t <= j && r.unwrap().0 == #[trigger] sorted_moves(p, color)[t]
        }),
{
    lemma_finds_mate(
        p,
        sorted_moves(p, color),
        0,
        j as nat,
        config.depth as nat,
        config.max_quiescence_depth as nat,
        Score::EnemyWins,
        Score::EnemyWins,
        false,
        None,
        color,
    );
}

/// Whether the search gives no move before the one at index `j` a win as its score,
/// whatever the window.
pub open spec fn first_win(
    p: Position,
    moves: Seq<Move>,
    j: int,
    d: nat,
    q: nat,
    last: Score,
    color: Color,
) -> bool {
    forall|t: int, w0: Score, pv: bool|
        0 <= t < j ==> #[trigger] child_score(
            p,
            moves[t],
            color,
            d,
            q,
            last,
            w0,
            Score::MeWins,
            pv,
            true,
        ) != Score::MeWins
}

/// From a position in which the move at index `j` mates and no move before it is
/// given a win as its score, the search at the root returns that move.
pub proof fn lemma_finds_that_mate(
    p: Position,
    moves: Seq<Move>,
    i: nat,
    j: nat,
    d: nat,
    q: nat,
    last: Score,
    w0: Score,
    pv: bool,
    best: Option<(Move, Score)>,
    color: Color,
)
    requires
        d >= 1,
        i <= j < moves.len(),
        mates(p, color, moves[j as int]),
        first_win(p, moves, j as int, d, q, last, color),
        best.is_some() ==> best.unwrap().1 != Score::MeWins,
    ensures
        stage_from(p, moves, i, d, q, last, w0, Score::MeWins, pv, best, color, true) == Some(
            (moves[j as int], Score::MeWins),
        ),
    decreases moves.len() - i,
{
    let mv = moves[i as int];
    let w1 = Score::MeWins;
    let score = child_score(p, mv, color, d, q, last, w0, w1, pv, true);
    if i == j {
        lemma_mate_scores_win(p, mv, color, d, q, last, w0, w1, pv);
    } else {
        assert(score != Score::MeWins);
        let improves = best.is_none() || best.unwrap().1.below(score);
        let best2 = if improves {
            Some((mv, score))
        } else {
            best
        };
        if w0.below(score) {
            lemma_finds_that_mate(p, moves, i + 1, j, d, q, last, score, true, best2, color);
        } else {
            lemma_finds_that_mate(p, moves, i + 1, j, d, q, last, w0, pv, best2, color);
        }
    }
}

/// Where a move of `color` mates, the search looks at least one move deep, and it
/// gives no move that it tries before the mating move a win as its score, the
/// engine chooses the mating move, with a win as its score.
pub proof fn lemma_decides_that_mate(p: Position, color: Color, config: Config, j: int)
    requires
        config.depth >= 1,
        0 <= j < sorted_moves(p, color).len(),
        mates(p, color, sorted_moves(p, color)[j]),
        first_win(
            p,
            sorted_moves(p, color),
            j,
            config.depth as nat,
            config.max_quiescence_depth as nat,
            Score::EnemyWins,
            color,
        ),
    ensures
        stage(
            p,
            sorted_moves(p, color),
            config.depth as nat,
            config.max_quiescence_depth as nat,
            Score::EnemyWins,
            Score::EnemyWins,
            Score::MeWins,
            color,
            true,
        ) == Some((sorted_moves(p, color)[j], Score::MeWins)),
        decision(p, color, config) == Some(sorted_moves(p, color)[j]),
{
    lemma_finds_that_mate(
        p,
        sorted_moves(p, color),
        0,
        j as nat,
        config.depth as nat,
        config.max_quiescence_depth as nat,
        Score::EnemyWins,
        Score::EnemyWins,
        false,
        None,
        color,
    );
}

} // verus!
