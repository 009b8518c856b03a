use crate::board::{col, playable, Board, Color, CommonCoord, Field, Piece, UnsafeCoord};
use crate::moves::{Move, MoveType, PromotionType};
use crate::rays::{attacks, fld, lemma_attackers_bound};
use crate::score::{border, bounty, piece_value, Score, CASTLING_MOVE_SCORE};
use crate::threat::{ids};
use vstd::prelude::*;

verus! {

/// No evaluation of a position lies further from 0 than this.
pub const EVAL_BOUND: i32 = 1_560_000;

/// `b`, counted for White if a white piece or king stands on the field, against
/// White if a black one does.
pub open spec fn signed(x: Field, b: int) -> int {
    match x.owner() {
        Some(Color::White) => b,
        Some(Color::Black) => -b,
        None => 0,
    }
}

/// The bounty `b` summed over the attackers of the square `s` among the squares
/// with an index below `n`, each counted for the side of the attacker.
pub open spec fn threat_sum(f: Seq<Field>, s: int, b: int, n: int) -> int
    decreases n,
{
    if n <= 0 {
        0
    } else {
        threat_sum(f, s, b, n - 1) + (if attacks(f, n - 1, s) {
            signed(fld(f, n - 1), b)
        } else {
            0
        })
    }
}

/// The bounty `b` summed over a list of squares, each counted for the side of the
/// piece on it.
pub open spec fn list_sum(f: Seq<Field>, q: Seq<int>, b: int) -> int
    decreases q.len(),
{
    if q.len() == 0 {
        0
    } else {
        list_sum(f, q.drop_last(), b) + signed(fld(f, q.last()), b)
    }
}

/// Taking one square out of a list takes its share out of the sum.
pub proof fn lemma_list_sum_remove(f: Seq<Field>, q: Seq<int>, b: int, i: int)
    requires
        0 <= i < q.len(),
    ensures
        list_sum(f, q, b) == list_sum(f, q.remove(i), b) + signed(fld(f, q[i]), b),
    decreases q.len(),
{
    if i == q.len() - 1 {
        assert(q.remove(i) =~= q.drop_last());
    } else {
        lemma_list_sum_remove(f, q.drop_last(), b, i);
        assert(q.remove(i).drop_last() =~= q.drop_last().remove(i));
        assert(q.remove(i).last() == q.last());
    }
}

/// The sum over a list that names each attacker of a square once is the sum over
/// the attackers of the square.
pub proof fn lemma_list_sum(f: Seq<Field>, s: int, q: Seq<int>, b: int, n: int)
    requires
        0 <= n,
        q.no_duplicates(),
        forall|t: int| q.contains(t) <==> 0 <= t < n && attacks(f, t, s),
    ensures
        list_sum(f, q, b) == threat_sum(f, s, b, n),
    decreases n,
{
    if n == 0 {
        if q.len() > 0 {
            assert(q.contains(q[0]));
        }
    } else {
        let t0 = n - 1;
        if attacks(f, t0, s) {
            assert(q.contains(t0));
            let i = choose|i: int| 0 <= i < q.len() && q[i] == t0;
            let r = q.remove(i);
            lemma_list_sum_remove(f, q, b, i);
            assert forall|t: int| r.contains(t) <==> 0 <= t < n - 1 && attacks(f, t, s) by {
                if r.contains(t) {
                    let j = choose|j: int| 0 <= j < r.len() && r[j] == t;
                    if j < i {
                        assert(q[j] == t);
                    } else {
                        assert(q[j + 1] == t);
                    }
                    assert(q.contains(t));
                }
                if 0 <= t < n - 1 && attacks(f, t, s) {
                    assert(q.contains(t));
                    let j = choose|j: int| 0 <= j < q.len() && q[j] == t;
                    if j < i {
                        assert(r[j] == t);
                    } else {
                        assert(r[j - 1] == t);
                    }
                }
            }
            assert(r.no_duplicates()) by {
                assert forall|a: int, c: int| 0 <= a < r.len() && 0 <= c < r.len() && a
                    != c implies r[a] != r[c] by {
                    let a2 = if a < i {
                        a
                    } else {
                        a + 1
                    };
                    let c2 = if c < i {
                        c
                    } else {
                        c + 1
                    };
                    assert(r[a] == q[a2] && r[c] == q[c2]);
                }
            }
            lemma_list_sum(f, s, r, b, n - 1);
        } else {
            assert forall|t: int| q.contains(t) <==> 0 <= t < n - 1 && attacks(f, t, s) by {}
            lemma_list_sum(f, s, q, b, n - 1);
        }
    }
}

/// What every piece on a file gains, by the column of the file.
pub open spec fn centrality(c: int) -> int {
    if c == 1 || c == 8 {
        -100
    } else if c == 2 || c == 7 {
        0
    } else if c == 3 || c == 6 {
        200
    } else {
        300
    }
}

/// What a field counts for White by the piece on it alone.
pub open spec fn material(x: Field) -> int {
    match x {
        Field::WhitePiece(p) => piece_value(p),
        Field::BlackPiece(p) => -piece_value(p),
        _ => 0,
    }
}

/// What a piece counts by where it stands: the award of its file, and on the a-file
/// and the h-file a penalty for its side.
pub open spec fn placement(x: Field, c: int) -> int {
    match x.piece() {
        Some(p) => centrality(c) + (if c == 1 || c == 8 {
            signed(x, border(p))
        } else {
            0
        }),
        None => 0,
    }
}

/// What the playable square `s` counts for White: the piece on it, where it stands,
/// and the attacks on the square.
pub open spec fn square_score(f: Seq<Field>, s: int) -> int {
    material(f[s]) + placement(f[s], col(s)) + threat_sum(f, s, bounty(f[s]), 120)
}

/// The evaluation of the squares with an index below `n`, for White.
pub open spec fn score_below(f: Seq<Field>, n: int) -> int
    decreases n,
{
    if n <= 0 {
        0
    } else {
        score_below(f, n - 1) + (if playable(n - 1) {
            square_score(f, n - 1)
        } else {
            0
        })
    }
}

/// The static evaluation of a position, for White.
pub open spec fn white_score(f: Seq<Field>) -> int {
    score_below(f, 120)
}

/// What stands on a field is worth, kings and empty squares nothing.
pub open spec fn worth(x: Field) -> int {
    match x.piece() {
        Some(p) => piece_value(p),
        None => 0,
    }
}

/// By how much a move is tried before others: a capture by what it wins less a
/// quarter of what it risks, castling by a fixed bonus, a promotion by the new
/// piece and what it captures, a capture in passing by a pawn.
pub open spec fn move_score(f: Seq<Field>, m: Move) -> int {
    match m.move_type {
        MoveType::Capture => worth(fld(f, m.end.index())) - worth(fld(f, m.start.index())) / 4,
        MoveType::Castle(_) => 900,
        MoveType::Promote(p, t) => piece_value(p) + (match t {
            PromotionType::Regular => 0,
            PromotionType::Capture => worth(fld(f, m.end.index())),
        }),
        MoveType::EnPassant(_) => 1000,
        _ => 0,
    }
}

fn worth_of(x: Field) -> (v: i32)
    ensures
        v == worth(x),
        0 <= v <= 9500,
{
    match x {
        Field::BlackPiece(p) | Field::WhitePiece(p) => Score::value_from_piece(p),
        _ => 0,
    }
}

/// By how much a move is tried before others.
pub fn get_move_score(board: &Board, mv: &Move) -> (v: i32)
    ensures
        v == move_score(board.fields(), *mv),
{
    match mv.move_type {
        MoveType::Capture => worth_of(*board.get(mv.end)) - worth_of(*board.get(mv.start)) / 4,
        MoveType::Castle(_) => CASTLING_MOVE_SCORE,
        MoveType::Promote(p, t) => Score::value_from_piece(p) + match t {
            PromotionType::Regular => 0,
            PromotionType::Capture => worth_of(*board.get(mv.end)),
        },
        MoveType::EnPassant(_) => Score::value_from_piece(Piece::Pawn),
        _ => 0,
    }
}

/// The static evaluation of the position, for White.
pub fn get_white_board_score(board: &Board) -> (v: i32)
    requires
        board.wf(),
    ensures
        v == white_score(board.fields()),
        -1_560_000 <= v <= 1_560_000,
{
    let ghost f = board.fields();
    let mut total: i32 = 0;
    let mut n: i8 = 0;
    while n < 120
        invariant
            0 <= n <= 120,
            board.wf(),
            f == board.fields(),
            total == score_below(f, n as int),
            -13000 * n <= total <= 13000 * n,
        decreases 120 - n,
    {
        if let Some((coord, field)) = board.get_if_safe(UnsafeCoord::at(n)) {
            let mut s: i32 = match field {
                Field::WhitePiece(p) => Score::value_from_piece(p),
                Field::BlackPiece(p) => -Score::value_from_piece(p),
                _ => 0,
            };
            let b: i32 = Score::threat_bounty(field);
            let l = board.threat_mask.get(coord);
            let k: usize = l.len();
            let ghost q = ids(l@);
            proof {
                assert forall|i: int| 0 <= i < q.len() implies attacks(f, #[trigger] q[i], n as int) by {
                    assert(q.contains(q[i]));
                    assert(board.mask().has(n as int, q[i]));
                }
                lemma_attackers_bound(f, n as int, q);
                assert forall|t: int| q.contains(t) <==> 0 <= t < 120 && attacks(f, t, n as int) by {
                    assert(board.mask().has(n as int, t) == q.contains(t));
                }
                lemma_list_sum(f, n as int, q, b as int, 120);
                assert(q.subrange(0, 0) =~= Seq::<int>::empty());
            }
            let mut acc: i32 = 0;
            let mut j: usize = 0;
            while j < k
                invariant
                    j <= k <= 16,
                    k == l@.len(),
                    q == ids(l@),
                    f == board.fields(),
                    0 <= b <= 126,
                    acc == list_sum(f, q.subrange(0, j as int), b as int),
                    -126 * j <= acc <= 126 * j,
                decreases k - j,
            {
                let t = l.get(j);
                proof {
                    use_type_invariant(t);
                    assert(q.subrange(0, j + 1).drop_last() =~= q.subrange(0, j as int));
                    assert(q.subrange(0, j + 1).last() == t.index());
                }
                match *board.get(t) {
                    Field::WhitePiece(_) | Field::WhiteKing => {
                        acc = acc + b;
                    },
                    Field::BlackPiece(_) | Field::BlackKing => {
                        acc = acc - b;
                    },
                    _ => {},
                }
                j += 1;
            }
            proof {
                assert(q.subrange(0, k as int) =~= q);
            }
            s = s + acc;
            let x: i8 = n % 10;
            match field {
                Field::WhitePiece(p) => {
                    s = s + central_award(x);
                    if x == 1 || x == 8 {
                        s = s + Score::border_penalty(p);
                    }
                },
                Field::BlackPiece(p) => {
                    s = s + central_award(x);
                    if x == 1 || x == 8 {
                        s = s - Score::border_penalty(p);
                    }
                },
                _ => {},
            }
            total = total + s;
        }
        n += 1;
    }
    total
}

/// What every piece on a file gains, by the column of the file.
fn central_award(x: i8) -> (v: i32)
    requires
        1 <= x <= 8,
    ensures
        v == centrality(x as int),
{
    if x == 1 || x == 8 {
        -100
    } else if x == 2 || x == 7 {
        0
    } else if x == 3 || x == 6 {
        200
    } else {
        300
    }
}

} // verus!
