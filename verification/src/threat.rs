use crate::board::{playable, Board, Color, CommonCoord, Coord, Field, Piece, UnsafeCoord};
use crate::list::{position, swap_out, List};
use crate::rays::{
    approach, attacks, extends, fld, is_diagonal, is_step, lemma_attackers_bound,
    lemma_attacks_lift, lemma_attacks_place, lemma_attacks_replace, lemma_blocked,
    lemma_extends_ray, lemma_hits_from, lemma_hits_on_line, lemma_line_direction,
    lemma_slider_direction, lemma_step, ray_hits, room, shaped,
};
use vstd::prelude::*;
use vstd::seq_lib::lemma_no_dup_in_concat;

verus! {

/// The eight directions of a queen, seen from White.
#[derive(Debug, Clone, Copy, PartialEq, Eq, Structural)]
pub enum Direction {
    Up,
    Down,
    Left,
    Right,
    UpLeft,
    UpRight,
    DownLeft,
    DownRight,
}

impl Direction {
    /// The index difference of one step in this direction.
    pub open spec fn step(self) -> int {
        match self {
            Direction::Up => 10,
            Direction::Down => -10,
            Direction::Left => -1,
            Direction::Right => 1,
            Direction::UpLeft => 9,
            Direction::UpRight => 11,
            Direction::DownLeft => -11,
            Direction::DownRight => -9,
        }
    }

    /// The change of column and of row of one step in this direction.
    pub fn get_xy(&self) -> (r: (i8, i8))
        ensures
            -1 <= r.0 <= 1,
            -1 <= r.1 <= 1,
            r.0 + 10 * r.1 == self.step(),
    {
        match self {
            Self::Up => (0, 1),
            Self::Down => (0, -1),
            Self::Left => (-1, 0),
            Self::Right => (1, 0),
            Self::UpLeft => (-1, 1),
            Self::UpRight => (1, 1),
            Self::DownLeft => (-1, -1),
            Self::DownRight => (1, -1),
        }
    }

    /// Whether the direction runs along a diagonal.
    pub fn is_diagonal(&self) -> (b: bool)
        ensures
            b == is_diagonal(self.step()),
    {
        match self {
            Self::Up | Self::Down | Self::Left | Self::Right => false,
            Self::UpRight | Self::DownRight | Self::UpLeft | Self::DownLeft => true,
        }
    }
}

/// What is kept for one king: where it stands, whether it may still castle, which
/// pieces give it check, and which of its own pieces are pinned.
#[derive(Debug)]
pub struct King {
    pub coord: Coord,
    pub potential_check_map: [Option<(Coord, Direction)>; 120],
    pub castling_to_left: bool,
    pub castling_to_right: bool,
    pub aggressors: List<Coord, 16>,
}

/// The indices that a list of coordinates names, in order.
pub open spec fn ids(q: Seq<Coord>) -> Seq<int> {
    q.map_values(|c: Coord| c.index())
}

/// For every square of the padded board, the squares of the pieces that attack it.
#[derive(Debug)]
pub struct ThreatMask {
    threats: Vec<List<Coord, 16>>,
}

impl ThreatMask {
    /// The mask has one list for each of the 120 squares of the padded board.
    pub closed spec fn wf(&self) -> bool {
        self.threats@.len() == 120
    }

    /// The attackers recorded for the square with index `s`, in the order kept.
    pub closed spec fn at(&self, s: int) -> Seq<Coord> {
        self.threats@[s]@
    }

    /// Whether the square with index `t` is recorded as an attacker of the square `s`.
    pub open spec fn has(&self, s: int, t: int) -> bool {
        ids(self.at(s)).contains(t)
    }

    /// A mask that records no attacker.
    pub fn new() -> (m: Self)
        ensures
            m.wf(),
            forall|s: int| 0 <= s < 120 ==> #[trigger] m.at(s) == Seq::<Coord>::empty(),
    {
        let mut threats: Vec<List<Coord, 16>> = Vec::new();
        let mut i: usize = 0;
        while i < 120
            invariant
                i <= 120,
                threats@.len() == i,
                forall|s: int| 0 <= s < i ==> (#[trigger] threats@[s])@ == Seq::<Coord>::empty(),
            decreases 120 - i,
        {
            threats.push(List::new());
            i += 1;
        }
        Self { threats }
    }

    /// The attackers recorded for a square.
    pub fn get<C: CommonCoord>(&self, coord: C) -> (l: &List<Coord, 16>)
        requires
            self.wf(),
            0 <= coord.index() < 120,
        ensures
            l@ == self.at(coord.index()),
    {
        &self.threats[coord.raw() as usize]
    }

    /// Records `c` as one more attacker of the square with index `s`.
    pub(crate) fn push_at(&mut self, s: usize, c: Coord)
        requires
            old(self).wf(),
            s < 120,
            old(self).at(s as int).len() < 16,
        ensures
            final(self).wf(),
            final(self).at(s as int) == old(self).at(s as int).push(c),
            forall|j: int| 0 <= j < 120 && j != s ==> #[trigger] final(self).at(j) == old(self).at(j),
    {
        self.threats[s].append(c);
    }
}

/// The indices that a list of unchecked coordinates names, in order.
pub open spec fn uids(q: Seq<UnsafeCoord>) -> Seq<int> {
    q.map_values(|c: UnsafeCoord| c.index())
}

/// The squares that a slider on `a` attacks in direction `d`, nearest first: every
/// square up to the first that is not empty, that one included.
pub open spec fn ray_seq(f: Seq<Field>, a: int, d: int) -> Seq<int>
    decreases room(a, d),
{
    if is_step(d) && playable(a) && playable(a + d) {
        if fld(f, a + d) == Field::Empty {
            seq![a + d] + ray_seq(f, a + d, d)
        } else {
            seq![a + d]
        }
    } else {
        Seq::empty()
    }
}

/// The squares of a ray are those that the ray hits, each once, and there is room
/// for all of them on the line.
pub proof fn lemma_ray_seq(f: Seq<Field>, a: int, d: int)
    ensures
        forall|s: int| #[trigger] ray_seq(f, a, d).contains(s) <==> ray_hits(f, a, d, s),
        ray_seq(f, a, d).no_duplicates(),
        forall|k: int| 0 <= k < ray_seq(f, a, d).len() ==> playable(#[trigger] ray_seq(f, a, d)[k]),
        is_step(d) && playable(a) ==> ray_seq(f, a, d).len() <= room(a, d),
        !(is_step(d) && playable(a)) ==> ray_seq(f, a, d).len() == 0,
    decreases room(a, d),
{
    let q = ray_seq(f, a, d);
    if is_step(d) && playable(a) && playable(a + d) {
        lemma_step(a, d);
        let n = a + d;
        if fld(f, n) == Field::Empty {
            let r = ray_seq(f, n, d);
            lemma_ray_seq(f, n, d);
            let h = seq![n];
            assert(q == h + r);
            assert forall|i: int, j: int| 0 <= i < h.len() && 0 <= j < r.len() implies h[i]
                != r[j] by {
                assert(r.contains(r[j]));
                lemma_hits_on_line(f, n, d, r[j]);
            }
            lemma_no_dup_in_concat(h, r);
            assert forall|s: int| #[trigger] q.contains(s) <==> ray_hits(f, a, d, s) by {
                if q.contains(s) {
                    let i = choose|i: int| 0 <= i < q.len() && q[i] == s;
                    if i > 0 {
                        assert(r[i - 1] == s);
                        assert(r.contains(s));
                    }
                }
                if ray_hits(f, a, d, s) {
                    if s == n {
                        assert(q[0] == s);
                    } else {
                        assert(r.contains(s));
                        let j = choose|j: int| 0 <= j < r.len() && r[j] == s;
                        assert(q[j + 1] == s);
                    }
                }
            }
            assert forall|k: int| 0 <= k < q.len() implies playable(#[trigger] q[k]) by {
                if k > 0 {
                    assert(q[k] == r[k - 1]);
                }
            }
        } else {
            assert(q == seq![n]);
            assert forall|s: int| #[trigger] q.contains(s) <==> ray_hits(f, a, d, s) by {
                if ray_hits(f, a, d, s) {
                    assert(q[0] == s);
                }
            }
        }
    } else {
        if is_step(d) && playable(a) {
            lemma_step(a, d);
        }
    }
}

/// Two lists without repetition that share no item make one such list.
pub proof fn lemma_concat_distinct(a: Seq<int>, b: Seq<int>)
    requires
        a.no_duplicates(),
        b.no_duplicates(),
        forall|v: int| !(a.contains(v) && b.contains(v)),
    ensures
        (a + b).no_duplicates(),
        forall|v: int| #[trigger] (a + b).contains(v) <==> a.contains(v) || b.contains(v),
{
    assert forall|i: int, j: int| 0 <= i < a.len() && 0 <= j < b.len() implies a[i] != b[j] by {
        assert(a.contains(a[i]));
        assert(b.contains(b[j]));
    }
    lemma_no_dup_in_concat(a, b);
    assert forall|v: int| #[trigger] (a + b).contains(v) <==> a.contains(v) || b.contains(v) by {
        if (a + b).contains(v) {
            let i = choose|i: int| 0 <= i < (a + b).len() && (a + b)[i] == v;
            if i < a.len() {
                assert(a[i] == v);
            } else {
                assert(b[i - a.len()] == v);
            }
        }
        if a.contains(v) {
            let i = choose|i: int| 0 <= i < a.len() && a[i] == v;
            assert((a + b)[i] == v);
        }
        if b.contains(v) {
            let i = choose|i: int| 0 <= i < b.len() && b[i] == v;
            assert((a + b)[i + a.len()] == v);
        }
    }
}

/// The squares a king on `x` attacks, sentinels among them.
pub open spec fn king_targets(x: int) -> Seq<int> {
    seq![x + 11, x - 11, x - 9, x + 9, x + 1, x - 1, x - 10, x + 10]
}

/// The squares a knight on `x` attacks, sentinels among them.
pub open spec fn knight_targets(x: int) -> Seq<int> {
    seq![x + 12, x - 8, x + 21, x - 19, x + 8, x - 12, x + 19, x - 21]
}

/// The two squares a pawn of `color` on `x` attacks, sentinels among them.
pub open spec fn pawn_targets(x: int, color: Color) -> Seq<int> {
    match color {
        Color::White => seq![x + 9, x + 11],
        Color::Black => seq![x - 11, x - 9],
    }
}

/// The squares a rook on `x` attacks.
pub open spec fn rook_targets(f: Seq<Field>, x: int) -> Seq<int> {
    ray_seq(f, x, 1) + ray_seq(f, x, -1) + ray_seq(f, x, -10) + ray_seq(f, x, 10)
}

/// The squares a bishop on `x` attacks.
pub open spec fn bishop_targets(f: Seq<Field>, x: int) -> Seq<int> {
    ray_seq(f, x, 11) + ray_seq(f, x, -11) + ray_seq(f, x, -9) + ray_seq(f, x, 9)
}

/// The squares that a piece of kind `p` and side `color` on `x` attacks.
pub open spec fn piece_targets(f: Seq<Field>, x: int, p: Piece, color: Color) -> Seq<int> {
    match p {
        Piece::Pawn => pawn_targets(x, color),
        Piece::Knight => knight_targets(x),
        Piece::Bishop => bishop_targets(f, x),
        Piece::Rook => rook_targets(f, x),
        Piece::Queen => rook_targets(f, x) + bishop_targets(f, x),
    }
}

/// The squares that what stands on `x` attacks, in the order in which they are listed.
pub open spec fn causing(f: Seq<Field>, x: int) -> Seq<int> {
    match fld(f, x) {
        Field::BlackPiece(p) => piece_targets(f, x, p, Color::Black),
        Field::WhitePiece(p) => piece_targets(f, x, p, Color::White),
        Field::BlackKing | Field::WhiteKing => king_targets(x),
        _ => Seq::empty(),
    }
}

/// The four rays of a rook share no square.
pub proof fn lemma_rook_targets(f: Seq<Field>, x: int)
    requires
        playable(x),
    ensures
        rook_targets(f, x).no_duplicates(),
        forall|s: int| #[trigger]
            rook_targets(f, x).contains(s) <==> ray_hits(f, x, 1, s) || ray_hits(f, x, -1, s)
                || ray_hits(f, x, -10, s) || ray_hits(f, x, 10, s),
        rook_targets(f, x).len() <= 14,
        forall|k: int|
            0 <= k < rook_targets(f, x).len() ==> playable(#[trigger] rook_targets(f, x)[k]),
{
    lemma_ray_seq(f, x, 1);
    lemma_ray_seq(f, x, -1);
    lemma_ray_seq(f, x, -10);
    lemma_ray_seq(f, x, 10);
    assert forall|d1: int, d2: int, s: int| ray_hits(f, x, d1, s) && ray_hits(f, x, d2, s) implies d1
        == d2 by {
        lemma_hits_on_line(f, x, d1, s);
        lemma_hits_on_line(f, x, d2, s);
        lemma_line_direction(x, d1, d2, s);
    }
    let a = ray_seq(f, x, 1);
    let b = a + ray_seq(f, x, -1);
    let c = b + ray_seq(f, x, -10);
    lemma_concat_distinct(a, ray_seq(f, x, -1));
    lemma_concat_distinct(b, ray_seq(f, x, -10));
    lemma_concat_distinct(c, ray_seq(f, x, 10));
    let q = rook_targets(f, x);
    assert forall|k: int| 0 <= k < q.len() implies playable(#[trigger] q[k]) by {
        assert(q.contains(q[k]));
        if ray_hits(f, x, 1, q[k]) {
            lemma_hits_on_line(f, x, 1, q[k]);
        } else if ray_hits(f, x, -1, q[k]) {
            lemma_hits_on_line(f, x, -1, q[k]);
        } else if ray_hits(f, x, -10, q[k]) {
            lemma_hits_on_line(f, x, -10, q[k]);
        } else {
            lemma_hits_on_line(f, x, 10, q[k]);
        }
    }
}

/// The four rays of a bishop share no square.
pub proof fn lemma_bishop_targets(f: Seq<Field>, x: int)
    requires
        playable(x),
    ensures
        bishop_targets(f, x).no_duplicates(),
        forall|s: int| #[trigger]
            bishop_targets(f, x).contains(s) <==> ray_hits(f, x, 11, s) || ray_hits(f, x, -11, s)
                || ray_hits(f, x, -9, s) || ray_hits(f, x, 9, s),
        bishop_targets(f, x).len() <= 13,
        forall|k: int|
            0 <= k < bishop_targets(f, x).len() ==> playable(#[trigger] bishop_targets(f, x)[k]),
{
    lemma_ray_seq(f, x, 11);
    lemma_ray_seq(f, x, -11);
    lemma_ray_seq(f, x, -9);
    lemma_ray_seq(f, x, 9);
    assert forall|d1: int, d2: int, s: int| ray_hits(f, x, d1, s) && ray_hits(f, x, d2, s) implies d1
        == d2 by {
        lemma_hits_on_line(f, x, d1, s);
        lemma_hits_on_line(f, x, d2, s);
        lemma_line_direction(x, d1, d2, s);
    }
    let a = ray_seq(f, x, 11);
    let b = a + ray_seq(f, x, -11);
    let c = b + ray_seq(f, x, -9);
    lemma_concat_distinct(a, ray_seq(f, x, -11));
    lemma_concat_distinct(b, ray_seq(f, x, -9));
    lemma_concat_distinct(c, ray_seq(f, x, 9));
    let q = bishop_targets(f, x);
    assert forall|k: int| 0 <= k < q.len() implies playable(#[trigger] q[k]) by {
        assert(q.contains(q[k]));
        if ray_hits(f, x, 11, q[k]) {
            lemma_hits_on_line(f, x, 11, q[k]);
        } else if ray_hits(f, x, -11, q[k]) {
            lemma_hits_on_line(f, x, -11, q[k]);
        } else if ray_hits(f, x, -9, q[k]) {
            lemma_hits_on_line(f, x, -9, q[k]);
        } else {
            lemma_hits_on_line(f, x, 9, q[k]);
        }
    }
}

/// What is listed for a piece is what it attacks: each playable square it attacks
/// once, nothing else that is playable, never more than 27 squares, all on the
/// padded board.
pub proof fn lemma_causing(f: Seq<Field>, x: int)
    requires
        playable(x),
    ensures
        causing(f, x).no_duplicates(),
        forall|s: int| playable(s) ==> (#[trigger] causing(f, x).contains(s) <==> attacks(f, x, s)),
        causing(f, x).len() <= 27,
        forall|k: int| 0 <= k < causing(f, x).len() ==> 0 <= #[trigger] causing(f, x)[k] < 120,
{
    let q = causing(f, x);
    lemma_rook_targets(f, x);
    lemma_bishop_targets(f, x);
    assert forall|d1: int, d2: int, s: int| ray_hits(f, x, d1, s) && ray_hits(f, x, d2, s) implies d1
        == d2 by {
        lemma_hits_on_line(f, x, d1, s);
        lemma_hits_on_line(f, x, d2, s);
        lemma_line_direction(x, d1, d2, s);
    }
    match fld(f, x) {
        Field::BlackPiece(p) | Field::WhitePiece(p) => {
            match p {
                Piece::Queen => {
                    lemma_concat_distinct(rook_targets(f, x), bishop_targets(f, x));
                    assert forall|k: int| 0 <= k < q.len() implies 0 <= #[trigger] q[k] < 120 by {
                        if k < rook_targets(f, x).len() {
                            assert(q[k] == rook_targets(f, x)[k]);
                        } else {
                            assert(q[k] == bishop_targets(f, x)[k - rook_targets(f, x).len()]);
                        }
                    }
                },
                Piece::Knight => {
                    assert forall|s: int| playable(s) implies (#[trigger] q.contains(s) <==> attacks(
                        f,
                        x,
                        s,
                    )) by {
                        if attacks(f, x, s) {
                            let e = s - x;
                            let k: int = if e == 12 {
                                0
                            } else if e == -8 {
                                1
                            } else if e == 21 {
                                2
                            } else if e == -19 {
                                3
                            } else if e == 8 {
                                4
                            } else if e == -12 {
                                5
                            } else if e == 19 {
                                6
                            } else {
                                7
                            };
                            assert(q[k] == s);
                        }
                    }
                },
                Piece::Pawn => {
                    assert forall|s: int| playable(s) implies (#[trigger] q.contains(s) <==> attacks(
                        f,
                        x,
                        s,
                    )) by {
                        if attacks(f, x, s) {
                            let e = s - x;
                            let k: int = if e == 9 || e == -11 {
                                0
                            } else {
                                1
                            };
                            assert(q[k] == s);
                        }
                    }
                },
                _ => {},
            }
        },
        Field::BlackKing | Field::WhiteKing => {
            assert forall|s: int| playable(s) implies (#[trigger] q.contains(s) <==> attacks(
                f,
                x,
                s,
            )) by {
                if attacks(f, x, s) {
                    let e = s - x;
                    let k: int = if e == 11 {
                        0
                    } else if e == -11 {
                        1
                    } else if e == -9 {
                        2
                    } else if e == 9 {
                        3
                    } else if e == 1 {
                        4
                    } else if e == -1 {
                        5
                    } else if e == -10 {
                        6
                    } else {
                        7
                    };
                    assert(q[k] == s);
                }
            }
        },
        _ => {},
    }
}

/// Adding a coordinate to a list adds its index to the indices.
pub proof fn lemma_ids_push(q: Seq<Coord>, c: Coord)
    ensures
        ids(q.push(c)) == ids(q).push(c.index()),
        forall|t: int| #[trigger] ids(q.push(c)).contains(t) <==> ids(q).contains(t) || t == c.index(),
        ids(q).no_duplicates() && !ids(q).contains(c.index()) ==> ids(q.push(c)).no_duplicates(),
{
    let a = ids(q);
    let b = ids(q.push(c));
    assert(b =~= a.push(c.index()));
    assert forall|t: int| #[trigger] b.contains(t) <==> a.contains(t) || t == c.index() by {
        if b.contains(t) {
            let i = choose|i: int| 0 <= i < b.len() && b[i] == t;
            if i < a.len() {
                assert(a[i] == t);
            }
        }
        if a.contains(t) {
            let i = choose|i: int| 0 <= i < a.len() && a[i] == t;
            assert(b[i] == t);
        }
        if t == c.index() {
            assert(b[a.len() as int] == t);
        }
    }
    if a.no_duplicates() && !a.contains(c.index()) {
        assert forall|i: int, j: int| 0 <= i < b.len() && 0 <= j < b.len() && i != j implies b[i]
            != b[j] by {
            if i < a.len() {
                assert(a.contains(a[i]));
            }
            if j < a.len() {
                assert(a.contains(a[j]));
            }
        }
    }
}

/// Removing a coordinate from a list without repetition removes its index from the
/// indices and nothing else.
pub proof fn lemma_ids_swap_out(q: Seq<Coord>, c: Coord)
    requires
        ids(q).no_duplicates(),
    ensures
        ids(swap_out(q, position(q, c))).no_duplicates(),
        forall|t: int| #[trigger]
            ids(swap_out(q, position(q, c))).contains(t) <==> ids(q).contains(t) && t != c.index(),
{
    let p = position(q, c);
    let r = swap_out(q, p);
    let a = ids(q);
    let b = ids(r);
    crate::list::lemma_position_is_first(q, c);
    let n = q.len() as int;
    if p < n {
        assert forall|j: int| 0 <= j < n - 1 implies #[trigger] b[j] == (if j == p {
            a[n - 1]
        } else {
            a[j]
        }) by {}
        assert forall|i: int, j: int| 0 <= i < b.len() && 0 <= j < b.len() && i != j implies b[i]
            != b[j] by {
            let i2 = if i == p {
                n - 1
            } else {
                i
            };
            let j2 = if j == p {
                n - 1
            } else {
                j
            };
            assert(b[i] == a[i2] && b[j] == a[j2]);
        }
        assert forall|t: int| #[trigger] b.contains(t) <==> a.contains(t) && t != c.index() by {
            if b.contains(t) {
                let j = choose|j: int| 0 <= j < b.len() && b[j] == t;
                let j2 = if j == p {
                    n - 1
                } else {
                    j
                };
                assert(a[j2] == t);
                assert(a[p] == c.index());
            }
            if a.contains(t) && t != c.index() {
                let k = choose|k: int| 0 <= k < a.len() && a[k] == t;
                assert(k != p);
                if k < n - 1 {
                    assert(b[k] == t);
                } else {
                    assert(b[p] == t);
                }
            }
        }
    } else {
        assert forall|t: int| a.contains(t) implies t != c.index() by {
            let k = choose|k: int| 0 <= k < a.len() && a[k] == t;
            Coord::lemma_index_injective(q[k], c);
        }
    }
}

impl ThreatMask {
    /// Takes `c` out of the attackers recorded for the square with index `s`.
    pub(crate) fn remove_at(&mut self, s: usize, c: Coord)
        requires
            old(self).wf(),
            s < 120,
        ensures
            final(self).wf(),
            final(self).at(s as int) == swap_out(
                old(self).at(s as int),
                position(old(self).at(s as int), c),
            ),
            forall|j: int| 0 <= j < 120 && j != s ==> #[trigger] final(self).at(j) == old(self).at(j),
    {
        self.threats[s].swap_remove(&c);
    }
}

impl Board {
    fn get_causing_king_threats<const N: usize>(
        &self,
        list: &mut List<UnsafeCoord, N>,
        coord: Coord,
    )
        requires
            old(list)@.len() + 8 <= N,
        ensures
            uids(final(list)@) == uids(old(list)@) + king_targets(coord.index()),
    {
        list.append(coord.rel(1, 1));
        list.append(coord.rel(-1, -1));
        list.append(coord.rel(1, -1));
        list.append(coord.rel(-1, 1));
        list.append(coord.rel(1, 0));
        list.append(coord.rel(-1, 0));
        list.append(coord.rel(0, -1));
        list.append(coord.rel(0, 1));
        assert(uids(list@) =~= uids(old(list)@) + king_targets(coord.index()));
    }

    fn get_causing_pawn_threats<const N: usize>(
        &self,
        list: &mut List<UnsafeCoord, N>,
        coord: Coord,
        color: Color,
    )
        requires
            old(list)@.len() + 2 <= N,
        ensures
            uids(final(list)@) == uids(old(list)@) + pawn_targets(coord.index(), color),
    {
        let d: i8 = match color {
            Color::White => 1,
            Color::Black => -1,
        };
        list.append(coord.rel(-1, d));
        list.append(coord.rel(1, d));
        assert(uids(list@) =~= uids(old(list)@) + pawn_targets(coord.index(), color));
    }

    fn get_causing_knight_threats<const N: usize>(
        &self,
        list: &mut List<UnsafeCoord, N>,
        coord: Coord,
    )
        requires
            old(list)@.len() + 8 <= N,
        ensures
            uids(final(list)@) == uids(old(list)@) + knight_targets(coord.index()),
    {
        list.append(coord.rel(2, 1));
        list.append(coord.rel(2, -1));
        list.append(coord.rel(1, 2));
        list.append(coord.rel(1, -2));
        list.append(coord.rel(-2, 1));
        list.append(coord.rel(-2, -1));
        list.append(coord.rel(-1, 2));
        list.append(coord.rel(-1, -2));
        assert(uids(list@) =~= uids(old(list)@) + knight_targets(coord.index()));
    }

    fn get_causing_directional_threats<const N: usize>(
        &self,
        list: &mut List<UnsafeCoord, N>,
        coord: Coord,
        dx: i8,
        dy: i8,
    )
        requires
            shaped(self.fields()),
            -1 <= dx <= 1,
            -1 <= dy <= 1,
            is_step(dx + 10 * dy),
            old(list)@.len() + room(coord.index(), dx + 10 * dy) <= N,
        ensures
            uids(final(list)@) == uids(old(list)@) + ray_seq(
                self.fields(),
                coord.index(),
                dx + 10 * dy,
            ),
            final(list)@.len() == old(list)@.len() + ray_seq(
                self.fields(),
                coord.index(),
                dx + 10 * dy,
            ).len(),
    {
        let ghost f = self.fields();
        let ghost d = dx + 10 * dy;
        let ghost total = uids(list@) + ray_seq(f, coord.index(), d);
        let mut i = coord;
        let mut go = true;
        proof {
            use_type_invariant(coord);
        }
        while go
            invariant
                shaped(self.fields()),
                f == self.fields(),
                d == dx + 10 * dy,
                -1 <= dx <= 1,
                -1 <= dy <= 1,
                is_step(d),
                playable(i.index()),
                go ==> list@.len() + room(i.index(), d) <= N,
                go ==> uids(list@) + ray_seq(f, i.index(), d) == total,
                !go ==> uids(list@) == total,
                uids(list@).len() == list@.len(),
                total.len() == old(list)@.len() + ray_seq(f, coord.index(), d).len(),
            decreases
                    (if go {
                        room(i.index(), d) + 1
                    } else {
                        0
                    }),
        {
            let next = i.rel(dx, dy);
            proof {
                lemma_step(i.index(), d);
            }
            match self.get_if_safe(next) {
                Some((c, field)) => {
                    let ghost before = uids(list@);
                    list.append(next);
                    assert(uids(list@) =~= before.push(next.index()));
                    if field == Field::Empty {
                        assert(uids(list@) + ray_seq(f, c.index(), d) =~= before + ray_seq(
                            f,
                            i.index(),
                            d,
                        ));
                        i = c;
                    } else {
                        assert(uids(list@) =~= before + ray_seq(f, i.index(), d));
                        go = false;
                    }
                },
                None => {
                    assert(uids(list@) =~= uids(list@) + ray_seq(f, i.index(), d));
                    go = false;
                },
            }
        }
    }

    fn get_causing_bishop_threats<const N: usize>(
        &self,
        list: &mut List<UnsafeCoord, N>,
        coord: Coord,
    )
        requires
            shaped(self.fields()),
            old(list)@.len() + 13 <= N,
        ensures
            uids(final(list)@) == uids(old(list)@) + bishop_targets(self.fields(), coord.index()),
            final(list)@.len() == old(list)@.len() + bishop_targets(
                self.fields(),
                coord.index(),
            ).len(),
    {
        proof {
            use_type_invariant(coord);
            let f = self.fields();
            let x = coord.index();
            lemma_ray_seq(f, x, 11);
            lemma_ray_seq(f, x, -11);
            lemma_ray_seq(f, x, -9);
            lemma_ray_seq(f, x, 9);
        }
        self.get_causing_directional_threats(list, coord, 1, 1);
        self.get_causing_directional_threats(list, coord, -1, -1);
        self.get_causing_directional_threats(list, coord, 1, -1);
        self.get_causing_directional_threats(list, coord, -1, 1);
        assert(uids(list@) =~= uids(old(list)@) + bishop_targets(self.fields(), coord.index()));
    }

    fn get_causing_rook_threats<const N: usize>(
        &self,
        list: &mut List<UnsafeCoord, N>,
        coord: Coord,
    )
        requires
            shaped(self.fields()),
            old(list)@.len() + 14 <= N,
        ensures
            uids(final(list)@) == uids(old(list)@) + rook_targets(self.fields(), coord.index()),
            final(list)@.len() == old(list)@.len() + rook_targets(
                self.fields(),
                coord.index(),
            ).len(),
    {
        proof {
            use_type_invariant(coord);
            let f = self.fields();
            let x = coord.index();
            lemma_ray_seq(f, x, 1);
            lemma_ray_seq(f, x, -1);
            lemma_ray_seq(f, x, -10);
            lemma_ray_seq(f, x, 10);
        }
        self.get_causing_directional_threats(list, coord, 1, 0);
        self.get_causing_directional_threats(list, coord, -1, 0);
        self.get_causing_directional_threats(list, coord, 0, -1);
        self.get_causing_directional_threats(list, coord, 0, 1);
        assert(uids(list@) =~= uids(old(list)@) + rook_targets(self.fields(), coord.index()));
    }

    fn get_causing_queen_threats<const N: usize>(
        &self,
        list: &mut List<UnsafeCoord, N>,
        coord: Coord,
    )
        requires
            shaped(self.fields()),
            old(list)@.len() + 27 <= N,
        ensures
            uids(final(list)@) == uids(old(list)@) + (rook_targets(self.fields(), coord.index())
                + bishop_targets(self.fields(), coord.index())),
    {
        proof {
            use_type_invariant(coord);
            lemma_rook_targets(self.fields(), coord.index());
        }
        self.get_causing_rook_threats(list, coord);
        self.get_causing_bishop_threats(list, coord);
        assert(uids(list@) =~= uids(old(list)@) + (rook_targets(self.fields(), coord.index())
            + bishop_targets(self.fields(), coord.index())));
    }

    fn get_causing_piece_threats<const N: usize>(
        &self,
        list: &mut List<UnsafeCoord, N>,
        coord: Coord,
        piece: Piece,
        color: Color,
    )
        requires
            shaped(self.fields()),
            old(list)@.len() + 27 <= N,
        ensures
            uids(final(list)@) == uids(old(list)@) + piece_targets(
                self.fields(),
                coord.index(),
                piece,
                color,
            ),
    {
        match piece {
            Piece::Pawn => self.get_causing_pawn_threats(list, coord, color),
            Piece::Knight => self.get_causing_knight_threats(list, coord),
            Piece::Bishop => self.get_causing_bishop_threats(list, coord),
            Piece::Rook => self.get_causing_rook_threats(list, coord),
            Piece::Queen => self.get_causing_queen_threats(list, coord),
        }
    }

    /// The squares that what stands on `coord` attacks: for a slider every square of
    /// each ray up to the first that is not empty, for the others their steps and
    /// jumps, sentinels among them.
    pub fn get_causing_threats(&self, coord: Coord) -> (list: List<UnsafeCoord, 27>)
        requires
            shaped(self.fields()),
        ensures
            uids(list@) == causing(self.fields(), coord.index()),
    {
        let mut list: List<UnsafeCoord, 27> = List::new();
        assert(uids(list@) =~= Seq::<int>::empty());
        match *self.get(coord) {
            Field::BlackPiece(piece) => {
                self.get_causing_piece_threats(&mut list, coord, piece, Color::Black)
            },
            Field::WhitePiece(piece) => {
                self.get_causing_piece_threats(&mut list, coord, piece, Color::White)
            },
            Field::BlackKing | Field::WhiteKing => self.get_causing_king_threats(&mut list, coord),
            _ => (),
        }
        assert(uids(list@) =~= causing(self.fields(), coord.index()));
        list
    }
}

/// The mask records, for every square, exactly the attackers among `live`, each once.
pub open spec fn mask_matches(f: Seq<Field>, m: ThreatMask, live: Set<int>) -> bool {
    &&& m.wf()
    &&& forall|s: int| 0 <= s < 120 ==> #[trigger] ids(m.at(s)).no_duplicates()
    &&& forall|s: int, t: int|
        0 <= s < 120 ==> (#[trigger] m.has(s, t) <==> attacks(f, t, s) && live.contains(t))
}

/// What is recorded for a square attacks it, so it is no more than sixteen squares.
pub proof fn lemma_mask_room(f: Seq<Field>, q: Seq<Coord>, s: int, c: Coord)
    requires
        ids(q).no_duplicates(),
        !ids(q).contains(c.index()),
        attacks(f, c.index(), s),
        forall|t: int| ids(q).contains(t) ==> attacks(f, t, s),
    ensures
        q.len() < 16,
{
    lemma_ids_push(q, c);
    let r = ids(q.push(c));
    assert forall|i: int| 0 <= i < r.len() implies attacks(f, #[trigger] r[i], s) by {
        if i < q.len() {
            assert(ids(q)[i] == r[i]);
            assert(ids(q).contains(r[i]));
        }
    }
    lemma_attackers_bound(f, s, r);
}

/// The step, as changes of column and row, that leads from one square towards another.
pub(crate) fn direction_towards(from: Coord, to: Coord) -> (r: (i8, i8))
    ensures
        -1 <= r.0 <= 1,
        -1 <= r.1 <= 1,
        r.0 + 10 * r.1 == approach(from.index(), to.index()),
{
    let (fx, fy) = from.as_xy();
    let (tx, ty) = to.as_xy();
    let dx: i8 = if tx > fx {
        1
    } else if tx < fx {
        -1
    } else {
        0
    };
    let dy: i8 = if ty > fy {
        1
    } else if ty < fy {
        -1
    } else {
        0
    };
    (dx, dy)
}

impl Board {
    /// Records the piece on `coord` as an attacker of every square it attacks.
    fn update_threat_mask_add_piece(&mut self, coord: Coord, Ghost(live): Ghost<Set<int>>)
        requires
            shaped(old(self).fields()),
            mask_matches(old(self).fields(), old(self).mask(), live),
            !live.contains(coord.index()),
        ensures
            final(self).same_but_mask(old(self)),
            mask_matches(final(self).fields(), final(self).mask(), live.insert(coord.index())),
    {
        let ghost f = self.fields();
        let ghost x = coord.index();
        let l = self.get_causing_threats(coord);
        let n: usize = l.len();
        proof {
            use_type_invariant(coord);
            lemma_causing(f, x);
            assert(causing(f, x).subrange(0, 0) =~= Seq::<int>::empty());
        }
        let mut i: usize = 0;
        while i < n
            invariant
                self.same_but_mask(old(self)),
                f == self.fields(),
                shaped(f),
                x == coord.index(),
                playable(x),
                !live.contains(x),
                uids(l@) == causing(f, x),
                n == l@.len(),
                i <= n,
                causing(f, x).no_duplicates(),
                forall|s: int| playable(s) ==> (#[trigger] causing(f, x).contains(s) <==> attacks(f, x, s)),
                self.mask().wf(),
                forall|s: int| 0 <= s < 120 ==> #[trigger] ids(self.mask().at(s)).no_duplicates(),
                forall|s: int, t: int|
                    0 <= s < 120 ==> (#[trigger] self.mask().has(s, t) <==> (attacks(f, t, s)
                        && live.contains(t)) || (t == x && playable(s) && causing(f, x).subrange(
                        0,
                        i as int,
                    ).contains(s))),
            decreases n - i,
        {
            let y = l.get(i);
            let ghost yi = y.index();
            let ghost m0 = self.mask();
            let ghost done0 = causing(f, x).subrange(0, i as int);
            let ghost done1 = causing(f, x).subrange(0, i + 1);
            proof {
                assert(uids(l@)[i as int] == yi);
                assert(causing(f, x)[i as int] == yi);
                assert forall|s: int| #[trigger] done1.contains(s) <==> done0.contains(s) || s == yi by {
                    if done1.contains(s) {
                        let k = choose|k: int| 0 <= k < done1.len() && done1[k] == s;
                        if k < i {
                            assert(done0[k] == s);
                        }
                    }
                    if done0.contains(s) {
                        let k = choose|k: int| 0 <= k < done0.len() && done0[k] == s;
                        assert(done1[k] == s);
                    }
                    if s == yi {
                        assert(done1[i as int] == s);
                    }
                }
                assert(!done0.contains(yi)) by {
                    if done0.contains(yi) {
                        let k = choose|k: int| 0 <= k < done0.len() && done0[k] == yi;
                        assert(causing(f, x)[k] == causing(f, x)[i as int]);
                    }
                }
            }
            if let Some((t, _)) = self.get_if_safe(y) {
                proof {
                    assert(causing(f, x).contains(yi));
                    assert(m0.has(yi, x) == false);
                    assert forall|u: int| ids(m0.at(yi)).contains(u) implies attacks(f, u, yi) by {
                        assert(m0.has(yi, u));
                    }
                    lemma_mask_room(f, m0.at(yi), yi, coord);
                    lemma_ids_push(m0.at(yi), coord);
                }
                self.threat_mask.push_at(t.raw() as usize, coord);
                proof {
                    let m1 = self.mask();
                    assert forall|s: int| 0 <= s < 120 implies #[trigger] ids(
                        m1.at(s),
                    ).no_duplicates() by {
                        if s != yi {
                            assert(m1.at(s) == m0.at(s));
                        }
                    }
                    assert forall|s: int, u: int| 0 <= s < 120 implies (#[trigger] m1.has(s, u) <==> (
                    attacks(f, u, s) && live.contains(u)) || (u == x && playable(s)
                        && done1.contains(s))) by {
                        if s != yi {
                            assert(m1.at(s) == m0.at(s));
                            assert(m1.has(s, u) == m0.has(s, u));
                        } else {
                            assert(m1.has(s, u) <==> m0.has(s, u) || u == x);
                        }
                    }
                }
            }
            i += 1;
        }
        proof {
            assert(causing(f, x).subrange(0, n as int) =~= causing(f, x));
            let m1 = self.mask();
            let live1 = live.insert(x);
            assert forall|s: int, u: int| 0 <= s < 120 implies (#[trigger] m1.has(s, u) <==> attacks(
                f,
                u,
                s,
            ) && live1.contains(u)) by {}
        }
    }

    /// Takes the piece on `coord` out of the attackers of every square it attacks.
    fn remove_threat_mask_piece_at(&mut self, coord: Coord, Ghost(live): Ghost<Set<int>>)
        requires
            shaped(old(self).fields()),
            mask_matches(old(self).fields(), old(self).mask(), live),
        ensures
            final(self).same_but_mask(old(self)),
            mask_matches(final(self).fields(), final(self).mask(), live.remove(coord.index())),
    {
        let ghost f = self.fields();
        let ghost x = coord.index();
        let l = self.get_causing_threats(coord);
        let n: usize = l.len();
        proof {
            use_type_invariant(coord);
            lemma_causing(f, x);
            assert(causing(f, x).subrange(0, 0) =~= Seq::<int>::empty());
        }
        let mut i: usize = 0;
        while i < n
            invariant
                self.same_but_mask(old(self)),
                f == self.fields(),
                shaped(f),
                x == coord.index(),
                playable(x),
                uids(l@) == causing(f, x),
                n == l@.len(),
                i <= n,
                forall|s: int| playable(s) ==> (#[trigger] causing(f, x).contains(s) <==> attacks(f, x, s)),
                self.mask().wf(),
                forall|s: int| 0 <= s < 120 ==> #[trigger] ids(self.mask().at(s)).no_duplicates(),
                forall|s: int, t: int|
                    0 <= s < 120 ==> (#[trigger] self.mask().has(s, t) <==> attacks(f, t, s)
                        && live.contains(t) && !(t == x && causing(f, x).subrange(
                        0,
                        i as int,
                    ).contains(s))),
            decreases n - i,
        {
            let y = l.get(i);
            let ghost yi = y.index();
            let ghost m0 = self.mask();
            let ghost done0 = causing(f, x).subrange(0, i as int);
            let ghost done1 = causing(f, x).subrange(0, i + 1);
            proof {
                assert(uids(l@)[i as int] == yi);
                assert(causing(f, x)[i as int] == yi);
                assert forall|s: int| #[trigger] done1.contains(s) <==> done0.contains(s) || s == yi by {
                    if done1.contains(s) {
                        let k = choose|k: int| 0 <= k < done1.len() && done1[k] == s;
                        if k < i {
                            assert(done0[k] == s);
                        }
                    }
                    if done0.contains(s) {
                        let k = choose|k: int| 0 <= k < done0.len() && done0[k] == s;
                        assert(done1[k] == s);
                    }
                    if s == yi {
                        assert(done1[i as int] == s);
                    }
                }
            }
            if let Some((t, _)) = self.get_if_safe(y) {
                proof {
                    lemma_ids_swap_out(m0.at(yi), coord);
                }
                self.threat_mask.remove_at(t.raw() as usize, coord);
                proof {
                    let m1 = self.mask();
                    assert forall|s: int| 0 <= s < 120 implies #[trigger] ids(
                        m1.at(s),
                    ).no_duplicates() by {
                        if s != yi {
                            assert(m1.at(s) == m0.at(s));
                        }
                    }
                    assert forall|s: int, u: int| 0 <= s < 120 implies (#[trigger] m1.has(s, u) <==> attacks(
                        f,
                        u,
                        s,
                    ) && live.contains(u) && !(u == x && done1.contains(s))) by {
                        if s != yi {
                            assert(m1.at(s) == m0.at(s));
                            assert(m1.has(s, u) == m0.has(s, u));
                        } else {
                            assert(m1.has(s, u) <==> m0.has(s, u) && u != x);
                        }
                    }
                }
            } else {
                proof {
                    let m1 = self.mask();
                    assert forall|s: int, u: int| 0 <= s < 120 implies (#[trigger] m1.has(s, u) <==> attacks(
                        f,
                        u,
                        s,
                    ) && live.contains(u) && !(u == x && done1.contains(s))) by {}
                }
            }
            i += 1;
        }
        proof {
            assert(causing(f, x).subrange(0, n as int) =~= causing(f, x));
            let m1 = self.mask();
            let live1 = live.remove(x);
            assert forall|s: int, u: int| 0 <= s < 120 implies (#[trigger] m1.has(s, u) <==> attacks(
                f,
                u,
                s,
            ) && live1.contains(u)) by {}
        }
    }
}

impl Board {
    /// Records `t` as an attacker of every square on the ray from `x` in the given
    /// direction, up to the first square that is not empty, that one included.
    fn extend_ray(&mut self, x: Coord, t: Coord, dx: i8, dy: i8)
        requires
            shaped(old(self).fields()),
            old(self).mask().wf(),
            -1 <= dx <= 1,
            -1 <= dy <= 1,
            is_step(dx + 10 * dy),
            forall|s: int|
                ray_hits(old(self).fields(), x.index(), dx + 10 * dy, s) ==> old(self).mask().at(
                    s,
                ).len() < 16,
        ensures
            final(self).same_but_mask(old(self)),
            final(self).mask().wf(),
            forall|s: int|
                0 <= s < 120 ==> #[trigger] final(self).mask().at(s) == (if ray_hits(
                    old(self).fields(),
                    x.index(),
                    dx + 10 * dy,
                    s,
                ) {
                    old(self).mask().at(s).push(t)
                } else {
                    old(self).mask().at(s)
                }),
    {
        let ghost f = self.fields();
        let ghost d = dx + 10 * dy;
        let ghost m0 = self.mask();
        let ghost xi = x.index();
        let mut cur = x;
        let mut go = true;
        proof {
            use_type_invariant(x);
        }
        while go
            invariant
                self.same_but_mask(old(self)),
                f == self.fields(),
                shaped(f),
                m0 == old(self).mask(),
                xi == x.index(),
                d == dx + 10 * dy,
                -1 <= dx <= 1,
                -1 <= dy <= 1,
                is_step(d),
                playable(cur.index()),
                self.mask().wf(),
                forall|s: int| ray_hits(f, xi, d, s) ==> m0.at(s).len() < 16,
                go ==> forall|s: int| ray_hits(f, cur.index(), d, s) ==> ray_hits(f, xi, d, s),
                forall|s: int|
                    0 <= s < 120 ==> #[trigger] self.mask().at(s) == (if ray_hits(f, xi, d, s) && !(go
                        && ray_hits(f, cur.index(), d, s)) {
                        m0.at(s).push(t)
                    } else {
                        m0.at(s)
                    }),
            decreases
                    (if go {
                        room(cur.index(), d) + 1
                    } else {
                        0
                    }),
        {
            let next = cur.rel(dx, dy);
            let ghost ci = cur.index();
            let ghost ni = next.index();
            let ghost m1 = self.mask();
            proof {
                lemma_step(ci, d);
            }
            match self.get_if_safe(next) {
                Some((c, field)) => {
                    assert(ray_hits(f, ci, d, ni));
                    assert(ray_hits(f, xi, d, ni));
                    assert(m1.at(ni) == m0.at(ni));
                    assert(m0.at(ni).len() < 16);
                    self.threat_mask.push_at(c.raw() as usize, t);
                    proof {
                        assert forall|s: int| ray_hits(f, ni, d, s) implies s != ni by {
                            lemma_hits_on_line(f, ni, d, s);
                        }
                    }
                    if field == Field::Empty {
                        cur = c;
                    } else {
                        go = false;
                    }
                },
                None => {
                    go = false;
                },
            }
        }
    }

    /// Takes `t` out of the attackers of every square on the ray from `x` in the given
    /// direction, up to the first square that is not empty, that one included.
    fn cut_ray(&mut self, x: Coord, t: Coord, dx: i8, dy: i8)
        requires
            shaped(old(self).fields()),
            old(self).mask().wf(),
            -1 <= dx <= 1,
            -1 <= dy <= 1,
            is_step(dx + 10 * dy),
        ensures
            final(self).same_but_mask(old(self)),
            final(self).mask().wf(),
            forall|s: int|
                0 <= s < 120 ==> #[trigger] final(self).mask().at(s) == (if ray_hits(
                    old(self).fields(),
                    x.index(),
                    dx + 10 * dy,
                    s,
                ) {
                    swap_out(old(self).mask().at(s), position(old(self).mask().at(s), t))
                } else {
                    old(self).mask().at(s)
                }),
    {
        let ghost f = self.fields();
        let ghost d = dx + 10 * dy;
        let ghost m0 = self.mask();
        let ghost xi = x.index();
        let mut cur = x;
        let mut go = true;
        proof {
            use_type_invariant(x);
        }
        while go
            invariant
                self.same_but_mask(old(self)),
                f == self.fields(),
                shaped(f),
                m0 == old(self).mask(),
                xi == x.index(),
                d == dx + 10 * dy,
                -1 <= dx <= 1,
                -1 <= dy <= 1,
                is_step(d),
                playable(cur.index()),
                self.mask().wf(),
                go ==> forall|s: int| ray_hits(f, cur.index(), d, s) ==> ray_hits(f, xi, d, s),
                forall|s: int|
                    0 <= s < 120 ==> #[trigger] self.mask().at(s) == (if ray_hits(f, xi, d, s) && !(go
                        && ray_hits(f, cur.index(), d, s)) {
                        swap_out(m0.at(s), position(m0.at(s), t))
                    } else {
                        m0.at(s)
                    }),
            decreases
                    (if go {
                        room(cur.index(), d) + 1
                    } else {
                        0
                    }),
        {
            let next = cur.rel(dx, dy);
            let ghost ci = cur.index();
            let ghost ni = next.index();
            let ghost m1 = self.mask();
            proof {
                lemma_step(ci, d);
            }
            match self.get_if_safe(next) {
                Some((c, field)) => {
                    assert(ray_hits(f, ci, d, ni));
                    assert(m1.at(ni) == m0.at(ni));
                    self.threat_mask.remove_at(c.raw() as usize, t);
                    proof {
                        assert forall|s: int| ray_hits(f, ni, d, s) implies s != ni by {
                            lemma_hits_on_line(f, ni, d, s);
                        }
                    }
                    if field == Field::Empty {
                        cur = c;
                    } else {
                        go = false;
                    }
                },
                None => {
                    go = false;
                },
            }
        }
    }
}

/// Whether a field holds a queen, a rook or a bishop.
pub open spec fn is_slider(x: Field) -> bool {
    x.piece() == Some(Piece::Queen) || x.piece() == Some(Piece::Rook) || x.piece() == Some(
        Piece::Bishop,
    )
}

pub(crate) fn holds_slider(x: Field) -> (b: bool)
    ensures
        b == is_slider(x),
{
    match x {
        Field::WhitePiece(p) | Field::BlackPiece(p) => match p {
            Piece::Queen | Piece::Rook | Piece::Bishop => true,
            _ => false,
        },
        _ => false,
    }
}

/// Taking one more item of a list into account: the items before `i + 1` are those
/// before `i` and the item at `i`.
pub proof fn lemma_prefix_contains(q: Seq<int>, i: int)
    requires
        0 <= i < q.len(),
    ensures
        forall|v: int| #[trigger]
            q.subrange(0, i + 1).contains(v) <==> q.subrange(0, i).contains(v) || v == q[i],
        q.no_duplicates() ==> !q.subrange(0, i).contains(q[i]),
{
    let a = q.subrange(0, i);
    let b = q.subrange(0, i + 1);
    assert forall|v: int| #[trigger] b.contains(v) <==> a.contains(v) || v == q[i] by {
        if b.contains(v) {
            let k = choose|k: int| 0 <= k < b.len() && b[k] == v;
            if k < i {
                assert(a[k] == v);
            }
        }
        if a.contains(v) {
            let k = choose|k: int| 0 <= k < a.len() && a[k] == v;
            assert(b[k] == v);
        }
        if v == q[i] {
            assert(b[i] == v);
        }
    }
    if q.no_duplicates() && a.contains(q[i]) {
        let k = choose|k: int| 0 <= k < a.len() && a[k] == q[i];
        assert(q[k] == q[i]);
    }
}

impl Board {
    /// The piece on `coord` is about to leave: every slider that reached `coord` is
    /// recorded for the squares of its ray past `coord`.
    fn update_threat_mask_remove_barrier(&mut self, coord: Coord, Ghost(live): Ghost<Set<int>>)
        requires
            shaped(old(self).fields()),
            fld(old(self).fields(), coord.index()) != Field::Empty,
            mask_matches(old(self).fields(), old(self).mask(), live),
            !live.contains(coord.index()),
        ensures
            final(self).same_but_mask(old(self)),
            mask_matches(
                old(self).fields().update(coord.index(), Field::Empty),
                final(self).mask(),
                live,
            ),
    {
        let ghost f = self.fields();
        let ghost x = coord.index();
        let ghost g = f.update(x, Field::Empty);
        proof {
            use_type_invariant(coord);
        }
        let l: List<Coord, 16> = self.threat_mask.get(coord).clone();
        let ghost lq = ids(l@);
        let n: usize = l.len();
        let mut i: usize = 0;
        proof {
            assert(lq.subrange(0, 0) =~= Seq::<int>::empty());
            assert forall|t: int| lq.contains(t) <==> attacks(f, t, x) && live.contains(t) by {
                assert(self.mask().has(x, t) == lq.contains(t));
            }
        }
        while i < n
            invariant
                self.same_but_mask(old(self)),
                f == self.fields(),
                shaped(f),
                x == coord.index(),
                playable(x),
                fld(f, x) != Field::Empty,
                g == f.update(x, Field::Empty),
                !live.contains(x),
                lq == ids(l@),
                lq.no_duplicates(),
                forall|t: int| lq.contains(t) <==> attacks(f, t, x) && live.contains(t),
                n == l@.len(),
                i <= n,
                self.mask().wf(),
                forall|s: int| 0 <= s < 120 ==> #[trigger] ids(self.mask().at(s)).no_duplicates(),
                forall|s: int, t: int|
                    0 <= s < 120 ==> (#[trigger] self.mask().has(s, t) <==> (attacks(f, t, s)
                        && live.contains(t)) || (lq.subrange(0, i as int).contains(t) && extends(
                        f,
                        x,
                        t,
                        s,
                    ))),
            decreases n - i,
        {
            let t = l.get(i);
            let ghost ti = t.index();
            let ghost m0 = self.mask();
            proof {
                use_type_invariant(t);
                assert(lq[i as int] == ti);
                assert(lq.contains(ti));
                lemma_prefix_contains(lq, i as int);
            }
            if holds_slider(*self.get(t)) {
                let (dx, dy) = direction_towards(t, coord);
                let ghost d = dx + 10 * dy;
                proof {
                    lemma_slider_direction(f, ti, x);
                    assert forall|s: int| #[trigger] ray_hits(f, x, d, s) implies m0.at(s).len() < 16
                        && !m0.has(s, ti) by {
                        lemma_hits_on_line(f, x, d, s);
                        lemma_blocked(f, x, ti, d, s);
                        assert forall|u: int| ids(m0.at(s)).contains(u) implies attacks(g, u, s) by {
                            assert(m0.has(s, u));
                            if lq.subrange(0, i as int).contains(u) {
                                let k = choose|k: int|
                                    0 <= k < lq.subrange(0, i as int).len() && lq.subrange(
                                        0,
                                        i as int,
                                    )[k] == u;
                                assert(lq[k] == u);
                                assert(lq.contains(u));
                            }
                            lemma_attacks_lift(f, x, u, s);
                        }
                        lemma_extends_ray(f, x, ti, d, s);
                        lemma_attacks_lift(f, x, ti, s);
                        assert(!lq.subrange(0, i as int).contains(ti));
                        assert(!attacks(f, ti, s));
                        assert(!m0.has(s, ti));
                        lemma_mask_room(g, m0.at(s), s, t);
                    }
                }
                self.extend_ray(coord, t, dx, dy);
                proof {
                    let m1 = self.mask();
                    assert forall|s: int| 0 <= s < 120 implies #[trigger] ids(
                        m1.at(s),
                    ).no_duplicates() by {
                        if ray_hits(f, x, d, s) {
                            assert(!m0.has(s, ti));
                            lemma_ids_push(m0.at(s), t);
                        }
                    }
                    assert forall|s: int, u: int| 0 <= s < 120 implies (#[trigger] m1.has(s, u) <==> (
                    attacks(f, u, s) && live.contains(u)) || (lq.subrange(0, i + 1).contains(u)
                        && extends(f, x, u, s))) by {
                        lemma_extends_ray(f, x, ti, d, s);
                        if ray_hits(f, x, d, s) {
                            lemma_ids_push(m0.at(s), t);
                            assert(m1.has(s, u) <==> m0.has(s, u) || u == ti);
                        } else {
                            assert(m1.has(s, u) == m0.has(s, u));
                        }
                    }
                }
            } else {
                proof {
                    let m1 = self.mask();
                    assert forall|s: int, u: int| 0 <= s < 120 implies (#[trigger] m1.has(s, u) <==> (
                    attacks(f, u, s) && live.contains(u)) || (lq.subrange(0, i + 1).contains(u)
                        && extends(f, x, u, s))) by {
                        assert(!extends(f, x, ti, s));
                    }
                }
            }
            i += 1;
        }
        proof {
            assert(lq.subrange(0, n as int) =~= lq);
            let m1 = self.mask();
            assert forall|s: int, u: int| 0 <= s < 120 implies (#[trigger] m1.has(s, u) <==> attacks(
                g,
                u,
                s,
            ) && live.contains(u)) by {
                if u != x {
                    lemma_attacks_lift(f, x, u, s);
                    if extends(f, x, u, s) {
                        assert forall|d: int| ray_hits(f, x, d, s) implies playable(s) by {
                            lemma_hits_on_line(f, x, d, s);
                        }
                        assert(attacks(f, u, x));
                    }
                }
            }
        }
    }

    /// A piece has come to stand on `coord`: every slider that reached `coord` is
    /// taken out of the attackers of the squares of its ray past `coord`.
    fn update_threat_mask_add_barrier(&mut self, coord: Coord, Ghost(live): Ghost<Set<int>>)
        requires
            shaped(old(self).fields()),
            fld(old(self).fields(), coord.index()) != Field::Empty,
            mask_matches(
                old(self).fields().update(coord.index(), Field::Empty),
                old(self).mask(),
                live,
            ),
        ensures
            final(self).same_but_mask(old(self)),
            mask_matches(final(self).fields(), final(self).mask(), live.remove(coord.index())),
    {
        let ghost f = self.fields();
        let ghost x = coord.index();
        let ghost e = f.update(x, Field::Empty);
        let ghost v = f[x];
        proof {
            use_type_invariant(coord);
            assert(e.update(x, v) =~= f);
        }
        let l: List<Coord, 16> = self.threat_mask.get(coord).clone();
        let ghost lq = ids(l@);
        let n: usize = l.len();
        let mut i: usize = 0;
        proof {
            assert(lq.subrange(0, 0) =~= Seq::<int>::empty());
            assert forall|t: int| lq.contains(t) <==> attacks(e, t, x) && live.contains(t) by {
                assert(self.mask().has(x, t) == lq.contains(t));
            }
        }
        while i < n
            invariant
                self.same_but_mask(old(self)),
                f == self.fields(),
                shaped(f),
                x == coord.index(),
                playable(x),
                fld(f, x) != Field::Empty,
                v == f[x],
                e == f.update(x, Field::Empty),
                e.update(x, v) == f,
                lq == ids(l@),
                lq.no_duplicates(),
                forall|t: int| lq.contains(t) <==> attacks(e, t, x) && live.contains(t),
                n == l@.len(),
                i <= n,
                self.mask().wf(),
                forall|s: int| 0 <= s < 120 ==> #[trigger] ids(self.mask().at(s)).no_duplicates(),
                forall|s: int, t: int|
                    0 <= s < 120 ==> (#[trigger] self.mask().has(s, t) <==> attacks(e, t, s)
                        && live.contains(t) && !(lq.subrange(0, i as int).contains(t) && extends(
                        e,
                        x,
                        t,
                        s,
                    ))),
            decreases n - i,
        {
            let t = l.get(i);
            let ghost ti = t.index();
            let ghost m0 = self.mask();
            proof {
                use_type_invariant(t);
                assert(lq[i as int] == ti);
                assert(lq.contains(ti));
                assert(ti != x);
                assert(fld(f, ti) == fld(e, ti));
                lemma_prefix_contains(lq, i as int);
            }
            if holds_slider(*self.get(t)) {
                let (dx, dy) = direction_towards(t, coord);
                let ghost d = dx + 10 * dy;
                proof {
                    lemma_slider_direction(e, ti, x);
                }
                self.cut_ray(coord, t, dx, dy);
                proof {
                    let m1 = self.mask();
                    assert forall|s: int| ray_hits(f, x, d, s) == ray_hits(e, x, d, s) by {
                        lemma_hits_from(e, x, v, d, s);
                    }
                    assert forall|s: int| 0 <= s < 120 implies #[trigger] ids(
                        m1.at(s),
                    ).no_duplicates() by {
                        lemma_ids_swap_out(m0.at(s), t);
                    }
                    assert forall|s: int, u: int| 0 <= s < 120 implies (#[trigger] m1.has(s, u) <==> attacks(
                        e,
                        u,
                        s,
                    ) && live.contains(u) && !(lq.subrange(0, i + 1).contains(u) && extends(
                        e,
                        x,
                        u,
                        s,
                    ))) by {
                        lemma_extends_ray(e, x, ti, d, s);
                        lemma_ids_swap_out(m0.at(s), t);
                        if ray_hits(f, x, d, s) {
                            assert(m1.has(s, u) <==> m0.has(s, u) && u != ti);
                        } else {
                            assert(m1.has(s, u) == m0.has(s, u));
                        }
                    }
                }
            } else {
                proof {
                    let m1 = self.mask();
                    assert forall|s: int, u: int| 0 <= s < 120 implies (#[trigger] m1.has(s, u) <==> attacks(
                        e,
                        u,
                        s,
                    ) && live.contains(u) && !(lq.subrange(0, i + 1).contains(u) && extends(
                        e,
                        x,
                        u,
                        s,
                    ))) by {
                        assert(!extends(e, x, ti, s));
                    }
                }
            }
            i += 1;
        }
        proof {
            assert(lq.subrange(0, n as int) =~= lq);
            let m1 = self.mask();
            let live1 = live.remove(x);
            assert forall|s: int, u: int| 0 <= s < 120 implies (#[trigger] m1.has(s, u) <==> attacks(
                f,
                u,
                s,
            ) && live1.contains(u)) by {
                if u != x {
                    lemma_attacks_place(e, x, v, u, s);
                    if extends(e, x, u, s) {
                        assert(attacks(e, u, x));
                    }
                }
            }
        }
    }

    /// Takes what stands on the occupied square `coord` off the board, and returns it.
    pub(crate) fn lift(&mut self, coord: Coord) -> (taken: Field)
        requires
            shaped(old(self).fields()),
            mask_matches(old(self).fields(), old(self).mask(), Set::full()),
            old(self).fields()[coord.index()].occupied(),
        ensures
            taken == old(self).fields()[coord.index()],
            final(self).fields() == old(self).fields().update(coord.index(), Field::Empty),
            shaped(final(self).fields()),
            mask_matches(final(self).fields(), final(self).mask(), Set::full()),
            final(self).white_king == old(self).white_king,
            final(self).black_king == old(self).black_king,
            final(self).en_passant_chance == old(self).en_passant_chance,
    {
        let ghost f = self.fields();
        let ghost x = coord.index();
        let ghost live = Set::<int>::full().remove(x);
        proof {
            use_type_invariant(coord);
        }
        self.remove_threat_mask_piece_at(coord, Ghost(Set::full()));
        self.update_threat_mask_remove_barrier(coord, Ghost(live));
        let taken = self.data[coord.raw() as usize];
        self.data[coord.raw() as usize] = Field::Empty;
        proof {
            let g = self.fields();
            let m = self.mask();
            assert(g =~= f.update(x, Field::Empty));
            assert forall|s: int, u: int| 0 <= s < 120 implies (#[trigger] m.has(s, u) <==> attacks(
                g,
                u,
                s,
            ) && Set::<int>::full().contains(u)) by {
                assert(!attacks(g, x, s));
            }
        }
        taken
    }

    /// Puts the piece or king `v` on the empty square `coord`.
    pub(crate) fn place(&mut self, coord: Coord, v: Field)
        requires
            shaped(old(self).fields()),
            mask_matches(old(self).fields(), old(self).mask(), Set::full()),
            old(self).fields()[coord.index()] == Field::Empty,
            v.occupied(),
        ensures
            final(self).fields() == old(self).fields().update(coord.index(), v),
            shaped(final(self).fields()),
            mask_matches(final(self).fields(), final(self).mask(), Set::full()),
            final(self).white_king == old(self).white_king,
            final(self).black_king == old(self).black_king,
            final(self).en_passant_chance == old(self).en_passant_chance,
    {
        let ghost f = self.fields();
        let ghost x = coord.index();
        let ghost live = Set::<int>::full().remove(x);
        proof {
            use_type_invariant(coord);
        }
        self.data[coord.raw() as usize] = v;
        proof {
            assert(self.fields() =~= f.update(x, v));
            assert(self.fields().update(x, Field::Empty) =~= f);
        }
        self.update_threat_mask_add_barrier(coord, Ghost(Set::full()));
        self.update_threat_mask_add_piece(coord, Ghost(live));
        proof {
            assert(live.insert(x) =~= Set::<int>::full());
        }
    }

    /// Puts the piece or king `v` on the occupied square `coord`, and returns what
    /// stood there.
    pub(crate) fn replace(&mut self, coord: Coord, v: Field) -> (taken: Field)
        requires
            shaped(old(self).fields()),
            mask_matches(old(self).fields(), old(self).mask(), Set::full()),
            old(self).fields()[coord.index()].occupied(),
            v.occupied(),
        ensures
            taken == old(self).fields()[coord.index()],
            final(self).fields() == old(self).fields().update(coord.index(), v),
            shaped(final(self).fields()),
            mask_matches(final(self).fields(), final(self).mask(), Set::full()),
            final(self).white_king == old(self).white_king,
            final(self).black_king == old(self).black_king,
            final(self).en_passant_chance == old(self).en_passant_chance,
    {
        let ghost f = self.fields();
        let ghost x = coord.index();
        let ghost live = Set::<int>::full().remove(x);
        proof {
            use_type_invariant(coord);
        }
        self.remove_threat_mask_piece_at(coord, Ghost(Set::full()));
        let ghost m0 = self.mask();
        let taken = self.data[coord.raw() as usize];
        self.data[coord.raw() as usize] = v;
        proof {
            let g = self.fields();
            assert(g =~= f.update(x, v));
            assert forall|s: int, u: int| 0 <= s < 120 implies (#[trigger] m0.has(s, u) <==> attacks(
                g,
                u,
                s,
            ) && live.contains(u)) by {
                if u != x {
                    lemma_attacks_replace(f, x, v, u, s);
                }
            }
        }
        self.update_threat_mask_add_piece(coord, Ghost(live));
        proof {
            assert(live.insert(x) =~= Set::<int>::full());
        }
        taken
    }
}

impl Default for ThreatMask {
    fn default() -> (m: Self)
        ensures
            m.wf(),
            forall|s: int| 0 <= s < 120 ==> #[trigger] m.at(s) == Seq::<Coord>::empty(),
    {
        Self::new()
    }
}

impl Clone for ThreatMask {
    fn clone(&self) -> (r: Self)
        ensures
            r.wf() == self.wf(),
            self.wf() ==> forall|s: int| 0 <= s < 120 ==> #[trigger] r.at(s) == self.at(s),
    {
        let mut threats: Vec<List<Coord, 16>> = Vec::new();
        let n: usize = self.threats.len();
        let mut i: usize = 0;
        while i < n
            invariant
                i <= n,
                n == self.threats@.len(),
                threats@.len() == i,
                forall|s: int| 0 <= s < i ==> (#[trigger] threats@[s])@ == self.threats@[s]@,
            decreases n - i,
        {
            threats.push(self.threats[i].clone());
            i += 1;
        }
        Self { threats }
    }
}

/// Two masks that record the same attackers for every square match the same boards.
pub proof fn lemma_mask_same(f: Seq<Field>, a: ThreatMask, b: ThreatMask, live: Set<int>)
    requires
        mask_matches(f, a, live),
        b.wf(),
        forall|s: int| 0 <= s < 120 ==> #[trigger] b.at(s) == a.at(s),
    ensures
        mask_matches(f, b, live),
{
    assert forall|s: int, t: int| 0 <= s < 120 implies (#[trigger] b.has(s, t) <==> attacks(f, t, s)
        && live.contains(t)) by {
        assert(b.at(s) == a.at(s));
        assert(a.has(s, t) == b.has(s, t));
    }
    assert forall|s: int| 0 <= s < 120 implies #[trigger] ids(b.at(s)).no_duplicates() by {
        assert(b.at(s) == a.at(s));
    }
}

/// Two masks that match one board record the same attackers for every square.
pub proof fn lemma_mask_unique(f: Seq<Field>, a: ThreatMask, b: ThreatMask)
    requires
        mask_matches(f, a, Set::full()),
        mask_matches(f, b, Set::full()),
    ensures
        forall|s: int, t: int| 0 <= s < 120 ==> a.has(s, t) == b.has(s, t),
{
}

impl Board {
    /// Builds the threat mask anew from the field array: starting from an empty
    /// mask, every piece is recorded for the squares it attacks.
    pub fn rebuild_threat_mask(&mut self)
        requires
            shaped(old(self).fields()),
        ensures
            final(self).same_but_mask(old(self)),
            mask_matches(final(self).fields(), final(self).mask(), Set::full()),
    {
        self.threat_mask = ThreatMask::new();
        let ghost f = self.fields();
        proof {
            let m = self.mask();
            assert forall|s: int| 0 <= s < 120 implies #[trigger] ids(m.at(s)).no_duplicates() by {
                assert(ids(m.at(s)) =~= Seq::<int>::empty());
            }
            assert forall|s: int, t: int| 0 <= s < 120 implies (#[trigger] m.has(s, t) <==> attacks(
                f,
                t,
                s,
            ) && Set::new(|u: int| u < 21).contains(t)) by {
                assert(ids(m.at(s)) =~= Seq::<int>::empty());
            }
        }
        let mut y: i8 = 0;
        while y < 8
            invariant
                0 <= y <= 8,
                self.same_but_mask(old(self)),
                f == self.fields(),
                shaped(f),
                mask_matches(f, self.mask(), Set::new(|u: int| u < 21 + 10 * y)),
            decreases 8 - y,
        {
            let mut x: i8 = 0;
            while x < 8
                invariant
                    0 <= y < 8,
                    0 <= x <= 8,
                    self.same_but_mask(old(self)),
                    f == self.fields(),
                    shaped(f),
                    mask_matches(f, self.mask(), Set::new(|u: int| u < 21 + x + 10 * y)),
                decreases 8 - x,
            {
                let c = Coord::from_xy(x, y);
                let ghost live = Set::new(|u: int| u < 21 + x + 10 * y);
                self.update_threat_mask_add_piece(c, Ghost(live));
                proof {
                    assert(live.insert(c.index()) =~= Set::new(|u: int| u < 21 + (x + 1) + 10 * y));
                }
                x += 1;
            }
            proof {
                let m = self.mask();
                assert forall|s: int, t: int| 0 <= s < 120 implies (#[trigger] m.has(s, t) <==> attacks(
                    f,
                    t,
                    s,
                ) && Set::new(|u: int| u < 21 + 10 * (y + 1)).contains(t)) by {}
            }
            y += 1;
        }
        proof {
            let m = self.mask();
            assert forall|s: int, t: int| 0 <= s < 120 implies (#[trigger] m.has(s, t) <==> attacks(
                f,
                t,
                s,
            ) && Set::<int>::full().contains(t)) by {}
        }
    }
}

} // verus!
