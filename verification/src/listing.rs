use vstd::prelude::*;
use crate::types::Color;
use crate::types::PieceType;
use crate::bitboard::ascending;
use crate::bitboard::lemma_ascending;
use crate::geometry::Direction;
use crate::geometry::Reach;
use crate::geometry::reaches;
use crate::geometry::rank_of;
use crate::geometry::forward;
use crate::geometry::lemma_rays_apart;
use crate::position::Position;
use crate::position::last_rank;
use crate::position::promotable;
use crate::move_::Move;

verus! {

/// The moves from `from` to each square of `targets`, in ascending order of
/// destination; none of them promotes or castles.
pub open spec fn plain_list(from: u8, targets: Set<int>) -> Seq<Move> {
    Seq::new(
        ascending(targets, 64).len(),
        |i: int| Move::plain(from, ascending(targets, 64)[i]),
    )
}

/// The four pieces a pawn may promote to, in the order in which the
/// promotions of one pawn move are listed.
pub open spec fn promotion_choice(i: int) -> PieceType {
    if i == 0 {
        PieceType::Queen
    } else if i == 1 {
        PieceType::Rook
    } else if i == 2 {
        PieceType::Bishop
    } else {
        PieceType::Knight
    }
}

/// The promoting moves from `from` to each square of `targets`, in ascending
/// order of destination: four for each, to queen, rook, bishop and knight.
pub open spec fn promotion_list(from: u8, targets: Set<int>) -> Seq<Move> {
    Seq::new(
        4 * ascending(targets, 64).len(),
        |i: int|
            Move {
                from,
                to: ascending(targets, 64)[i / 4],
                promotion: Some(promotion_choice(i % 4)),
                is_castling: false,
            },
    )
}

/// The king move from `from` to `to` marked as castling, unless `to` is one
/// of the squares in `barred`.
pub open spec fn castling_entry(from: u8, to: u8, barred: Set<int>) -> Seq<Move> {
    if barred.contains(to as int) {
        Seq::empty()
    } else {
        seq![Move { from, to, promotion: None, is_castling: true }]
    }
}

/// The castling moves offered to a king on `from`: from a king's home square
/// the move two files to the left and the move two files to the right, each
/// unless its destination is in `barred`.
pub open spec fn castling_list(from: u8, barred: Set<int>) -> Seq<Move> {
    if from == 4 || from == 60 {
        castling_entry(from, (from - 2) as u8, barred) + castling_entry(
            from,
            (from + 2) as u8,
            barred,
        )
    } else {
        Seq::empty()
    }
}

impl Position {
    /// The squares on which side `c` has a piece.
    pub open spec fn side(self, c: Color) -> Set<int> {
        Set::new(|t: int| self.has_color(t, c))
    }

    /// The squares that a sliding piece of side `c` on `s` may move to in
    /// direction `d`.
    pub open spec fn slide_targets(self, c: Color, d: Direction, s: int) -> Set<int> {
        Set::new(|t: int| self.slides(d, s, t) && !self.has_color(t, c))
    }

    /// The squares in relation `kind` to `s` on which side `c` has no piece.
    pub open spec fn leap_targets(self, c: Color, kind: Reach, s: int) -> Set<int> {
        Set::new(|t: int| reaches(kind, s, t) && !self.has_color(t, c))
    }

    /// The squares that a pawn of side `c` on `s` may move to.
    pub open spec fn pawn_targets(self, c: Color, s: int) -> Set<int> {
        Set::new(|t: int| self.pawn_capture(c, s, t) || self.pawn_advance(c, s, t))
    }

    /// The moves of a rook of side `c` on `s`: north, south, east, west.
    pub open spec fn straight_list(self, c: Color, s: u8) -> Seq<Move> {
        plain_list(s, self.slide_targets(c, Direction::North, s as int)) + plain_list(
            s,
            self.slide_targets(c, Direction::South, s as int),
        ) + plain_list(s, self.slide_targets(c, Direction::East, s as int)) + plain_list(
            s,
            self.slide_targets(c, Direction::West, s as int),
        )
    }

    /// The moves of a bishop of side `c` on `s`: north-east, north-west,
    /// south-east, south-west.
    pub open spec fn diagonal_list(self, c: Color, s: u8) -> Seq<Move> {
        plain_list(s, self.slide_targets(c, Direction::NorthEast, s as int)) + plain_list(
            s,
            self.slide_targets(c, Direction::NorthWest, s as int),
        ) + plain_list(s, self.slide_targets(c, Direction::SouthEast, s as int)) + plain_list(
            s,
            self.slide_targets(c, Direction::SouthWest, s as int),
        )
    }

    /// The pseudo-legal moves of a piece of side `c` and kind `k` on `s`, in
    /// the order in which they are generated.
    pub open spec fn moves_from(self, c: Color, k: PieceType, s: u8) -> Seq<Move> {
        match k {
            PieceType::Pawn => if rank_of(s as int) + forward(c) == last_rank(c) {
                promotion_list(s, self.pawn_targets(c, s as int))
            } else {
                plain_list(s, self.pawn_targets(c, s as int))
            },
            PieceType::Knight => plain_list(s, self.leap_targets(c, Reach::Knight, s as int)),
            PieceType::Bishop => self.diagonal_list(c, s),
            PieceType::Rook => self.straight_list(c, s),
            PieceType::Queen => self.straight_list(c, s) + self.diagonal_list(c, s),
            PieceType::King => plain_list(s, self.leap_targets(c, Reach::King, s as int))
                + castling_list(s, self.side(c)),
        }
    }

    /// The pseudo-legal moves of the pieces of side `c` and kind `k` on the
    /// squares below `n`, in ascending order of origin.
    pub open spec fn moves_of_kind(self, c: Color, k: PieceType, n: nat) -> Seq<Move>
        decreases n,
    {
        if n == 0 {
            Seq::empty()
        } else {
            let rest = self.moves_of_kind(c, k, (n - 1) as nat);
            if self.has(n - 1, c, k) {
                rest + self.moves_from(c, k, (n - 1) as u8)
            } else {
                rest
            }
        }
    }

    /// The pseudo-legal moves of side `c`, in the order in which they are
    /// generated: those of the pawns, knights, bishops, rooks, queens and
    /// kings.
    pub open spec fn pseudo_legal_moves(self, c: Color) -> Seq<Move> {
        self.moves_of_kind(c, PieceType::Pawn, 64) + self.moves_of_kind(c, PieceType::Knight, 64)
            + self.moves_of_kind(c, PieceType::Bishop, 64) + self.moves_of_kind(
            c,
            PieceType::Rook,
            64,
        ) + self.moves_of_kind(c, PieceType::Queen, 64) + self.moves_of_kind(
            c,
            PieceType::King,
            64,
        )
    }

    /// Those of the first `n` moves of `candidates` that are legal for side
    /// `c`, in the same order.
    pub open spec fn kept(self, c: Color, candidates: Seq<Move>, n: nat) -> Seq<Move>
        decreases n,
    {
        if n == 0 {
            Seq::empty()
        } else {
            let rest = self.kept(c, candidates, (n - 1) as nat);
            if self.legal(c, candidates[n - 1]) {
                rest.push(candidates[n - 1])
            } else {
                rest
            }
        }
    }

    /// The legal moves of side `c`: the legal ones among the pseudo-legal
    /// moves, in the same order.
    pub open spec fn legal_moves(self, c: Color) -> Seq<Move> {
        self.kept(c, self.pseudo_legal_moves(c), self.pseudo_legal_moves(c).len())
    }
}

/// A move is in the concatenation of two lists exactly when it is in one of
/// them.
pub proof fn lemma_joined(a: Seq<Move>, b: Seq<Move>)
    ensures
        forall|m: Move| #[trigger] (a + b).contains(m) <==> (a.contains(m) || b.contains(m)),
{
    let ab = a + b;
    assert forall|m: Move| #[trigger] ab.contains(m) implies (a.contains(m) || b.contains(m)) by {
        let i = choose|i: int| 0 <= i < ab.len() && ab[i] == m;
        if i < a.len() {
            assert(a[i] == m);
        } else {
            assert(b[i - a.len()] == m);
        }
    }
    assert forall|m: Move| (a.contains(m) || b.contains(m)) implies #[trigger] ab.contains(m) by {
        if a.contains(m) {
            let i = choose|i: int| 0 <= i < a.len() && a[i] == m;
            assert(ab[i] == m);
        } else {
            let i = choose|i: int| 0 <= i < b.len() && b[i] == m;
            assert(ab[a.len() + i] == m);
        }
    }
}

/// Two lists without repetition and without a common move make one list
/// without repetition.
pub proof fn lemma_joined_distinct(a: Seq<Move>, b: Seq<Move>)
    requires
        a.no_duplicates(),
        b.no_duplicates(),
        forall|m: Move| !(a.contains(m) && #[trigger] b.contains(m)),
    ensures
        (a + b).no_duplicates(),
{
    let ab = a + b;
    assert forall|i: int, j: int| 0 <= i < ab.len() && 0 <= j < ab.len() && i != j implies ab[i]
        != ab[j] by {
        if i < a.len() && j < a.len() {
        } else if i >= a.len() && j >= a.len() {
            assert(b[i - a.len()] != b[j - a.len()]);
        } else if i < a.len() {
            assert(a.contains(a[i]));
            assert(b.contains(b[j - a.len()]));
        } else {
            assert(a.contains(a[j]));
            assert(b.contains(b[i - a.len()]));
        }
    }
}

/// What `plain_list` holds: each plain move from `from` to a square of the
/// board in `targets`, once.
pub proof fn lemma_plain_list(from: u8, targets: Set<int>)
    ensures
        plain_list(from, targets).no_duplicates(),
        forall|m: Move| #[trigger]
            plain_list(from, targets).contains(m) <==> (m == Move::plain(from, m.to) && m.to < 64
                && targets.contains(m.to as int)),
{
    let sq = ascending(targets, 64);
    let mv = plain_list(from, targets);
    lemma_ascending(targets, 64);
    assert forall|m: Move| #[trigger] mv.contains(m) implies (m == Move::plain(from, m.to) && m.to
        < 64 && targets.contains(m.to as int)) by {
        let i = choose|i: int| 0 <= i < mv.len() && mv[i] == m;
        assert(sq.contains(sq[i]));
    }
    assert forall|m: Move|
        (m == Move::plain(from, m.to) && m.to < 64 && targets.contains(m.to as int)) implies
        #[trigger] mv.contains(m) by {
        assert(sq.contains(m.to));
        let i = choose|i: int| 0 <= i < sq.len() && sq[i] == m.to;
        assert(mv[i] == m);
    }
    assert forall|i: int, j: int| 0 <= i < mv.len() && 0 <= j < mv.len() && i != j implies mv[i]
        != mv[j] by {
        assert(sq[i] != sq[j]);
    }
}

/// What `promotion_list` holds: each promoting move from `from` to a square
/// of the board in `targets`, once.
pub proof fn lemma_promotion_list(from: u8, targets: Set<int>)
    ensures
        promotion_list(from, targets).no_duplicates(),
        forall|m: Move| #[trigger]
            promotion_list(from, targets).contains(m) <==> (m.from == from && m.to < 64
                && targets.contains(m.to as int) && m.promotion is Some && promotable(
                m.promotion->0,
            ) && !m.is_castling),
{
    let sq = ascending(targets, 64);
    let mv = promotion_list(from, targets);
    lemma_ascending(targets, 64);
    assert forall|m: Move| #[trigger] mv.contains(m) implies (m.from == from && m.to < 64
        && targets.contains(m.to as int) && m.promotion is Some && promotable(m.promotion->0)
        && !m.is_castling) by {
        let i = choose|i: int| 0 <= i < mv.len() && mv[i] == m;
        assert(sq.contains(sq[i / 4]));
    }
    assert forall|m: Move|
        (m.from == from && m.to < 64 && targets.contains(m.to as int) && m.promotion is Some
            && promotable(m.promotion->0) && !m.is_castling) implies #[trigger] mv.contains(m) by {
        assert(sq.contains(m.to));
        let j = choose|j: int| 0 <= j < sq.len() && sq[j] == m.to;
        let c: int = if m.promotion->0 == PieceType::Queen {
            0
        } else if m.promotion->0 == PieceType::Rook {
            1
        } else if m.promotion->0 == PieceType::Bishop {
            2
        } else {
            3
        };
        let i = 4 * j + c;
        assert(i / 4 == j && i % 4 == c);
        assert(mv[i] == m);
    }
    assert forall|i: int, j: int| 0 <= i < mv.len() && 0 <= j < mv.len() && i != j implies mv[i]
        != mv[j] by {
        if i / 4 != j / 4 {
            assert(sq[i / 4] != sq[j / 4]);
        } else {
            assert(i % 4 != j % 4);
        }
    }
}

/// What `castling_list` holds: each king move from a king's home square two
/// files aside, marked as castling, unless its destination is barred.
pub proof fn lemma_castling_list(from: u8, barred: Set<int>)
    requires
        from < 64,
    ensures
        castling_list(from, barred).no_duplicates(),
        forall|m: Move| #[trigger]
            castling_list(from, barred).contains(m) <==> (m.from == from && (from == 4 || from
                == 60) && (m.to == from - 2 || m.to == from + 2) && !barred.contains(m.to as int)
                && m.promotion is None && m.is_castling),
{
    let all = castling_list(from, barred);
    if from == 4 || from == 60 {
        let a = castling_entry(from, (from - 2) as u8, barred);
        let b = castling_entry(from, (from + 2) as u8, barred);
        lemma_joined(a, b);
        assert forall|m: Move| #[trigger] a.contains(m) <==> (m.from == from && m.to == from - 2
            && !barred.contains(m.to as int) && m.promotion is None && m.is_castling) by {
            if a.contains(m) {
                assert(a[0] == m);
            }
            if a.len() > 0 {
                assert(a.contains(a[0]));
            }
        }
        assert forall|m: Move| #[trigger] b.contains(m) <==> (m.from == from && m.to == from + 2
            && !barred.contains(m.to as int) && m.promotion is None && m.is_castling) by {
            if b.contains(m) {
                assert(b[0] == m);
            }
            if b.len() > 0 {
                assert(b.contains(b[0]));
            }
        }
        lemma_joined_distinct(a, b);
    }
}

/// What the list of a rook's moves holds: each plain move along a rank or
/// file to a square the rook reaches and its own side does not occupy, once.
pub proof fn lemma_straight_list(p: Position, c: Color, s: u8)
    ensures
        p.straight_list(c, s).no_duplicates(),
        forall|m: Move| #[trigger]
            p.straight_list(c, s).contains(m) <==> (m == Move::plain(s, m.to) && p.rook_line(
                s as int,
                m.to as int,
            ) && !p.has_color(m.to as int, c)),
{
    let first = plain_list(s, p.slide_targets(c, Direction::North, s as int));
    let second = plain_list(s, p.slide_targets(c, Direction::South, s as int));
    let third = plain_list(s, p.slide_targets(c, Direction::East, s as int));
    let fourth = plain_list(s, p.slide_targets(c, Direction::West, s as int));
    lemma_plain_list(s, p.slide_targets(c, Direction::North, s as int));
    lemma_plain_list(s, p.slide_targets(c, Direction::South, s as int));
    lemma_plain_list(s, p.slide_targets(c, Direction::East, s as int));
    lemma_plain_list(s, p.slide_targets(c, Direction::West, s as int));
    lemma_joined(first, second);
    lemma_joined(first + second, third);
    lemma_joined(first + second + third, fourth);
    assert forall|m: Move| !(first.contains(m) && #[trigger] second.contains(m)) by {
        if first.contains(m) && second.contains(m) {
            lemma_rays_apart(Direction::North, Direction::South, s as int, m.to as int);
        }
    }
    lemma_joined_distinct(first, second);
    assert forall|m: Move| !((first + second).contains(m) && #[trigger] third.contains(m)) by {
        if (first + second).contains(m) && third.contains(m) {
            if first.contains(m) {
                lemma_rays_apart(Direction::North, Direction::East, s as int, m.to as int);
            } else {
                lemma_rays_apart(Direction::South, Direction::East, s as int, m.to as int);
            }
        }
    }
    lemma_joined_distinct(first + second, third);
    assert forall|m: Move| !((first + second + third).contains(m) && #[trigger] fourth.contains(m)) by {
        if (first + second + third).contains(m) && fourth.contains(m) {
            if first.contains(m) {
                lemma_rays_apart(Direction::North, Direction::West, s as int, m.to as int);
            } else if second.contains(m) {
                lemma_rays_apart(Direction::South, Direction::West, s as int, m.to as int);
            } else {
                lemma_rays_apart(Direction::East, Direction::West, s as int, m.to as int);
            }
        }
    }
    lemma_joined_distinct(first + second + third, fourth);
    assert forall|m: Move| #[trigger]
        p.straight_list(c, s).contains(m) <==> (m == Move::plain(s, m.to) && p.rook_line(
            s as int,
            m.to as int,
        ) && !p.has_color(m.to as int, c)) by {}
}

/// What the list of a bishop's moves holds: each plain move along a diagonal
/// to a square the bishop reaches and its own side does not occupy, once.
pub proof fn lemma_diagonal_list(p: Position, c: Color, s: u8)
    ensures
        p.diagonal_list(c, s).no_duplicates(),
        forall|m: Move| #[trigger]
            p.diagonal_list(c, s).contains(m) <==> (m == Move::plain(s, m.to) && p.bishop_line(
                s as int,
                m.to as int,
            ) && !p.has_color(m.to as int, c)),
{
    let first = plain_list(s, p.slide_targets(c, Direction::NorthEast, s as int));
    let second = plain_list(s, p.slide_targets(c, Direction::NorthWest, s as int));
    let third = plain_list(s, p.slide_targets(c, Direction::SouthEast, s as int));
    let fourth = plain_list(s, p.slide_targets(c, Direction::SouthWest, s as int));
    lemma_plain_list(s, p.slide_targets(c, Direction::NorthEast, s as int));
    lemma_plain_list(s, p.slide_targets(c, Direction::NorthWest, s as int));
    lemma_plain_list(s, p.slide_targets(c, Direction::SouthEast, s as int));
    lemma_plain_list(s, p.slide_targets(c, Direction::SouthWest, s as int));
    lemma_joined(first, second);
    lemma_joined(first + second, third);
    lemma_joined(first + second + third, fourth);
    assert forall|m: Move| !(first.contains(m) && #[trigger] second.contains(m)) by {
        if first.contains(m) && second.contains(m) {
            lemma_rays_apart(Direction::NorthEast, Direction::NorthWest, s as int, m.to as int);
        }
    }
    lemma_joined_distinct(first, second);
    assert forall|m: Move| !((first + second).contains(m) && #[trigger] third.contains(m)) by {
        if (first + second).contains(m) && third.contains(m) {
            if first.contains(m) {
                lemma_rays_apart(Direction::NorthEast, Direction::SouthEast, s as int, m.to as int);
            } else {
                lemma_rays_apart(Direction::NorthWest, Direction::SouthEast, s as int, m.to as int);
            }
        }
    }
    lemma_joined_distinct(first + second, third);
    assert forall|m: Move| !((first + second + third).contains(m) && #[trigger] fourth.contains(m)) by {
        if (first + second + third).contains(m) && fourth.contains(m) {
            if first.contains(m) {
                lemma_rays_apart(Direction::NorthEast, Direction::SouthWest, s as int, m.to as int);
            } else if second.contains(m) {
                lemma_rays_apart(Direction::NorthWest, Direction::SouthWest, s as int, m.to as int);
            } else {
                lemma_rays_apart(Direction::SouthEast, Direction::SouthWest, s as int, m.to as int);
            }
        }
    }
    lemma_joined_distinct(first + second + third, fourth);
    assert forall|m: Move| #[trigger]
        p.diagonal_list(c, s).contains(m) <==> (m == Move::plain(s, m.to) && p.bishop_line(
            s as int,
            m.to as int,
        ) && !p.has_color(m.to as int, c)) by {}
}

/// What `moves_from` holds: each pseudo-legal move of the piece on `s`, once.
pub proof fn lemma_moves_from(p: Position, c: Color, k: PieceType, s: u8)
    requires
        p.wf(),
        p.has(s as int, c, k),
    ensures
        p.moves_from(c, k, s).no_duplicates(),
        forall|m: Move| #[trigger]
            p.moves_from(c, k, s).contains(m) <==> (m.from == s && p.pseudo_legal(c, m)),
{
    let all = p.moves_from(c, k, s);
    match k {
        PieceType::Pawn => {
            lemma_plain_list(s, p.pawn_targets(c, s as int));
            lemma_promotion_list(s, p.pawn_targets(c, s as int));
        },
        PieceType::Knight => {
            lemma_plain_list(s, p.leap_targets(c, Reach::Knight, s as int));
        },
        PieceType::Bishop => {
            lemma_diagonal_list(p, c, s);
        },
        PieceType::Rook => {
            lemma_straight_list(p, c, s);
        },
        PieceType::Queen => {
            let a = p.straight_list(c, s);
            let b = p.diagonal_list(c, s);
            lemma_straight_list(p, c, s);
            lemma_diagonal_list(p, c, s);
            lemma_joined(a, b);
            assert forall|m: Move| !(a.contains(m) && #[trigger] b.contains(m)) by {}
            lemma_joined_distinct(a, b);
        },
        PieceType::King => {
            let a = plain_list(s, p.leap_targets(c, Reach::King, s as int));
            let b = castling_list(s, p.side(c));
            lemma_plain_list(s, p.leap_targets(c, Reach::King, s as int));
            lemma_castling_list(s, p.side(c));
            lemma_joined(a, b);
            lemma_joined_distinct(a, b);
        },
    }
    assert forall|m: Move| #[trigger] all.contains(m) <==> (m.from == s && p.pseudo_legal(c, m)) by {
    }
}

/// What `moves_of_kind` holds: each pseudo-legal move of a piece of the given
/// side and kind on a square below `n`, once.
pub proof fn lemma_moves_of_kind(p: Position, c: Color, k: PieceType, n: nat)
    requires
        p.wf(),
        n <= 64,
    ensures
        p.moves_of_kind(c, k, n).no_duplicates(),
        forall|m: Move| #[trigger]
            p.moves_of_kind(c, k, n).contains(m) <==> (p.pseudo_legal_of(c, k, m) && m.from < n),
    decreases n,
{
    if n > 0 {
        lemma_moves_of_kind(p, c, k, (n - 1) as nat);
        if p.has(n - 1, c, k) {
            let rest = p.moves_of_kind(c, k, (n - 1) as nat);
            let more = p.moves_from(c, k, (n - 1) as u8);
            lemma_moves_from(p, c, k, (n - 1) as u8);
            lemma_joined(rest, more);
            lemma_joined_distinct(rest, more);
        }
    }
}

/// The list of pseudo-legal moves holds each pseudo-legal move of the side,
/// once.
pub proof fn lemma_pseudo_legal_moves(p: Position, c: Color)
    requires
        p.wf(),
    ensures
        p.pseudo_legal_moves(c).no_duplicates(),
        forall|m: Move| #[trigger] p.pseudo_legal_moves(c).contains(m) <==> p.pseudo_legal(c, m),
{
    let a = p.moves_of_kind(c, PieceType::Pawn, 64);
    let b = p.moves_of_kind(c, PieceType::Knight, 64);
    let d = p.moves_of_kind(c, PieceType::Bishop, 64);
    let e = p.moves_of_kind(c, PieceType::Rook, 64);
    let f = p.moves_of_kind(c, PieceType::Queen, 64);
    let g = p.moves_of_kind(c, PieceType::King, 64);
    lemma_moves_of_kind(p, c, PieceType::Pawn, 64);
    lemma_moves_of_kind(p, c, PieceType::Knight, 64);
    lemma_moves_of_kind(p, c, PieceType::Bishop, 64);
    lemma_moves_of_kind(p, c, PieceType::Rook, 64);
    lemma_moves_of_kind(p, c, PieceType::Queen, 64);
    lemma_moves_of_kind(p, c, PieceType::King, 64);
    lemma_joined(a, b);
    lemma_joined_distinct(a, b);
    lemma_joined(a + b, d);
    lemma_joined_distinct(a + b, d);
    lemma_joined(a + b + d, e);
    lemma_joined_distinct(a + b + d, e);
    lemma_joined(a + b + d + e, f);
    lemma_joined_distinct(a + b + d + e, f);
    lemma_joined(a + b + d + e + f, g);
    lemma_joined_distinct(a + b + d + e + f, g);
    assert forall|m: Move| #[trigger] p.pseudo_legal_moves(c).contains(m) <==> p.pseudo_legal(
        c,
        m,
    ) by {
        if p.pseudo_legal(c, m) {
            let k = p.pieces[m.from as int].kind;
            assert(p.pseudo_legal_of(c, k, m));
        }
    }
}

/// What `kept` holds: the legal ones among the first `n` candidates, each
/// once where no candidate is repeated.
pub proof fn lemma_kept(p: Position, c: Color, candidates: Seq<Move>, n: nat)
    requires
        candidates.no_duplicates(),
        n <= candidates.len(),
    ensures
        p.kept(c, candidates, n).no_duplicates(),
        forall|m: Move| #[trigger]
            p.kept(c, candidates, n).contains(m) <==> (candidates.take(n as int).contains(m)
                && p.legal(c, m)),
    decreases n,
{
    let all = p.kept(c, candidates, n);
    if n > 0 {
        let rest = p.kept(c, candidates, (n - 1) as nat);
        let last = candidates[n - 1];
        let done = candidates.take(n - 1);
        let next = candidates.take(n as int);
        lemma_kept(p, c, candidates, (n - 1) as nat);
        assert(next =~= done.push(last));
        assert forall|x: Move| #[trigger] next.contains(x) <==> (done.contains(x) || x == last) by {
            if done.contains(x) {
                let j = choose|j: int| 0 <= j < done.len() && done[j] == x;
                assert(next[j] == x);
            }
            if x == last {
                assert(next[n - 1] == x);
            }
            if next.contains(x) {
                let j = choose|j: int| 0 <= j < next.len() && next[j] == x;
                if j < n - 1 {
                    assert(done[j] == x);
                }
            }
        }
        if done.contains(last) {
            let j = choose|j: int| 0 <= j < done.len() && done[j] == last;
            assert(candidates[j] == candidates[n - 1]);
        }
        if p.legal(c, last) {
            assert(all == rest.push(last));
            assert(!rest.contains(last));
            assert forall|a: int, b: int| 0 <= a < all.len() && 0 <= b < all.len() && a
                != b implies all[a] != all[b] by {
                if a < rest.len() {
                    assert(rest.contains(rest[a]));
                }
                if b < rest.len() {
                    assert(rest.contains(rest[b]));
                }
            }
            assert forall|x: Move| #[trigger] all.contains(x) <==> (rest.contains(x) || x
                == last) by {
                if rest.contains(x) {
                    let j = choose|j: int| 0 <= j < rest.len() && rest[j] == x;
                    assert(all[j] == x);
                }
                if x == last {
                    assert(all[rest.len() as int] == x);
                }
                if all.contains(x) {
                    let j = choose|j: int| 0 <= j < all.len() && all[j] == x;
                    if j < rest.len() {
                        assert(rest[j] == x);
                    }
                }
            }
        }
    } else {
        assert(candidates.take(0) =~= Seq::<Move>::empty());
    }
}

/// The list of legal moves holds each legal move of the side, once.
pub proof fn lemma_legal_moves(p: Position, c: Color)
    requires
        p.wf(),
    ensures
        p.legal_moves(c).no_duplicates(),
        forall|m: Move| #[trigger] p.legal_moves(c).contains(m) <==> p.legal(c, m),
{
    let candidates = p.pseudo_legal_moves(c);
    lemma_pseudo_legal_moves(p, c);
    lemma_kept(p, c, candidates, candidates.len());
    assert(candidates.take(candidates.len() as int) =~= candidates);
}

} // verus!
