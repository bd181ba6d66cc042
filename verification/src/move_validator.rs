use vstd::prelude::*;
use crate::types::Color;
use crate::types::PieceType;
use crate::types::Piece;
use crate::types::GameStatus;
use crate::bitboard::holds;
use crate::bitboard::lemma_holds_or;
use crate::bitboard::lemma_holds_and;
use crate::bitboard::lemma_holds_not;
use crate::bitboard::lemma_holds_empty;
use crate::bitboard::lemma_holds_range;
use crate::bitboard::lemma_nonzero_member;
use crate::bitboard::lemma_ascending;
use crate::bitboard::members;
use crate::bitboard::squares_of;
use crate::bitboard::list_squares;
use crate::bitboard::contains;
use crate::bitboard::single;
use crate::bitboard::lowest;
use crate::bitboard::highest;
use crate::bitboard::below;
use crate::bitboard::above;
use crate::geometry::Direction;
use crate::geometry::Reach;
use crate::geometry::reaches;
use crate::geometry::can_reach;
use crate::geometry::on_ray;
use crate::geometry::lemma_ray_side;
use crate::geometry::lemma_ray_between;
use crate::geometry::forward;
use crate::geometry::pawn_attack;
use crate::position::Position;
use crate::listing::plain_list;
use crate::listing::promotion_list;
use crate::listing::castling_entry;
use crate::listing::lemma_moves_from;
use crate::listing::lemma_moves_of_kind;
use crate::listing::lemma_pseudo_legal_moves;
use crate::listing::lemma_legal_moves;
use crate::position::lemma_strikes_back;
use crate::board::Board;
use crate::move_::Move;

verus! {

/// The slot of a relation in the attack tables.
pub closed spec fn slot(kind: Reach) -> int {
    match kind {
        Reach::King => 0,
        Reach::Knight => 1,
        Reach::Pawn(Color::White) => 2,
        Reach::Pawn(Color::Black) => 3,
        Reach::Ray(Direction::North) => 4,
        Reach::Ray(Direction::South) => 5,
        Reach::Ray(Direction::East) => 6,
        Reach::Ray(Direction::West) => 7,
        Reach::Ray(Direction::NorthEast) => 8,
        Reach::Ray(Direction::NorthWest) => 9,
        Reach::Ray(Direction::SouthEast) => 10,
        Reach::Ray(Direction::SouthWest) => 11,
    }
}

/// `t` lies on `ray`, and no member of both `ray` and `all` lies nearer to
/// `from` on the same side.
pub open spec fn ray_free(ray: u64, all: u64, from: int, t: int) -> bool {
    holds(ray, t) && forall|u: int|
        #![trigger holds(ray, u)]
        holds(ray, u) && holds(all, u) ==> if from < t {
            t <= u
        } else {
            u <= t
        }
}

/// A move along `ray` may end on `t`: `t` is free as seen from `from`, and
/// empty or a member of `enemy`.
pub open spec fn ray_target(ray: u64, all: u64, enemy: u64, from: int, t: int) -> bool {
    ray_free(ray, all, from, t) && (!holds(all, t) || holds(enemy, t))
}

/// The squares on which a move along `ray` from `from` may end.
pub open spec fn ray_targets(ray: u64, all: u64, enemy: u64, from: int) -> Set<int> {
    Set::new(|t: int| ray_target(ray, all, enemy, from, t))
}

/// All members of `ray` lie on one side of `from`.
pub open spec fn one_sided(ray: u64, from: int) -> bool {
    (forall|u: int| #[trigger] holds(ray, u) ==> from < u) || (forall|u: int| #[trigger]
        holds(ray, u) ==> u < from)
}

/// On the ray of a direction, as the table holds it, the squares free of
/// blockers are those a slider reaches.
proof fn lemma_free_is_slide(p: Position, ray: u64, all: u64, d: Direction, s: int, t: int)
    requires
        forall|u: int| #[trigger] holds(ray, u) == on_ray(d, s, u),
        forall|u: int| #[trigger] holds(all, u) == p.occupied(u),
    ensures
        ray_free(ray, all, s, t) == p.slides(d, s, t),
{
    if on_ray(d, s, t) {
        lemma_ray_side(d, s, t);
        if ray_free(ray, all, s, t) {
            assert forall|u: int| #[trigger] on_ray(d, s, u) && on_ray(d, u, t) implies !p.occupied(
                u,
            ) by {
                lemma_ray_side(d, u, t);
                if p.occupied(u) {
                    assert(holds(ray, u) && holds(all, u));
                }
            }
        }
        if p.slides(d, s, t) {
            assert forall|u: int|
                #![trigger holds(ray, u)]
                holds(ray, u) && holds(all, u) implies if s < t {
                t <= u
            } else {
                u <= t
            } by {
                lemma_ray_between(d, s, u, t);
                assert(on_ray(d, s, u));
                assert(p.occupied(u));
            }
        }
    }
}

/// The refusal of a move that is not legal for the side that was to play it.
#[derive(Clone, Copy, PartialEq, Eq, Structural, Debug)]
pub struct IllegalMove;

/// The attack tables and the move generation and legality rules built on
/// them.
///
/// For each square the tables hold the squares a king steps to, a knight
/// leaps to, a pawn of either side attacks, and the squares of the ray in
/// each of the eight directions.
pub struct MoveValidator {
    tables: Vec<Vec<u64>>,
}

impl MoveValidator {
    #[verifier::type_invariant]
    closed spec fn inv(&self) -> bool {
        &&& self.tables.len() == 12
        &&& forall|kind: Reach| #[trigger] self.tables[slot(kind)].len() == 64
        &&& forall|kind: Reach, s: int, t: int|
            0 <= s < 64 ==> #[trigger] holds(self.tables[slot(kind)][s], t) == reaches(kind, s, t)
    }

    /// The table of one relation: for each square, the squares it reaches.
    fn table_for(kind: Reach) -> (tbl: Vec<u64>)
        ensures
            tbl.len() == 64,
            forall|s: int, t: int| 0 <= s < 64 ==> #[trigger] holds(tbl[s], t) == reaches(kind, s, t),
    {
        let mut tbl: Vec<u64> = Vec::new();
        let mut s: u8 = 0;
        while s < 64
            invariant
                s <= 64,
                tbl.len() == s,
                forall|a: int, t: int|
                    0 <= a < s ==> #[trigger] holds(tbl[a], t) == reaches(kind, a, t),
            decreases 64 - s,
        {
            let mut b: u64 = 0;
            let mut t: u8 = 0;
            proof {
                assert forall|x: int| #[trigger] holds(b, x) == (0 <= x < 0 && reaches(
                    kind,
                    s as int,
                    x,
                )) by {
                    lemma_holds_empty(x);
                }
            }
            while t < 64
                invariant
                    s < 64,
                    t <= 64,
                    forall|x: int| #[trigger] holds(b, x) == (0 <= x < t && reaches(kind, s as int, x)),
                decreases 64 - t,
            {
                if can_reach(kind, s, t) {
                    let bit: u64 = single(t);
                    let ghost before = b;
                    b = b | bit;
                    proof {
                        assert forall|x: int| #[trigger] holds(b, x) == (0 <= x < t + 1 && reaches(
                            kind,
                            s as int,
                            x,
                        )) by {
                            lemma_holds_or(before, bit, x);
                        }
                    }
                }
                t = t + 1;
            }
            proof {
                assert forall|x: int| #[trigger] holds(b, x) == reaches(kind, s as int, x) by {
                    lemma_holds_range(b, x);
                }
            }
            tbl.push(b);
            s = s + 1;
        }
        tbl
    }

    /// The squares that the tables record as standing in relation `kind` to
    /// `s`.
    pub closed spec fn table(&self, kind: Reach, s: int) -> u64 {
        self.tables[slot(kind)][s]
    }

    /// Builds the attack tables: for every relation and every square of the
    /// board, the squares that the relation reaches from it.
    pub fn new() -> (v: Self)
        ensures
            forall|kind: Reach, s: int, t: int|
                0 <= s < 64 ==> #[trigger] holds(v.table(kind, s), t) == reaches(kind, s, t),
    {
        let mut tables: Vec<Vec<u64>> = Vec::new();
        tables.push(Self::table_for(Reach::King));
        tables.push(Self::table_for(Reach::Knight));
        tables.push(Self::table_for(Reach::Pawn(Color::White)));
        tables.push(Self::table_for(Reach::Pawn(Color::Black)));
        tables.push(Self::table_for(Reach::Ray(Direction::North)));
        tables.push(Self::table_for(Reach::Ray(Direction::South)));
        tables.push(Self::table_for(Reach::Ray(Direction::East)));
        tables.push(Self::table_for(Reach::Ray(Direction::West)));
        tables.push(Self::table_for(Reach::Ray(Direction::NorthEast)));
        tables.push(Self::table_for(Reach::Ray(Direction::NorthWest)));
        tables.push(Self::table_for(Reach::Ray(Direction::SouthEast)));
        tables.push(Self::table_for(Reach::Ray(Direction::SouthWest)));
        Self { tables }
    }

    /// The squares that stand in relation `kind` to `s` on an empty board,
    /// as the tables record them; none for a square off the board.
    pub fn reach(&self, kind: Reach, s: u8) -> (b: u64)
        ensures
            s < 64 ==> b == self.table(kind, s as int),
            forall|t: int| #[trigger] holds(b, t) == reaches(kind, s as int, t),
    {
        if s >= 64 {
            proof {
                assert forall|t: int| !#[trigger] holds(0u64, t) by {
                    lemma_holds_empty(t);
                }
            }
            return 0;
        }
        proof {
            use_type_invariant(self);
        }
        let i: usize = match kind {
            Reach::King => 0,
            Reach::Knight => 1,
            Reach::Pawn(Color::White) => 2,
            Reach::Pawn(Color::Black) => 3,
            Reach::Ray(Direction::North) => 4,
            Reach::Ray(Direction::South) => 5,
            Reach::Ray(Direction::East) => 6,
            Reach::Ray(Direction::West) => 7,
            Reach::Ray(Direction::NorthEast) => 8,
            Reach::Ray(Direction::NorthWest) => 9,
            Reach::Ray(Direction::SouthEast) => 10,
            Reach::Ray(Direction::SouthWest) => 11,
        };
        assert(i == slot(kind));
        assert(self.tables[slot(kind)].len() == 64);
        self.tables[i][s as usize]
    }

    /// The members of a bitboard, in ascending order.
    pub fn bitboard_to_squareset(&self, bitboard: u64) -> (v: Vec<u8>)
        ensures
            v@ == squares_of(bitboard),
    {
        list_squares(bitboard)
    }

    /// Appends a plain move from `from` to each member of `squares`, in
    /// ascending order of destination.
    pub fn add_moves_to_empty_squares(&self, squares: u64, from: u8, moves: &mut Vec<Move>)
        ensures
            final(moves)@ == old(moves)@ + plain_list(from, members(squares)),
    {
        let dests: Vec<u8> = self.bitboard_to_squareset(squares);
        let mut i: usize = 0;
        while i < dests.len()
            invariant
                i <= dests.len(),
                dests@ == squares_of(squares),
                moves@ == old(moves)@ + plain_list(from, members(squares)).take(i as int),
            decreases dests.len() - i,
        {
            let to: u8 = dests[i];
            moves.push(Move::new(from, to, None, false));
            proof {
                let all = plain_list(from, members(squares));
                assert(all.take(i + 1) =~= all.take(i as int).push(all[i as int]));
            }
            i = i + 1;
        }
        proof {
            let all = plain_list(from, members(squares));
            assert(all.take(i as int) =~= all);
        }
    }

    /// The index of the first member of both `ray` and `blockers` as seen
    /// from `reference_sq`: the lowest where all of them lie above it, else
    /// the highest. 64 where there is none.
    pub fn find_first_blocker_index(ray: u64, blockers: u64, reference_sq: u8) -> (r: u32)
        ensures
            r <= 64,
            r == 64 <==> (forall|j: int| !(holds(ray, j) && #[trigger] holds(blockers, j))),
            r < 64 ==> holds(ray, r as int) && holds(blockers, r as int),
            (forall|j: int| holds(ray, j) && #[trigger] holds(blockers, j) ==> reference_sq < j)
                ==> (forall|j: int| holds(ray, j) && #[trigger] holds(blockers, j) ==> r <= j),
            !(forall|j: int| holds(ray, j) && #[trigger] holds(blockers, j) ==> reference_sq < j)
                ==> (forall|j: int| holds(ray, j) && #[trigger] holds(blockers, j) ==> j <= r),
    {
        let ray_with_blockers: u64 = ray & blockers;
        proof {
            assert forall|j: int|
                #![trigger holds(ray_with_blockers, j)]
                #![trigger holds(blockers, j)]
                holds(ray_with_blockers, j) == (holds(ray, j) && holds(blockers, j)) by {
                lemma_holds_and(ray, blockers, j);
            }
        }
        if ray_with_blockers == 0 {
            proof {
                assert forall|j: int| !(holds(ray, j) && #[trigger] holds(blockers, j)) by {
                    lemma_holds_empty(j);
                }
            }
            return 64;
        }
        let low: u8 = lowest(ray_with_blockers);
        if reference_sq < low {
            assert(holds(ray_with_blockers, low as int));
            low as u32
        } else {
            let high: u8 = highest(ray_with_blockers);
            assert(holds(ray_with_blockers, low as int));
            assert(holds(ray_with_blockers, high as int));
            high as u32
        }
    }

    /// The members of `ray` that no member of `all` hides from `from`: those
    /// up to the first member of `all` on the ray, that one included.
    pub fn ray_reach(ray: u64, all: u64, from: u8) -> (r: u64)
        requires
            one_sided(ray, from as int),
        ensures
            forall|t: int| #[trigger] holds(r, t) == ray_free(ray, all, from as int, t),
    {
        let first: u32 = Self::find_first_blocker_index(ray, all, from);
        if first >= 64 {
            ray
        } else {
            let fb: u8 = first as u8;
            assert(holds(ray, fb as int));
            if fb > from {
                let low: u64 = below(fb);
                let one: u64 = single(fb);
                let r: u64 = ray & (low | one);
                proof {
                    assert forall|t: int| #[trigger] holds(r, t) == ray_free(
                        ray,
                        all,
                        from as int,
                        t,
                    ) by {
                        lemma_holds_and(ray, low | one, t);
                        lemma_holds_or(low, one, t);
                        lemma_holds_range(ray, t);
                        if holds(ray, t) && !(t <= fb) {
                            assert(holds(ray, fb as int) && holds(all, fb as int));
                        }
                    }
                }
                r
            } else {
                let high: u64 = above(fb);
                let one: u64 = single(fb);
                let r: u64 = ray & (high | one);
                proof {
                    assert forall|t: int| #[trigger] holds(r, t) == ray_free(
                        ray,
                        all,
                        from as int,
                        t,
                    ) by {
                        lemma_holds_and(ray, high | one, t);
                        lemma_holds_or(high, one, t);
                        lemma_holds_range(ray, t);
                        if holds(ray, t) && !(fb <= t) {
                            assert(holds(ray, fb as int) && holds(all, fb as int));
                        }
                    }
                }
                r
            }
        }
    }

    /// Appends the moves of a sliding piece on `from` along `ray`: a plain
    /// move to each square of the ray up to the first occupied one, and onto
    /// that one where it is a member of `enemy_pieces`; in ascending order of
    /// destination.
    pub fn add_ray_moves(
        &self,
        ray: u64,
        all_pieces: u64,
        enemy_pieces: u64,
        from: u8,
        moves: &mut Vec<Move>,
    )
        requires
            one_sided(ray, from as int),
        ensures
            final(moves)@ == old(moves)@ + plain_list(
                from,
                ray_targets(ray, all_pieces, enemy_pieces, from as int),
            ),
    {
        let reach: u64 = Self::ray_reach(ray, all_pieces, from);
        let open: u64 = !all_pieces | enemy_pieces;
        let targets: u64 = reach & open;
        proof {
            assert forall|t: int| #[trigger]
                holds(targets, t) == ray_target(ray, all_pieces, enemy_pieces, from as int, t) by {
                lemma_holds_and(reach, open, t);
                lemma_holds_or(!all_pieces, enemy_pieces, t);
                lemma_holds_not(all_pieces, t);
                lemma_holds_range(reach, t);
            }
            assert(members(targets) =~= ray_targets(
                ray,
                all_pieces,
                enemy_pieces,
                from as int,
            ));
        }
        self.add_moves_to_empty_squares(targets, from, moves);
    }

    /// Appends the moves of a sliding piece of side `color` on `from` in
    /// direction `d`.
    fn add_along(&self, board: &Board, color: Color, d: Direction, from: u8, moves: &mut Vec<Move>)
        requires
            from < 64,
        ensures
            final(moves)@ == old(moves)@ + plain_list(
                from,
                board@.slide_targets(color, d, from as int),
            ),
    {
        let ray: u64 = self.reach(Reach::Ray(d), from);
        let all: u64 = board.all_pieces();
        let enemy: u64 = board.side(color.opponent());
        proof {
            assert forall|u: int| #[trigger] holds(ray, u) implies (if d.ascending() {
                from < u
            } else {
                u < from
            }) by {
                lemma_ray_side(d, from as int, u);
            }
            assert forall|t: int| #[trigger]
                ray_target(ray, all, enemy, from as int, t) == (board@.slides(d, from as int, t)
                    && !board@.has_color(t, color)) by {
                lemma_free_is_slide(board@, ray, all, d, from as int, t);
                assert(holds(all, t) == board@.occupied(t));
                assert(holds(enemy, t) == board@.has_color(t, color.other()));
            }
            assert(ray_targets(ray, all, enemy, from as int) =~= board@.slide_targets(
                color,
                d,
                from as int,
            ));
        }
        self.add_ray_moves(ray, all, enemy, from, moves);
    }

    /// Appends the moves of a rook of side `color` on `from`.
    fn add_straight(&self, board: &Board, color: Color, from: u8, moves: &mut Vec<Move>)
        requires
            from < 64,
        ensures
            final(moves)@ == old(moves)@ + board@.straight_list(color, from),
    {
        self.add_along(board, color, Direction::North, from, moves);
        self.add_along(board, color, Direction::South, from, moves);
        self.add_along(board, color, Direction::East, from, moves);
        self.add_along(board, color, Direction::West, from, moves);
        proof {
            assert(moves@ =~= old(moves)@ + board@.straight_list(color, from));
        }
    }

    /// Appends the moves of a bishop of side `color` on `from`.
    fn add_diagonal(&self, board: &Board, color: Color, from: u8, moves: &mut Vec<Move>)
        requires
            from < 64,
        ensures
            final(moves)@ == old(moves)@ + board@.diagonal_list(color, from),
    {
        self.add_along(board, color, Direction::NorthEast, from, moves);
        self.add_along(board, color, Direction::NorthWest, from, moves);
        self.add_along(board, color, Direction::SouthEast, from, moves);
        self.add_along(board, color, Direction::SouthWest, from, moves);
        proof {
            assert(moves@ =~= old(moves)@ + board@.diagonal_list(color, from));
        }
    }

    /// Appends the four promoting moves from `from` to each member of
    /// `squares`, in ascending order of destination.
    fn add_promotions(&self, squares: u64, from: u8, moves: &mut Vec<Move>)
        ensures
            final(moves)@ == old(moves)@ + promotion_list(from, members(squares)),
    {
        let dests: Vec<u8> = self.bitboard_to_squareset(squares);
        let mut i: usize = 0;
        proof {
            lemma_ascending(members(squares), 64);
        }
        while i < dests.len()
            invariant
                i <= dests.len(),
                dests.len() <= 64,
                dests@ == squares_of(squares),
                moves@ == old(moves)@ + promotion_list(from, members(squares)).take(4 * i),
            decreases dests.len() - i,
        {
            let to: u8 = dests[i];
            let ghost all = promotion_list(from, members(squares));
            let ghost before = moves@;
            moves.push(Move::new(from, to, Some(PieceType::Queen), false));
            moves.push(Move::new(from, to, Some(PieceType::Rook), false));
            moves.push(Move::new(from, to, Some(PieceType::Bishop), false));
            moves.push(Move::new(from, to, Some(PieceType::Knight), false));
            proof {
                let k: int = 4 * i;
                assert((k + 0) / 4 == i && (k + 1) / 4 == i && (k + 2) / 4 == i && (k + 3) / 4 == i);
                assert(all.take(k + 4) =~= all.take(k).push(all[k]).push(all[k + 1]).push(
                    all[k + 2],
                ).push(all[k + 3]));
                assert(moves@ =~= before.push(all[k]).push(all[k + 1]).push(all[k + 2]).push(
                    all[k + 3],
                ));
            }
            i = i + 1;
        }
        proof {
            let all = promotion_list(from, members(squares));
            assert(all.take(4 * i) =~= all);
        }
    }

    /// Appends the moves of a pawn of side `color` on `from`: its captures,
    /// onto a piece of the other side or onto the en-passant target, its
    /// single step and, from its home rank, its double step; each in four
    /// promotions where the pawn stands one rank before the last.
    fn add_pawn_moves(&self, board: &Board, color: Color, from: u8, moves: &mut Vec<Move>)
        requires
            from < 64,
        ensures
            final(moves)@ == old(moves)@ + board@.moves_from(color, PieceType::Pawn, from),
    {
        let all: u64 = board.all_pieces();
        let enemy: u64 = board.side(color.opponent());
        let attacks: u64 = self.reach(Reach::Pawn(color), from);
        let mut valid: u64 = attacks & enemy;
        let ghost p = board@;
        let ghost s = from as int;
        proof {
            assert forall|t: int| #[trigger]
                holds(valid, t) == (pawn_attack(color, s, t) && p.has_color(t, color.other())) by {
                lemma_holds_and(attacks, enemy, t);
            }
        }
        match board.en_passant_square() {
            Some(ep) => {
                if contains(attacks, ep) {
                    let bit: u64 = single(ep);
                    let ghost before = valid;
                    valid = valid | bit;
                    proof {
                        assert forall|t: int| #[trigger]
                            holds(valid, t) == p.pawn_capture(color, s, t) by {
                            lemma_holds_or(before, bit, t);
                        }
                    }
                }
            },
            None => {},
        }
        assert forall|t: int| #[trigger] holds(valid, t) == p.pawn_capture(color, s, t) by {}
        let rank: u8 = from / 8;
        let ghost captures = valid;
        match color {
            Color::White => {
                if rank < 7 {
                    let one: u8 = from + 8;
                    if !contains(all, one) {
                        let bit: u64 = single(one);
                        valid = valid | bit;
                        proof {
                            assert forall|t: int| #[trigger]
                                holds(valid, t) == (holds(captures, t) || t == one) by {
                                lemma_holds_or(captures, bit, t);
                            }
                        }
                        if rank == 1 {
                            let two: u8 = from + 16;
                            if !contains(all, two) {
                                let bit2: u64 = single(two);
                                let ghost before = valid;
                                valid = valid | bit2;
                                proof {
                                    assert forall|t: int| #[trigger]
                                        holds(valid, t) == (holds(captures, t) || t == one || t
                                            == two) by {
                                        lemma_holds_or(before, bit2, t);
                                    }
                                }
                            }
                        }
                    }
                }
            },
            Color::Black => {
                if rank > 0 {
                    let one: u8 = from - 8;
                    if !contains(all, one) {
                        let bit: u64 = single(one);
                        valid = valid | bit;
                        proof {
                            assert forall|t: int| #[trigger]
                                holds(valid, t) == (holds(captures, t) || t == one) by {
                                lemma_holds_or(captures, bit, t);
                            }
                        }
                        if rank == 6 {
                            let two: u8 = from - 16;
                            if !contains(all, two) {
                                let bit2: u64 = single(two);
                                let ghost before = valid;
                                valid = valid | bit2;
                                proof {
                                    assert forall|t: int| #[trigger]
                                        holds(valid, t) == (holds(captures, t) || t == one || t
                                            == two) by {
                                        lemma_holds_or(before, bit2, t);
                                    }
                                }
                            }
                        }
                    }
                }
            },
        }
        proof {
            assert forall|t: int| #[trigger]
                holds(valid, t) == (p.pawn_capture(color, s, t) || p.pawn_advance(color, s, t)) by {
                lemma_holds_range(valid, t);
                assert(holds(captures, t) == p.pawn_capture(color, s, t));
                assert(holds(all, t) == p.occupied(t));
                assert(holds(all, s + 8 * forward(color)) == p.occupied(s + 8 * forward(color)));
                assert(holds(all, s + 16 * forward(color)) == p.occupied(s + 16 * forward(color)));
                lemma_holds_range(all, s + 8 * forward(color));
                lemma_holds_range(all, s + 16 * forward(color));
            }
            assert(members(valid) =~= p.pawn_targets(color, s));
        }
        let promoting: bool = match color {
            Color::White => rank == 6,
            Color::Black => rank == 1,
        };
        if promoting {
            self.add_promotions(valid, from, moves);
        } else {
            self.add_moves_to_empty_squares(valid, from, moves);
        }
    }

    /// Appends the king move from `from` to `to`, marked as castling, unless
    /// `to` is a member of `own`.
    fn add_castling(&self, own: u64, from: u8, to: u8, moves: &mut Vec<Move>)
        requires
            to < 64,
        ensures
            final(moves)@ == old(moves)@ + castling_entry(from, to, members(own)),
    {
        if !contains(own, to) {
            moves.push(Move::new(from, to, None, true));
        }
        proof {
            assert(moves@ =~= old(moves)@ + castling_entry(from, to, members(own)));
        }
    }

    /// Appends the moves of a king of side `color` on `from`: its steps, and
    /// from a king's home square the two moves to the castling squares,
    /// marked as castling.
    fn add_king_moves(&self, board: &Board, color: Color, from: u8, moves: &mut Vec<Move>)
        requires
            from < 64,
        ensures
            final(moves)@ == old(moves)@ + board@.moves_from(color, PieceType::King, from),
    {
        let own: u64 = board.side(color);
        let steps: u64 = self.reach(Reach::King, from);
        let dests: u64 = steps & !own;
        let ghost p = board@;
        let ghost s = from as int;
        proof {
            assert forall|t: int| #[trigger]
                holds(dests, t) == (reaches(Reach::King, s, t) && !p.has_color(t, color)) by {
                lemma_holds_and(steps, !own, t);
                lemma_holds_not(own, t);
                lemma_holds_range(steps, t);
            }
            assert(members(dests) =~= p.leap_targets(color, Reach::King, s));
            assert(members(own) =~= p.side(color));
        }
        self.add_moves_to_empty_squares(dests, from, moves);
        if from == 4 {
            self.add_castling(own, from, 2, moves);
            self.add_castling(own, from, 6, moves);
        } else if from == 60 {
            self.add_castling(own, from, 58, moves);
            self.add_castling(own, from, 62, moves);
        }
        proof {
            assert(moves@ =~= old(moves)@ + p.moves_from(color, PieceType::King, from));
        }
    }

    /// Appends the pseudo-legal moves of a piece of side `color` and kind
    /// `kind` on `from`.
    fn add_moves_from(
        &self,
        board: &Board,
        color: Color,
        kind: PieceType,
        from: u8,
        moves: &mut Vec<Move>,
    )
        requires
            from < 64,
        ensures
            final(moves)@ == old(moves)@ + board@.moves_from(color, kind, from),
    {
        let ghost p = board@;
        let ghost s = from as int;
        match kind {
            PieceType::Pawn => self.add_pawn_moves(board, color, from, moves),
            PieceType::King => self.add_king_moves(board, color, from, moves),
            PieceType::Knight => {
                let own: u64 = board.side(color);
                let leaps: u64 = self.reach(Reach::Knight, from);
                let dests: u64 = leaps & !own;
                proof {
                    assert forall|t: int| #[trigger]
                        holds(dests, t) == (reaches(Reach::Knight, s, t) && !p.has_color(
                            t,
                            color,
                        )) by {
                        lemma_holds_and(leaps, !own, t);
                        lemma_holds_not(own, t);
                        lemma_holds_range(leaps, t);
                    }
                    assert(members(dests) =~= p.leap_targets(color, Reach::Knight, s));
                }
                self.add_moves_to_empty_squares(dests, from, moves);
            },
            PieceType::Rook => self.add_straight(board, color, from, moves),
            PieceType::Bishop => self.add_diagonal(board, color, from, moves),
            PieceType::Queen => {
                self.add_straight(board, color, from, moves);
                self.add_diagonal(board, color, from, moves);
                proof {
                    assert(moves@ =~= old(moves)@ + p.moves_from(color, PieceType::Queen, from));
                }
            },
        }
    }

    /// The pseudo-legal moves of the pieces of side `color` and kind `kind`,
    /// in ascending order of origin.
    fn moves_of_kind(&self, board: &Board, color: Color, kind: PieceType) -> (moves: Vec<Move>)
        ensures
            moves@ == board@.moves_of_kind(color, kind, 64),
            moves@.no_duplicates(),
            forall|m: Move| #[trigger] moves@.contains(m) <==> board@.pseudo_legal_of(color, kind, m),
    {
        let set: u64 = board.pieces(color, kind);
        let all: u64 = board.all_pieces();
        let mut moves: Vec<Move> = Vec::new();
        let mut sq: u8 = 0;
        while sq < 64
            invariant
                sq <= 64,
                forall|x: int| #[trigger] holds(set, x) == board@.has(x, color, kind),
                moves@ == board@.moves_of_kind(color, kind, sq as nat),
            decreases 64 - sq,
        {
            if contains(set, sq) {
                self.add_moves_from(board, color, kind, sq, &mut moves);
            }
            sq = sq + 1;
        }
        proof {
            lemma_moves_of_kind(board@, color, kind, 64);
        }
        moves
    }

    /// The pseudo-legal moves of the kings of side `color`.
    pub fn get_pseudo_legal_king_moves(&self, board: &Board, color: Color) -> (moves: Vec<Move>)
        ensures
            moves@ == board@.moves_of_kind(color, PieceType::King, 64),
            moves@.no_duplicates(),
            forall|m: Move| #[trigger]
                moves@.contains(m) <==> board@.pseudo_legal_of(color, PieceType::King, m),
    {
        self.moves_of_kind(board, color, PieceType::King)
    }

    /// The pseudo-legal moves of the knights of side `color`.
    pub fn get_pseudo_legal_knight_moves(&self, board: &Board, color: Color) -> (moves: Vec<Move>)
        ensures
            moves@ == board@.moves_of_kind(color, PieceType::Knight, 64),
            moves@.no_duplicates(),
            forall|m: Move| #[trigger]
                moves@.contains(m) <==> board@.pseudo_legal_of(color, PieceType::Knight, m),
    {
        self.moves_of_kind(board, color, PieceType::Knight)
    }

    /// The pseudo-legal moves of the pawns of side `color`.
    pub fn get_pseudo_legal_pawn_moves(&self, board: &Board, color: Color) -> (moves: Vec<Move>)
        ensures
            moves@ == board@.moves_of_kind(color, PieceType::Pawn, 64),
            moves@.no_duplicates(),
            forall|m: Move| #[trigger]
                moves@.contains(m) <==> board@.pseudo_legal_of(color, PieceType::Pawn, m),
    {
        self.moves_of_kind(board, color, PieceType::Pawn)
    }

    /// The pseudo-legal moves of the rooks of side `color`.
    pub fn get_pseudo_legal_rook_moves(&self, board: &Board, color: Color) -> (moves: Vec<Move>)
        ensures
            moves@ == board@.moves_of_kind(color, PieceType::Rook, 64),
            moves@.no_duplicates(),
            forall|m: Move| #[trigger]
                moves@.contains(m) <==> board@.pseudo_legal_of(color, PieceType::Rook, m),
    {
        self.moves_of_kind(board, color, PieceType::Rook)
    }

    /// The pseudo-legal moves of the bishops of side `color`.
    pub fn get_pseudo_legal_bishop_moves(&self, board: &Board, color: Color) -> (moves: Vec<Move>)
        ensures
            moves@ == board@.moves_of_kind(color, PieceType::Bishop, 64),
            moves@.no_duplicates(),
            forall|m: Move| #[trigger]
                moves@.contains(m) <==> board@.pseudo_legal_of(color, PieceType::Bishop, m),
    {
        self.moves_of_kind(board, color, PieceType::Bishop)
    }

    /// The pseudo-legal moves of the queens of side `color`.
    pub fn get_pseudo_legal_queen_moves(&self, board: &Board, color: Color) -> (moves: Vec<Move>)
        ensures
            moves@ == board@.moves_of_kind(color, PieceType::Queen, 64),
            moves@.no_duplicates(),
            forall|m: Move| #[trigger]
                moves@.contains(m) <==> board@.pseudo_legal_of(color, PieceType::Queen, m),
    {
        self.moves_of_kind(board, color, PieceType::Queen)
    }

    /// The pseudo-legal moves of side `color`, each once: the moves that obey
    /// the movement rules of the piece moved and the occupancy of the board,
    /// whether or not they leave the mover's king attacked. They are listed
    /// by kind of piece, then by origin, then as the piece generates them.
    pub fn get_pseudo_legal_moves(&self, board: &Board, color: Color) -> (moves: Vec<Move>)
        ensures
            moves@ == board@.pseudo_legal_moves(color),
            moves@.no_duplicates(),
            forall|m: Move| #[trigger] moves@.contains(m) <==> board@.pseudo_legal(color, m),
    {
        let mut moves: Vec<Move> = self.get_pseudo_legal_pawn_moves(board, color);
        let mut knights: Vec<Move> = self.get_pseudo_legal_knight_moves(board, color);
        let mut bishops: Vec<Move> = self.get_pseudo_legal_bishop_moves(board, color);
        let mut rooks: Vec<Move> = self.get_pseudo_legal_rook_moves(board, color);
        let mut queens: Vec<Move> = self.get_pseudo_legal_queen_moves(board, color);
        let mut kings: Vec<Move> = self.get_pseudo_legal_king_moves(board, color);
        moves.append(&mut knights);
        moves.append(&mut bishops);
        moves.append(&mut rooks);
        moves.append(&mut queens);
        moves.append(&mut kings);
        let all: u64 = board.all_pieces();
        proof {
            lemma_pseudo_legal_moves(board@, color);
        }
        moves
    }

    /// The squares that a sliding piece on `s` reaches in direction `d`.
    pub fn slide_set(&self, board: &Board, d: Direction, s: u8) -> (b: u64)
        ensures
            forall|t: int| #[trigger] holds(b, t) == board@.slides(d, s as int, t),
    {
        let ray: u64 = self.reach(Reach::Ray(d), s);
        let all: u64 = board.all_pieces();
        proof {
            assert forall|u: int| #[trigger] holds(ray, u) implies (if d.ascending() {
                s < u
            } else {
                u < s
            }) by {
                lemma_ray_side(d, s as int, u);
            }
        }
        let b: u64 = Self::ray_reach(ray, all, s);
        proof {
            assert forall|t: int| #[trigger] holds(b, t) == board@.slides(d, s as int, t) by {
                lemma_free_is_slide(board@, ray, all, d, s as int, t);
            }
        }
        b
    }

    /// The squares that `piece`, were it to stand on `s`, would attack.
    pub fn strike_set(&self, board: &Board, piece: Piece, s: u8) -> (b: u64)
        ensures
            forall|t: int| #[trigger] holds(b, t) == board@.strikes(piece, s as int, t),
    {
        match piece.kind {
            PieceType::Pawn => self.reach(Reach::Pawn(piece.color), s),
            PieceType::Knight => self.reach(Reach::Knight, s),
            PieceType::King => self.reach(Reach::King, s),
            PieceType::Rook => self.straight_set(board, s),
            PieceType::Bishop => self.diagonal_set(board, s),
            PieceType::Queen => {
                let a: u64 = self.straight_set(board, s);
                let d: u64 = self.diagonal_set(board, s);
                proof {
                    assert forall|t: int| #[trigger] holds(a | d, t) == board@.strikes(
                        piece,
                        s as int,
                        t,
                    ) by {
                        lemma_holds_or(a, d, t);
                    }
                }
                a | d
            },
        }
    }

    /// The squares that a rook on `s` reaches.
    pub fn straight_set(&self, board: &Board, s: u8) -> (b: u64)
        ensures
            forall|t: int| #[trigger] holds(b, t) == board@.rook_line(s as int, t),
    {
        let north: u64 = self.slide_set(board, Direction::North, s);
        let south: u64 = self.slide_set(board, Direction::South, s);
        let east: u64 = self.slide_set(board, Direction::East, s);
        let west: u64 = self.slide_set(board, Direction::West, s);
        proof {
            assert forall|t: int| #[trigger] holds(north | south | east | west, t) == board@.rook_line(
                s as int,
                t,
            ) by {
                lemma_holds_or(north, south, t);
                lemma_holds_or(north | south, east, t);
                lemma_holds_or(north | south | east, west, t);
            }
        }
        north | south | east | west
    }

    /// The squares that a bishop on `s` reaches.
    pub fn diagonal_set(&self, board: &Board, s: u8) -> (b: u64)
        ensures
            forall|t: int| #[trigger] holds(b, t) == board@.bishop_line(s as int, t),
    {
        let north_east: u64 = self.slide_set(board, Direction::NorthEast, s);
        let north_west: u64 = self.slide_set(board, Direction::NorthWest, s);
        let south_east: u64 = self.slide_set(board, Direction::SouthEast, s);
        let south_west: u64 = self.slide_set(board, Direction::SouthWest, s);
        proof {
            assert forall|t: int| #[trigger] holds(north_east | north_west | south_east | south_west, t) == board@.bishop_line(
                s as int,
                t,
            ) by {
                lemma_holds_or(north_east, north_west, t);
                lemma_holds_or(north_east | north_west, south_east, t);
                lemma_holds_or(north_east | north_west | south_east, south_west, t);
            }
        }
        north_east | north_west | south_east | south_west
    }

    /// A piece of side `by` and kind `k` attacks the square `t`.
    pub open spec fn kind_hits(p: Position, t: int, by: Color, k: PieceType) -> bool {
        exists|s: int| #[trigger] p.has(s, by, k) && p.strikes(Piece { color: by, kind: k }, s, t)
    }

    /// Whether a piece of side `by` and kind `k` attacks the square `sq`.
    fn attacked_by_kind(&self, board: &Board, sq: u8, by: Color, k: PieceType) -> (r: bool)
        requires
            sq < 64,
        ensures
            r == Self::kind_hits(board@, sq as int, by, k),
    {
        let back: u64 = self.strike_set(board, Piece { color: by.opponent(), kind: k }, sq);
        let there: u64 = board.pieces(by, k);
        let hit: u64 = back & there;
        proof {
            assert forall|s: int| #[trigger]
                holds(hit, s) == (board@.has(s, by, k) && board@.strikes(
                    Piece { color: by, kind: k },
                    s,
                    sq as int,
                )) by {
                lemma_holds_and(back, there, s);
                lemma_strikes_back(board@, by, k, s, sq as int);
                assert(holds(there, s) == board@.has(s, by, k));
            }
            if hit != 0 {
                lemma_nonzero_member(hit);
                let s = choose|s: int| holds(hit, s);
                assert(board@.has(s, by, k));
            } else {
                assert forall|s: int| !(#[trigger] board@.has(s, by, k) && board@.strikes(
                    Piece { color: by, kind: k },
                    s,
                    sq as int,
                )) by {
                    lemma_holds_empty(s);
                    assert(!holds(hit, s));
                }
            }
        }
        hit != 0
    }

    /// Whether some piece of side `by` attacks the square `sq`. No square
    /// off the board is attacked.
    pub fn is_square_attacked(&self, board: &Board, sq: u8, by: Color) -> (r: bool)
        ensures
            r == board@.attacked_by(sq as int, by),
    {
        if sq >= 64 {
            proof {
                assert forall|s: int| !(board@.has_color(s, by) && #[trigger] board@.attacks(
                    s,
                    sq as int,
                )) by {}
            }
            return false;
        }
        let r: bool = self.attacked_by_kind(board, sq, by, PieceType::Pawn) || self.attacked_by_kind(
            board,
            sq,
            by,
            PieceType::Knight,
        ) || self.attacked_by_kind(board, sq, by, PieceType::Bishop) || self.attacked_by_kind(
            board,
            sq,
            by,
            PieceType::Rook,
        ) || self.attacked_by_kind(board, sq, by, PieceType::Queen) || self.attacked_by_kind(
            board,
            sq,
            by,
            PieceType::King,
        );
        proof {
            let p = board@;
            if r {
                let k = if Self::kind_hits(p, sq as int, by, PieceType::Pawn) {
                    PieceType::Pawn
                } else if Self::kind_hits(p, sq as int, by, PieceType::Knight) {
                    PieceType::Knight
                } else if Self::kind_hits(p, sq as int, by, PieceType::Bishop) {
                    PieceType::Bishop
                } else if Self::kind_hits(p, sq as int, by, PieceType::Rook) {
                    PieceType::Rook
                } else if Self::kind_hits(p, sq as int, by, PieceType::Queen) {
                    PieceType::Queen
                } else {
                    PieceType::King
                };
                assert(Self::kind_hits(p, sq as int, by, k));
                let s = choose|s: int| #[trigger]
                    p.has(s, by, k) && p.strikes(Piece { color: by, kind: k }, s, sq as int);
                assert(p.has_color(s, by) && p.attacks(s, sq as int));
            } else {
                assert forall|s: int| !(p.has_color(s, by) && #[trigger] p.attacks(s, sq as int)) by {
                    if p.has_color(s, by) && p.attacks(s, sq as int) {
                        let k = p.pieces[s].kind;
                        assert(p.has(s, by, k));
                        assert(p.pieces[s] == (Piece { color: by, kind: k }));
                        assert(Self::kind_hits(p, sq as int, by, k));
                    }
                }
            }
        }
        r
    }

    /// Whether a king of side `color` stands on a square that the other side
    /// attacks.
    pub fn is_in_check(&self, board: &Board, color: Color) -> (r: bool)
        ensures
            r == board@.in_check(color),
    {
        let set: u64 = board.pieces(color, PieceType::King);
        let kings: Vec<u8> = self.bitboard_to_squareset(set);
        let enemy: Color = color.opponent();
        let mut i: usize = 0;
        proof {
            lemma_ascending(members(set), 64);
        }
        while i < kings.len()
            invariant
                i <= kings.len(),
                enemy == color.other(),
                forall|sq: u8| #[trigger] kings@.contains(sq) <==> (sq < 64 && holds(set, sq as int)),
                forall|sq: int| #[trigger] holds(set, sq) == board@.has(sq, color, PieceType::King),
                forall|j: int| 0 <= j < i ==> !board@.attacked_by(#[trigger] kings@[j] as int, enemy),
            decreases kings.len() - i,
        {
            let k: u8 = kings[i];
            if self.is_square_attacked(board, k, enemy) {
                proof {
                    assert(kings@.contains(k));
                    assert(board@.has(k as int, color, PieceType::King));
                }
                return true;
            }
            i = i + 1;
        }
        proof {
            assert forall|k: int| !(#[trigger] board@.has(k, color, PieceType::King)
                && board@.attacked_by(k, enemy)) by {
                if board@.has(k, color, PieceType::King) {
                    assert(holds(set, k));
                    lemma_holds_range(set, k);
                    assert(kings@.contains(k as u8));
                    let j = choose|j: int| 0 <= j < kings@.len() && kings@[j] == k as u8;
                    assert(!board@.attacked_by(kings@[j] as int, enemy));
                }
            }
        }
        false
    }

    /// Whether side `color` may castle with the king move `m`.
    pub fn may_castle(&self, board: &Board, color: Color, m: &Move) -> (r: bool)
        ensures
            r == board@.castling_ok(color, *m),
    {
        let s: u8 = m.from;
        let t: u8 = m.to;
        let home: u8 = match color {
            Color::White => 4,
            Color::Black => 60,
        };
        if s != home || !(t == s + 2 || t == s - 2) {
            return false;
        }
        let kingside: bool = t > s;
        if !board.castling_rights().permits(color, kingside) {
            return false;
        }
        let corner: u8 = if kingside {
            s + 3
        } else {
            s - 4
        };
        let cross: u8 = if kingside {
            s + 1
        } else {
            s - 1
        };
        if !contains(board.pieces(color, PieceType::King), s) || !contains(
            board.pieces(color, PieceType::Rook),
            corner,
        ) {
            return false;
        }
        let all: u64 = board.all_pieces();
        if contains(all, cross) || contains(all, t) || (!kingside && contains(all, s - 3)) {
            return false;
        }
        let enemy: Color = color.opponent();
        !self.is_square_attacked(board, s, enemy) && !self.is_square_attacked(board, cross, enemy)
            && !self.is_square_attacked(board, t, enemy)
    }

    /// Whether the move `m` leaves the king of side `color` safe: a castling
    /// move meets the castling conditions, and the position after the move
    /// has no king of side `color` attacked. A pseudo-legal move is legal
    /// exactly when it does.
    pub fn keeps_king_safe(&self, board: &Board, color: Color, m: &Move) -> (r: bool)
        ensures
            r == board@.keeps_king_safe(color, *m),
            board@.pseudo_legal(color, *m) ==> r == board@.legal(color, *m),
    {
        if m.is_castling && !self.may_castle(board, color, m) {
            return false;
        }
        match board.make_move(m) {
            Some(after) => !self.is_in_check(&after, color),
            None => !self.is_in_check(board, color),
        }
    }

    /// The legal moves of side `color`, each once: the legal ones among the
    /// pseudo-legal moves, in the same order.
    pub fn get_legal_moves(&self, board: &Board, color: Color) -> (moves: Vec<Move>)
        ensures
            moves@ == board@.legal_moves(color),
            moves@.no_duplicates(),
            forall|m: Move| #[trigger] moves@.contains(m) <==> board@.legal(color, m),
            forall|m: Move| #[trigger] moves@.contains(m) ==> board@.pseudo_legal(color, m),
    {
        let candidates: Vec<Move> = self.get_pseudo_legal_moves(board, color);
        let mut moves: Vec<Move> = Vec::new();
        let mut i: usize = 0;
        while i < candidates.len()
            invariant
                i <= candidates.len(),
                candidates@ == board@.pseudo_legal_moves(color),
                forall|m: Move| #[trigger]
                    candidates@.contains(m) <==> board@.pseudo_legal(color, m),
                moves@ == board@.kept(color, candidates@, i as nat),
            decreases candidates.len() - i,
        {
            let m: Move = candidates[i];
            assert(candidates@.contains(m));
            if self.keeps_king_safe(board, color, &m) {
                moves.push(m);
            }
            i = i + 1;
        }
        let all: u64 = board.all_pieces();
        proof {
            lemma_legal_moves(board@, color);
        }
        moves
    }

    /// Whether the side whose piece stands on the move's origin may play the
    /// move. A move from an empty square or from off the board is not legal.
    pub fn is_move_legal(&self, board: &Board, move_: &Move) -> (r: bool)
        ensures
            r == board@.legal_move(*move_),
    {
        match board.piece_at(move_.from) {
            None => false,
            Some(piece) => {
                if move_.from >= 64 {
                    return false;
                }
                let all: u64 = board.all_pieces();
                let mut candidates: Vec<Move> = Vec::new();
                self.add_moves_from(board, piece.color, piece.kind, move_.from, &mut candidates);
                proof {
                    assert(candidates@ =~= board@.moves_from(piece.color, piece.kind, move_.from));
                    lemma_moves_from(board@, piece.color, piece.kind, move_.from);
                }
                let mut found: bool = false;
                let mut i: usize = 0;
                while i < candidates.len()
                    invariant
                        i <= candidates.len(),
                        found == candidates@.take(i as int).contains(*move_),
                    decreases candidates.len() - i,
                {
                    let ghost done = candidates@.take(i as int);
                    let ghost next = candidates@.take(i + 1);
                    proof {
                        assert(next =~= done.push(candidates@[i as int]));
                        if done.contains(*move_) {
                            let j = choose|j: int| 0 <= j < done.len() && done[j] == *move_;
                            assert(next[j] == *move_);
                        }
                        if next.contains(*move_) && candidates@[i as int] != *move_ {
                            let j = choose|j: int| 0 <= j < next.len() && next[j] == *move_;
                            assert(done[j] == *move_);
                        }
                        if candidates@[i as int] == *move_ {
                            assert(next[i as int] == *move_);
                        }
                    }
                    if candidates[i] == *move_ {
                        found = true;
                    }
                    i = i + 1;
                }
                proof {
                    assert(candidates@.take(i as int) =~= candidates@);
                }
                found && self.keeps_king_safe(board, piece.color, move_)
            },
        }
    }

    /// The state of side `color`, which is to move: in check or not, with or
    /// without a legal move.
    pub fn classify(&self, board: &Board, color: Color) -> (r: GameStatus)
        ensures
            r == board@.status(color),
    {
        let moves: Vec<Move> = self.get_legal_moves(board, color);
        let check: bool = self.is_in_check(board, color);
        let stuck: bool = moves.len() == 0;
        proof {
            if !stuck {
                assert(moves@.contains(moves@[0]));
                assert(board@.legal(color, moves@[0]));
            } else {
                assert forall|m: Move| !#[trigger] board@.legal(color, m) by {
                    if board@.legal(color, m) {
                        assert(moves@.contains(m));
                    }
                }
            }
        }
        if check {
            if stuck {
                GameStatus::Checkmate
            } else {
                GameStatus::Check
            }
        } else {
            if stuck {
                GameStatus::Stalemate
            } else {
                GameStatus::Normal
            }
        }
    }

    /// Plays the move `move_` for side `color`: the position after the move
    /// where it is legal for that side, and a refusal where it is not.
    pub fn apply(&self, board: &Board, color: Color, move_: &Move) -> (r: Result<
        Board,
        IllegalMove,
    >)
        ensures
            r is Ok <==> board@.legal_moves(color).contains(*move_),
            r is Ok <==> board@.legal(color, *move_),
            r matches Ok(b) ==> b@ == board@.after_move(*move_),
    {
        let all: u64 = board.all_pieces();
        proof {
            lemma_legal_moves(board@, color);
        }
        let mine: bool = match board.piece_at(move_.from) {
            Some(piece) => piece.color == color,
            None => false,
        };
        if !mine || !self.is_move_legal(board, move_) {
            return Err(IllegalMove);
        }
        match board.make_move(move_) {
            Some(after) => Ok(after),
            None => Err(IllegalMove),
        }
    }
}

} // verus!
