use vstd::prelude::*;
use crate::types::Color;

verus! {

/// Squares are numbered 0 to 63, rank by rank: 0 is a1, 7 is h1, 63 is h8.
pub open spec fn on_board(sq: int) -> bool {
    0 <= sq < 64
}

/// The file of a square, 0 (file a) to 7 (file h).
pub open spec fn file_of(sq: int) -> int {
    sq % 8
}

/// The rank of a square, 0 (rank 1) to 7 (rank 8).
pub open spec fn rank_of(sq: int) -> int {
    sq / 8
}

/// The eight directions in which a sliding piece travels.
#[derive(Clone, Copy, PartialEq, Eq, Structural, Debug)]
pub enum Direction {
    North,
    South,
    East,
    West,
    NorthEast,
    NorthWest,
    SouthEast,
    SouthWest,
}

impl Direction {
    /// The direction that leads back.
    pub open spec fn reverse(self) -> Direction {
        match self {
            Direction::North => Direction::South,
            Direction::South => Direction::North,
            Direction::East => Direction::West,
            Direction::West => Direction::East,
            Direction::NorthEast => Direction::SouthWest,
            Direction::NorthWest => Direction::SouthEast,
            Direction::SouthEast => Direction::NorthWest,
            Direction::SouthWest => Direction::NorthEast,
        }
    }

    /// Whether square numbers grow along this direction.
    pub open spec fn ascending(self) -> bool {
        match self {
            Direction::North | Direction::East | Direction::NorthEast | Direction::NorthWest => true,
            _ => false,
        }
    }
}

/// `t` lies on the ray that leaves `s` in direction `d`, at any distance of
/// at least one step.
pub open spec fn on_ray(d: Direction, s: int, t: int) -> bool {
    let df = file_of(t) - file_of(s);
    let dr = rank_of(t) - rank_of(s);
    on_board(s) && on_board(t) && match d {
        Direction::North => df == 0 && dr > 0,
        Direction::South => df == 0 && dr < 0,
        Direction::East => dr == 0 && df > 0,
        Direction::West => dr == 0 && df < 0,
        Direction::NorthEast => df == dr && dr > 0,
        Direction::NorthWest => df == -dr && dr > 0,
        Direction::SouthEast => df == -dr && dr < 0,
        Direction::SouthWest => df == dr && dr < 0,
    }
}

/// A knight on `s` leaps to `t`.
pub open spec fn knight_jump(s: int, t: int) -> bool {
    let df = file_of(t) - file_of(s);
    let dr = rank_of(t) - rank_of(s);
    on_board(s) && on_board(t) && ((df == 1 || df == -1) && (dr == 2 || dr == -2) || (df == 2 || df
        == -2) && (dr == 1 || dr == -1))
}

/// `t` is one of the up to eight neighbours of `s`.
pub open spec fn king_step(s: int, t: int) -> bool {
    let df = file_of(t) - file_of(s);
    let dr = rank_of(t) - rank_of(s);
    on_board(s) && on_board(t) && s != t && -1 <= df <= 1 && -1 <= dr <= 1
}

/// The rank step of a pawn of the given side: up for White, down for Black.
pub open spec fn forward(c: Color) -> int {
    match c {
        Color::White => 1,
        Color::Black => -1,
    }
}

/// A pawn of side `c` on `s` attacks `t`: one rank forward, one file aside.
pub open spec fn pawn_attack(c: Color, s: int, t: int) -> bool {
    let df = file_of(t) - file_of(s);
    let dr = rank_of(t) - rank_of(s);
    on_board(s) && on_board(t) && dr == forward(c) && (df == 1 || df == -1)
}

/// The relations between two squares that the attack tables record.
#[derive(Clone, Copy, PartialEq, Eq, Structural, Debug)]
pub enum Reach {
    King,
    Knight,
    Pawn(Color),
    Ray(Direction),
}

/// Whether `t` stands in relation `kind` to `s` on an empty board.
pub open spec fn reaches(kind: Reach, s: int, t: int) -> bool {
    match kind {
        Reach::King => king_step(s, t),
        Reach::Knight => knight_jump(s, t),
        Reach::Pawn(c) => pawn_attack(c, s, t),
        Reach::Ray(d) => on_ray(d, s, t),
    }
}

/// Decides `reaches`.
pub fn can_reach(kind: Reach, s: u8, t: u8) -> (r: bool)
    ensures
        r == reaches(kind, s as int, t as int),
{
    if s >= 64 || t >= 64 {
        return false;
    }
    let df: i8 = (t % 8) as i8 - (s % 8) as i8;
    let dr: i8 = (t / 8) as i8 - (s / 8) as i8;
    match kind {
        Reach::King => s != t && -1 <= df && df <= 1 && -1 <= dr && dr <= 1,
        Reach::Knight => (df == 1 || df == -1) && (dr == 2 || dr == -2) || (df == 2 || df == -2)
            && (dr == 1 || dr == -1),
        Reach::Pawn(c) => {
            let fwd: i8 = match c {
                Color::White => 1,
                Color::Black => -1,
            };
            dr == fwd && (df == 1 || df == -1)
        },
        Reach::Ray(d) => match d {
            Direction::North => df == 0 && dr > 0,
            Direction::South => df == 0 && dr < 0,
            Direction::East => dr == 0 && df > 0,
            Direction::West => dr == 0 && df < 0,
            Direction::NorthEast => df == dr && dr > 0,
            Direction::NorthWest => df == -dr && dr > 0,
            Direction::SouthEast => df == -dr && dr < 0,
            Direction::SouthWest => df == dr && dr < 0,
        },
    }
}

/// A ray and its reverse connect the same pairs of squares.
pub proof fn lemma_ray_reverse(d: Direction, s: int, t: int)
    ensures
        on_ray(d, s, t) == on_ray(d.reverse(), t, s),
{
}

/// Square numbers grow along an ascending ray and fall along the others.
pub proof fn lemma_ray_side(d: Direction, s: int, t: int)
    requires
        on_ray(d, s, t),
    ensures
        d.ascending() ==> s < t,
        !d.ascending() ==> t < s,
{
}

/// Of two squares on one ray, the one nearer to the origin has the other on
/// its own ray in the same direction, and conversely.
pub proof fn lemma_ray_between(d: Direction, s: int, u: int, t: int)
    requires
        on_ray(d, s, t),
    ensures
        (on_ray(d, s, u) && on_ray(d, u, t)) <==> (on_ray(d, s, u) && (if d.ascending() {
            u < t
        } else {
            t < u
        })),
{
}

/// Two rays that leave one square in different directions share no square.
pub proof fn lemma_rays_apart(d: Direction, e: Direction, s: int, t: int)
    requires
        on_ray(d, s, t),
        on_ray(e, s, t),
    ensures
        d == e,
{
}

/// Knight leaps and king steps can be taken back.
pub proof fn lemma_leaps_symmetric(s: int, t: int)
    ensures
        knight_jump(s, t) == knight_jump(t, s),
        king_step(s, t) == king_step(t, s),
        pawn_attack(Color::White, s, t) == pawn_attack(Color::Black, t, s),
{
}

} // verus!
