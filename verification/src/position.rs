use vstd::prelude::*;
use crate::types::Color;
use crate::types::PieceType;
use crate::types::Piece;
use crate::types::CastlingRights;
use crate::types::GameStatus;
use crate::geometry::Direction;
use crate::geometry::on_board;
use crate::geometry::file_of;
use crate::geometry::rank_of;
use crate::geometry::on_ray;
use crate::geometry::knight_jump;
use crate::geometry::king_step;
use crate::geometry::pawn_attack;
use crate::geometry::forward;
use crate::geometry::lemma_ray_reverse;
use crate::geometry::lemma_leaps_symmetric;
use crate::move_::Move;

verus! {

/// The mathematical model of a chess position: which piece stands on which
/// square, the castling rights, and the square a pawn may be captured on in
/// passing.
pub struct Position {
    pub pieces: Map<int, Piece>,
    pub rights: CastlingRights,
    pub en_passant: Option<int>,
}

/// The rank on which the pawns of a side start.
pub open spec fn home_rank(c: Color) -> int {
    match c {
        Color::White => 1,
        Color::Black => 6,
    }
}

/// The rank on which the pawns of a side promote.
pub open spec fn last_rank(c: Color) -> int {
    match c {
        Color::White => 7,
        Color::Black => 0,
    }
}

/// The square on which the king of a side starts.
pub open spec fn king_home(c: Color) -> int {
    match c {
        Color::White => 4,
        Color::Black => 60,
    }
}

/// The four pairs of squares between which a king castles.
pub open spec fn castle_pair(s: int, t: int) -> bool {
    (s == 4 && (t == 2 || t == 6)) || (s == 60 && (t == 58 || t == 62))
}

/// Where the rook stands before castling, for a king going from `s` to `t`.
pub open spec fn rook_origin(s: int, t: int) -> int {
    if t > s {
        s + 3
    } else {
        s - 4
    }
}

/// Where the rook stands after castling: the square the king crosses.
pub open spec fn rook_target(s: int, t: int) -> int {
    if t > s {
        s + 1
    } else {
        s - 1
    }
}

/// The kinds a pawn may promote to.
pub open spec fn promotable(k: PieceType) -> bool {
    k == PieceType::Queen || k == PieceType::Rook || k == PieceType::Bishop || k
        == PieceType::Knight
}

/// The kind of piece that starts on the given file of a side's first rank.
pub open spec fn officer(file: int) -> PieceType {
    if file == 0 || file == 7 {
        PieceType::Rook
    } else if file == 1 || file == 6 {
        PieceType::Knight
    } else if file == 2 || file == 5 {
        PieceType::Bishop
    } else if file == 3 {
        PieceType::Queen
    } else {
        PieceType::King
    }
}

impl Position {
    /// The position from which a game starts: White on ranks 1 and 2, Black
    /// on ranks 7 and 8, all castling rights held, no en-passant target.
    pub open spec fn start() -> Position {
        Position {
            pieces: Map::new(
                |sq: int| 0 <= sq < 16 || 48 <= sq < 64,
                |sq: int|
                    Piece {
                        color: if sq < 32 {
                            Color::White
                        } else {
                            Color::Black
                        },
                        kind: if 8 <= sq < 16 || 48 <= sq < 56 {
                            PieceType::Pawn
                        } else {
                            officer(file_of(sq))
                        },
                    },
            ),
            rights: CastlingRights {
                white_kingside: true,
                white_queenside: true,
                black_kingside: true,
                black_queenside: true,
            },
            en_passant: None,
        }
    }

    /// Every piece stands on the board, and the en-passant target, if there
    /// is one, is an empty square of the board.
    pub open spec fn wf(self) -> bool {
        &&& forall|sq: int| #[trigger] self.pieces.dom().contains(sq) ==> on_board(sq)
        &&& match self.en_passant {
            Some(e) => on_board(e) && !self.pieces.dom().contains(e),
            None => true,
        }
    }

    /// A piece stands on `sq`.
    pub open spec fn occupied(self, sq: int) -> bool {
        self.pieces.dom().contains(sq)
    }

    /// The piece on `sq`, if one stands there.
    pub open spec fn piece_at(self, sq: int) -> Option<Piece> {
        if self.occupied(sq) {
            Some(self.pieces[sq])
        } else {
            None
        }
    }

    /// A piece of side `c` stands on `sq`.
    pub open spec fn has_color(self, sq: int, c: Color) -> bool {
        self.occupied(sq) && self.pieces[sq].color == c
    }

    /// A piece of side `c` and kind `k` stands on `sq`.
    pub open spec fn has(self, sq: int, c: Color, k: PieceType) -> bool {
        self.occupied(sq) && self.pieces[sq].color == c && self.pieces[sq].kind == k
    }

    /// No piece stands strictly between `s` and `t` along direction `d`.
    pub open spec fn clear_between(self, d: Direction, s: int, t: int) -> bool {
        forall|u: int| #[trigger] on_ray(d, s, u) && on_ray(d, u, t) ==> !self.occupied(u)
    }

    /// A sliding piece on `s` reaches `t` along direction `d`: `t` lies on
    /// that ray and nothing stands in between.
    pub open spec fn slides(self, d: Direction, s: int, t: int) -> bool {
        on_ray(d, s, t) && self.clear_between(d, s, t)
    }

    /// A rook on `s` reaches `t`.
    pub open spec fn rook_line(self, s: int, t: int) -> bool {
        self.slides(Direction::North, s, t) || self.slides(Direction::South, s, t) || self.slides(
            Direction::East,
            s,
            t,
        ) || self.slides(Direction::West, s, t)
    }

    /// A bishop on `s` reaches `t`.
    pub open spec fn bishop_line(self, s: int, t: int) -> bool {
        self.slides(Direction::NorthEast, s, t) || self.slides(Direction::NorthWest, s, t)
            || self.slides(Direction::SouthEast, s, t) || self.slides(Direction::SouthWest, s, t)
    }

    /// `piece`, were it to stand on `s`, would attack the square `t`,
    /// whatever stands there.
    pub open spec fn strikes(self, piece: Piece, s: int, t: int) -> bool {
        match piece.kind {
            PieceType::Pawn => pawn_attack(piece.color, s, t),
            PieceType::Knight => knight_jump(s, t),
            PieceType::Bishop => self.bishop_line(s, t),
            PieceType::Rook => self.rook_line(s, t),
            PieceType::Queen => self.rook_line(s, t) || self.bishop_line(s, t),
            PieceType::King => king_step(s, t),
        }
    }

    /// The piece on `s` attacks the square `t`, whatever stands there.
    pub open spec fn attacks(self, s: int, t: int) -> bool {
        self.occupied(s) && self.strikes(self.pieces[s], s, t)
    }

    /// Some piece of side `c` attacks the square `t`.
    pub open spec fn attacked_by(self, t: int, c: Color) -> bool {
        exists|s: int| self.has_color(s, c) && #[trigger] self.attacks(s, t)
    }

    /// A king of side `c` stands on a square that the other side attacks.
    pub open spec fn in_check(self, c: Color) -> bool {
        exists|k: int| #[trigger]
            self.has(k, c, PieceType::King) && self.attacked_by(k, c.other())
    }

    /// A pawn of side `c` on `s` advances to `t`: one square onto an empty
    /// square, or two from its home rank over an empty square onto an empty
    /// square.
    pub open spec fn pawn_advance(self, c: Color, s: int, t: int) -> bool {
        let one = s + 8 * forward(c);
        let two = s + 16 * forward(c);
        on_board(t) && ((t == one && !self.occupied(one)) || (t == two && rank_of(s) == home_rank(
            c,
        ) && !self.occupied(one) && !self.occupied(two)))
    }

    /// A pawn of side `c` on `s` captures on `t`: diagonally forward, onto a
    /// piece of the other side or onto the en-passant target.
    pub open spec fn pawn_capture(self, c: Color, s: int, t: int) -> bool {
        pawn_attack(c, s, t) && (self.has_color(t, c.other()) || self.en_passant == Some(t))
    }

    /// The move obeys the movement rules for the piece of side `c` on its
    /// origin and the occupancy of the board. Whether it leaves the mover's
    /// king attacked is not considered, nor whether a castling move is
    /// allowed: a king move between a castling pair of squares is only
    /// marked as castling.
    pub open spec fn pseudo_legal(self, c: Color, m: Move) -> bool {
        let s = m.from as int;
        let t = m.to as int;
        &&& on_board(s)
        &&& on_board(t)
        &&& self.has_color(s, c)
        &&& !self.has_color(t, c)
        &&& match self.pieces[s].kind {
            PieceType::Pawn => {
                &&& !m.is_castling
                &&& self.pawn_advance(c, s, t) || self.pawn_capture(c, s, t)
                &&& if rank_of(t) == last_rank(c) {
                    m.promotion is Some && promotable(m.promotion->0)
                } else {
                    m.promotion is None
                }
            },
            PieceType::King => {
                &&& m.promotion is None
                &&& if castle_pair(s, t) {
                    m.is_castling
                } else {
                    !m.is_castling && king_step(s, t)
                }
            },
            _ => m.promotion is None && !m.is_castling && self.attacks(s, t),
        }
    }

    /// The move is pseudo-legal for side `c` and moves a piece of kind `k`.
    pub open spec fn pseudo_legal_of(self, c: Color, k: PieceType, m: Move) -> bool {
        self.pseudo_legal(c, m) && self.has(m.from as int, c, k)
    }

    /// The conditions under which side `c` may castle with the king move `m`:
    /// the king stands on its home square and goes to a castling square, the
    /// right for that wing is held, the rook stands in its corner, the squares
    /// between king and rook are empty, and the other side attacks neither
    /// the king's square nor the square it crosses nor the one it lands on.
    pub open spec fn castling_ok(self, c: Color, m: Move) -> bool {
        let s = m.from as int;
        let t = m.to as int;
        &&& s == king_home(c)
        &&& castle_pair(s, t)
        &&& self.rights.allows(c, t > s)
        &&& self.has(s, c, PieceType::King)
        &&& self.has(rook_origin(s, t), c, PieceType::Rook)
        &&& if t > s {
            !self.occupied(s + 1) && !self.occupied(s + 2)
        } else {
            !self.occupied(s - 1) && !self.occupied(s - 2) && !self.occupied(s - 3)
        }
        &&& !self.attacked_by(s, c.other())
        &&& !self.attacked_by(rook_target(s, t), c.other())
        &&& !self.attacked_by(t, c.other())
    }

    /// The move is a pawn's capture onto the en-passant target.
    pub open spec fn captures_in_passing(self, m: Move) -> bool {
        let s = m.from as int;
        let t = m.to as int;
        self.occupied(s) && self.pieces[s].kind == PieceType::Pawn && self.en_passant == Some(t)
            && file_of(s) != file_of(t)
    }

    /// The move is a king's move marked as castling between a castling pair.
    pub open spec fn castles(self, m: Move) -> bool {
        let s = m.from as int;
        let t = m.to as int;
        m.is_castling && self.occupied(s) && self.pieces[s].kind == PieceType::King && castle_pair(
            s,
            t,
        )
    }

    /// The move names two squares of the board, and a piece stands on its
    /// origin.
    pub open spec fn movable(self, m: Move) -> bool {
        on_board(m.from as int) && on_board(m.to as int) && self.occupied(m.from as int)
    }

    /// The position after the piece on the move's origin has been moved.
    ///
    /// The origin is emptied and the destination holds the mover, or the
    /// piece it promotes to; a piece that stood there is gone. A capture in
    /// passing also empties the square behind the destination; castling also
    /// takes the rook from its corner to the square the king crossed. A
    /// castling right is lost when the king's or rook's home square is left
    /// or entered. The en-passant target is the square a pawn skipped in a
    /// double step, and none after any other move.
    ///
    /// A move whose squares are off the board or whose origin is empty leaves
    /// the position as it is.
    pub open spec fn after_move(self, m: Move) -> Position {
        let s = m.from as int;
        let t = m.to as int;
        if !self.movable(m) {
            self
        } else {
            let mover = self.pieces[s];
            let placed = Piece {
                color: mover.color,
                kind: if mover.kind == PieceType::Pawn && m.promotion is Some {
                    m.promotion->0
                } else {
                    mover.kind
                },
            };
            let lifted = if self.captures_in_passing(m) {
                self.pieces.remove(s).remove(t - 8 * forward(mover.color))
            } else {
                self.pieces.remove(s)
            };
            let landed = lifted.insert(t, placed);
            let pieces = if self.castles(m) {
                landed.remove(rook_origin(s, t)).insert(
                    rook_target(s, t),
                    Piece { color: mover.color, kind: PieceType::Rook },
                )
            } else {
                landed
            };
            let skipped = (s + t) / 2;
            Position {
                pieces,
                rights: self.rights.after(s, t),
                en_passant: if mover.kind == PieceType::Pawn && (t - s == 16 || s - t == 16)
                    && !self.occupied(skipped) {
                    Some(skipped)
                } else {
                    None
                },
            }
        }
    }

    /// The move leaves the king of side `c` safe: a castling move meets the
    /// castling conditions, and after the move no king of side `c` is
    /// attacked.
    pub open spec fn keeps_king_safe(self, c: Color, m: Move) -> bool {
        &&& m.is_castling ==> self.castling_ok(c, m)
        &&& !self.after_move(m).in_check(c)
    }

    /// Side `c` may play `m`: the move is pseudo-legal and leaves the king of
    /// side `c` safe.
    pub open spec fn legal(self, c: Color, m: Move) -> bool {
        self.pseudo_legal(c, m) && self.keeps_king_safe(c, m)
    }

    /// The side whose piece stands on the move's origin may play the move.
    pub open spec fn legal_move(self, m: Move) -> bool {
        self.occupied(m.from as int) && self.legal(self.pieces[m.from as int].color, m)
    }

    /// Side `c` has at least one legal move.
    pub open spec fn can_move(self, c: Color) -> bool {
        exists|m: Move| #[trigger] self.legal(c, m)
    }

    /// The state of side `c`, which is to move.
    pub open spec fn status(self, c: Color) -> GameStatus {
        if self.in_check(c) {
            if self.can_move(c) {
                GameStatus::Check
            } else {
                GameStatus::Checkmate
            }
        } else {
            if self.can_move(c) {
                GameStatus::Normal
            } else {
                GameStatus::Stalemate
            }
        }
    }
}

/// A slider reaches `t` from `s` exactly when it reaches `s` from `t` in the
/// opposite direction.
pub proof fn lemma_slides_back(p: Position, d: Direction, s: int, t: int)
    ensures
        p.slides(d, s, t) == p.slides(d.reverse(), t, s),
{
    lemma_ray_reverse(d, s, t);
    if p.slides(d, s, t) {
        assert forall|u: int| #[trigger]
            on_ray(d.reverse(), t, u) && on_ray(d.reverse(), u, s) implies !p.occupied(u) by {
            lemma_ray_reverse(d, u, t);
            lemma_ray_reverse(d, s, u);
            assert(on_ray(d, s, u));
        }
    }
    if p.slides(d.reverse(), t, s) {
        assert forall|u: int| #[trigger] on_ray(d, s, u) && on_ray(d, u, t) implies !p.occupied(
            u,
        ) by {
            lemma_ray_reverse(d, u, t);
            lemma_ray_reverse(d, s, u);
            assert(on_ray(d.reverse(), t, u));
        }
    }
}

/// A piece of one side on `s` attacks `t` exactly when a piece of the same
/// kind and the other side on `t` would attack `s`.
pub proof fn lemma_strikes_back(p: Position, c: Color, k: PieceType, s: int, t: int)
    ensures
        p.strikes(Piece { color: c, kind: k }, s, t) == p.strikes(
            Piece { color: c.other(), kind: k },
            t,
            s,
        ),
{
    lemma_leaps_symmetric(s, t);
    lemma_leaps_symmetric(t, s);
    lemma_slides_back(p, Direction::North, s, t);
    lemma_slides_back(p, Direction::South, s, t);
    lemma_slides_back(p, Direction::East, s, t);
    lemma_slides_back(p, Direction::West, s, t);
    lemma_slides_back(p, Direction::NorthEast, s, t);
    lemma_slides_back(p, Direction::NorthWest, s, t);
    lemma_slides_back(p, Direction::SouthEast, s, t);
    lemma_slides_back(p, Direction::SouthWest, s, t);
}

/// Moving a piece keeps a position well formed.
pub proof fn lemma_after_move_wf(p: Position, m: Move)
    requires
        p.wf(),
    ensures
        p.after_move(m).wf(),
{
}

} // verus!
