use vstd::prelude::*;
use crate::types::Color;
use crate::types::PieceType;
use crate::types::Piece;
use crate::types::CastlingRights;
use crate::bitboard::holds;
use crate::bitboard::lemma_holds_or;
use crate::bitboard::lemma_holds_empty;
use crate::bitboard::lemma_holds_range;
use crate::bitboard::lemma_holds_or6;
use crate::bitboard::lemma_start_squares;
use crate::bitboard::without;
use crate::bitboard::lowest;
use crate::bitboard::contains;
use crate::bitboard::single;
use crate::geometry::on_board;
use crate::geometry::forward;
use crate::position::rook_origin;
use crate::position::rook_target;
use crate::position::Position;
use crate::move_::Move;

verus! {

/// A chess position stored as twelve bitboards, one for each side and kind
/// of piece, with the castling rights and the en-passant target.
///
/// No square belongs to two of the bitboards, and the en-passant target, if
/// there is one, is an empty square.
#[derive(Clone, Copy, Debug)]
pub struct Board {
    white_pawns: u64,
    white_knights: u64,
    white_bishops: u64,
    white_rooks: u64,
    white_queen: u64,
    white_king: u64,
    black_pawns: u64,
    black_knights: u64,
    black_bishops: u64,
    black_rooks: u64,
    black_queen: u64,
    black_king: u64,
    castling: CastlingRights,
    en_passant_square: Option<u8>,
}

impl Board {
    /// The bitboard of the pieces of side `c` and kind `k`.
    pub closed spec fn bb(&self, c: Color, k: PieceType) -> u64 {
        match c {
            Color::White => match k {
                PieceType::Pawn => self.white_pawns,
                PieceType::Knight => self.white_knights,
                PieceType::Bishop => self.white_bishops,
                PieceType::Rook => self.white_rooks,
                PieceType::Queen => self.white_queen,
                PieceType::King => self.white_king,
            },
            Color::Black => match k {
                PieceType::Pawn => self.black_pawns,
                PieceType::Knight => self.black_knights,
                PieceType::Bishop => self.black_bishops,
                PieceType::Rook => self.black_rooks,
                PieceType::Queen => self.black_queen,
                PieceType::King => self.black_king,
            },
        }
    }

    /// Some bitboard has `sq` as a member.
    pub closed spec fn covers(&self, sq: int) -> bool {
        holds(self.white_pawns, sq) || holds(self.white_knights, sq) || holds(
            self.white_bishops,
            sq,
        ) || holds(self.white_rooks, sq) || holds(self.white_queen, sq) || holds(
            self.white_king,
            sq,
        ) || holds(self.black_pawns, sq) || holds(self.black_knights, sq) || holds(
            self.black_bishops,
            sq,
        ) || holds(self.black_rooks, sq) || holds(self.black_queen, sq) || holds(
            self.black_king,
            sq,
        )
    }

    /// The piece that the first bitboard with `sq` as a member stands for.
    pub closed spec fn piece_on(&self, sq: int) -> Piece {
        if holds(self.white_pawns, sq) {
            Piece { color: Color::White, kind: PieceType::Pawn }
        } else if holds(self.white_knights, sq) {
            Piece { color: Color::White, kind: PieceType::Knight }
        } else if holds(self.white_bishops, sq) {
            Piece { color: Color::White, kind: PieceType::Bishop }
        } else if holds(self.white_rooks, sq) {
            Piece { color: Color::White, kind: PieceType::Rook }
        } else if holds(self.white_queen, sq) {
            Piece { color: Color::White, kind: PieceType::Queen }
        } else if holds(self.white_king, sq) {
            Piece { color: Color::White, kind: PieceType::King }
        } else if holds(self.black_pawns, sq) {
            Piece { color: Color::Black, kind: PieceType::Pawn }
        } else if holds(self.black_knights, sq) {
            Piece { color: Color::Black, kind: PieceType::Knight }
        } else if holds(self.black_bishops, sq) {
            Piece { color: Color::Black, kind: PieceType::Bishop }
        } else if holds(self.black_rooks, sq) {
            Piece { color: Color::Black, kind: PieceType::Rook }
        } else if holds(self.black_queen, sq) {
            Piece { color: Color::Black, kind: PieceType::Queen }
        } else {
            Piece { color: Color::Black, kind: PieceType::King }
        }
    }

    /// The position that the board stores.
    pub closed spec fn view(&self) -> Position {
        Position {
            pieces: Map::new(|sq: int| self.covers(sq), |sq: int| self.piece_on(sq)),
            rights: self.castling,
            en_passant: match self.en_passant_square {
                Some(e) => Some(e as int),
                None => None,
            },
        }
    }

    /// No square is a member of two bitboards.
    pub closed spec fn apart(&self) -> bool {
        forall|sq: int, c: Color, k: PieceType| #[trigger]
            holds(self.bb(c, k), sq) ==> self.piece_on(sq) == (Piece { color: c, kind: k })
    }

    #[verifier::type_invariant]
    pub closed spec fn inv(&self) -> bool {
        &&& self.apart()
        &&& match self.en_passant_square {
            Some(e) => e < 64 && !self.covers(e as int),
            None => true,
        }
    }

    /// What the bitboards say of a square is what the stored position says.
    proof fn lemma_model(&self, sq: int, c: Color, k: PieceType)
        requires
            self.apart(),
        ensures
            self@.has(sq, c, k) == holds(self.bb(c, k), sq),
            self@.occupied(sq) == self.covers(sq),
            self@.has(sq, c, k) ==> on_board(sq),
    {
        lemma_holds_range(self.bb(c, k), sq);
        assert(self.bb(Color::White, PieceType::Pawn) == self.white_pawns);
        assert(self.bb(Color::White, PieceType::Knight) == self.white_knights);
        assert(self.bb(Color::White, PieceType::Bishop) == self.white_bishops);
        assert(self.bb(Color::White, PieceType::Rook) == self.white_rooks);
        assert(self.bb(Color::White, PieceType::Queen) == self.white_queen);
        assert(self.bb(Color::White, PieceType::King) == self.white_king);
        assert(self.bb(Color::Black, PieceType::Pawn) == self.black_pawns);
        assert(self.bb(Color::Black, PieceType::Knight) == self.black_knights);
        assert(self.bb(Color::Black, PieceType::Bishop) == self.black_bishops);
        assert(self.bb(Color::Black, PieceType::Rook) == self.black_rooks);
        assert(self.bb(Color::Black, PieceType::Queen) == self.black_queen);
        assert(self.bb(Color::Black, PieceType::King) == self.black_king);
    }

    /// The board with the given bitboards, rights and en-passant target.
    closed spec fn assemble(b: [u64; 12], castling: CastlingRights, ep: Option<u8>) -> Board {
        Board {
            white_pawns: b[0],
            white_knights: b[1],
            white_bishops: b[2],
            white_rooks: b[3],
            white_queen: b[4],
            white_king: b[5],
            black_pawns: b[6],
            black_knights: b[7],
            black_bishops: b[8],
            black_rooks: b[9],
            black_queen: b[10],
            black_king: b[11],
            castling,
            en_passant_square: ep,
        }
    }

    fn build(b: [u64; 12], castling: CastlingRights, ep: Option<u8>) -> (r: Board)
        requires
            Self::assemble(b, castling, ep).inv(),
        ensures
            r == Self::assemble(b, castling, ep),
    {
        Board {
            white_pawns: b[0],
            white_knights: b[1],
            white_bishops: b[2],
            white_rooks: b[3],
            white_queen: b[4],
            white_king: b[5],
            black_pawns: b[6],
            black_knights: b[7],
            black_bishops: b[8],
            black_rooks: b[9],
            black_queen: b[10],
            black_king: b[11],
            castling,
            en_passant_square: ep,
        }
    }

    /// The position from which a game starts.
    pub fn new() -> (b: Self)
        ensures
            b@ == Position::start(),
    {
        let parts: [u64; 12] = [
            0x000000000000FF00,
            0x0000000000000042,
            0x0000000000000024,
            0x0000000000000081,
            0x0000000000000008,
            0x0000000000000010,
            0x00FF000000000000,
            0x4200000000000000,
            0x2400000000000000,
            0x8100000000000000,
            0x0800000000000000,
            0x1000000000000000,
        ];
        let castling = CastlingRights {
            white_kingside: true,
            white_queenside: true,
            black_kingside: true,
            black_queenside: true,
        };
        proof {
            let start = Self::assemble(parts, castling, None);
            assert forall|sq: int| #[trigger] start.covers(sq) == (0 <= sq < 16 || 48 <= sq < 64) by {
                lemma_start_squares(sq);
            }
            assert forall|sq: int| start.covers(sq) implies #[trigger] start.piece_on(sq)
                == Position::start().pieces[sq] by {
                lemma_start_squares(sq);
            }
            assert forall|sq: int, c: Color, k: PieceType| #[trigger]
                holds(start.bb(c, k), sq) implies start.piece_on(sq) == (Piece {
                color: c,
                kind: k,
            }) by {
                lemma_start_squares(sq);
            }
            assert(start@.pieces =~= Position::start().pieces);
        }
        Self::build(parts, castling, None)
    }

    /// The squares on which side `c` has a piece of kind `k`.
    pub fn pieces(&self, c: Color, k: PieceType) -> (b: u64)
        ensures
            forall|sq: int| #[trigger] holds(b, sq) == self@.has(sq, c, k),
    {
        let b: u64 = match c {
            Color::White => match k {
                PieceType::Pawn => self.white_pawns,
                PieceType::Knight => self.white_knights,
                PieceType::Bishop => self.white_bishops,
                PieceType::Rook => self.white_rooks,
                PieceType::Queen => self.white_queen,
                PieceType::King => self.white_king,
            },
            Color::Black => match k {
                PieceType::Pawn => self.black_pawns,
                PieceType::Knight => self.black_knights,
                PieceType::Bishop => self.black_bishops,
                PieceType::Rook => self.black_rooks,
                PieceType::Queen => self.black_queen,
                PieceType::King => self.black_king,
            },
        };
        proof {
            use_type_invariant(self);
            assert(b == self.bb(c, k));
            assert forall|sq: int| #[trigger] holds(b, sq) == self@.has(sq, c, k) by {
                self.lemma_model(sq, c, k);
            }
        }
        b
    }

    proof fn lemma_side(&self, sq: int, c: Color)
        requires
            self.apart(),
        ensures
            self@.has_color(sq, c) == (holds(self.bb(c, PieceType::Pawn), sq) || holds(
                self.bb(c, PieceType::Rook),
                sq,
            ) || holds(self.bb(c, PieceType::Knight), sq) || holds(
                self.bb(c, PieceType::Bishop),
                sq,
            ) || holds(self.bb(c, PieceType::Queen), sq) || holds(
                self.bb(c, PieceType::King),
                sq,
            )),
    {
        self.lemma_model(sq, c, PieceType::Pawn);
        self.lemma_model(sq, c, PieceType::Rook);
        self.lemma_model(sq, c, PieceType::Knight);
        self.lemma_model(sq, c, PieceType::Bishop);
        self.lemma_model(sq, c, PieceType::Queen);
        self.lemma_model(sq, c, PieceType::King);
    }

    /// The squares on which White has a piece.
    pub fn white_pieces(&self) -> (b: u64)
        ensures
            forall|sq: int| #[trigger] holds(b, sq) == self@.has_color(sq, Color::White),
    {
        let b: u64 = self.white_pawns | self.white_rooks | self.white_knights | self.white_bishops
            | self.white_queen | self.white_king;
        proof {
            use_type_invariant(self);
            assert forall|sq: int| #[trigger] holds(b, sq) == self@.has_color(sq, Color::White) by {
                lemma_holds_or6(
                    self.white_pawns,
                    self.white_rooks,
                    self.white_knights,
                    self.white_bishops,
                    self.white_queen,
                    self.white_king,
                    sq,
                );
                self.lemma_side(sq, Color::White);
            }
        }
        b
    }

    /// The squares on which Black has a piece.
    pub fn black_pieces(&self) -> (b: u64)
        ensures
            forall|sq: int| #[trigger] holds(b, sq) == self@.has_color(sq, Color::Black),
    {
        let b: u64 = self.black_pawns | self.black_rooks | self.black_knights | self.black_bishops
            | self.black_queen | self.black_king;
        proof {
            use_type_invariant(self);
            assert forall|sq: int| #[trigger] holds(b, sq) == self@.has_color(sq, Color::Black) by {
                lemma_holds_or6(
                    self.black_pawns,
                    self.black_rooks,
                    self.black_knights,
                    self.black_bishops,
                    self.black_queen,
                    self.black_king,
                    sq,
                );
                self.lemma_side(sq, Color::Black);
            }
        }
        b
    }

    /// The squares on which side `c` has a piece.
    pub fn side(&self, c: Color) -> (b: u64)
        ensures
            forall|sq: int| #[trigger] holds(b, sq) == self@.has_color(sq, c),
    {
        match c {
            Color::White => self.white_pieces(),
            Color::Black => self.black_pieces(),
        }
    }

    /// The squares on which a piece stands.
    pub fn all_pieces(&self) -> (b: u64)
        ensures
            forall|sq: int| #[trigger] holds(b, sq) == self@.occupied(sq),
            forall|sq: int| #[trigger] self@.occupied(sq) ==> on_board(sq),
            self@.wf(),
    {
        let w: u64 = self.white_pieces();
        let k: u64 = self.black_pieces();
        let b: u64 = w | k;
        proof {
            assert forall|sq: int| #[trigger] holds(b, sq) == self@.occupied(sq) by {
                lemma_holds_or(w, k, sq);
                assert(holds(w, sq) == self@.has_color(sq, Color::White));
                assert(holds(k, sq) == self@.has_color(sq, Color::Black));
            }
            assert forall|sq: int| #[trigger] self@.occupied(sq) implies on_board(sq) by {
                assert(holds(b, sq));
                lemma_holds_range(b, sq);
            }
            use_type_invariant(self);
            assert forall|sq: int| #[trigger] self@.pieces.dom().contains(sq) implies on_board(
                sq,
            ) by {
                assert(self@.occupied(sq));
            }
        }
        b
    }

    /// The square of the king of side `c`; of its kings, the one on the
    /// square with the lowest number. None where the side has no king.
    pub fn king_square(&self, c: Color) -> (r: Option<u8>)
        ensures
            match r {
                Some(k) => k < 64 && self@.has(k as int, c, PieceType::King) && forall|s: int|
                    #[trigger] self@.has(s, c, PieceType::King) ==> k <= s,
                None => forall|s: int| !#[trigger] self@.has(s, c, PieceType::King),
            },
    {
        let kings: u64 = self.pieces(c, PieceType::King);
        if kings == 0 {
            proof {
                assert forall|s: int| !#[trigger] self@.has(s, c, PieceType::King) by {
                    lemma_holds_empty(s);
                    assert(holds(kings, s) == self@.has(s, c, PieceType::King));
                }
            }
            None
        } else {
            let k: u8 = lowest(kings);
            proof {
                assert(holds(kings, k as int));
                assert forall|s: int| #[trigger] self@.has(s, c, PieceType::King) implies k <= s by {
                    assert(holds(kings, s));
                }
            }
            Some(k)
        }
    }

    /// The castling rights.
    pub fn castling_rights(&self) -> (r: CastlingRights)
        ensures
            r == self@.rights,
    {
        self.castling
    }

    /// The en-passant target, which is an empty square of the board.
    pub fn en_passant_square(&self) -> (r: Option<u8>)
        ensures
            match r {
                Some(e) => self@.en_passant == Some(e as int) && e < 64 && !self@.occupied(
                    e as int,
                ),
                None => self@.en_passant is None,
            },
    {
        proof {
            use_type_invariant(self);
        }
        self.en_passant_square
    }

    /// The piece on a square, if there is one; none off the board.
    pub fn piece_at(&self, sq: u8) -> (r: Option<Piece>)
        ensures
            r == self@.piece_at(sq as int),
    {
        if sq >= 64 {
            proof {
                lemma_holds_range(self.white_pawns, sq as int);
                lemma_holds_range(self.white_knights, sq as int);
                lemma_holds_range(self.white_bishops, sq as int);
                lemma_holds_range(self.white_rooks, sq as int);
                lemma_holds_range(self.white_queen, sq as int);
                lemma_holds_range(self.white_king, sq as int);
                lemma_holds_range(self.black_pawns, sq as int);
                lemma_holds_range(self.black_knights, sq as int);
                lemma_holds_range(self.black_bishops, sq as int);
                lemma_holds_range(self.black_rooks, sq as int);
                lemma_holds_range(self.black_queen, sq as int);
                lemma_holds_range(self.black_king, sq as int);
            }
            return None;
        }
        if contains(self.white_pawns, sq) {
            Some(Piece { color: Color::White, kind: PieceType::Pawn })
        } else if contains(self.white_knights, sq) {
            Some(Piece { color: Color::White, kind: PieceType::Knight })
        } else if contains(self.white_bishops, sq) {
            Some(Piece { color: Color::White, kind: PieceType::Bishop })
        } else if contains(self.white_rooks, sq) {
            Some(Piece { color: Color::White, kind: PieceType::Rook })
        } else if contains(self.white_queen, sq) {
            Some(Piece { color: Color::White, kind: PieceType::Queen })
        } else if contains(self.white_king, sq) {
            Some(Piece { color: Color::White, kind: PieceType::King })
        } else if contains(self.black_pawns, sq) {
            Some(Piece { color: Color::Black, kind: PieceType::Pawn })
        } else if contains(self.black_knights, sq) {
            Some(Piece { color: Color::Black, kind: PieceType::Knight })
        } else if contains(self.black_bishops, sq) {
            Some(Piece { color: Color::Black, kind: PieceType::Bishop })
        } else if contains(self.black_rooks, sq) {
            Some(Piece { color: Color::Black, kind: PieceType::Rook })
        } else if contains(self.black_queen, sq) {
            Some(Piece { color: Color::Black, kind: PieceType::Queen })
        } else if contains(self.black_king, sq) {
            Some(Piece { color: Color::Black, kind: PieceType::King })
        } else {
            None
        }
    }

    fn parts(&self) -> (b: [u64; 12])
        ensures
            *self == Self::assemble(b, self.castling, self.en_passant_square),
    {
        [
            self.white_pawns,
            self.white_knights,
            self.white_bishops,
            self.white_rooks,
            self.white_queen,
            self.white_king,
            self.black_pawns,
            self.black_knights,
            self.black_bishops,
            self.black_rooks,
            self.black_queen,
            self.black_king,
        ]
    }

    /// The board without the piece on `sq`, if there is one.
    fn remove(&self, sq: u8) -> (r: Board)
        requires
            sq < 64,
        ensures
            r@.pieces == self@.pieces.remove(sq as int),
            r@.rights == self@.rights,
            r@.en_passant == self@.en_passant,
    {
        let old: [u64; 12] = self.parts();
        let new: [u64; 12] = [
            without(old[0], sq),
            without(old[1], sq),
            without(old[2], sq),
            without(old[3], sq),
            without(old[4], sq),
            without(old[5], sq),
            without(old[6], sq),
            without(old[7], sq),
            without(old[8], sq),
            without(old[9], sq),
            without(old[10], sq),
            without(old[11], sq),
        ];
        proof {
            use_type_invariant(self);
            let r = Self::assemble(new, self.castling, self.en_passant_square);
            assert forall|x: int| #[trigger] r.covers(x) == (self.covers(x) && x != sq) by {}
            assert forall|x: int| x != sq implies #[trigger] r.piece_on(x) == self.piece_on(x) by {}
            assert forall|x: int, c: Color, k: PieceType| #[trigger]
                holds(r.bb(c, k), x) implies r.piece_on(x) == (Piece { color: c, kind: k }) by {
                assert(holds(self.bb(c, k), x));
            }
            assert(r@.pieces =~= self@.pieces.remove(sq as int));
        }
        Self::build(new, self.castling, self.en_passant_square)
    }

    /// The board with `piece` on the empty square `sq`.
    fn put(&self, sq: u8, piece: Piece) -> (r: Board)
        requires
            sq < 64,
            !self@.occupied(sq as int),
            self@.en_passant != Some(sq as int),
        ensures
            r@.pieces == self@.pieces.insert(sq as int, piece),
            r@.rights == self@.rights,
            r@.en_passant == self@.en_passant,
    {
        let old: [u64; 12] = self.parts();
        let bit: u64 = single(sq);
        let white: bool = piece.color == Color::White;
        let new: [u64; 12] = [
            old[0] | (if white && piece.kind == PieceType::Pawn { bit } else { 0 }),
            old[1] | (if white && piece.kind == PieceType::Knight { bit } else { 0 }),
            old[2] | (if white && piece.kind == PieceType::Bishop { bit } else { 0 }),
            old[3] | (if white && piece.kind == PieceType::Rook { bit } else { 0 }),
            old[4] | (if white && piece.kind == PieceType::Queen { bit } else { 0 }),
            old[5] | (if white && piece.kind == PieceType::King { bit } else { 0 }),
            old[6] | (if !white && piece.kind == PieceType::Pawn { bit } else { 0 }),
            old[7] | (if !white && piece.kind == PieceType::Knight { bit } else { 0 }),
            old[8] | (if !white && piece.kind == PieceType::Bishop { bit } else { 0 }),
            old[9] | (if !white && piece.kind == PieceType::Rook { bit } else { 0 }),
            old[10] | (if !white && piece.kind == PieceType::Queen { bit } else { 0 }),
            old[11] | (if !white && piece.kind == PieceType::King { bit } else { 0 }),
        ];
        proof {
            use_type_invariant(self);
            let r = Self::assemble(new, self.castling, self.en_passant_square);
            self.lemma_model(sq as int, piece.color, piece.kind);
            assert forall|x: int, c: Color, k: PieceType| #[trigger]
                holds(r.bb(c, k), x) == (holds(self.bb(c, k), x) || (x == sq && c == piece.color
                    && k == piece.kind)) by {
                lemma_holds_or(self.bb(c, k), bit, x);
                lemma_holds_or(self.bb(c, k), 0, x);
                lemma_holds_empty(x);
            }
            assert forall|x: int| #[trigger] r.covers(x) == (self.covers(x) || x == sq) by {
                Self::lemma_each(r, *self, x, sq as int, piece);
            }
            assert forall|x: int| x != sq implies #[trigger] r.piece_on(x) == self.piece_on(x) by {
                Self::lemma_each(r, *self, x, sq as int, piece);
            }
            assert(r.piece_on(sq as int) == piece) by {
                Self::lemma_each(r, *self, sq as int, sq as int, piece);
            }
            assert forall|x: int, c: Color, k: PieceType| #[trigger]
                holds(r.bb(c, k), x) implies r.piece_on(x) == (Piece { color: c, kind: k }) by {
                if x != sq {
                    assert(holds(self.bb(c, k), x));
                } else {
                    self.lemma_model(sq as int, c, k);
                }
            }
            assert(r@.pieces =~= self@.pieces.insert(sq as int, piece));
        }
        Self::build(new, self.castling, self.en_passant_square)
    }

    /// Spells out, bitboard by bitboard, what `put` changes.
    proof fn lemma_each(r: Board, b: Board, x: int, sq: int, piece: Piece)
        requires
            forall|c: Color, k: PieceType| #[trigger]
                holds(r.bb(c, k), x) == (holds(b.bb(c, k), x) || (x == sq && c == piece.color && k
                    == piece.kind)),
            !b.covers(sq),
        ensures
            r.covers(x) == (b.covers(x) || x == sq),
            x != sq ==> r.piece_on(x) == b.piece_on(x),
            x == sq ==> r.piece_on(x) == piece,
    {
        assert(r.bb(Color::White, PieceType::Pawn) == r.white_pawns);
        assert(r.bb(Color::White, PieceType::Knight) == r.white_knights);
        assert(r.bb(Color::White, PieceType::Bishop) == r.white_bishops);
        assert(r.bb(Color::White, PieceType::Rook) == r.white_rooks);
        assert(r.bb(Color::White, PieceType::Queen) == r.white_queen);
        assert(r.bb(Color::White, PieceType::King) == r.white_king);
        assert(r.bb(Color::Black, PieceType::Pawn) == r.black_pawns);
        assert(r.bb(Color::Black, PieceType::Knight) == r.black_knights);
        assert(r.bb(Color::Black, PieceType::Bishop) == r.black_bishops);
        assert(r.bb(Color::Black, PieceType::Rook) == r.black_rooks);
        assert(r.bb(Color::Black, PieceType::Queen) == r.black_queen);
        assert(r.bb(Color::Black, PieceType::King) == r.black_king);
        assert(b.bb(Color::White, PieceType::Pawn) == b.white_pawns);
        assert(b.bb(Color::White, PieceType::Knight) == b.white_knights);
        assert(b.bb(Color::White, PieceType::Bishop) == b.white_bishops);
        assert(b.bb(Color::White, PieceType::Rook) == b.white_rooks);
        assert(b.bb(Color::White, PieceType::Queen) == b.white_queen);
        assert(b.bb(Color::White, PieceType::King) == b.white_king);
        assert(b.bb(Color::Black, PieceType::Pawn) == b.black_pawns);
        assert(b.bb(Color::Black, PieceType::Knight) == b.black_knights);
        assert(b.bb(Color::Black, PieceType::Bishop) == b.black_bishops);
        assert(b.bb(Color::Black, PieceType::Rook) == b.black_rooks);
        assert(b.bb(Color::Black, PieceType::Queen) == b.black_queen);
        assert(b.bb(Color::Black, PieceType::King) == b.black_king);
    }

    /// The board with other castling rights and another en-passant target.
    fn with_state(&self, rights: CastlingRights, target: Option<u8>) -> (r: Board)
        requires
            target matches Some(e) ==> e < 64 && !self@.occupied(e as int),
        ensures
            r@.pieces == self@.pieces,
            r@.rights == rights,
            r@.en_passant == (match target {
                Some(e) => Some(e as int),
                None => None,
            }),
    {
        let old: [u64; 12] = self.parts();
        proof {
            use_type_invariant(self);
            let r = Self::assemble(old, rights, target);
            assert forall|x: int| #[trigger] r.covers(x) == self.covers(x) by {}
            assert forall|x: int| #[trigger] r.piece_on(x) == self.piece_on(x) by {}
            assert forall|x: int, c: Color, k: PieceType| #[trigger]
                holds(r.bb(c, k), x) implies r.piece_on(x) == (Piece { color: c, kind: k }) by {
                assert(holds(self.bb(c, k), x));
            }
            assert(r@.pieces =~= self@.pieces);
        }
        Self::build(old, rights, target)
    }

    /// Whether the move is a pawn's capture onto the en-passant target.
    pub fn captures_in_passing(&self, m: &Move) -> (r: bool)
        ensures
            r == self@.captures_in_passing(*m),
    {
        match self.piece_at(m.from) {
            Some(piece) => match self.en_passant_square() {
                Some(target) => piece.kind == PieceType::Pawn && target == m.to && m.from % 8
                    != m.to % 8,
                None => false,
            },
            None => false,
        }
    }

    /// Moves the piece on the move's origin, as `Position::after_move` says.
    /// There is no result for a move that names a square off the board or
    /// whose origin is empty.
    pub fn make_move(&self, m: &Move) -> (r: Option<Board>)
        ensures
            r is Some <==> self@.movable(*m),
            r matches Some(b) ==> b@ == self@.after_move(*m),
    {
        let s: u8 = m.from;
        let t: u8 = m.to;
        if s >= 64 || t >= 64 {
            return None;
        }
        match self.piece_at(s) {
            None => None,
            Some(mover) => {
                let all: u64 = self.all_pieces();
                let pawn: bool = mover.kind == PieceType::Pawn;
                let placed = Piece {
                    color: mover.color,
                    kind: match m.promotion {
                        Some(k) => if pawn {
                            k
                        } else {
                            mover.kind
                        },
                        None => mover.kind,
                    },
                };
                let in_passing: bool = self.captures_in_passing(m);
                let castles: bool = m.is_castling && mover.kind == PieceType::King && ((s == 4 && (t
                    == 2 || t == 6)) || (s == 60 && (t == 58 || t == 62)));
                let skipped: u8 = (s + t) / 2;
                let double: bool = pawn && (t == s + 16 || s == t + 16) && !contains(all, skipped);
                let rights = self.castling_rights().updated(s, t);
                let mut b: Board = self.with_state(rights, None);
                b = b.remove(s);
                if in_passing {
                    match mover.color {
                        Color::White => if t >= 8 {
                            b = b.remove(t - 8);
                        } else {
                            assert(!self@.occupied(t - 8));
                        },
                        Color::Black => if t < 56 {
                            b = b.remove(t + 8);
                        } else {
                            assert(!self@.occupied(t + 8));
                        },
                    }
                }
                let ghost lifted = if self@.captures_in_passing(*m) {
                    self@.pieces.remove(s as int).remove(t - 8 * forward(mover.color))
                } else {
                    self@.pieces.remove(s as int)
                };
                assert(b@.pieces =~= lifted);
                b = b.remove(t);
                b = b.put(t, placed);
                let ghost landed = lifted.insert(t as int, placed);
                assert(b@.pieces =~= landed);
                assert(castles == self@.castles(*m));
                if castles {
                    let rook_from: u8 = if t > s {
                        s + 3
                    } else {
                        s - 4
                    };
                    let rook_to: u8 = if t > s {
                        s + 1
                    } else {
                        s - 1
                    };
                    b = b.remove(rook_from);
                    b = b.remove(rook_to);
                    b = b.put(rook_to, Piece { color: mover.color, kind: PieceType::Rook });
                    assert(rook_from == rook_origin(s as int, t as int));
                    assert(rook_to == rook_target(s as int, t as int));
                    assert(b@.pieces =~= landed.remove(rook_from as int).insert(
                        rook_to as int,
                        Piece { color: mover.color, kind: PieceType::Rook },
                    ));
                }
                if double {
                    b = b.with_state(rights, Some(skipped));
                }
                proof {
                    assert(b@.pieces =~= self@.after_move(*m).pieces);
                }
                Some(b)
            },
        }
    }

    /// The board without any piece, castling right or en-passant target.
    pub fn empty() -> (b: Self)
        ensures
            b@.pieces == Map::<int, Piece>::empty(),
            b@.rights == (CastlingRights {
                white_kingside: false,
                white_queenside: false,
                black_kingside: false,
                black_queenside: false,
            }),
            b@.en_passant is None,
    {
        let parts: [u64; 12] = [0, 0, 0, 0, 0, 0, 0, 0, 0, 0, 0, 0];
        let castling = CastlingRights {
            white_kingside: false,
            white_queenside: false,
            black_kingside: false,
            black_queenside: false,
        };
        proof {
            let b = Self::assemble(parts, castling, None);
            assert forall|sq: int| !#[trigger] b.covers(sq) by {
                lemma_holds_empty(sq);
            }
            assert forall|sq: int, c: Color, k: PieceType| !#[trigger] holds(b.bb(c, k), sq) by {
                lemma_holds_empty(sq);
            }
            assert(b@.pieces =~= Map::<int, Piece>::empty());
        }
        Self::build(parts, castling, None)
    }

    /// The board with `piece` added on `sq`, where `sq` is an empty square of
    /// the board other than the en-passant target; none otherwise.
    pub fn with_piece(&self, sq: u8, piece: Piece) -> (r: Option<Board>)
        ensures
            r is Some <==> (sq < 64 && !self@.occupied(sq as int) && self@.en_passant != Some(
                sq as int,
            )),
            r matches Some(b) ==> b@ == (Position {
                pieces: self@.pieces.insert(sq as int, piece),
                ..self@
            }),
    {
        if sq >= 64 {
            return None;
        }
        let all: u64 = self.all_pieces();
        if contains(all, sq) {
            return None;
        }
        match self.en_passant_square() {
            Some(e) => if e == sq {
                return None;
            },
            None => {},
        }
        Some(self.put(sq, piece))
    }

    /// The board without the piece on `sq`, if there is one.
    pub fn without_piece(&self, sq: u8) -> (b: Board)
        ensures
            b@ == (Position { pieces: self@.pieces.remove(sq as int), ..self@ }),
    {
        if sq >= 64 {
            let all: u64 = self.all_pieces();
            proof {
                assert(!self@.occupied(sq as int));
                assert(self@.pieces.remove(sq as int) =~= self@.pieces);
            }
            return *self;
        }
        self.remove(sq)
    }

    /// The board with the given castling rights.
    pub fn with_castling_rights(&self, rights: CastlingRights) -> (b: Board)
        ensures
            b@ == (Position { rights: rights, ..self@ }),
    {
        let target: Option<u8> = self.en_passant_square();
        self.with_state(rights, target)
    }

    /// The board with the given en-passant target, which must be an empty
    /// square of the board, or with none; none where it is not.
    pub fn with_en_passant(&self, target: Option<u8>) -> (r: Option<Board>)
        ensures
            r is Some <==> (target matches Some(e) ==> e < 64 && !self@.occupied(e as int)),
            r matches Some(b) ==> b@ == (Position {
                en_passant: match target {
                    Some(e) => Some(e as int),
                    None => None,
                },
                ..self@
            }),
    {
        match target {
            Some(e) => {
                if e >= 64 {
                    return None;
                }
                let all: u64 = self.all_pieces();
                if contains(all, e) {
                    return None;
                }
            },
            None => {},
        }
        Some(self.with_state(self.castling_rights(), target))
    }
}

} // verus!
