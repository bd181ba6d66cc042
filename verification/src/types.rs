use vstd::prelude::*;

verus! {

/// The two sides of a game.
#[derive(Clone, Copy, PartialEq, Eq, Structural, Debug)]
pub enum Color {
    White,
    Black,
}

impl Color {
    /// The other side.
    pub open spec fn other(self) -> Color {
        match self {
            Color::White => Color::Black,
            Color::Black => Color::White,
        }
    }

    /// The other side.
    pub fn opponent(self) -> (r: Color)
        ensures
            r == self.other(),
    {
        match self {
            Color::White => Color::Black,
            Color::Black => Color::White,
        }
    }
}

/// The six kinds of chess piece.
#[derive(Clone, Copy, PartialEq, Eq, Structural, Debug)]
pub enum PieceType {
    Pawn,
    Knight,
    Bishop,
    Rook,
    Queen,
    King,
}

/// A piece of a given kind and side.
#[derive(Clone, Copy, PartialEq, Eq, Structural, Debug)]
pub struct Piece {
    pub color: Color,
    pub kind: PieceType,
}

/// The four castling rights.
#[derive(Clone, Copy, PartialEq, Eq, Structural, Debug)]
pub struct CastlingRights {
    pub white_kingside: bool,
    pub white_queenside: bool,
    pub black_kingside: bool,
    pub black_queenside: bool,
}

impl CastlingRights {
    /// Whether side `c` still has the right to castle on the given wing.
    pub open spec fn allows(self, c: Color, kingside: bool) -> bool {
        match c {
            Color::White => if kingside {
                self.white_kingside
            } else {
                self.white_queenside
            },
            Color::Black => if kingside {
                self.black_kingside
            } else {
                self.black_queenside
            },
        }
    }

    /// The rights that remain after a piece has moved from `s` to `t`: a
    /// right is lost once its king's or its rook's home square is left or
    /// entered.
    pub open spec fn after(self, s: int, t: int) -> CastlingRights {
        CastlingRights {
            white_kingside: self.white_kingside && s != 4 && s != 7 && t != 7,
            white_queenside: self.white_queenside && s != 4 && s != 0 && t != 0,
            black_kingside: self.black_kingside && s != 60 && s != 63 && t != 63,
            black_queenside: self.black_queenside && s != 60 && s != 56 && t != 56,
        }
    }

    /// Decides `allows`.
    pub fn permits(&self, c: Color, kingside: bool) -> (r: bool)
        ensures
            r == self.allows(c, kingside),
    {
        match c {
            Color::White => if kingside {
                self.white_kingside
            } else {
                self.white_queenside
            },
            Color::Black => if kingside {
                self.black_kingside
            } else {
                self.black_queenside
            },
        }
    }

    /// Computes `after`.
    pub fn updated(&self, s: u8, t: u8) -> (r: CastlingRights)
        ensures
            r == self.after(s as int, t as int),
    {
        CastlingRights {
            white_kingside: self.white_kingside && s != 4 && s != 7 && t != 7,
            white_queenside: self.white_queenside && s != 4 && s != 0 && t != 0,
            black_kingside: self.black_kingside && s != 60 && s != 63 && t != 63,
            black_queenside: self.black_queenside && s != 60 && s != 56 && t != 56,
        }
    }
}

/// How a finished game ended.
#[derive(Clone, Copy, PartialEq, Eq, Structural, Debug)]
pub enum GameResult {
    Draw,
    WhiteWin,
    BlackWin,
}

/// The state of the side to move.
#[derive(Clone, Copy, PartialEq, Eq, Structural, Debug)]
pub enum GameStatus {
    Normal,
    Check,
    Checkmate,
    Stalemate,
}

} // verus!
