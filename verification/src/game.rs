use vstd::prelude::*;
use crate::board::Board;
use crate::move_::Move;
use crate::move_validator::MoveValidator;
use crate::player::Player;
use crate::position::Position;
use crate::types::Color;
use crate::types::GameResult;
use crate::types::GameStatus;
use crate::laws::in_play;
use crate::laws::law_start_in_play;
use crate::laws::law_start_is_normal;
use crate::laws::law_in_play_preserved;
use crate::listing::lemma_legal_moves;

verus! {

/// How a game has ended when the side to move is in the given state: lost by
/// the side to move when it is checkmated, drawn when it is stalemated, and
/// not ended otherwise.
pub open spec fn outcome(status: GameStatus, to_move: Color) -> Option<GameResult> {
    match status {
        GameStatus::Checkmate => Some(
            match to_move {
                Color::White => GameResult::BlackWin,
                Color::Black => GameResult::WhiteWin,
            },
        ),
        GameStatus::Stalemate => Some(GameResult::Draw),
        _ => None,
    }
}

/// Computes `outcome`.
pub fn result_of(status: GameStatus, to_move: Color) -> (r: Option<GameResult>)
    ensures
        r == outcome(status, to_move),
{
    match status {
        GameStatus::Checkmate => Some(
            match to_move {
                Color::White => GameResult::BlackWin,
                Color::Black => GameResult::WhiteWin,
            },
        ),
        GameStatus::Stalemate => Some(GameResult::Draw),
        _ => None,
    }
}

/// Builds the message for a move that was refused, with `format!`: a fixed
/// text followed by the move as `Debug` prints it. Nothing is claimed of the
/// text.
#[verifier::external_body]
fn refusal(move_: &Move) -> (text: String) {
    format!("Illegal move selected: {:?}", move_)
}

/// The course of a game: the position, the side to move and the result.
///
/// The position is one that arises in play, and the result is the one that
/// the state of the side to move gives.
struct Course {
    board: Board,
    turn: Color,
    result: Option<GameResult>,
}

impl Course {
    #[verifier::type_invariant]
    closed spec fn inv(&self) -> bool {
        &&& in_play(self.board@, self.turn)
        &&& self.result == outcome(self.board@.status(self.turn), self.turn)
    }
}

/// A game between two players: the position, the side to move, the moves
/// played so far and the result once the game has ended.
///
/// The position of a game is always one that arises in play from the
/// starting position, and the game has a result exactly when the side to
/// move is checkmated or stalemated.
pub struct Game {
    course: Course,
    move_history: Vec<Move>,
    white_player: Box<dyn Player>,
    black_player: Box<dyn Player>,
    move_validator: MoveValidator,
}

impl Game {
    /// The position on the board.
    pub closed spec fn position(&self) -> Position {
        self.course.board@
    }

    /// The side to move.
    pub closed spec fn to_move(&self) -> Color {
        self.course.turn
    }

    /// The moves played so far, oldest first.
    pub closed spec fn history(&self) -> Seq<Move> {
        self.move_history@
    }

    /// The player of the given side.
    pub closed spec fn player(&self, c: Color) -> &Box<dyn Player> {
        match c {
            Color::White => &self.white_player,
            Color::Black => &self.black_player,
        }
    }

    /// The result that the position gives: a loss for the side to move where
    /// it is checkmated, a draw where it is stalemated, none otherwise.
    pub open spec fn outcome(&self) -> Option<GameResult> {
        outcome(self.position().status(self.to_move()), self.to_move())
    }

    /// A game in the starting position, with White to move, no move played
    /// and no result.
    pub fn new(white_player: Box<dyn Player>, black_player: Box<dyn Player>) -> (g: Self)
        ensures
            g.position() == Position::start(),
            g.to_move() == Color::White,
            g.history() == Seq::<Move>::empty(),
            g.outcome() is None,
    {
        proof {
            law_start_in_play();
            law_start_is_normal();
        }
        let board = Board::new();
        let move_validator = MoveValidator::new();
        let result = result_of(move_validator.classify(&board, Color::White), Color::White);
        Self {
            course: Course { board, turn: Color::White, result },
            move_history: Vec::new(),
            white_player,
            black_player,
            move_validator,
        }
    }

    /// The result of the game: none while the side to move is neither
    /// checkmated nor stalemated.
    pub fn get_game_result(&self) -> (r: &Option<GameResult>)
        ensures
            *r == self.outcome(),
    {
        proof {
            use_type_invariant(&self.course);
        }
        &self.course.result
    }

    /// Whether the game has ended: the side to move is checkmated or
    /// stalemated.
    pub fn is_over(&self) -> (r: bool)
        ensures
            r == self.outcome().is_some(),
            r == !self.position().can_move(self.to_move()),
    {
        proof {
            use_type_invariant(&self.course);
        }
        self.course.result.is_some()
    }

    /// The player whose turn it is.
    pub fn get_current_player(&self) -> (r: &Box<dyn Player>)
        ensures
            r == self.player(self.to_move()),
    {
        match self.course.turn {
            Color::White => &self.white_player,
            Color::Black => &self.black_player,
        }
    }

    /// The side to move.
    pub fn get_turn(&self) -> (r: Color)
        ensures
            r == self.to_move(),
    {
        self.course.turn
    }

    /// The board, which holds a position that arises in play.
    pub fn get_board(&self) -> (r: &Board)
        ensures
            r@ == self.position(),
            in_play(self.position(), self.to_move()),
    {
        proof {
            use_type_invariant(&self.course);
        }
        &self.course.board
    }

    /// The moves played so far, oldest first.
    pub fn get_move_history(&self) -> (r: &Vec<Move>)
        ensures
            r@ == self.history(),
    {
        &self.move_history
    }

    /// The legal moves of the side to move, each once.
    pub fn get_legal_moves(&self) -> (moves: Vec<Move>)
        ensures
            moves@ == self.position().legal_moves(self.to_move()),
            moves@.no_duplicates(),
            forall|m: Move| #[trigger]
                moves@.contains(m) <==> self.position().legal(self.to_move(), m),
    {
        self.move_validator.get_legal_moves(&self.course.board, self.course.turn)
    }

    /// Plays a move for the side to move.
    ///
    /// A move that is not legal for the side to move is refused and leaves
    /// the game as it was. A legal move is made on the board and recorded,
    /// and the turn passes to the other side.
    pub fn apply_move(&mut self, move_: &Move) -> (r: Result<(), String>)
        ensures
            r is Ok <==> old(self).position().legal_moves(old(self).to_move()).contains(*move_),
            r is Ok <==> old(self).position().legal(old(self).to_move(), *move_),
            r is Ok ==> {
                &&& final(self).position() == old(self).position().after_move(*move_)
                &&& final(self).to_move() == old(self).to_move().other()
                &&& final(self).history() == old(self).history().push(*move_)
            },
            r is Err ==> {
                &&& final(self).position() == old(self).position()
                &&& final(self).to_move() == old(self).to_move()
                &&& final(self).history() == old(self).history()
            },
            final(self).player(Color::White) == old(self).player(Color::White),
            final(self).player(Color::Black) == old(self).player(Color::Black),
    {
        let all: u64 = self.course.board.all_pieces();
        proof {
            use_type_invariant(&self.course);
            lemma_legal_moves(self.position(), self.to_move());
            if self.position().legal(self.to_move(), *move_) {
                law_in_play_preserved(self.position(), self.to_move(), *move_);
            }
        }
        match self.move_validator.apply(&self.course.board, self.course.turn, move_) {
            Err(_) => Err(refusal(move_)),
            Ok(board) => {
                let turn: Color = self.course.turn.opponent();
                let result = result_of(self.move_validator.classify(&board, turn), turn);
                self.course = Course { board, turn, result };
                self.move_history.push(*move_);
                Ok(())
            },
        }
    }
}

} // verus!
