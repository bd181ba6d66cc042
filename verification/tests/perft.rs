use chess_core::board::Board;
use chess_core::move_::Move;
use chess_core::move_validator::MoveValidator;
use chess_core::types::{CastlingRights, Color, Piece, PieceType};

fn other(color: Color) -> Color {
    match color {
        Color::White => Color::Black,
        Color::Black => Color::White,
    }
}

fn piece_of(letter: char) -> Piece {
    let color = if letter.is_ascii_uppercase() { Color::White } else { Color::Black };
    let kind = match letter.to_ascii_lowercase() {
        'p' => PieceType::Pawn,
        'n' => PieceType::Knight,
        'b' => PieceType::Bishop,
        'r' => PieceType::Rook,
        'q' => PieceType::Queen,
        'k' => PieceType::King,
        _ => panic!("no such piece"),
    };
    Piece { color, kind }
}

/// Reads the placement, side, castling and en-passant fields of a position
/// written rank by rank from rank 8 down.
fn position(text: &str) -> (Board, Color) {
    let fields: Vec<&str> = text.split(' ').collect();
    let mut board = Board::empty();
    let mut rank: u8 = 7;
    let mut file: u8 = 0;
    for letter in fields[0].chars() {
        if letter == '/' {
            rank -= 1;
            file = 0;
        } else if letter.is_ascii_digit() {
            file += letter as u8 - b'0';
        } else {
            board = board.with_piece(rank * 8 + file, piece_of(letter)).unwrap();
            file += 1;
        }
    }
    let color = if fields[1] == "w" { Color::White } else { Color::Black };
    board = board.with_castling_rights(CastlingRights {
        white_kingside: fields[2].contains('K'),
        white_queenside: fields[2].contains('Q'),
        black_kingside: fields[2].contains('k'),
        black_queenside: fields[2].contains('q'),
    });
    if fields[3] != "-" {
        let bytes = fields[3].as_bytes();
        let target = (bytes[1] - b'1') * 8 + (bytes[0] - b'a');
        board = board.with_en_passant(Some(target)).unwrap();
    }
    (board, color)
}

fn count_leaves(validator: &MoveValidator, board: &Board, color: Color, depth: u32) -> u64 {
    if depth == 0 {
        return 1;
    }
    let moves = validator.get_legal_moves(board, color);
    if depth == 1 {
        return moves.len() as u64;
    }
    let mut total = 0;
    for m in moves.iter() {
        let next = board.make_move(m).unwrap();
        total += count_leaves(validator, &next, other(color), depth - 1);
    }
    total
}

fn perft(text: &str, depth: u32) -> u64 {
    let validator = MoveValidator::new();
    let (board, color) = position(text);
    count_leaves(&validator, &board, color, depth)
}

#[test]
fn white_has_twenty_moves_at_the_start() {
    let validator = MoveValidator::new();
    let board = Board::new();
    let moves = validator.get_legal_moves(&board, Color::White);
    assert_eq!(moves.len(), 20);
    let pawn_moves: Vec<&Move> = moves
        .iter()
        .filter(|m| board.piece_at(m.from).unwrap().kind == PieceType::Pawn)
        .collect();
    let knight_moves: Vec<&Move> = moves
        .iter()
        .filter(|m| board.piece_at(m.from).unwrap().kind == PieceType::Knight)
        .collect();
    assert_eq!(pawn_moves.len(), 16);
    assert_eq!(knight_moves.len(), 4);
    let single = pawn_moves.iter().filter(|m| m.to == m.from + 8).count();
    let double = pawn_moves.iter().filter(|m| m.to == m.from + 16).count();
    assert_eq!(single, 8);
    assert_eq!(double, 8);
    for m in moves.iter() {
        assert_eq!(m.promotion, None);
        assert!(!m.is_castling);
        assert!(m.to / 8 == 2 || m.to / 8 == 3);
    }
}

#[test]
fn black_has_twenty_moves_at_the_start() {
    let validator = MoveValidator::new();
    let board = Board::new();
    assert_eq!(validator.get_legal_moves(&board, Color::Black).len(), 20);
}

#[test]
fn black_has_twenty_replies_to_every_first_move() {
    let validator = MoveValidator::new();
    let board = Board::new();
    for m in validator.get_legal_moves(&board, Color::White).iter() {
        let next = board.make_move(m).unwrap();
        assert!(!validator.is_in_check(&next, Color::Black));
        assert_eq!(validator.get_legal_moves(&next, Color::Black).len(), 20);
    }
}

#[test]
fn the_written_start_is_the_start() {
    let (board, color) = position("rnbqkbnr/pppppppp/8/8/8/8/PPPPPPPP/RNBQKBNR w KQkq -");
    assert_eq!(color, Color::White);
    let start = Board::new();
    for sq in 0..64u8 {
        assert_eq!(board.piece_at(sq), start.piece_at(sq));
    }
    assert_eq!(board.castling_rights(), start.castling_rights());
    assert_eq!(board.en_passant_square(), start.en_passant_square());
}

#[test]
fn perft_depth_one() {
    let validator = MoveValidator::new();
    assert_eq!(count_leaves(&validator, &Board::new(), Color::White, 1), 20);
}

#[test]
fn perft_depth_two() {
    let validator = MoveValidator::new();
    assert_eq!(count_leaves(&validator, &Board::new(), Color::White, 2), 400);
}

#[test]
fn perft_depth_three() {
    let validator = MoveValidator::new();
    assert_eq!(count_leaves(&validator, &Board::new(), Color::White, 3), 8902);
}

#[test]
fn perft_depth_four() {
    let validator = MoveValidator::new();
    assert_eq!(count_leaves(&validator, &Board::new(), Color::White, 4), 197281);
}

#[test]
fn perft_with_castling_and_pins() {
    let text = "r3k2r/p1ppqpb1/bn2pnp1/3PN3/1p2P3/2N2Q1p/PPPBBPPP/R3K2R w KQkq -";
    assert_eq!(perft(text, 1), 48);
    assert_eq!(perft(text, 2), 2039);
    assert_eq!(perft(text, 3), 97862);
}

#[test]
fn perft_with_en_passant_and_discovered_checks() {
    let text = "8/2p5/3p4/KP5r/1R3p1k/8/4P1P1/8 w - -";
    assert_eq!(perft(text, 1), 14);
    assert_eq!(perft(text, 2), 191);
    assert_eq!(perft(text, 3), 2812);
    assert_eq!(perft(text, 4), 43238);
}

#[test]
fn perft_with_promotions() {
    let text = "r3k2r/Pppp1ppp/1b3nbN/nP6/BBP1P3/q4N2/Pp1P2PP/R2Q1RK1 w kq -";
    assert_eq!(perft(text, 1), 6);
    assert_eq!(perft(text, 2), 264);
    assert_eq!(perft(text, 3), 9467);
}

#[test]
fn perft_with_promotions_mirrored() {
    let text = "r2q1rk1/pP1p2pp/Q4n2/bbp1p3/Np6/1B3NBn/pPPP1PPP/R3K2R b KQ -";
    assert_eq!(perft(text, 1), 6);
    assert_eq!(perft(text, 2), 264);
    assert_eq!(perft(text, 3), 9467);
}

#[test]
fn perft_with_a_promoting_capture_available() {
    let text = "rnbq1k1r/pp1Pbppp/2p5/8/2B5/8/PPP1NnPP/RNBQK2R w KQ -";
    assert_eq!(perft(text, 1), 44);
    assert_eq!(perft(text, 2), 1486);
    assert_eq!(perft(text, 3), 62379);
}

#[test]
fn perft_in_a_middle_game() {
    let text = "r4rk1/1pp1qppp/p1np1n2/2b1p1B1/2B1P1b1/P1NP1N2/1PP1QPPP/R4RK1 w - -";
    assert_eq!(perft(text, 1), 46);
    assert_eq!(perft(text, 2), 2079);
    assert_eq!(perft(text, 3), 89890);
}
