use chess_core::board::Board;
use chess_core::move_::Move;
use chess_core::move_validator::{IllegalMove, MoveValidator};
use chess_core::types::{CastlingRights, Color, GameStatus, Piece, PieceType};

fn piece(color: Color, kind: PieceType) -> Piece {
    Piece { color, kind }
}

fn no_rights() -> CastlingRights {
    CastlingRights {
        white_kingside: false,
        white_queenside: false,
        black_kingside: false,
        black_queenside: false,
    }
}

fn all_rights() -> CastlingRights {
    CastlingRights {
        white_kingside: true,
        white_queenside: true,
        black_kingside: true,
        black_queenside: true,
    }
}

/// A board with the given pieces, each written as side, kind and square.
fn board_with(pieces: &[(Color, PieceType, u8)]) -> Board {
    let mut board = Board::empty();
    for (color, kind, sq) in pieces.iter() {
        board = board.with_piece(*sq, piece(*color, *kind)).unwrap();
    }
    board
}

fn sorted(moves: &[Move]) -> Vec<(u8, u8, Option<PieceType>, bool)> {
    let rank = |p: Option<PieceType>| match p {
        None => 0,
        Some(PieceType::Queen) => 1,
        Some(PieceType::Rook) => 2,
        Some(PieceType::Bishop) => 3,
        Some(PieceType::Knight) => 4,
        Some(_) => 5,
    };
    let mut v: Vec<(u8, u8, Option<PieceType>, bool)> =
        moves.iter().map(|m| (m.from, m.to, m.promotion, m.is_castling)).collect();
    v.sort_by_key(|x| (x.0, x.1, rank(x.2), x.3));
    v
}

const WK: (Color, PieceType) = (Color::White, PieceType::King);
const BK: (Color, PieceType) = (Color::Black, PieceType::King);

#[test]
fn a_move_is_made_of_its_four_fields() {
    let m = Move::new(12, 28, None, false);
    assert_eq!(m.from, 12);
    assert_eq!(m.to, 28);
    assert_eq!(m.promotion, None);
    assert!(!m.is_castling);
    assert_eq!(m, Move { from: 12, to: 28, promotion: None, is_castling: false });
    assert_ne!(m, Move::new(12, 28, None, true));
    assert_ne!(m, Move::new(12, 28, Some(PieceType::Queen), false));
    assert_ne!(m, Move::new(12, 20, None, false));
    assert_ne!(m, Move::new(11, 28, None, false));
}

#[test]
fn a_pawn_on_the_seventh_rank_promotes_in_four_ways() {
    let validator = MoveValidator::new();
    let board = board_with(&[(WK.0, WK.1, 4), (BK.0, BK.1, 60), (Color::White, PieceType::Pawn, 48)]);
    let moves = validator.get_pseudo_legal_pawn_moves(&board, Color::White);
    assert_eq!(
        sorted(&moves),
        vec![
            (48, 56, Some(PieceType::Queen), false),
            (48, 56, Some(PieceType::Rook), false),
            (48, 56, Some(PieceType::Bishop), false),
            (48, 56, Some(PieceType::Knight), false),
        ]
    );
    let legal = validator.get_legal_moves(&board, Color::White);
    assert_eq!(legal.iter().filter(|m| m.from == 48).count(), 4);
    assert!(!validator.is_move_legal(&board, &Move::new(48, 56, None, false)));
    assert!(!validator.is_move_legal(&board, &Move::new(48, 56, Some(PieceType::King), false)));
    assert!(!validator.is_move_legal(&board, &Move::new(48, 56, Some(PieceType::Pawn), false)));
    assert!(validator.is_move_legal(&board, &Move::new(48, 56, Some(PieceType::Knight), false)));
}

#[test]
fn a_promoting_capture_also_comes_in_four_ways() {
    let validator = MoveValidator::new();
    let board = board_with(&[
        (WK.0, WK.1, 4),
        (BK.0, BK.1, 60),
        (Color::White, PieceType::Pawn, 48),
        (Color::Black, PieceType::Rook, 56),
        (Color::Black, PieceType::Knight, 57),
    ]);
    let moves = validator.get_pseudo_legal_pawn_moves(&board, Color::White);
    assert_eq!(
        sorted(&moves),
        vec![
            (48, 57, Some(PieceType::Queen), false),
            (48, 57, Some(PieceType::Rook), false),
            (48, 57, Some(PieceType::Bishop), false),
            (48, 57, Some(PieceType::Knight), false),
        ]
    );
}

#[test]
fn a_black_pawn_promotes_on_the_first_rank() {
    let validator = MoveValidator::new();
    let board = board_with(&[(WK.0, WK.1, 4), (BK.0, BK.1, 60), (Color::Black, PieceType::Pawn, 8)]);
    let moves = validator.get_pseudo_legal_pawn_moves(&board, Color::Black);
    assert_eq!(
        sorted(&moves),
        vec![
            (8, 0, Some(PieceType::Queen), false),
            (8, 0, Some(PieceType::Rook), false),
            (8, 0, Some(PieceType::Bishop), false),
            (8, 0, Some(PieceType::Knight), false),
        ]
    );
}

#[test]
fn promotion_puts_the_chosen_piece_on_the_board() {
    let validator = MoveValidator::new();
    let board = board_with(&[(WK.0, WK.1, 4), (BK.0, BK.1, 63), (Color::White, PieceType::Pawn, 48)]);
    let m = Move::new(48, 56, Some(PieceType::Knight), false);
    let after = validator.apply(&board, Color::White, &m).unwrap();
    assert_eq!(after.piece_at(56), Some(piece(Color::White, PieceType::Knight)));
    assert_eq!(after.piece_at(48), None);
    assert_eq!(after.pieces(Color::White, PieceType::Pawn), 0);
    assert_eq!(after.pieces(Color::White, PieceType::Knight), 1u64 << 56);
}

#[test]
fn pawn_pushes_need_empty_squares() {
    let validator = MoveValidator::new();
    let blocked_far = board_with(&[
        (WK.0, WK.1, 4),
        (BK.0, BK.1, 60),
        (Color::White, PieceType::Pawn, 12),
        (Color::Black, PieceType::Knight, 28),
    ]);
    assert_eq!(
        sorted(&validator.get_pseudo_legal_pawn_moves(&blocked_far, Color::White)),
        vec![(12, 20, None, false)]
    );
    let blocked_near = board_with(&[
        (WK.0, WK.1, 4),
        (BK.0, BK.1, 60),
        (Color::White, PieceType::Pawn, 12),
        (Color::Black, PieceType::Knight, 20),
    ]);
    assert_eq!(sorted(&validator.get_pseudo_legal_pawn_moves(&blocked_near, Color::White)), vec![]);
    let off_home = board_with(&[(WK.0, WK.1, 4), (BK.0, BK.1, 60), (Color::White, PieceType::Pawn, 20)]);
    assert_eq!(
        sorted(&validator.get_pseudo_legal_pawn_moves(&off_home, Color::White)),
        vec![(20, 28, None, false)]
    );
}

#[test]
fn pawns_capture_diagonally_and_do_not_wrap_round_the_board() {
    let validator = MoveValidator::new();
    let board = board_with(&[
        (WK.0, WK.1, 4),
        (BK.0, BK.1, 60),
        (Color::White, PieceType::Pawn, 24),
        (Color::Black, PieceType::Knight, 32),
        (Color::Black, PieceType::Knight, 33),
        (Color::Black, PieceType::Knight, 31),
        (Color::White, PieceType::Pawn, 39),
        (Color::Black, PieceType::Knight, 47),
        (Color::Black, PieceType::Knight, 46),
        (Color::Black, PieceType::Knight, 40),
    ]);
    assert_eq!(
        sorted(&validator.get_pseudo_legal_pawn_moves(&board, Color::White)),
        vec![(24, 33, None, false), (39, 46, None, false)]
    );
}

#[test]
fn a_double_push_sets_the_en_passant_target_behind_the_pawn() {
    let validator = MoveValidator::new();
    let board = Board::new();
    let after = validator.apply(&board, Color::White, &Move::new(12, 28, None, false)).unwrap();
    assert_eq!(after.en_passant_square(), Some(20));
    let reply = validator.apply(&after, Color::Black, &Move::new(51, 35, None, false)).unwrap();
    assert_eq!(reply.en_passant_square(), Some(43));
    let quiet = validator.apply(&reply, Color::White, &Move::new(6, 21, None, false)).unwrap();
    assert_eq!(quiet.en_passant_square(), None);
    let single = validator.apply(&board, Color::White, &Move::new(12, 20, None, false)).unwrap();
    assert_eq!(single.en_passant_square(), None);
}

#[test]
fn capturing_in_passing_removes_the_pawn_behind_the_target() {
    let validator = MoveValidator::new();
    let board = board_with(&[
        (WK.0, WK.1, 4),
        (BK.0, BK.1, 60),
        (Color::White, PieceType::Pawn, 36),
        (Color::Black, PieceType::Pawn, 51),
    ]);
    let pushed = validator.apply(&board, Color::Black, &Move::new(51, 35, None, false)).unwrap();
    assert_eq!(pushed.en_passant_square(), Some(43));
    let capture = Move::new(36, 43, None, false);
    assert!(pushed.captures_in_passing(&capture));
    assert!(!pushed.captures_in_passing(&Move::new(36, 44, None, false)));
    assert!(!board.captures_in_passing(&capture));
    assert!(validator.is_move_legal(&pushed, &capture));
    let moves = validator.get_legal_moves(&pushed, Color::White);
    assert!(moves.contains(&capture));
    let after = validator.apply(&pushed, Color::White, &capture).unwrap();
    assert_eq!(after.piece_at(43), Some(piece(Color::White, PieceType::Pawn)));
    assert_eq!(after.piece_at(35), None);
    assert_eq!(after.piece_at(36), None);
    assert_eq!(after.pieces(Color::Black, PieceType::Pawn), 0);
    assert_eq!(after.en_passant_square(), None);
}

#[test]
fn no_capture_in_passing_without_a_target() {
    let validator = MoveValidator::new();
    let board = board_with(&[
        (WK.0, WK.1, 4),
        (BK.0, BK.1, 60),
        (Color::White, PieceType::Pawn, 36),
        (Color::Black, PieceType::Pawn, 35),
    ]);
    assert!(!validator.is_move_legal(&board, &Move::new(36, 43, None, false)));
    assert_eq!(
        sorted(&validator.get_pseudo_legal_pawn_moves(&board, Color::White)),
        vec![(36, 44, None, false)]
    );
}

#[test]
fn capturing_in_passing_may_not_uncover_the_king() {
    let validator = MoveValidator::new();
    let board = board_with(&[
        (WK.0, WK.1, 32),
        (BK.0, BK.1, 60),
        (Color::White, PieceType::Pawn, 33),
        (Color::Black, PieceType::Pawn, 34),
        (Color::Black, PieceType::Rook, 39),
    ])
    .with_en_passant(Some(42))
    .unwrap();
    let capture = Move::new(33, 42, None, false);
    let pseudo = validator.get_pseudo_legal_moves(&board, Color::White);
    assert!(pseudo.contains(&capture));
    assert!(!validator.is_move_legal(&board, &capture));
    assert!(!validator.get_legal_moves(&board, Color::White).contains(&capture));
}

fn castling_board() -> Board {
    board_with(&[
        (WK.0, WK.1, 4),
        (Color::White, PieceType::Rook, 0),
        (Color::White, PieceType::Rook, 7),
        (BK.0, BK.1, 60),
        (Color::Black, PieceType::Rook, 56),
        (Color::Black, PieceType::Rook, 63),
    ])
    .with_castling_rights(all_rights())
}

#[test]
fn castling_is_legal_when_every_condition_holds() {
    let validator = MoveValidator::new();
    let board = castling_board();
    let white = validator.get_legal_moves(&board, Color::White);
    assert!(white.contains(&Move::new(4, 6, None, true)));
    assert!(white.contains(&Move::new(4, 2, None, true)));
    let black = validator.get_legal_moves(&board, Color::Black);
    assert!(black.contains(&Move::new(60, 62, None, true)));
    assert!(black.contains(&Move::new(60, 58, None, true)));
    assert!(!validator.is_move_legal(&board, &Move::new(4, 6, None, false)));
    assert!(validator.may_castle(&board, Color::White, &Move::new(4, 6, None, true)));
    assert!(!validator.may_castle(&board, Color::Black, &Move::new(4, 6, None, true)));
    assert!(!validator.may_castle(&board, Color::White, &Move::new(4, 5, None, true)));
}

#[test]
fn castling_moves_the_rook_and_spends_the_rights() {
    let validator = MoveValidator::new();
    let board = castling_board();
    let short = validator.apply(&board, Color::White, &Move::new(4, 6, None, true)).unwrap();
    assert_eq!(short.piece_at(6), Some(piece(Color::White, PieceType::King)));
    assert_eq!(short.piece_at(5), Some(piece(Color::White, PieceType::Rook)));
    assert_eq!(short.piece_at(4), None);
    assert_eq!(short.piece_at(7), None);
    assert_eq!(short.piece_at(0), Some(piece(Color::White, PieceType::Rook)));
    assert_eq!(
        short.castling_rights(),
        CastlingRights {
            white_kingside: false,
            white_queenside: false,
            black_kingside: true,
            black_queenside: true,
        }
    );
    let long = validator.apply(&board, Color::Black, &Move::new(60, 58, None, true)).unwrap();
    assert_eq!(long.piece_at(58), Some(piece(Color::Black, PieceType::King)));
    assert_eq!(long.piece_at(59), Some(piece(Color::Black, PieceType::Rook)));
    assert_eq!(long.piece_at(56), None);
    assert_eq!(long.piece_at(60), None);
    assert_eq!(
        long.castling_rights(),
        CastlingRights {
            white_kingside: true,
            white_queenside: true,
            black_kingside: false,
            black_queenside: false,
        }
    );
}

#[test]
fn castling_needs_the_right() {
    let validator = MoveValidator::new();
    let board = castling_board().with_castling_rights(CastlingRights {
        white_kingside: false,
        white_queenside: true,
        black_kingside: true,
        black_queenside: false,
    });
    let white = validator.get_legal_moves(&board, Color::White);
    assert!(!white.contains(&Move::new(4, 6, None, true)));
    assert!(white.contains(&Move::new(4, 2, None, true)));
    let black = validator.get_legal_moves(&board, Color::Black);
    assert!(black.contains(&Move::new(60, 62, None, true)));
    assert!(!black.contains(&Move::new(60, 58, None, true)));
    let pseudo = validator.get_pseudo_legal_king_moves(&board, Color::White);
    assert!(pseudo.contains(&Move::new(4, 6, None, true)));
}

#[test]
fn castling_needs_an_empty_path() {
    let validator = MoveValidator::new();
    let knight_on_b1 = castling_board().with_piece(1, piece(Color::White, PieceType::Knight)).unwrap();
    let moves = validator.get_legal_moves(&knight_on_b1, Color::White);
    assert!(!moves.contains(&Move::new(4, 2, None, true)));
    assert!(moves.contains(&Move::new(4, 6, None, true)));
    let bishop_on_f1 = castling_board().with_piece(5, piece(Color::Black, PieceType::Bishop)).unwrap();
    let moves = validator.get_legal_moves(&bishop_on_f1, Color::White);
    assert!(!moves.contains(&Move::new(4, 6, None, true)));
    let own_on_g1 = castling_board().with_piece(6, piece(Color::White, PieceType::Knight)).unwrap();
    let pseudo = validator.get_pseudo_legal_king_moves(&own_on_g1, Color::White);
    assert!(!pseudo.contains(&Move::new(4, 6, None, true)));
}

#[test]
fn castling_needs_an_unattacked_king_and_path() {
    let validator = MoveValidator::new();
    let checked = castling_board().with_piece(36, piece(Color::Black, PieceType::Queen)).unwrap();
    assert!(validator.is_in_check(&checked, Color::White));
    let moves = validator.get_legal_moves(&checked, Color::White);
    assert!(!moves.contains(&Move::new(4, 6, None, true)));
    assert!(!moves.contains(&Move::new(4, 2, None, true)));
    let f_file = castling_board().with_piece(37, piece(Color::Black, PieceType::Rook)).unwrap();
    let moves = validator.get_legal_moves(&f_file, Color::White);
    assert!(!moves.contains(&Move::new(4, 6, None, true)));
    assert!(moves.contains(&Move::new(4, 2, None, true)));
    let g_file = castling_board().with_piece(38, piece(Color::Black, PieceType::Rook)).unwrap();
    let moves = validator.get_legal_moves(&g_file, Color::White);
    assert!(!moves.contains(&Move::new(4, 6, None, true)));
    assert!(moves.contains(&Move::new(4, 2, None, true)));
    let on_c1 = castling_board().with_piece(38, piece(Color::Black, PieceType::Queen)).unwrap();
    let moves = validator.get_legal_moves(&on_c1, Color::White);
    assert!(!moves.contains(&Move::new(4, 6, None, true)));
    assert!(!moves.contains(&Move::new(4, 2, None, true)));
    let b_file = castling_board().with_piece(41, piece(Color::Black, PieceType::Rook)).unwrap();
    let moves = validator.get_legal_moves(&b_file, Color::White);
    assert!(moves.contains(&Move::new(4, 2, None, true)));
    assert!(moves.contains(&Move::new(4, 6, None, true)));
}

#[test]
fn castling_needs_king_and_rook_at_home() {
    let validator = MoveValidator::new();
    let no_rook = castling_board().without_piece(7);
    let moves = validator.get_legal_moves(&no_rook, Color::White);
    assert!(!moves.contains(&Move::new(4, 6, None, true)));
    assert!(moves.contains(&Move::new(4, 2, None, true)));
}

#[test]
fn moving_a_rook_or_taking_one_spends_one_right() {
    let validator = MoveValidator::new();
    let board = castling_board();
    let moved = validator.apply(&board, Color::White, &Move::new(7, 15, None, false)).unwrap();
    assert_eq!(
        moved.castling_rights(),
        CastlingRights {
            white_kingside: false,
            white_queenside: true,
            black_kingside: true,
            black_queenside: true,
        }
    );
    let taken = validator.apply(&board, Color::White, &Move::new(0, 56, None, false)).unwrap();
    assert_eq!(
        taken.castling_rights(),
        CastlingRights {
            white_kingside: true,
            white_queenside: false,
            black_kingside: true,
            black_queenside: false,
        }
    );
    let king = validator.apply(&board, Color::Black, &Move::new(60, 52, None, false)).unwrap();
    assert_eq!(
        king.castling_rights(),
        CastlingRights {
            white_kingside: true,
            white_queenside: true,
            black_kingside: false,
            black_queenside: false,
        }
    );
    assert_eq!(no_rights().updated(4, 12), no_rights());
    assert!(all_rights().permits(Color::White, true));
    assert!(!no_rights().permits(Color::Black, false));
}

#[test]
fn a_pinned_piece_may_not_leave_the_line() {
    let validator = MoveValidator::new();
    let board = board_with(&[
        (WK.0, WK.1, 4),
        (BK.0, BK.1, 63),
        (Color::White, PieceType::Knight, 12),
        (Color::Black, PieceType::Rook, 52),
    ]);
    let pseudo = validator.get_pseudo_legal_knight_moves(&board, Color::White);
    assert_eq!(pseudo.len(), 6);
    let legal = validator.get_legal_moves(&board, Color::White);
    assert_eq!(legal.iter().filter(|m| m.from == 12).count(), 0);
    let rook = board.without_piece(12).with_piece(12, piece(Color::White, PieceType::Rook)).unwrap();
    let legal = validator.get_legal_moves(&rook, Color::White);
    let from_rook: Vec<u8> = {
        let mut v: Vec<u8> = legal.iter().filter(|m| m.from == 12).map(|m| m.to).collect();
        v.sort();
        v
    };
    assert_eq!(from_rook, vec![20, 28, 36, 44, 52]);
}

#[test]
fn every_legal_move_is_pseudo_legal_and_leaves_the_king_safe() {
    let validator = MoveValidator::new();
    let board = board_with(&[
        (WK.0, WK.1, 4),
        (BK.0, BK.1, 60),
        (Color::White, PieceType::Queen, 27),
        (Color::White, PieceType::Bishop, 18),
        (Color::White, PieceType::Pawn, 13),
        (Color::Black, PieceType::Rook, 28),
        (Color::Black, PieceType::Bishop, 25),
        (Color::Black, PieceType::Knight, 21),
        (Color::Black, PieceType::Pawn, 51),
    ]);
    let pseudo = validator.get_pseudo_legal_moves(&board, Color::White);
    let legal = validator.get_legal_moves(&board, Color::White);
    assert!(validator.is_in_check(&board, Color::White));
    assert!(legal.len() < pseudo.len());
    assert!(!legal.is_empty());
    for m in legal.iter() {
        assert!(pseudo.contains(m));
        assert!(validator.keeps_king_safe(&board, Color::White, m));
        let after = board.make_move(m).unwrap();
        assert!(!validator.is_in_check(&after, Color::White));
        let king = after.king_square(Color::White).unwrap();
        assert!(!validator.is_square_attacked(&after, king, Color::Black));
    }
    for m in pseudo.iter() {
        assert_eq!(legal.contains(m), validator.is_move_legal(&board, m));
        assert_eq!(legal.contains(m), validator.keeps_king_safe(&board, Color::White, m));
    }
}

#[test]
fn the_legal_moves_are_the_same_each_time() {
    let validator = MoveValidator::new();
    let board = castling_board();
    let first = validator.get_legal_moves(&board, Color::White);
    let second = validator.get_legal_moves(&board, Color::White);
    assert_eq!(sorted(&first), sorted(&second));
    let other = MoveValidator::new();
    assert_eq!(sorted(&first), sorted(&other.get_legal_moves(&board, Color::White)));
    for (i, m) in first.iter().enumerate() {
        assert!(!first[i + 1..].contains(m));
    }
}

#[test]
fn a_move_from_nowhere_is_refused() {
    let validator = MoveValidator::new();
    let board = Board::new();
    assert!(!validator.is_move_legal(&board, &Move::new(64, 0, None, false)));
    assert!(!validator.is_move_legal(&board, &Move::new(12, 64, None, false)));
    assert!(!validator.is_move_legal(&board, &Move::new(200, 255, None, false)));
    assert!(!validator.is_move_legal(&board, &Move::new(28, 36, None, false)));
    assert!(!validator.is_move_legal(&board, &Move::new(12, 36, None, false)));
    assert_eq!(board.make_move(&Move::new(64, 0, None, false)).map(|_| ()), None);
    assert_eq!(board.make_move(&Move::new(0, 64, None, false)).map(|_| ()), None);
    assert_eq!(board.make_move(&Move::new(28, 36, None, false)).map(|_| ()), None);
    assert_eq!(
        validator.apply(&board, Color::White, &Move::new(28, 36, None, false)).map(|_| ()),
        Err(IllegalMove)
    );
    assert_eq!(
        validator.apply(&board, Color::Black, &Move::new(12, 28, None, false)).map(|_| ()),
        Err(IllegalMove)
    );
    assert_eq!(
        validator.apply(&board, Color::White, &Move::new(52, 36, None, false)).map(|_| ()),
        Err(IllegalMove)
    );
    assert!(validator.apply(&board, Color::White, &Move::new(12, 28, None, false)).is_ok());
}

#[test]
fn a_move_is_legal_for_the_side_whose_piece_it_moves() {
    let validator = MoveValidator::new();
    let board = Board::new();
    assert!(validator.is_move_legal(&board, &Move::new(12, 28, None, false)));
    assert!(validator.is_move_legal(&board, &Move::new(52, 36, None, false)));
    assert!(validator.is_move_legal(&board, &Move::new(1, 18, None, false)));
    assert!(!validator.is_move_legal(&board, &Move::new(0, 8, None, false)));
    assert!(!validator.is_move_legal(&board, &Move::new(0, 16, None, false)));
    assert!(!validator.is_move_legal(&board, &Move::new(12, 28, None, true)));
    assert!(!validator.is_move_legal(&board, &Move::new(12, 28, Some(PieceType::Queen), false)));
}

#[test]
fn the_four_states_of_the_side_to_move() {
    let validator = MoveValidator::new();
    assert_eq!(validator.classify(&Board::new(), Color::White), GameStatus::Normal);
    assert_eq!(validator.classify(&Board::new(), Color::Black), GameStatus::Normal);
    let mate = board_with(&[
        (WK.0, WK.1, 46),
        (BK.0, BK.1, 62),
        (Color::White, PieceType::Queen, 54),
    ]);
    assert!(validator.is_in_check(&mate, Color::Black));
    assert_eq!(validator.get_legal_moves(&mate, Color::Black).len(), 0);
    assert_eq!(validator.classify(&mate, Color::Black), GameStatus::Checkmate);
    assert_eq!(validator.classify(&mate, Color::White), GameStatus::Normal);
    let stale = board_with(&[
        (WK.0, WK.1, 46),
        (BK.0, BK.1, 63),
        (Color::White, PieceType::Queen, 53),
    ]);
    assert!(!validator.is_in_check(&stale, Color::Black));
    assert_eq!(validator.get_legal_moves(&stale, Color::Black).len(), 0);
    assert_eq!(validator.classify(&stale, Color::Black), GameStatus::Stalemate);
    let check = board_with(&[
        (WK.0, WK.1, 4),
        (BK.0, BK.1, 60),
        (Color::White, PieceType::Rook, 28),
    ]);
    assert!(validator.is_in_check(&check, Color::Black));
    assert!(validator.get_legal_moves(&check, Color::Black).len() > 0);
    assert_eq!(validator.classify(&check, Color::Black), GameStatus::Check);
    assert_eq!(validator.classify(&check, Color::White), GameStatus::Normal);
}

#[test]
fn a_back_rank_mate_and_its_escape() {
    let validator = MoveValidator::new();
    let mate = board_with(&[
        (WK.0, WK.1, 6),
        (Color::White, PieceType::Pawn, 13),
        (Color::White, PieceType::Pawn, 14),
        (Color::White, PieceType::Pawn, 15),
        (BK.0, BK.1, 62),
        (Color::Black, PieceType::Rook, 0),
    ]);
    assert_eq!(validator.classify(&mate, Color::White), GameStatus::Checkmate);
    let escape = mate.without_piece(15).with_piece(23, piece(Color::White, PieceType::Pawn)).unwrap();
    assert_eq!(validator.classify(&escape, Color::White), GameStatus::Check);
    assert_eq!(
        sorted(&validator.get_legal_moves(&escape, Color::White)),
        vec![(6, 15, None, false)]
    );
}
