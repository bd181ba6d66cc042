use vstd::prelude::*;
use crate::types::Color;
use crate::types::PieceType;
use crate::types::GameStatus;
use crate::geometry::rank_of;
use crate::geometry::forward;
use crate::position::Position;
use crate::position::lemma_after_move_wf;
use crate::listing::lemma_legal_moves;
use crate::listing::lemma_pseudo_legal_moves;
use crate::position::last_rank;
use crate::position::promotable;
use crate::position::rook_origin;
use crate::position::rook_target;
use crate::position::king_home;
use crate::position::castle_pair;
use crate::move_::Move;

verus! {

/// Side `c` has exactly one king.
pub open spec fn one_king(p: Position, c: Color) -> bool {
    exists|k: int| #[trigger] only_king(p, c, k)
}

/// The king of side `c` stands on `k`, and there is no other.
pub open spec fn only_king(p: Position, c: Color, k: int) -> bool {
    forall|s: int| #[trigger] p.has(s, c, PieceType::King) <==> s == k
}

/// Side `c` holds a castling right only while its king and the rook of that
/// wing stand on their home squares.
pub open spec fn rights_at_home(p: Position, c: Color) -> bool {
    &&& p.rights.allows(c, true) ==> p.has(king_home(c), c, PieceType::King) && p.has(
        king_home(c) + 3,
        c,
        PieceType::Rook,
    )
    &&& p.rights.allows(c, false) ==> p.has(king_home(c), c, PieceType::King) && p.has(
        king_home(c) - 4,
        c,
        PieceType::Rook,
    )
}

/// What holds of every position that arises in play, with `to_move` the side
/// to move: the position is well formed, each side has exactly one king, the
/// side that has just moved is not in check, an en-passant target lies
/// right behind a pawn of the side that has just moved, and castling rights
/// are held only with king and rook at home.
pub open spec fn in_play(p: Position, to_move: Color) -> bool {
    &&& p.wf()
    &&& one_king(p, Color::White)
    &&& one_king(p, Color::Black)
    &&& !p.in_check(to_move.other())
    &&& p.en_passant matches Some(e) ==> p.has(
        e + 8 * forward(to_move.other()),
        to_move.other(),
        PieceType::Pawn,
    )
    &&& rights_at_home(p, Color::White)
    &&& rights_at_home(p, Color::Black)
}

/// The starting position, with White to move, is a position in play.
pub proof fn law_start_in_play()
    ensures
        in_play(Position::start(), Color::White),
{
    let p = Position::start();
    assert(only_king(p, Color::White, 4));
    assert(only_king(p, Color::Black, 60));
    assert forall|k: int| !(#[trigger] p.has(k, Color::Black, PieceType::King) && p.attacked_by(
        k,
        Color::White,
    )) by {
        if p.has(k, Color::Black, PieceType::King) {
            assert(k == 60);
            assert forall|s: int| !(p.has_color(s, Color::White) && #[trigger] p.attacks(s, 60)) by {
            }
        }
    }
}

/// At the start White is neither in check nor without a legal move.
pub proof fn law_start_is_normal()
    ensures
        Position::start().status(Color::White) == GameStatus::Normal,
{
    let p = Position::start();
    let m = Move::plain(12, 28);
    let q = p.after_move(m);
    assert forall|k: int| !(#[trigger] p.has(k, Color::White, PieceType::King) && p.attacked_by(
        k,
        Color::Black,
    )) by {
        if p.has(k, Color::White, PieceType::King) {
            assert(k == 4);
            assert forall|s: int| !(p.has_color(s, Color::Black) && #[trigger] p.attacks(s, 4)) by {
            }
        }
    }
    assert(p.pseudo_legal(Color::White, m));
    assert forall|k: int| !(#[trigger] q.has(k, Color::White, PieceType::King) && q.attacked_by(
        k,
        Color::Black,
    )) by {
        if q.has(k, Color::White, PieceType::King) {
            assert(k == 4);
            assert forall|s: int| !(q.has_color(s, Color::Black) && #[trigger] q.attacks(s, 4)) by {
            }
        }
    }
    assert(p.legal(Color::White, m));
}

/// A pseudo-legal move onto a piece of the other side, other than a king's
/// move between a castling pair, is an attack on that piece.
pub proof fn lemma_capture_is_attack(p: Position, c: Color, m: Move)
    requires
        p.pseudo_legal(c, m),
        p.has_color(m.to as int, c.other()),
        !p.castles(m),
    ensures
        p.attacked_by(m.to as int, c),
{
    assert(p.has_color(m.from as int, c) && p.attacks(m.from as int, m.to as int));
}

/// A legal move takes no king of the other side, where that side is not in
/// check.
pub proof fn lemma_king_not_taken(p: Position, c: Color, m: Move, k: int)
    requires
        p.legal(c, m),
        !p.in_check(c.other()),
        p.has(k, c.other(), PieceType::King),
    ensures
        m.to != k,
        p.captures_in_passing(m) && p.has(
            m.to - 8 * forward(c),
            c.other(),
            PieceType::Pawn,
        ) ==> m.to - 8 * forward(c) != k,
{
    if m.to == k {
        if !p.castles(m) {
            lemma_capture_is_attack(p, c, m);
        }
    }
}

/// A legal move leads from a position in play to a position in play, with
/// the other side to move.
pub proof fn law_in_play_preserved(p: Position, c: Color, m: Move)
    requires
        in_play(p, c),
        p.legal_moves(c).contains(m),
    ensures
        in_play(p.after_move(m), c.other()),
{
    lemma_legal_moves(p, c);
    let q = p.after_move(m);
    let s = m.from as int;
    let t = m.to as int;
    let o = c.other();
    lemma_after_move_wf(p, m);
    let own = choose|k: int| #[trigger] only_king(p, c, k);
    let foe = choose|k: int| #[trigger] only_king(p, o, k);
    assert(p.has(own, c, PieceType::King));
    assert(p.has(foe, o, PieceType::King));
    lemma_king_not_taken(p, c, m, foe);
    let behind = t - 8 * forward(c);
    if p.captures_in_passing(m) {
        assert(p.has(behind, o, PieceType::Pawn));
    }
    if p.pieces[s].kind == PieceType::King {
        assert(p.has(s, c, PieceType::King));
        assert(s == own);
        assert forall|x: int| #[trigger] q.has(x, c, PieceType::King) <==> x == t by {
            if x != t && x != s {
                assert(p.has(x, c, PieceType::King) == (x == own));
            }
        }
        assert(only_king(q, c, t));
    } else {
        assert forall|x: int| #[trigger] q.has(x, c, PieceType::King) <==> x == own by {
            assert(p.has(x, c, PieceType::King) == (x == own));
        }
        assert(only_king(q, c, own));
    }
    assert forall|x: int| #[trigger] q.has(x, o, PieceType::King) <==> x == foe by {
        assert(p.has(x, o, PieceType::King) == (x == foe));
    }
    assert(only_king(q, o, foe));
    assert(one_king(q, c));
    assert(one_king(q, o));
    assert(o.other() == c);
    assert(rights_at_home(q, c)) by {
        assert(p.has(king_home(c), c, PieceType::King) ==> king_home(c) == own);
    }
    assert(rights_at_home(q, o)) by {
        assert(p.has(king_home(o), o, PieceType::King) ==> king_home(o) == foe);
    }
}

/// Every legal move is among the pseudo-legal moves of the same position and
/// side.
pub proof fn law_legal_within_pseudo_legal(p: Position, c: Color)
    requires
        p.wf(),
    ensures
        forall|m: Move| p.legal_moves(c).contains(m) ==> p.pseudo_legal_moves(c).contains(m),
        p.legal_moves(c).to_set().subset_of(p.pseudo_legal_moves(c).to_set()),
        forall|m: Move| p.legal(c, m) ==> p.pseudo_legal(c, m),
{
    lemma_legal_moves(p, c);
    lemma_pseudo_legal_moves(p, c);
}

/// After a legal move, no king of the side that moved stands on a square
/// that the other side attacks.
pub proof fn law_legal_move_keeps_king_safe(p: Position, c: Color, m: Move, k: int)
    requires
        p.wf(),
        p.legal_moves(c).contains(m),
        p.after_move(m).has(k, c, PieceType::King),
    ensures
        !p.after_move(m).attacked_by(k, c.other()),
{
    lemma_legal_moves(p, c);
}

/// The legal moves of a side are determined by the position: two lists made
/// for the same position and side are the same list, and so hold the same
/// moves.
pub proof fn law_legal_moves_repeatable(p: Position, c: Color, first: Seq<Move>, second: Seq<Move>)
    requires
        first == p.legal_moves(c),
        second == p.legal_moves(c),
    ensures
        first == second,
        first.to_set() == second.to_set(),
{
}

/// The same pawn move with another promotion.
pub open spec fn promoting_to(m: Move, k: PieceType) -> Move {
    Move { from: m.from, to: m.to, promotion: Some(k), is_castling: false }
}

/// A pawn move onto the last rank promotes, and the list of pseudo-legal
/// moves holds exactly four moves between its two squares, each once: one
/// for each of queen, rook, bishop and knight. A pawn move onto another rank
/// does not promote.
pub proof fn law_promotion_in_four(p: Position, c: Color, m: Move)
    requires
        p.wf(),
        p.pseudo_legal_moves(c).contains(m),
        p.has(m.from as int, c, PieceType::Pawn),
    ensures
        p.pseudo_legal_moves(c).no_duplicates(),
        rank_of(m.to as int) != last_rank(c) ==> m.promotion is None,
        rank_of(m.to as int) == last_rank(c) ==> {
            &&& m.promotion is Some
            &&& promotable(m.promotion->0)
            &&& forall|x: Move|
                (#[trigger] p.pseudo_legal_moves(c).contains(x) && x.from == m.from && x.to
                    == m.to) <==> (x == promoting_to(m, PieceType::Queen) || x == promoting_to(
                    m,
                    PieceType::Rook,
                ) || x == promoting_to(m, PieceType::Bishop) || x == promoting_to(
                    m,
                    PieceType::Knight,
                ))
        },
{
    lemma_pseudo_legal_moves(p, c);
}

/// After a pseudo-legal double step of a pawn, the en-passant target is the
/// square behind the pawn; after any other pseudo-legal move there is none.
pub proof fn law_en_passant_target(p: Position, c: Color, m: Move)
    requires
        p.wf(),
        p.pseudo_legal_moves(c).contains(m),
    ensures
        p.after_move(m).en_passant == if p.has(m.from as int, c, PieceType::Pawn) && (m.to
            - m.from == 16 || m.from - m.to == 16) {
            Some(m.to - 8 * forward(c))
        } else {
            None
        },
{
    lemma_pseudo_legal_moves(p, c);
}

/// A castling move is legal only where the right for its wing is held, king
/// and rook stand on their home squares, the squares between them are empty,
/// and the other side attacks none of the king's square, the square it
/// crosses and the square it lands on. Where one of these fails, the move is
/// not legal.
pub proof fn law_castling_conditions(p: Position, c: Color, m: Move)
    requires
        p.wf(),
        m.is_castling,
        p.legal_moves(c).contains(m),
    ensures
        m.from == king_home(c),
        castle_pair(m.from as int, m.to as int),
        p.rights.allows(c, m.to > m.from),
        p.has(m.from as int, c, PieceType::King),
        p.has(rook_origin(m.from as int, m.to as int), c, PieceType::Rook),
        forall|u: int|
            (m.from < u < rook_origin(m.from as int, m.to as int) || rook_origin(
                m.from as int,
                m.to as int,
            ) < u < m.from) ==> !p.occupied(u),
        !p.attacked_by(m.from as int, c.other()),
        !p.attacked_by(rook_target(m.from as int, m.to as int), c.other()),
        !p.attacked_by(m.to as int, c.other()),
{
    lemma_legal_moves(p, c);
}

/// Without a legal move the side to move is checkmated where its king is
/// attacked and stalemated where it is not; with a legal move it is in check
/// where its king is attacked.
pub proof fn law_status(p: Position, c: Color)
    requires
        p.wf(),
    ensures
        p.legal_moves(c).len() == 0 && p.in_check(c) ==> p.status(c) == GameStatus::Checkmate,
        p.legal_moves(c).len() == 0 && !p.in_check(c) ==> p.status(c) == GameStatus::Stalemate,
        p.legal_moves(c).len() > 0 && p.in_check(c) ==> p.status(c) == GameStatus::Check,
        p.legal_moves(c).len() > 0 && !p.in_check(c) ==> p.status(c) == GameStatus::Normal,
{
    let moves = p.legal_moves(c);
    lemma_legal_moves(p, c);
    if moves.len() > 0 {
        assert(moves.contains(moves[0]));
        assert(p.legal(c, moves[0]));
    } else {
        assert forall|m: Move| !#[trigger] p.legal(c, m) by {
            if p.legal(c, m) {
                assert(moves.contains(m));
            }
        }
    }
}

} // verus!
