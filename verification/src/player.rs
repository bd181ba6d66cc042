use vstd::prelude::*;
use rand::Rng;
use crate::move_::Move;

verus! {

/// A strategy for choosing the move to play.
pub trait Player {
    /// Chooses one of the given moves. The list must not be empty, and the
    /// move chosen is one of the list.
    fn select_move<'a>(&self, moves: &'a [Move]) -> (chosen: &'a Move)
        requires
            moves@.len() > 0,
        ensures
            moves@.contains(*chosen),
    ;
}

/// The player that chooses among the moves at random.
pub struct RandomPlayer;

impl Default for RandomPlayer {
    fn default() -> (r: Self)
        ensures
            r == RandomPlayer,
    {
        RandomPlayer
    }
}

/// Draws an index below `n` from the thread's random number generator, by
/// `rand::rng()` and `Rng::random_range` on the range `0..n`.
///
/// `random_range` panics on an empty range, so `n` must be positive. Which
/// index comes back is left open: only that it lies in the range.
#[verifier::external_body]
fn random_index(n: usize) -> (i: usize)
    requires
        n > 0,
    ensures
        i < n,
{
    rand::rng().random_range(0..n)
}

/// The move at position `index` of the list.
pub fn choose_at<'a>(moves: &'a [Move], index: usize) -> (chosen: &'a Move)
    requires
        index < moves@.len(),
    ensures
        *chosen == moves@[index as int],
{
    &moves[index]
}

impl Player for RandomPlayer {
    fn select_move<'a>(&self, moves: &'a [Move]) -> (chosen: &'a Move) {
        let random_index: usize = random_index(moves.len());
        choose_at(moves, random_index)
    }
}

} // verus!
