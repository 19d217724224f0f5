//! A strategy that plays a uniformly chosen free cell.

use vstd::prelude::*;

use crate::coord::{Coordinates, coord_index, valid_coord};
use crate::game::{GameY, free_count, free_seq, lemma_free_upto_props};

verus! {

/// Relies on rand::random: draws one machine word from the thread-local
/// generator; nothing is assumed of its value.
#[verifier::external_body]
fn random_u64() -> u64 {
    rand::random::<u64>()
}

/// A strategy that plays a uniformly chosen free cell.
#[derive(Clone, Copy)]
pub struct RandomBot;

impl RandomBot {
    /// The name under which this strategy is registered.
    pub fn name(&self) -> (r: &'static str)
        ensures
            r@ == "random_bot"@,
    {
        "random_bot"
    }

    /// The free cell at position `seed mod free-cell-count` of the
    /// index-ordered free list; nothing exactly when the match is over or
    /// no cell is free.
    pub fn choose_move_seeded(board: &GameY, seed: u64) -> (r: Option<Coordinates>)
        requires
            board.wf(),
        ensures
            (r is Some) <==> (board.spec_status() is Ongoing && free_count(board.board()) > 0),
            r matches Some(c) ==> {
                let n = board.spec_size();
                &&& valid_coord(c, n)
                &&& 0 <= coord_index(c, n) < board.board().len()
                &&& board.board()[coord_index(c, n)] is None
                &&& coord_index(c, n) == free_seq(board.board())[seed as int % free_count(
                    board.board(),
                )]
            },
    {
        if board.next_player().is_none() {
            return None;
        }
        let avail = board.available_cells();
        if avail.len() == 0 {
            return None;
        }
        proof {
            lemma_free_upto_props(board.board(), board.board().len() as int);
        }
        let pos = (seed % (avail.len() as u64)) as usize;
        let c = Coordinates::from_index(avail[pos], board.board_size());
        proof {
            crate::coord::lemma_coord_index_bounds(c, board.spec_size());
        }
        Some(c)
    }

    /// Plays a uniformly chosen free cell; nothing exactly when the match
    /// is over or no cell is free.
    pub fn choose_move(&self, board: &GameY) -> (r: Option<Coordinates>)
        requires
            board.wf(),
        ensures
            (r is Some) <==> (board.spec_status() is Ongoing && free_count(board.board()) > 0),
            r matches Some(c) ==> {
                let n = board.spec_size();
                &&& valid_coord(c, n)
                &&& 0 <= coord_index(c, n) < board.board().len()
                &&& board.board()[coord_index(c, n)] is None
            },
    {
        let seed = random_u64();
        Self::choose_move_seeded(board, seed)
    }
}

} // verus!
