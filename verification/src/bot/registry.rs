//! A fixed, string-keyed registry of the available strategies, resolved
//! once at start-up; callers look a strategy up by name and ask it for a
//! move.

use vstd::prelude::*;
use vstd::string::StrSliceExecFns;

use crate::bot::intermediate::{IntermediateBot, heuristic_pick};
use crate::bot::random::RandomBot;
use crate::coord::{Coordinates, coord_index, lemma_coord_index_bounds, valid_coord};
use crate::game::{GameStatus, GameY, free_count};

verus! {

/// One registered strategy.
#[derive(Clone, Copy)]
pub enum YBot {
    Random(RandomBot),
    Intermediate(IntermediateBot),
}

/// The name under which a strategy registers itself.
pub open spec fn bot_name(b: YBot) -> Seq<char> {
    match b {
        YBot::Random(_) => "random_bot"@,
        YBot::Intermediate(_) => "intermediate_bot"@,
    }
}

impl YBot {
    /// The registered name of this strategy.
    pub fn name(&self) -> (r: &'static str)
        ensures
            r@ == bot_name(*self),
    {
        match self {
            YBot::Random(b) => b.name(),
            YBot::Intermediate(b) => b.name(),
        }
    }

    /// Asks the strategy for a move: some free cell of the board, and
    /// nothing exactly when the match is over or no cell is free.
    pub fn choose_move(&self, board: &GameY) -> (r: Option<Coordinates>)
        requires
            board.wf(),
        ensures
            (r is Some) <==> (board.spec_status() is Ongoing && free_count(board.board()) > 0),
            r matches Some(c) ==> {
                let n = board.spec_size();
                &&& valid_coord(c, n)
                &&& 0 <= coord_index(c, n) < board.board().len()
                &&& board.board()[coord_index(c, n)] is None
            },
            self is Intermediate ==> (r matches Some(c) ==> (board.spec_status()
                matches GameStatus::Ongoing { player: me } && heuristic_pick(
                board.board(),
                board.spec_size(),
                me,
                c,
            ))),
    {
        let r = match self {
            YBot::Random(b) => b.choose_move(board),
            YBot::Intermediate(b) => b.choose_move(board),
        };
        proof {
            match r {
                Some(c) => lemma_coord_index_bounds(c, board.spec_size()),
                None => (),
            }
        }
        r
    }
}

/// Character-for-character string comparison.
fn str_eq(a: &str, b: &str) -> (r: bool)
    ensures
        r == (a@ == b@),
{
    let la = a.unicode_len();
    let lb = b.unicode_len();
    if la != lb {
        return false;
    }
    let mut i: usize = 0;
    while i < la
        invariant
            i <= la,
            la == a@.len(),
            lb == b@.len(),
            la == lb,
            forall|t: int| 0 <= t < i ==> a@[t] == b@[t],
        decreases la - i,
    {
        if a.get_char(i) != b.get_char(i) {
            return false;
        }
        i = i + 1;
    }
    proof {
        assert(a@ =~= b@);
    }
    true
}

/// The strategies known to the service, in registration order.
pub struct YBotRegistry {
    bots: Vec<YBot>,
}

impl YBotRegistry {
    /// The registered strategies, in registration order.
    pub closed spec fn spec_bots(self) -> Seq<YBot> {
        self.bots@
    }

    /// An empty registry.
    pub fn new() -> (r: YBotRegistry)
        ensures
            r.spec_bots().len() == 0,
    {
        YBotRegistry { bots: Vec::new() }
    }

    /// The registry extended by one strategy.
    pub fn with_bot(self, bot: YBot) -> (r: YBotRegistry)
        ensures
            r.spec_bots() == self.spec_bots().push(bot),
    {
        let mut bots = self.bots;
        bots.push(bot);
        YBotRegistry { bots }
    }

    /// The first registered strategy carrying `name`, if any.
    pub fn find(&self, name: &str) -> (r: Option<YBot>)
        ensures
            r matches Some(b) ==> exists|k: int|
                0 <= k < self.spec_bots().len() && #[trigger] self.spec_bots()[k] == b && bot_name(
                    b,
                ) == name@ && (forall|j: int|
                    0 <= j < k ==> bot_name(#[trigger] self.spec_bots()[j]) != name@),
            r is None ==> forall|k: int|
                0 <= k < self.spec_bots().len() ==> bot_name(#[trigger] self.spec_bots()[k])
                    != name@,
    {
        let mut k: usize = 0;
        while k < self.bots.len()
            invariant
                k <= self.bots@.len(),
                forall|j: int| 0 <= j < k ==> bot_name(#[trigger] self.bots@[j]) != name@,
            decreases self.bots@.len() - k,
        {
            let b = self.bots[k];
            if str_eq(b.name(), name) {
                proof {
                    assert(self.spec_bots()[k as int] == b);
                }
                return Some(b);
            }
            k = k + 1;
        }
        None
    }
}

} // verus!
