//! The board state and move engine: cell ownership, turn management, and
//! the placement state machine that either finishes the match or hands
//! the turn over.

use vstd::prelude::*;

use crate::coord::{
    Coordinates, coord_index, lemma_coord_index_bounds, lemma_row_base_mono,
    lemma_total_cells_row_base, row_base, total_cells, valid_coord,
};
use crate::win::{detect_win, wins};

verus! {

/// One of the two players, identified by `0` or `1`.
#[derive(Clone, Copy, Debug, PartialEq, Eq, Structural)]
pub struct PlayerId {
    pub id: u32,
}

pub open spec fn valid_player(p: PlayerId) -> bool {
    p.id < 2
}

/// The other of the two players.
pub open spec fn other_player(p: PlayerId) -> PlayerId {
    if p.id == 0 {
        PlayerId { id: 1 }
    } else {
        PlayerId { id: 0 }
    }
}

impl PlayerId {
    pub fn new(id: u32) -> (r: PlayerId)
        requires
            id < 2,
        ensures
            r.id == id,
    {
        PlayerId { id }
    }

    pub fn id(&self) -> (r: u32)
        ensures
            r == self.id,
    {
        self.id
    }
}

/// A placement request: which player puts a piece on which cell.
#[derive(Clone, Copy, Debug, PartialEq, Eq, Structural)]
pub enum Movement {
    Placement { player: PlayerId, coords: Coordinates },
}

impl Movement {
    pub open spec fn spec_player(self) -> PlayerId {
        match self {
            Movement::Placement { player, .. } => player,
        }
    }

    pub open spec fn spec_coords(self) -> Coordinates {
        match self {
            Movement::Placement { coords, .. } => coords,
        }
    }
}

/// Whether the match is still running (and who moves next) or won.
#[derive(Clone, Copy, Debug, PartialEq, Eq, Structural)]
pub enum GameStatus {
    Ongoing { player: PlayerId },
    Finished { winner: PlayerId },
}

/// The player to move, if the match is still running.
pub open spec fn turn_of(st: GameStatus) -> Option<PlayerId> {
    match st {
        GameStatus::Ongoing { player } => Some(player),
        GameStatus::Finished { .. } => None,
    }
}

/// Why a placement was rejected; a rejected placement never changes the match.
#[derive(Clone, Copy, Debug, PartialEq, Eq, Structural)]
pub enum YError {
    GameAlreadyFinished,
    WrongTurn,
    InvalidCoordinate,
    CellOccupied,
}

/// The free (unowned) cell indices below `k`, in increasing order.
pub open spec fn free_upto(board: Seq<Option<PlayerId>>, k: int) -> Seq<int>
    decreases k,
{
    if k <= 0 {
        Seq::<int>::empty()
    } else {
        free_upto(board, k - 1) + (if board[k - 1] is None {
            seq![k - 1]
        } else {
            Seq::<int>::empty()
        })
    }
}

/// All free cell indices of the board, in increasing order.
pub open spec fn free_seq(board: Seq<Option<PlayerId>>) -> Seq<int> {
    free_upto(board, board.len() as int)
}

/// How many cells are free.
pub open spec fn free_count(board: Seq<Option<PlayerId>>) -> int {
    free_seq(board).len() as int
}

/// The free-index sequence holds exactly the free indices below `k`, in
/// strictly increasing order.
pub proof fn lemma_free_upto_props(board: Seq<Option<PlayerId>>, k: int)
    requires
        0 <= k <= board.len(),
    ensures
        forall|j: int|
            0 <= j < free_upto(board, k).len() ==> 0 <= #[trigger] free_upto(board, k)[j] < k
                && board[free_upto(board, k)[j]] is None,
        forall|j1: int, j2: int|
            0 <= j1 < j2 < free_upto(board, k).len() ==> #[trigger] free_upto(board, k)[j1]
                < #[trigger] free_upto(board, k)[j2],
        forall|i: int|
            0 <= i < k && board[i] is None ==> #[trigger] free_upto(board, k).contains(i),
        free_upto(board, k).len() <= k,
    decreases k,
{
    if k > 0 {
        lemma_free_upto_props(board, k - 1);
        let prev = free_upto(board, k - 1);
        let cur = free_upto(board, k);
        assert forall|i: int| 0 <= i < k && board[i] is None implies #[trigger] cur.contains(
            i,
        ) by {
            if i == k - 1 {
                assert(cur[prev.len() as int] == i);
            } else {
                assert(prev.contains(i));
                let j = choose|j: int| 0 <= j < prev.len() && prev[j] == i;
                assert(cur[j] == i);
            }
        }
    }
}

/// On a board with every cell free, the free-index sequence has one entry
/// per cell.
pub proof fn lemma_free_upto_all_free(board: Seq<Option<PlayerId>>, k: int)
    requires
        0 <= k <= board.len(),
        forall|i: int| 0 <= i < board.len() ==> board[i] is None,
    ensures
        free_upto(board, k).len() == k,
    decreases k,
{
    if k > 0 {
        lemma_free_upto_all_free(board, k - 1);
    }
}

/// The turn strictly alternates: an accepted placement that does not
/// finish the match hands the turn to the other of the two players (see
/// `GameY::add_move`), and handing it over twice returns it to the mover.
pub proof fn lemma_turn_alternates(p: PlayerId)
    requires
        valid_player(p),
    ensures
        other_player(p) != p,
        valid_player(other_player(p)),
        other_player(other_player(p)) == p,
{
}

/// A board with every cell empty has one free index per cell: a fresh
/// match of side `n` offers exactly `n * (n + 1) / 2` cells.
pub proof fn lemma_fresh_board_all_free(board: Seq<Option<PlayerId>>)
    requires
        forall|i: int| 0 <= i < board.len() ==> board[i] is None,
    ensures
        free_count(board) == board.len(),
{
    lemma_free_upto_all_free(board, board.len() as int);
}

/// A running match of the Game of Y: the board size, who owns each cell,
/// and whose turn it is (or who won).
pub struct GameY {
    size: u32,
    cells: Vec<Option<PlayerId>>,
    status: GameStatus,
}

impl GameY {
    /// The side length of the board.
    pub closed spec fn spec_size(self) -> int {
        self.size as int
    }

    /// The ownership of each cell, by linear index.
    pub closed spec fn board(self) -> Seq<Option<PlayerId>> {
        self.cells@
    }

    /// The state of the match.
    pub closed spec fn spec_status(self) -> GameStatus {
        self.status
    }

    /// A well-formed match: positive size, a board that fits the machine,
    /// one ownership slot per cell, and only the two players anywhere.
    pub open spec fn wf(self) -> bool {
        &&& self.spec_size() >= 1
        &&& total_cells(self.spec_size()) <= usize::MAX
        &&& self.board().len() == total_cells(self.spec_size())
        &&& (match self.spec_status() {
            GameStatus::Ongoing { player } => valid_player(player),
            GameStatus::Finished { winner } => valid_player(winner),
        })
        &&& (forall|i: int|
            0 <= i < self.board().len() ==> (#[trigger] self.board()[i] matches Some(p)
                ==> valid_player(p)))
    }

    /// A fresh match: every cell empty, player 0 to move.
    pub fn new(size: u32) -> (r: GameY)
        requires
            size >= 1,
            total_cells(size as int) <= usize::MAX,
        ensures
            r.wf(),
            r.spec_size() == size,
            r.board().len() == total_cells(size as int),
            forall|i: int| 0 <= i < r.board().len() ==> r.board()[i] is None,
            r.spec_status() == (GameStatus::Ongoing { player: PlayerId { id: 0 } }),
    {
        proof {
            lemma_total_cells_row_base(size as int);
        }
        let mut total: usize = 0;
        let mut i: u32 = 0;
        while i < size
            invariant
                i <= size,
                total == row_base(i as int, size as int),
                row_base(size as int, size as int) == total_cells(size as int),
                total_cells(size as int) <= usize::MAX,
            decreases size - i,
        {
            proof {
                assert(row_base(i + 1, size as int) == row_base(i as int, size as int) + (size
                    - i));
                lemma_row_base_mono(i + 1, size as int, size as int);
            }
            total = total + (size - i) as usize;
            i = i + 1;
        }
        let mut cells: Vec<Option<PlayerId>> = Vec::new();
        let mut j: usize = 0;
        while j < total
            invariant
                j <= total,
                cells@.len() == j,
                forall|t: int| 0 <= t < j ==> cells@[t] is None,
            decreases total - j,
        {
            cells.push(None);
            j = j + 1;
        }
        GameY { size, cells, status: GameStatus::Ongoing { player: PlayerId { id: 0 } } }
    }

    /// The side length of the board.
    pub fn board_size(&self) -> (r: u32)
        ensures
            r as int == self.spec_size(),
    {
        self.size
    }

    /// The state of the match.
    pub fn status(&self) -> (r: GameStatus)
        ensures
            r == self.spec_status(),
    {
        self.status
    }

    /// The player to move, or nothing once the match is over.
    pub fn next_player(&self) -> (r: Option<PlayerId>)
        ensures
            r == turn_of(self.spec_status()),
    {
        match self.status {
            GameStatus::Ongoing { player } => Some(player),
            GameStatus::Finished { .. } => None,
        }
    }

    /// The owner of a cell; empty for free cells and for coordinates that
    /// lie outside the board.
    pub fn player_at(&self, coords: &Coordinates) -> (r: Option<PlayerId>)
        requires
            self.wf(),
        ensures
            r == (if valid_coord(*coords, self.spec_size()) {
                self.board()[coord_index(*coords, self.spec_size())]
            } else {
                None::<PlayerId>
            }),
    {
        let sum: u64 = coords.x() as u64 + coords.y() as u64 + coords.z() as u64;
        if sum == (self.size - 1) as u64 {
            let idx = coords.to_index(self.size);
            proof {
                lemma_coord_index_bounds(*coords, self.spec_size());
            }
            self.cells[idx]
        } else {
            None
        }
    }

    /// The indices of all free cells, in increasing order.
    pub fn available_cells(&self) -> (r: Vec<usize>)
        requires
            self.wf(),
        ensures
            r@.len() == free_count(self.board()),
            forall|j: int| 0 <= j < r@.len() ==> r@[j] as int == free_seq(self.board())[j],
    {
        let mut r: Vec<usize> = Vec::new();
        let mut i: usize = 0;
        while i < self.cells.len()
            invariant
                i <= self.cells@.len(),
                r@.len() == free_upto(self.cells@, i as int).len(),
                forall|j: int|
                    0 <= j < r@.len() ==> r@[j] as int == free_upto(self.cells@, i as int)[j],
            decreases self.cells@.len() - i,
        {
            if self.cells[i].is_none() {
                r.push(i);
            }
            i = i + 1;
        }
        r
    }

    /// Applies a placement: validates it, records ownership, and either
    /// finishes the match (the placement completed a group touching all
    /// three sides) or hands the turn to the other player. A rejected
    /// placement leaves the match exactly as it was.
    pub fn add_move(&mut self, movement: Movement) -> (r: Result<(), YError>)
        requires
            old(self).wf(),
        ensures
            final(self).wf(),
            final(self).spec_size() == old(self).spec_size(),
            r is Err ==> final(self).board() == old(self).board() && final(self).spec_status()
                == old(self).spec_status(),
            (r == Err::<(), YError>(YError::GameAlreadyFinished)) <==> old(self).spec_status() is Finished,
            (old(self).spec_status() matches GameStatus::Ongoing { player: cur } ==> {
                let p = movement.spec_player();
                let c = movement.spec_coords();
                let n = old(self).spec_size();
                &&& ((r == Err::<(), YError>(YError::WrongTurn)) <==> p != cur)
                &&& (p == cur ==> ((r == Err::<(), YError>(YError::InvalidCoordinate)) <==> !valid_coord(c, n)))
                &&& (p == cur && valid_coord(c, n) ==> ((r == Err::<(), YError>(YError::CellOccupied))
                    <==> old(self).board()[coord_index(c, n)] is Some))
                &&& ((r == Ok::<(), YError>(())) <==> (p == cur && valid_coord(c, n)
                    && old(self).board()[coord_index(c, n)] is None))
                &&& (r is Ok ==> final(self).board() == old(self).board().update(
                    coord_index(c, n),
                    Some(p),
                ))
                &&& (r is Ok ==> final(self).spec_status() == (if wins(
                    final(self).board(),
                    n,
                    p,
                    c,
                ) {
                    GameStatus::Finished { winner: p }
                } else {
                    GameStatus::Ongoing { player: other_player(p) }
                }))
            }),
    {
        let Movement::Placement { player, coords } = movement;
        match self.status {
            GameStatus::Finished { .. } => Err(YError::GameAlreadyFinished),
            GameStatus::Ongoing { player: cur } => {
                if player.id != cur.id {
                    Err(YError::WrongTurn)
                } else {
                    let sum: u64 = coords.x() as u64 + coords.y() as u64 + coords.z() as u64;
                    if sum != (self.size - 1) as u64 {
                        Err(YError::InvalidCoordinate)
                    } else {
                        proof {
                            lemma_coord_index_bounds(coords, self.spec_size());
                        }
                        let idx = coords.to_index(self.size);
                        if self.cells[idx].is_some() {
                            Err(YError::CellOccupied)
                        } else {
                            self.cells.set(idx, Some(player));
                            let won = detect_win(&self.cells, self.size, player, coords);
                            if won {
                                self.status = GameStatus::Finished { winner: player };
                            } else {
                                self.status = GameStatus::Ongoing {
                                    player: PlayerId { id: 1 - cur.id },
                                };
                            }
                            Ok(())
                        }
                    }
                }
            },
        }
    }

    /// The occupied cells with their owners, ordered by linear index.
    pub fn board_state(&self) -> (r: Vec<(Coordinates, PlayerId)>)
        requires
            self.wf(),
        ensures
            forall|k: int|
                0 <= k < r@.len() ==> valid_coord(#[trigger] r@[k].0, self.spec_size())
                    && self.board()[coord_index(r@[k].0, self.spec_size())] == Some(r@[k].1),
            forall|k1: int, k2: int|
                0 <= k1 < k2 < r@.len() ==> coord_index(#[trigger] r@[k1].0, self.spec_size())
                    < coord_index(#[trigger] r@[k2].0, self.spec_size()),
            forall|i: int|
                0 <= i < self.board().len() && self.board()[i] is Some ==> exists|k: int|
                    0 <= k < r@.len() && coord_index(#[trigger] r@[k].0, self.spec_size()) == i,
    {
        let n = self.size;
        let mut r: Vec<(Coordinates, PlayerId)> = Vec::new();
        let mut i: usize = 0;
        while i < self.cells.len()
            invariant
                self.wf(),
                n == self.size,
                i <= self.cells@.len(),
                forall|k: int|
                    0 <= k < r@.len() ==> valid_coord(#[trigger] r@[k].0, self.spec_size())
                        && self.board()[coord_index(r@[k].0, self.spec_size())] == Some(r@[k].1)
                        && coord_index(r@[k].0, self.spec_size()) < i,
                forall|k1: int, k2: int|
                    0 <= k1 < k2 < r@.len() ==> coord_index(#[trigger] r@[k1].0, self.spec_size())
                        < coord_index(#[trigger] r@[k2].0, self.spec_size()),
                forall|i0: int|
                    0 <= i0 < i && self.board()[i0] is Some ==> exists|k: int|
                        0 <= k < r@.len() && coord_index(#[trigger] r@[k].0, self.spec_size())
                            == i0,
            decreases self.cells@.len() - i,
        {
            if let Some(p) = self.cells[i] {
                let c = Coordinates::from_index(i, n);
                let ghost prev = r@;
                r.push((c, p));
                proof {
                    assert forall|i0: int|
                        0 <= i0 <= i as int && self.board()[i0] is Some implies exists|k: int|
                        0 <= k < r@.len() && coord_index(#[trigger] r@[k].0, self.spec_size())
                            == i0 by {
                        if i0 == i as int {
                            assert(coord_index(r@[prev.len() as int].0, self.spec_size()) == i0);
                        } else {
                            let k0 = choose|k: int|
                                0 <= k < prev.len() && coord_index(
                                    #[trigger] prev[k].0,
                                    self.spec_size(),
                                ) == i0;
                            assert(coord_index(r@[k0].0, self.spec_size()) == i0);
                        }
                    }
                }
            }
            i = i + 1;
        }
        r
    }
}

} // verus!
