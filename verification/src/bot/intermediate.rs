//! A strategy that scores every free cell and plays the best one.
//!
//! Each free cell is scored from four ingredients: closeness to the
//! centre of the triangle, adjacency to own pieces, closeness to opponent
//! pieces (one and two steps away), and how many sides it touches. The
//! cell with the highest combined score is chosen; ties go to the cell
//! with the lowest linear index.

use vstd::prelude::*;

use crate::coord::{
    Coordinates, coord_index, lemma_coord_index_bounds, lemma_coord_index_injective,
    lemma_nbrs_elements, nbrs, valid_coord,
};
use crate::game::{
    GameStatus, GameY, PlayerId, free_count, free_seq, lemma_free_upto_props, other_player,
};
use crate::win::owned_by;

verus! {

/// How many cells of `list` are owned by `p`, with multiplicity.
pub open spec fn owned_count(
    list: Seq<Coordinates>,
    board: Seq<Option<PlayerId>>,
    n: int,
    p: PlayerId,
) -> int
    decreases list.len(),
{
    if list.len() == 0 {
        0
    } else {
        owned_count(list.drop_last(), board, n, p) + if owned_by(board, n, list.last(), p) {
            1int
        } else {
            0int
        }
    }
}

proof fn lemma_owned_count_le(
    list: Seq<Coordinates>,
    board: Seq<Option<PlayerId>>,
    n: int,
    p: PlayerId,
)
    ensures
        0 <= owned_count(list, board, n, p) <= list.len(),
    decreases list.len(),
{
    if list.len() > 0 {
        lemma_owned_count_le(list.drop_last(), board, n, p);
    }
}

/// The entries of `s` other than `c`, keeping order and multiplicity.
pub open spec fn seq_without(s: Seq<Coordinates>, c: Coordinates) -> Seq<Coordinates>
    decreases s.len(),
{
    if s.len() == 0 {
        Seq::<Coordinates>::empty()
    } else {
        seq_without(s.drop_last(), c) + (if s.last() == c {
            Seq::<Coordinates>::empty()
        } else {
            seq![s.last()]
        })
    }
}

proof fn lemma_seq_without_len(s: Seq<Coordinates>, c: Coordinates)
    ensures
        seq_without(s, c).len() <= s.len(),
    decreases s.len(),
{
    if s.len() > 0 {
        lemma_seq_without_len(s.drop_last(), c);
    }
}

/// The cells reachable in two steps from `c`, taking the neighbours of
/// the first `k` neighbours: for each, its neighbours other than `c`
/// itself, in enumeration order and with multiplicity.
pub open spec fn two_hop_upto(c: Coordinates, k: int) -> Seq<Coordinates>
    decreases k,
{
    if k <= 0 {
        Seq::<Coordinates>::empty()
    } else {
        two_hop_upto(c, k - 1) + seq_without(nbrs(nbrs(c)[k - 1]), c)
    }
}

/// All cells reachable in two steps from `c`, with multiplicity.
pub open spec fn two_hop(c: Coordinates) -> Seq<Coordinates> {
    two_hop_upto(c, nbrs(c).len() as int)
}

proof fn lemma_two_hop_upto_len(c: Coordinates, k: int)
    requires
        c.x + c.y + c.z < u32::MAX,
        0 <= k <= nbrs(c).len(),
    ensures
        two_hop_upto(c, k).len() <= 6 * k,
    decreases k,
{
    if k > 0 {
        lemma_two_hop_upto_len(c, k - 1);
        lemma_nbrs_elements(c);
        lemma_nbrs_elements(nbrs(c)[k - 1]);
        lemma_seq_without_len(nbrs(nbrs(c)[k - 1]), c);
    }
}

/// The smallest barycentric component: zero on the border, maximal at the
/// centre of the triangle.
pub open spec fn min_component(c: Coordinates) -> int {
    if c.x <= c.y && c.x <= c.z {
        c.x as int
    } else if c.y <= c.z {
        c.y as int
    } else {
        c.z as int
    }
}

/// How many of the three sides the cell touches.
pub open spec fn side_touch_count(c: Coordinates) -> int {
    (if c.x == 0 {
        1int
    } else {
        0int
    }) + (if c.y == 0 {
        1int
    } else {
        0int
    }) + (if c.z == 0 {
        1int
    } else {
        0int
    })
}

/// The heuristic score of placing a piece of `me` at `c`, as an integer.
///
/// The intended ranking weighs centrality `min(x,y,z)` normalised by
/// `(n-1)/3` with weight 3, own neighbours with weight 2.5, opponent
/// pieces at one and two steps with weight 2 (counted double at one
/// step), and touched sides with weight 0.5. Multiplying every weight by
/// `2*(n-1)` — a positive constant for any one board with more than one
/// cell — clears all fractions and keeps the comparisons between cells
/// exact in integers.
pub open spec fn cell_score(
    board: Seq<Option<PlayerId>>,
    n: int,
    c: Coordinates,
    me: PlayerId,
    opp: PlayerId,
) -> int {
    18 * min_component(c) + (n - 1) * (5 * owned_count(nbrs(c), board, n, me) + 8 * owned_count(
        nbrs(c),
        board,
        n,
        opp,
    ) + 4 * owned_count(two_hop(c), board, n, opp) + side_touch_count(c))
}

/// The cell the heuristic owes the player `me` on this board: a free
/// cell of maximal score whose linear index is lowest among the maxima.
pub open spec fn heuristic_pick(
    board: Seq<Option<PlayerId>>,
    n: int,
    me: PlayerId,
    c: Coordinates,
) -> bool {
    let opp = other_player(me);
    &&& valid_coord(c, n)
    &&& 0 <= coord_index(c, n) < board.len()
    &&& board[coord_index(c, n)] is None
    &&& (forall|d: Coordinates|
        valid_coord(d, n) && #[trigger] coord_index(d, n) >= 0 && coord_index(d, n) < board.len()
            && board[coord_index(d, n)] is None ==> cell_score(board, n, d, me, opp)
            <= cell_score(board, n, c, me, opp))
    &&& (forall|d: Coordinates|
        valid_coord(d, n) && #[trigger] coord_index(d, n) >= 0 && coord_index(d, n) < board.len()
            && board[coord_index(d, n)] is None && coord_index(d, n) < coord_index(c, n)
            ==> cell_score(board, n, d, me, opp) < cell_score(board, n, c, me, opp))
}

/// A strategy that scores every free cell and plays a best one, ties
/// going to the lowest linear index.
#[derive(Clone, Copy)]
pub struct IntermediateBot;

impl IntermediateBot {
    /// The name under which this strategy is registered.
    pub fn name(&self) -> (r: &'static str)
        ensures
            r@ == "intermediate_bot"@,
    {
        "intermediate_bot"
    }

    /// The neighbours of a cell, as the board geometry defines them.
    pub fn neighbors(coords: &Coordinates) -> (r: Vec<Coordinates>)
        requires
            coords.x + coords.y + coords.z < u32::MAX,
        ensures
            r@ == nbrs(*coords),
    {
        coords.neighbors()
    }

    /// The cells reachable in exactly two steps (neighbours of
    /// neighbours, the origin itself excluded), with multiplicity.
    pub fn neighbors_2(coords: &Coordinates) -> (r: Vec<Coordinates>)
        requires
            coords.x + coords.y + coords.z < u32::MAX,
        ensures
            r@ == two_hop(*coords),
    {
        let mut result: Vec<Coordinates> = Vec::new();
        let n1s = Self::neighbors(coords);
        let mut k: usize = 0;
        proof {
            lemma_nbrs_elements(*coords);
        }
        while k < n1s.len()
            invariant
                coords.x + coords.y + coords.z < u32::MAX,
                n1s@ == nbrs(*coords),
                k <= n1s@.len(),
                result@ == two_hop_upto(*coords, k as int),
            decreases n1s@.len() - k,
        {
            proof {
                lemma_nbrs_elements(*coords);
            }
            let n2s = n1s[k].neighbors();
            let mut j: usize = 0;
            let ghost before = result@;
            while j < n2s.len()
                invariant
                    n2s@ == nbrs(n1s@[k as int]),
                    j <= n2s@.len(),
                    result@ == before + seq_without(n2s@.take(j as int), *coords),
                decreases n2s@.len() - j,
            {
                let cand = n2s[j];
                proof {
                    assert(n2s@.take(j as int + 1).drop_last() =~= n2s@.take(j as int));
                    assert(n2s@.take(j as int + 1).last() == n2s@[j as int]);
                }
                if !(cand == *coords) {
                    result.push(cand);
                }
                j = j + 1;
            }
            proof {
                assert(n2s@.take(n2s@.len() as int) =~= n2s@);
            }
            k = k + 1;
        }
        result
    }

    /// Counts the cells of `list` owned by `p`, with multiplicity.
    fn count_owned(list: &Vec<Coordinates>, board: &GameY, p: PlayerId) -> (r: usize)
        requires
            board.wf(),
        ensures
            r as int == owned_count(list@, board.board(), board.spec_size(), p),
            r <= list@.len(),
    {
        let mut cnt: usize = 0;
        let mut j: usize = 0;
        while j < list.len()
            invariant
                board.wf(),
                j <= list@.len(),
                cnt <= j,
                cnt as int == owned_count(
                    list@.take(j as int),
                    board.board(),
                    board.spec_size(),
                    p,
                ),
            decreases list@.len() - j,
        {
            proof {
                assert(list@.take(j as int + 1).drop_last() =~= list@.take(j as int));
                assert(list@.take(j as int + 1).last() == list@[j as int]);
                if valid_coord(list@[j as int], board.spec_size()) {
                    lemma_coord_index_bounds(list@[j as int], board.spec_size());
                }
            }
            match board.player_at(&list[j]) {
                Some(q) => {
                    if q.id == p.id {
                        cnt = cnt + 1;
                    }
                },
                None => {},
            }
            j = j + 1;
        }
        proof {
            assert(list@.take(list@.len() as int) =~= list@);
        }
        cnt
    }

    /// The heuristic score of placing a piece of `my_id` at `candidate`.
    fn score_cell(
        candidate: &Coordinates,
        board: &GameY,
        my_id: PlayerId,
        opp_id: PlayerId,
    ) -> (r: u64)
        requires
            board.wf(),
            valid_coord(*candidate, board.spec_size()),
        ensures
            r as int == cell_score(board.board(), board.spec_size(), *candidate, my_id, opp_id),
    {
        let n = board.board_size();
        proof {
            lemma_nbrs_elements(*candidate);
            lemma_two_hop_upto_len(*candidate, nbrs(*candidate).len() as int);
        }
        let nv = Self::neighbors(candidate);
        let n2v = Self::neighbors_2(candidate);
        let own_adj = Self::count_owned(&nv, board, my_id);
        let opp_adj = Self::count_owned(&nv, board, opp_id);
        let opp_two = Self::count_owned(&n2v, board, opp_id);
        let mut side: u32 = 0;
        if candidate.x() == 0 {
            side = side + 1;
        }
        if candidate.y() == 0 {
            side = side + 1;
        }
        if candidate.z() == 0 {
            side = side + 1;
        }
        let m: u32 = if candidate.x() <= candidate.y() && candidate.x() <= candidate.z() {
            candidate.x()
        } else if candidate.y() <= candidate.z() {
            candidate.y()
        } else {
            candidate.z()
        };
        let factor: u64 = 5 * (own_adj as u64) + 8 * (opp_adj as u64) + 4 * (opp_two as u64)
            + (side as u64);
        proof {
            assert(factor <= 225);
            assert(((n - 1) as u64) * factor <= 0xffff_ffffu64 * 225) by (nonlinear_arith)
                requires
                    (n - 1) as u64 <= 0xffff_ffffu64,
                    factor <= 225,
            ;
        }
        18u64 * (m as u64) + ((n - 1) as u64) * factor
    }

    /// Picks a free cell with the highest heuristic score for the player
    /// to move; among equal scores the cell with the lowest linear index
    /// wins. Yields nothing exactly when the match is over or no cell is
    /// free.
    #[verifier::rlimit(80)]
    pub fn choose_move(&self, board: &GameY) -> (r: Option<Coordinates>)
        requires
            board.wf(),
        ensures
            (r is Some) <==> (board.spec_status() is Ongoing && free_count(board.board()) > 0),
            r matches Some(c) ==> (board.spec_status() matches GameStatus::Ongoing { player: me }
                && heuristic_pick(board.board(), board.spec_size(), me, c)),
    {
        let me = match board.next_player() {
            Some(p) => p,
            None => {
                return None;
            },
        };
        let avail = board.available_cells();
        if avail.len() == 0 {
            return None;
        }
        let n = board.board_size();
        let opp = PlayerId::new(1 - me.id());
        let ghost bd = board.board();
        let ghost ni = board.spec_size();
        let ghost fs = free_seq(bd);
        proof {
            assert(opp == other_player(me));
            lemma_free_upto_props(bd, bd.len() as int);
        }
        proof {
            assert(avail@[0] as int == fs[0]);
            assert(0 <= fs[0] < bd.len());
        }
        let mut best_c = Coordinates::from_index(avail[0], n);
        let mut best_s = Self::score_cell(&best_c, board, me, opp);
        proof {
            lemma_coord_index_bounds(best_c, ni);
            assert forall|d: Coordinates|
                valid_coord(d, ni) && #[trigger] coord_index(d, ni) >= 0 && coord_index(d, ni)
                    < bd.len() && bd[coord_index(d, ni)] is None && coord_index(d, ni)
                    <= fs[0] implies cell_score(bd, ni, d, me, opp) <= best_s as int by {
                let di = coord_index(d, ni);
                assert(fs.contains(di));
                let j = choose|j: int| 0 <= j < fs.len() && fs[j] == di;
                if j > 0 {
                    assert(fs[0] < fs[j]);
                    assert(false);
                }
                lemma_coord_index_injective(d, best_c, ni);
            }
            assert forall|d: Coordinates|
                valid_coord(d, ni) && #[trigger] coord_index(d, ni) >= 0 && coord_index(d, ni)
                    < bd.len() && bd[coord_index(d, ni)] is None && coord_index(d, ni)
                    < coord_index(best_c, ni) implies cell_score(bd, ni, d, me, opp) < best_s as int by {
                let di = coord_index(d, ni);
                assert(fs.contains(di));
                let j = choose|j: int| 0 <= j < fs.len() && fs[j] == di;
                if j > 0 {
                    assert(fs[0] < fs[j]);
                }
                assert(false);
            }
        }
        let mut k: usize = 1;
        while k < avail.len()
            invariant
                board.wf(),
                bd == board.board(),
                ni == board.spec_size(),
                fs == free_seq(bd),
                n as int == ni,
                avail@.len() == fs.len(),
                forall|j: int| 0 <= j < avail@.len() ==> avail@[j] as int == fs[j],
                1 <= k <= avail@.len(),
                valid_coord(best_c, ni),
                0 <= coord_index(best_c, ni) < bd.len(),
                bd[coord_index(best_c, ni)] is None,
                best_s as int == cell_score(bd, ni, best_c, me, opp),
                forall|d: Coordinates|
                    valid_coord(d, ni) && #[trigger] coord_index(d, ni) >= 0 && coord_index(d, ni)
                        < bd.len() && bd[coord_index(d, ni)] is None && coord_index(d, ni) <= fs[k
                        - 1] ==> cell_score(bd, ni, d, me, opp) <= best_s as int,
                forall|d: Coordinates|
                    valid_coord(d, ni) && #[trigger] coord_index(d, ni) >= 0 && coord_index(d, ni)
                        < bd.len() && bd[coord_index(d, ni)] is None && coord_index(d, ni)
                        < coord_index(best_c, ni) ==> cell_score(bd, ni, d, me, opp) < best_s as int,
                coord_index(best_c, ni) <= fs[k - 1],
            decreases avail@.len() - k,
        {
            proof {
                lemma_free_upto_props(bd, bd.len() as int);
                assert(avail@[k as int] as int == fs[k as int]);
                assert(0 <= fs[k as int] < bd.len());
            }
            let c = Coordinates::from_index(avail[k], n);
            let s = Self::score_cell(&c, board, me, opp);
            proof {
                lemma_coord_index_bounds(c, ni);
            }
            if s > best_s {
                best_c = c;
                best_s = s;
                proof {
                    assert forall|d: Coordinates|
                        valid_coord(d, ni) && #[trigger] coord_index(d, ni) >= 0 && coord_index(
                            d,
                            ni,
                        ) < bd.len() && bd[coord_index(d, ni)] is None && coord_index(d, ni)
                            < coord_index(best_c, ni) implies cell_score(bd, ni, d, me, opp)
                        < best_s as int by {
                        let di = coord_index(d, ni);
                        assert(fs.contains(di));
                        let j = choose|j: int| 0 <= j < fs.len() && fs[j] == di;
                        if j >= k as int {
                            assert(fs[k as int] <= fs[j]);
                            assert(false);
                        }
                        assert(di <= fs[k as int - 1]);
                    }
                }
            } else {
                proof {
                    assert(coord_index(c, ni) == fs[k as int]);
                }
            }
            proof {
                assert forall|d: Coordinates|
                    valid_coord(d, ni) && #[trigger] coord_index(d, ni) >= 0 && coord_index(d, ni)
                        < bd.len() && bd[coord_index(d, ni)] is None && coord_index(d, ni)
                        <= fs[k as int] implies cell_score(bd, ni, d, me, opp) <= best_s as int by {
                    let di = coord_index(d, ni);
                    assert(fs.contains(di));
                    let j = choose|j: int| 0 <= j < fs.len() && fs[j] == di;
                    if di == fs[k as int] {
                        lemma_coord_index_injective(d, c, ni);
                    } else {
                        if j >= k as int {
                            assert(fs[k as int] <= fs[j]);
                            assert(false);
                        }
                        assert(di <= fs[k as int - 1]);
                    }
                }
            }
            k = k + 1;
        }
        proof {
            lemma_free_upto_props(bd, bd.len() as int);
            assert forall|d: Coordinates|
                valid_coord(d, ni) && #[trigger] coord_index(d, ni) >= 0 && coord_index(d, ni)
                    < bd.len() && bd[coord_index(d, ni)] is None implies cell_score(
                bd,
                ni,
                d,
                me,
                opp,
            ) <= best_s as int by {
                let di = coord_index(d, ni);
                assert(fs.contains(di));
                let j = choose|j: int| 0 <= j < fs.len() && fs[j] == di;
                if j < fs.len() - 1 {
                    assert(fs[j] < fs[fs.len() - 1]);
                }
                assert(di <= fs[avail@.len() - 1]);
            }
            assert(opp == other_player(me));
            assert(heuristic_pick(bd, ni, me, best_c));
        }
        Some(best_c)
    }
}

} // verus!
