//! The win detector: connectivity of one player's pieces, the
//! three-sides winning condition of Y, and the search that decides it.

use vstd::prelude::*;

use crate::coord::{
    Coordinates, adjacent, coord_index, lemma_coord_index_bounds, lemma_coord_index_injective,
    total_cells, valid_coord,
};
use crate::game::PlayerId;

verus! {

/// The cell `c` lies on the board and is owned by player `p`.
pub open spec fn owned_by(
    board: Seq<Option<PlayerId>>,
    n: int,
    c: Coordinates,
    p: PlayerId,
) -> bool {
    &&& valid_coord(c, n)
    &&& 0 <= coord_index(c, n) < board.len()
    &&& board[coord_index(c, n)] == Some(p)
}

/// A chain of cells, all owned by `p`, in which consecutive cells are
/// adjacent.
pub open spec fn is_path(
    path: Seq<Coordinates>,
    board: Seq<Option<PlayerId>>,
    n: int,
    p: PlayerId,
) -> bool {
    &&& path.len() > 0
    &&& forall|k: int| 0 <= k < path.len() ==> owned_by(board, n, #[trigger] path[k], p)
    &&& forall|k: int| 0 <= k < path.len() - 1 ==> adjacent(#[trigger] path[k], path[k + 1])
}

/// Cells `a` and `b` are joined by a chain of `p`'s pieces.
pub open spec fn connected(
    board: Seq<Option<PlayerId>>,
    n: int,
    p: PlayerId,
    a: Coordinates,
    b: Coordinates,
) -> bool {
    exists|path: Seq<Coordinates>|
        is_path(path, board, n, p) && path.first() == a && path.last() == b
}

/// The winning condition of Y: the group of `p`'s pieces containing
/// `start` touches all three sides of the triangle.
pub open spec fn wins(
    board: Seq<Option<PlayerId>>,
    n: int,
    p: PlayerId,
    start: Coordinates,
) -> bool {
    &&& exists|c: Coordinates| connected(board, n, p, start, c) && c.x == 0
    &&& exists|c: Coordinates| connected(board, n, p, start, c) && c.y == 0
    &&& exists|c: Coordinates| connected(board, n, p, start, c) && c.z == 0
}

/// How many entries of a sequence of markers are set.
spec fn count_true(s: Seq<bool>) -> int
    decreases s.len(),
{
    if s.len() == 0 {
        0
    } else {
        count_true(s.drop_last()) + if s.last() {
            1int
        } else {
            0int
        }
    }
}

proof fn lemma_count_true_le(s: Seq<bool>)
    ensures
        0 <= count_true(s) <= s.len(),
    decreases s.len(),
{
    if s.len() > 0 {
        lemma_count_true_le(s.drop_last());
    }
}

proof fn lemma_count_true_zero(s: Seq<bool>)
    requires
        forall|i: int| 0 <= i < s.len() ==> !s[i],
    ensures
        count_true(s) == 0,
    decreases s.len(),
{
    if s.len() > 0 {
        lemma_count_true_zero(s.drop_last());
    }
}

proof fn lemma_count_true_update(s: Seq<bool>, i: int)
    requires
        0 <= i < s.len(),
        !s[i],
    ensures
        count_true(s.update(i, true)) == count_true(s) + 1,
    decreases s.len(),
{
    if i == s.len() - 1 {
        assert(s.update(i, true).drop_last() =~= s.drop_last());
        assert(s.update(i, true).last());
    } else {
        assert(s.update(i, true).drop_last() =~= s.drop_last().update(i, true));
        lemma_count_true_update(s.drop_last(), i);
        assert(s.update(i, true).last() == s.last());
    }
}

/// A marking of cells closed under same-owner adjacency: every owned
/// neighbour of a marked cell is marked.
spec fn visited_closed(
    visited: Seq<bool>,
    board: Seq<Option<PlayerId>>,
    n: int,
    p: PlayerId,
) -> bool {
    forall|c: Coordinates, d: Coordinates|
        valid_coord(c, n) && visited[coord_index(c, n)] && #[trigger] adjacent(c, d) && owned_by(
            board,
            n,
            d,
            p,
        ) ==> visited[coord_index(d, n)]
}

/// Every chain that starts in a closed marking stays inside it.
proof fn lemma_path_stays_visited(
    path: Seq<Coordinates>,
    board: Seq<Option<PlayerId>>,
    n: int,
    p: PlayerId,
    visited: Seq<bool>,
)
    requires
        is_path(path, board, n, p),
        visited_closed(visited, board, n, p),
        visited[coord_index(path.first(), n)],
    ensures
        visited[coord_index(path.last(), n)],
    decreases path.len(),
{
    if path.len() > 1 {
        let shorter = path.drop_last();
        assert(is_path(shorter, board, n, p));
        lemma_path_stays_visited(shorter, board, n, p, visited);
        assert(adjacent(path[path.len() - 2], path[path.len() - 1]));
        assert(owned_by(board, n, path[path.len() - 1], p));
    }
}

/// Whether `c` occurs in the pending stack.
spec fn in_stack(st: Seq<Coordinates>, c: Coordinates) -> bool {
    exists|k: int| 0 <= k < st.len() && st[k] == c
}

/// Working state of the connectivity search: which cells were reached,
/// which reached cells still wait to have their neighbours examined,
/// which sides the reached group touches so far, and how many cells were
/// reached.
struct Search {
    visited: Vec<bool>,
    stack: Vec<Coordinates>,
    ta: bool,
    tb: bool,
    tc: bool,
    seen: usize,
}

/// Soundness invariant of the search: every reached cell is an owned cell
/// connected to `start`, pending cells are reached, and each side marker
/// says exactly whether some reached cell touches that side.
spec fn search_inv(
    s: Search,
    board: Seq<Option<PlayerId>>,
    n: int,
    p: PlayerId,
    start: Coordinates,
) -> bool {
    &&& board.len() == total_cells(n)
    &&& s.visited@.len() == total_cells(n)
    &&& owned_by(board, n, start, p)
    &&& s.visited@[coord_index(start, n)]
    &&& (forall|c: Coordinates|
        valid_coord(c, n) && s.visited@[#[trigger] coord_index(c, n)] ==> owned_by(board, n, c, p)
            && connected(board, n, p, start, c))
    &&& (forall|k: int|
        0 <= k < s.stack@.len() ==> valid_coord(#[trigger] s.stack@[k], n)
            && s.visited@[coord_index(s.stack@[k], n)])
    &&& s.ta == (exists|c: Coordinates|
        valid_coord(c, n) && s.visited@[#[trigger] coord_index(c, n)] && c.x == 0)
    &&& s.tb == (exists|c: Coordinates|
        valid_coord(c, n) && s.visited@[#[trigger] coord_index(c, n)] && c.y == 0)
    &&& s.tc == (exists|c: Coordinates|
        valid_coord(c, n) && s.visited@[#[trigger] coord_index(c, n)] && c.z == 0)
    &&& s.seen == count_true(s.visited@)
}

/// Partial closure: every reached cell that is not pending — except the
/// cell currently being expanded — already has all its owned neighbours
/// reached.
spec fn search_closed_except(
    s: Search,
    board: Seq<Option<PlayerId>>,
    n: int,
    p: PlayerId,
    c0: Coordinates,
) -> bool {
    forall|c: Coordinates, d: Coordinates|
        valid_coord(c, n) && s.visited@[coord_index(c, n)] && !in_stack(s.stack@, c) && c != c0
            && #[trigger] adjacent(c, d) && owned_by(board, n, d, p) ==> s.visited@[coord_index(
            d,
            n,
        )]
}

/// Full closure: as above, for every reached non-pending cell.
spec fn search_closed(s: Search, board: Seq<Option<PlayerId>>, n: int, p: PlayerId) -> bool {
    forall|c: Coordinates, d: Coordinates|
        valid_coord(c, n) && s.visited@[coord_index(c, n)] && !in_stack(s.stack@, c)
            && #[trigger] adjacent(c, d) && owned_by(board, n, d, p) ==> s.visited@[coord_index(
            d,
            n,
        )]
}

/// Marking one more cell keeps a side marker exact.
proof fn lemma_side_flag_update(
    vis0: Seq<bool>,
    n: int,
    nb: Coordinates,
    f0: bool,
    side: spec_fn(Coordinates) -> bool,
)
    requires
        vis0.len() == total_cells(n),
        valid_coord(nb, n),
        f0 == (exists|c: Coordinates|
            valid_coord(c, n) && vis0[#[trigger] coord_index(c, n)] && side(c)),
    ensures
        (f0 || side(nb)) == (exists|c: Coordinates|
            valid_coord(c, n) && vis0.update(coord_index(nb, n), true)[#[trigger] coord_index(
                c,
                n,
            )] && side(c)),
{
    lemma_coord_index_bounds(nb, n);
    let vis1 = vis0.update(coord_index(nb, n), true);
    if f0 {
        let cw = choose|c: Coordinates|
            valid_coord(c, n) && vis0[#[trigger] coord_index(c, n)] && side(c);
        lemma_coord_index_bounds(cw, n);
        assert(vis1[coord_index(cw, n)]);
    }
    if side(nb) {
        assert(vis1[coord_index(nb, n)]);
    }
    if exists|c: Coordinates| valid_coord(c, n) && vis1[#[trigger] coord_index(c, n)] && side(c) {
        let cw = choose|c: Coordinates|
            valid_coord(c, n) && vis1[#[trigger] coord_index(c, n)] && side(c);
        lemma_coord_index_bounds(cw, n);
        if !vis0[coord_index(cw, n)] {
            lemma_coord_index_injective(cw, nb, n);
        }
    }
}

impl Search {
    /// Examines the neighbour `nb` of the cell `c0` being expanded: when
    /// `nb` is an unreached cell of the same owner, reaches it and queues
    /// it for expansion.
    fn mark(
        &mut self,
        cells: &Vec<Option<PlayerId>>,
        n: u32,
        player: PlayerId,
        nb: Coordinates,
        Ghost(start): Ghost<Coordinates>,
        Ghost(c0): Ghost<Coordinates>,
    )
        requires
            search_inv(*old(self), cells@, n as int, player, start),
            total_cells(n as int) <= usize::MAX,
            valid_coord(nb, n as int),
            adjacent(c0, nb),
            connected(cells@, n as int, player, start, c0),
        ensures
            search_inv(*final(self), cells@, n as int, player, start),
            final(self).visited@.len() == old(self).visited@.len(),
            forall|i: int|
                0 <= i < old(self).visited@.len() && old(self).visited@[i] ==> final(self).visited@[i],
            forall|k: int|
                0 <= k < old(self).stack@.len() ==> final(self).stack@[k] == old(self).stack@[k],
            final(self).stack@.len() >= old(self).stack@.len(),
            owned_by(cells@, n as int, nb, player) ==> final(self).visited@[coord_index(
                nb,
                n as int,
            )],
            search_closed_except(*old(self), cells@, n as int, player, c0)
                ==> search_closed_except(*final(self), cells@, n as int, player, c0),
            final(self).seen >= old(self).seen,
            final(self).stack@.len() > old(self).stack@.len() ==> final(self).seen > old(self).seen,
    {
        proof {
            lemma_coord_index_bounds(nb, n as int);
        }
        let i = nb.to_index(n);
        let owned_nb = match cells[i] {
            Some(q) => q.id == player.id,
            None => false,
        };
        if owned_nb && !self.visited[i] {
            let ghost vis0 = self.visited@;
            let ghost stack0 = self.stack@;
            proof {
                lemma_count_true_update(vis0, i as int);
                lemma_count_true_le(vis0.update(i as int, true));
            }
            self.visited.set(i, true);
            self.seen = self.seen + 1;
            if nb.x == 0 {
                self.ta = true;
            }
            if nb.y == 0 {
                self.tb = true;
            }
            if nb.z == 0 {
                self.tc = true;
            }
            self.stack.push(nb);
            proof {
                let ni = n as int;
                // `nb` is connected to `start`: extend a chain that reaches `c0`.
                let pc = choose|path: Seq<Coordinates>|
                    is_path(path, cells@, ni, player) && path.first() == start && path.last()
                        == c0;
                let pn = pc.push(nb);
                assert(pc[pc.len() - 1] == c0);
                assert(forall|k: int| 0 <= k < pc.len() ==> pn[k] == pc[k]);
                assert(pn[pn.len() - 1] == nb);
                assert forall|k: int| 0 <= k < pn.len() - 1 implies adjacent(
                    #[trigger] pn[k],
                    pn[k + 1],
                ) by {
                    if k < pc.len() - 1 {
                        assert(adjacent(pc[k], pc[k + 1]));
                    }
                }
                assert(is_path(pn, cells@, ni, player));
                assert(pn.first() == start && pn.last() == nb);
                assert(connected(cells@, ni, player, start, nb));
                // every reached cell is still owned and connected
                assert forall|c: Coordinates|
                    valid_coord(c, ni) && self.visited@[#[trigger] coord_index(c, ni)] implies owned_by(
                    cells@,
                    ni,
                    c,
                    player,
                ) && connected(cells@, ni, player, start, c) by {
                    lemma_coord_index_bounds(c, ni);
                    if !vis0[coord_index(c, ni)] {
                        lemma_coord_index_injective(c, nb, ni);
                    }
                }
                // the side markers stay exact
                lemma_side_flag_update(vis0, ni, nb, old(self).ta, |c: Coordinates| c.x == 0);
                lemma_side_flag_update(vis0, ni, nb, old(self).tb, |c: Coordinates| c.y == 0);
                lemma_side_flag_update(vis0, ni, nb, old(self).tc, |c: Coordinates| c.z == 0);
                // partial closure is preserved: the one newly reached cell is pending
                if search_closed_except(*old(self), cells@, ni, player, c0) {
                    assert forall|c2: Coordinates, d2: Coordinates|
                        valid_coord(c2, ni) && self.visited@[coord_index(c2, ni)] && !in_stack(
                            self.stack@,
                            c2,
                        ) && c2 != c0 && #[trigger] adjacent(c2, d2) && owned_by(
                            cells@,
                            ni,
                            d2,
                            player,
                        ) implies self.visited@[coord_index(d2, ni)] by {
                        lemma_coord_index_bounds(c2, ni);
                        if !vis0[coord_index(c2, ni)] {
                            lemma_coord_index_injective(c2, nb, ni);
                            assert(self.stack@[stack0.len() as int] == c2);
                            assert(false);
                        } else {
                            if in_stack(stack0, c2) {
                                let k = choose|k: int|
                                    0 <= k < stack0.len() && stack0[k] == c2;
                                assert(self.stack@[k] == c2);
                                assert(false);
                            }
                            assert(vis0[coord_index(d2, ni)]);
                        }
                    }
                }
            }
        }
    }
}

/// Whether the group of `player`'s pieces that contains `start` touches
/// all three sides: a full search of that group.
pub(crate) fn detect_win(
    cells: &Vec<Option<PlayerId>>,
    n: u32,
    player: PlayerId,
    start: Coordinates,
) -> (r: bool)
    requires
        n >= 1,
        total_cells(n as int) <= usize::MAX,
        cells@.len() == total_cells(n as int),
        valid_coord(start, n as int),
        cells@[coord_index(start, n as int)] == Some(player),
    ensures
        r == wins(cells@, n as int, player, start),
{
    proof {
        lemma_coord_index_bounds(start, n as int);
    }
    let total = cells.len();
    let mut visited: Vec<bool> = Vec::new();
    let mut j: usize = 0;
    while j < total
        invariant
            j <= total,
            visited@.len() == j,
            forall|t: int| 0 <= t < j ==> !visited@[t],
        decreases total - j,
    {
        visited.push(false);
        j = j + 1;
    }
    proof {
        lemma_count_true_zero(visited@);
    }
    let si = start.to_index(n);
    let ghost vis0 = visited@;
    visited.set(si, true);
    proof {
        lemma_count_true_update(vis0, si as int);
    }
    let mut s = Search {
        visited,
        stack: Vec::new(),
        ta: start.x == 0,
        tb: start.y == 0,
        tc: start.z == 0,
        seen: 1,
    };
    s.stack.push(start);
    proof {
        let ni = n as int;
        let p0 = seq![start];
        assert(p0[0] == start);
        assert(is_path(p0, cells@, ni, player));
        assert(p0.first() == start && p0.last() == start);
        assert(connected(cells@, ni, player, start, start));
        assert(s.stack@[0] == start);
        assert(in_stack(s.stack@, start));
        assert forall|c: Coordinates|
            valid_coord(c, ni) && s.visited@[#[trigger] coord_index(c, ni)] implies owned_by(
            cells@,
            ni,
            c,
            player,
        ) && connected(cells@, ni, player, start, c) by {
            lemma_coord_index_bounds(c, ni);
            lemma_coord_index_injective(c, start, ni);
        }
        assert(s.ta == (exists|c: Coordinates|
            valid_coord(c, ni) && s.visited@[#[trigger] coord_index(c, ni)] && c.x == 0)) by {
            if start.x == 0 {
                assert(valid_coord(start, ni) && s.visited@[coord_index(start, ni)] && start.x
                    == 0);
            }
            if exists|c: Coordinates|
                valid_coord(c, ni) && s.visited@[#[trigger] coord_index(c, ni)] && c.x == 0 {
                let cw = choose|c: Coordinates|
                    valid_coord(c, ni) && s.visited@[#[trigger] coord_index(c, ni)] && c.x == 0;
                lemma_coord_index_bounds(cw, ni);
                lemma_coord_index_injective(cw, start, ni);
            }
        }
        assert(s.tb == (exists|c: Coordinates|
            valid_coord(c, ni) && s.visited@[#[trigger] coord_index(c, ni)] && c.y == 0)) by {
            if start.y == 0 {
                assert(valid_coord(start, ni) && s.visited@[coord_index(start, ni)] && start.y
                    == 0);
            }
            if exists|c: Coordinates|
                valid_coord(c, ni) && s.visited@[#[trigger] coord_index(c, ni)] && c.y == 0 {
                let cw = choose|c: Coordinates|
                    valid_coord(c, ni) && s.visited@[#[trigger] coord_index(c, ni)] && c.y == 0;
                lemma_coord_index_bounds(cw, ni);
                lemma_coord_index_injective(cw, start, ni);
            }
        }
        assert(s.tc == (exists|c: Coordinates|
            valid_coord(c, ni) && s.visited@[#[trigger] coord_index(c, ni)] && c.z == 0)) by {
            if start.z == 0 {
                assert(valid_coord(start, ni) && s.visited@[coord_index(start, ni)] && start.z
                    == 0);
            }
            if exists|c: Coordinates|
                valid_coord(c, ni) && s.visited@[#[trigger] coord_index(c, ni)] && c.z == 0 {
                let cw = choose|c: Coordinates|
                    valid_coord(c, ni) && s.visited@[#[trigger] coord_index(c, ni)] && c.z == 0;
                lemma_coord_index_bounds(cw, ni);
                lemma_coord_index_injective(cw, start, ni);
            }
        }
        assert forall|c2: Coordinates, d2: Coordinates|
            valid_coord(c2, ni) && s.visited@[coord_index(c2, ni)] && !in_stack(s.stack@, c2)
                && #[trigger] adjacent(c2, d2) && owned_by(cells@, ni, d2, player) implies s.visited@[coord_index(
            d2,
            ni,
        )] by {
            lemma_coord_index_bounds(c2, ni);
            lemma_coord_index_injective(c2, start, ni);
            assert(false);
        }
    }
    while s.stack.len() > 0
        invariant
            n >= 1,
            total_cells(n as int) <= usize::MAX,
            cells@.len() == total_cells(n as int),
            search_inv(s, cells@, n as int, player, start),
            search_closed(s, cells@, n as int, player),
        decreases total_cells(n as int) - s.seen, s.stack@.len(),
    {
        let ghost ni = n as int;
        let ghost stack0 = s.stack@;
        let copt = s.stack.pop();
        let c = copt.unwrap();
        proof {
            assert(stack0[stack0.len() - 1] == c);
            assert(valid_coord(c, ni) && s.visited@[coord_index(c, ni)]);
            assert(owned_by(cells@, ni, c, player) && connected(cells@, ni, player, start, c));
            assert forall|c2: Coordinates, d2: Coordinates|
                valid_coord(c2, ni) && s.visited@[coord_index(c2, ni)] && !in_stack(
                    s.stack@,
                    c2,
                ) && c2 != c && #[trigger] adjacent(c2, d2) && owned_by(
                    cells@,
                    ni,
                    d2,
                    player,
                ) implies s.visited@[coord_index(d2, ni)] by {
                if in_stack(stack0, c2) {
                    let k = choose|k: int| 0 <= k < stack0.len() && stack0[k] == c2;
                    assert(s.stack@[k] == c2);
                    assert(false);
                }
            }
            assert(search_closed_except(s, cells@, ni, player, c));
        }
        let ghost gc = c;
        if c.x > 0 {
            s.mark(
                cells,
                n,
                player,
                Coordinates { x: c.x - 1, y: c.y + 1, z: c.z },
                Ghost(start),
                Ghost(gc),
            );
            s.mark(
                cells,
                n,
                player,
                Coordinates { x: c.x - 1, y: c.y, z: c.z + 1 },
                Ghost(start),
                Ghost(gc),
            );
        }
        if c.y > 0 {
            s.mark(
                cells,
                n,
                player,
                Coordinates { x: c.x + 1, y: c.y - 1, z: c.z },
                Ghost(start),
                Ghost(gc),
            );
            s.mark(
                cells,
                n,
                player,
                Coordinates { x: c.x, y: c.y - 1, z: c.z + 1 },
                Ghost(start),
                Ghost(gc),
            );
        }
        if c.z > 0 {
            s.mark(
                cells,
                n,
                player,
                Coordinates { x: c.x + 1, y: c.y, z: c.z - 1 },
                Ghost(start),
                Ghost(gc),
            );
            s.mark(
                cells,
                n,
                player,
                Coordinates { x: c.x, y: c.y + 1, z: c.z - 1 },
                Ghost(start),
                Ghost(gc),
            );
        }
        proof {
            lemma_count_true_le(s.visited@);
            assert forall|d: Coordinates|
                #[trigger] adjacent(gc, d) && owned_by(cells@, ni, d, player) implies s.visited@[coord_index(
                d,
                ni,
            )] by {
                lemma_coord_index_bounds(d, ni);
            }
            assert forall|c2: Coordinates, d2: Coordinates|
                valid_coord(c2, ni) && s.visited@[coord_index(c2, ni)] && !in_stack(
                    s.stack@,
                    c2,
                ) && #[trigger] adjacent(c2, d2) && owned_by(
                    cells@,
                    ni,
                    d2,
                    player,
                ) implies s.visited@[coord_index(d2, ni)] by {
                if c2 != gc {
                    assert(search_closed_except(s, cells@, ni, player, gc));
                }
            }
        }
    }
    let r = s.ta && s.tb && s.tc;
    proof {
        let ni = n as int;
        assert forall|c2: Coordinates, d2: Coordinates|
            valid_coord(c2, ni) && s.visited@[coord_index(c2, ni)] && #[trigger] adjacent(
                c2,
                d2,
            ) && owned_by(cells@, ni, d2, player) implies s.visited@[coord_index(d2, ni)] by {
            assert(!in_stack(s.stack@, c2));
        }
        assert(visited_closed(s.visited@, cells@, ni, player));
        if wins(cells@, ni, player, start) {
            let ca = choose|c: Coordinates| connected(cells@, ni, player, start, c) && c.x == 0;
            let pa = choose|path: Seq<Coordinates>|
                is_path(path, cells@, ni, player) && path.first() == start && path.last() == ca;
            lemma_path_stays_visited(pa, cells@, ni, player, s.visited@);
            assert(owned_by(cells@, ni, pa.last(), player));
            assert(valid_coord(ca, ni) && s.visited@[coord_index(ca, ni)] && ca.x == 0);
            let cb = choose|c: Coordinates| connected(cells@, ni, player, start, c) && c.y == 0;
            let pb = choose|path: Seq<Coordinates>|
                is_path(path, cells@, ni, player) && path.first() == start && path.last() == cb;
            lemma_path_stays_visited(pb, cells@, ni, player, s.visited@);
            assert(valid_coord(cb, ni) && s.visited@[coord_index(cb, ni)] && cb.y == 0);
            let cc = choose|c: Coordinates| connected(cells@, ni, player, start, c) && c.z == 0;
            let pz = choose|path: Seq<Coordinates>|
                is_path(path, cells@, ni, player) && path.first() == start && path.last() == cc;
            lemma_path_stays_visited(pz, cells@, ni, player, s.visited@);
            assert(valid_coord(cc, ni) && s.visited@[coord_index(cc, ni)] && cc.z == 0);
            assert(r);
        }
        if r {
            let ca = choose|c: Coordinates|
                valid_coord(c, ni) && s.visited@[#[trigger] coord_index(c, ni)] && c.x == 0;
            assert(connected(cells@, ni, player, start, ca) && ca.x == 0);
            let cb = choose|c: Coordinates|
                valid_coord(c, ni) && s.visited@[#[trigger] coord_index(c, ni)] && c.y == 0;
            assert(connected(cells@, ni, player, start, cb) && cb.y == 0);
            let cc = choose|c: Coordinates|
                valid_coord(c, ni) && s.visited@[#[trigger] coord_index(c, ni)] && c.z == 0;
            assert(connected(cells@, ni, player, start, cc) && cc.z == 0);
            assert(wins(cells@, ni, player, start));
        }
    }
    r
}

/// On the one-cell board, a single placed piece touches all three sides
/// at once and wins by itself.
pub proof fn lemma_single_cell_wins(board: Seq<Option<PlayerId>>, p: PlayerId)
    requires
        board.len() == total_cells(1),
        board[0] == Some(p),
    ensures
        wins(board, 1, p, Coordinates { x: 0, y: 0, z: 0 }),
{
    let c = Coordinates { x: 0, y: 0, z: 0 };
    assert(valid_coord(c, 1));
    assert(coord_index(c, 1) == 0);
    let path = seq![c];
    assert(path[0] == c);
    assert(is_path(path, board, 1, p));
    assert(path.first() == c);
    assert(path.last() == c);
    assert(connected(board, 1, p, c, c));
}

} // verus!
