//! The barycentric coordinate system of the triangular board: index
//! conversions, side-touch predicates, adjacency, and neighbour
//! enumeration.

use vstd::prelude::*;

verus! {

/// A cell of the triangular board in barycentric form: three non-negative
/// components that sum to `n - 1` on a board of side `n`.
#[derive(Clone, Copy, Debug, PartialEq, Eq, Structural)]
pub struct Coordinates {
    pub x: u32,
    pub y: u32,
    pub z: u32,
}

/// A coordinate lies on the board of side `n` exactly when its components
/// sum to `n - 1`.
pub open spec fn valid_coord(c: Coordinates, n: int) -> bool {
    c.x + c.y + c.z == n - 1
}

/// Linear index of the first cell of the row with first component `x`:
/// the row with first component `i` holds `n - i` cells.
pub open spec fn row_base(x: int, n: int) -> int
    decreases x,
{
    if x <= 0 {
        0
    } else {
        row_base(x - 1, n) + (n - (x - 1))
    }
}

/// Linear index of a coordinate: cells are ordered by the `x` component
/// first, then by the `y` component.
pub open spec fn coord_index(c: Coordinates, n: int) -> int {
    row_base(c.x as int, n) + c.y
}

/// Number of cells of a board of side `n`.
pub open spec fn total_cells(n: int) -> int {
    n * (n + 1) / 2
}

/// Two cells are adjacent when one component moves up by one, another moves
/// down by one, and the third is unchanged; each cell thus has up to six
/// neighbours, two per coordinate axis.
pub open spec fn adjacent(a: Coordinates, b: Coordinates) -> bool {
    let ax = a.x as int;
    let ay = a.y as int;
    let az = a.z as int;
    let bx = b.x as int;
    let by = b.y as int;
    let bz = b.z as int;
    ||| (bx == ax - 1 && by == ay + 1 && bz == az)
    ||| (bx == ax - 1 && by == ay && bz == az + 1)
    ||| (bx == ax + 1 && by == ay - 1 && bz == az)
    ||| (bx == ax && by == ay - 1 && bz == az + 1)
    ||| (bx == ax + 1 && by == ay && bz == az - 1)
    ||| (bx == ax && by == ay + 1 && bz == az - 1)
}

/// Builds a coordinate from mathematical components; meaningful when all
/// three are non-negative machine integers.
pub open spec fn coord_at(x: int, y: int, z: int) -> Coordinates {
    Coordinates { x: x as u32, y: y as u32, z: z as u32 }
}

/// The neighbours of a cell, in the fixed enumeration order used by the
/// executable code: the two cells reached by lowering `x`, then the two
/// reached by lowering `y`, then the two reached by lowering `z`.
pub open spec fn nbrs(c: Coordinates) -> Seq<Coordinates> {
    (if c.x > 0 {
        seq![coord_at(c.x - 1, c.y + 1, c.z as int), coord_at(c.x - 1, c.y as int, c.z + 1)]
    } else {
        Seq::<Coordinates>::empty()
    }) + (if c.y > 0 {
        seq![coord_at(c.x + 1, c.y - 1, c.z as int), coord_at(c.x as int, c.y - 1, c.z + 1)]
    } else {
        Seq::<Coordinates>::empty()
    }) + (if c.z > 0 {
        seq![coord_at(c.x + 1, c.y as int, c.z - 1), coord_at(c.x as int, c.y + 1, c.z - 1)]
    } else {
        Seq::<Coordinates>::empty()
    })
}

/// Row bases have the closed form `2 * row_base(x, n) == 2*x*n - x*(x-1)`.
proof fn lemma_row_base_closed(x: int, n: int)
    requires
        0 <= x,
    ensures
        2 * row_base(x, n) == 2 * x * n - x * (x - 1),
    decreases x,
{
    if x > 0 {
        lemma_row_base_closed(x - 1, n);
        assert(row_base(x, n) == row_base(x - 1, n) + (n - (x - 1)));
        assert(2 * row_base(x, n) == 2 * x * n - x * (x - 1)) by (nonlinear_arith)
            requires
                row_base(x, n) == row_base(x - 1, n) + (n - (x - 1)),
                2 * row_base(x - 1, n) == 2 * (x - 1) * n - (x - 1) * ((x - 1) - 1),
        ;
    } else {
        assert(2 * row_base(x, n) == 2 * x * n - x * (x - 1)) by (nonlinear_arith)
            requires
                x == 0,
                row_base(x, n) == 0,
        ;
    }
}

/// The rows of a board of side `n` hold `n * (n + 1) / 2` cells in all.
pub proof fn lemma_total_cells_row_base(n: int)
    requires
        n >= 0,
    ensures
        row_base(n, n) == total_cells(n),
{
    lemma_row_base_closed(n, n);
    assert(2 * n * n - n * (n - 1) == n * (n + 1)) by (nonlinear_arith);
    assert(n * (n + 1) / 2 == row_base(n, n)) by {
        assert(n * (n + 1) == 2 * row_base(n, n));
        assert(2 * row_base(n, n) / 2 == row_base(n, n)) by (nonlinear_arith);
    }
}

/// Row bases grow with the row number while the row number stays within
/// the board.
pub proof fn lemma_row_base_mono(x1: int, x2: int, n: int)
    requires
        0 <= x1 <= x2 <= n,
    ensures
        row_base(x1, n) <= row_base(x2, n),
    decreases x2 - x1,
{
    if x1 < x2 {
        lemma_row_base_mono(x1, x2 - 1, n);
    }
}

/// The linear index of a valid coordinate lies within the board.
pub proof fn lemma_coord_index_bounds(c: Coordinates, n: int)
    requires
        valid_coord(c, n),
    ensures
        0 <= coord_index(c, n) < total_cells(n),
{
    lemma_row_base_mono(0, c.x as int, n);
    assert(row_base(c.x + 1, n) == row_base(c.x as int, n) + (n - c.x));
    lemma_row_base_mono(c.x + 1, n, n);
    lemma_total_cells_row_base(n);
}

/// The coordinate at a given linear index, as a mathematical value.
pub open spec fn coord_of_index(i: int, n: int) -> Coordinates {
    choose|c: Coordinates| valid_coord(c, n) && coord_index(c, n) == i
}

/// Index conversion round-trips: reading a valid coordinate back from
/// its own linear index gives that coordinate, on every board size.
pub proof fn lemma_index_round_trip(c: Coordinates, n: int)
    requires
        valid_coord(c, n),
    ensures
        coord_of_index(coord_index(c, n), n) == c,
{
    assert(valid_coord(c, n) && coord_index(c, n) == coord_index(c, n));
    let d = choose|d: Coordinates| valid_coord(d, n) && coord_index(d, n) == coord_index(c, n);
    lemma_coord_index_injective(d, c, n);
}

/// Distinct valid coordinates have distinct linear indices.
pub proof fn lemma_coord_index_injective(c1: Coordinates, c2: Coordinates, n: int)
    requires
        valid_coord(c1, n),
        valid_coord(c2, n),
        coord_index(c1, n) == coord_index(c2, n),
    ensures
        c1 == c2,
{
    if c1.x < c2.x {
        assert(row_base(c1.x + 1, n) == row_base(c1.x as int, n) + (n - c1.x));
        lemma_row_base_mono(c1.x + 1, c2.x as int, n);
    } else if c2.x < c1.x {
        assert(row_base(c2.x + 1, n) == row_base(c2.x as int, n) + (n - c2.x));
        lemma_row_base_mono(c2.x + 1, c1.x as int, n);
    }
}

/// A neighbour keeps the component sum of its cell, and a cell has at
/// most six neighbours.
pub proof fn lemma_nbrs_elements(c: Coordinates)
    requires
        c.x + c.y + c.z < u32::MAX,
    ensures
        nbrs(c).len() <= 6,
        forall|k: int|
            0 <= k < nbrs(c).len() ==> (#[trigger] nbrs(c)[k]).x + nbrs(c)[k].y + nbrs(c)[k].z
                == c.x + c.y + c.z,
{
}

/// The neighbour enumeration lists exactly the cells adjacent to `c`.
pub proof fn lemma_nbrs_adjacent(c: Coordinates)
    requires
        c.x + c.y + c.z < u32::MAX,
    ensures
        forall|k: int| 0 <= k < nbrs(c).len() ==> adjacent(c, #[trigger] nbrs(c)[k]),
        forall|d: Coordinates| adjacent(c, d) ==> nbrs(c).contains(d),
{
    assert forall|d: Coordinates| adjacent(c, d) implies nbrs(c).contains(d) by {
        let off_y: int = if c.x > 0 {
            2
        } else {
            0
        };
        let off_z: int = off_y + if c.y > 0 {
            2int
        } else {
            0int
        };
        if d.x == c.x - 1 && d.y == c.y + 1 && d.z == c.z {
            assert(nbrs(c)[0] == d);
        } else if d.x == c.x - 1 && d.y == c.y && d.z == c.z + 1 {
            assert(nbrs(c)[1] == d);
        } else if d.x == c.x + 1 && d.y == c.y - 1 && d.z == c.z {
            assert(nbrs(c)[off_y] == d);
        } else if d.x == c.x && d.y == c.y - 1 && d.z == c.z + 1 {
            assert(nbrs(c)[off_y + 1] == d);
        } else if d.x == c.x + 1 && d.y == c.y && d.z == c.z - 1 {
            assert(nbrs(c)[off_z] == d);
        } else {
            assert(nbrs(c)[off_z + 1] == d);
        }
    }
}

impl Coordinates {
    /// Builds a coordinate; whether it lies on a given board is checked by
    /// the move engine, not here.
    pub fn new(x: u32, y: u32, z: u32) -> (r: Coordinates)
        ensures
            r == (Coordinates { x, y, z }),
    {
        Coordinates { x, y, z }
    }

    pub fn x(&self) -> (r: u32)
        ensures
            r == self.x,
    {
        self.x
    }

    pub fn y(&self) -> (r: u32)
        ensures
            r == self.y,
    {
        self.y
    }

    pub fn z(&self) -> (r: u32)
        ensures
            r == self.z,
    {
        self.z
    }

    /// The side opposite the vertex where `x` is maximal: cells with `x == 0`.
    pub fn touches_side_a(&self) -> (r: bool)
        ensures
            r == (self.x == 0),
    {
        self.x == 0
    }

    /// The side opposite the vertex where `y` is maximal: cells with `y == 0`.
    pub fn touches_side_b(&self) -> (r: bool)
        ensures
            r == (self.y == 0),
    {
        self.y == 0
    }

    /// The side opposite the vertex where `z` is maximal: cells with `z == 0`.
    pub fn touches_side_c(&self) -> (r: bool)
        ensures
            r == (self.z == 0),
    {
        self.z == 0
    }

    /// The linear index of this coordinate on a board of side `n`.
    pub fn to_index(&self, n: u32) -> (r: usize)
        requires
            valid_coord(*self, n as int),
            total_cells(n as int) <= usize::MAX,
        ensures
            r == coord_index(*self, n as int),
            r < total_cells(n as int),
    {
        proof {
            lemma_total_cells_row_base(n as int);
            lemma_coord_index_bounds(*self, n as int);
        }
        let mut base: usize = 0;
        let mut i: u32 = 0;
        while i < self.x
            invariant
                i <= self.x,
                base == row_base(i as int, n as int),
                valid_coord(*self, n as int),
                row_base(n as int, n as int) == total_cells(n as int),
                total_cells(n as int) <= usize::MAX,
            decreases self.x - i,
        {
            proof {
                assert(row_base(i + 1, n as int) == row_base(i as int, n as int) + (n - i));
                lemma_row_base_mono(i + 1, n as int, n as int);
            }
            base = base + (n - i) as usize;
            i = i + 1;
        }
        base + self.y as usize
    }

    /// The coordinate at linear index `idx` on a board of side `n`.
    pub fn from_index(idx: usize, n: u32) -> (r: Coordinates)
        requires
            n >= 1,
            idx < total_cells(n as int),
        ensures
            valid_coord(r, n as int),
            coord_index(r, n as int) == idx,
            r == coord_of_index(idx as int, n as int),
    {
        proof {
            lemma_total_cells_row_base(n as int);
        }
        let mut x: u32 = 0;
        let mut rem: usize = idx;
        while rem >= (n - x) as usize
            invariant
                n >= 1,
                x <= n - 1,
                idx < total_cells(n as int),
                row_base(n as int, n as int) == total_cells(n as int),
                idx == row_base(x as int, n as int) + rem,
            decreases rem,
        {
            proof {
                if x == n - 1 {
                    assert(row_base(n as int, n as int) == row_base(n - 1, n as int) + 1);
                    assert(false);
                }
                lemma_row_base_mono(x + 1, n as int, n as int);
                assert(row_base(x + 1, n as int) == row_base(x as int, n as int) + (n - x));
            }
            rem = rem - (n - x) as usize;
            x = x + 1;
        }
        let y: u32 = rem as u32;
        let z: u32 = n - 1 - x - y;
        let r = Coordinates { x, y, z };
        proof {
            lemma_index_round_trip(r, n as int);
        }
        r
    }

    /// The neighbours of this cell, in a fixed order; a neighbour keeps the
    /// component sum, so neighbours of a cell of some board lie on the same
    /// board.
    pub fn neighbors(&self) -> (r: Vec<Coordinates>)
        requires
            self.x + self.y + self.z < u32::MAX,
        ensures
            r@ == nbrs(*self),
    {
        let mut nb: Vec<Coordinates> = Vec::new();
        if self.x > 0 {
            nb.push(Coordinates { x: self.x - 1, y: self.y + 1, z: self.z });
            nb.push(Coordinates { x: self.x - 1, y: self.y, z: self.z + 1 });
        }
        if self.y > 0 {
            nb.push(Coordinates { x: self.x + 1, y: self.y - 1, z: self.z });
            nb.push(Coordinates { x: self.x, y: self.y - 1, z: self.z + 1 });
        }
        if self.z > 0 {
            nb.push(Coordinates { x: self.x + 1, y: self.y, z: self.z - 1 });
            nb.push(Coordinates { x: self.x, y: self.y + 1, z: self.z - 1 });
        }
        proof {
            assert(nb@ =~= nbrs(*self));
        }
        nb
    }
}

} // verus!
