//! The symmetries of the square board, and the cells that they carry into
//! one another.

use vstd::prelude::*;

verus! {

/// A group of symmetries of the square: a subgroup of the eight turns and
/// reflections that carry the board to itself.
#[derive(Clone, Copy, Debug, PartialEq, Eq)]
pub enum DihedralSubgroup {
    /// No symmetry but the identity.
    Identity,
    /// The half turn.
    HalfTurn,
    /// The quarter turns.
    QuarterTurn,
    /// The reflection that swaps top and bottom.
    HorizontalReflection,
    /// The reflection that swaps left and right.
    VerticalReflection,
    /// The reflection in the main diagonal.
    DiagonalReflection,
    /// The reflection in the other diagonal.
    AntidiagonalReflection,
    /// The two reflections that swap top and bottom, left and right, and
    /// the half turn.
    Orthogonal,
    /// The reflections in the two diagonals, and the half turn.
    Diagonals,
    /// All eight symmetries.
    Full,
}

/// Where symmetry `g` carries cell `cell`. The symmetries are numbered: 0 the
/// identity, 1 to 3 the quarter turns, 4 top to bottom, 5 left to right, 6 the
/// main diagonal, 7 the other diagonal.
pub open spec fn image_of(g: int, cell: int) -> int {
    let (r, c) = (cell / 9, cell % 9);
    if g == 0 {
        9 * r + c
    } else if g == 1 {
        9 * c + (8 - r)
    } else if g == 2 {
        9 * (8 - r) + (8 - c)
    } else if g == 3 {
        9 * (8 - c) + r
    } else if g == 4 {
        9 * (8 - r) + c
    } else if g == 5 {
        9 * r + (8 - c)
    } else if g == 6 {
        9 * c + r
    } else {
        9 * (8 - c) + (8 - r)
    }
}

/// Where symmetry `g` carries cell `cell`: see [`image_of`].
pub fn image(g: usize, cell: usize) -> (r: usize)
    requires
        g < 8,
        cell < 81,
    ensures
        r == image_of(g as int, cell as int),
        r < 81,
{
    let (r, c) = (cell / 9, cell % 9);
    if g == 0 {
        9 * r + c
    } else if g == 1 {
        9 * c + (8 - r)
    } else if g == 2 {
        9 * (8 - r) + (8 - c)
    } else if g == 3 {
        9 * (8 - c) + r
    } else if g == 4 {
        9 * (8 - r) + c
    } else if g == 5 {
        9 * r + (8 - c)
    } else if g == 6 {
        9 * c + r
    } else {
        9 * (8 - c) + (8 - r)
    }
}

/// The `h`-th of eight numbers.
pub open spec fn pick8(h: int, a: (int, int, int, int, int, int, int, int)) -> int {
    if h == 0 {
        a.0
    } else if h == 1 {
        a.1
    } else if h == 2 {
        a.2
    } else if h == 3 {
        a.3
    } else if h == 4 {
        a.4
    } else if h == 5 {
        a.5
    } else if h == 6 {
        a.6
    } else {
        a.7
    }
}

/// The symmetry that is symmetry `g` followed by symmetry `h`.
pub open spec fn joined(g: int, h: int) -> int {
    if g == 0 {
        h
    } else if g == 1 {
        pick8(h, (1, 2, 3, 0, 7, 6, 4, 5))
    } else if g == 2 {
        pick8(h, (2, 3, 0, 1, 5, 4, 7, 6))
    } else if g == 3 {
        pick8(h, (3, 0, 1, 2, 6, 7, 5, 4))
    } else if g == 4 {
        pick8(h, (4, 6, 5, 7, 0, 2, 1, 3))
    } else if g == 5 {
        pick8(h, (5, 7, 4, 6, 2, 0, 3, 1))
    } else if g == 6 {
        pick8(h, (6, 5, 7, 4, 3, 1, 0, 2))
    } else {
        pick8(h, (7, 4, 6, 5, 1, 3, 2, 0))
    }
}

/// Where symmetry `g` carries the cell at row `r` and column `c`, as a row
/// and a column.
pub open spec fn image_at(g: int, r: int, c: int) -> (int, int) {
    if g == 0 {
        (r, c)
    } else if g == 1 {
        (c, 8 - r)
    } else if g == 2 {
        (8 - r, 8 - c)
    } else if g == 3 {
        (8 - c, r)
    } else if g == 4 {
        (8 - r, c)
    } else if g == 5 {
        (r, 8 - c)
    } else if g == 6 {
        (c, r)
    } else {
        (8 - c, 8 - r)
    }
}

/// A symmetry carries a cell of the board to a cell of the board: see
/// [`image_at`].
pub proof fn lemma_image(g: int, cell: int)
    requires
        0 <= g < 8,
        0 <= cell < 81,
    ensures
        0 <= image_of(g, cell) < 81,
        0 <= image_at(g, cell / 9, cell % 9).0 < 9,
        0 <= image_at(g, cell / 9, cell % 9).1 < 9,
        image_of(g, cell) == 9 * image_at(g, cell / 9, cell % 9).0 + image_at(g, cell / 9, cell % 9).1,
        image_of(g, cell) / 9 == image_at(g, cell / 9, cell % 9).0,
        image_of(g, cell) % 9 == image_at(g, cell / 9, cell % 9).1,
{
}

/// One symmetry after another is a symmetry: see [`joined`].
pub proof fn lemma_joined(g: int, h: int, cell: int)
    requires
        0 <= g < 8,
        0 <= h < 8,
        0 <= cell < 81,
    ensures
        0 <= joined(g, h) < 8,
        0 <= image_of(g, cell) < 81,
        image_of(joined(g, h), cell) == image_of(h, image_of(g, cell)),
{
    let (r, c) = (cell / 9, cell % 9);
    let mid = image_of(g, cell);
    lemma_image(g, cell);
    lemma_image(h, mid);
    lemma_image(joined(g, h), cell);
    let (r1, c1) = image_at(g, r, c);
    assert(image_at(joined(g, h), r, c) == image_at(h, r1, c1));
}

impl DihedralSubgroup {
    /// With two symmetries the group has the one after the other.
    pub proof fn lemma_closed(&self, g: int, h: int)
        requires
            0 <= g < 8,
            0 <= h < 8,
            self.has(g),
            self.has(h),
        ensures
            self.has(joined(g, h)),
    {
    }

    /// A cell that is carried to a second cell, which is carried to a
    /// third, is carried to the third.
    pub proof fn lemma_orbit_through(&self, a: int, b: int, c: int)
        requires
            0 <= a < 81,
            self.in_orbit(a, b),
            self.in_orbit(b, c),
        ensures
            0 <= b < 81,
            0 <= c < 81,
            self.in_orbit(a, c),
    {
        let g = choose|g: int| 0 <= g < 8 && self.has(g) && #[trigger] image_of(g, a) == b;
        lemma_image(g, a);
        let h = choose|h: int| 0 <= h < 8 && self.has(h) && #[trigger] image_of(h, b) == c;
        lemma_image(h, b);
        lemma_joined(g, h, a);
        self.lemma_closed(g, h);
        assert(image_of(joined(g, h), a) == c);
    }
}

impl DihedralSubgroup {
    /// Whether symmetry `g` is in the group.
    pub open spec fn has(&self, g: int) -> bool {
        match self {
            DihedralSubgroup::Identity => g == 0,
            DihedralSubgroup::HalfTurn => g == 0 || g == 2,
            DihedralSubgroup::QuarterTurn => 0 <= g <= 3,
            DihedralSubgroup::HorizontalReflection => g == 0 || g == 4,
            DihedralSubgroup::VerticalReflection => g == 0 || g == 5,
            DihedralSubgroup::DiagonalReflection => g == 0 || g == 6,
            DihedralSubgroup::AntidiagonalReflection => g == 0 || g == 7,
            DihedralSubgroup::Orthogonal => g == 0 || g == 2 || g == 4 || g == 5,
            DihedralSubgroup::Diagonals => g == 0 || g == 2 || g == 6 || g == 7,
            DihedralSubgroup::Full => 0 <= g <= 7,
        }
    }

    /// Whether a symmetry of the group carries cell `a` to cell `b`.
    pub open spec fn in_orbit(&self, a: int, b: int) -> bool {
        exists|g: int| 0 <= g < 8 && self.has(g) && #[trigger] image_of(g, a) == b
    }

    /// Whether symmetry `g` is in the group: see [`Self::has`].
    pub fn contains(&self, g: usize) -> (r: bool)
        ensures
            r == self.has(g as int),
    {
        match self {
            DihedralSubgroup::Identity => g == 0,
            DihedralSubgroup::HalfTurn => g == 0 || g == 2,
            DihedralSubgroup::QuarterTurn => g <= 3,
            DihedralSubgroup::HorizontalReflection => g == 0 || g == 4,
            DihedralSubgroup::VerticalReflection => g == 0 || g == 5,
            DihedralSubgroup::DiagonalReflection => g == 0 || g == 6,
            DihedralSubgroup::AntidiagonalReflection => g == 0 || g == 7,
            DihedralSubgroup::Orthogonal => g == 0 || g == 2 || g == 4 || g == 5,
            DihedralSubgroup::Diagonals => g == 0 || g == 2 || g == 6 || g == 7,
            DihedralSubgroup::Full => g <= 7,
        }
    }

    /// The cells that the symmetries of the group carry `cell` to, each
    /// once, in the order of the symmetries.
    pub fn orbit(&self, cell: usize) -> (r: Vec<usize>)
        requires
            cell < 81,
        ensures
            r@.len() >= 1,
            r@[0] == cell,
            forall|k: int| 0 <= k < r@.len() ==> #[trigger] r@[k] < 81 && self.in_orbit(cell as int, r@[k] as int),
            forall|b: int| self.in_orbit(cell as int, b) ==> exists|k: int| 0 <= k < r@.len() && #[trigger] r@[k] == b,
            forall|j: int, k: int| 0 <= j < k < r@.len() ==> #[trigger] r@[j] != #[trigger] r@[k],
    {
        let mut cells: Vec<usize> = Vec::new();
        let mut g: usize = 0;
        while g < 8
            invariant
                g <= 8,
                cell < 81,
                g == 0 ==> cells@.len() == 0,
                g >= 1 ==> cells@.len() >= 1 && cells@[0] == cell,
                forall|k: int|
                    0 <= k < cells@.len() ==> #[trigger] cells@[k] < 81 && self.in_orbit(cell as int, cells@[k] as int),
                forall|h: int|
                    0 <= h < g && self.has(h) ==> exists|k: int|
                        0 <= k < cells@.len() && #[trigger] cells@[k] == image_of(h, cell as int),
                forall|j: int, k: int| 0 <= j < k < cells@.len() ==> #[trigger] cells@[j] != #[trigger] cells@[k],
            decreases 8 - g,
        {
            proof {
                assert(self.has(0));
            }
            if self.contains(g) {
                let target = image(g, cell);
                let mut known = false;
                let mut k: usize = 0;
                while k < cells.len()
                    invariant
                        k <= cells@.len(),
                        known <==> exists|j: int| 0 <= j < k && #[trigger] cells@[j] == target,
                    decreases cells@.len() - k,
                {
                    if cells[k] == target {
                        known = true;
                    }
                    k += 1;
                }
                let ghost before = cells@;
                if !known {
                    cells.push(target);
                }
                proof {
                    assert(image_of(g as int, cell as int) == target);
                    if g == 0 {
                        assert(target == cell);
                        assert(cells@[0] == cell);
                    } else {
                        assert(cells@[0] == before[0]);
                    }
                    assert forall|h: int| 0 <= h < g + 1 && self.has(h) implies exists|k: int|
                        0 <= k < cells@.len() && #[trigger] cells@[k] == image_of(h, cell as int) by {
                        if h < g {
                            let k = choose|k: int| 0 <= k < before.len() && #[trigger] before[k] == image_of(h, cell as int);
                            assert(cells@[k] == before[k]);
                        } else if known {
                            let j = choose|j: int| 0 <= j < before.len() && #[trigger] before[j] == target;
                            assert(cells@[j] == target);
                        } else {
                            assert(cells@[cells@.len() - 1] == target);
                        }
                    }
                }
            }
            g += 1;
        }
        proof {
            assert forall|b: int| self.in_orbit(cell as int, b) implies exists|k: int|
                0 <= k < cells@.len() && #[trigger] cells@[k] == b by {
                let h = choose|h: int| 0 <= h < 8 && self.has(h) && #[trigger] image_of(h, cell as int) == b;
                let k = choose|k: int| 0 <= k < cells@.len() && #[trigger] cells@[k] == image_of(h, cell as int);
                assert(cells@[k] == b);
            }
        }
        cells
    }

    /// For each of the 81 cells, the cells that the symmetries of the group
    /// carry it to.
    pub fn orbits(&self) -> (r: Vec<Vec<usize>>)
        ensures
            r@.len() == 81,
            forall|i: int, k: int|
                0 <= i < 81 && 0 <= k < r@[i]@.len() ==> #[trigger] r@[i]@[k] < 81 && self.in_orbit(i, r@[i]@[k] as int),
            forall|i: int, b: int|
                0 <= i < 81 && self.in_orbit(i, b) ==> exists|k: int| 0 <= k < r@[i]@.len() && #[trigger] r@[i]@[k] == b,
            forall|i: int| 0 <= i < 81 ==> (#[trigger] r@[i])@.len() >= 1 && r@[i]@[0] == i,
    {
        let mut all: Vec<Vec<usize>> = Vec::new();
        let mut cell: usize = 0;
        while cell < 81
            invariant
                cell <= 81,
                all@.len() == cell,
                forall|i: int, k: int|
                    0 <= i < cell && 0 <= k < all@[i]@.len() ==> #[trigger] all@[i]@[k] < 81 && self.in_orbit(
                        i,
                        all@[i]@[k] as int,
                    ),
                forall|i: int, b: int|
                    0 <= i < cell && self.in_orbit(i, b) ==> exists|k: int|
                        0 <= k < all@[i]@.len() && #[trigger] all@[i]@[k] == b,
                forall|i: int| 0 <= i < cell ==> (#[trigger] all@[i])@.len() >= 1 && all@[i]@[0] == i,
            decreases 81 - cell,
        {
            let orbit = self.orbit(cell);
            let ghost before = all@;
            all.push(orbit);
            proof {
                assert forall|i: int, b: int| 0 <= i < cell + 1 && self.in_orbit(i, b) implies exists|k: int|
                    0 <= k < all@[i]@.len() && #[trigger] all@[i]@[k] == b by {
                    if i < cell {
                        assert(all@[i] == before[i]);
                        let k = choose|k: int| 0 <= k < before[i]@.len() && #[trigger] before[i]@[k] == b;
                        assert(all@[i]@[k] == b);
                    } else {
                        let k = choose|k: int| 0 <= k < orbit@.len() && #[trigger] orbit@[k] == b;
                        assert(all@[i]@[k] == b);
                    }
                }
                assert forall|i: int, k: int| 0 <= i < cell + 1 && 0 <= k < all@[i]@.len() implies #[trigger] all@[i]@[k]
                    < 81 && self.in_orbit(i, all@[i]@[k] as int) by {
                    if i < cell {
                        assert(all@[i] == before[i]);
                    }
                }
                assert forall|i: int| 0 <= i < cell + 1 implies (#[trigger] all@[i])@.len() >= 1 && all@[i]@[0] == i by {
                    if i < cell {
                        assert(all@[i] == before[i]);
                    }
                }
            }
            cell += 1;
        }
        all
    }
}

} // verus!
