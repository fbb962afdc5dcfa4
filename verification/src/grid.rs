use vstd::prelude::*;

use crate::cell::{Coord, GridCell};
use crate::distances::Distances;
use crate::rng::{fixed_next_cursor, fixed_raw, RandomSource};
use crate::MazeError;

verus! {

/// Relies on String::push: appends the given character to the end of the
/// string.
pub assume_specification[ String::push ](s: &mut String, ch: char)
    ensures
        final(s)@ == old(s)@.push(ch),
;

/// The grid graph: a rows x columns arena of cells, whose structural
/// adjacency is derived purely from position, together with the distance
/// field most recently computed over it.
#[derive(Debug, Clone)]
pub struct Grid {
    pub rows: usize,
    pub columns: usize,
    pub grid: Vec<Vec<GridCell>>,
    pub distances: Distances,
}

/// The number of link records in the first `n` cells of one row.
pub open spec fn row_links(row: Seq<GridCell>, n: int) -> int
    decreases n,
{
    if n <= 0 {
        0
    } else {
        row_links(row, n - 1) + row[n - 1].links@.len()
    }
}

/// The number of link records in the first `n` rows. Every passage is
/// recorded on both of its cells, so a grid holding a spanning tree has
/// twice as many records as the tree has edges.
pub open spec fn grid_links(g: Seq<Vec<GridCell>>, n: int) -> int
    decreases n,
{
    if n <= 0 {
        0
    } else {
        grid_links(g, n - 1) + row_links(g[n - 1]@, g[n - 1]@.len() as int)
    }
}

/// The number of dead ends (cells with exactly one link) in the first `n`
/// cells of one row.
pub open spec fn row_dead_ends(row: Seq<GridCell>, n: int) -> int
    decreases n,
{
    if n <= 0 {
        0
    } else {
        row_dead_ends(row, n - 1) + if row[n - 1].links@.len() == 1 {
            1int
        } else {
            0int
        }
    }
}

/// The number of dead ends in the first `n` rows.
pub open spec fn grid_dead_ends(g: Seq<Vec<GridCell>>, n: int) -> int
    decreases n,
{
    if n <= 0 {
        0
    } else {
        grid_dead_ends(g, n - 1) + row_dead_ends(g[n - 1]@, g[n - 1]@.len() as int)
    }
}

impl Grid {
    /// Whether a coordinate lies inside this grid's extent.
    pub open spec fn valid(self, c: Coord) -> bool {
        c.0 < self.rows && c.1 < self.columns
    }

    /// The cell stored at a valid coordinate.
    pub open spec fn cell_spec(self, c: Coord) -> GridCell {
        self.grid@[c.0 as int]@[c.1 as int]
    }

    /// Whether the cell at `a` records a passage to `b`.
    pub open spec fn linked(self, a: Coord, b: Coord) -> bool {
        self.valid(a) && self.cell_spec(a).links@.contains(b)
    }

    /// Structural adjacency: two valid coordinates that differ by one in
    /// exactly one of their components.
    pub open spec fn is_neighbor(self, a: Coord, b: Coord) -> bool {
        &&& self.valid(a)
        &&& self.valid(b)
        &&& ((a.0 == b.0 && (a.1 + 1 == b.1 || b.1 + 1 == a.1)) || (a.1 == b.1 && (a.0 + 1 == b.0
            || b.0 + 1 == a.0)))
    }

    /// The total number of link records over the whole grid.
    pub open spec fn link_count(self) -> int {
        grid_links(self.grid@, self.grid@.len() as int)
    }

    /// The total number of dead ends over the whole grid.
    pub open spec fn dead_end_count(self) -> int {
        grid_dead_ends(self.grid@, self.grid@.len() as int)
    }

    /// Well-formedness: a non-empty extent whose size fits the machine, a
    /// matrix of exactly that shape, every cell carrying its own position,
    /// duplicate-free link records, links only between structural
    /// neighbours, and links symmetric: A links B exactly when B links A.
    pub open spec fn wf(self) -> bool {
        &&& 1 <= self.rows
        &&& 1 <= self.columns
        &&& self.rows * self.columns <= usize::MAX
        &&& self.grid@.len() == self.rows
        &&& forall|r: int|
            0 <= r < self.rows ==> (#[trigger] self.grid@[r])@.len() == self.columns
        &&& forall|c: Coord|
            self.valid(c) ==> (#[trigger] self.cell_spec(c)).row == c.0 && self.cell_spec(
                c,
            ).column == c.1
        &&& forall|c: Coord| self.valid(c) ==> (#[trigger] self.cell_spec(c)).links_no_dup()
        &&& forall|a: Coord, b: Coord| #[trigger] self.linked(a, b) ==> self.is_neighbor(a, b)
        &&& forall|a: Coord, b: Coord| #[trigger] self.linked(a, b) ==> self.linked(b, a)
    }

    /// Whether every cell's four neighbour slots hold exactly what its
    /// position dictates: absent at the boundary, the adjacent coordinate
    /// otherwise.
    pub open spec fn configured(self) -> bool {
        forall|c: Coord|
            self.valid(c) ==> {
                let cell = #[trigger] self.cell_spec(c);
                &&& cell.north == if c.0 > 0 {
                    Some(Coord((c.0 - 1) as usize, c.1))
                } else {
                    None::<Coord>
                }
                &&& cell.south == if c.0 + 1 < self.rows {
                    Some(Coord((c.0 + 1) as usize, c.1))
                } else {
                    None::<Coord>
                }
                &&& cell.east == if c.1 + 1 < self.columns {
                    Some(Coord(c.0, (c.1 + 1) as usize))
                } else {
                    None::<Coord>
                }
                &&& cell.west == if c.1 > 0 {
                    Some(Coord(c.0, (c.1 - 1) as usize))
                } else {
                    None::<Coord>
                }
            }
    }

    /// Whether no cell records any passage.
    pub open spec fn links_empty(self) -> bool {
        forall|c: Coord| self.valid(c) ==> (#[trigger] self.cell_spec(c)).links@.len() == 0
    }

    /// The two grids agree on everything except passages and the distance
    /// field: extent, shape, cell identities and neighbour slots.
    pub open spec fn same_structure(self, other: Grid) -> bool {
        &&& self.rows == other.rows
        &&& self.columns == other.columns
        &&& self.grid@.len() == other.grid@.len()
        &&& forall|r: int|
            0 <= r < self.grid@.len() ==> (#[trigger] self.grid@[r])@.len()
                == other.grid@[r]@.len()
        &&& forall|c: Coord|
            self.valid(c) ==> (#[trigger] self.cell_spec(c)).same_structure(other.cell_spec(c))
    }

    /// Build the cell matrix for the given extent; every cell carries its
    /// position, no neighbour slots, and no links.
    pub fn prepare_grid(rows: usize, columns: usize) -> (g: Vec<Vec<GridCell>>)
        ensures
            g@.len() == rows,
            forall|r: int| 0 <= r < rows ==> (#[trigger] g@[r])@.len() == columns,
            forall|r: int, c: int|
                0 <= r < rows && 0 <= c < columns ==> {
                    let cell = #[trigger] g@[r]@[c];
                    &&& cell.row == r
                    &&& cell.column == c
                    &&& cell.north is None
                    &&& cell.south is None
                    &&& cell.east is None
                    &&& cell.west is None
                    &&& cell.links@.len() == 0
                },
    {
        let mut g: Vec<Vec<GridCell>> = Vec::new();
        let mut r: usize = 0;
        while r < rows
            invariant
                r <= rows,
                g@.len() == r,
                forall|i: int| 0 <= i < r ==> (#[trigger] g@[i])@.len() == columns,
                forall|i: int, j: int|
                    0 <= i < r && 0 <= j < columns ==> {
                        let cell = #[trigger] g@[i]@[j];
                        &&& cell.row == i
                        &&& cell.column == j
                        &&& cell.north is None
                        &&& cell.south is None
                        &&& cell.east is None
                        &&& cell.west is None
                        &&& cell.links@.len() == 0
                    },
            decreases rows - r,
        {
            let mut row: Vec<GridCell> = Vec::new();
            let mut c: usize = 0;
            while c < columns
                invariant
                    c <= columns,
                    row@.len() == c,
                    forall|j: int|
                        0 <= j < c ==> {
                            let cell = #[trigger] row@[j];
                            &&& cell.row == r
                            &&& cell.column == j
                            &&& cell.north is None
                            &&& cell.south is None
                            &&& cell.east is None
                            &&& cell.west is None
                            &&& cell.links@.len() == 0
                        },
                decreases columns - c,
            {
                row.push(GridCell::init(r, c));
                c += 1;
            }
            g.push(row);
            r += 1;
        }
        g
    }

    /// Create a grid of the given extent, or report `InvalidDimensions`
    /// when either dimension is zero. The new grid has no neighbour slots
    /// filled and no passages; its distance field is the trivial field
    /// rooted at the origin.
    pub fn initialize(rows: usize, columns: usize) -> (r: Result<Grid, MazeError>)
        requires
            rows * columns <= usize::MAX,
        ensures
            (rows == 0 || columns == 0) <==> r == Err::<Grid, MazeError>(
                MazeError::InvalidDimensions,
            ),
            r is Ok <==> (rows >= 1 && columns >= 1),
            r matches Ok(g) ==> {
                &&& g.wf()
                &&& g.rows == rows
                &&& g.columns == columns
                &&& g.links_empty()
                &&& g.link_count() == 0
                &&& forall|c: Coord|
                    g.valid(c) ==> (#[trigger] g.cell_spec(c)).north is None && g.cell_spec(
                        c,
                    ).south is None && g.cell_spec(c).east is None && g.cell_spec(c).west is None
                &&& g.distances.is_trivial_at(Coord(0, 0))
            },
    {
        if rows == 0 || columns == 0 {
            return Err(MazeError::InvalidDimensions);
        }
        let g = Grid {
            rows,
            columns,
            grid: Grid::prepare_grid(rows, columns),
            distances: Distances::initialize(Coord(0, 0)),
        };
        proof {
            assert forall|a: Coord, b: Coord| #[trigger] g.linked(a, b) implies g.is_neighbor(
                a,
                b,
            ) by {
                assert(g.cell_spec(a).links@.len() == 0);
            }
            assert(g.link_count() == 0) by {
                lemma_empty_links_count(g.grid@, g.grid@.len() as int, g.columns as int);
            }
        }
        Ok(g)
    }

    /// Fill every cell's four neighbour slots from its position, in one
    /// pass. Passages are untouched.
    pub fn configure_cells(&mut self)
        requires
            old(self).wf(),
        ensures
            final(self).wf(),
            final(self).configured(),
            final(self).same_structure_except_neighbors(*old(self)),
            final(self).rows == old(self).rows,
            final(self).columns == old(self).columns,
            final(self).distances == old(self).distances,
            forall|c: Coord|
                final(self).valid(c) ==> (#[trigger] final(self).cell_spec(c)).links@ == old(
                    self,
                ).cell_spec(c).links@,
            old(self).links_empty() ==> final(self).links_empty(),
    {
        let rows = self.rows;
        let columns = self.columns;
        let mut r: usize = 0;
        while r < rows
            invariant
                r <= rows,
                self.rows == rows,
                self.columns == columns,
                self.wf(),
                self.distances == old(self).distances,
                forall|c: Coord|
                    self.valid(c) && (c.0 >= r) ==> #[trigger] self.cell_spec(c) == old(
                        self,
                    ).cell_spec(c),
                forall|c: Coord|
                    self.valid(c) && c.0 < r ==> (#[trigger] self.cell_spec(c)).links@ == old(
                        self,
                    ).cell_spec(c).links@,
                forall|c: Coord|
                    self.valid(c) && c.0 < r ==> {
                        let cell = #[trigger] self.cell_spec(c);
                        &&& cell.north == if c.0 > 0 {
                            Some(Coord((c.0 - 1) as usize, c.1))
                        } else {
                            None::<Coord>
                        }
                        &&& cell.south == if c.0 + 1 < self.rows {
                            Some(Coord((c.0 + 1) as usize, c.1))
                        } else {
                            None::<Coord>
                        }
                        &&& cell.east == if c.1 + 1 < self.columns {
                            Some(Coord(c.0, (c.1 + 1) as usize))
                        } else {
                            None::<Coord>
                        }
                        &&& cell.west == if c.1 > 0 {
                            Some(Coord(c.0, (c.1 - 1) as usize))
                        } else {
                            None::<Coord>
                        }
                    },
            decreases rows - r,
        {
            let mut c: usize = 0;
            while c < columns
                invariant
                    r < rows,
                    c <= columns,
                    self.rows == rows,
                    self.columns == columns,
                    self.wf(),
                    self.distances == old(self).distances,
                    forall|x: Coord|
                        self.valid(x) && (x.0 > r || (x.0 == r && x.1 >= c)) ==> #[trigger] self.cell_spec(
                            x,
                        ) == old(self).cell_spec(x),
                    forall|x: Coord|
                        self.valid(x) && (x.0 < r || (x.0 == r && x.1 < c)) ==> (
                        #[trigger] self.cell_spec(x)).links@ == old(self).cell_spec(x).links@,
                    forall|x: Coord|
                        self.valid(x) && (x.0 < r || (x.0 == r && x.1 < c)) ==> {
                            let cell = #[trigger] self.cell_spec(x);
                            &&& cell.north == if x.0 > 0 {
                                Some(Coord((x.0 - 1) as usize, x.1))
                            } else {
                                None::<Coord>
                            }
                            &&& cell.south == if x.0 + 1 < self.rows {
                                Some(Coord((x.0 + 1) as usize, x.1))
                            } else {
                                None::<Coord>
                            }
                            &&& cell.east == if x.1 + 1 < self.columns {
                                Some(Coord(x.0, (x.1 + 1) as usize))
                            } else {
                                None::<Coord>
                            }
                            &&& cell.west == if x.1 > 0 {
                                Some(Coord(x.0, (x.1 - 1) as usize))
                            } else {
                                None::<Coord>
                            }
                        },
                decreases columns - c,
            {
                let ghost pre = *self;
                let north = if r > 0 {
                    Some(Coord(r - 1, c))
                } else {
                    None
                };
                let south = if r + 1 < rows {
                    Some(Coord(r + 1, c))
                } else {
                    None
                };
                let east = if c + 1 < columns {
                    Some(Coord(r, c + 1))
                } else {
                    None
                };
                let west = if c > 0 {
                    Some(Coord(r, c - 1))
                } else {
                    None
                };
                let row_vec = &mut self.grid[r];
                let cell = &mut row_vec[c];
                cell.north = north;
                cell.south = south;
                cell.east = east;
                cell.west = west;
                proof {
                    assert forall|x: Coord|
                        self.valid(x) && x != Coord(r, c) implies #[trigger] self.cell_spec(x)
                        == pre.cell_spec(x) by {
                        if x.0 == r {
                            assert(x.1 != c);
                        }
                    }
                    assert(self.cell_spec(Coord(r, c)).links@ == pre.cell_spec(Coord(r, c)).links@);
                    assert forall|a: Coord, b: Coord| #[trigger] self.linked(a, b) implies pre.linked(
                        a,
                        b,
                    ) && self.is_neighbor(a, b) && self.linked(b, a) by {
                        assert(self.cell_spec(a).links@ == pre.cell_spec(a).links@);
                        assert(pre.linked(a, b));
                        assert(pre.linked(b, a));
                        assert(self.cell_spec(b).links@ == pre.cell_spec(b).links@);
                    }
                }
                c += 1;
            }
            r += 1;
        }
    }

    /// The two grids agree on extent, shape, and cell identities and link
    /// records; only neighbour slots may differ.
    pub open spec fn same_structure_except_neighbors(self, other: Grid) -> bool {
        &&& self.rows == other.rows
        &&& self.columns == other.columns
        &&& self.grid@.len() == other.grid@.len()
        &&& forall|r: int|
            0 <= r < self.grid@.len() ==> (#[trigger] self.grid@[r])@.len()
                == other.grid@[r]@.len()
    }

    /// Clear every cell's passages and restore the trivial distance field;
    /// structural adjacency persists untouched.
    pub fn reset(&mut self)
        requires
            old(self).wf(),
        ensures
            final(self).wf(),
            final(self).same_structure(*old(self)),
            final(self).links_empty(),
            final(self).link_count() == 0,
            final(self).rows == old(self).rows,
            final(self).columns == old(self).columns,
            old(self).configured() ==> final(self).configured(),
            final(self).distances.is_trivial_at(Coord(0, 0)),
    {
        let rows = self.rows;
        let columns = self.columns;
        let mut r: usize = 0;
        while r < rows
            invariant
                r <= rows,
                self.rows == rows,
                self.columns == columns,
                self.grid@.len() == rows,
                forall|i: int| 0 <= i < rows ==> (#[trigger] self.grid@[i])@.len() == columns,
                self.rows * self.columns <= usize::MAX,
                forall|c: Coord|
                    self.valid(c) && c.0 >= r ==> #[trigger] self.cell_spec(c) == old(
                        self,
                    ).cell_spec(c),
                forall|c: Coord|
                    self.valid(c) && c.0 < r ==> (#[trigger] self.cell_spec(c)).same_structure(
                        old(self).cell_spec(c),
                    ) && self.cell_spec(c).links@.len() == 0,
            decreases rows - r,
        {
            let mut c: usize = 0;
            while c < columns
                invariant
                    r < rows,
                    c <= columns,
                    self.rows == rows,
                    self.columns == columns,
                    self.grid@.len() == rows,
                    forall|i: int| 0 <= i < rows ==> (#[trigger] self.grid@[i])@.len() == columns,
                    forall|x: Coord|
                        self.valid(x) && (x.0 > r || (x.0 == r && x.1 >= c)) ==> #[trigger] self.cell_spec(
                            x,
                        ) == old(self).cell_spec(x),
                    forall|x: Coord|
                        self.valid(x) && (x.0 < r || (x.0 == r && x.1 < c)) ==> (
                        #[trigger] self.cell_spec(x)).same_structure(old(self).cell_spec(x))
                            && self.cell_spec(x).links@.len() == 0,
                decreases columns - c,
            {
                let ghost pre = *self;
                let row_vec = &mut self.grid[r];
                let cell = &mut row_vec[c];
                cell.links = Vec::new();
                proof {
                    assert forall|x: Coord|
                        self.valid(x) && x != Coord(r, c) implies #[trigger] self.cell_spec(x)
                        == pre.cell_spec(x) by {
                        if x.0 == r {
                            assert(x.1 != c);
                        }
                    }
                    assert(self.cell_spec(Coord(r, c)).links@.len() == 0);
                    assert(self.cell_spec(Coord(r, c)).same_structure(pre.cell_spec(Coord(r, c))));
                }
                c += 1;
            }
            r += 1;
        }
        let ghost cleared = *self;
        self.distances = Distances::initialize(Coord(0, 0));
        proof {
            assert forall|c: Coord|
                self.valid(c) implies (#[trigger] self.cell_spec(c)).same_structure(
                old(self).cell_spec(c),
            ) && self.cell_spec(c).links@.len() == 0 by {
                assert(cleared.cell_spec(c).same_structure(old(self).cell_spec(c)));
                assert(cleared.cell_spec(c).links@.len() == 0);
                assert(self.cell_spec(c) == cleared.cell_spec(c));
            }
            assert forall|a: Coord, b: Coord| #[trigger] self.linked(a, b) implies self.is_neighbor(
                a,
                b,
            ) by {
                assert(self.cell_spec(a).links@.len() == 0);
            }
            assert forall|i: int, j: int|
                0 <= i < self.grid@.len() && 0 <= j < self.columns implies (
            #[trigger] self.grid@[i]@[j]).links@.len() == 0 by {
                let x = Coord(i as usize, j as usize);
                assert(self.valid(x));
                assert(self.cell_spec(x).links@.len() == 0);
            }
            assert(self.link_count() == 0) by {
                lemma_empty_links_count(self.grid@, self.grid@.len() as int, self.columns as int);
            }
            if old(self).configured() {
                assert forall|c: Coord| self.valid(c) implies {
                    let cell = #[trigger] self.cell_spec(c);
                    &&& cell.north == if c.0 > 0 {
                        Some(Coord((c.0 - 1) as usize, c.1))
                    } else {
                        None::<Coord>
                    }
                    &&& cell.south == if c.0 + 1 < self.rows {
                        Some(Coord((c.0 + 1) as usize, c.1))
                    } else {
                        None::<Coord>
                    }
                    &&& cell.east == if c.1 + 1 < self.columns {
                        Some(Coord(c.0, (c.1 + 1) as usize))
                    } else {
                        None::<Coord>
                    }
                    &&& cell.west == if c.1 > 0 {
                        Some(Coord(c.0, (c.1 - 1) as usize))
                    } else {
                        None::<Coord>
                    }
                } by {
                    assert(self.cell_spec(c).same_structure(old(self).cell_spec(c)));
                    assert(old(self).valid(c));
                }
            }
        }
    }

    /// The cell at the given position, or `None` outside the grid extent.
    pub fn get_cell_ref(&self, row: usize, column: usize) -> (r: Option<&GridCell>)
        ensures
            match r {
                Some(cell) => row < self.grid@.len() && column < self.grid@[row as int]@.len()
                    && *cell == self.grid@[row as int]@[column as int],
                None => row >= self.grid@.len() || column >= self.grid@[row as int]@.len(),
            },
    {
        if row < self.grid.len() {
            let row_vec = &self.grid[row];
            if column < row_vec.len() {
                return Some(&row_vec[column]);
            }
        }
        None
    }

    /// The cell at the given position, or `CellOutOfBounds` outside the
    /// grid extent.
    pub fn cell_at(&self, row: usize, column: usize) -> (r: Result<&GridCell, MazeError>)
        ensures
            (row < self.grid@.len() && column < self.grid@[row as int]@.len()) ==> (r matches Ok(
                cell,
            ) && *cell == self.grid@[row as int]@[column as int]),
            !(row < self.grid@.len() && column < self.grid@[row as int]@.len()) ==> r
                == Err::<&GridCell, MazeError>(MazeError::CellOutOfBounds),
    {
        match self.get_cell_ref(row, column) {
            Some(cell) => Ok(cell),
            None => Err(MazeError::CellOutOfBounds),
        }
    }

    /// The cell at a coordinate known to be valid.
    pub(crate) fn cell(&self, c: Coord) -> (r: &GridCell)
        requires
            self.wf(),
            self.valid(c),
        ensures
            *r == self.cell_spec(c),
    {
        let row_vec = &self.grid[c.0];
        &row_vec[c.1]
    }

    /// A uniformly selected cell of the grid: a random row, then a random
    /// column. A `Fixed` source makes the selection fully determined by
    /// its next two draws.
    pub fn get_random_cell(&self, rng: &mut RandomSource) -> (r: Coord)
        requires
            self.wf(),
        ensures
            self.valid(r),
            *old(rng) is System ==> *final(rng) is System,
            *old(rng) matches RandomSource::Fixed(values, cursor) ==> {
                let c1 = fixed_next_cursor(values@, cursor);
                &&& r == Coord(
                    ((fixed_raw(values@, cursor) as int % self.rows as int) as usize),
                    ((fixed_raw(values@, c1) as int % self.columns as int) as usize),
                )
                &&& *final(rng) == RandomSource::Fixed(values, fixed_next_cursor(values@, c1))
            },
    {
        let rand_row = rng.random_below(self.rows);
        let rand_col = rng.random_below(self.columns);
        Coord(rand_row, rand_col)
    }

    /// The number of cells in the grid.
    pub fn size(&self) -> (r: usize)
        requires
            self.wf(),
        ensures
            r == self.rows * self.columns,
    {
        self.rows * self.columns
    }

    /// Open a passage between two structurally adjacent cells that are not
    /// yet linked, recording it symmetrically on both.
    pub fn link_pair(&mut self, a: Coord, b: Coord)
        requires
            old(self).wf(),
            old(self).is_neighbor(a, b),
            !old(self).linked(a, b),
        ensures
            final(self).wf(),
            final(self).same_structure(*old(self)),
            final(self).rows == old(self).rows,
            final(self).columns == old(self).columns,
            final(self).distances == old(self).distances,
            old(self).configured() ==> final(self).configured(),
            forall|x: Coord, y: Coord|
                #[trigger] final(self).linked(x, y) <==> (old(self).linked(x, y) || (x == a && y
                    == b) || (x == b && y == a)),
            final(self).link_count() == old(self).link_count() + 2,
    {
        proof {
            assert(a != b);
            assert(!old(self).linked(b, a));
        }
        let ghost pre = *self;
        {
            let row_vec = &mut self.grid[a.0];
            let cell = &mut row_vec[a.1];
            cell.insert_link(b);
        }
        let ghost mid = *self;
        proof {
            assert(mid.cell_spec(a).links@ == pre.cell_spec(a).links@.push(b));
            assert forall|x: Coord|
                mid.valid(x) && x != a implies #[trigger] mid.cell_spec(x) == pre.cell_spec(x) by {
                if x.0 == a.0 {
                    assert(x.1 != a.1);
                }
            }
            lemma_one_cell_update_count(pre, mid, a, 1);
        }
        {
            let row_vec = &mut self.grid[b.0];
            let cell = &mut row_vec[b.1];
            cell.insert_link(a);
        }
        proof {
            assert(!mid.cell_spec(b).links@.contains(a)) by {
                assert(mid.cell_spec(b).links@ == pre.cell_spec(b).links@);
            }
            assert(self.cell_spec(b).links@ == mid.cell_spec(b).links@.push(a));
            assert forall|x: Coord|
                self.valid(x) && x != b implies #[trigger] self.cell_spec(x) == mid.cell_spec(
                x,
            ) by {
                if x.0 == b.0 {
                    assert(x.1 != b.1);
                }
            }
            lemma_one_cell_update_count(mid, *self, b, 1);
            assert forall|x: Coord, y: Coord| #[trigger] self.linked(x, y) implies (pre.linked(x, y)
                || (x == a && y == b) || (x == b && y == a)) by {
                if x == a {
                    assert(self.cell_spec(a).links@ == pre.cell_spec(a).links@.push(b));
                } else if x == b {
                } else {
                    assert(self.cell_spec(x) == pre.cell_spec(x));
                }
            }
            assert forall|x: Coord, y: Coord|
                (pre.linked(x, y) || (x == a && y == b) || (x == b && y == a)) implies #[trigger] self.linked(
                x,
                y,
            ) by {
                let sa = pre.cell_spec(a).links@;
                let sb = pre.cell_spec(b).links@;
                if pre.linked(x, y) {
                    if x == a {
                        let i = choose|i: int| 0 <= i < sa.len() && sa[i] == y;
                        assert(self.cell_spec(a).links@[i] == y);
                    } else if x == b {
                        let i = choose|i: int| 0 <= i < sb.len() && sb[i] == y;
                        assert(self.cell_spec(b).links@[i] == y);
                    } else {
                        assert(self.cell_spec(x) == pre.cell_spec(x));
                    }
                } else if x == a && y == b {
                    assert(self.cell_spec(a).links@[sa.len() as int] == b);
                } else {
                    assert(self.cell_spec(b).links@[sb.len() as int] == a);
                }
            }
            assert forall|x: Coord, y: Coord| #[trigger] self.linked(x, y) implies self.is_neighbor(
                x,
                y,
            ) && self.linked(y, x) by {
                if x == a && y == b {
                } else if x == b && y == a {
                } else {
                    assert(pre.linked(x, y));
                }
            }
        }
    }

    /// The three-character cell body for textual rendering: the cell's
    /// distance in the current field as a base-36 digit (blank when
    /// unreached), flanked by spaces.
    pub fn contents_of(&self, cell: &GridCell) -> (r: String)
        requires
            self.distances.keys_no_dup(),
        ensures
            r@ == seq![' ', contents_char(self.distances, *cell), ' '],
    {
        let coord = Coord(cell.row, cell.column);
        let mid = match self.distances.get_cell_distance(&coord) {
            Ok(d) => Self::digit_char(d),
            Err(_) => ' ',
        };
        let mut out = String::new();
        out.push(' ');
        out.push(mid);
        out.push(' ');
        proof {
            assert(out@ =~= seq![' ', contents_char(self.distances, *cell), ' ']);
        }
        out
    }

    /// The base-36 digit for a distance, or a tilde beyond 35.
    pub fn digit_char(d: usize) -> (c: char)
        ensures
            c == digit36(d),
    {
        match d {
            0 => '0',
            1 => '1',
            2 => '2',
            3 => '3',
            4 => '4',
            5 => '5',
            6 => '6',
            7 => '7',
            8 => '8',
            9 => '9',
            10 => 'a',
            11 => 'b',
            12 => 'c',
            13 => 'd',
            14 => 'e',
            15 => 'f',
            16 => 'g',
            17 => 'h',
            18 => 'i',
            19 => 'j',
            20 => 'k',
            21 => 'l',
            22 => 'm',
            23 => 'n',
            24 => 'o',
            25 => 'p',
            26 => 'q',
            27 => 'r',
            28 => 's',
            29 => 't',
            30 => 'u',
            31 => 'v',
            32 => 'w',
            33 => 'x',
            34 => 'y',
            35 => 'z',
            _ => '~',
        }
    }

    /// The number of cells whose link set has size exactly one. Between 0
    /// and the grid size; zero on a single-cell grid, which has no
    /// neighbours to link.
    pub fn deadends(&self) -> (r: usize)
        requires
            self.wf(),
        ensures
            r == self.dead_end_count(),
            0 <= r <= self.rows * self.columns,
            self.rows == 1 && self.columns == 1 ==> r == 0,
    {
        let rows = self.rows;
        let columns = self.columns;
        let mut count: usize = 0;
        let mut r: usize = 0;
        while r < rows
            invariant
                r <= rows,
                count == grid_dead_ends(self.grid@, r as int),
                count <= r * columns,
            decreases rows - r,
        {
            let mut c: usize = 0;
            while c < columns
                invariant
                    r < rows,
                    c <= columns,
                    count == grid_dead_ends(self.grid@, r as int) + row_dead_ends(
                        self.grid@[r as int]@,
                        c as int,
                    ),
                    count <= r * columns + c,
                decreases columns - c,
            {
                proof {
                    assert(r * columns + c < rows * columns) by (nonlinear_arith)
                        requires
                            r < rows,
                            c < columns,
                            rows >= 1,
                            columns >= 1,
                    ;
                }
                let row_vec = &self.grid[r];
                let cell = &row_vec[c];
                if cell.links.len() == 1 {
                    count += 1;
                }
                c += 1;
            }
            proof {
                assert((r + 1) * columns == r * columns + columns) by (nonlinear_arith);
            }
            r += 1;
        }
        proof {
            assert(r * columns == rows * columns);
            if rows == 1 && columns == 1 {
                let o = Coord(0, 0);
                assert(self.valid(o));
                if self.cell_spec(o).links@.len() >= 1 {
                    let b = self.cell_spec(o).links@[0];
                    assert(self.cell_spec(o).links@.contains(b));
                    assert(self.linked(o, b));
                    assert(self.is_neighbor(o, b));
                    assert(false);
                }
                assert(self.grid@[0]@.len() == 1);
                assert(self.cell_spec(o) == self.grid@[0]@[0]);
                assert(row_dead_ends(self.grid@[0]@, 1) == row_dead_ends(self.grid@[0]@, 0) + 0);
                assert(grid_dead_ends(self.grid@, 1) == grid_dead_ends(self.grid@, 0)
                    + row_dead_ends(self.grid@[0]@, 1));
            }
        }
        count
    }
}

/// The base-36 digit for a distance, as the textual renderer shows it:
/// `0`-`9` then `a`-`z`, and a tilde for anything beyond 35.
pub open spec fn digit36(d: usize) -> char {
    if d == 0 {
        '0'
    } else if d == 1 {
        '1'
    } else if d == 2 {
        '2'
    } else if d == 3 {
        '3'
    } else if d == 4 {
        '4'
    } else if d == 5 {
        '5'
    } else if d == 6 {
        '6'
    } else if d == 7 {
        '7'
    } else if d == 8 {
        '8'
    } else if d == 9 {
        '9'
    } else if d == 10 {
        'a'
    } else if d == 11 {
        'b'
    } else if d == 12 {
        'c'
    } else if d == 13 {
        'd'
    } else if d == 14 {
        'e'
    } else if d == 15 {
        'f'
    } else if d == 16 {
        'g'
    } else if d == 17 {
        'h'
    } else if d == 18 {
        'i'
    } else if d == 19 {
        'j'
    } else if d == 20 {
        'k'
    } else if d == 21 {
        'l'
    } else if d == 22 {
        'm'
    } else if d == 23 {
        'n'
    } else if d == 24 {
        'o'
    } else if d == 25 {
        'p'
    } else if d == 26 {
        'q'
    } else if d == 27 {
        'r'
    } else if d == 28 {
        's'
    } else if d == 29 {
        't'
    } else if d == 30 {
        'u'
    } else if d == 31 {
        'v'
    } else if d == 32 {
        'w'
    } else if d == 33 {
        'x'
    } else if d == 34 {
        'y'
    } else if d == 35 {
        'z'
    } else {
        '~'
    }
}

/// The character the renderer shows inside a cell: its distance as a
/// base-36 digit, or blank when breadth-first search never reached it.
pub open spec fn contents_char(d: Distances, cell: GridCell) -> char {
    if d.dist_map().contains_key(Coord(cell.row, cell.column)) {
        digit36(d.dist_map()[Coord(cell.row, cell.column)])
    } else {
        ' '
    }
}

/// A grid without passages counts zero link records.
pub proof fn lemma_links_empty_zero_count(g: Grid)
    requires
        g.wf(),
        g.links_empty(),
    ensures
        g.link_count() == 0,
{
    assert forall|i: int, j: int|
        0 <= i < g.grid@.len() && 0 <= j < g.columns implies (
    #[trigger] g.grid@[i]@[j]).links@.len() == 0 by {
        let x = Coord(i as usize, j as usize);
        assert(g.valid(x));
        assert(g.cell_spec(x).links@.len() == 0);
    }
    lemma_empty_links_count(g.grid@, g.grid@.len() as int, g.columns as int);
}

/// A matrix whose cells all hold empty link vectors counts zero links.
pub proof fn lemma_empty_links_count(g: Seq<Vec<GridCell>>, n: int, columns: int)
    requires
        n <= g.len(),
        forall|i: int| 0 <= i < g.len() ==> (#[trigger] g[i])@.len() == columns,
        forall|i: int, j: int|
            0 <= i < g.len() && 0 <= j < columns ==> (#[trigger] g[i]@[j]).links@.len() == 0,
    ensures
        grid_links(g, n) == 0,
    decreases n,
{
    if n > 0 {
        lemma_empty_links_count(g, n - 1, columns);
        lemma_empty_row_links(g[n - 1]@, columns);
    }
}

proof fn lemma_empty_row_links(row: Seq<GridCell>, n: int)
    requires
        n <= row.len(),
        forall|j: int| 0 <= j < row.len() ==> (#[trigger] row[j]).links@.len() == 0,
    ensures
        row_links(row, n) == 0,
    decreases n,
{
    if n > 0 {
        lemma_empty_row_links(row, n - 1);
    }
}

/// Two rows that agree everywhere except one cell differ in their link
/// record count by exactly that cell's difference.
proof fn lemma_row_links_update(r1: Seq<GridCell>, r2: Seq<GridCell>, j: int, n: int)
    requires
        r1.len() == r2.len(),
        0 <= j < r1.len(),
        n <= r1.len(),
        forall|k: int| 0 <= k < r1.len() && k != j ==> r1[k] == r2[k],
    ensures
        j < n ==> row_links(r2, n) == row_links(r1, n) + r2[j].links@.len() - r1[j].links@.len(),
        j >= n ==> row_links(r2, n) == row_links(r1, n),
    decreases n,
{
    if n > 0 {
        lemma_row_links_update(r1, r2, j, n - 1);
    }
}

/// Two matrices that agree everywhere except one cell differ in their link
/// record count by exactly that cell's difference.
proof fn lemma_grid_links_update(g1: Seq<Vec<GridCell>>, g2: Seq<Vec<GridCell>>, i: int, j: int, n: int)
    requires
        g1.len() == g2.len(),
        0 <= i < g1.len(),
        n <= g1.len(),
        0 <= j < g1[i]@.len(),
        g1[i]@.len() == g2[i]@.len(),
        forall|k: int| 0 <= k < g1.len() && k != i ==> (#[trigger] g1[k])@ == g2[k]@,
        forall|k: int| 0 <= k < g1[i]@.len() && k != j ==> g1[i]@[k] == g2[i]@[k],
    ensures
        i < n ==> grid_links(g2, n) == grid_links(g1, n) + g2[i]@[j].links@.len()
            - g1[i]@[j].links@.len(),
        i >= n ==> grid_links(g2, n) == grid_links(g1, n),
    decreases n,
{
    if n > 0 {
        lemma_grid_links_update(g1, g2, i, j, n - 1);
        if i == n - 1 {
            lemma_row_links_update(g1[i]@, g2[i]@, j, g1[i]@.len() as int);
        }
    }
}

/// Growing one cell's link vector by `delta` grows the grid's link record
/// count by `delta`.
proof fn lemma_one_cell_update_count(pre: Grid, post: Grid, c: Coord, delta: int)
    requires
        pre.grid@.len() == pre.rows,
        forall|r: int| 0 <= r < pre.rows ==> (#[trigger] pre.grid@[r])@.len() == pre.columns,
        pre.valid(c),
        post.rows == pre.rows,
        post.columns == pre.columns,
        post.grid@.len() == pre.grid@.len(),
        forall|i: int| 0 <= i < pre.grid@.len() ==> (#[trigger] post.grid@[i])@.len() == pre.grid@[i]@.len(),
        forall|x: Coord| pre.valid(x) && x != c ==> #[trigger] post.cell_spec(x) == pre.cell_spec(x),
        post.cell_spec(c).links@.len() == pre.cell_spec(c).links@.len() + delta,
    ensures
        post.link_count() == pre.link_count() + delta,
{
    let i = c.0 as int;
    let j = c.1 as int;
    assert forall|k: int| 0 <= k < pre.grid@.len() && k != i implies (#[trigger] pre.grid@[k])@
        == post.grid@[k]@ by {
        assert forall|m: int| 0 <= m < pre.grid@[k]@.len() implies pre.grid@[k]@[m]
            == post.grid@[k]@[m] by {
            let x = Coord(k as usize, m as usize);
            assert(pre.valid(x));
            assert(post.cell_spec(x) == pre.cell_spec(x));
        }
        assert(pre.grid@[k]@ =~= post.grid@[k]@);
    }
    assert forall|m: int| 0 <= m < pre.grid@[i]@.len() && m != j implies pre.grid@[i]@[m]
        == post.grid@[i]@[m] by {
        let x = Coord(i as usize, m as usize);
        assert(pre.valid(x));
        assert(post.cell_spec(x) == pre.cell_spec(x));
    }
    lemma_grid_links_update(pre.grid@, post.grid@, i, j, pre.grid@.len() as int);
}

} // verus!
