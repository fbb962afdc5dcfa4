use vstd::prelude::*;

use crate::cell::Coord;
use crate::grid::{lemma_links_empty_zero_count, Grid};
use crate::reach::{
    is_spanning_tree, lemma_reaches_all_pairs, lemma_reaches_refl, lemma_reaches_step,
    lemma_reaches_sym, lemma_reaches_trans, reaches,
};
use crate::rng::RandomSource;

verus! {

/// Whether `d` lies one step north or one step east of `x`.
pub open spec fn up_or_right(x: Coord, d: Coord) -> bool {
    (d.0 + 1 == x.0 && d.1 == x.1) || (d.0 == x.0 && d.1 == x.1 + 1)
}

/// Whether `x` carries a passage carved north or east, as the binary-tree
/// algorithm leaves behind for every cell but the north-east corner.
pub open spec fn carved_up_or_right(g: Grid, x: Coord, d: Coord) -> bool {
    g.linked(x, d) && up_or_right(x, d)
}

/// Row-major processing order: the cells strictly before column `c` of
/// row `r`.
spec fn bt_processed(r: int, c: int, x: Coord) -> bool {
    (x.0 as int) < r || ((x.0 as int) == r && (x.1 as int) < c)
}

/// Every carved cell walks north-or-east to the corner; passages only
/// shorten the remaining distance `x.0 + (columns - 1 - x.1)`.
proof fn lemma_bt_reaches_corner(g: Grid, x: Coord)
    requires
        g.wf(),
        g.valid(x),
        forall|y: Coord|
            g.valid(y) && !(y.0 == 0 && y.1 + 1 == g.columns) ==> exists|d: Coord|
                carved_up_or_right(g, y, d),
    ensures
        reaches(g, x, Coord(0, (g.columns - 1) as usize)),
    decreases x.0 + g.columns - 1 - x.1,
{
    let corner = Coord(0, (g.columns - 1) as usize);
    if x == corner {
        lemma_reaches_refl(g, x);
    } else {
        assert(!(x.0 == 0 && x.1 + 1 == g.columns));
        let d = choose|d: Coord| carved_up_or_right(g, x, d);
        assert(g.linked(x, d));
        assert(g.is_neighbor(x, d));
        lemma_reaches_refl(g, x);
        lemma_reaches_step(g, x, x, d);
        lemma_bt_reaches_corner(g, d);
        lemma_reaches_trans(g, x, d, corner);
    }
}

/// The binary-tree algorithm: every cell links to its north or east
/// structural neighbour (a fair coin deciding when both exist; the
/// north-east corner has neither), leaving long corridors along the
/// north and east borders.
pub struct BinaryTree {}

impl BinaryTree {
    /// Carve a spanning tree by linking each cell north or east, in one
    /// row-major pass.
    pub fn on(grid: &mut Grid, rng: &mut RandomSource)
        requires
            old(grid).wf(),
            old(grid).configured(),
            old(grid).links_empty(),
        ensures
            final(grid).wf(),
            final(grid).configured(),
            final(grid).same_structure(*old(grid)),
            final(grid).distances == old(grid).distances,
            is_spanning_tree(*final(grid)),
            forall|c: usize|
                c + 1 < final(grid).columns ==> #[trigger] final(grid).linked(
                    Coord(0, c),
                    Coord(0, (c + 1) as usize),
                ),
            forall|a: Coord, b: Coord|
                #[trigger] final(grid).linked(a, b) ==> up_or_right(a, b) || up_or_right(b, a),
    {
        let rows = grid.rows;
        let columns = grid.columns;
        proof {
            lemma_links_empty_zero_count(*grid);
        }
        let mut r: usize = 0;
        while r < rows
            invariant
                grid.wf(),
                grid.configured(),
                grid.same_structure(*old(grid)),
                grid.distances == old(grid).distances,
                grid.rows == rows,
                grid.columns == columns,
                r <= rows,
                forall|x: Coord|
                    grid.valid(x) && bt_processed(r as int, 0, x) && !(x.0 == 0 && x.1 + 1
                        == columns) ==> exists|d: Coord| carved_up_or_right(*grid, x, d),
                forall|a: Coord, b: Coord|
                    #[trigger] grid.linked(a, b) ==> (bt_processed(r as int, 0, a) && up_or_right(
                        a,
                        b,
                    )) || (bt_processed(r as int, 0, b) && up_or_right(b, a)),
                grid.link_count() == 2 * (r * columns - (if r > 0 {
                    1int
                } else {
                    0int
                })),
            decreases rows - r,
        {
            let mut c: usize = 0;
            while c < columns
                invariant
                    grid.wf(),
                    grid.configured(),
                    grid.same_structure(*old(grid)),
                    grid.distances == old(grid).distances,
                    grid.rows == rows,
                    grid.columns == columns,
                    r < rows,
                    c <= columns,
                    forall|x: Coord|
                        grid.valid(x) && bt_processed(r as int, c as int, x) && !(x.0 == 0 && x.1
                            + 1 == columns) ==> exists|d: Coord| carved_up_or_right(*grid, x, d),
                    forall|a: Coord, b: Coord|
                        #[trigger] grid.linked(a, b) ==> (bt_processed(r as int, c as int, a)
                            && up_or_right(a, b)) || (bt_processed(r as int, c as int, b)
                            && up_or_right(b, a)),
                    grid.link_count() == 2 * (r * columns + c - (if r > 0 || c >= columns {
                        1int
                    } else {
                        0int
                    })),
                decreases columns - c,
            {
                let x = Coord(r, c);
                let has_north = r > 0;
                let has_east = c + 1 < columns;
                let link_north = if has_north && has_east {
                    rng.random_below(2) == 0
                } else {
                    has_north
                };
                if link_north || has_east {
                    let d = if link_north {
                        Coord(r - 1, c)
                    } else {
                        Coord(r, c + 1)
                    };
                    proof {
                        assert(grid.is_neighbor(x, d));
                        assert(up_or_right(x, d));
                        if grid.linked(x, d) {
                            assert(!bt_processed(r as int, c as int, x));
                            assert(!up_or_right(d, x));
                            assert(false);
                        }
                    }
                    let ghost pre = *grid;
                    grid.link_pair(x, d);
                    proof {
                        assert(carved_up_or_right(*grid, x, d));
                        assert forall|x2: Coord|
                            grid.valid(x2) && bt_processed(r as int, c as int + 1, x2) && !(x2.0
                                == 0 && x2.1 + 1 == columns) implies exists|d2: Coord|
                            carved_up_or_right(*grid, x2, d2) by {
                            if x2 == x {
                                assert(carved_up_or_right(*grid, x, d));
                            } else {
                                assert(bt_processed(r as int, c as int, x2));
                                let d2 = choose|d2: Coord| carved_up_or_right(pre, x2, d2);
                                assert(grid.linked(x2, d2));
                                assert(carved_up_or_right(*grid, x2, d2));
                            }
                        }
                        assert forall|a: Coord, b: Coord| #[trigger] grid.linked(a, b) implies (
                        bt_processed(r as int, c as int + 1, a) && up_or_right(a, b)) || (
                        bt_processed(r as int, c as int + 1, b) && up_or_right(b, a)) by {
                            if pre.linked(a, b) {
                                assert((bt_processed(r as int, c as int, a) && up_or_right(a, b))
                                    || (bt_processed(r as int, c as int, b) && up_or_right(b, a)));
                            }
                        }
                    }
                } else {
                    proof {
                        // The cell with neither candidate is the north-east
                        // corner, reached exactly once per run.
                        assert(r == 0 && c + 1 >= columns);
                        assert(c == columns - 1);
                    }
                }
                c += 1;
            }
            proof {
                assert((r + 1) * columns == r * columns + columns) by (nonlinear_arith);
            }
            r += 1;
        }
        proof {
            let corner = Coord(0, (columns - 1) as usize);
            assert forall|x: Coord|
                grid.valid(x) && !(x.0 == 0 && x.1 + 1 == grid.columns) implies exists|d: Coord|
                carved_up_or_right(*grid, x, d) by {
                assert(bt_processed(rows as int, 0, x));
            }
            assert forall|x: Coord| grid.valid(x) implies reaches(*grid, corner, x) by {
                lemma_bt_reaches_corner(*grid, x);
                lemma_reaches_sym(*grid, x, corner);
            }
            lemma_reaches_all_pairs(*grid, corner);
            assert(grid.link_count() == 2 * (rows * columns - 1));
            // The whole northern row is one corridor: each of its cells
            // has no north candidate, so its carved passage runs east.
            assert forall|c2: usize|
                c2 + 1 < columns implies #[trigger] grid.linked(
                Coord(0usize, c2),
                Coord(0usize, (c2 + 1) as usize),
            ) by {
                let x = Coord(0usize, c2);
                assert(grid.valid(x) && !(x.0 == 0 && x.1 + 1 == columns));
                let d = choose|d: Coord| carved_up_or_right(*grid, x, d);
                assert(grid.linked(x, d) && up_or_right(x, d));
                assert(d == Coord(0usize, (c2 + 1) as usize));
            }
        }
    }
}

} // verus!
