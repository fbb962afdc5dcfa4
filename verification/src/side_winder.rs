use vstd::prelude::*;

use crate::cell::Coord;
use crate::grid::{lemma_links_empty_zero_count, Grid};
use crate::reach::{
    is_spanning_tree, lemma_east_chain, lemma_reaches_all_pairs, lemma_reaches_monotone,
    lemma_reaches_step, lemma_reaches_sym, lemma_reaches_trans, lemma_unlinked_cell_stays_empty,
    linked_iff_with, reaches,
};
use crate::rng::RandomSource;

verus! {

/// The links created so far while carving row `r`: one per processed
/// cell, except that the last cell of the northern row closes its run
/// without linking.
spec fn sw_row_links(r: int, c: int, columns: int) -> int {
    if r > 0 {
        c
    } else if c <= columns - 1 {
        c
    } else {
        columns - 1
    }
}

/// The links created by all rows before row `r`: the northern row is one
/// corridor of `columns - 1` passages, every later row adds one passage
/// per cell.
spec fn sw_base(r: int, columns: int) -> int {
    if r == 0 {
        0
    } else {
        r * columns - 1
    }
}

/// The open run of row `r` spans columns `run_start..=c`, and its cells
/// carry exactly the passages of that corridor: each is linked to its
/// run predecessor and successor and to nothing else.
spec fn sw_run(g: Grid, r: usize, run_start: usize, c: usize) -> bool {
    forall|j: usize, y: Coord|
        run_start <= j && j <= c && (j as int) < g.columns ==> (#[trigger] g.linked(Coord(r, j), y)
            <==> ((j > run_start && y == Coord(r, (j - 1) as usize)) || (j < c && j + 1
            < g.columns && y == Coord(r, (j + 1) as usize))))
}

/// Cells past the carving frontier carry no passage yet.
spec fn sw_untouched(g: Grid, r: usize, c: usize) -> bool {
    forall|x: Coord|
        g.valid(x) && (x.0 > r || (x.0 == r && x.1 > c)) ==> (#[trigger] g.cell_spec(
            x,
        )).links@.len() == 0
}

/// Closing a run by linking one member north connects the whole run to
/// the finished rows above.
proof fn lemma_sw_close(pre: Grid, post: Grid, r: usize, c: usize, run_start: usize, member: usize)
    requires
        pre.wf(),
        post.wf(),
        post.rows == pre.rows,
        post.columns == pre.columns,
        r > 0,
        (r as int) < pre.rows,
        (c as int) < pre.columns,
        run_start <= member <= c,
        linked_iff_with(pre, post, Coord(r, member), Coord((r - 1) as usize, member)),
        forall|x: Coord| pre.valid(x) && x.0 < r ==> reaches(pre, x, Coord(0, 0)),
        forall|j: usize| j < run_start ==> reaches(pre, Coord(r, j), Coord(0, 0)),
        sw_run(pre, r, run_start, c),
        sw_untouched(pre, r, c),
    ensures
        forall|x: Coord| post.valid(x) && x.0 < r ==> reaches(post, x, Coord(0, 0)),
        forall|j: usize| j <= c ==> reaches(post, Coord(r, j), Coord(0, 0)),
        sw_untouched(post, r, c),
{
    let origin = Coord(0, 0);
    let m = Coord(r, member);
    let north = Coord((r - 1) as usize, member);
    assert(pre.valid(north) && north.0 < r);
    assert(reaches(pre, north, origin));
    lemma_reaches_monotone(pre, post, north, origin);
    assert(post.linked(north, m));
    lemma_reaches_sym(post, north, origin);
    lemma_reaches_step(post, origin, north, m);
    lemma_reaches_sym(post, origin, m);
    assert forall|j: int|
        run_start <= j < c implies #[trigger] post.linked(
        Coord(r, j as usize),
        Coord(r, (j + 1) as usize),
    ) by {
        let ju = j as usize;
        assert(pre.linked(Coord(r, ju), Coord(r, (ju + 1) as usize)));
        assert(Coord(r, (j + 1) as usize) == Coord(r, (ju + 1) as usize));
    }
    assert forall|j: usize| j <= c implies reaches(post, Coord(r, j), origin) by {
        if j < run_start {
            lemma_reaches_monotone(pre, post, Coord(r, j), origin);
        } else {
            if j <= member {
                lemma_east_chain(post, r, j as int, member as int);
                assert(reaches(post, Coord(r, j), m));
            } else {
                lemma_east_chain(post, r, member as int, j as int);
                assert(reaches(post, m, Coord(r, j)));
                lemma_reaches_sym(post, m, Coord(r, j));
            }
            lemma_reaches_trans(post, Coord(r, j), m, origin);
        }
    }
    assert forall|x: Coord| post.valid(x) && x.0 < r implies reaches(post, x, origin) by {
        assert(pre.valid(x));
        lemma_reaches_monotone(pre, post, x, origin);
    }
    assert forall|x: Coord|
        post.valid(x) && (x.0 > r || (x.0 == r && x.1 > c)) implies (#[trigger] post.cell_spec(
        x,
    )).links@.len() == 0 by {
        assert(pre.valid(x));
        assert(pre.cell_spec(x).links@.len() == 0);
        lemma_unlinked_cell_stays_empty(pre, post, m, north, x);
    }
}

/// Extending a run east keeps the finished region connected and the run
/// a corridor one cell longer.
proof fn lemma_sw_extend(pre: Grid, post: Grid, r: usize, c: usize, run_start: usize)
    requires
        pre.wf(),
        post.wf(),
        post.rows == pre.rows,
        post.columns == pre.columns,
        (r as int) < pre.rows,
        (c as int) + 1 < pre.columns,
        run_start <= c,
        linked_iff_with(pre, post, Coord(r, c), Coord(r, (c + 1) as usize)),
        forall|x: Coord| pre.valid(x) && x.0 < r ==> reaches(pre, x, Coord(0, 0)),
        forall|j: usize| j < run_start ==> reaches(pre, Coord(r, j), Coord(0, 0)),
        sw_run(pre, r, run_start, c),
        sw_untouched(pre, r, c),
    ensures
        forall|x: Coord| post.valid(x) && x.0 < r ==> reaches(post, x, Coord(0, 0)),
        forall|j: usize| j < run_start ==> reaches(post, Coord(r, j), Coord(0, 0)),
        sw_run(post, r, run_start, (c + 1) as usize),
        sw_untouched(post, r, (c + 1) as usize),
{
    let origin = Coord(0, 0);
    let x = Coord(r, c);
    let e = Coord(r, (c + 1) as usize);
    assert(pre.cell_spec(e).links@.len() == 0) by {
        assert(pre.valid(e));
    }
    assert forall|x2: Coord| post.valid(x2) && x2.0 < r implies reaches(post, x2, origin) by {
        assert(pre.valid(x2));
        lemma_reaches_monotone(pre, post, x2, origin);
    }
    assert forall|j: usize| j < run_start implies reaches(post, Coord(r, j), origin) by {
        lemma_reaches_monotone(pre, post, Coord(r, j), origin);
    }
    assert forall|j: usize, y: Coord|
        run_start <= j && j <= c + 1 && (j as int) < post.columns implies (#[trigger] post.linked(
        Coord(r, j),
        y,
    ) <==> ((j > run_start && y == Coord(r, (j - 1) as usize)) || (j < c + 1 && j + 1
        < post.columns && y == Coord(r, (j + 1) as usize)))) by {
        if j == c + 1 {
            if pre.linked(Coord(r, j), y) {
                assert(pre.cell_spec(e).links@.contains(y));
                assert(false);
            }
        } else {
            assert(pre.linked(Coord(r, j), y) <==> ((j > run_start && y == Coord(
                r,
                (j - 1) as usize,
            )) || (j < c && j + 1 < pre.columns && y == Coord(r, (j + 1) as usize))));
        }
    }
    assert forall|x2: Coord|
        post.valid(x2) && (x2.0 > r || (x2.0 == r && x2.1 > c + 1)) implies (
    #[trigger] post.cell_spec(x2)).links@.len() == 0 by {
        assert(pre.valid(x2));
        assert(pre.cell_spec(x2).links@.len() == 0);
        lemma_unlinked_cell_stays_empty(pre, post, x, e, x2);
    }
}

/// The sidewinder algorithm: each row is carved west to east as runs of
/// linked cells; a coin closes each run by linking one random member
/// north, and the northern row becomes a single corridor.
pub struct SideWinder {}

impl SideWinder {
    /// Carve a spanning tree row by row.
    pub fn on(grid: &mut Grid, rng: &mut RandomSource)
        requires
            old(grid).wf(),
            old(grid).configured(),
            old(grid).links_empty(),
        ensures
            final(grid).wf(),
            final(grid).configured(),
            final(grid).same_structure(*old(grid)),
            final(grid).distances == old(grid).distances,
            is_spanning_tree(*final(grid)),
            forall|j: usize|
                j + 1 < final(grid).columns ==> #[trigger] final(grid).linked(
                    Coord(0, j),
                    Coord(0, (j + 1) as usize),
                ),
    {
        let rows = grid.rows;
        let columns = grid.columns;
        let origin = Coord(0, 0);
        proof {
            lemma_links_empty_zero_count(*grid);
        }
        let mut r: usize = 0;
        while r < rows
            invariant
                grid.wf(),
                grid.configured(),
                grid.same_structure(*old(grid)),
                grid.distances == old(grid).distances,
                grid.rows == rows,
                grid.columns == columns,
                r <= rows,
                forall|x: Coord| grid.valid(x) && x.0 < r ==> reaches(*grid, x, origin),
                forall|x: Coord|
                    grid.valid(x) && x.0 >= r ==> (#[trigger] grid.cell_spec(x)).links@.len() == 0,
                r >= 1 ==> forall|j: usize|
                    j + 1 < columns ==> #[trigger] grid.linked(
                        Coord(0usize, j),
                        Coord(0usize, (j + 1) as usize),
                    ),
                grid.link_count() == 2 * sw_base(r as int, columns as int),
            decreases rows - r,
        {
            let mut run_start: usize = 0;
            let mut c: usize = 0;
            while c < columns
                invariant
                    grid.wf(),
                    grid.configured(),
                    grid.same_structure(*old(grid)),
                    grid.distances == old(grid).distances,
                    grid.rows == rows,
                    grid.columns == columns,
                    r < rows,
                    c <= columns,
                    run_start <= c,
                    r == 0 ==> run_start == 0,
                    r > 0 && c == columns ==> run_start == c,
                    forall|x: Coord| grid.valid(x) && x.0 < r ==> reaches(*grid, x, origin),
                    forall|j: usize| j < run_start ==> reaches(*grid, Coord(r, j), origin),
                    r >= 1 ==> forall|j: usize|
                        j + 1 < columns ==> #[trigger] grid.linked(
                            Coord(0usize, j),
                            Coord(0usize, (j + 1) as usize),
                        ),
                    sw_run(*grid, r, run_start, c),
                    sw_untouched(*grid, r, c),
                    grid.link_count() == 2 * (sw_base(r as int, columns as int) + sw_row_links(
                        r as int,
                        c as int,
                        columns as int,
                    )),
                decreases columns - c,
            {
                let at_eastern = c + 1 >= columns;
                let at_northern = r == 0;
                let should_close = at_eastern || (!at_northern && rng.random_below(2) == 0);
                if should_close {
                    let run_len = c - run_start + 1;
                    let member = run_start + rng.random_below(run_len);
                    if r > 0 {
                        let m = Coord(r, member);
                        let north = Coord(r - 1, member);
                        proof {
                            assert(grid.is_neighbor(m, north));
                            assert(!grid.linked(m, north));
                        }
                        let ghost pre = *grid;
                        grid.link_pair(m, north);
                        proof {
                            lemma_sw_close(pre, *grid, r, c, run_start, member);
                        }
                        run_start = c + 1;
                    } else {
                        proof {
                            assert(at_eastern);
                            assert(c == columns - 1);
                        }
                    }
                } else {
                    let x = Coord(r, c);
                    let e = Coord(r, c + 1);
                    proof {
                        assert(grid.is_neighbor(x, e));
                        assert(!grid.linked(x, e));
                    }
                    let ghost pre = *grid;
                    grid.link_pair(x, e);
                    proof {
                        lemma_sw_extend(pre, *grid, r, c, run_start);
                    }
                }
                c += 1;
            }
            proof {
                if r == 0 {
                    // The northern row is one corridor: every consecutive
                    // pair was linked while the single row-0 run grew east.
                    assert forall|j: usize|
                        j + 1 < columns implies #[trigger] grid.linked(
                        Coord(0usize, j),
                        Coord(0usize, (j + 1) as usize),
                    ) by {
                        assert(run_start <= j && j <= c && (j as int) < columns);
                        assert(grid.linked(Coord(r, j), Coord(r, (j + 1) as usize)));
                        assert(Coord(0usize, j) == Coord(r, j));
                    }
                    // Every cell of the corridor reaches the origin.
                    assert forall|x: Coord|
                        grid.valid(x) && x.0 == 0 implies reaches(*grid, x, origin) by {
                        assert forall|j: int|
                            0 <= j < x.1 implies #[trigger] grid.linked(
                            Coord(0usize, j as usize),
                            Coord(0usize, (j + 1) as usize),
                        ) by {
                            let ju = j as usize;
                            assert(run_start <= ju && ju <= c && (ju as int) < columns);
                            assert(ju + 1 < columns);
                            assert(grid.linked(Coord(r, ju), Coord(r, (ju + 1) as usize)));
                            assert(Coord(0usize, (j + 1) as usize) == Coord(r, (ju + 1) as usize));
                        }
                        lemma_east_chain(*grid, 0, 0, x.1 as int);
                        assert(Coord(0usize, x.1) == x);
                        lemma_reaches_sym(*grid, origin, x);
                        lemma_reaches_sym(*grid, x, origin);
                    }
                }
                assert forall|x: Coord|
                    grid.valid(x) && x.0 < r + 1 implies reaches(*grid, x, origin) by {
                    if x.0 == r && r > 0 {
                        assert(x.1 < run_start);
                        assert(reaches(*grid, Coord(r, x.1), origin));
                        assert(Coord(r, x.1) == x);
                    }
                }
                assert forall|x: Coord|
                    grid.valid(x) && x.0 >= r + 1 implies (#[trigger] grid.cell_spec(
                    x,
                )).links@.len() == 0 by {
                    assert(x.0 > r);
                }
                assert((r + 1) * columns - 1 == r as int * columns + columns - 1)
                    by (nonlinear_arith);
                assert(grid.link_count() == 2 * sw_base(r as int + 1, columns as int));
            }
            r += 1;
        }
        proof {
            assert forall|x: Coord| grid.valid(x) implies reaches(*grid, origin, x) by {
                assert(reaches(*grid, x, origin));
                lemma_reaches_sym(*grid, x, origin);
            }
            lemma_reaches_all_pairs(*grid, origin);
            assert(grid.link_count() == 2 * (rows * columns - 1));
        }
    }
}

} // verus!
