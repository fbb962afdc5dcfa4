use vstd::prelude::*;

use crate::cell::{lemma_remove_unique, Coord};
use crate::grid::{lemma_links_empty_zero_count, Grid};
use crate::reach::{
    is_spanning_tree, lemma_extend_component, lemma_neighbour_seq_valid, lemma_reaches_all_pairs,
    lemma_reaches_refl, reaches, visited_set,
};
use crate::rng::RandomSource;

verus! {

/// Whether a coordinate vector holds `c`.
fn contains_coord(v: &Vec<Coord>, c: &Coord) -> (r: bool)
    ensures
        r == v@.contains(*c),
{
    let mut i: usize = 0;
    while i < v.len()
        invariant
            i <= v@.len(),
            forall|k: int| 0 <= k < i ==> v@[k] != *c,
        decreases v@.len() - i,
    {
        if v[i] == *c {
            return true;
        }
        i += 1;
    }
    false
}

/// The position of `c` in a coordinate vector, if any.
fn index_of_coord(v: &Vec<Coord>, c: &Coord) -> (r: Option<usize>)
    ensures
        match r {
            Some(i) => i < v@.len() && v@[i as int] == *c,
            None => !v@.contains(*c),
        },
{
    let mut i: usize = 0;
    while i < v.len()
        invariant
            i <= v@.len(),
            forall|k: int| 0 <= k < i ==> v@[k] != *c,
        decreases v@.len() - i,
    {
        if v[i] == *c {
            return Some(i);
        }
        i += 1;
    }
    None
}

/// Wilson's algorithm: loop-erased random walks from unvisited cells into
/// the visited region, each walk carving its whole path at once. Samples
/// spanning trees exactly uniformly.
pub struct Wilsons {}

impl Wilsons {
    /// Carve a spanning tree by loop-erased random walks. The walks'
    /// total step count is unbounded in the worst case, so `step_budget`
    /// caps it; the return value tells whether the tree was completed
    /// within the budget, and on `true` the grid holds a spanning tree.
    #[verifier::rlimit(100)]
    pub fn on(grid: &mut Grid, rng: &mut RandomSource, step_budget: usize) -> (complete: bool)
        requires
            old(grid).wf(),
            old(grid).configured(),
            old(grid).links_empty(),
        ensures
            final(grid).wf(),
            final(grid).configured(),
            final(grid).same_structure(*old(grid)),
            final(grid).distances == old(grid).distances,
            complete ==> is_spanning_tree(*final(grid)),
            old(grid).rows * old(grid).columns == 1 ==> complete,
            !complete ==> !is_spanning_tree(*final(grid)),
    {
        let rows = grid.rows;
        let columns = grid.columns;
        let mut unvisited: Vec<Coord> = Vec::new();
        let mut r: usize = 0;
        while r < rows
            invariant
                r <= rows,
                rows == grid.rows,
                columns == grid.columns,
                grid.wf(),
                forall|p: int, q: int|
                    0 <= p < q < unvisited@.len() ==> unvisited@[p] != unvisited@[q],
                forall|c: Coord|
                    unvisited@.contains(c) <==> (c.0 < r && c.1 < columns),
                unvisited@.len() == r * columns,
            decreases rows - r,
        {
            let mut c: usize = 0;
            while c < columns
                invariant
                    r < rows,
                    c <= columns,
                    rows == grid.rows,
                    columns == grid.columns,
                    forall|p: int, q: int|
                        0 <= p < q < unvisited@.len() ==> unvisited@[p] != unvisited@[q],
                    forall|x: Coord|
                        unvisited@.contains(x) <==> (x.0 < r && x.1 < columns || (x.0 == r && x.1
                            < c)),
                    unvisited@.len() == r * columns + c,
                decreases columns - c,
            {
                let ghost old_u = unvisited@;
                unvisited.push(Coord(r, c));
                proof {
                    assert(unvisited@.last() == Coord(r, c));
                    assert forall|p: int| 0 <= p < old_u.len() implies unvisited@[p] != Coord(
                        r,
                        c,
                    ) by {
                        assert(unvisited@[p] == old_u[p]);
                        assert(old_u.contains(old_u[p]));
                    }
                    assert forall|x: Coord|
                        unvisited@.contains(x) implies (x.0 < r && x.1 < columns || (x.0 == r
                            && x.1 < c + 1)) by {
                        let k = choose|k: int| 0 <= k < unvisited@.len() && unvisited@[k] == x;
                        if k < old_u.len() {
                            assert(old_u[k] == x);
                            assert(old_u.contains(x));
                        }
                    }
                    assert forall|x: Coord|
                        (x.0 < r && x.1 < columns || (x.0 == r && x.1 < c + 1)) implies unvisited@.contains(
                        x,
                    ) by {
                        if x.0 < r || x.1 < c {
                            assert(old_u.contains(x));
                            let k = choose|k: int| 0 <= k < old_u.len() && old_u[k] == x;
                            assert(unvisited@[k] == x);
                        } else {
                            assert(x == Coord(r, c));
                        }
                    }
                }
                c += 1;
            }
            proof {
                assert((r + 1) * columns == r * columns + columns) by (nonlinear_arith);
            }
            r += 1;
        }
        proof {
            assert(rows * columns >= 1) by (nonlinear_arith)
                requires
                    rows >= 1,
                    columns >= 1,
            ;
        }
        let first_idx = rng.random_below(unvisited.len());
        let start = unvisited[first_idx];
        let ghost full = unvisited@;
        unvisited.remove(first_idx);
        proof {
            lemma_remove_unique(full, first_idx as int, start);
            assert(full[first_idx as int] == start);
            assert(full.contains(start));
            assert(start.0 < rows && start.1 < columns);
            assert(grid.valid(start));
            assert forall|c: Coord|
                visited_set(*grid, start).contains(c) implies c == start by {
                assert(grid.cell_spec(c).links@.len() == 0);
            }
            assert(visited_set(*grid, start) =~= Set::<Coord>::empty().insert(start));
            lemma_reaches_refl(*grid, start);
            lemma_links_empty_zero_count(*grid);
            assert forall|x: Coord|
                unvisited@.contains(x) implies (grid.valid(x) && !visited_set(
                *grid,
                start,
            ).contains(x)) by {
                assert(full.contains(x));
            }
            assert forall|x: Coord|
                grid.valid(x) && !visited_set(*grid, start).contains(x) implies unvisited@.contains(
                x,
            ) by {
                assert(x.0 < rows && x.1 < columns);
                assert(full.contains(x));
                assert(x != start);
            }
        }
        let mut steps: usize = 0;
        while unvisited.len() > 0 && steps < step_budget
            invariant
                grid.wf(),
                grid.configured(),
                grid.same_structure(*old(grid)),
                grid.distances == old(grid).distances,
                grid.rows == rows,
                grid.columns == columns,
                grid.valid(start),
                steps <= step_budget,
                forall|p: int, q: int|
                    0 <= p < q < unvisited@.len() ==> unvisited@[p] != unvisited@[q],
                forall|c: Coord|
                    unvisited@.contains(c) <==> (grid.valid(c) && !visited_set(
                        *grid,
                        start,
                    ).contains(c)),
                forall|c: Coord| visited_set(*grid, start).contains(c) ==> reaches(*grid, start, c),
                grid.link_count() == 2 * (rows * columns - unvisited@.len() - 1),
            decreases unvisited@.len(),
        {
            let pick = rng.random_below(unvisited.len());
            let c0 = unvisited[pick];
            proof {
                assert(unvisited@.contains(c0));
            }
            let ghost len0 = unvisited@.len();
            let mut path: Vec<Coord> = Vec::new();
            path.push(c0);
            let mut current = c0;
            let mut walking = true;
            while walking && steps < step_budget
                invariant
                    grid.wf(),
                    grid.configured(),
                    steps <= step_budget,
                    path@.len() >= 1,
                    path@[0] == c0,
                    path@.last() == current,
                    unvisited@.len() == len0,
                    walking == unvisited@.contains(current),
                    forall|i: int|
                        0 <= i < path@.len() ==> grid.valid(#[trigger] path@[i]),
                    forall|i: int|
                        0 <= i < path@.len() - 1 ==> grid.is_neighbor(
                            #[trigger] path@[i],
                            path@[i + 1],
                        ),
                    forall|p: int, q: int| 0 <= p < q < path@.len() ==> path@[p] != path@[q],
                    forall|i: int|
                        0 <= i < path@.len() - 1 ==> unvisited@.contains(#[trigger] path@[i]),
                decreases step_budget - steps,
            {
                proof {
                    lemma_neighbour_seq_valid(*grid, current);
                    assert(unvisited@.contains(unvisited@[0]));
                    assert(unvisited@[0] != start);
                    crate::reach::lemma_two_cells(*grid, start, unvisited@[0]);
                }
                let neighbours = grid.cell(current).neighbours();
                let n_idx = rng.random_below(neighbours.len());
                let w = neighbours[n_idx];
                proof {
                    assert(grid.is_neighbor(current, w));
                }
                match index_of_coord(&path, &w) {
                    Some(pos) => {
                        let ghost old_path = path@;
                        let plen = path.len();
                        proof {
                            assert(pos < plen);
                        }
                        path.truncate(pos + 1);
                        proof {
                            assert(path@ == old_path.subrange(0, pos + 1));
                            assert(path@.last() == w);
                        }
                        current = w;
                    },
                    None => {
                        let ghost old_path = path@;
                        path.push(w);
                        proof {
                            assert(path@.last() == w);
                            assert forall|i: int|
                                0 <= i < path@.len() - 1 implies unvisited@.contains(
                                #[trigger] path@[i],
                            ) by {
                                if i < old_path.len() - 1 {
                                    assert(old_path[i] == path@[i]);
                                } else {
                                    assert(path@[i] == old_path.last());
                                    assert(old_path.last() == current);
                                }
                            }
                        }
                        current = w;
                    },
                }
                steps += 1;
                walking = contains_coord(&unvisited, &current);
            }
            if walking {
                // The step budget ran out mid-walk; the grid is still a
                // well-formed partial maze, visibly short of a spanning
                // tree, and a one-cell grid never reaches this point.
                proof {
                    assert(unvisited@.len() > 0);
                    assert(grid.link_count() != 2 * (rows * columns - 1));
                    if rows * columns == 1 {
                        assert(rows == 1 && columns == 1) by (nonlinear_arith)
                            requires
                                rows >= 1,
                                columns >= 1,
                                rows * columns == 1,
                        ;
                        let u0 = unvisited@[0];
                        assert(unvisited@.contains(u0));
                        assert(grid.valid(u0) && u0 != start);
                        assert(u0 == Coord(0, 0) && start == Coord(0, 0));
                        assert(false);
                    }
                }
                return false;
            }
            proof {
                assert(!unvisited@.contains(current));
                assert(path@.len() >= 2) by {
                    if path@.len() == 1 {
                        assert(path@.last() == path@[0]);
                        assert(path@[0] == c0);
                        assert(unvisited@.contains(current));
                    }
                }
                assert(visited_set(*grid, start).contains(current)) by {
                    assert(grid.valid(current));
                }
            }
            let mut k = path.len() - 1;
            while k > 0
                invariant
                    grid.wf(),
                    grid.configured(),
                    grid.same_structure(*old(grid)),
                    grid.distances == old(grid).distances,
                    grid.rows == rows,
                    grid.columns == columns,
                    grid.valid(start),
                    k < path@.len(),
                    path@.len() >= 2,
                    unvisited@.len() == len0 - (path@.len() - 1 - k),
                    forall|i: int|
                        0 <= i < path@.len() ==> grid.valid(#[trigger] path@[i]),
                    forall|i: int|
                        0 <= i < path@.len() - 1 ==> grid.is_neighbor(
                            #[trigger] path@[i],
                            path@[i + 1],
                        ),
                    forall|p: int, q: int| 0 <= p < q < path@.len() ==> path@[p] != path@[q],
                    forall|i: int| 0 <= i < k ==> unvisited@.contains(#[trigger] path@[i]),
                    visited_set(*grid, start).contains(path@[k as int]),
                    forall|p: int, q: int|
                        0 <= p < q < unvisited@.len() ==> unvisited@[p] != unvisited@[q],
                    forall|c: Coord|
                        unvisited@.contains(c) <==> (grid.valid(c) && !visited_set(
                            *grid,
                            start,
                        ).contains(c)),
                    forall|c: Coord|
                        visited_set(*grid, start).contains(c) ==> reaches(*grid, start, c),
                    grid.link_count() == 2 * (rows * columns - unvisited@.len() - 1),
                decreases k,
            {
                let a = path[k];
                let b = path[k - 1];
                proof {
                    assert(unvisited@.contains(b));
                    assert(!visited_set(*grid, start).contains(b));
                    assert(grid.is_neighbor(b, a));
                    assert(grid.is_neighbor(a, b));
                    assert(a != b);
                    if grid.linked(a, b) {
                        assert(grid.linked(b, a));
                        assert(grid.cell_spec(b).links@.contains(a));
                        assert(false);
                    }
                }
                let ghost pre = *grid;
                grid.link_pair(a, b);
                proof {
                    lemma_extend_component(pre, *grid, start, a, b);
                }
                match index_of_coord(&unvisited, &b) {
                    Some(bi) => {
                        let ghost old_u = unvisited@;
                        unvisited.remove(bi);
                        proof {
                            lemma_remove_unique(old_u, bi as int, b);
                            assert forall|c: Coord|
                                unvisited@.contains(c) implies (grid.valid(c) && !visited_set(
                                *grid,
                                start,
                            ).contains(c)) by {
                                assert(old_u.contains(c));
                                assert(c != b);
                                assert(!visited_set(pre, start).contains(c));
                            }
                            assert forall|c: Coord|
                                grid.valid(c) && !visited_set(*grid, start).contains(
                                    c,
                                ) implies unvisited@.contains(c) by {
                                assert(!visited_set(pre, start).contains(c));
                                assert(old_u.contains(c));
                                assert(c != b);
                            }
                        }
                    },
                    None => {
                        proof {
                            assert(false);
                        }
                    },
                }
                k -= 1;
            }
        }
        proof {
            if unvisited@.len() > 0 {
                // An incomplete run is visibly short of a spanning tree,
                // and a one-cell grid always completes: its only cell is
                // the start, so nothing stays unvisited.
                assert(grid.link_count() != 2 * (rows * columns - 1));
                if rows * columns == 1 {
                    assert(rows == 1 && columns == 1) by (nonlinear_arith)
                        requires
                            rows >= 1,
                            columns >= 1,
                            rows * columns == 1,
                    ;
                    let u0 = unvisited@[0];
                    assert(unvisited@.contains(u0));
                    assert(grid.valid(u0) && u0 != start);
                    assert(u0 == Coord(0, 0) && start == Coord(0, 0));
                    assert(false);
                }
            }
            if unvisited@.len() == 0 {
                assert forall|c: Coord| grid.valid(c) implies visited_set(*grid, start).contains(
                    c,
                ) by {
                    if !visited_set(*grid, start).contains(c) {
                        assert(unvisited@.contains(c));
                    }
                }
                assert forall|c: Coord| grid.valid(c) implies reaches(*grid, start, c) by {
                    assert(visited_set(*grid, start).contains(c));
                }
                lemma_reaches_all_pairs(*grid, start);
                assert(grid.link_count() == 2 * (rows * columns - 1));
            }
        }
        unvisited.len() == 0
    }
}

} // verus!
