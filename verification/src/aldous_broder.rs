use vstd::prelude::*;

use crate::cell::Coord;
use crate::grid::{lemma_links_empty_zero_count, Grid};
use crate::reach::{
    is_spanning_tree, lemma_extend_component, lemma_full_subset_is_all, lemma_neighbour_seq_valid,
    lemma_reached_start_has_links, lemma_reaches_all_pairs, lemma_reaches_refl,
    lemma_visited_finite, reaches, visited_set,
};
use crate::rng::RandomSource;

verus! {

/// The Aldous-Broder algorithm: an unbiased random walk over structural
/// neighbours that links each newly met cell to the cell it was entered
/// from, producing a uniform spanning tree.
pub struct AldousBroder {}

impl AldousBroder {
    /// Walk from a random cell, linking every neighbour met for the first
    /// time, until every cell carries a passage. The walk's step count is
    /// unbounded in the worst case, so `step_budget` caps it; the return
    /// value tells whether the spanning tree was completed within the
    /// budget, and on `true` the grid holds a spanning tree.
    pub fn on(grid: &mut Grid, rng: &mut RandomSource, step_budget: usize) -> (complete: bool)
        requires
            old(grid).wf(),
            old(grid).configured(),
            old(grid).links_empty(),
        ensures
            final(grid).wf(),
            final(grid).configured(),
            final(grid).same_structure(*old(grid)),
            final(grid).distances == old(grid).distances,
            complete ==> is_spanning_tree(*final(grid)),
            old(grid).rows * old(grid).columns == 1 ==> complete,
            !complete ==> !is_spanning_tree(*final(grid)),
    {
        broadcast use vstd::set::group_set_axioms;

        let start = grid.get_random_cell(rng);
        let mut cur = start;
        let size = grid.size();
        proof {
            let ghost rows = grid.rows;
            let ghost columns = grid.columns;
            assert(size >= 1) by (nonlinear_arith)
                requires
                    size == rows * columns,
                    rows >= 1,
                    columns >= 1,
            ;
            assert(visited_set(*grid, start) =~= Set::<Coord>::empty().insert(start));
            lemma_visited_finite(*grid, start);
            lemma_reaches_refl(*grid, start);
            lemma_links_empty_zero_count(*grid);
        }
        let mut unvisited = size - 1;
        let mut steps: usize = 0;
        while unvisited > 0 && steps < step_budget
            invariant
                grid.wf(),
                grid.configured(),
                grid.same_structure(*old(grid)),
                grid.distances == old(grid).distances,
                grid.valid(start),
                visited_set(*grid, start).contains(cur),
                visited_set(*grid, start).finite(),
                visited_set(*grid, start).len() >= 1,
                unvisited == grid.rows * grid.columns - visited_set(*grid, start).len(),
                forall|c: Coord| visited_set(*grid, start).contains(c) ==> reaches(*grid, start, c),
                grid.link_count() == 2 * (visited_set(*grid, start).len() - 1),
                steps <= step_budget,
            decreases step_budget - steps,
        {
            proof {
                lemma_visited_finite(*grid, start);
                assert(grid.rows * grid.columns >= 2);
                lemma_neighbour_seq_valid(*grid, cur);
            }
            let neighbours = grid.cell(cur).neighbours();
            let n_idx = rng.random_below(neighbours.len());
            let n = neighbours[n_idx];
            proof {
                assert(grid.is_neighbor(cur, n));
            }
            if grid.cell(n).get_links().len() == 0 {
                proof {
                    // A linkless neighbour cannot be the start: the walk's
                    // current cell is reached from the start, so the start
                    // already carries a passage.
                    if n == start {
                        assert(cur != n);
                        lemma_reached_start_has_links(*grid, start, cur);
                        assert(false);
                    }
                    assert(!visited_set(*grid, start).contains(n));
                    if grid.linked(cur, n) {
                        assert(grid.cell_spec(n).links@.contains(cur));
                        assert(false);
                    }
                }
                let ghost pre = *grid;
                grid.link_pair(cur, n);
                proof {
                    lemma_extend_component(pre, *grid, start, cur, n);
                }
                unvisited -= 1;
            } else {
                proof {
                    assert(visited_set(*grid, start).contains(n));
                }
            }
            cur = n;
            steps += 1;
        }
        proof {
            lemma_visited_finite(*grid, start);
            if unvisited == 0 {
                lemma_full_subset_is_all(*grid, visited_set(*grid, start));
                assert forall|c: Coord| grid.valid(c) implies reaches(*grid, start, c) by {
                    assert(visited_set(*grid, start).contains(c));
                }
                lemma_reaches_all_pairs(*grid, start);
            } else {
                // An incomplete run is visibly short of a spanning tree:
                // it holds fewer link records than one.
                assert(grid.link_count() != 2 * (grid.rows * grid.columns - 1));
            }
        }
        unvisited == 0
    }
}

} // verus!
