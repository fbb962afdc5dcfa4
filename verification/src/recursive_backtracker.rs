use vstd::prelude::*;

use crate::cell::Coord;
use crate::grid::{lemma_links_empty_zero_count, Grid};
use crate::reach::{
    is_spanning_tree, lemma_all_coords_card, lemma_closed_under_adjacency, lemma_extend_component,
    lemma_neighbour_seq_complete, lemma_neighbour_seq_valid, lemma_reached_start_has_links,
    lemma_reaches_all_pairs, lemma_reaches_refl, lemma_visited_finite, reaches, visited_set,
};
use crate::rng::RandomSource;

verus! {

/// The recursive-backtracker algorithm: a depth-first walk kept on an
/// explicit stack, carving towards unvisited neighbours and backtracking
/// when none remain, producing long winding corridors.
pub struct RecursiveBacktracker {}

impl RecursiveBacktracker {
    /// Carve a spanning tree by depth-first search from a random cell.
    pub fn on(grid: &mut Grid, rng: &mut RandomSource)
        requires
            old(grid).wf(),
            old(grid).configured(),
            old(grid).links_empty(),
        ensures
            final(grid).wf(),
            final(grid).configured(),
            final(grid).same_structure(*old(grid)),
            final(grid).distances == old(grid).distances,
            is_spanning_tree(*final(grid)),
    {
        broadcast use vstd::set::group_set_axioms;

        let start = grid.get_random_cell(rng);
        let mut stack: Vec<Coord> = Vec::new();
        stack.push(start);
        proof {
            assert(visited_set(*grid, start) =~= Set::<Coord>::empty().insert(start));
            lemma_visited_finite(*grid, start);
            lemma_reaches_refl(*grid, start);
            lemma_links_empty_zero_count(*grid);
            assert(stack@.to_set().contains(start)) by {
                assert(stack@[0] == start);
            }
        }
        while stack.len() > 0
            invariant
                grid.wf(),
                grid.configured(),
                grid.same_structure(*old(grid)),
                grid.distances == old(grid).distances,
                grid.valid(start),
                visited_set(*grid, start).finite(),
                visited_set(*grid, start).len() >= 1,
                visited_set(*grid, start).len() <= grid.rows * grid.columns,
                forall|i: int|
                    0 <= i < stack@.len() ==> visited_set(*grid, start).contains(
                        #[trigger] stack@[i],
                    ),
                forall|c: Coord| visited_set(*grid, start).contains(c) ==> reaches(*grid, start, c),
                forall|c: Coord, y: Coord|
                    visited_set(*grid, start).contains(c) && !stack@.to_set().contains(c)
                        && #[trigger] grid.is_neighbor(c, y) ==> visited_set(*grid, start).contains(
                        y,
                    ),
                grid.link_count() == 2 * (visited_set(*grid, start).len() - 1),
            decreases 2 * (grid.rows * grid.columns - visited_set(*grid, start).len())
                + stack@.len(),
        {
            let cur = stack[stack.len() - 1];
            proof {
                lemma_neighbour_seq_valid(*grid, cur);
            }
            let neighbours = grid.cell(cur).neighbours();
            let mut unvisited_n: Vec<Coord> = Vec::new();
            let mut i: usize = 0;
            while i < neighbours.len()
                invariant
                    i <= neighbours@.len(),
                    forall|k: int|
                        0 <= k < unvisited_n@.len() ==> grid.is_neighbor(
                            cur,
                            #[trigger] unvisited_n@[k],
                        ) && grid.cell_spec(unvisited_n@[k]).links@.len() == 0,
                    forall|k: int|
                        0 <= k < i ==> visited_set(*grid, start).contains(#[trigger] neighbours@[k])
                            || unvisited_n@.contains(neighbours@[k]),
                decreases neighbours@.len() - i,
            {
                let n = neighbours[i];
                if grid.cell(n).links.len() == 0 {
                    let ghost old_un = unvisited_n@;
                    unvisited_n.push(n);
                    proof {
                        assert(unvisited_n@.last() == n);
                        assert forall|k: int|
                            0 <= k < i && !visited_set(*grid, start).contains(
                                #[trigger] neighbours@[k],
                            ) implies unvisited_n@.contains(neighbours@[k]) by {
                            let j = choose|j: int|
                                0 <= j < old_un.len() && old_un[j] == neighbours@[k];
                            assert(unvisited_n@[j] == neighbours@[k]);
                        }
                    }
                } else {
                    proof {
                        assert(visited_set(*grid, start).contains(n));
                    }
                }
                i += 1;
            }
            if unvisited_n.len() == 0 {
                proof {
                    assert forall|y: Coord| grid.is_neighbor(cur, y) implies visited_set(
                        *grid,
                        start,
                    ).contains(y) by {
                        lemma_neighbour_seq_complete(*grid, cur, y);
                        let k = choose|k: int|
                            0 <= k < neighbours@.len() && neighbours@[k] == y;
                        assert(visited_set(*grid, start).contains(neighbours@[k])
                            || unvisited_n@.contains(neighbours@[k]));
                    }
                }
                let ghost old_stack = stack@;
                stack.pop();
                proof {
                    // The popped cell keeps the closure invariant: every one
                    // of its structural neighbours was seen to be visited.
                    assert forall|c: Coord, y: Coord|
                        visited_set(*grid, start).contains(c) && !stack@.to_set().contains(c)
                            && #[trigger] grid.is_neighbor(c, y) implies visited_set(
                        *grid,
                        start,
                    ).contains(y) by {
                        if c != cur {
                            assert(!old_stack.to_set().contains(c)) by {
                                if old_stack.to_set().contains(c) {
                                    let k = choose|k: int|
                                        0 <= k < old_stack.len() && old_stack[k] == c;
                                    if k < old_stack.len() - 1 {
                                        assert(stack@[k] == c);
                                        assert(stack@.to_set().contains(c));
                                    }
                                }
                            }
                        }
                    }
                }
            } else {
                let pick = rng.random_below(unvisited_n.len());
                let n = unvisited_n[pick];
                proof {
                    if n == start {
                        assert(cur != n);
                        lemma_reached_start_has_links(*grid, start, cur);
                        assert(false);
                    }
                    assert(!visited_set(*grid, start).contains(n));
                    if grid.linked(cur, n) {
                        assert(grid.cell_spec(n).links@.contains(cur));
                        assert(false);
                    }
                }
                let ghost pre = *grid;
                let ghost pre_stack = stack@;
                grid.link_pair(cur, n);
                stack.push(n);
                proof {
                    lemma_extend_component(pre, *grid, start, cur, n);
                    lemma_visited_finite(*grid, start);
                    assert forall|i2: int| 0 <= i2 < stack@.len() implies visited_set(
                        *grid,
                        start,
                    ).contains(#[trigger] stack@[i2]) by {
                        if i2 < stack@.len() - 1 {
                            assert(stack@[i2] == pre_stack[i2]);
                            assert(visited_set(pre, start).contains(pre_stack[i2]));
                        }
                    }
                    assert forall|c: Coord, y: Coord|
                        visited_set(*grid, start).contains(c) && !stack@.to_set().contains(c)
                            && #[trigger] grid.is_neighbor(c, y) implies visited_set(
                        *grid,
                        start,
                    ).contains(y) by {
                        if c != n {
                            assert(visited_set(pre, start).contains(c));
                            assert(!pre_stack.to_set().contains(c)) by {
                                if pre_stack.to_set().contains(c) {
                                    let k = choose|k: int|
                                        0 <= k < pre_stack.len() && pre_stack[k] == c;
                                    assert(stack@[k] == c);
                                    assert(stack@.to_set().contains(c));
                                }
                            }
                            assert(pre.is_neighbor(c, y));
                            assert(visited_set(pre, start).contains(y));
                        } else {
                            assert(stack@.last() == n);
                            assert(stack@.to_set().contains(n));
                        }
                    }
                }
            }
        }
        proof {
            let v = visited_set(*grid, start);
            assert forall|c: Coord, y: Coord|
                v.contains(c) && #[trigger] grid.is_neighbor(c, y) implies v.contains(y) by {
                assert(!stack@.to_set().contains(c)) by {
                    if stack@.to_set().contains(c) {
                        let k = choose|k: int| 0 <= k < stack@.len() && stack@[k] == c;
                    }
                }
            }
            assert forall|c: Coord| grid.valid(c) implies v.contains(c) by {
                lemma_closed_under_adjacency(*grid, v, start, c);
            }
            lemma_visited_finite(*grid, start);
            lemma_all_coords_card(*grid);
            assert(v =~= crate::reach::all_coords(*grid));
            assert forall|c: Coord| grid.valid(c) implies reaches(*grid, start, c) by {
                assert(v.contains(c));
            }
            lemma_reaches_all_pairs(*grid, start);
        }
    }
}

} // verus!
