use vstd::prelude::*;

use crate::cell::Coord;
use crate::grid::{lemma_links_empty_zero_count, Grid};
use crate::reach::{
    is_spanning_tree, lemma_all_coords_card, lemma_closed_under_adjacency, lemma_extend_component,
    lemma_neighbour_seq_complete, lemma_neighbour_seq_valid, lemma_reached_start_has_links,
    lemma_reaches_all_pairs, lemma_reaches_refl, lemma_visited_finite, reaches, visited_set,
};
use crate::rng::RandomSource;

verus! {

/// Whether a cell is a hunt target: it carries no passage yet, but some
/// structural neighbour already does.
pub open spec fn hunt_target(g: Grid, h: Coord) -> bool {
    &&& g.valid(h)
    &&& g.cell_spec(h).links@.len() == 0
    &&& exists|y: Coord| g.is_neighbor(h, y) && (#[trigger] g.cell_spec(y)).links@.len() > 0
}

/// The hunt-and-kill algorithm: random walks into unvisited territory,
/// interleaved with row-major hunts for the first unvisited cell that
/// borders visited territory.
pub struct HuntAndKill {}

impl HuntAndKill {
    /// Scan the grid in row-major order for the first hunt target; return
    /// it with a uniformly chosen linked neighbour, or `None` when no
    /// cell qualifies.
    fn hunt(grid: &Grid, rng: &mut RandomSource) -> (r: Option<(Coord, Coord)>)
        requires
            grid.wf(),
            grid.configured(),
        ensures
            match r {
                Some(pair) => hunt_target(*grid, pair.0) && grid.is_neighbor(pair.0, pair.1)
                    && grid.cell_spec(pair.1).links@.len() > 0,
                None => forall|h: Coord| !hunt_target(*grid, h),
            },
    {
        let rows = grid.rows;
        let columns = grid.columns;
        let mut row: usize = 0;
        while row < rows
            invariant
                row <= rows,
                forall|h: Coord| h.0 < row && hunt_target(*grid, h) ==> false,
            decreases rows - row,
        {
            let mut col: usize = 0;
            while col < columns
                invariant
                    row < rows,
                    col <= columns,
                    forall|h: Coord|
                        (h.0 < row || (h.0 == row && h.1 < col)) && hunt_target(*grid, h) ==> false,
                decreases columns - col,
            {
                let h = Coord(row, col);
                if grid.cell(h).links.len() == 0 {
                    proof {
                        lemma_neighbour_seq_valid(*grid, h);
                    }
                    let neighbours = grid.cell(h).neighbours();
                    let mut linked_n: Vec<Coord> = Vec::new();
                    let mut i: usize = 0;
                    while i < neighbours.len()
                        invariant
                            i <= neighbours@.len(),
                            forall|k: int|
                                0 <= k < linked_n@.len() ==> grid.is_neighbor(
                                    h,
                                    #[trigger] linked_n@[k],
                                ) && grid.cell_spec(linked_n@[k]).links@.len() > 0,
                            forall|k: int|
                                0 <= k < i ==> (#[trigger] grid.cell_spec(
                                    neighbours@[k],
                                )).links@.len() == 0 || linked_n@.contains(neighbours@[k]),
                        decreases neighbours@.len() - i,
                    {
                        let n = neighbours[i];
                        if grid.cell(n).links.len() > 0 {
                            let ghost old_ln = linked_n@;
                            linked_n.push(n);
                            proof {
                                assert(linked_n@.last() == n);
                                assert forall|k: int|
                                    0 <= k < i && (#[trigger] grid.cell_spec(
                                        neighbours@[k],
                                    )).links@.len() > 0 implies linked_n@.contains(
                                    neighbours@[k],
                                ) by {
                                    let j = choose|j: int|
                                        0 <= j < old_ln.len() && old_ln[j] == neighbours@[k];
                                    assert(linked_n@[j] == neighbours@[k]);
                                }
                            }
                        }
                        i += 1;
                    }
                    if linked_n.len() > 0 {
                        let pick = rng.random_below(linked_n.len());
                        let vn = linked_n[pick];
                        return Some((h, vn));
                    }
                    proof {
                        assert forall|y: Coord|
                            grid.is_neighbor(h, y) implies (#[trigger] grid.cell_spec(
                            y,
                        )).links@.len() == 0 by {
                            lemma_neighbour_seq_complete(*grid, h, y);
                            let k = choose|k: int|
                                0 <= k < neighbours@.len() && neighbours@[k] == y;
                            assert(grid.cell_spec(neighbours@[k]).links@.len() == 0
                                || linked_n@.contains(neighbours@[k]));
                        }
                        assert(!hunt_target(*grid, h));
                    }
                }
                proof {
                    assert(!hunt_target(*grid, Coord(row, col)));
                    assert forall|h2: Coord|
                        (h2.0 < row || (h2.0 == row && h2.1 < col + 1)) && hunt_target(
                            *grid,
                            h2,
                        ) implies false by {
                        if h2.0 == row && h2.1 == col {
                            assert(h2 == Coord(row, col));
                        }
                    }
                }
                col += 1;
            }
            row += 1;
        }
        proof {
            assert forall|h: Coord| hunt_target(*grid, h) implies false by {
                assert(h.0 < rows);
            }
        }
        None
    }

    /// Carve a spanning tree: walk randomly through unvisited neighbours,
    /// and when the walk is boxed in, hunt for the first unvisited cell
    /// adjacent to the visited region, link it to a random visited
    /// neighbour, and walk on from there. Terminates when a hunt pass
    /// finds no target, at which point the grid is fully linked.
    pub fn on(grid: &mut Grid, rng: &mut RandomSource)
        requires
            old(grid).wf(),
            old(grid).configured(),
            old(grid).links_empty(),
        ensures
            final(grid).wf(),
            final(grid).configured(),
            final(grid).same_structure(*old(grid)),
            final(grid).distances == old(grid).distances,
            is_spanning_tree(*final(grid)),
    {
        broadcast use vstd::set::group_set_axioms;

        let start = grid.get_random_cell(rng);
        let mut current = start;
        proof {
            assert(visited_set(*grid, start) =~= Set::<Coord>::empty().insert(start));
            lemma_visited_finite(*grid, start);
            lemma_reaches_refl(*grid, start);
            lemma_links_empty_zero_count(*grid);
        }
        let mut done = false;
        while !done
            invariant
                grid.wf(),
                grid.configured(),
                grid.same_structure(*old(grid)),
                grid.distances == old(grid).distances,
                grid.valid(start),
                visited_set(*grid, start).contains(current),
                visited_set(*grid, start).finite(),
                visited_set(*grid, start).len() >= 1,
                visited_set(*grid, start).len() <= grid.rows * grid.columns,
                forall|c: Coord| visited_set(*grid, start).contains(c) ==> reaches(*grid, start, c),
                grid.link_count() == 2 * (visited_set(*grid, start).len() - 1),
                done ==> forall|h: Coord| !hunt_target(*grid, h),
                done ==> forall|y: Coord|
                    grid.is_neighbor(current, y) ==> visited_set(*grid, start).contains(y),
            decreases 2 * (grid.rows * grid.columns - visited_set(*grid, start).len()) + (
            if done {
                0int
            } else {
                1int
            }),
        {
            proof {
                lemma_neighbour_seq_valid(*grid, current);
            }
            let neighbours = grid.cell(current).neighbours();
            let mut unvisited_n: Vec<Coord> = Vec::new();
            let mut i: usize = 0;
            while i < neighbours.len()
                invariant
                    i <= neighbours@.len(),
                    forall|k: int|
                        0 <= k < unvisited_n@.len() ==> grid.is_neighbor(
                            current,
                            #[trigger] unvisited_n@[k],
                        ) && grid.cell_spec(unvisited_n@[k]).links@.len() == 0,
                    forall|k: int|
                        0 <= k < i ==> visited_set(*grid, start).contains(#[trigger] neighbours@[k])
                            || unvisited_n@.contains(neighbours@[k]),
                decreases neighbours@.len() - i,
            {
                let n = neighbours[i];
                if grid.cell(n).links.len() == 0 {
                    let ghost old_un = unvisited_n@;
                    unvisited_n.push(n);
                    proof {
                        assert(unvisited_n@.last() == n);
                        assert forall|k: int|
                            0 <= k < i && !visited_set(*grid, start).contains(
                                #[trigger] neighbours@[k],
                            ) implies unvisited_n@.contains(neighbours@[k]) by {
                            let j = choose|j: int|
                                0 <= j < old_un.len() && old_un[j] == neighbours@[k];
                            assert(unvisited_n@[j] == neighbours@[k]);
                        }
                    }
                } else {
                    proof {
                        assert(visited_set(*grid, start).contains(n));
                    }
                }
                i += 1;
            }
            if unvisited_n.len() > 0 {
                let pick = rng.random_below(unvisited_n.len());
                let n = unvisited_n[pick];
                proof {
                    if n == start {
                        assert(current != n);
                        lemma_reached_start_has_links(*grid, start, current);
                        assert(false);
                    }
                    assert(!visited_set(*grid, start).contains(n));
                    if grid.linked(current, n) {
                        assert(grid.cell_spec(n).links@.contains(current));
                        assert(false);
                    }
                }
                let ghost pre = *grid;
                grid.link_pair(current, n);
                proof {
                    lemma_extend_component(pre, *grid, start, current, n);
                    lemma_visited_finite(*grid, start);
                }
                current = n;
            } else {
                proof {
                    assert forall|y: Coord|
                        grid.is_neighbor(current, y) implies visited_set(*grid, start).contains(
                        y,
                    ) by {
                        lemma_neighbour_seq_complete(*grid, current, y);
                        let k = choose|k: int| 0 <= k < neighbours@.len() && neighbours@[k] == y;
                        assert(visited_set(*grid, start).contains(neighbours@[k])
                            || unvisited_n@.contains(neighbours@[k]));
                    }
                }
                match Self::hunt(grid, rng) {
                    Some(pair) => {
                        let h = pair.0;
                        let vn = pair.1;
                        proof {
                            assert(visited_set(*grid, start).contains(vn));
                            if h == start {
                                assert(vn != start);
                                lemma_reached_start_has_links(*grid, start, vn);
                                assert(false);
                            }
                            assert(!visited_set(*grid, start).contains(h));
                            if grid.linked(vn, h) {
                                assert(grid.cell_spec(h).links@.contains(vn));
                                assert(false);
                            }
                        }
                        let ghost pre = *grid;
                        grid.link_pair(vn, h);
                        proof {
                            lemma_extend_component(pre, *grid, start, vn, h);
                            lemma_visited_finite(*grid, start);
                        }
                        current = h;
                    },
                    None => {
                        done = true;
                    },
                }
            }
        }
        proof {
            let v = visited_set(*grid, start);
            if exists|w: Coord| v.contains(w) && w != start {
                // With a second visited cell, the start itself carries a
                // passage, so every visited cell does, and a hunt pass
                // that found no target shows the visited region closed
                // under structural adjacency.
                let w = choose|w: Coord| v.contains(w) && w != start;
                assert(reaches(*grid, start, w));
                lemma_reached_start_has_links(*grid, start, w);
                assert forall|c: Coord, y: Coord|
                    v.contains(c) && #[trigger] grid.is_neighbor(c, y) implies v.contains(y) by {
                    assert(grid.cell_spec(c).links@.len() > 0);
                    if !v.contains(y) {
                        assert(grid.is_neighbor(y, c));
                        assert(hunt_target(*grid, y));
                        assert(false);
                    }
                }
                assert forall|c: Coord| grid.valid(c) implies v.contains(c) by {
                    lemma_closed_under_adjacency(*grid, v, start, c);
                }
            } else {
                // The visited region is just the start, whose neighbours
                // are all visited: it has none, so the grid is one cell.
                assert(v =~= Set::<Coord>::empty().insert(start));
                assert forall|c: Coord, y: Coord|
                    v.contains(c) && #[trigger] grid.is_neighbor(c, y) implies v.contains(y) by {
                    assert(c == start);
                    assert(visited_set(*grid, start).contains(y));
                }
                assert forall|c: Coord| grid.valid(c) implies v.contains(c) by {
                    lemma_closed_under_adjacency(*grid, v, start, c);
                }
            }
            lemma_visited_finite(*grid, start);
            lemma_all_coords_card(*grid);
            assert(v =~= crate::reach::all_coords(*grid));
            assert forall|c: Coord| grid.valid(c) implies reaches(*grid, start, c) by {
                assert(v.contains(c));
            }
            lemma_reaches_all_pairs(*grid, start);
        }
    }
}

} // verus!
