use vstd::prelude::*;

use crate::cell::Coord;
use crate::distances::Distances;
use crate::grid::Grid;
use crate::reach::{
    lemma_closed_under_links, lemma_distinct_valid_coords, lemma_reaches_monotone,
    lemma_reaches_refl, lemma_reaches_step, reaches,
};

verus! {

/// Whether the field records, for `c`, some linked neighbour exactly one
/// step closer to the field's root. Kept opaque so that the chain of
/// parents is only unrolled where a proof asks for it.
#[verifier::opaque]
pub open spec fn has_closer_neighbor(g: Grid, d: Distances, c: Coord) -> bool {
    exists|b: Coord|
        g.linked(c, b) && d.dist_map().contains_key(b) && (#[trigger] d.dist_map()[b]) + 1
            == d.dist_map()[c]
}

/// The field records exact shortest distances from its root: each
/// reached cell lies at the end of some walk of exactly its recorded
/// length, and no shorter walk from the root ends there.
pub open spec fn records_exact_distances(g: Grid, d: Distances) -> bool {
    &&& forall|c: Coord|
        d.dist_map().contains_key(c) ==> crate::reach::reaches_in(
            g,
            d.root,
            c,
            (#[trigger] d.dist_map()[c]) as int,
        )
    &&& forall|c: Coord, n: int|
        crate::reach::reaches_in(g, d.root, c, n) ==> d.dist_map().contains_key(c)
            && d.dist_map()[c] <= n
}

/// Shortest distance is symmetric: two exact fields, each reaching the
/// other's root, record the same distance between the two roots.
pub proof fn lemma_exact_fields_symmetric(g: Grid, d1: Distances, d2: Distances)
    requires
        g.wf(),
        records_exact_distances(g, d1),
        records_exact_distances(g, d2),
        d1.dist_map().contains_key(d2.root),
        d2.dist_map().contains_key(d1.root),
    ensures
        d1.dist_map()[d2.root] == d2.dist_map()[d1.root],
{
    let n1 = d1.dist_map()[d2.root] as int;
    let n2 = d2.dist_map()[d1.root] as int;
    assert(crate::reach::reaches_in(g, d1.root, d2.root, n1));
    crate::reach::lemma_reaches_in_sym(g, d1.root, d2.root, n1);
    assert(d2.dist_map()[d1.root] <= n1);
    assert(crate::reach::reaches_in(g, d2.root, d1.root, n2));
    crate::reach::lemma_reaches_in_sym(g, d2.root, d1.root, n2);
    assert(d1.dist_map()[d2.root] <= n2);
}

/// A distance field that agrees with a grid's link state: distinct
/// records, the root at distance zero, every reached cell valid, and
/// every reached cell but the root owning a linked neighbour exactly one
/// step closer to the root. Breadth-first search produces such fields,
/// and path reconstruction relies on them.
pub open spec fn field_wf(g: Grid, d: Distances) -> bool {
    &&& d.keys_no_dup()
    &&& d.dist_map().contains_key(d.root)
    &&& d.dist_map()[d.root] == 0
    &&& forall|c: Coord| d.dist_map().contains_key(c) ==> g.valid(c)
    &&& forall|c: Coord|
        d.dist_map().contains_key(c) && c != d.root ==> #[trigger] has_closer_neighbor(g, d, c)
}

/// Well-formedness, configuration and link state read nothing from the
/// distance field, so replacing that field preserves them.
pub proof fn lemma_same_grid_wf(g1: Grid, g2: Grid)
    requires
        g2.rows == g1.rows,
        g2.columns == g1.columns,
        g2.grid == g1.grid,
    ensures
        forall|c: Coord| #[trigger] g2.cell_spec(c) == g1.cell_spec(c),
        forall|a: Coord, b: Coord| #[trigger] g2.linked(a, b) <==> g1.linked(a, b),
        g1.wf() ==> g2.wf(),
        g1.configured() ==> g2.configured(),
        g2.link_count() == g1.link_count(),
{
    assert forall|c: Coord| #[trigger] g2.cell_spec(c) == g1.cell_spec(c) by {
        assert(g2.grid@ == g1.grid@);
    }
    assert forall|a: Coord, b: Coord| #[trigger] g2.linked(a, b) <==> g1.linked(a, b) by {
        assert(g2.cell_spec(a) == g1.cell_spec(a));
    }
    if g1.wf() {
        assert forall|a: Coord, b: Coord| #[trigger] g2.linked(a, b) implies g2.is_neighbor(a, b)
            && g2.linked(b, a) by {
            assert(g1.linked(a, b));
        }
        assert forall|c: Coord| g2.valid(c) implies (#[trigger] g2.cell_spec(c)).row == c.0
            && g2.cell_spec(c).column == c.1 && g2.cell_spec(c).links_no_dup() by {
            assert(g2.cell_spec(c) == g1.cell_spec(c));
            assert(g1.valid(c));
        }
    }
    if g1.configured() {
        assert forall|c: Coord| g2.valid(c) implies {
            let cell = #[trigger] g2.cell_spec(c);
            &&& cell.north == if c.0 > 0 {
                Some(Coord((c.0 - 1) as usize, c.1))
            } else {
                None::<Coord>
            }
            &&& cell.south == if c.0 + 1 < g2.rows {
                Some(Coord((c.0 + 1) as usize, c.1))
            } else {
                None::<Coord>
            }
            &&& cell.east == if c.1 + 1 < g2.columns {
                Some(Coord(c.0, (c.1 + 1) as usize))
            } else {
                None::<Coord>
            }
            &&& cell.west == if c.1 > 0 {
                Some(Coord(c.0, (c.1 - 1) as usize))
            } else {
                None::<Coord>
            }
        } by {
            assert(g2.cell_spec(c) == g1.cell_spec(c));
            assert(g1.valid(c));
        }
    }
}

/// An exact field stays exact when only the grid's distance field
/// changes: its witnessing walks use the links alone.
pub proof fn lemma_exact_same_grid(g1: Grid, g2: Grid, d: Distances)
    requires
        g2.rows == g1.rows,
        g2.columns == g1.columns,
        g2.grid == g1.grid,
        records_exact_distances(g1, d),
    ensures
        records_exact_distances(g2, d),
{
    lemma_same_grid_wf(g1, g2);
    assert forall|c: Coord|
        d.dist_map().contains_key(c) implies crate::reach::reaches_in(
        g2,
        d.root,
        c,
        (#[trigger] d.dist_map()[c]) as int,
    ) by {
        let n = d.dist_map()[c] as int;
        assert(crate::reach::reaches_in(g1, d.root, c, n));
        let p = choose|p: Seq<Coord>|
            crate::reach::is_link_path(g1, p) && p.first() == d.root && p.last() == c && p.len()
                == n + 1;
        assert forall|i: int| 0 <= i < p.len() - 1 implies g2.linked(#[trigger] p[i], p[i + 1]) by {
            assert(g1.linked(p[i], p[i + 1]));
        }
        assert(crate::reach::is_link_path(g2, p));
    }
    assert forall|c: Coord, n: int|
        crate::reach::reaches_in(g2, d.root, c, n) implies d.dist_map().contains_key(c)
            && d.dist_map()[c] <= n by {
        let p = choose|p: Seq<Coord>|
            crate::reach::is_link_path(g2, p) && p.first() == d.root && p.last() == c && p.len()
                == n + 1;
        assert forall|i: int| 0 <= i < p.len() - 1 implies g1.linked(#[trigger] p[i], p[i + 1]) by {
            assert(g2.linked(p[i], p[i + 1]));
        }
        assert(crate::reach::is_link_path(g1, p));
        assert(crate::reach::reaches_in(g1, d.root, c, n));
    }
}

/// A distance field valid against a grid stays valid when only the
/// grid's distance field changes.
pub proof fn lemma_field_wf_same_grid(g1: Grid, g2: Grid, d: Distances)
    requires
        g2.rows == g1.rows,
        g2.columns == g1.columns,
        g2.grid == g1.grid,
        field_wf(g1, d),
    ensures
        field_wf(g2, d),
{
    lemma_same_grid_wf(g1, g2);
    assert forall|c: Coord| d.dist_map().contains_key(c) implies g2.valid(c) by {
        assert(g1.valid(c));
    }
    assert forall|c: Coord|
        d.dist_map().contains_key(c) && c != d.root implies #[trigger] has_closer_neighbor(
        g2,
        d,
        c,
    ) by {
        reveal(has_closer_neighbor);
        assert(has_closer_neighbor(g1, d, c));
        let b = choose|b: Coord|
            g1.linked(c, b) && d.dist_map().contains_key(b) && (#[trigger] d.dist_map()[b]) + 1
                == d.dist_map()[c];
        assert(g2.linked(c, b));
    }
}

/// Over a fully connected link graph, a breadth-first field whose domain
/// covers everything its root reaches covers every cell of the grid:
/// search from any cell reaches all rows x columns cells.
pub proof fn lemma_connected_field_total(g: Grid, d: Distances)
    requires
        g.wf(),
        crate::reach::fully_connected(g),
        g.valid(d.root),
        forall|c: Coord| reaches(g, d.root, c) ==> d.dist_map().contains_key(c),
    ensures
        forall|c: Coord| g.valid(c) ==> d.dist_map().contains_key(c),
{
    assert forall|c: Coord| g.valid(c) implies d.dist_map().contains_key(c) by {
        assert(reaches(g, d.root, c));
    }
}

/// When every passage raises the recorded distance by at most one, no
/// walk can outrun the record: the distance of a walk's end is bounded
/// by the distance of its start plus its length.
proof fn lemma_dist_le_path(g: Grid, d: Distances, p: Seq<Coord>)
    requires
        d.dist_map().contains_key(p.first()),
        forall|a: Coord, b: Coord|
            d.dist_map().contains_key(a) && #[trigger] g.linked(a, b)
                ==> d.dist_map().contains_key(b) && d.dist_map()[b] <= d.dist_map()[a] + 1,
        crate::reach::is_link_path(g, p),
    ensures
        d.dist_map().contains_key(p.last()),
        d.dist_map()[p.last()] <= d.dist_map()[p.first()] + p.len() - 1,
    decreases p.len(),
{
    if p.len() > 1 {
        assert(g.linked(p[0], p[1]));
        let q = p.drop_first();
        assert forall|i: int|
            0 <= i < q.len() - 1 implies g.linked(#[trigger] q[i], q[i + 1]) by {
            assert(q[i] == p[i + 1] && q[i + 1] == p[i + 2]);
            assert(g.linked(p[i + 1], p[i + 2]));
        }
        assert(crate::reach::is_link_path(g, q));
        assert(d.dist_map().contains_key(q.first()));
        lemma_dist_le_path(g, d, q);
        assert(q.last() == p.last());
    }
}

/// Following the chain of one-step-closer neighbours from a reached cell
/// back to the root traces a walk of exactly the recorded length.
proof fn lemma_parent_chain_path(g: Grid, d: Distances, c: Coord)
    requires
        g.wf(),
        field_wf(g, d),
        d.dist_map().contains_key(c),
    ensures
        crate::reach::reaches_in(g, d.root, c, d.dist_map()[c] as int),
    decreases d.dist_map()[c],
{
    reveal(has_closer_neighbor);
    if c == d.root {
        let p = seq![c];
        assert(crate::reach::is_link_path(g, p) && p.first() == d.root && p.last() == c && p.len()
            == d.dist_map()[c] + 1);
    } else {
        assert(has_closer_neighbor(g, d, c));
        let b = choose|b: Coord|
            g.linked(c, b) && d.dist_map().contains_key(b) && (#[trigger] d.dist_map()[b]) + 1
                == d.dist_map()[c];
        lemma_parent_chain_path(g, d, b);
        let p = choose|p: Seq<Coord>|
            crate::reach::is_link_path(g, p) && p.first() == d.root && p.last() == b && p.len()
                == d.dist_map()[b] + 1;
        let q = p.push(c);
        assert(g.linked(b, c));
        assert forall|i: int|
            0 <= i < q.len() - 1 implies g.linked(#[trigger] q[i], q[i + 1]) by {
            if i < p.len() - 1 {
                assert(q[i] == p[i] && q[i + 1] == p[i + 1]);
            } else {
                assert(q[i] == p[p.len() - 1] && q[i + 1] == c);
            }
        }
        assert(crate::reach::is_link_path(g, q) && q.first() == d.root && q.last() == c && q.len()
            == d.dist_map()[c] + 1);
    }
}

/// A field of distinct valid cells that misses some valid cell is
/// strictly smaller than the grid.
proof fn lemma_room_for_new(g: Grid, d: Distances, l: Coord)
    requires
        g.wf(),
        d.keys_no_dup(),
        forall|c: Coord| d.dist_map().contains_key(c) ==> g.valid(c),
        g.valid(l),
        !d.dist_map().contains_key(l),
    ensures
        d.cells@.len() < g.rows * g.columns,
{
    let keys = d.cells@.push((l, 0usize)).map_values(|e: (Coord, usize)| e.0);
    assert forall|p: int, q: int| 0 <= p < q < keys.len() implies keys[p] != keys[q] by {
        if q < keys.len() - 1 {
            assert(keys[p] == d.cells@[p].0);
            assert(keys[q] == d.cells@[q].0);
        } else {
            assert(keys[q] == l);
            assert(keys[p] == d.cells@[p].0);
            if d.cells@[p].0 == l {
                crate::distances::lemma_map_of_contains(d.cells@, l);
            }
        }
    }
    assert forall|i: int| 0 <= i < keys.len() implies g.valid(#[trigger] keys[i]) by {
        if i < keys.len() - 1 {
            assert(keys[i] == d.cells@[i].0);
            crate::distances::lemma_map_of_index(d.cells@, i);
        } else {
            assert(keys[i] == l);
        }
    }
    lemma_distinct_valid_coords(g, keys);
}

impl Grid {
    /// Breadth-first search over the link graph from `start`: the result
    /// maps exactly the cells reachable from `start` through passages to
    /// their search depth, with `start` itself at distance zero.
    pub fn find_distances(&self, start: Coord) -> (d: Distances)
        requires
            self.wf(),
            self.valid(start),
        ensures
            d.root == start,
            d.wf(),
            d.dist_map()[start] == 0,
            field_wf(*self, d),
            forall|c: Coord| d.dist_map().contains_key(c) ==> reaches(*self, start, c),
            forall|c: Coord| reaches(*self, start, c) ==> d.dist_map().contains_key(c),
            records_exact_distances(*self, d),
            d.cells@.len() <= self.rows * self.columns,
    {
        let mut frontier: Vec<Coord> = Vec::new();
        frontier.push(start);
        let mut nd = Distances::initialize(start);
        let ghost mut level: int = 0;
        proof {
            lemma_reaches_refl(*self, start);
            assert(frontier@[0] == start);
            assert(frontier@.contains(start));
            assert(nd.cells@.len() <= self.rows * self.columns) by {
                let keys = nd.cells@.map_values(|e: (Coord, usize)| e.0);
                assert(keys.len() == 1 && keys[0] == start);
                lemma_distinct_valid_coords(*self, keys);
            }
        }
        while frontier.len() > 0
            invariant
                self.wf(),
                nd.root == start,
                nd.keys_no_dup(),
                nd.dist_map().contains_key(start),
                nd.dist_map()[start] == 0,
                forall|i: int|
                    0 <= i < frontier@.len() ==> nd.dist_map().contains_key(
                        #[trigger] frontier@[i],
                    ),
                forall|c: Coord| nd.dist_map().contains_key(c) ==> self.valid(c),
                forall|c: Coord| nd.dist_map().contains_key(c) ==> reaches(*self, start, c),
                forall|c: Coord|
                    nd.dist_map().contains_key(c) && c != start ==> #[trigger] has_closer_neighbor(
                        *self,
                        nd,
                        c,
                    ),
                forall|i: int|
                    0 <= i < nd.cells@.len() ==> (#[trigger] nd.cells@[i]).1 < nd.cells@.len(),
                nd.cells@.len() <= self.rows * self.columns,
                level >= 0,
                forall|i: int|
                    0 <= i < frontier@.len() ==> nd.dist_map()[#[trigger] frontier@[i]] == level,
                forall|c: Coord|
                    #[trigger] nd.dist_map().contains_key(c) ==> nd.dist_map()[c] <= level,
                forall|c: Coord, y: Coord|
                    nd.dist_map().contains_key(c) && #[trigger] self.linked(c, y)
                        && !frontier@.contains(c) ==> nd.dist_map().contains_key(y)
                        && nd.dist_map()[y] <= nd.dist_map()[c] + 1,
            decreases self.rows * self.columns - nd.cells@.len(), frontier@.len(),
        {
            let ghost outer_len = nd.cells@.len();
            let mut new_frontier: Vec<Coord> = Vec::new();
            let mut fi: usize = 0;
            while fi < frontier.len()
                invariant
                    self.wf(),
                    fi <= frontier@.len(),
                    nd.root == start,
                    nd.keys_no_dup(),
                    nd.dist_map().contains_key(start),
                    nd.dist_map()[start] == 0,
                    forall|i: int|
                        0 <= i < frontier@.len() ==> nd.dist_map().contains_key(
                            #[trigger] frontier@[i],
                        ),
                    forall|i: int|
                        0 <= i < new_frontier@.len() ==> nd.dist_map().contains_key(
                            #[trigger] new_frontier@[i],
                        ),
                    forall|c: Coord| nd.dist_map().contains_key(c) ==> self.valid(c),
                    forall|c: Coord| nd.dist_map().contains_key(c) ==> reaches(*self, start, c),
                    forall|c: Coord|
                        nd.dist_map().contains_key(c) && c != start
                            ==> #[trigger] has_closer_neighbor(*self, nd, c),
                    forall|i: int|
                        0 <= i < nd.cells@.len() ==> (#[trigger] nd.cells@[i]).1 < nd.cells@.len(),
                    nd.cells@.len() <= self.rows * self.columns,
                    nd.cells@.len() == outer_len + new_frontier@.len(),
                    level >= 0,
                    forall|i: int|
                        0 <= i < frontier@.len() ==> nd.dist_map()[#[trigger] frontier@[i]]
                            == level,
                    forall|i: int|
                        0 <= i < new_frontier@.len() ==> nd.dist_map()[#[trigger] new_frontier@[i]]
                            == level + 1,
                    forall|c: Coord|
                        #[trigger] nd.dist_map().contains_key(c) ==> nd.dist_map()[c] <= level + 1,
                    forall|c: Coord, y: Coord|
                        nd.dist_map().contains_key(c) && #[trigger] self.linked(c, y) && !(
                        exists|k: int| fi <= k < frontier@.len() && frontier@[k] == c)
                            && !new_frontier@.contains(c) ==> nd.dist_map().contains_key(y)
                            && nd.dist_map()[y] <= nd.dist_map()[c] + 1,
                decreases frontier@.len() - fi,
            {
                let cur = frontier[fi];
                proof {
                    assert(nd.dist_map().contains_key(cur));
                }
                let cur_dist = match nd.get_cell_distance(&cur) {
                    Ok(d0) => d0,
                    Err(_) => {
                        proof {
                            assert(false);
                        }
                        0
                    },
                };
                let links = self.cell(cur).get_links();
                let ghost cell_links = self.cell_spec(cur).links@;
                let mut li: usize = 0;
                while li < links.len()
                    invariant
                        self.wf(),
                        links@ == cell_links,
                        cell_links == self.cell_spec(cur).links@,
                        li <= links@.len(),
                        self.valid(cur),
                        nd.root == start,
                        nd.keys_no_dup(),
                        nd.dist_map().contains_key(start),
                        nd.dist_map()[start] == 0,
                        nd.dist_map().contains_key(cur),
                        nd.dist_map()[cur] == cur_dist,
                        forall|i: int|
                            0 <= i < frontier@.len() ==> nd.dist_map().contains_key(
                                #[trigger] frontier@[i],
                            ),
                        forall|i: int|
                            0 <= i < new_frontier@.len() ==> nd.dist_map().contains_key(
                                #[trigger] new_frontier@[i],
                            ),
                        forall|c: Coord| nd.dist_map().contains_key(c) ==> self.valid(c),
                        forall|c: Coord| nd.dist_map().contains_key(c) ==> reaches(*self, start, c),
                        forall|c: Coord|
                            nd.dist_map().contains_key(c) && c != start
                                ==> #[trigger] has_closer_neighbor(*self, nd, c),
                        forall|i: int|
                            0 <= i < nd.cells@.len() ==> (#[trigger] nd.cells@[i]).1
                                < nd.cells@.len(),
                        nd.cells@.len() <= self.rows * self.columns,
                        nd.cells@.len() == outer_len + new_frontier@.len(),
                        level >= 0,
                        cur_dist == level,
                        forall|i: int|
                            0 <= i < frontier@.len() ==> nd.dist_map()[#[trigger] frontier@[i]]
                                == level,
                        forall|i: int|
                            0 <= i < new_frontier@.len() ==> nd.dist_map()[
                                #[trigger] new_frontier@[i]] == level + 1,
                        forall|c: Coord|
                            #[trigger] nd.dist_map().contains_key(c) ==> nd.dist_map()[c] <= level
                                + 1,
                        forall|k: int|
                            0 <= k < li ==> nd.dist_map().contains_key(#[trigger] links@[k])
                                && nd.dist_map()[links@[k]] <= cur_dist + 1,
                        forall|c: Coord, y: Coord|
                            nd.dist_map().contains_key(c) && #[trigger] self.linked(c, y) && !(
                            exists|k: int| fi < k < frontier@.len() && frontier@[k] == c)
                                && !new_frontier@.contains(c) && c != cur
                                ==> nd.dist_map().contains_key(y) && nd.dist_map()[y]
                                <= nd.dist_map()[c] + 1,
                    decreases links@.len() - li,
                {
                    let l = links[li];
                    proof {
                        assert(cell_links.contains(l));
                        assert(self.linked(cur, l));
                        assert(self.is_neighbor(cur, l));
                        assert(self.linked(l, cur));
                    }
                    if !nd.has_cell(&l) {
                        proof {
                            lemma_room_for_new(*self, nd, l);
                            crate::distances::lemma_map_of_contains(nd.cells@, cur);
                            let idx = choose|idx: int|
                                0 <= idx < nd.cells@.len() && nd.cells@[idx].0 == cur;
                            crate::distances::lemma_map_of_index(nd.cells@, idx);
                            assert(nd.cells@[idx].1 == cur_dist);
                            assert(cur_dist < nd.cells@.len());
                        }
                        let ghost pre_nd = nd;
                        let ghost pre_nf = new_frontier@;
                        nd.set_cell_distance(l, cur_dist + 1);
                        new_frontier.push(l);
                        proof {
                            lemma_reaches_step(*self, start, cur, l);
                            assert(new_frontier@.last() == l);
                            assert(nd.cells@ == pre_nd.cells@.push((l, (cur_dist + 1) as usize)));
                            assert forall|i: int|
                                0 <= i < nd.cells@.len() implies (#[trigger] nd.cells@[i]).1
                                < nd.cells@.len() by {
                                if i < pre_nd.cells@.len() {
                                    assert(nd.cells@[i] == pre_nd.cells@[i]);
                                }
                            }
                            assert forall|c: Coord|
                                pre_nf.contains(c) implies new_frontier@.contains(c) by {
                                let k = choose|k: int| 0 <= k < pre_nf.len() && pre_nf[k] == c;
                                assert(new_frontier@[k] == c);
                            }
                            assert forall|c: Coord|
                                nd.dist_map().contains_key(c) && c != start
                                    implies #[trigger] has_closer_neighbor(*self, nd, c) by {
                                reveal(has_closer_neighbor);
                                if c == l {
                                    assert(self.linked(l, cur) && nd.dist_map().contains_key(cur)
                                        && nd.dist_map()[cur] + 1 == nd.dist_map()[l]);
                                } else {
                                    assert(pre_nd.dist_map().contains_key(c));
                                    assert(has_closer_neighbor(*self, pre_nd, c));
                                    let b = choose|b: Coord|
                                        self.linked(c, b) && pre_nd.dist_map().contains_key(b) && (
                                        #[trigger] pre_nd.dist_map()[b]) + 1 == pre_nd.dist_map()[
                                        c];
                                    assert(b != l);
                                    assert(self.linked(c, b) && nd.dist_map().contains_key(b) && (
                                    nd.dist_map()[b]) + 1 == nd.dist_map()[c]);
                                }
                            }
                        }
                    }
                    li += 1;
                }
                proof {
                    assert forall|c: Coord, y: Coord|
                        nd.dist_map().contains_key(c) && #[trigger] self.linked(c, y) && !(
                        exists|k: int| fi + 1 <= k < frontier@.len() && frontier@[k] == c)
                            && !new_frontier@.contains(c) implies nd.dist_map().contains_key(y)
                        && nd.dist_map()[y] <= nd.dist_map()[c] + 1 by {
                        if c == cur {
                            assert(self.cell_spec(cur).links@.contains(y));
                            let k = choose|k: int| 0 <= k < cell_links.len() && cell_links[k] == y;
                            assert(nd.dist_map().contains_key(links@[k]));
                            assert(nd.dist_map()[links@[k]] <= cur_dist + 1);
                        }
                    }
                }
                fi += 1;
            }
            frontier = new_frontier;
            proof {
                level = level + 1;
            }
        }
        proof {
            let s = nd.dist_map().dom();
            assert forall|x: Coord, y: Coord|
                s.contains(x) && #[trigger] self.linked(x, y) implies s.contains(y) by {
                assert(nd.dist_map().contains_key(x));
                assert(!frontier@.contains(x));
            }
            assert forall|c: Coord| reaches(*self, start, c) implies nd.dist_map().contains_key(
                c,
            ) by {
                lemma_closed_under_links(*self, s, start, c);
            }
            // The recorded numbers are exact shortest distances: a walk
            // of the recorded length exists, and none shorter does.
            assert(field_wf(*self, nd));
            assert forall|c: Coord|
                nd.dist_map().contains_key(c) implies crate::reach::reaches_in(
                *self,
                start,
                c,
                nd.dist_map()[c] as int,
            ) by {
                lemma_parent_chain_path(*self, nd, c);
            }
            assert forall|a: Coord, b: Coord|
                nd.dist_map().contains_key(a) && #[trigger] self.linked(a, b)
                    implies nd.dist_map().contains_key(b) && nd.dist_map()[b] <= nd.dist_map()[a]
                + 1 by {
                assert(!frontier@.contains(a));
            }
            assert forall|c: Coord, n: int|
                crate::reach::reaches_in(*self, start, c, n)
                    implies nd.dist_map().contains_key(c) && nd.dist_map()[c] <= n by {
                let p = choose|p: Seq<Coord>|
                    crate::reach::is_link_path(*self, p) && p.first() == start && p.last() == c
                        && p.len() == n + 1;
                lemma_dist_le_path(*self, nd, p);
            }
        }
        nd
    }

    /// The first linked neighbour of `current`, in the fixed scan order
    /// north, east, west, south, whose recorded distance is exactly one
    /// less than `cur_dist`. The field's parent property guarantees one
    /// exists.
    fn step_toward_root(&self, current: Coord, cur_dist: usize) -> (r: Coord)
        requires
            self.wf(),
            self.configured(),
            field_wf(*self, self.distances),
            self.distances.dist_map().contains_key(current),
            self.distances.dist_map()[current] == cur_dist,
            cur_dist > 0,
        ensures
            self.linked(current, r),
            self.distances.dist_map().contains_key(r),
            self.distances.dist_map()[r] + 1 == cur_dist,
    {
        proof {
            assert(current != self.distances.root);
        }
        let cell = self.cell(current);
        if let Some(nc) = cell.north {
            if cell.is_linked(&nc) {
                if let Ok(d0) = self.distances.get_cell_distance(&nc) {
                    if d0 == cur_dist - 1 {
                        return nc;
                    }
                }
            }
        }
        if let Some(nc) = cell.east {
            if cell.is_linked(&nc) {
                if let Ok(d0) = self.distances.get_cell_distance(&nc) {
                    if d0 == cur_dist - 1 {
                        return nc;
                    }
                }
            }
        }
        if let Some(nc) = cell.west {
            if cell.is_linked(&nc) {
                if let Ok(d0) = self.distances.get_cell_distance(&nc) {
                    if d0 == cur_dist - 1 {
                        return nc;
                    }
                }
            }
        }
        if let Some(nc) = cell.south {
            if cell.is_linked(&nc) {
                if let Ok(d0) = self.distances.get_cell_distance(&nc) {
                    if d0 == cur_dist - 1 {
                        return nc;
                    }
                }
            }
        }
        proof {
            // The field's parent property names a linked neighbour one
            // step closer; the four-direction scan cannot have missed it.
            reveal(has_closer_neighbor);
            assert(has_closer_neighbor(*self, self.distances, current));
            let b = choose|b: Coord|
                self.linked(current, b) && self.distances.dist_map().contains_key(b) && (
                #[trigger] self.distances.dist_map()[b]) + 1 == self.distances.dist_map()[current];
            assert(self.is_neighbor(current, b));
            let cc = self.cell_spec(current);
            assert(cc.north == Some(b) || cc.east == Some(b) || cc.west == Some(b) || cc.south
                == Some(b));
            assert(false);
        }
        current
    }

    /// Reconstruct the shortest path from `goal` back to the root of the
    /// current distance field by repeatedly stepping to the first linked
    /// neighbour, in the fixed scan order north, east, west, south, whose
    /// recorded distance is exactly one less. The result is a distance
    /// field restricted to the path's cells: one cell per distance from
    /// zero up to the distance of `goal`.
    pub fn path_to(&self, goal: Coord) -> (r: Distances)
        requires
            self.wf(),
            self.configured(),
            field_wf(*self, self.distances),
            self.distances.dist_map().contains_key(goal),
        ensures
            r.root == self.distances.root,
            r.wf(),
            field_wf(*self, r),
            forall|c: Coord|
                #[trigger] r.dist_map().contains_key(c) ==> (self.distances.dist_map().contains_key(
                    c,
                ) && r.dist_map()[c] == self.distances.dist_map()[c] && r.dist_map()[c]
                    <= self.distances.dist_map()[goal]),
            r.dist_map().contains_key(goal),
            r.cells@.len() == self.distances.dist_map()[goal] + 1,
            forall|c1: Coord, c2: Coord|
                r.dist_map().contains_key(c1) && r.dist_map().contains_key(c2) && c1 != c2
                    ==> r.dist_map()[c1] != r.dist_map()[c2],
            goal == self.distances.root ==> r.cells@ == seq![(goal, 0usize)],
    {
        let field = &self.distances;
        let root = field.root;
        let mut breadcrumbs = Distances::initialize(root);
        let dist_goal = match field.get_cell_distance(&goal) {
            Ok(d0) => d0,
            Err(_) => {
                proof {
                    assert(false);
                }
                0
            },
        };
        if goal == root {
            return breadcrumbs;
        }
        proof {
            assert(dist_goal > 0) by {
                reveal(has_closer_neighbor);
                assert(has_closer_neighbor(*self, self.distances, goal));
                let b = choose|b: Coord|
                    self.linked(goal, b) && self.distances.dist_map().contains_key(b) && (
                    #[trigger] self.distances.dist_map()[b]) + 1 == self.distances.dist_map()[goal];
            }
        }
        breadcrumbs.set_cell_distance(goal, dist_goal);
        let mut current = goal;
        let mut cur_dist = dist_goal;
        proof {
            assert(breadcrumbs.cells@.len() == 2);
        }
        while cur_dist > 0
            invariant
                self.wf(),
                self.configured(),
                field_wf(*self, self.distances),
                self.distances.root == root,
                self.distances.dist_map().contains_key(goal),
                self.distances.dist_map()[goal] == dist_goal,
                breadcrumbs.root == root,
                breadcrumbs.keys_no_dup(),
                breadcrumbs.dist_map().contains_key(root),
                breadcrumbs.dist_map()[root] == 0,
                breadcrumbs.dist_map().contains_key(goal),
                breadcrumbs.dist_map().contains_key(current),
                breadcrumbs.dist_map()[current] == cur_dist,
                self.distances.dist_map().contains_key(current),
                self.distances.dist_map()[current] == cur_dist,
                cur_dist <= dist_goal,
                forall|c: Coord|
                    #[trigger] breadcrumbs.dist_map().contains_key(c)
                        ==> (self.distances.dist_map().contains_key(c) && breadcrumbs.dist_map()[c]
                        == self.distances.dist_map()[c] && breadcrumbs.dist_map()[c] <= dist_goal),
                forall|c: Coord|
                    #[trigger] breadcrumbs.dist_map().contains_key(c) ==> (breadcrumbs.dist_map()[c]
                        == 0 || cur_dist <= breadcrumbs.dist_map()[c] <= dist_goal),
                cur_dist > 0 ==> breadcrumbs.cells@.len() == dist_goal - cur_dist + 2,
                cur_dist == 0 ==> breadcrumbs.cells@.len() == dist_goal + 1,
                forall|c1: Coord, c2: Coord|
                    breadcrumbs.dist_map().contains_key(c1) && breadcrumbs.dist_map().contains_key(
                        c2,
                    ) && c1 != c2 ==> breadcrumbs.dist_map()[c1] != breadcrumbs.dist_map()[c2],
                forall|c: Coord|
                    breadcrumbs.dist_map().contains_key(c) && c != root && c != current
                        ==> #[trigger] has_closer_neighbor(*self, breadcrumbs, c),
            decreases cur_dist,
        {
            let nc = self.step_toward_root(current, cur_dist);
            proof {
                assert(self.linked(current, nc));
                assert(self.distances.dist_map().contains_key(nc));
                assert(self.distances.dist_map()[nc] + 1 == cur_dist);
                if breadcrumbs.dist_map().contains_key(nc) {
                    assert(breadcrumbs.dist_map()[nc] == cur_dist - 1);
                    assert(cur_dist - 1 == 0 || cur_dist <= cur_dist - 1);
                    assert(cur_dist == 1);
                }
            }
            let ghost pre_bc = breadcrumbs;
            breadcrumbs.set_cell_distance(nc, cur_dist - 1);
            proof {
                assert forall|c: Coord|
                    breadcrumbs.dist_map().contains_key(c) && c != root && c != nc
                        implies #[trigger] has_closer_neighbor(*self, breadcrumbs, c) by {
                    reveal(has_closer_neighbor);
                    if c == current {
                        assert(self.linked(current, nc) && breadcrumbs.dist_map().contains_key(nc)
                            && breadcrumbs.dist_map()[nc] + 1 == breadcrumbs.dist_map()[current]);
                    } else {
                        assert(has_closer_neighbor(*self, pre_bc, c));
                        let b = choose|b: Coord|
                            self.linked(c, b) && pre_bc.dist_map().contains_key(b) && (
                            #[trigger] pre_bc.dist_map()[b]) + 1 == pre_bc.dist_map()[c];
                        assert(pre_bc.dist_map()[b] == 0 || cur_dist <= pre_bc.dist_map()[b]);
                        if b == nc {
                            assert(pre_bc.dist_map()[nc] == cur_dist - 1);
                        }
                        assert(self.linked(c, b) && breadcrumbs.dist_map().contains_key(b) && (
                        breadcrumbs.dist_map()[b]) + 1 == breadcrumbs.dist_map()[c]);
                    }
                }
                if cur_dist == 1 {
                    assert(nc == root) by {
                        if nc != root {
                            reveal(has_closer_neighbor);
                            assert(has_closer_neighbor(*self, self.distances, nc));
                            let b = choose|b: Coord|
                                self.linked(nc, b) && self.distances.dist_map().contains_key(b)
                                    && (#[trigger] self.distances.dist_map()[b]) + 1
                                    == self.distances.dist_map()[nc];
                        }
                    }
                }
            }
            current = nc;
            cur_dist = cur_dist - 1;
        }
        proof {
            assert(current == root) by {
                if current != root {
                    reveal(has_closer_neighbor);
                    assert(has_closer_neighbor(*self, self.distances, current));
                    let b = choose|b: Coord|
                        self.linked(current, b) && self.distances.dist_map().contains_key(b) && (
                        #[trigger] self.distances.dist_map()[b]) + 1 == self.distances.dist_map()[
                    current];
                }
            }
        }
        breadcrumbs
    }

    /// The exact tree-diameter path: breadth-first search from the origin
    /// finds a farthest cell A, a second search rooted at A finds a
    /// farthest cell B, and the returned field restricts that second
    /// search to the path from B back to A. Its cell count exceeds by one
    /// the greatest distance recorded in the final field, which is left
    /// in `distances`.
    pub fn longest_path(&mut self) -> (r: Distances)
        requires
            old(self).wf(),
            old(self).configured(),
        ensures
            final(self).wf(),
            final(self).configured(),
            final(self).same_structure(*old(self)),
            field_wf(*final(self), final(self).distances),
            records_exact_distances(*final(self), final(self).distances),
            r.root == final(self).distances.root,
            r.wf(),
            field_wf(*final(self), r),
            forall|c: Coord|
                #[trigger] r.dist_map().contains_key(c) ==> (final(self).distances.dist_map().contains_key(c)
                    && r.dist_map()[c] == final(self).distances.dist_map()[c]),
            forall|c: Coord|
                final(self).distances.dist_map().contains_key(c)
                    ==> (#[trigger] final(self).distances.dist_map()[c]) + 1 <= r.cells@.len(),
            exists|b: Coord|
                r.dist_map().contains_key(b) && (#[trigger] r.dist_map()[b]) + 1 == r.cells@.len(),
            forall|a: Coord, b: Coord|
                #[trigger] final(self).linked(a, b) <==> old(self).linked(a, b),
            crate::reach::is_spanning_tree(*old(self))
                ==> final(self).distances.dist_map().contains_key(Coord(0, 0)) && (forall|c: Coord|
                #[trigger] final(self).valid(c) ==> exists|n: int|
                    crate::reach::reaches_in(*final(self), Coord(0, 0), c, n) && n
                        <= final(self).distances.dist_map()[Coord(0, 0)]),
    {
        let origin = Coord(0, 0);
        let d1 = self.find_distances(origin);
        let ghost pre1 = *self;
        self.distances = d1;
        proof {
            lemma_same_grid_wf(pre1, *self);
            lemma_field_wf_same_grid(pre1, *self, self.distances);
        }
        let first = self.distances.max();
        let a = first.0;
        proof {
            assert(self.valid(a));
        }
        let d2 = self.find_distances(a);
        let ghost pre2 = *self;
        self.distances = d2;
        proof {
            lemma_same_grid_wf(pre2, *self);
            lemma_field_wf_same_grid(pre2, *self, self.distances);
            lemma_exact_same_grid(pre2, *self, self.distances);
        }
        let second = self.distances.max();
        let goal = second.0;
        let dmax = second.1;
        let p = self.path_to(goal);
        proof {
            assert(p.dist_map().contains_key(goal));
            assert(p.dist_map()[goal] == dmax);
            assert(p.cells@.len() == dmax + 1);
            // Passages are untouched: only the distance field was
            // replaced, twice.
            assert forall|a2: Coord, b2: Coord|
                #[trigger] self.linked(a2, b2) <==> pre1.linked(a2, b2) by {
                assert(self.linked(a2, b2) <==> pre2.linked(a2, b2));
            }
            if crate::reach::is_spanning_tree(pre1) {
                // The first search's field covers every cell and stays
                // exact through the distance-field replacements.
                lemma_exact_same_grid(pre1, *self, pre2.distances);
                assert(pre1.valid(origin));
                assert forall|c: Coord|
                    self.valid(c) implies pre2.distances.dist_map().contains_key(c) by {
                    assert(pre1.valid(c));
                    assert(reaches(pre1, origin, c));
                }
                // The second search reaches back to the origin, so the
                // two roots' recorded distances agree by symmetry.
                assert(reaches(pre1, a, origin));
                lemma_reaches_monotone(pre1, pre2, a, origin);
                assert(self.distances.dist_map().contains_key(origin));
                assert(pre2.distances.dist_map().contains_key(a));
                lemma_exact_fields_symmetric(*self, pre2.distances, self.distances);
                assert(pre2.distances.dist_map()[a] == self.distances.dist_map()[origin]);
                // Every cell lies within the first field's maximum of the
                // origin, and that maximum is the root's recorded value.
                assert forall|c: Coord| #[trigger] self.valid(c) implies exists|n: int|
                    crate::reach::reaches_in(*self, origin, c, n) && n
                        <= self.distances.dist_map()[origin] by {
                    let n = pre2.distances.dist_map()[c] as int;
                    assert(pre2.distances.dist_map().contains_key(c));
                    assert(crate::reach::reaches_in(*self, origin, c, n));
                    assert(n <= first.1);
                    assert(first.1 == pre2.distances.dist_map()[a]);
                }
            }
        }
        p
    }
}

} // verus!
