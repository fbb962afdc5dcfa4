use vstd::prelude::*;

use crate::cell::Coord;
use crate::grid::Grid;

verus! {

/// A walk through passages: a non-empty coordinate sequence whose
/// consecutive entries are linked.
pub open spec fn is_link_path(g: Grid, p: Seq<Coord>) -> bool {
    &&& p.len() >= 1
    &&& forall|i: int| 0 <= i < p.len() - 1 ==> g.linked(#[trigger] p[i], p[i + 1])
}

/// Whether some walk through passages leads from `a` to `b`.
pub open spec fn reaches(g: Grid, a: Coord, b: Coord) -> bool {
    exists|p: Seq<Coord>| is_link_path(g, p) && p.first() == a && p.last() == b
}

/// Whether a walk of exactly `n` passages leads from `a` to `b`.
pub open spec fn reaches_in(g: Grid, a: Coord, b: Coord, n: int) -> bool {
    exists|p: Seq<Coord>|
        is_link_path(g, p) && p.first() == a && p.last() == b && p.len() == n + 1
}

/// Every cell reaches every other cell through passages: the link graph
/// is connected over the whole grid.
pub open spec fn fully_connected(g: Grid) -> bool {
    forall|a: Coord, b: Coord| g.valid(a) && g.valid(b) ==> reaches(g, a, b)
}

/// A perfect maze: the link graph is a spanning tree of the grid. It is
/// connected, and it has exactly rows x columns - 1 passages, each
/// recorded twice (once per endpoint).
pub open spec fn is_spanning_tree(g: Grid) -> bool {
    &&& fully_connected(g)
    &&& g.link_count() == 2 * (g.rows * g.columns - 1)
}

/// Every cell reaches itself.
pub proof fn lemma_reaches_refl(g: Grid, a: Coord)
    ensures
        reaches(g, a, a),
{
    let p = seq![a];
    assert(is_link_path(g, p) && p.first() == a && p.last() == a);
}

/// A walk can be extended along one more passage.
pub proof fn lemma_reaches_step(g: Grid, a: Coord, b: Coord, c: Coord)
    requires
        reaches(g, a, b),
        g.linked(b, c),
    ensures
        reaches(g, a, c),
{
    let p = choose|p: Seq<Coord>| is_link_path(g, p) && p.first() == a && p.last() == b;
    let q = p.push(c);
    assert forall|i: int| 0 <= i < q.len() - 1 implies g.linked(#[trigger] q[i], q[i + 1]) by {
        if i < p.len() - 1 {
            assert(q[i] == p[i] && q[i + 1] == p[i + 1]);
        } else {
            assert(q[i] == p[p.len() - 1] && q[i + 1] == c);
        }
    }
    assert(is_link_path(g, q) && q.first() == a && q.last() == c);
}

/// Walks compose.
pub proof fn lemma_reaches_trans(g: Grid, a: Coord, b: Coord, c: Coord)
    requires
        reaches(g, a, b),
        reaches(g, b, c),
    ensures
        reaches(g, a, c),
{
    let p = choose|p: Seq<Coord>| is_link_path(g, p) && p.first() == a && p.last() == b;
    let q = choose|q: Seq<Coord>| is_link_path(g, q) && q.first() == b && q.last() == c;
    let r = p + q.drop_first();
    if q.len() == 1 {
        assert(r =~= p);
        assert(is_link_path(g, r) && r.first() == a && r.last() == c);
    } else {
        assert(r.len() == p.len() + q.len() - 1);
        assert forall|i: int| 0 <= i < r.len() - 1 implies g.linked(#[trigger] r[i], r[i + 1]) by {
            if i < p.len() - 1 {
                assert(r[i] == p[i] && r[i + 1] == p[i + 1]);
            } else if i == p.len() - 1 {
                assert(r[i] == p.last());
                assert(r[i + 1] == q.drop_first()[0]);
                assert(q.drop_first()[0] == q[1]);
                assert(g.linked(q[0], q[1]));
            } else {
                assert(r[i] == q.drop_first()[i - p.len()]);
                assert(r[i + 1] == q.drop_first()[i + 1 - p.len()]);
                assert(r[i] == q[i - p.len() + 1]);
                assert(r[i + 1] == q[i - p.len() + 2]);
                assert(g.linked(q[i - p.len() + 1], q[i - p.len() + 2]));
            }
        }
        assert(r.last() == q.drop_first().last());
        assert(r.last() == c);
        assert(is_link_path(g, r) && r.first() == a && r.last() == c);
    }
}

/// In a well-formed grid, walks run backwards too, because passages are
/// symmetric.
pub proof fn lemma_reaches_sym(g: Grid, a: Coord, b: Coord)
    requires
        g.wf(),
        reaches(g, a, b),
    ensures
        reaches(g, b, a),
{
    let p = choose|p: Seq<Coord>| is_link_path(g, p) && p.first() == a && p.last() == b;
    let r = p.reverse();
    assert forall|i: int| 0 <= i < r.len() - 1 implies g.linked(#[trigger] r[i], r[i + 1]) by {
        let n = p.len();
        assert(r[i] == p[n - 1 - i]);
        assert(r[i + 1] == p[n - 2 - i]);
        assert(g.linked(p[n - 2 - i], p[n - 1 - i]));
    }
    assert(r.first() == b && r.last() == a);
    assert(is_link_path(g, r));
}

/// In a well-formed grid a walk runs backwards without changing its
/// length.
pub proof fn lemma_reaches_in_sym(g: Grid, a: Coord, b: Coord, n: int)
    requires
        g.wf(),
        reaches_in(g, a, b, n),
    ensures
        reaches_in(g, b, a, n),
{
    let p = choose|p: Seq<Coord>|
        is_link_path(g, p) && p.first() == a && p.last() == b && p.len() == n + 1;
    let r = p.reverse();
    assert forall|i: int| 0 <= i < r.len() - 1 implies g.linked(#[trigger] r[i], r[i + 1]) by {
        let m = p.len();
        assert(r[i] == p[m - 1 - i]);
        assert(r[i + 1] == p[m - 2 - i]);
        assert(g.linked(p[m - 2 - i], p[m - 1 - i]));
    }
    assert(r.first() == b && r.last() == a && r.len() == n + 1);
    assert(is_link_path(g, r));
}

/// A grid with more passages lets every walk of the old grid through.
pub proof fn lemma_reaches_monotone(g1: Grid, g2: Grid, a: Coord, b: Coord)
    requires
        forall|x: Coord, y: Coord| #[trigger] g1.linked(x, y) ==> g2.linked(x, y),
        reaches(g1, a, b),
    ensures
        reaches(g2, a, b),
{
    let p = choose|p: Seq<Coord>| is_link_path(g1, p) && p.first() == a && p.last() == b;
    assert forall|i: int| 0 <= i < p.len() - 1 implies g2.linked(#[trigger] p[i], p[i + 1]) by {
        assert(g1.linked(p[i], p[i + 1]));
    }
    assert(is_link_path(g2, p) && p.first() == a && p.last() == b);
}

/// Any set of coordinates that contains `a` and is closed under passages
/// contains everything `a` reaches.
pub proof fn lemma_closed_under_links(g: Grid, s: Set<Coord>, a: Coord, b: Coord)
    requires
        forall|x: Coord, y: Coord| s.contains(x) && #[trigger] g.linked(x, y) ==> s.contains(y),
        s.contains(a),
        reaches(g, a, b),
    ensures
        s.contains(b),
{
    let p = choose|p: Seq<Coord>| is_link_path(g, p) && p.first() == a && p.last() == b;
    lemma_path_in_closed(g, s, p);
}

proof fn lemma_path_in_closed(g: Grid, s: Set<Coord>, p: Seq<Coord>)
    requires
        forall|x: Coord, y: Coord| s.contains(x) && #[trigger] g.linked(x, y) ==> s.contains(y),
        is_link_path(g, p),
        s.contains(p.first()),
    ensures
        s.contains(p.last()),
    decreases p.len(),
{
    if p.len() > 1 {
        assert(g.linked(p[0], p[1]));
        let q = p.drop_first();
        assert forall|i: int| 0 <= i < q.len() - 1 implies g.linked(#[trigger] q[i], q[i + 1]) by {
            assert(q[i] == p[i + 1] && q[i + 1] == p[i + 2]);
            assert(g.linked(p[i + 1], p[i + 2]));
        }
        assert(is_link_path(g, q));
        assert(s.contains(q.first()));
        lemma_path_in_closed(g, s, q);
        assert(q.last() == p.last());
    }
}

/// Any set of coordinates that contains some valid cell and is closed
/// under structural adjacency contains every valid cell: the structural
/// grid graph is connected.
pub proof fn lemma_closed_under_adjacency(g: Grid, s: Set<Coord>, a: Coord, b: Coord)
    requires
        forall|x: Coord, y: Coord|
            s.contains(x) && #[trigger] g.is_neighbor(x, y) ==> s.contains(y),
        s.contains(a),
        g.valid(a),
        g.valid(b),
    ensures
        s.contains(b),
    decreases
            (if a.0 <= b.0 {
                b.0 - a.0
            } else {
                a.0 - b.0
            }) + (if a.1 <= b.1 {
                b.1 - a.1
            } else {
                a.1 - b.1
            }),
{
    if a == b {
    } else if a.0 < b.0 {
        let n = Coord((a.0 + 1) as usize, a.1);
        assert(g.is_neighbor(a, n));
        lemma_closed_under_adjacency(g, s, n, b);
    } else if a.0 > b.0 {
        let n = Coord((a.0 - 1) as usize, a.1);
        assert(g.is_neighbor(a, n));
        lemma_closed_under_adjacency(g, s, n, b);
    } else if a.1 < b.1 {
        let n = Coord(a.0, (a.1 + 1) as usize);
        assert(g.is_neighbor(a, n));
        lemma_closed_under_adjacency(g, s, n, b);
    } else {
        let n = Coord(a.0, (a.1 - 1) as usize);
        assert(g.is_neighbor(a, n));
        lemma_closed_under_adjacency(g, s, n, b);
    }
}

/// Once one cell reaches every cell of a well-formed grid, every cell
/// reaches every other: breadth-first search from any root covers the
/// whole grid.
pub proof fn lemma_reaches_all_pairs(g: Grid, root: Coord)
    requires
        g.wf(),
        forall|c: Coord| g.valid(c) ==> reaches(g, root, c),
    ensures
        fully_connected(g),
{
    assert forall|a: Coord, b: Coord| g.valid(a) && g.valid(b) implies reaches(g, a, b) by {
        assert(reaches(g, root, a));
        assert(reaches(g, root, b));
        lemma_reaches_sym(g, root, a);
        lemma_reaches_trans(g, a, root, b);
    }
}

/// The set of all valid coordinates of a grid.
pub open spec fn all_coords(g: Grid) -> Set<Coord> {
    Set::new(|x: Coord| g.valid(x))
}

/// The cells already woven into the maze: those carrying at least one
/// passage, together with the starting cell of the run. Growing only with
/// the link state, it needs no separate bookkeeping.
pub open spec fn visited_set(g: Grid, start: Coord) -> Set<Coord> {
    Set::new(|x: Coord| g.valid(x) && (g.cell_spec(x).links@.len() > 0 || x == start))
}

/// The valid coordinates strictly before row `r`, plus those of row `r`
/// strictly before column `k`, for a grid `columns` wide.
spec fn coords_part(columns: int, r: int, k: int) -> Set<Coord> {
    Set::new(
        |x: Coord| (x.1 as int) < columns && ((x.0 as int) < r || ((x.0 as int) == r && (x.1 as int) < k)),
    )
}

proof fn lemma_coords_part_card(columns: int, r: int, k: int)
    requires
        0 <= columns <= usize::MAX,
        0 <= r <= usize::MAX,
        0 <= k <= columns,
    ensures
        coords_part(columns, r, k).finite(),
        coords_part(columns, r, k).len() == r * columns + k,
    decreases r, k,
{
    broadcast use vstd::set::group_set_axioms;

    if k > 0 {
        lemma_coords_part_card(columns, r, k - 1);
        let c = Coord(r as usize, (k - 1) as usize);
        assert(!coords_part(columns, r, k - 1).contains(c));
        assert(coords_part(columns, r, k) =~= coords_part(columns, r, k - 1).insert(c));
        assert(coords_part(columns, r, k).len() == coords_part(columns, r, k - 1).len() + 1);
        assert(coords_part(columns, r, k).len() == r * columns + k);
    } else if r > 0 {
        lemma_coords_part_card(columns, r - 1, columns);
        assert(coords_part(columns, r, 0) =~= coords_part(columns, r - 1, columns));
        assert((r - 1) * columns + columns == r * columns) by (nonlinear_arith);
        assert(coords_part(columns, r, k).len() == r * columns + k);
    } else {
        assert(coords_part(columns, r, k) =~= Set::<Coord>::empty());
        assert(Set::<Coord>::empty().len() == 0);
        assert(Set::<Coord>::empty().finite());
        assert(r * columns + k == 0) by (nonlinear_arith)
            requires
                r == 0,
                k == 0,
        ;
        assert(coords_part(columns, r, k).len() == r * columns + k);
    }
}

/// A grid of a well-formed extent has exactly rows x columns cells.
pub proof fn lemma_all_coords_card(g: Grid)
    requires
        g.wf(),
    ensures
        all_coords(g).finite(),
        all_coords(g).len() == g.rows * g.columns,
{
    assert(all_coords(g) =~= coords_part(g.columns as int, g.rows as int, 0));
    lemma_coords_part_card(g.columns as int, g.rows as int, 0);
}

/// A set of valid coordinates as large as the grid holds every valid
/// coordinate.
pub proof fn lemma_full_subset_is_all(g: Grid, s: Set<Coord>)
    requires
        g.wf(),
        forall|c: Coord| s.contains(c) ==> g.valid(c),
        s.finite(),
        s.len() >= g.rows * g.columns,
    ensures
        forall|c: Coord| g.valid(c) ==> s.contains(c),
{
    lemma_all_coords_card(g);
    assert(s.subset_of(all_coords(g)));
    vstd::set_lib::lemma_len_subset(s, all_coords(g));
    vstd::set_lib::lemma_subset_equality(s, all_coords(g));
    assert forall|c: Coord| g.valid(c) implies s.contains(c) by {
        assert(all_coords(g).contains(c));
    }
}

/// A grid holding two different valid coordinates has at least two
/// cells.
pub proof fn lemma_two_cells(g: Grid, a: Coord, b: Coord)
    requires
        g.wf(),
        g.valid(a),
        g.valid(b),
        a != b,
    ensures
        g.rows * g.columns >= 2,
{
    broadcast use vstd::set::group_set_axioms;

    lemma_all_coords_card(g);
    let s2 = Set::<Coord>::empty().insert(a).insert(b);
    assert(s2.subset_of(all_coords(g)));
    vstd::set_lib::lemma_len_subset(s2, all_coords(g));
    assert(s2.len() == 2);
}

/// A duplicate-free sequence of valid coordinates is no longer than the
/// number of cells.
pub proof fn lemma_distinct_valid_coords(g: Grid, s: Seq<Coord>)
    requires
        g.wf(),
        forall|p: int, q: int| 0 <= p < q < s.len() ==> s[p] != s[q],
        forall|i: int| 0 <= i < s.len() ==> g.valid(#[trigger] s[i]),
    ensures
        s.len() <= g.rows * g.columns,
{
    broadcast use vstd::set::group_set_axioms;

    lemma_all_coords_card(g);
    assert(s.no_duplicates()) by {
        assert forall|i: int, j: int|
            0 <= i < s.len() && 0 <= j < s.len() && i != j implies s[i] != s[j] by {
            if i < j {
            } else {
                assert(s[j] != s[i]);
            }
        }
    }
    s.unique_seq_to_set();
    assert forall|c: Coord| s.to_set().contains(c) implies all_coords(g).contains(c) by {
        let k = choose|k: int| 0 <= k < s.len() && s[k] == c;
        assert(g.valid(s[k]));
    }
    vstd::set_lib::lemma_len_subset(s.to_set(), all_coords(g));
}

/// Passage symmetry: one cell links another exactly when that other cell
/// links it back, in every well-formed grid and so at every point of
/// every generation run.
pub proof fn lemma_links_symmetric(g: Grid, a: Coord, b: Coord)
    requires
        g.wf(),
    ensures
        g.linked(a, b) <==> g.linked(b, a),
{
}

/// A visited set stays within the grid and is finite.
pub proof fn lemma_visited_finite(g: Grid, start: Coord)
    requires
        g.wf(),
    ensures
        visited_set(g, start).finite(),
        visited_set(g, start).len() <= g.rows * g.columns,
        g.valid(start) ==> visited_set(g, start).len() >= 1,
{
    lemma_all_coords_card(g);
    assert(visited_set(g, start).subset_of(all_coords(g)));
    vstd::set_lib::lemma_len_subset(visited_set(g, start), all_coords(g));
    if g.valid(start) {
        assert(visited_set(g, start).contains(start));
        assert(Set::<Coord>::empty().insert(start).subset_of(visited_set(g, start)));
        vstd::set_lib::lemma_len_subset(
            Set::<Coord>::empty().insert(start),
            visited_set(g, start),
        );
    }
}

/// In a configured grid, each entry of a cell's neighbour vector is a
/// structural neighbour of that cell.
pub proof fn lemma_neighbour_seq_valid(g: Grid, c: Coord)
    requires
        g.wf(),
        g.configured(),
        g.valid(c),
    ensures
        forall|i: int|
            0 <= i < g.cell_spec(c).neighbour_seq().len() ==> g.is_neighbor(
                c,
                #[trigger] g.cell_spec(c).neighbour_seq()[i],
            ),
        g.rows * g.columns >= 2 ==> g.cell_spec(c).neighbour_seq().len() >= 1,
{
    let cell = g.cell_spec(c);
    let s = cell.neighbour_seq();
    assert forall|i: int| 0 <= i < s.len() implies g.is_neighbor(c, #[trigger] s[i]) by {
        let n = s[i];
        assert(cell.north is Some && n == cell.north->0 || cell.east is Some && n == cell.east->0
            || cell.west is Some && n == cell.west->0 || cell.south is Some && n
            == cell.south->0);
    }
    if g.rows * g.columns >= 2 {
        if g.rows >= 2 {
            assert(cell.north is Some || cell.south is Some);
        } else {
            assert(g.columns >= 2) by (nonlinear_arith)
                requires
                    g.rows == 1,
                    g.rows * g.columns >= 2,
            ;
            assert(cell.east is Some || cell.west is Some);
        }
    }
}

/// The second grid's passages are exactly the first grid's plus the
/// symmetric pair `a`-`b`: what `Grid::link_pair` leaves behind.
pub open spec fn linked_iff_with(pre: Grid, post: Grid, a: Coord, b: Coord) -> bool {
    forall|p: Coord, q: Coord|
        #[trigger] post.linked(p, q) <==> (pre.linked(p, q) || (p == a && q == b) || (p == b && q
            == a))
}

/// A cell not an endpoint of a newly opened passage keeps an empty link
/// set.
pub proof fn lemma_unlinked_cell_stays_empty(pre: Grid, post: Grid, a: Coord, b: Coord, x: Coord)
    requires
        forall|p: Coord, q: Coord|
            #[trigger] post.linked(p, q) <==> (pre.linked(p, q) || (p == a && q == b) || (p == b
                && q == a)),
        post.valid(x),
        pre.valid(x),
        x != a,
        x != b,
        pre.cell_spec(x).links@.len() == 0,
    ensures
        post.cell_spec(x).links@.len() == 0,
{
    if post.cell_spec(x).links@.len() > 0 {
        let y = post.cell_spec(x).links@[0];
        assert(post.cell_spec(x).links@.contains(y));
        assert(post.linked(x, y));
        assert(!pre.linked(x, y));
        assert(false);
    }
}

/// A row segment whose consecutive cells are all linked forms a corridor:
/// its west end reaches its east end.
pub proof fn lemma_east_chain(g: Grid, row: usize, lo: int, hi: int)
    requires
        0 <= lo <= hi <= usize::MAX,
        forall|j: int|
            lo <= j < hi ==> #[trigger] g.linked(
                Coord(row, j as usize),
                Coord(row, (j + 1) as usize),
            ),
    ensures
        reaches(g, Coord(row, lo as usize), Coord(row, hi as usize)),
    decreases hi - lo,
{
    if lo == hi {
        lemma_reaches_refl(g, Coord(row, lo as usize));
    } else {
        lemma_east_chain(g, row, lo, hi - 1);
        let jm = hi - 1;
        assert(g.linked(Coord(row, jm as usize), Coord(row, (jm + 1) as usize)));
        assert((jm + 1) as usize == hi as usize);
        lemma_reaches_step(
            g,
            Coord(row, lo as usize),
            Coord(row, jm as usize),
            Coord(row, hi as usize),
        );
    }
}

/// In a configured grid, a cell's neighbour vector lists every structural
/// neighbour it has.
pub proof fn lemma_neighbour_seq_complete(g: Grid, c: Coord, y: Coord)
    requires
        g.wf(),
        g.configured(),
        g.valid(c),
        g.is_neighbor(c, y),
    ensures
        g.cell_spec(c).neighbour_seq().contains(y),
{
    let cell = g.cell_spec(c);
    let s = cell.neighbour_seq();
    let ln = crate::cell::opt_seq(cell.north).len() as int;
    let le = crate::cell::opt_seq(cell.east).len() as int;
    let lw = crate::cell::opt_seq(cell.west).len() as int;
    if y.0 + 1 == c.0 && y.1 == c.1 {
        assert(cell.north == Some(y));
        assert(s[0] == y);
    } else if c.0 + 1 == y.0 && y.1 == c.1 {
        assert(cell.south == Some(y));
        assert(s[ln + le + lw] == y);
    } else if c.1 + 1 == y.1 && y.0 == c.0 {
        assert(cell.east == Some(y));
        assert(s[ln] == y);
    } else {
        assert(y.1 + 1 == c.1 && y.0 == c.0);
        assert(cell.west == Some(y));
        assert(s[ln + le] == y);
    }
}

/// Opening one passage from a visited cell to an unvisited one extends
/// the visited set by exactly that cell, keeps every visited cell
/// reachable from the start, and adds two link records.
pub proof fn lemma_extend_component(g1: Grid, g2: Grid, start: Coord, cur: Coord, n: Coord)
    requires
        g1.wf(),
        g2.wf(),
        g1.valid(start),
        visited_set(g1, start).contains(cur),
        g1.valid(n),
        n != cur,
        !visited_set(g1, start).contains(n),
        forall|c: Coord| visited_set(g1, start).contains(c) ==> reaches(g1, start, c),
        forall|x: Coord, y: Coord|
            #[trigger] g2.linked(x, y) <==> (g1.linked(x, y) || (x == cur && y == n) || (x == n && y
                == cur)),
        g2.rows == g1.rows,
        g2.columns == g1.columns,
    ensures
        visited_set(g2, start) =~= visited_set(g1, start).insert(n),
        visited_set(g2, start).len() == visited_set(g1, start).len() + 1,
        forall|c: Coord| visited_set(g2, start).contains(c) ==> reaches(g2, start, c),
{
    broadcast use vstd::set::group_set_axioms;

    lemma_visited_finite(g1, start);
    assert(g2.linked(cur, n) && g2.linked(n, cur));
    assert(g2.cell_spec(n).links@.len() > 0) by {
        assert(g2.cell_spec(n).links@.contains(cur));
    }
    assert(g2.cell_spec(cur).links@.len() > 0) by {
        assert(g2.cell_spec(cur).links@.contains(n));
    }
    assert forall|c: Coord|
        g1.valid(c) && c != cur && c != n implies ((#[trigger] g2.cell_spec(c)).links@.len() > 0
        <==> g1.cell_spec(c).links@.len() > 0) by {
        if g2.cell_spec(c).links@.len() > 0 {
            let y = g2.cell_spec(c).links@[0];
            assert(g2.cell_spec(c).links@.contains(y));
            assert(g2.linked(c, y));
            assert(g1.linked(c, y));
            assert(g1.cell_spec(c).links@.contains(y));
        }
        if g1.cell_spec(c).links@.len() > 0 {
            let y = g1.cell_spec(c).links@[0];
            assert(g1.cell_spec(c).links@.contains(y));
            assert(g1.linked(c, y));
            assert(g2.linked(c, y));
            assert(g2.cell_spec(c).links@.contains(y));
        }
    }
    assert(visited_set(g2, start) =~= visited_set(g1, start).insert(n));
    assert(visited_set(g2, start).len() == visited_set(g1, start).len() + 1);
    assert forall|c: Coord| visited_set(g2, start).contains(c) implies reaches(g2, start, c) by {
        if c == n {
            assert(reaches(g1, start, cur));
            lemma_reaches_monotone(g1, g2, start, cur);
            assert(g2.linked(cur, n));
            lemma_reaches_step(g2, start, cur, n);
        } else {
            assert(visited_set(g1, start).contains(c));
            assert(reaches(g1, start, c));
            lemma_reaches_monotone(g1, g2, start, c);
        }
    }
}

/// A cell other than the start of a run that the start reaches leaves the
/// start with at least one passage.
pub proof fn lemma_reached_start_has_links(g: Grid, start: Coord, c: Coord)
    requires
        reaches(g, start, c),
        c != start,
    ensures
        g.cell_spec(start).links@.len() > 0,
{
    let p = choose|p: Seq<Coord>| is_link_path(g, p) && p.first() == start && p.last() == c;
    assert(p.len() >= 2);
    assert(g.linked(p[0], p[1]));
    assert(g.cell_spec(start).links@.contains(p[1]));
}

} // verus!
