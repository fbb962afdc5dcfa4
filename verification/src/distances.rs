use vstd::prelude::*;

use crate::cell::Coord;
use crate::MazeError;

verus! {

/// The record of a breadth-first search: a root coordinate and, for every
/// coordinate reached from it through passages, its distance from the root.
/// The records are kept in insertion order with no repeated coordinate, and
/// are read through the map view `dist_map`.
#[derive(Debug, Clone)]
pub struct Distances {
    pub root: Coord,
    pub cells: Vec<(Coord, usize)>,
}

/// The mapping that a sequence of records denotes: later records override
/// earlier ones (none do once the keys are distinct).
pub open spec fn map_of(s: Seq<(Coord, usize)>) -> Map<Coord, usize>
    decreases s.len(),
{
    if s.len() == 0 {
        Map::empty()
    } else {
        map_of(s.drop_last()).insert(s.last().0, s.last().1)
    }
}

/// A coordinate stands in the mapping exactly when some record carries it.
pub proof fn lemma_map_of_contains(s: Seq<(Coord, usize)>, c: Coord)
    ensures
        map_of(s).contains_key(c) <==> exists|i: int| 0 <= i < s.len() && s[i].0 == c,
    decreases s.len(),
{
    if s.len() > 0 {
        lemma_map_of_contains(s.drop_last(), c);
        if map_of(s).contains_key(c) {
            if s.last().0 == c {
                assert(s[s.len() - 1].0 == c);
            } else {
                let i = choose|i: int| 0 <= i < s.drop_last().len() && s.drop_last()[i].0 == c;
                assert(s[i].0 == c);
            }
        }
        if exists|i: int| 0 <= i < s.len() && s[i].0 == c {
            let i = choose|i: int| 0 <= i < s.len() && s[i].0 == c;
            if i < s.len() - 1 {
                assert(s.drop_last()[i].0 == c);
            }
        }
    }
}

/// With distinct keys, the mapping returns each record's own distance.
pub proof fn lemma_map_of_index(s: Seq<(Coord, usize)>, i: int)
    requires
        0 <= i < s.len(),
        forall|p: int, q: int| 0 <= p < q < s.len() ==> s[p].0 != s[q].0,
    ensures
        map_of(s).contains_key(s[i].0),
        map_of(s)[s[i].0] == s[i].1,
    decreases s.len(),
{
    lemma_map_of_contains(s, s[i].0);
    if i < s.len() - 1 {
        assert(s[i].0 != s.last().0);
        lemma_map_of_index(s.drop_last(), i);
    }
}

impl Distances {
    /// The distance mapping this value denotes.
    pub open spec fn dist_map(self) -> Map<Coord, usize> {
        map_of(self.cells@)
    }

    /// No coordinate is recorded twice.
    pub open spec fn keys_no_dup(self) -> bool {
        forall|p: int, q: int|
            0 <= p < q < self.cells@.len() ==> self.cells@[p].0 != self.cells@[q].0
    }

    /// The field freshly rooted at `root`: the single record `root -> 0`.
    pub open spec fn is_trivial_at(self, root: Coord) -> bool {
        self.root == root && self.cells@ == seq![(root, 0usize)]
    }

    /// A well-formed field: distinct records, and the root recorded.
    pub open spec fn wf(self) -> bool {
        &&& self.keys_no_dup()
        &&& self.dist_map().contains_key(self.root)
    }

    pub fn initialize(root: Coord) -> (d: Distances)
        ensures
            d.root == root,
            d.cells@ == seq![(root, 0usize)],
            d.dist_map() == Map::<Coord, usize>::empty().insert(root, 0),
            d.dist_map().contains_key(root),
            d.dist_map()[root] == 0,
            d.wf(),
            d.is_trivial_at(root),
    {
        let mut cells: Vec<(Coord, usize)> = Vec::new();
        cells.push((root, 0));
        let d = Distances { root, cells };
        proof {
            assert(d.cells@ =~= seq![(root, 0usize)]);
            assert(d.cells@.len() == 1);
            assert(d.cells@.last() == (root, 0usize));
            assert(d.cells@.drop_last() =~= Seq::<(Coord, usize)>::empty());
            assert(d.cells@.drop_last().len() == 0);
            assert(map_of(d.cells@.drop_last()) == Map::<Coord, usize>::empty());
            assert(d.dist_map() =~= Map::<Coord, usize>::empty().insert(root, 0));
        }
        d
    }

    /// Whether `cell_coord` was reached.
    pub fn has_cell(&self, cell_coord: &Coord) -> (r: bool)
        ensures
            r == self.dist_map().contains_key(*cell_coord),
    {
        proof {
            lemma_map_of_contains(self.cells@, *cell_coord);
        }
        let mut i: usize = 0;
        while i < self.cells.len()
            invariant
                i <= self.cells@.len(),
                forall|k: int| 0 <= k < i ==> self.cells@[k].0 != *cell_coord,
            decreases self.cells@.len() - i,
        {
            if self.cells[i].0 == *cell_coord {
                return true;
            }
            i += 1;
        }
        false
    }

    /// The recorded distance of `cell_coord`, or `CoordNotReached` when
    /// breadth-first search never reached it.
    pub fn get_cell_distance(&self, cell_coord: &Coord) -> (r: Result<usize, MazeError>)
        requires
            self.keys_no_dup(),
        ensures
            self.dist_map().contains_key(*cell_coord) ==> r == Ok::<usize, MazeError>(
                self.dist_map()[*cell_coord],
            ),
            !self.dist_map().contains_key(*cell_coord) ==> r == Err::<usize, MazeError>(
                MazeError::CoordNotReached,
            ),
    {
        proof {
            lemma_map_of_contains(self.cells@, *cell_coord);
        }
        let mut i: usize = 0;
        while i < self.cells.len()
            invariant
                i <= self.cells@.len(),
                forall|k: int| 0 <= k < i ==> self.cells@[k].0 != *cell_coord,
            decreases self.cells@.len() - i,
        {
            if self.cells[i].0 == *cell_coord {
                proof {
                    lemma_map_of_index(self.cells@, i as int);
                }
                return Ok(self.cells[i].1);
            }
            i += 1;
        }
        Err(MazeError::CoordNotReached)
    }

    /// Record `distance` for `cell_coord`, overriding any earlier record.
    pub fn set_cell_distance(&mut self, cell_coord: Coord, distance: usize)
        requires
            old(self).keys_no_dup(),
        ensures
            final(self).root == old(self).root,
            final(self).keys_no_dup(),
            final(self).dist_map() == old(self).dist_map().insert(cell_coord, distance),
            old(self).dist_map().contains_key(cell_coord) ==> final(self).cells@.len() == old(
                self,
            ).cells@.len(),
            !old(self).dist_map().contains_key(cell_coord) ==> final(self).cells@ == old(
                self,
            ).cells@.push((cell_coord, distance)),
    {
        proof {
            lemma_map_of_contains(self.cells@, cell_coord);
        }
        let ghost old_cells = self.cells@;
        let mut i: usize = 0;
        while i < self.cells.len()
            invariant
                i <= self.cells@.len(),
                self.cells@ == old_cells,
                self.root == old(self).root,
                forall|k: int| 0 <= k < i ==> self.cells@[k].0 != cell_coord,
            decreases self.cells@.len() - i,
        {
            if self.cells[i].0 == cell_coord {
                self.cells.set(i, (cell_coord, distance));
                proof {
                    lemma_map_of_update(old_cells, i as int, distance);
                }
                return;
            }
            i += 1;
        }
        self.cells.push((cell_coord, distance));
        proof {
            assert(self.cells@.drop_last() =~= old_cells);
        }
    }

    /// The reached coordinates, in the order they were recorded.
    pub fn get_cells(&self) -> (r: Vec<Coord>)
        ensures
            r@.len() == self.cells@.len(),
            forall|i: int| 0 <= i < r@.len() ==> r@[i] == self.cells@[i].0,
    {
        let mut out: Vec<Coord> = Vec::new();
        let mut i: usize = 0;
        while i < self.cells.len()
            invariant
                i <= self.cells@.len(),
                out@.len() == i,
                forall|k: int| 0 <= k < i ==> out@[k] == self.cells@[k].0,
            decreases self.cells@.len() - i,
        {
            out.push(self.cells[i].0);
            i += 1;
        }
        out
    }

    /// A coordinate carrying the greatest recorded distance, and that
    /// distance; the root when every record is zero. Ties fall to the
    /// earliest record.
    pub fn max(&self) -> (r: (Coord, usize))
        requires
            self.wf(),
        ensures
            self.dist_map().contains_key(r.0),
            self.dist_map()[r.0] == r.1,
            forall|c: Coord| self.dist_map().contains_key(c) ==> self.dist_map()[c] <= r.1,
            r.1 == 0 ==> r.0 == self.root,
            r.1 > 0 ==> exists|i: int|
                0 <= i < self.cells@.len() && self.cells@[i] == r && (forall|k: int|
                    0 <= k < i ==> (#[trigger] self.cells@[k]).1 < r.1),
    {
        let mut best: (Coord, usize) = (self.root, 0);
        proof {
            lemma_map_of_contains(self.cells@, self.root);
            let j = choose|j: int| 0 <= j < self.cells@.len() && self.cells@[j].0 == self.root;
            lemma_map_of_index(self.cells@, j);
        }
        let ghost root_dist = self.dist_map()[self.root];
        let ghost mut best_idx: int = 0;
        let mut i: usize = 0;
        while i < self.cells.len()
            invariant
                i <= self.cells@.len(),
                self.dist_map().contains_key(best.0),
                best.1 == 0 || self.dist_map()[best.0] == best.1,
                self.dist_map()[best.0] >= best.1 || best.1 == 0,
                forall|k: int| 0 <= k < i ==> self.cells@[k].1 <= best.1,
                best.1 == 0 ==> best.0 == self.root,
                best.1 > 0 ==> 0 <= best_idx < i && self.cells@[best_idx] == best && (forall|k: int|
                    0 <= k < best_idx ==> (#[trigger] self.cells@[k]).1 < best.1),
            decreases self.cells@.len() - i,
        {
            if self.cells[i].1 > best.1 {
                best = (self.cells[i].0, self.cells[i].1);
                proof {
                    lemma_map_of_index(self.cells@, i as int);
                    best_idx = i as int;
                }
            }
            i += 1;
        }
        proof {
            if best.1 == 0 {
                assert forall|c: Coord| self.dist_map().contains_key(c) implies self.dist_map()[c]
                    <= best.1 by {
                    lemma_map_of_contains(self.cells@, c);
                    let k = choose|k: int| 0 <= k < self.cells@.len() && self.cells@[k].0 == c;
                    lemma_map_of_index(self.cells@, k);
                }
                assert(self.dist_map()[best.0] <= best.1);
                assert(self.dist_map()[best.0] == best.1);
            } else {
                assert forall|c: Coord| self.dist_map().contains_key(c) implies self.dist_map()[c]
                    <= best.1 by {
                    lemma_map_of_contains(self.cells@, c);
                    let k = choose|k: int| 0 <= k < self.cells@.len() && self.cells@[k].0 == c;
                    lemma_map_of_index(self.cells@, k);
                }
            }
        }
        best
    }
}

/// Overriding one record in place updates the mapping at that key alone.
pub proof fn lemma_map_of_update(s: Seq<(Coord, usize)>, i: int, d: usize)
    requires
        0 <= i < s.len(),
        forall|p: int, q: int| 0 <= p < q < s.len() ==> s[p].0 != s[q].0,
    ensures
        map_of(s.update(i, (s[i].0, d))) == map_of(s).insert(s[i].0, d),
    decreases s.len(),
{
    let t = s.update(i, (s[i].0, d));
    if i == s.len() - 1 {
        assert(t.drop_last() =~= s.drop_last());
        assert(map_of(t) =~= map_of(s).insert(s[i].0, d));
    } else {
        assert(t.drop_last() =~= s.drop_last().update(i, (s[i].0, d)));
        lemma_map_of_update(s.drop_last(), i, d);
        assert(s[i].0 != s.last().0);
        assert(map_of(t) =~= map_of(s).insert(s[i].0, d));
    }
}

} // verus!
