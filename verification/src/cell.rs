use vstd::prelude::*;

verus! {

/// A grid position: row, then column. Used as the identity of a cell and
/// as the key of every link and distance record.
#[derive(Debug, Clone, Copy, PartialEq, Eq, Hash, Structural)]
pub struct Coord(pub usize, pub usize);

impl Coord {
    pub fn from(row: usize, column: usize) -> (c: Coord)
        ensures
            c == (Coord(row, column)),
    {
        Coord(row, column)
    }

    pub fn row(&self) -> (r: usize)
        ensures
            r == self.0,
    {
        self.0
    }

    pub fn column(&self) -> (r: usize)
        ensures
            r == self.1,
    {
        self.1
    }
}

/// One cell of the grid: its own position, the four fixed structural
/// neighbour slots (absent at the grid boundary), and the mutable set of
/// linked neighbours, kept as a duplicate-free vector of coordinates.
#[derive(Debug, Clone)]
pub struct GridCell {
    pub row: usize,
    pub column: usize,
    pub north: Option<Coord>,
    pub south: Option<Coord>,
    pub east: Option<Coord>,
    pub west: Option<Coord>,
    pub links: Vec<Coord>,
}

impl GridCell {
    /// The links of this cell, as a set of coordinates.
    pub open spec fn link_set(self) -> Set<Coord> {
        self.links@.to_set()
    }

    /// The link vector holds each coordinate at most once.
    pub open spec fn links_no_dup(self) -> bool {
        forall|i: int, j: int|
            0 <= i < j < self.links@.len() ==> self.links@[i] != self.links@[j]
    }

    /// The structural neighbour slots, in the fixed scan order
    /// north, east, west, south, skipping absent ones.
    pub open spec fn neighbour_seq(self) -> Seq<Coord> {
        opt_seq(self.north) + opt_seq(self.east) + opt_seq(self.west) + opt_seq(self.south)
    }

    /// Everything about the cell except its links.
    pub open spec fn same_structure(self, other: GridCell) -> bool {
        &&& self.row == other.row
        &&& self.column == other.column
        &&& self.north == other.north
        &&& self.south == other.south
        &&& self.east == other.east
        &&& self.west == other.west
    }

    pub fn init(row: usize, column: usize) -> (c: GridCell)
        ensures
            c.row == row,
            c.column == column,
            c.north is None,
            c.south is None,
            c.east is None,
            c.west is None,
            c.links@.len() == 0,
            c.links_no_dup(),
    {
        GridCell {
            row,
            column,
            north: None,
            south: None,
            east: None,
            west: None,
            links: Vec::new(),
        }
    }

    /// Whether this cell records a passage to the given coordinate.
    pub fn is_linked(&self, coord: &Coord) -> (r: bool)
        ensures
            r == self.links@.contains(*coord),
    {
        let mut i: usize = 0;
        while i < self.links.len()
            invariant
                i <= self.links@.len(),
                forall|k: int| 0 <= k < i ==> self.links@[k] != *coord,
            decreases self.links@.len() - i,
        {
            if self.links[i] == *coord {
                return true;
            }
            i += 1;
        }
        false
    }

    /// Record a passage to `coord` on this cell alone; a no-op when the
    /// passage is already present.
    pub fn insert_link(&mut self, coord: Coord)
        ensures
            final(self).same_structure(*old(self)),
            final(self).links@ == if old(self).links@.contains(coord) {
                old(self).links@
            } else {
                old(self).links@.push(coord)
            },
            final(self).link_set() == old(self).link_set().insert(coord),
            old(self).links_no_dup() ==> final(self).links_no_dup(),
    {
        let already = self.is_linked(&coord);
        if !already {
            self.links.push(coord);
        }
        proof {
            if already {
                assert(old(self).link_set().contains(coord));
                assert(self.link_set() =~= old(self).link_set().insert(coord));
            } else {
                assert(self.links@ == old(self).links@.push(coord));
                old(self).links@.lemma_push_to_set_commute(coord);
                assert(self.link_set() =~= old(self).link_set().insert(coord));
            }
        }
    }

    /// Remove any passage record to `coord` from this cell alone.
    pub fn remove_link(&mut self, coord: Coord)
        requires
            old(self).links_no_dup(),
        ensures
            final(self).same_structure(*old(self)),
            final(self).links_no_dup(),
            final(self).link_set() == old(self).link_set().remove(coord),
            !final(self).links@.contains(coord),
    {
        let ghost old_links = self.links@;
        let mut i: usize = 0;
        while i < self.links.len()
            invariant
                i <= self.links@.len(),
                self.links@ == old_links,
                self.same_structure(*old(self)),
                forall|k: int| 0 <= k < i ==> self.links@[k] != coord,
            decreases self.links@.len() - i,
        {
            if self.links[i] == coord {
                self.links.remove(i);
                proof {
                    assert(old_links[i as int] == coord);
                    lemma_remove_unique(old_links, i as int, coord);
                    assert(self.link_set() =~= old(self).link_set().remove(coord));
                }
                return;
            }
            i += 1;
        }
        proof {
            assert(!old_links.contains(coord));
            assert(self.link_set() =~= old(self).link_set().remove(coord));
        }
    }

    /// Symmetrically link two cells: each records the other's coordinate.
    pub fn link(left: &mut GridCell, right: &mut GridCell)
        ensures
            final(left).same_structure(*old(left)),
            final(right).same_structure(*old(right)),
            final(left).link_set() == old(left).link_set().insert(
                Coord(old(right).row, old(right).column),
            ),
            final(right).link_set() == old(right).link_set().insert(
                Coord(old(left).row, old(left).column),
            ),
            old(left).links_no_dup() ==> final(left).links_no_dup(),
            old(right).links_no_dup() ==> final(right).links_no_dup(),
    {
        let right_coord = Coord(right.row, right.column);
        let left_coord = Coord(left.row, left.column);
        left.insert_link(right_coord);
        right.insert_link(left_coord);
    }

    /// Symmetrically unlink two cells: each drops the other's coordinate.
    pub fn unlink(left: &mut GridCell, right: &mut GridCell)
        requires
            old(left).links_no_dup(),
            old(right).links_no_dup(),
        ensures
            final(left).same_structure(*old(left)),
            final(right).same_structure(*old(right)),
            final(left).links_no_dup(),
            final(right).links_no_dup(),
            final(left).link_set() == old(left).link_set().remove(
                Coord(old(right).row, old(right).column),
            ),
            final(right).link_set() == old(right).link_set().remove(
                Coord(old(left).row, old(left).column),
            ),
    {
        let right_coord = Coord(right.row, right.column);
        let left_coord = Coord(left.row, left.column);
        left.remove_link(right_coord);
        right.remove_link(left_coord);
    }

    /// The linked coordinates, in the order they were recorded.
    pub fn get_links(&self) -> (r: Vec<Coord>)
        ensures
            r@ == self.links@,
    {
        let mut out: Vec<Coord> = Vec::new();
        let mut i: usize = 0;
        while i < self.links.len()
            invariant
                i <= self.links@.len(),
                out@ == self.links@.take(i as int),
            decreases self.links@.len() - i,
        {
            out.push(self.links[i]);
            proof {
                assert(out@ =~= self.links@.take(i as int + 1));
            }
            i += 1;
        }
        proof {
            assert(out@ =~= self.links@);
        }
        out
    }

    /// The present structural neighbours, in the fixed scan order
    /// north, east, west, south.
    pub fn neighbours(&self) -> (r: Vec<Coord>)
        ensures
            r@ == self.neighbour_seq(),
    {
        let mut out: Vec<Coord> = Vec::new();
        if let Some(c) = self.north {
            out.push(c);
        }
        if let Some(c) = self.east {
            out.push(c);
        }
        if let Some(c) = self.west {
            out.push(c);
        }
        if let Some(c) = self.south {
            out.push(c);
        }
        proof {
            assert(out@ =~= self.neighbour_seq());
        }
        out
    }
}

/// An option rendered as a sequence: empty for `None`, a singleton for `Some`.
pub open spec fn opt_seq(o: Option<Coord>) -> Seq<Coord> {
    match o {
        Some(c) => seq![c],
        None => Seq::empty(),
    }
}

/// Removing the only occurrence of `coord` from a duplicate-free sequence
/// removes it from the set of elements and keeps every other element.
pub proof fn lemma_remove_unique(s: Seq<Coord>, i: int, coord: Coord)
    requires
        0 <= i < s.len(),
        s[i] == coord,
        forall|p: int, q: int| 0 <= p < q < s.len() ==> s[p] != s[q],
    ensures
        s.remove(i).to_set() =~= s.to_set().remove(coord),
        forall|p: int, q: int|
            0 <= p < q < s.remove(i).len() ==> s.remove(i)[p] != s.remove(i)[q],
        !s.remove(i).contains(coord),
        forall|x: Coord| s.remove(i).contains(x) <==> (s.contains(x) && x != coord),
{
    let r = s.remove(i);
    assert forall|c: Coord| r.to_set().contains(c) implies s.to_set().remove(coord).contains(c) by {
        let k = choose|k: int| 0 <= k < r.len() && r[k] == c;
        if k < i {
            assert(s[k] == c);
        } else {
            assert(s[k + 1] == c);
        }
    }
    assert forall|c: Coord| s.to_set().remove(coord).contains(c) implies r.to_set().contains(c) by {
        let k = choose|k: int| 0 <= k < s.len() && s[k] == c;
        if k < i {
            assert(r[k] == c);
        } else {
            assert(k != i);
            assert(r[k - 1] == c);
        }
    }
    assert forall|p: int| 0 <= p < r.len() implies r[p] != coord by {
        if p < i {
            assert(r[p] == s[p]);
        } else {
            assert(r[p] == s[p + 1]);
        }
    }
    assert forall|x: Coord| r.contains(x) implies (s.contains(x) && x != coord) by {
        let k = choose|k: int| 0 <= k < r.len() && r[k] == x;
        if k < i {
            assert(s[k] == x);
        } else {
            assert(s[k + 1] == x);
        }
    }
    assert forall|x: Coord| s.contains(x) && x != coord implies r.contains(x) by {
        let k = choose|k: int| 0 <= k < s.len() && s[k] == x;
        if k < i {
            assert(r[k] == x);
        } else {
            assert(k != i);
            assert(r[k - 1] == x);
        }
    }
}

} // verus!
