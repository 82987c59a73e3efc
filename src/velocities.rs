//! The cell grid: points bucketed by integer cell coordinates, with adaptive
//! growth of under-populated cells.
//!
//! A point is known here by its index in its cloud, and placed by the floor of
//! its planar coordinates. A cell at `(r, c)` of edge `grid_size` holds the
//! points with `floor(y / grid_size) == r` and `floor(x / grid_size) == c`.
//! Growing a cell doubles its edge and merges into it its neighbours at
//! `(r + 1, c)`, `(r, c + 1)` and `(r + 1, c + 1)`.

use crate::scan_time::{scan_interval, scan_time_of, TimestampError};
use vstd::multiset::Multiset;
use vstd::prelude::*;

verus! {

/// A cell coordinate: row, then column.
pub type Coordinates = (i64, i64);

/// Strict order of coordinates: by row, then by column.
pub open spec fn lex_lt(a: Coordinates, b: Coordinates) -> bool {
    a.0 < b.0 || (a.0 == b.0 && a.1 < b.1)
}

/// The registration of a cell did not converge.
#[derive(Clone, Copy, Debug, PartialEq, Eq)]
pub struct DidNotConverge {}

/// A cell of the grid.
#[derive(Debug)]
pub struct Cell {
    /// Indices of the points of the later scan.
    pub after: Vec<usize>,
    /// Indices of the points of the earlier scan.
    pub before: Vec<usize>,
    /// Row and column of the cell, in units of the base edge.
    pub coordinates: Coordinates,
    /// The edge length of the cell.
    pub grid_size: i64,
}

impl Cell {
    /// An empty cell.
    fn new(coordinates: Coordinates, grid_size: i64) -> (r: Cell)
        ensures
            r.before@ == Seq::<usize>::empty(),
            r.after@ == Seq::<usize>::empty(),
            r.coordinates == coordinates,
            r.grid_size == grid_size,
    {
        Cell { after: Vec::new(), before: Vec::new(), coordinates, grid_size }
    }

    /// A cell is too small when either scan has fewer than `min_points` points in it.
    pub open spec fn too_small(&self, min_points: usize) -> bool {
        self.before.len() < min_points || self.after.len() < min_points
    }

    /// The cell's coordinates scaled by its edge, where both products fit an `i64`.
    pub fn corner(&self) -> (r: Option<(i64, i64)>)
        ensures
            match r {
                Some(p) => p.0 == self.coordinates.0 * self.grid_size && p.1 == self.coordinates.1
                    * self.grid_size,
                None => !(i64::MIN <= self.coordinates.0 * self.grid_size <= i64::MAX)
                    || !(i64::MIN <= self.coordinates.1 * self.grid_size <= i64::MAX),
            },
    {
        match (self.coordinates.0.checked_mul(self.grid_size), self.coordinates.1.checked_mul(self.grid_size)) {
            (Some(a), Some(b)) => Some((a, b)),
            _ => None,
        }
    }

    /// Whether either scan has fewer than `min_points` points in this cell.
    pub fn is_too_small(&self, min_points: usize) -> (r: bool)
        ensures
            r == self.too_small(min_points),
    {
        self.before.len() < min_points || self.after.len() < min_points
    }
}

/// The points of one scan in a cell: the later scan's if `after`.
pub open spec fn side(c: Cell, after: bool) -> Seq<usize> {
    if after {
        c.after@
    } else {
        c.before@
    }
}

/// The points of one scan over a sequence of cells, with repeats.
pub open spec fn points_of(s: Seq<Cell>, after: bool) -> Multiset<usize>
    decreases s.len(),
{
    if s.len() == 0 {
        Multiset::empty()
    } else {
        points_of(s.drop_last(), after).add(side(s.last(), after).to_multiset())
    }
}

/// Cells sorted by coordinates, no two at the same place, each with a positive edge.
pub open spec fn cells_wf(s: Seq<Cell>) -> bool {
    &&& forall|i: int, j: int|
        0 <= i < j < s.len() ==> lex_lt(#[trigger] s[i].coordinates, #[trigger] s[j].coordinates)
    &&& forall|i: int| 0 <= i < s.len() ==> #[trigger] s[i].grid_size > 0
}

/// Whether some cell of `s` lies at `k`.
pub open spec fn has_key(s: Seq<Cell>, k: Coordinates) -> bool {
    exists|i: int| 0 <= i < s.len() && #[trigger] s[i].coordinates == k
}

/// The cells of a sequence by their coordinates.
pub open spec fn map_of(s: Seq<Cell>) -> Map<Coordinates, Cell> {
    Map::new(
        |k: Coordinates| has_key(s, k),
        |k: Coordinates| s[choose|i: int| 0 <= i < s.len() && #[trigger] s[i].coordinates == k],
    )
}

proof fn lemma_distinct(s: Seq<Cell>, i: int, j: int)
    requires
        cells_wf(s),
        0 <= i < s.len(),
        0 <= j < s.len(),
        i != j,
    ensures
        s[i].coordinates != s[j].coordinates,
{
    if i < j {
        assert(lex_lt(s[i].coordinates, s[j].coordinates));
    } else {
        assert(lex_lt(s[j].coordinates, s[i].coordinates));
    }
}

proof fn lemma_map_of_at(s: Seq<Cell>, i: int)
    requires
        cells_wf(s),
        0 <= i < s.len(),
    ensures
        map_of(s).dom().contains(s[i].coordinates),
        map_of(s)[s[i].coordinates] == s[i],
{
    let k = s[i].coordinates;
    assert(has_key(s, k));
    let j = choose|j: int| 0 <= j < s.len() && #[trigger] s[j].coordinates == k;
    if j != i {
        lemma_distinct(s, i, j);
    }
}

proof fn lemma_map_of_remove(s: Seq<Cell>, j: int)
    requires
        cells_wf(s),
        0 <= j < s.len(),
    ensures
        cells_wf(s.remove(j)),
        map_of(s.remove(j)) == map_of(s).remove(s[j].coordinates),
{
    let t = s.remove(j);
    let kj = s[j].coordinates;
    assert forall|a: int, b: int| 0 <= a < b < t.len() implies lex_lt(
        #[trigger] t[a].coordinates,
        #[trigger] t[b].coordinates,
    ) by {
        let a1 = if a < j { a } else { a + 1 };
        let b1 = if b < j { b } else { b + 1 };
        assert(t[a] == s[a1] && t[b] == s[b1]);
        assert(lex_lt(s[a1].coordinates, s[b1].coordinates));
    }
    assert forall|a: int| 0 <= a < t.len() implies #[trigger] t[a].grid_size > 0 by {
        let a1 = if a < j { a } else { a + 1 };
        assert(t[a] == s[a1]);
    }
    assert forall|k: Coordinates| #[trigger]
        map_of(t).dom().contains(k) == map_of(s).remove(kj).dom().contains(k) by {
        if has_key(t, k) {
            let a = choose|a: int| 0 <= a < t.len() && #[trigger] t[a].coordinates == k;
            let a1 = if a < j { a } else { a + 1 };
            assert(t[a] == s[a1]);
            assert(has_key(s, k));
            lemma_distinct(s, a1, j);
        }
        if has_key(s, k) && k != kj {
            let a1 = choose|a: int| 0 <= a < s.len() && #[trigger] s[a].coordinates == k;
            let a = if a1 < j { a1 } else { a1 - 1 };
            assert(t[a] == s[a1]);
            assert(has_key(t, k));
        }
    }
    assert forall|k: Coordinates| #[trigger] map_of(t).dom().contains(k) implies map_of(t)[k]
        == map_of(s)[k] by {
        let a = choose|a: int| 0 <= a < t.len() && #[trigger] t[a].coordinates == k;
        let a1 = if a < j { a } else { a + 1 };
        assert(t[a] == s[a1]);
        lemma_map_of_at(t, a);
        lemma_map_of_at(s, a1);
    }
    assert(map_of(t) =~= map_of(s).remove(kj));
}

proof fn lemma_map_of_update(s: Seq<Cell>, j: int, c: Cell)
    requires
        cells_wf(s),
        0 <= j < s.len(),
        c.coordinates == s[j].coordinates,
        c.grid_size > 0,
    ensures
        cells_wf(s.update(j, c)),
        map_of(s.update(j, c)) == map_of(s).insert(c.coordinates, c),
{
    let t = s.update(j, c);
    assert forall|a: int, b: int| 0 <= a < b < t.len() implies lex_lt(
        #[trigger] t[a].coordinates,
        #[trigger] t[b].coordinates,
    ) by {
        assert(lex_lt(s[a].coordinates, s[b].coordinates));
    }
    assert forall|a: int| 0 <= a < t.len() implies #[trigger] t[a].grid_size > 0 by {
        if a != j {
            assert(t[a] == s[a]);
        }
    }
    assert forall|k: Coordinates| #[trigger]
        map_of(t).dom().contains(k) == map_of(s).insert(c.coordinates, c).dom().contains(k) by {
        if has_key(t, k) {
            let a = choose|a: int| 0 <= a < t.len() && #[trigger] t[a].coordinates == k;
            if a != j {
                assert(s[a].coordinates == k);
                assert(has_key(s, k));
            }
        }
        if has_key(s, k) {
            let a = choose|a: int| 0 <= a < s.len() && #[trigger] s[a].coordinates == k;
            assert(t[a].coordinates == k);
            assert(has_key(t, k));
        }
        if k == c.coordinates {
            assert(t[j].coordinates == k);
        }
    }
    assert forall|k: Coordinates| #[trigger] map_of(t).dom().contains(k) implies map_of(t)[k]
        == map_of(s).insert(c.coordinates, c)[k] by {
        let a = choose|a: int| 0 <= a < t.len() && #[trigger] t[a].coordinates == k;
        lemma_map_of_at(t, a);
        if a != j {
            lemma_map_of_at(s, a);
            lemma_distinct(t, a, j);
        }
    }
    assert(map_of(t) =~= map_of(s).insert(c.coordinates, c));
}

proof fn lemma_map_of_insert(s: Seq<Cell>, j: int, c: Cell)
    requires
        cells_wf(s),
        0 <= j <= s.len(),
        c.grid_size > 0,
        forall|i: int| 0 <= i < j ==> lex_lt(#[trigger] s[i].coordinates, c.coordinates),
        forall|i: int| j <= i < s.len() ==> lex_lt(c.coordinates, #[trigger] s[i].coordinates),
    ensures
        cells_wf(s.insert(j, c)),
        map_of(s.insert(j, c)) == map_of(s).insert(c.coordinates, c),
{
    let t = s.insert(j, c);
    assert forall|a: int, b: int| 0 <= a < b < t.len() implies lex_lt(
        #[trigger] t[a].coordinates,
        #[trigger] t[b].coordinates,
    ) by {
        if a < j && b < j {
            assert(lex_lt(s[a].coordinates, s[b].coordinates));
        } else if a < j && b == j {
        } else if a < j {
            assert(lex_lt(s[a].coordinates, s[b - 1].coordinates));
        } else if a == j {
            assert(t[b] == s[b - 1]);
        } else {
            assert(lex_lt(s[a - 1].coordinates, s[b - 1].coordinates));
        }
    }
    assert forall|a: int| 0 <= a < t.len() implies #[trigger] t[a].grid_size > 0 by {
        if a < j {
            assert(t[a] == s[a]);
        } else if a > j {
            assert(t[a] == s[a - 1]);
        }
    }
    assert forall|k: Coordinates| #[trigger]
        map_of(t).dom().contains(k) == map_of(s).insert(c.coordinates, c).dom().contains(k) by {
        if has_key(t, k) {
            let a = choose|a: int| 0 <= a < t.len() && #[trigger] t[a].coordinates == k;
            if a < j {
                assert(s[a].coordinates == k);
                assert(has_key(s, k));
            } else if a > j {
                assert(s[a - 1].coordinates == k);
                assert(has_key(s, k));
            }
        }
        if has_key(s, k) {
            let a = choose|a: int| 0 <= a < s.len() && #[trigger] s[a].coordinates == k;
            let a1 = if a < j { a } else { a + 1 };
            assert(t[a1].coordinates == k);
            assert(has_key(t, k));
        }
        if k == c.coordinates {
            assert(t[j].coordinates == k);
        }
    }
    assert forall|k: Coordinates| #[trigger] map_of(t).dom().contains(k) implies map_of(t)[k]
        == map_of(s).insert(c.coordinates, c)[k] by {
        let a = choose|a: int| 0 <= a < t.len() && #[trigger] t[a].coordinates == k;
        lemma_map_of_at(t, a);
        if a != j {
            lemma_distinct(t, a, j);
            let a1 = if a < j { a } else { a - 1 };
            assert(t[a] == s[a1]);
            lemma_map_of_at(s, a1);
        }
    }
    assert(map_of(t) =~= map_of(s).insert(c.coordinates, c));
}

proof fn lemma_points_concat(a: Seq<Cell>, b: Seq<Cell>, after: bool)
    ensures
        points_of(a + b, after) == points_of(a, after).add(points_of(b, after)),
    decreases b.len(),
{
    if b.len() == 0 {
        assert(a + b =~= a);
        assert(points_of(a, after).add(Multiset::empty()) =~= points_of(a, after));
    } else {
        assert((a + b).drop_last() =~= a + b.drop_last());
        lemma_points_concat(a, b.drop_last(), after);
        assert((a + b).last() == b.last());
        assert(points_of(a + b, after) =~= points_of(a, after).add(points_of(b, after)));
    }
}

proof fn lemma_points_single(c: Cell, after: bool)
    ensures
        points_of(seq![c], after) == side(c, after).to_multiset(),
{
    assert(seq![c].drop_last() =~= Seq::<Cell>::empty());
    assert(seq![c].last() == c);
    assert(points_of(Seq::<Cell>::empty(), after) == Multiset::<usize>::empty());
    assert(Multiset::<usize>::empty().add(side(c, after).to_multiset()) =~= side(
        c,
        after,
    ).to_multiset());
}

proof fn lemma_points_split(s: Seq<Cell>, j: int, after: bool)
    requires
        0 <= j < s.len(),
    ensures
        points_of(s, after) == points_of(s.remove(j), after).add(side(s[j], after).to_multiset()),
{
    let pre = s.subrange(0, j);
    let post = s.subrange(j + 1, s.len() as int);
    assert(s =~= pre + seq![s[j]] + post);
    assert(s.remove(j) =~= pre + post);
    lemma_points_concat(pre + seq![s[j]], post, after);
    lemma_points_concat(pre, seq![s[j]], after);
    lemma_points_concat(pre, post, after);
    lemma_points_single(s[j], after);
    assert(points_of(s, after) =~= points_of(s.remove(j), after).add(
        side(s[j], after).to_multiset(),
    ));
}

proof fn lemma_points_insert(s: Seq<Cell>, j: int, c: Cell, after: bool)
    requires
        0 <= j <= s.len(),
    ensures
        points_of(s.insert(j, c), after) == points_of(s, after).add(side(c, after).to_multiset()),
{
    let t = s.insert(j, c);
    assert(t.remove(j) =~= s);
    lemma_points_split(t, j, after);
}

/// A grid of cells, used to calculate velocities.
#[derive(Debug)]
pub struct Grid {
    cells: Vec<Cell>,
    base: i64,
    datetime: i64,
    duration: u64,
}

impl View for Grid {
    type V = Map<Coordinates, Cell>;

    closed spec fn view(&self) -> Map<Coordinates, Cell> {
        map_of(self.cells@)
    }
}

impl Grid {
    /// The cells in order of their coordinates.
    pub closed spec fn cells(&self) -> Seq<Cell> {
        self.cells@
    }

    /// The time of the later scan, in seconds since the Unix epoch.
    pub closed spec fn spec_datetime(&self) -> i64 {
        self.datetime
    }

    /// The edge of a cell before growth.
    pub closed spec fn spec_base(&self) -> i64 {
        self.base
    }

    /// The seconds between the two scans.
    pub closed spec fn spec_duration(&self) -> u64 {
        self.duration
    }

    /// The cells are sorted by coordinates, the grid's map holds them, and
    /// each edge is the base edge doubled some number of times.
    pub open spec fn wf(&self) -> bool {
        &&& cells_wf(self.cells())
        &&& self@ == map_of(self.cells())
        &&& self.spec_base() > 0
        &&& edges_doubled_from(self@, self.spec_base() as int)
    }

    /// All points of the earlier scan in the grid, with repeats.
    pub open spec fn before_points(&self) -> Multiset<usize> {
        points_of(self.cells(), false)
    }

    /// All points of the later scan in the grid, with repeats.
    pub open spec fn after_points(&self) -> Multiset<usize> {
        points_of(self.cells(), true)
    }

    /// The time of the later scan, in seconds since the Unix epoch.
    pub fn datetime(&self) -> (r: i64)
        ensures
            r == self.spec_datetime(),
    {
        self.datetime
    }

    /// The seconds between the two scans.
    pub fn duration(&self) -> (r: u64)
        ensures
            r == self.spec_duration(),
    {
        self.duration
    }

    /// The number of cells.
    pub fn len(&self) -> (r: usize)
        requires
            self.wf(),
        ensures
            r == self@.len(),
    {
        proof {
            self.lemma_len();
        }
        self.cells.len()
    }

    proof fn lemma_len(&self)
        requires
            self.wf(),
        ensures
            self@.dom().len() == self.cells().len(),
            self@.len() == self.cells().len(),
    {
        lemma_dom_len(self.cells@);
    }

    /// The index of the cell at `key`, if there is one.
    fn find(&self, key: Coordinates) -> (r: Option<usize>)
        ensures
            match r {
                Some(j) => j < self.cells().len() && self.cells()[j as int].coordinates == key,
                None => !has_key(self.cells(), key),
            },
    {
        let mut j: usize = 0;
        while j < self.cells.len()
            invariant
                j <= self.cells.len(),
                forall|i: int| 0 <= i < j ==> #[trigger] self.cells@[i].coordinates != key,
            decreases self.cells.len() - j,
        {
            let k = self.cells[j].coordinates;
            if k.0 == key.0 && k.1 == key.1 {
                return Some(j);
            }
            j += 1;
        }
        None
    }

    /// The coordinates of all cells, in order.
    pub fn coordinates(&self) -> (r: Vec<Coordinates>)
        requires
            self.wf(),
        ensures
            r@ == self.cells().map_values(|c: Cell| c.coordinates),
            r@.len() == self@.len(),
            forall|k: Coordinates| r@.contains(k) <==> #[trigger] self@.dom().contains(k),
            forall|i: int, j: int| 0 <= i < j < r@.len() ==> lex_lt(#[trigger] r@[i], #[trigger] r@[j]),
    {
        let mut r: Vec<Coordinates> = Vec::new();
        for j in 0..self.cells.len()
            invariant
                r@ == self.cells@.subrange(0, j as int).map_values(|c: Cell| c.coordinates),
        {
            r.push(self.cells[j].coordinates);
            assert(r@ =~= self.cells@.subrange(0, j + 1).map_values(|c: Cell| c.coordinates));
        }
        assert(self.cells@.subrange(0, self.cells.len() as int) =~= self.cells@);
        proof {
            self.lemma_len();
            assert forall|k: Coordinates| r@.contains(k) <==> #[trigger] self@.dom().contains(k) by {
                if r@.contains(k) {
                    let i = choose|i: int| 0 <= i < r@.len() && r@[i] == k;
                    assert(self.cells@[i].coordinates == k);
                }
                if self@.dom().contains(k) {
                    let i = choose|i: int| 0 <= i < self.cells@.len() && #[trigger] self.cells@[i].coordinates == k;
                    assert(r@[i] == k);
                }
            }
        }
        r
    }

    /// The cell at `key`, if there is one.
    pub fn cell(&self, key: Coordinates) -> (r: Option<&Cell>)
        requires
            self.wf(),
        ensures
            match r {
                Some(c) => self@.dom().contains(key) && *c == self@[key],
                None => !self@.dom().contains(key),
            },
    {
        match self.find(key) {
            Some(j) => {
                proof {
                    lemma_map_of_at(self.cells@, j as int);
                }
                Some(&self.cells[j])
            },
            None => None,
        }
    }

    /// Whether the grid has a cell at `key`.
    pub fn contains(&self, key: Coordinates) -> (r: bool)
        requires
            self.wf(),
        ensures
            r == self@.dom().contains(key),
    {
        self.find(key).is_some()
    }

    /// Removes and returns the cell at `key`, if there is one.
    pub fn remove(&mut self, key: Coordinates) -> (r: Option<Cell>)
        requires
            old(self).wf(),
        ensures
            final(self).wf(),
            final(self)@ == old(self)@.remove(key),
            match r {
                Some(c) => old(self)@.dom().contains(key) && c == old(self)@[key],
                None => !old(self)@.dom().contains(key),
            },
            final(self).before_points() == old(self).before_points().sub(
                match r {
                    Some(c) => c.before@.to_multiset(),
                    None => Multiset::empty(),
                },
            ),
            final(self).after_points() == old(self).after_points().sub(
                match r {
                    Some(c) => c.after@.to_multiset(),
                    None => Multiset::empty(),
                },
            ),
            final(self).spec_datetime() == old(self).spec_datetime(),
            final(self).spec_duration() == old(self).spec_duration(),
            final(self).spec_base() == old(self).spec_base(),
    {
        match self.find(key) {
            None => {
                assert(old(self)@.remove(key) =~= old(self)@);
                assert(self.before_points().sub(Multiset::empty()) =~= self.before_points());
                assert(self.after_points().sub(Multiset::empty()) =~= self.after_points());
                None
            },
            Some(j) => {
                let ghost s = self.cells@;
                proof {
                    lemma_map_of_at(s, j as int);
                    lemma_map_of_remove(s, j as int);
                    lemma_points_split(s, j as int, false);
                    lemma_points_split(s, j as int, true);
                }
                let c = self.cells.remove(j);
                assert(self.before_points() =~= points_of(s, false).sub(c.before@.to_multiset()));
                assert(self.after_points() =~= points_of(s, true).sub(c.after@.to_multiset()));
                Some(c)
            },
        }
    }

    /// Removes and returns one cell, if there is any.
    pub fn pop(&mut self) -> (r: Option<Cell>)
        requires
            old(self).wf(),
        ensures
            final(self).wf(),
            match r {
                Some(c) => old(self)@.dom().contains(c.coordinates) && c == old(self)@[c.coordinates]
                    && final(self)@ == old(self)@.remove(c.coordinates)
                    && final(self).before_points() == old(self).before_points().sub(
                    c.before@.to_multiset(),
                ) && final(self).after_points() == old(self).after_points().sub(
                    c.after@.to_multiset(),
                ),
                None => old(self)@.len() == 0 && final(self)@ == old(self)@,
            },
            final(self).spec_datetime() == old(self).spec_datetime(),
            final(self).spec_duration() == old(self).spec_duration(),
            final(self).spec_base() == old(self).spec_base(),
    {
        let ghost s = self.cells@;
        proof {
            self.lemma_len();
        }
        if self.cells.len() == 0 {
            return None;
        }
        let j = self.cells.len() - 1;
        proof {
            lemma_map_of_at(s, j as int);
            lemma_map_of_remove(s, j as int);
            lemma_points_split(s, j as int, false);
            lemma_points_split(s, j as int, true);
        }
        let c = self.cells.remove(j);
        assert(self.before_points() =~= points_of(s, false).sub(c.before@.to_multiset()));
        assert(self.after_points() =~= points_of(s, true).sub(c.after@.to_multiset()));
        Some(c)
    }
}

/// `size` is `base` doubled some number of times (none included).
pub open spec fn doubled_from(size: int, base: int) -> bool
    decreases size,
{
    if size <= 0 || base <= 0 {
        false
    } else if size == base {
        true
    } else if size > base && size % 2 == 0 {
        doubled_from(size / 2, base)
    } else {
        false
    }
}

/// Every cell of `m` has an edge that is `base` doubled some number of times.
pub open spec fn edges_doubled_from(m: Map<Coordinates, Cell>, base: int) -> bool {
    forall|k: Coordinates| #[trigger] m.dom().contains(k) ==> doubled_from(m[k].grid_size as int, base)
}

proof fn lemma_doubled_at_least(size: int, base: int)
    requires
        doubled_from(size, base),
    ensures
        size >= base,
    decreases size,
{
    if size != base {
        lemma_doubled_at_least(size / 2, base);
    }
}

proof fn lemma_double(size: int, base: int)
    requires
        doubled_from(size, base),
    ensures
        doubled_from(2 * size, base),
{
    lemma_doubled_at_least(size, base);
    assert((2 * size) / 2 == size);
    assert(doubled_from(2 * size, base) == doubled_from((2 * size) / 2, base));
}

/// Growth from `m0` to `m1` only enlarges cells: each cell of `m1` was in
/// `m0`, at least as large, and unchanged if its edge is.
pub open spec fn only_enlarged(m0: Map<Coordinates, Cell>, m1: Map<Coordinates, Cell>) -> bool {
    forall|k: Coordinates|
        #[trigger] m1.dom().contains(k) ==> m0.dom().contains(k) && m1[k].grid_size >= m0[k].grid_size
            && (m1[k].grid_size == m0[k].grid_size ==> m1[k] == m0[k])
}

/// Whether growth with `min_points` grows cell `c`: it is too small, and its
/// doubled edge fits an `i64`.
pub open spec fn grows(c: Cell, min_points: usize) -> bool {
    c.too_small(min_points) && c.grid_size <= i64::MAX / 2
}

/// `b` is `a` grown once: its edge doubled, with `a`'s points first.
pub open spec fn grown_once(a: Cell, b: Cell) -> bool {
    &&& b.grid_size == 2 * a.grid_size
    &&& a.before@.is_prefix_of(b.before@)
    &&& a.after@.is_prefix_of(b.after@)
}

/// Row and column offsets of the neighbours that growth merges.
pub open spec fn neighbor_offset(n: int) -> (int, int) {
    if n == 0 {
        (1, 0)
    } else if n == 1 {
        (0, 1)
    } else {
        (1, 1)
    }
}

/// The `n`th neighbour of `k` that growth merges, where its coordinates fit an `i64`.
pub open spec fn neighbor_key(k: Coordinates, n: int) -> Option<Coordinates> {
    let (dr, dc) = neighbor_offset(n);
    if k.0 + dr > i64::MAX || k.1 + dc > i64::MAX {
        None
    } else {
        Some(((k.0 + dr) as i64, (k.1 + dc) as i64))
    }
}

/// The `n`th neighbour of the cell at `k` in `m0`, where its edge was no
/// larger than that cell's, is gone from `m1`.
pub open spec fn merged_neighbor(
    m0: Map<Coordinates, Cell>,
    m1: Map<Coordinates, Cell>,
    k: Coordinates,
    n: int,
) -> bool {
    match neighbor_key(k, n) {
        Some(nk) => m0.dom().contains(nk) && m0[nk].grid_size <= m0[k].grid_size
            ==> !m1.dom().contains(nk),
        None => true,
    }
}

/// Of two edges doubled from the same base, the smaller doubled is no larger
/// than the other.
proof fn lemma_doubling_gap(a: int, c: int, b: int)
    requires
        doubled_from(a, b),
        doubled_from(c, b),
        a < c,
    ensures
        2 * a <= c,
    decreases c,
{
    lemma_doubled_at_least(a, b);
    assert(c != b);
    assert(c > b && c % 2 == 0 && doubled_from(c / 2, b));
    if a < c / 2 {
        lemma_doubling_gap(a, c / 2, b);
    } else if a > c / 2 {
        lemma_doubling_gap(c / 2, a, b);
    }
}

/// The `n`th neighbour of `k` that growth merges, if its coordinates fit an `i64`.
fn neighbor(k: Coordinates, n: usize) -> (r: Option<Coordinates>)
    requires
        n < 3,
    ensures
        r == neighbor_key(k, n as int),
        r matches Some(m) ==> lex_lt(k, m),
{
    let (dr, dc): (i64, i64) = if n == 0 {
        (1, 0)
    } else if n == 1 {
        (0, 1)
    } else {
        (1, 1)
    };
    if (dr == 1 && k.0 == i64::MAX) || (dc == 1 && k.1 == i64::MAX) {
        None
    } else {
        Some((k.0 + dr, k.1 + dc))
    }
}

/// Taking the cell at index `i` out and putting `c` in its place, at the same coordinates.
proof fn lemma_replace(s: Seq<Cell>, i: int, c: Cell)
    requires
        cells_wf(s),
        0 <= i < s.len(),
        c.coordinates == s[i].coordinates,
        c.grid_size > 0,
    ensures
        s.remove(i).insert(i, c) == s.update(i, c),
        cells_wf(s.update(i, c)),
        map_of(s.update(i, c)) == map_of(s).insert(c.coordinates, c),
        map_of(s)[c.coordinates] == s[i],
        forall|b: bool|
            #[trigger] points_of(s.update(i, c), b) == points_of(s.remove(i), b).add(
                side(c, b).to_multiset(),
            ),
        forall|b: bool|
            #[trigger] points_of(s, b) == points_of(s.remove(i), b).add(side(s[i], b).to_multiset()),
{
    let t = s.update(i, c);
    assert(s.remove(i).insert(i, c) =~= t);
    lemma_map_of_update(s, i, c);
    lemma_map_of_at(s, i);
    assert(t.remove(i) =~= s.remove(i));
    assert(t[i] == c);
    assert forall|b: bool| #[trigger]
        points_of(t, b) == points_of(s.remove(i), b).add(side(c, b).to_multiset()) by {
        lemma_points_split(t, i, b);
    }
    assert forall|b: bool| #[trigger]
        points_of(s, b) == points_of(s.remove(i), b).add(side(s[i], b).to_multiset()) by {
        lemma_points_split(s, i, b);
    }
}

/// A cell of the map lies at its own coordinates and has a positive edge.
proof fn lemma_map_facts(s: Seq<Cell>, k: Coordinates)
    requires
        cells_wf(s),
        map_of(s).dom().contains(k),
    ensures
        map_of(s)[k].coordinates == k,
        map_of(s)[k].grid_size > 0,
{
    let i = choose|i: int| 0 <= i < s.len() && #[trigger] s[i].coordinates == k;
    lemma_map_of_at(s, i);
}

impl Grid {
    /// Grows the cell at `coordinate`: doubles its edge, then merges into it
    /// each neighbour `(r + 1, c)`, `(r, c + 1)`, `(r + 1, c + 1)` whose edge
    /// is no larger than the cell's old edge, after growing any smaller
    /// neighbour to that edge. The cell keeps its own points first; every
    /// other cell is left as it was or merged away. A cell whose doubled edge
    /// would not fit an `i64` is left as it is.
    fn grow_cell(&mut self, coordinate: Coordinates)
        requires
            old(self).wf(),
            old(self)@.dom().contains(coordinate),
        ensures
            final(self).wf(),
            final(self)@.dom().contains(coordinate),
            final(self)@.dom().subset_of(old(self)@.dom()),
            forall|k: Coordinates|
                old(self)@.dom().contains(k) && !final(self)@.dom().contains(k) ==> lex_lt(
                    coordinate,
                    k,
                ),
            forall|k: Coordinates|
                #[trigger] final(self)@.dom().contains(k) && k != coordinate ==> final(self)@[k]
                    == old(self)@[k],
            final(self)@[coordinate].grid_size == if old(self)@[coordinate].grid_size <= i64::MAX
                / 2 {
                2 * old(self)@[coordinate].grid_size
            } else {
                old(self)@[coordinate].grid_size as int
            },
            old(self)@[coordinate].grid_size <= i64::MAX / 2 ==> forall|n: int|
                0 <= n < 3 ==> merged_neighbor(old(self)@, final(self)@, coordinate, n),
            old(self)@[coordinate].before@.is_prefix_of(final(self)@[coordinate].before@),
            old(self)@[coordinate].after@.is_prefix_of(final(self)@[coordinate].after@),
            forall|pts: Seq<(i64, i64)>, after: bool|
                in_footprint(old(self)@, pts, old(self).spec_base() as int, after)
                    ==> #[trigger] in_footprint(final(self)@, pts, old(self).spec_base() as int, after),
            only_enlarged(old(self)@, final(self)@),
            forall|base: int|
                edges_doubled_from(old(self)@, base) ==> #[trigger] edges_doubled_from(final(self)@, base),
            final(self).before_points() == old(self).before_points(),
            final(self).after_points() == old(self).after_points(),
            final(self).spec_datetime() == old(self).spec_datetime(),
            final(self).spec_duration() == old(self).spec_duration(),
            final(self).spec_base() == old(self).spec_base(),
        decreases old(self)@[coordinate].grid_size,
    {
        let ghost m0 = self@;
        let ghost base = self.spec_base() as int;
        let ghost before0 = self.before_points();
        let ghost after0 = self.after_points();
        let j0 = match self.find(coordinate) {
            Some(j) => j,
            None => {
                return;
            },
        };
        proof {
            lemma_map_of_at(self.cells@, j0 as int);
        }
        let size = self.cells[j0].grid_size;
        if size > i64::MAX / 2 {
            return;
        }
        let ghost s_start = self.cells@;
        let mut grown = self.cells.remove(j0);
        grown.grid_size = size * 2;
        proof {
            lemma_replace(s_start, j0 as int, grown);
            assert(side(grown, false) == side(s_start[j0 as int], false));
            assert(side(grown, true) == side(s_start[j0 as int], true));
        }
        self.cells.insert(j0, grown);
        proof {
            assert forall|pts: Seq<(i64, i64)>, after: bool|
                in_footprint(m0, pts, base, after) implies #[trigger] in_footprint(self@, pts, base, after) by {
                assert forall|k: Coordinates, q: int|
                    self@.dom().contains(k) && 0 <= q < side(self@[k], after).len() implies within_square(
                        k,
                        self@[k].grid_size as int,
                        pts,
                        #[trigger] side(self@[k], after)[q] as int,
                        base,
                    ) by {
                    assert(m0.dom().contains(k));
                    assert(side(self@[k], after)[q] == side(m0[k], after)[q]);
                }
            }
            lemma_double(size as int, base);
            assert forall|k: Coordinates| #[trigger] self@.dom().contains(k) implies doubled_from(
                self@[k].grid_size as int,
                base,
            ) by {
                if k != coordinate {
                    assert(m0.dom().contains(k));
                }
            }
        }
        for n in 0..3
            invariant
                size > 0,
                size <= i64::MAX / 2,
                m0 == old(self)@,
                m0[coordinate].grid_size == size,
                base == self.spec_base(),
                doubled_from(size as int, base),
                self.wf(),
                self@.dom().contains(coordinate),
                self@[coordinate].grid_size == 2 * size,
                self@[coordinate].coordinates == coordinate,
                self@.dom().subset_of(m0.dom()),
                forall|k: Coordinates|
                    m0.dom().contains(k) && !self@.dom().contains(k) ==> lex_lt(coordinate, k),
                forall|k: Coordinates|
                    #[trigger] self@.dom().contains(k) && k != coordinate ==> self@[k] == m0[k],
                forall|q: int| 0 <= q < n ==> merged_neighbor(m0, self@, coordinate, q),
                m0[coordinate].before@.is_prefix_of(self@[coordinate].before@),
                m0[coordinate].after@.is_prefix_of(self@[coordinate].after@),
                forall|pts: Seq<(i64, i64)>, after: bool|
                    in_footprint(m0, pts, base, after) ==> #[trigger] in_footprint(self@, pts, base, after),
                self.before_points() == before0,
                self.after_points() == after0,
                self.spec_datetime() == old(self).spec_datetime(),
                self.spec_duration() == old(self).spec_duration(),
                self.spec_base() == old(self).spec_base(),
        {
            let ghost m_start = self@;
            if let Some(nk) = neighbor(coordinate, n) {
                loop
                    invariant
                        lex_lt(coordinate, nk),
                        size > 0,
                        size <= i64::MAX / 2,
                        m0 == old(self)@,
                        m0[coordinate].grid_size == size,
                        base == self.spec_base(),
                        doubled_from(size as int, base),
                        self.wf(),
                        self@.dom().contains(coordinate),
                        self@[coordinate].grid_size == 2 * size,
                        self@[coordinate].coordinates == coordinate,
                        self@.dom().subset_of(m0.dom()),
                        forall|k: Coordinates|
                            m0.dom().contains(k) && !self@.dom().contains(k) ==> lex_lt(
                                coordinate,
                                k,
                            ),
                        forall|k: Coordinates|
                            #[trigger] self@.dom().contains(k) && k != coordinate && k != nk
                                ==> self@[k] == m0[k],
                        self@.dom().contains(nk) && self@[nk] != m0[nk] ==> self@[nk].grid_size
                            <= size,
                        forall|q: int| 0 <= q < n ==> merged_neighbor(m0, self@, coordinate, q),
                        m0[coordinate].before@.is_prefix_of(self@[coordinate].before@),
                        m0[coordinate].after@.is_prefix_of(self@[coordinate].after@),
                        forall|pts: Seq<(i64, i64)>, after: bool|
                            in_footprint(m0, pts, base, after) ==> #[trigger] in_footprint(self@, pts, base, after),
                        self.before_points() == before0,
                        self.after_points() == after0,
                        self.spec_datetime() == old(self).spec_datetime(),
                        self.spec_duration() == old(self).spec_duration(),
                        self.spec_base() == old(self).spec_base(),
                    ensures
                        self@.dom().contains(nk) ==> self@[nk].grid_size >= size,
                    decreases
                            (if self@.dom().contains(nk) && self@[nk].grid_size < size {
                                size - self@[nk].grid_size
                            } else {
                                0
                            }),
                {
                    match self.find(nk) {
                        None => {
                            break ;
                        },
                        Some(j) => {
                            proof {
                                lemma_map_of_at(self.cells@, j as int);
                                lemma_map_facts(self.cells@, nk);
                            }
                            if self.cells[j].grid_size < size {
                                let ghost prev = self@[nk].grid_size;
                                let ghost pre = self@;
                                assert(prev < old(self)@[coordinate].grid_size);
                                assert(prev > 0);
                                assert(doubled_from(prev as int, base));
                                self.grow_cell(nk);
                                assert(self@[nk].grid_size == 2 * prev);
                                proof {
                                    if !self@.dom().contains(coordinate) {
                                        assert(lex_lt(nk, coordinate));
                                    }
                                    assert forall|k: Coordinates|
                                        m0.dom().contains(k) && !self@.dom().contains(k) implies lex_lt(
                                            coordinate,
                                            k,
                                        ) by {
                                        if pre.dom().contains(k) {
                                            assert(lex_lt(nk, k));
                                        }
                                    }
                                    lemma_doubling_gap(prev as int, size as int, base);
                                    lemma_map_facts(self.cells@, nk);
                                    assert forall|q: int| 0 <= q < n implies merged_neighbor(
                                        m0,
                                        self@,
                                        coordinate,
                                        q,
                                    ) by {
                                        assert(merged_neighbor(m0, pre, coordinate, q));
                                    }
                                    assert forall|k: Coordinates|
                                        #[trigger] self@.dom().contains(k) && k != coordinate && k
                                            != nk implies self@[k] == m0[k] by {
                                        assert(pre.dom().contains(k));
                                    }
                                    assert forall|pts: Seq<(i64, i64)>, after: bool|
                                        in_footprint(m0, pts, base, after) implies #[trigger] in_footprint(
                                        self@,
                                        pts,
                                        base,
                                        after,
                                    ) by {
                                        assert(in_footprint(pre, pts, base, after));
                                    }
                                }
                            } else {
                                break ;
                            }
                        },
                    }
                }
                let ghost pre = self@;
                self.merge_neighbor(coordinate, nk, size);
                proof {
                    assert forall|pts: Seq<(i64, i64)>, after: bool|
                        in_footprint(m0, pts, base, after) implies #[trigger] in_footprint(
                        self@,
                        pts,
                        base,
                        after,
                    ) by {
                        assert(in_footprint(pre, pts, base, after));
                    }
                    assert forall|q: int| 0 <= q < n + 1 implies merged_neighbor(
                        m0,
                        self@,
                        coordinate,
                        q,
                    ) by {
                        if q < n {
                            assert(merged_neighbor(m0, pre, coordinate, q));
                        } else {
                            if m0.dom().contains(nk) && m0[nk].grid_size <= size && pre.dom().contains(nk) {
                                if pre[nk] == m0[nk] {
                                    assert(pre[nk].grid_size == size);
                                }
                            }
                        }
                    }
                    assert forall|k: Coordinates|
                        #[trigger] self@.dom().contains(k) && k != coordinate implies self@[k] == m0[k] by {
                        assert(pre.dom().contains(k));
                        if k == nk {
                            assert(pre[nk].grid_size > size || pre[nk] == m0[nk]);
                        }
                    }
                    assert(m0[coordinate].before@.is_prefix_of(self@[coordinate].before@));
                    assert(m0[coordinate].after@.is_prefix_of(self@[coordinate].after@));
                }
            } else {
                assert forall|q: int| 0 <= q < n + 1 implies merged_neighbor(
                    m0,
                    self@,
                    coordinate,
                    q,
                ) by {
                    if q < n {
                        assert(merged_neighbor(m0, m_start, coordinate, q));
                    }
                }
            }
        }
        proof {
            assert forall|b: int| edges_doubled_from(m0, b) implies #[trigger] edges_doubled_from(self@, b) by {
                assert(m0.dom().contains(coordinate));
                lemma_double(size as int, b);
            }
        }
    }

    /// Merges the cell at `nk` into the cell at `coordinate` if its edge is
    /// `size`: the cell at `coordinate` then holds its own points followed by
    /// the neighbour's, and the neighbour is gone. Otherwise nothing changes.
    fn merge_neighbor(&mut self, coordinate: Coordinates, nk: Coordinates, size: i64)
        requires
            old(self).wf(),
            old(self)@.dom().contains(coordinate),
            lex_lt(coordinate, nk),
            old(self)@[coordinate].grid_size == 2 * size,
            0 <= nk.0 - coordinate.0 <= 1,
            0 <= nk.1 - coordinate.1 <= 1,
        ensures
            final(self).wf(),
            forall|pts: Seq<(i64, i64)>, after: bool|
                in_footprint(old(self)@, pts, old(self).spec_base() as int, after)
                    ==> #[trigger] in_footprint(final(self)@, pts, old(self).spec_base() as int, after),
            if old(self)@.dom().contains(nk) && old(self)@[nk].grid_size == size {
                &&& final(self)@.dom() == old(self)@.dom().remove(nk)
                &&& final(self)@[coordinate].before@ == old(self)@[coordinate].before@ + old(
                    self,
                )@[nk].before@
                &&& final(self)@[coordinate].after@ == old(self)@[coordinate].after@ + old(
                    self,
                )@[nk].after@
                &&& final(self)@[coordinate].grid_size == old(self)@[coordinate].grid_size
                &&& final(self)@[coordinate].coordinates == coordinate
                &&& forall|k: Coordinates|
                    #[trigger] final(self)@.dom().contains(k) && k != coordinate ==> final(self)@[k]
                        == old(self)@[k]
            } else {
                final(self)@ == old(self)@
            },
            final(self).before_points() == old(self).before_points(),
            final(self).after_points() == old(self).after_points(),
            final(self).spec_datetime() == old(self).spec_datetime(),
            final(self).spec_duration() == old(self).spec_duration(),
            final(self).spec_base() == old(self).spec_base(),
    {
        let j = match self.find(nk) {
            Some(j) => j,
            None => {
                return;
            },
        };
        proof {
            lemma_map_of_at(self.cells@, j as int);
        }
        if self.cells[j].grid_size != size {
            return;
        }
        let ghost m_old = self@;
        let ghost s0 = self.cells@;
        proof {
            lemma_map_of_remove(s0, j as int);
            lemma_points_split(s0, j as int, false);
            lemma_points_split(s0, j as int, true);
        }
        let mut other = self.cells.remove(j);
        assert(self@.dom().contains(coordinate));
        let i = match self.find(coordinate) {
            Some(i) => i,
            None => {
                return;
            },
        };
        let ghost s1 = self.cells@;
        proof {
            lemma_map_of_at(s1, i as int);
        }
        let mut cell = self.cells.remove(i);
        let ghost c0 = cell;
        cell.before.append(&mut other.before);
        cell.after.append(&mut other.after);
        proof {
            lemma_replace(s1, i as int, cell);
            vstd::seq_lib::lemma_multiset_commutative(c0.before@, s0[j as int].before@);
            vstd::seq_lib::lemma_multiset_commutative(c0.after@, s0[j as int].after@);
            assert(side(cell, false) == c0.before@ + s0[j as int].before@);
            assert(side(cell, true) == c0.after@ + s0[j as int].after@);
        }
        self.cells.insert(i, cell);
        assert(self.before_points() =~= points_of(s0, false));
        assert(self.after_points() =~= points_of(s0, true));
        proof {
            assert(self@.dom() =~= m_old.dom().remove(nk));
            assert forall|k: Coordinates| #[trigger] self@.dom().contains(k) implies doubled_from(
                self@[k].grid_size as int,
                self.base as int,
            ) by {
                assert(m_old.dom().contains(k));
            }
            lemma_doubled_at_least(size as int, self.base as int);
            assert forall|pts: Seq<(i64, i64)>, after: bool|
                in_footprint(m_old, pts, self.base as int, after) implies #[trigger] in_footprint(
                self@,
                pts,
                self.base as int,
                after,
            ) by {
                assert forall|k: Coordinates| #[trigger] self@.dom().contains(k) && k != coordinate implies self@[k] == m_old[k] by {
                    assert(m_old.dom().contains(k));
                }
                lemma_merge_footprint(m_old, self@, coordinate, nk, size as int, pts, self.base as int, after);
            }
        }
    }
}

/// The cell that a point with floor coordinates `p = (x, y)` falls in, for
/// cells of edge `grid_size`: `(floor(y / grid_size), floor(x / grid_size))`.
pub open spec fn cell_of(p: (i64, i64), grid_size: int) -> Coordinates {
    ((p.1 as int / grid_size) as i64, (p.0 as int / grid_size) as i64)
}

proof fn lemma_floor_div_fits(x: i64, d: i64)
    requires
        d > 0,
    ensures
        i64::MIN <= x as int / d as int <= i64::MAX,
{
    let q = x as int / d as int;
    let r = x as int % d as int;
    vstd::arithmetic::div_mod::lemma_fundamental_div_mod(x as int, d as int);
    assert(i64::MIN <= q <= i64::MAX) by (nonlinear_arith)
        requires
            x == d * q + r,
            0 <= r < d,
            d > 0,
            i64::MIN <= x <= i64::MAX,
    ;
}

/// The cell that a point with floor coordinates `p = (x, y)` falls in.
fn cell_key(p: (i64, i64), grid_size: i64) -> (r: Coordinates)
    requires
        grid_size > 0,
    ensures
        r == cell_of(p, grid_size as int),
{
    proof {
        lemma_floor_div_fits(p.0, grid_size);
        lemma_floor_div_fits(p.1, grid_size);
    }
    let row = match p.1.checked_div_euclid(grid_size) {
        Some(v) => v,
        None => 0,
    };
    let col = match p.0.checked_div_euclid(grid_size) {
        Some(v) => v,
        None => 0,
    };
    (row, col)
}

/// Whether `a` comes before `b`, by row, then by column.
fn coordinates_lt(a: Coordinates, b: Coordinates) -> (r: bool)
    ensures
        r == lex_lt(a, b),
{
    a.0 < b.0 || (a.0 == b.0 && a.1 < b.1)
}

/// Each point of one scan held in the grid lies, by `cell_of`, in the cell that holds it.
pub open spec fn placed(m: Map<Coordinates, Cell>, pts: Seq<(i64, i64)>, grid_size: int, after: bool) -> bool {
    forall|k: Coordinates, q: int|
        #![trigger side(m[k], after)[q]]
        m.dom().contains(k) && 0 <= q < side(m[k], after).len() ==> side(m[k], after)[q] < pts.len()
            && cell_of(pts[side(m[k], after)[q] as int], grid_size) == k
}

/// Points placed in their own cells lie in those cells' squares, while every
/// edge is the base edge.
proof fn lemma_placed_footprint(m: Map<Coordinates, Cell>, pts: Seq<(i64, i64)>, base: int, after: bool)
    requires
        placed(m, pts, base, after),
        base > 0,
        forall|k: Coordinates| #[trigger] m.dom().contains(k) ==> m[k].grid_size == base,
    ensures
        in_footprint(m, pts, base, after),
{
    assert forall|k: Coordinates, q: int|
        m.dom().contains(k) && 0 <= q < side(m[k], after).len() implies within_square(
            k,
            m[k].grid_size as int,
            pts,
            #[trigger] side(m[k], after)[q] as int,
            base,
        ) by {
        let cb = cell_of(pts[side(m[k], after)[q] as int], base);
        assert(cb == k);
        assert((cb.0 - k.0) * base == 0);
        assert((cb.1 - k.1) * base == 0);
    }
}

/// Keeping only some cells, unchanged, keeps every point in its cell's square.
proof fn lemma_sub_footprint(
    m: Map<Coordinates, Cell>,
    r: Map<Coordinates, Cell>,
    pts: Seq<(i64, i64)>,
    base: int,
    after: bool,
)
    requires
        in_footprint(m, pts, base, after),
        forall|k: Coordinates| #[trigger] r.dom().contains(k) ==> m.dom().contains(k) && r[k] == m[k],
    ensures
        in_footprint(r, pts, base, after),
{
    assert forall|k: Coordinates, q: int|
        r.dom().contains(k) && 0 <= q < side(r[k], after).len() implies within_square(
            k,
            r[k].grid_size as int,
            pts,
            #[trigger] side(r[k], after)[q] as int,
            base,
        ) by {
        assert(side(m[k], after)[q] == side(r[k], after)[q]);
    }
}

/// How many of the points `pts` fall in the cell at `k`.
pub open spec fn count_in(pts: Seq<(i64, i64)>, grid_size: int, k: Coordinates) -> nat {
    pts.filter(|p: (i64, i64)| cell_of(p, grid_size) == k).len()
}

proof fn lemma_count_push(pts: Seq<(i64, i64)>, p: (i64, i64), grid_size: int, k: Coordinates)
    ensures
        count_in(pts.push(p), grid_size, k) == count_in(pts, grid_size, k) + if cell_of(p, grid_size)
            == k {
            1int
        } else {
            0int
        },
{
    assert(pts.push(p).drop_last() =~= pts);
    reveal_with_fuel(Seq::filter, 1);
}

/// The indices `0..n`, once each.
pub open spec fn indices(n: nat) -> Multiset<usize> {
    Seq::new(n, |i: int| i as usize).to_multiset()
}

/// A cell holds enough points of each scan, and not too many.
pub open spec fn fits(c: Cell, min_points: usize, max_points: usize) -> bool {
    &&& min_points <= c.before.len() <= max_points
    &&& min_points <= c.after.len() <= max_points
}

impl Grid {
    /// A grid with no cell.
    fn empty(base: i64, datetime: i64, duration: u64) -> (r: Grid)
        requires
            base > 0,
        ensures
            r.wf(),
            r.cells() == Seq::<Cell>::empty(),
            r@ == Map::<Coordinates, Cell>::empty(),
            r.spec_datetime() == datetime,
            r.spec_duration() == duration,
            r.spec_base() == base,
    {
        let r = Grid { cells: Vec::new(), base, datetime, duration };
        assert(r@ =~= Map::<Coordinates, Cell>::empty());
        r
    }

    /// Adds point `t` of one scan (the later if `after`) to the cell at
    /// `key`, making that cell, of edge `grid_size`, if there is none.
    fn add_point(&mut self, key: Coordinates, t: usize, after: bool, grid_size: i64)
        requires
            old(self).wf(),
            grid_size == old(self).spec_base(),
        ensures
            final(self).wf(),
            final(self)@.dom() == old(self)@.dom().insert(key),
            forall|k: Coordinates|
                k != key && old(self)@.dom().contains(k) ==> #[trigger] final(self)@[k] == old(
                    self,
                )@[k],
            final(self)@[key].coordinates == key,
            final(self)@[key].grid_size == if old(self)@.dom().contains(key) {
                old(self)@[key].grid_size
            } else {
                grid_size
            },
            side(final(self)@[key], after) == if old(self)@.dom().contains(key) {
                side(old(self)@[key], after)
            } else {
                Seq::<usize>::empty()
            }.push(t),
            side(final(self)@[key], !after) == if old(self)@.dom().contains(key) {
                side(old(self)@[key], !after)
            } else {
                Seq::<usize>::empty()
            },
            points_of(final(self).cells(), after) == points_of(old(self).cells(), after).insert(t),
            points_of(final(self).cells(), !after) == points_of(old(self).cells(), !after),
            final(self).spec_datetime() == old(self).spec_datetime(),
            final(self).spec_duration() == old(self).spec_duration(),
            final(self).spec_base() == old(self).spec_base(),
    {
        broadcast use vstd::seq_lib::group_to_multiset_ensures;
        broadcast use vstd::multiset::group_multiset_axioms;

        let ghost s = self.cells@;
        let mut j: usize = 0;
        while j < self.cells.len() && coordinates_lt(self.cells[j].coordinates, key)
            invariant
                self.cells@ == s,
                j <= s.len(),
                forall|i: int| 0 <= i < j ==> lex_lt(#[trigger] s[i].coordinates, key),
            decreases s.len() - j,
        {
            j += 1;
        }
        let found = j < self.cells.len() && self.cells[j].coordinates.0 == key.0
            && self.cells[j].coordinates.1 == key.1;
        if found {
            let mut c = self.cells.remove(j);
            if after {
                c.after.push(t);
            } else {
                c.before.push(t);
            }
            proof {
                lemma_replace(s, j as int, c);
            }
            self.cells.insert(j, c);
            assert(self.cells@ == s.update(j as int, c));
            assert(points_of(self.cells@, after) =~= points_of(s, after).insert(t));
            assert(points_of(self.cells@, !after) =~= points_of(s, !after));
        } else {
            let mut c = Cell::new(key, grid_size);
            if after {
                c.after.push(t);
            } else {
                c.before.push(t);
            }
            proof {
                assert forall|i: int| j <= i < s.len() implies lex_lt(
                    key,
                    #[trigger] s[i].coordinates,
                ) by {
                    if i > j {
                        assert(lex_lt(s[j as int].coordinates, s[i].coordinates));
                    }
                }
                if has_key(s, key) {
                    let i = choose|i: int| 0 <= i < s.len() && #[trigger] s[i].coordinates == key;
                    if i >= j {
                        assert(lex_lt(key, s[i].coordinates));
                    } else {
                        assert(lex_lt(s[i].coordinates, key));
                    }
                }
                lemma_map_of_insert(s, j as int, c);
                lemma_points_insert(s, j as int, c, after);
                lemma_points_insert(s, j as int, c, !after);
                assert(side(c, after) == seq![t]);
                assert(side(c, !after) == Seq::<usize>::empty());
                assert(seq![t] == Seq::<usize>::empty().push(t));
            }
            self.cells.insert(j, c);
            assert(points_of(self.cells@, after) =~= points_of(s, after).insert(t));
            assert(points_of(self.cells@, !after) =~= points_of(s, !after));
        }
        proof {
            lemma_map_facts(self.cells@, key);
            assert forall|k: Coordinates| #[trigger] self@.dom().contains(k) implies doubled_from(
                self@[k].grid_size as int,
                self.base as int,
            ) by {
                if k != key {
                    assert(old(self)@.dom().contains(k));
                } else if !old(self)@.dom().contains(key) {
                    reveal_with_fuel(doubled_from, 1);
                }
            }
        }
    }

    /// Buckets the points of both scans, given by the floors of their planar
    /// coordinates, into cells of edge `grid_size`. Point `t` of a scan is
    /// known by its index.
    pub fn from_points(
        before: &Vec<(i64, i64)>,
        after: &Vec<(i64, i64)>,
        grid_size: i64,
        datetime: i64,
        duration: u64,
    ) -> (r: Grid)
        requires
            grid_size > 0,
        ensures
            r.wf(),
            r.before_points() == indices(before.len() as nat),
            r.after_points() == indices(after.len() as nat),
            placed(r@, before@, grid_size as int, false),
            placed(r@, after@, grid_size as int, true),
            in_footprint(r@, before@, grid_size as int, false),
            in_footprint(r@, after@, grid_size as int, true),
            forall|k: Coordinates| #[trigger] r@.dom().contains(k) ==> r@[k].grid_size == grid_size,
            forall|k: Coordinates|
                #[trigger] r@.dom().contains(k) <==> count_in(before@, grid_size as int, k) > 0
                    || count_in(after@, grid_size as int, k) > 0,
            forall|k: Coordinates| #[trigger]
                r@.dom().contains(k) ==> r@[k].before.len() == count_in(before@, grid_size as int, k)
                    && r@[k].after.len() == count_in(after@, grid_size as int, k),
            r.spec_datetime() == datetime,
            r.spec_duration() == duration,
            r.spec_base() == grid_size,
    {
        broadcast use vstd::seq_lib::group_to_multiset_ensures;

        let mut grid = Grid::empty(grid_size, datetime, duration);
        assert(indices(0) =~= Multiset::<usize>::empty());
        assert forall|k: Coordinates| count_in(before@.subrange(0, 0), grid_size as int, k) == 0 by {
            assert(before@.subrange(0, 0) =~= Seq::<(i64, i64)>::empty());
            reveal_with_fuel(Seq::filter, 1);
        }
        for t in 0..before.len()
            invariant
                grid_size > 0,
                grid.wf(),
                grid.before_points() == indices(t as nat),
                grid.after_points() == Multiset::<usize>::empty(),
                placed(grid@, before@, grid_size as int, false),
                forall|k: Coordinates| #[trigger] grid@.dom().contains(k) ==> side(grid@[k], true).len() == 0,
                forall|k: Coordinates| #[trigger] grid@.dom().contains(k) ==> grid@[k].grid_size == grid_size,
                forall|k: Coordinates|
                    #[trigger] grid@.dom().contains(k) <==> count_in(
                        before@.subrange(0, t as int),
                        grid_size as int,
                        k,
                    ) > 0,
                forall|k: Coordinates| #[trigger]
                    grid@.dom().contains(k) ==> grid@[k].before.len() == count_in(
                        before@.subrange(0, t as int),
                        grid_size as int,
                        k,
                    ),
                grid.spec_datetime() == datetime,
                grid.spec_duration() == duration,
                grid.spec_base() == grid_size,
        {
            let key = cell_key(before[t], grid_size);
            let ghost g0 = grid@;
            grid.add_point(key, t, false, grid_size);
            proof {
                let pre = before@.subrange(0, t as int);
                assert(before@.subrange(0, t + 1) =~= pre.push(before@[t as int]));
                assert forall|k: Coordinates| #[trigger] grid@.dom().contains(k) <==> count_in(
                    before@.subrange(0, t + 1),
                    grid_size as int,
                    k,
                ) > 0 by {
                    lemma_count_push(pre, before@[t as int], grid_size as int, k);
                }
                assert forall|k: Coordinates| #[trigger] grid@.dom().contains(k) implies grid@[k].before.len() == count_in(
                    before@.subrange(0, t + 1),
                    grid_size as int,
                    k,
                ) by {
                    lemma_count_push(pre, before@[t as int], grid_size as int, k);
                    if k != key {
                        assert(grid@[k] == g0[k]);
                    }
                }
            }
            proof {
                lemma_indices_next(t as nat);
            }
            assert forall|k: Coordinates, q: int|
                grid@.dom().contains(k) && 0 <= q < side(grid@[k], false).len() implies #[trigger] side(grid@[k], false)[q] < before@.len()
                    && cell_of(before@[side(grid@[k], false)[q] as int], grid_size as int) == k by {
                if k != key {
                    assert(grid@[k] == g0[k]);
                } else if q < side(grid@[k], false).len() - 1 {
                    assert(side(grid@[k], false)[q] == side(g0[k], false)[q]);
                }
            }
            assert forall|k: Coordinates| #[trigger] grid@.dom().contains(k) implies side(grid@[k], true).len() == 0 by {
                if k != key {
                    assert(grid@[k] == g0[k]);
                }
            }
            assert forall|k: Coordinates| #[trigger] grid@.dom().contains(k) implies grid@[k].grid_size == grid_size by {
                if k != key {
                    assert(grid@[k] == g0[k]);
                }
            }
        }
        assert(before@.subrange(0, before.len() as int) =~= before@);
        assert forall|k: Coordinates| count_in(after@.subrange(0, 0), grid_size as int, k) == 0 by {
            assert(after@.subrange(0, 0) =~= Seq::<(i64, i64)>::empty());
            reveal_with_fuel(Seq::filter, 1);
        }
        for t in 0..after.len()
            invariant
                grid_size > 0,
                grid.wf(),
                grid.before_points() == indices(before.len() as nat),
                grid.after_points() == indices(t as nat),
                placed(grid@, before@, grid_size as int, false),
                placed(grid@, after@, grid_size as int, true),
                forall|k: Coordinates| #[trigger] grid@.dom().contains(k) ==> grid@[k].grid_size == grid_size,
                forall|k: Coordinates|
                    #[trigger] grid@.dom().contains(k) <==> count_in(before@, grid_size as int, k) > 0
                        || count_in(after@.subrange(0, t as int), grid_size as int, k) > 0,
                forall|k: Coordinates| #[trigger]
                    grid@.dom().contains(k) ==> grid@[k].before.len() == count_in(before@, grid_size as int, k)
                        && grid@[k].after.len() == count_in(
                        after@.subrange(0, t as int),
                        grid_size as int,
                        k,
                    ),
                grid.spec_datetime() == datetime,
                grid.spec_duration() == duration,
                grid.spec_base() == grid_size,
        {
            let key = cell_key(after[t], grid_size);
            let ghost g0 = grid@;
            grid.add_point(key, t, true, grid_size);
            proof {
                let pre = after@.subrange(0, t as int);
                assert(after@.subrange(0, t + 1) =~= pre.push(after@[t as int]));
                assert forall|k: Coordinates| #[trigger] grid@.dom().contains(k) <==> count_in(before@, grid_size as int, k) > 0
                    || count_in(after@.subrange(0, t + 1), grid_size as int, k) > 0 by {
                    lemma_count_push(pre, after@[t as int], grid_size as int, k);
                }
                assert forall|k: Coordinates| #[trigger] grid@.dom().contains(k) implies grid@[k].before.len() == count_in(before@, grid_size as int, k)
                    && grid@[k].after.len() == count_in(
                    after@.subrange(0, t + 1),
                    grid_size as int,
                    k,
                ) by {
                    lemma_count_push(pre, after@[t as int], grid_size as int, k);
                    if k != key {
                        assert(grid@[k] == g0[k]);
                    }
                }
            }
            proof {
                lemma_indices_next(t as nat);
            }
            assert forall|k: Coordinates, q: int|
                grid@.dom().contains(k) && 0 <= q < side(grid@[k], true).len() implies #[trigger] side(grid@[k], true)[q] < after@.len()
                    && cell_of(after@[side(grid@[k], true)[q] as int], grid_size as int) == k by {
                if k != key {
                    assert(grid@[k] == g0[k]);
                } else if q < side(grid@[k], true).len() - 1 {
                    assert(side(grid@[k], true)[q] == side(g0[k], true)[q]);
                }
            }
            assert forall|k: Coordinates, q: int|
                grid@.dom().contains(k) && 0 <= q < side(grid@[k], false).len() implies #[trigger] side(grid@[k], false)[q] < before@.len()
                    && cell_of(before@[side(grid@[k], false)[q] as int], grid_size as int) == k by {
                if k != key {
                    assert(grid@[k] == g0[k]);
                } else {
                    assert(side(grid@[k], false) == side(g0[k], false));
                }
            }
            assert forall|k: Coordinates| #[trigger] grid@.dom().contains(k) implies grid@[k].grid_size == grid_size by {
                if k != key {
                    assert(grid@[k] == g0[k]);
                }
            }
        }
        assert(after@.subrange(0, after.len() as int) =~= after@);
        proof {
            lemma_placed_footprint(grid@, before@, grid_size as int, false);
            lemma_placed_footprint(grid@, after@, grid_size as int, true);
        }
        grid
    }

    /// Grows, in order of their coordinates, the cells in which either scan
    /// has fewer than `min_points` points, and returns how many were grown.
    /// A cell is grown once: its edge doubles, it keeps its points first, and
    /// its neighbours no larger than it are merged into it. Cells that are not
    /// grown are left as they were, or merged away. Once no cell is too small,
    /// growing changes nothing.
    pub fn grow(&mut self, min_points: usize) -> (count: usize)
        requires
            old(self).wf(),
        ensures
            final(self).wf(),
            final(self)@.dom().subset_of(old(self)@.dom()),
            final(self).before_points() == old(self).before_points(),
            final(self).after_points() == old(self).after_points(),
            final(self).spec_datetime() == old(self).spec_datetime(),
            final(self).spec_duration() == old(self).spec_duration(),
            final(self).spec_base() == old(self).spec_base(),
            count <= old(self)@.len(),
            only_enlarged(old(self)@, final(self)@),
            forall|pts: Seq<(i64, i64)>, after: bool|
                in_footprint(old(self)@, pts, old(self).spec_base() as int, after)
                    ==> #[trigger] in_footprint(final(self)@, pts, old(self).spec_base() as int, after),
            forall|base: int|
                edges_doubled_from(old(self)@, base) ==> #[trigger] edges_doubled_from(final(self)@, base),
            forall|k: Coordinates|
                #[trigger] final(self)@.dom().contains(k) ==> if grows(old(self)@[k], min_points) {
                    &&& grown_once(old(self)@[k], final(self)@[k])
                    &&& forall|n: int| 0 <= n < 3 ==> merged_neighbor(old(self)@, final(self)@, k, n)
                } else {
                    final(self)@[k] == old(self)@[k]
                },
            count == 0 <==> forall|k: Coordinates| #[trigger]
                old(self)@.dom().contains(k) ==> !old(self)@[k].too_small(min_points),
            (forall|k: Coordinates| #[trigger]
                old(self)@.dom().contains(k) ==> !old(self)@[k].too_small(min_points)) ==> (
            final(self).cells() == old(self).cells()),
    {
        let coords = self.coordinates();
        proof {
            self.lemma_len();
        }
        let ghost m0 = self@;
        let ghost all_large = forall|k: Coordinates| #[trigger]
            old(self)@.dom().contains(k) ==> !old(self)@[k].too_small(min_points);
        let mut count: usize = 0;
        for n in 0..coords.len()
            invariant
                m0 == old(self)@,
                coords.len() == old(self)@.len(),
                self.wf(),
                self@.dom().subset_of(old(self)@.dom()),
                self.before_points() == old(self).before_points(),
                self.after_points() == old(self).after_points(),
                self.spec_datetime() == old(self).spec_datetime(),
                self.spec_duration() == old(self).spec_duration(),
                self.spec_base() == old(self).spec_base(),
                count <= n,
                all_large == forall|k: Coordinates| #[trigger]
                    old(self)@.dom().contains(k) ==> !old(self)@[k].too_small(min_points),
                count == 0 ==> self.cells() == old(self).cells() && forall|q: int|
                    0 <= q < n ==> !m0[#[trigger] coords@[q]].too_small(min_points),
                forall|k: Coordinates| coords@.contains(k) <==> #[trigger] old(self)@.dom().contains(k),
                forall|i: int, j: int|
                    0 <= i < j < coords@.len() ==> lex_lt(#[trigger] coords@[i], #[trigger] coords@[j]),
                only_enlarged(old(self)@, self@),
                forall|pts: Seq<(i64, i64)>, after: bool|
                    in_footprint(m0, pts, old(self).spec_base() as int, after)
                        ==> #[trigger] in_footprint(self@, pts, old(self).spec_base() as int, after),
                forall|base: int|
                    edges_doubled_from(old(self)@, base) ==> #[trigger] edges_doubled_from(self@, base),
                all_large ==> count == 0,
                forall|k: Coordinates|
                    #[trigger] self@.dom().contains(k) && self@[k] != m0[k] ==> n > 0 && !lex_lt(
                        coords@[n - 1],
                        k,
                    ) && grows(m0[k], min_points),
                forall|q: int|
                    0 <= q < n && #[trigger] self@.dom().contains(coords@[q]) && grows(
                        m0[coords@[q]],
                        min_points,
                    ) ==> grown_once(m0[coords@[q]], self@[coords@[q]]) && forall|t: int|
                        0 <= t < 3 ==> merged_neighbor(m0, self@, coords@[q], t),
        {
            let k = coords[n];
            let ghost cur = self@;
            proof {
                assert(coords@.contains(k));
                if n > 0 {
                    assert(lex_lt(coords@[n - 1], k));
                }
            }
            match self.find(k) {
                Some(j) => {
                    proof {
                        lemma_map_of_at(self.cells@, j as int);
                        lemma_map_facts(self.cells@, k);
                        assert(cur[k] == m0[k]);
                    }
                    if self.cells[j].is_too_small(min_points) {
                        self.grow_cell(k);
                        count += 1;
                        proof {
                            assert forall|pts: Seq<(i64, i64)>, after: bool|
                                in_footprint(m0, pts, old(self).spec_base() as int, after) implies #[trigger] in_footprint(
                                self@,
                                pts,
                                old(self).spec_base() as int,
                                after,
                            ) by {
                                assert(in_footprint(cur, pts, old(self).spec_base() as int, after));
                            }
                            assert forall|t: int| 0 <= t < 3 && m0[k].grid_size <= i64::MAX / 2 implies merged_neighbor(m0, self@, k, t) by {
                                assert(merged_neighbor(cur, self@, k, t));
                                if let Some(nk) = neighbor_key(k, t) {
                                    if m0.dom().contains(nk) && cur.dom().contains(nk) {
                                        assert(lex_lt(k, nk));
                                        assert(cur[nk] == m0[nk]);
                                    }
                                }
                            }
                        }
                    }
                },
                None => {},
            }
            proof {
                assert forall|kk: Coordinates|
                    #[trigger] self@.dom().contains(kk) && self@[kk] != m0[kk] implies n + 1 > 0
                        && !lex_lt(coords@[n as int], kk) && grows(m0[kk], min_points) by {
                    assert(cur.dom().contains(kk));
                    if kk != k {
                        assert(self@[kk] == cur[kk]);
                    } else {
                        assert(cur[k] == m0[k]);
                        if !grows(m0[k], min_points) {
                            assert(self@[k].grid_size == cur[k].grid_size);
                        }
                    }
                }
                if count == 0 {
                    assert(cur == m0);
                    assert(self@.dom().contains(k));
                    assert forall|q: int| 0 <= q < n + 1 implies !m0[#[trigger] coords@[q]].too_small(min_points) by {
                        if q == n {
                            let j = choose|j: int| 0 <= j < self.cells@.len() && #[trigger] self.cells@[j].coordinates == k;
                            lemma_map_of_at(self.cells@, j);
                        }
                    }
                }
                assert forall|q: int|
                    0 <= q < n + 1 && #[trigger] self@.dom().contains(coords@[q]) && grows(
                        m0[coords@[q]],
                        min_points,
                    ) implies grown_once(m0[coords@[q]], self@[coords@[q]]) && forall|t: int|
                        0 <= t < 3 ==> merged_neighbor(m0, self@, coords@[q], t) by {
                    let kq = coords@[q];
                    assert(cur.dom().contains(kq));
                    if q < n {
                        assert(lex_lt(kq, k));
                        assert(self@[kq] == cur[kq]);
                        assert forall|t: int| 0 <= t < 3 implies merged_neighbor(m0, self@, kq, t) by {
                            assert(merged_neighbor(m0, cur, kq, t));
                        }
                    }
                }
            }
        }
        proof {
            assert forall|k: Coordinates|
                #[trigger] self@.dom().contains(k) implies if grows(m0[k], min_points) {
                    &&& grown_once(m0[k], self@[k])
                    &&& forall|t: int| 0 <= t < 3 ==> merged_neighbor(m0, self@, k, t)
                } else {
                    self@[k] == m0[k]
                } by {
                assert(coords@.contains(k));
                let q = choose|q: int| 0 <= q < coords@.len() && coords@[q] == k;
                assert(self@.dom().contains(coords@[q]));
                if self@[k] != m0[k] && !grows(m0[k], min_points) {
                    assert(self@[k].grid_size >= m0[k].grid_size);
                }
            }
            if !all_large {
                let k = choose|k: Coordinates| old(self)@.dom().contains(k) && old(self)@[k].too_small(min_points);
                assert(coords@.contains(k));
                let q = choose|q: int| 0 <= q < coords@.len() && coords@[q] == k;
                assert(!m0[coords@[q]].too_small(min_points) || count != 0);
            }
        }
        count
    }

    /// Drops the cells in which either scan has fewer than `min_points` or
    /// more than `max_points` points.
    pub fn cull(&mut self, min_points: usize, max_points: usize)
        requires
            old(self).wf(),
        ensures
            final(self).wf(),
            forall|k: Coordinates|
                #[trigger] final(self)@.dom().contains(k) <==> old(self)@.dom().contains(k) && fits(
                    old(self)@[k],
                    min_points,
                    max_points,
                ),
            forall|k: Coordinates| #[trigger]
                final(self)@.dom().contains(k) ==> final(self)@[k] == old(self)@[k],
            final(self).before_points().subset_of(old(self).before_points()),
            final(self).after_points().subset_of(old(self).after_points()),
            final(self).spec_datetime() == old(self).spec_datetime(),
            final(self).spec_duration() == old(self).spec_duration(),
            final(self).spec_base() == old(self).spec_base(),
    {
        broadcast use vstd::multiset::group_multiset_axioms;

        let mut j: usize = 0;
        while j < self.cells.len()
            invariant
                self.wf(),
                j <= self.cells@.len(),
                forall|k: Coordinates| #[trigger]
                    self@.dom().contains(k) ==> old(self)@.dom().contains(k) && self@[k] == old(self)@[k],
                forall|k: Coordinates|
                    #[trigger] old(self)@.dom().contains(k) && fits(old(self)@[k], min_points, max_points)
                        ==> self@.dom().contains(k),
                forall|q: int| 0 <= q < j ==> fits(#[trigger] self.cells@[q], min_points, max_points),
                self.before_points().subset_of(old(self).before_points()),
                self.after_points().subset_of(old(self).after_points()),
                self.spec_datetime() == old(self).spec_datetime(),
                self.spec_duration() == old(self).spec_duration(),
                self.spec_base() == old(self).spec_base(),
            decreases self.cells@.len() - j,
        {
            let c = &self.cells[j];
            let keep = min_points <= c.before.len() && c.before.len() <= max_points
                && min_points <= c.after.len() && c.after.len() <= max_points;
            let ghost s = self.cells@;
            proof {
                lemma_map_of_at(s, j as int);
            }
            if keep {
                j += 1;
            } else {
                proof {
                    lemma_map_of_remove(s, j as int);
                    lemma_points_split(s, j as int, false);
                    lemma_points_split(s, j as int, true);
                }
                let _ = self.cells.remove(j);
                assert forall|q: int| 0 <= q < j implies fits(#[trigger] self.cells@[q], min_points, max_points) by {
                    assert(self.cells@[q] == s[q]);
                }
            }
        }
        assert forall|k: Coordinates|
            #[trigger] self@.dom().contains(k) implies fits(old(self)@[k], min_points, max_points) by {
            let i = choose|i: int| 0 <= i < self.cells@.len() && #[trigger] self.cells@[i].coordinates == k;
            lemma_map_of_at(self.cells@, i);
        }
    }
}


/// What a registration of a sample returned, as far as the grid needs it.
#[derive(Clone, Copy, Debug, PartialEq, Eq)]
pub struct RunSummary {
    /// Whether the registration converged.
    pub converged: bool,
    /// The iterations it took.
    pub iterations: usize,
    /// The rows of the moved matrix.
    pub moved_rows: usize,
}

/// Why a registration gives no velocity.
#[derive(Clone, Copy, Debug, PartialEq, Eq)]
pub enum RunError {
    /// The registration did not converge.
    DidNotConverge(DidNotConverge),
    /// The moved matrix does not have a row for each moving point.
    RowMismatch,
}

impl RunSummary {
    /// Accepts a run that converged and moved each of the `moving_rows` points.
    pub fn check(&self, moving_rows: usize) -> (r: Result<(), RunError>)
        ensures
            r is Ok <==> self.converged && self.moved_rows == moving_rows,
            !self.converged ==> r == Err::<(), RunError>(RunError::DidNotConverge(DidNotConverge {})),
            self.converged && self.moved_rows != moving_rows ==> r == Err::<(), RunError>(RunError::RowMismatch),
    {
        if !self.converged {
            Err(RunError::DidNotConverge(DidNotConverge {}))
        } else if self.moved_rows != moving_rows {
            Err(RunError::RowMismatch)
        } else {
            Ok(())
        }
    }
}

/// The integer part of a velocity measured over a cell.
#[derive(Clone, Copy, Debug, PartialEq, Eq)]
pub struct CellMeasurement {
    /// The number of points of the later scan.
    pub after_points: usize,
    /// The number of points of the earlier scan.
    pub before_points: usize,
    /// The cell's coordinates.
    pub coordinates: Coordinates,
    /// The edge of the cell.
    pub grid_size: i64,
    /// The iterations the registration took.
    pub iterations: usize,
}

/// The measurement over `c` from the registration `run`, whose moving points
/// are the earlier scan's: only a run that converged and moved each of them
/// gives one.
pub open spec fn measurement_of(c: Cell, run: RunSummary) -> Result<CellMeasurement, RunError> {
    if !run.converged {
        Err(RunError::DidNotConverge(DidNotConverge {}))
    } else if run.moved_rows != c.before.len() {
        Err(RunError::RowMismatch)
    } else {
        Ok(
            CellMeasurement {
                after_points: c.after.len(),
                before_points: c.before.len(),
                coordinates: c.coordinates,
                grid_size: c.grid_size,
                iterations: run.iterations,
            },
        )
    }
}

/// A velocity is measured over a cell only from a registration that
/// converged and whose moved matrix has a row for each moving point.
pub proof fn lemma_measured_from_converged_run(c: Cell, run: RunSummary)
    ensures
        measurement_of(c, run) is Ok ==> run.converged && run.moved_rows == c.before.len(),
{
}

impl Cell {
    /// The measurement over this cell from a registration whose moving points
    /// are the earlier scan's, if the run is accepted.
    pub fn measurement(&self, run: &RunSummary) -> (r: Result<CellMeasurement, RunError>)
        ensures
            r == measurement_of(*self, *run),
    {
        match run.check(self.before.len()) {
            Ok(()) => Ok(
                CellMeasurement {
                    after_points: self.after.len(),
                    before_points: self.before.len(),
                    coordinates: self.coordinates,
                    grid_size: self.grid_size,
                    iterations: run.iterations,
                },
            ),
            Err(e) => Err(e),
        }
    }
}

/// Point `i` of `pts` lies in the square of edge `size` whose lower-left
/// base cell is `k`: its own base cell is no more than `size` (in base edges)
/// above or right of `k`, and not below or left of it.
pub open spec fn within_square(k: Coordinates, size: int, pts: Seq<(i64, i64)>, i: int, base: int) -> bool {
    0 <= i < pts.len() && {
        let cb = cell_of(pts[i], base);
        &&& k.0 <= cb.0
        &&& (cb.0 - k.0) * base < size
        &&& k.1 <= cb.1
        &&& (cb.1 - k.1) * base < size
    }
}

/// Every point of one scan held in a cell of `m` lies in that cell's square.
pub open spec fn in_footprint(m: Map<Coordinates, Cell>, pts: Seq<(i64, i64)>, base: int, after: bool) -> bool {
    forall|k: Coordinates, q: int|
        #![trigger side(m[k], after)[q]]
        m.dom().contains(k) && 0 <= q < side(m[k], after).len() ==> within_square(
            k,
            m[k].grid_size as int,
            pts,
            side(m[k], after)[q] as int,
            base,
        )
}

/// Merging a neighbour of edge `size` into the cell at `c`, of edge
/// `2 * size`, keeps every point in its cell's square.
proof fn lemma_merge_footprint(
    m_old: Map<Coordinates, Cell>,
    m_new: Map<Coordinates, Cell>,
    c: Coordinates,
    nk: Coordinates,
    size: int,
    pts: Seq<(i64, i64)>,
    base: int,
    after: bool,
)
    requires
        in_footprint(m_old, pts, base, after),
        m_old.dom().contains(c),
        m_old.dom().contains(nk),
        m_new.dom() == m_old.dom().remove(nk),
        side(m_new[c], after) == side(m_old[c], after) + side(m_old[nk], after),
        m_new[c].grid_size == m_old[c].grid_size,
        m_old[c].grid_size == 2 * size,
        m_old[nk].grid_size == size,
        0 <= nk.0 - c.0 <= 1,
        0 <= nk.1 - c.1 <= 1,
        0 < base <= size,
        forall|k: Coordinates| #[trigger] m_new.dom().contains(k) && k != c ==> m_new[k] == m_old[k],
    ensures
        in_footprint(m_new, pts, base, after),
{
    assert forall|k: Coordinates, q: int|
        m_new.dom().contains(k) && 0 <= q < side(m_new[k], after).len() implies within_square(
            k,
            m_new[k].grid_size as int,
            pts,
            #[trigger] side(m_new[k], after)[q] as int,
            base,
        ) by {
        if k != c {
            assert(side(m_old[k], after)[q] == side(m_new[k], after)[q]);
        } else {
            let n0 = side(m_old[c], after).len() as int;
            if q < n0 {
                assert(side(m_old[c], after)[q] == side(m_new[c], after)[q]);
            } else {
                let i = side(m_old[nk], after)[q - n0];
                assert(side(m_new[c], after)[q] == i);
                assert(within_square(nk, size, pts, i as int, base));
                let cb = cell_of(pts[i as int], base);
                assert((cb.0 - c.0) * base < 2 * size) by (nonlinear_arith)
                    requires
                        (cb.0 - nk.0) * base < size,
                        0 <= nk.0 - c.0 <= 1,
                        0 < base <= size,
                ;
                assert((cb.1 - c.1) * base < 2 * size) by (nonlinear_arith)
                    requires
                        (cb.1 - nk.1) * base < size,
                        0 <= nk.1 - c.1 <= 1,
                        0 < base <= size,
                ;
            }
        }
    }
}

/// `g1` is what one round of growth with `min_points` can make of `g0`:
/// each cell that grows has its edge doubled, keeps its points first and has
/// its neighbours no larger than it merged into it; every other cell is left
/// as it was or merged away; no point is lost or added.
pub open spec fn grow_step(g0: Grid, g1: Grid, min_points: usize) -> bool {
    &&& g1.wf()
    &&& g1@.dom().subset_of(g0@.dom())
    &&& g1.before_points() == g0.before_points()
    &&& g1.after_points() == g0.after_points()
    &&& g1.spec_datetime() == g0.spec_datetime()
    &&& g1.spec_duration() == g0.spec_duration()
    &&& g1.spec_base() == g0.spec_base()
    &&& forall|k: Coordinates|
        #[trigger] g1@.dom().contains(k) ==> if grows(g0@[k], min_points) {
            &&& grown_once(g0@[k], g1@[k])
            &&& forall|n: int| 0 <= n < 3 ==> merged_neighbor(g0@, g1@, k, n)
        } else {
            g1@[k] == g0@[k]
        }
    &&& forall|pts: Seq<(i64, i64)>, after: bool|
        in_footprint(g0@, pts, g0.spec_base() as int, after) ==> #[trigger] in_footprint(
            g1@,
            pts,
            g0.spec_base() as int,
            after,
        )
    &&& (forall|k: Coordinates| #[trigger]
        g0@.dom().contains(k) ==> !g0@[k].too_small(min_points)) ==> g1.cells() == g0.cells()
}

/// `g1` is what `n` rounds of growth with `min_points` can make of `g0`.
pub open spec fn grown_rounds(g0: Grid, g1: Grid, min_points: usize, n: nat) -> bool
    decreases n,
{
    if n == 0 {
        g1 == g0
    } else {
        exists|mid: Grid|
            grown_rounds(g0, mid, min_points, (n - 1) as nat) && #[trigger] grow_step(
                mid,
                g1,
                min_points,
            )
    }
}

proof fn lemma_grown_one_more(g0: Grid, mid: Grid, g1: Grid, min_points: usize, n: nat)
    requires
        grown_rounds(g0, mid, min_points, n),
        grow_step(mid, g1, min_points),
    ensures
        grown_rounds(g0, g1, min_points, n + 1),
{
    let n1: nat = n + 1;
    assert((n1 - 1) as nat == n);
    assert(grown_rounds(g0, mid, min_points, (n1 - 1) as nat) && grow_step(mid, g1, min_points));
    assert(grown_rounds(g0, g1, min_points, n1));
}

/// `r` is `g` without the cells that hold too few or too many points.
pub open spec fn culled(g: Grid, r: Grid, min_points: usize, max_points: usize) -> bool {
    &&& r.wf()
    &&& forall|k: Coordinates|
        #[trigger] r@.dom().contains(k) <==> g@.dom().contains(k) && fits(g@[k], min_points, max_points)
    &&& forall|k: Coordinates| #[trigger] r@.dom().contains(k) ==> r@[k] == g@[k]
    &&& r.before_points().subset_of(g.before_points())
    &&& r.after_points().subset_of(g.after_points())
}

/// `g` holds the points of `b`'s scans bucketed into cells of edge `b.grid_size`.
pub open spec fn bucketed_from(g: Grid, b: Builder) -> bool {
    let gs = b.grid_size as int;
    &&& g.wf()
    &&& g.spec_base() == b.grid_size
    &&& g.before_points() == indices(b.before.len() as nat)
    &&& g.after_points() == indices(b.after.len() as nat)
    &&& placed(g@, b.before@, gs, false)
    &&& placed(g@, b.after@, gs, true)
    &&& forall|k: Coordinates| #[trigger] g@.dom().contains(k) ==> g@[k].grid_size == b.grid_size
    &&& forall|k: Coordinates|
        #[trigger] g@.dom().contains(k) <==> count_in(b.before@, gs, k) > 0 || count_in(b.after@, gs, k) > 0
    &&& forall|k: Coordinates| #[trigger]
        g@.dom().contains(k) ==> g@[k].before.len() == count_in(b.before@, gs, k)
            && g@[k].after.len() == count_in(b.after@, gs, k)
}

/// Settings and points from which a grid is made.
#[derive(Debug)]
pub struct Builder {
    /// Floor planar coordinates of the later scan's points.
    pub after: Vec<(i64, i64)>,
    /// Floor planar coordinates of the earlier scan's points.
    pub before: Vec<(i64, i64)>,
    /// The time of the later scan, in seconds since the Unix epoch.
    pub datetime: i64,
    /// The seconds between the scans.
    pub duration: u64,
    /// The edge of a cell before growth.
    pub grid_size: i64,
    /// The fewest points of each scan that a cell keeps.
    pub min_points: usize,
    /// The most points of each scan that a cell keeps.
    pub max_points: usize,
    /// The rounds of growth.
    pub ngrow: usize,
}

impl Builder {
    /// Starts a grid over the points of two scans, timed by the names of
    /// their files: no growth, no bound on the points of a cell.
    pub fn new(
        before: Vec<(i64, i64)>,
        after: Vec<(i64, i64)>,
        before_path: &str,
        after_path: &str,
        grid_size: i64,
    ) -> (r: Result<Builder, TimestampError>)
        ensures
            match r {
                Ok(b) => {
                    &&& scan_time_of(before_path@) matches Some(tb)
                    &&& scan_time_of(after_path@) matches Some(ta)
                    &&& tb < ta
                    &&& b.datetime == ta
                    &&& b.duration == ta - tb
                    &&& b.before@ == before@
                    &&& b.after@ == after@
                    &&& b.grid_size == grid_size
                    &&& b.min_points == 0
                    &&& b.max_points == usize::MAX
                    &&& b.ngrow == 0
                },
                Err(e) => match (scan_time_of(before_path@), scan_time_of(after_path@)) {
                    (Some(tb), Some(ta)) => tb >= ta && e == TimestampError::NotIncreasing,
                    _ => e == TimestampError::Unparsed,
                },
            },
    {
        match scan_interval(before_path, after_path) {
            Ok(interval) => Ok(
                Builder {
                    after,
                    before,
                    datetime: interval.datetime,
                    duration: interval.seconds,
                    grid_size,
                    min_points: 0,
                    max_points: usize::MAX,
                    ngrow: 0,
                },
            ),
            Err(e) => Err(e),
        }
    }

    /// Sets the number of times the grid grows.
    pub fn ngrow(self, ngrow: usize) -> (r: Builder)
        ensures
            r == (Builder { ngrow, ..self }),
    {
        Builder { ngrow, ..self }
    }

    /// Sets the fewest points of each scan that a cell keeps.
    pub fn min_points(self, min_points: usize) -> (r: Builder)
        ensures
            r == (Builder { min_points, ..self }),
    {
        Builder { min_points, ..self }
    }

    /// Sets the most points of each scan that a cell keeps.
    pub fn max_points(self, max_points: usize) -> (r: Builder)
        ensures
            r == (Builder { max_points, ..self }),
    {
        Builder { max_points, ..self }
    }

    /// No cell holds fewer than `min_points` points of either scan before growth.
    pub open spec fn settled(&self) -> bool {
        forall|k: Coordinates|
            #![trigger count_in(self.before@, self.grid_size as int, k)]
            #![trigger count_in(self.after@, self.grid_size as int, k)]
            count_in(self.before@, self.grid_size as int, k) > 0 || count_in(
                self.after@,
                self.grid_size as int,
                k,
            ) > 0 ==> self.min_points <= count_in(self.before@, self.grid_size as int, k)
                && self.min_points <= count_in(self.after@, self.grid_size as int, k)
    }

    /// Makes the grid: buckets the points, grows the under-populated cells
    /// `ngrow` times, then drops the cells with too few or too many points.
    pub fn into_grid(self) -> (r: Grid)
        requires
            self.grid_size > 0,
        ensures
            r.wf(),
            forall|k: Coordinates| #[trigger]
                r@.dom().contains(k) ==> fits(r@[k], self.min_points, self.max_points),
            edges_doubled_from(r@, self.grid_size as int),
            in_footprint(r@, self.before@, self.grid_size as int, false),
            in_footprint(r@, self.after@, self.grid_size as int, true),
            r.before_points().subset_of(indices(self.before.len() as nat)),
            r.after_points().subset_of(indices(self.after.len() as nat)),
            self.ngrow == 0 || self.settled() ==> forall|k: Coordinates|
                #[trigger] r@.dom().contains(k) <==> {
                    let nb = count_in(self.before@, self.grid_size as int, k);
                    let na = count_in(self.after@, self.grid_size as int, k);
                    &&& nb > 0 || na > 0
                    &&& self.min_points <= nb <= self.max_points
                    &&& self.min_points <= na <= self.max_points
                },
            exists|b: Grid, g: Grid|
                bucketed_from(b, self) && #[trigger] grown_rounds(b, g, self.min_points, self.ngrow as nat)
                    && #[trigger] culled(g, r, self.min_points, self.max_points),
            r.spec_datetime() == self.datetime,
            r.spec_duration() == self.duration,
            r.spec_base() == self.grid_size,
    {
        broadcast use vstd::multiset::group_multiset_axioms;

        let mut grid = Grid::from_points(
            &self.before,
            &self.after,
            self.grid_size,
            self.datetime,
            self.duration,
        );
        let ghost bucketed = grid@;
        let ghost b: Grid = grid;
        assert(bucketed_from(b, self));
        assert(edges_doubled_from(grid@, self.grid_size as int)) by {
            assert forall|k: Coordinates| #[trigger] grid@.dom().contains(k) implies doubled_from(
                grid@[k].grid_size as int,
                self.grid_size as int,
            ) by {
                reveal_with_fuel(doubled_from, 1);
            }
        }
        assert(self.settled() ==> forall|k: Coordinates| #[trigger]
            bucketed.dom().contains(k) ==> !bucketed[k].too_small(self.min_points));
        for round in 0..self.ngrow
            invariant
                grown_rounds(b, grid, self.min_points, round as nat),
                in_footprint(grid@, self.before@, self.grid_size as int, false),
                in_footprint(grid@, self.after@, self.grid_size as int, true),
                self.ngrow == 0 || self.settled() ==> grid@ == bucketed,
                edges_doubled_from(grid@, self.grid_size as int),
                self.settled() ==> forall|k: Coordinates| #[trigger]
                    bucketed.dom().contains(k) ==> !bucketed[k].too_small(self.min_points),
                grid.wf(),
                grid.before_points() == indices(self.before.len() as nat),
                grid.after_points() == indices(self.after.len() as nat),
                grid.spec_datetime() == self.datetime,
                grid.spec_duration() == self.duration,
                grid.spec_base() == self.grid_size,
        {
            let ghost prev: Grid = grid;
            grid.grow(self.min_points);
            assert(grow_step(prev, grid, self.min_points));
            assert(grown_rounds(b, prev, self.min_points, round as nat));
            proof {
                lemma_grown_one_more(b, prev, grid, self.min_points, round as nat);
            }
        }
        let ghost grown = grid@;
        let ghost g: Grid = grid;
        grid.cull(self.min_points, self.max_points);
        assert(culled(g, grid, self.min_points, self.max_points));
        proof {
            lemma_sub_footprint(g@, grid@, self.before@, self.grid_size as int, false);
            lemma_sub_footprint(g@, grid@, self.after@, self.grid_size as int, true);
            assert(in_footprint(grid@, self.before@, self.grid_size as int, false));
            assert(in_footprint(grid@, self.after@, self.grid_size as int, true));
        }
        proof {
            if self.ngrow == 0 || self.settled() {
                assert forall|k: Coordinates| #[trigger] grid@.dom().contains(k) <==> {
                    let nb = count_in(self.before@, self.grid_size as int, k);
                    let na = count_in(self.after@, self.grid_size as int, k);
                    &&& nb > 0 || na > 0
                    &&& self.min_points <= nb <= self.max_points
                    &&& self.min_points <= na <= self.max_points
                } by {
                    if bucketed.dom().contains(k) {
                        assert(grown[k] == bucketed[k]);
                    }
                }
            }
        }
        grid
    }
}

proof fn lemma_indices_next(n: nat)
    requires
        n < usize::MAX,
    ensures
        indices(n + 1) == indices(n).insert(n as usize),
{
    let a = Seq::new(n, |i: int| i as usize);
    assert(Seq::new(n + 1, |i: int| i as usize) =~= a.push(n as usize));
    vstd::seq_lib::to_multiset_build(a, n as usize);
}

proof fn lemma_dom_len(s: Seq<Cell>)
    requires
        cells_wf(s),
    ensures
        map_of(s).dom().len() == s.len(),
        map_of(s).dom().finite(),
    decreases s.len(),
{
    if s.len() == 0 {
        assert(map_of(s).dom() =~= Set::<Coordinates>::empty());
    } else {
        let j = s.len() - 1;
        lemma_map_of_remove(s, j);
        lemma_map_of_at(s, j);
        lemma_dom_len(s.remove(j));
        assert(map_of(s).dom() =~= map_of(s.remove(j)).dom().insert(s[j].coordinates));
    }
}

} // verus!
