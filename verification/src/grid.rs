//! The sparse grid: alive cells as a set of lattice coordinates.
//!
//! A coordinate is alive exactly when it is a member of the grid's set;
//! absence means dead. The grid is modelled by its view, a mathematical set
//! of integer pairs, and the adjacency queries are specified against that
//! set together with the fixed Moore-neighbourhood offsets.

use vstd::prelude::*;

verus! {

broadcast use {
    vstd::prelude::Seq::lemma_push_to_set_commute,
    vstd::prelude::Seq::lemma_push_map_commute,
};

/// A lattice position: a pair of signed 32-bit integers.
///
/// A value type with no identity beyond its components; any signed pair is
/// valid, negative coordinates included.
#[derive(Copy, Clone, Debug, PartialEq, Eq, Hash, Structural)]
pub struct Vector {
    pub x: i32,
    pub y: i32,
}

impl View for Vector {
    type V = (int, int);

    open spec fn view(&self) -> (int, int) {
        (self.x as int, self.y as int)
    }
}

impl Vector {
    /// Construct a position; no validation, the whole lattice is admissible.
    pub fn new(x: i32, y: i32) -> (v: Vector)
        ensures
            v@ == (x as int, y as int),
    {
        Vector { x, y }
    }

    /// The position at offset `(dx, dy)`, or `None` when that position lies
    /// beyond the representable lattice.
    pub fn translated(&self, dx: i32, dy: i32) -> (r: Option<Vector>)
        ensures
            match r {
                Some(n) => n@ == translate(self@, dx as int, dy as int) && in_lattice(
                    translate(self@, dx as int, dy as int),
                ),
                None => !in_lattice(translate(self@, dx as int, dy as int)),
            },
    {
        match (self.x.checked_add(dx), self.y.checked_add(dy)) {
            (Some(nx), Some(ny)) => Some(Vector { x: nx, y: ny }),
            _ => None,
        }
    }
}

/// Component-wise translation of a position by an offset.
pub open spec fn translate(p: (int, int), dx: int, dy: int) -> (int, int) {
    (p.0 + dx, p.1 + dy)
}

/// Both sums of a component-wise addition stay representable.
pub open spec fn sum_in_range(a: (int, int), b: (int, int)) -> bool {
    &&& i32::MIN <= a.0 + b.0 <= i32::MAX
    &&& i32::MIN <= a.1 + b.1 <= i32::MAX
}

impl vstd::std_specs::ops::AddSpecImpl for Vector {
    open spec fn obeys_add_spec() -> bool {
        true
    }

    open spec fn add_req(self, rhs: Vector) -> bool {
        sum_in_range(self@, rhs@)
    }

    open spec fn add_spec(self, rhs: Vector) -> Vector {
        Vector { x: (self.x + rhs.x) as i32, y: (self.y + rhs.y) as i32 }
    }
}

impl core::ops::Add for Vector {
    type Output = Vector;

    /// Component-wise sum; owned and by-reference operands give the same result.
    fn add(self, rhs: Vector) -> Vector {
        Vector { x: self.x + rhs.x, y: self.y + rhs.y }
    }
}

impl vstd::std_specs::ops::AddSpecImpl<&Vector> for Vector {
    open spec fn obeys_add_spec() -> bool {
        true
    }

    open spec fn add_req(self, rhs: &Vector) -> bool {
        sum_in_range(self@, rhs@)
    }

    open spec fn add_spec(self, rhs: &Vector) -> Vector {
        Vector { x: (self.x + rhs.x) as i32, y: (self.y + rhs.y) as i32 }
    }
}

impl core::ops::Add<&Vector> for Vector {
    type Output = Vector;

    fn add(self, rhs: &Vector) -> Vector {
        Vector { x: self.x + rhs.x, y: self.y + rhs.y }
    }
}

impl<'a, 'b> vstd::std_specs::ops::AddSpecImpl<&'b Vector> for &'a Vector {
    open spec fn obeys_add_spec() -> bool {
        true
    }

    open spec fn add_req(self, rhs: &'b Vector) -> bool {
        sum_in_range(self@, rhs@)
    }

    open spec fn add_spec(self, rhs: &'b Vector) -> Vector {
        Vector { x: (self.x + rhs.x) as i32, y: (self.y + rhs.y) as i32 }
    }
}

impl<'a, 'b> core::ops::Add<&'b Vector> for &'a Vector {
    type Output = Vector;

    fn add(self, rhs: &'b Vector) -> Vector {
        Vector { x: self.x + rhs.x, y: self.y + rhs.y }
    }
}

/// The position lies on the representable lattice.
pub open spec fn in_lattice(p: (int, int)) -> bool {
    &&& i32::MIN <= p.0 <= i32::MAX
    &&& i32::MIN <= p.1 <= i32::MAX
}

/// `q` is one of the eight Moore neighbours of `p`.
pub open spec fn is_neighbour(p: (int, int), q: (int, int)) -> bool {
    &&& q != p
    &&& -1 <= q.0 - p.0 <= 1
    &&& -1 <= q.1 - p.1 <= 1
}

/// 1 if `p` is alive in `s`, else 0.
pub open spec fn alive_flag(s: Set<(int, int)>, p: (int, int)) -> int {
    if s.contains(p) {
        1
    } else {
        0
    }
}

/// How many of the eight Moore neighbours of `p` are alive in `s`.
pub open spec fn neighbour_count(s: Set<(int, int)>, p: (int, int)) -> int {
    alive_flag(s, translate(p, -1, -1)) + alive_flag(s, translate(p, 0, -1)) + alive_flag(
        s,
        translate(p, 1, -1),
    ) + alive_flag(s, translate(p, -1, 0)) + alive_flag(s, translate(p, 1, 0)) + alive_flag(
        s,
        translate(p, -1, 1),
    ) + alive_flag(s, translate(p, 0, 1)) + alive_flag(s, translate(p, 1, 1))
}

/// A one-element sequence holding `p` if it is alive in `s`, else empty.
pub open spec fn alive_singleton(s: Set<(int, int)>, p: (int, int)) -> Seq<(int, int)> {
    if s.contains(p) {
        seq![p]
    } else {
        Seq::empty()
    }
}

/// The alive Moore neighbours of `p`, enumerated in the fixed offset order:
/// the row above left to right, then the own row, then the row below.
pub open spec fn alive_neighbours(s: Set<(int, int)>, p: (int, int)) -> Seq<(int, int)> {
    alive_singleton(s, translate(p, -1, -1)) + alive_singleton(s, translate(p, 0, -1))
        + alive_singleton(s, translate(p, 1, -1)) + alive_singleton(s, translate(p, -1, 0))
        + alive_singleton(s, translate(p, 1, 0)) + alive_singleton(s, translate(p, -1, 1))
        + alive_singleton(s, translate(p, 0, 1)) + alive_singleton(s, translate(p, 1, 1))
}

/// The views of a sequence of positions.
pub open spec fn coords_seq(s: Seq<Vector>) -> Seq<(int, int)> {
    s.map_values(|v: Vector| v@)
}

/// The set of currently alive cells.
///
/// Sparse representation: exactly the alive coordinates are stored, so the
/// size is the population, and the lattice itself is unbounded. The view is
/// the mathematical set of stored coordinates; a well-formed grid stores
/// each coordinate once.
#[derive(Clone, Debug)]
pub struct Grid {
    cells: Vec<Vector>,
}

impl View for Grid {
    type V = Set<(int, int)>;

    closed spec fn view(&self) -> Set<(int, int)> {
        coords_seq(self.cells@).to_set()
    }
}

impl Grid {
    /// The representation invariant: no coordinate is stored twice.
    pub closed spec fn wf(&self) -> bool {
        coords_seq(self.cells@).no_duplicates()
    }

    /// An empty grid: every cell is dead.
    pub fn new() -> (g: Grid)
        ensures
            g@ == Set::<(int, int)>::empty(),
            g.wf(),
    {
        let g = Grid { cells: Vec::new() };
        proof {
            assert(g@ =~= Set::<(int, int)>::empty());
        }
        g
    }

    /// True exactly when `cell` is alive.
    pub fn contains(&self, cell: &Vector) -> (alive: bool)
        ensures
            alive == self@.contains(cell@),
    {
        let n = self.cells.len();
        for i in 0..n
            invariant
                n == self.cells.len(),
                forall|j: int| 0 <= j < i ==> coords_seq(self.cells@)[j] != cell@,
        {
            if self.cells[i] == *cell {
                proof {
                    assert(coords_seq(self.cells@)[i as int] == cell@);
                    assert(coords_seq(self.cells@).contains(cell@));
                }
                return true;
            }
        }
        proof {
            assert(!coords_seq(self.cells@).contains(cell@));
        }
        false
    }

    /// Mark `cell` alive. Adding an already-alive cell changes nothing.
    pub fn add_cell(&mut self, cell: &Vector)
        requires
            old(self).wf(),
        ensures
            final(self).wf(),
            final(self)@ == old(self)@.insert(cell@),
    {
        if !self.contains(cell) {
            let ghost before = coords_seq(self.cells@);
            self.cells.push(*cell);
            proof {
                assert(coords_seq(self.cells@) =~= before.push(cell@));
                assert(coords_seq(self.cells@).no_duplicates());
                assert(self@ =~= old(self)@.insert(cell@));
            }
        } else {
            proof {
                assert(self@.contains(cell@));
                assert(self@ =~= old(self)@.insert(cell@));
            }
        }
    }

    /// Mark every listed cell alive; the result is order-independent.
    pub fn add_cells(&mut self, cells: &Vec<Vector>)
        requires
            old(self).wf(),
        ensures
            final(self).wf(),
            final(self)@ == old(self)@.union(coords_seq(cells@).to_set()),
    {
        let n = cells.len();
        for i in 0..n
            invariant
                n == cells.len(),
                self.wf(),
                self@ == old(self)@.union(coords_seq(cells@.take(i as int)).to_set()),
        {
            self.add_cell(&cells[i]);
            proof {
                assert(coords_seq(cells@.take(i + 1)) =~= coords_seq(cells@.take(i as int)).push(
                    cells@[i as int]@,
                ));
                assert(self@ =~= old(self)@.union(coords_seq(cells@.take(i + 1)).to_set()));
            }
        }
        proof {
            assert(cells@.take(n as int) =~= cells@);
        }
    }

    /// Mark `cell` dead. Removing an already-dead cell changes nothing.
    pub fn remove_cell(&mut self, cell: &Vector)
        requires
            old(self).wf(),
        ensures
            final(self).wf(),
            final(self)@ == old(self)@.remove(cell@),
    {
        let n = self.cells.len();
        for i in 0..n
            invariant
                n == self.cells.len(),
                self == old(self),
                old(self).wf(),
                forall|j: int| 0 <= j < i ==> coords_seq(self.cells@)[j] != cell@,
        {
            if self.cells[i] == *cell {
                proof {
                    assert(coords_seq(self.cells@)[i as int] == cell@);
                }
                self.cells.remove(i);
                proof {
                    lemma_remove_index_to_set(coords_seq(old(self).cells@), i as int);
                    assert(coords_seq(self.cells@) =~= coords_seq(old(self).cells@).remove(
                        i as int,
                    ));
                    assert(self@ =~= old(self)@.remove(cell@));
                }
                return;
            }
        }
        proof {
            assert(!coords_seq(self.cells@).contains(cell@));
            assert(self@ =~= old(self)@.remove(cell@));
        }
    }

    /// Every currently alive cell, one listing per cell on a well-formed grid.
    pub fn get_occupied_cells(&self) -> (occupied: Vec<Vector>)
        ensures
            coords_seq(occupied@).to_set() == self@,
            self.wf() ==> coords_seq(occupied@).no_duplicates(),
    {
        let n = self.cells.len();
        let mut occupied: Vec<Vector> = Vec::new();
        for i in 0..n
            invariant
                n == self.cells.len(),
                occupied@ == self.cells@.take(i as int),
        {
            occupied.push(self.cells[i]);
            proof {
                assert(occupied@ =~= self.cells@.take(i + 1));
            }
        }
        proof {
            assert(occupied@ =~= self.cells@);
            assert(coords_seq(occupied@).to_set() =~= self@);
        }
        occupied
    }

    /// The alive subset of `cell`'s Moore neighbourhood, in the fixed
    /// offset enumeration order.
    #[verifier::rlimit(100)]
    #[verifier::spinoff_prover]
    pub fn get_neighbours(&self, cell: &Vector) -> (neighbours: Vec<Vector>)
        ensures
            coords_seq(neighbours@) == alive_neighbours(self@, cell@),
    {
        let mut neighbours: Vec<Vector> = Vec::new();
        if let Some(n) = self.neighbour_if_alive(cell, -1, -1) {
            neighbours.push(n);
        }
        let ghost part1 = alive_singleton(self@, translate(cell@, -1, -1));
        proof {
            assert(coords_seq(neighbours@) =~= part1);
        }
        if let Some(n) = self.neighbour_if_alive(cell, 0, -1) {
            neighbours.push(n);
        }
        let ghost part2 = part1 + alive_singleton(self@, translate(cell@, 0, -1));
        proof {
            assert(coords_seq(neighbours@) =~= part2);
        }
        if let Some(n) = self.neighbour_if_alive(cell, 1, -1) {
            neighbours.push(n);
        }
        let ghost part3 = part2 + alive_singleton(self@, translate(cell@, 1, -1));
        proof {
            assert(coords_seq(neighbours@) =~= part3);
        }
        if let Some(n) = self.neighbour_if_alive(cell, -1, 0) {
            neighbours.push(n);
        }
        let ghost part4 = part3 + alive_singleton(self@, translate(cell@, -1, 0));
        proof {
            assert(coords_seq(neighbours@) =~= part4);
        }
        if let Some(n) = self.neighbour_if_alive(cell, 1, 0) {
            neighbours.push(n);
        }
        let ghost part5 = part4 + alive_singleton(self@, translate(cell@, 1, 0));
        proof {
            assert(coords_seq(neighbours@) =~= part5);
        }
        if let Some(n) = self.neighbour_if_alive(cell, -1, 1) {
            neighbours.push(n);
        }
        let ghost part6 = part5 + alive_singleton(self@, translate(cell@, -1, 1));
        proof {
            assert(coords_seq(neighbours@) =~= part6);
        }
        if let Some(n) = self.neighbour_if_alive(cell, 0, 1) {
            neighbours.push(n);
        }
        let ghost part7 = part6 + alive_singleton(self@, translate(cell@, 0, 1));
        proof {
            assert(coords_seq(neighbours@) =~= part7);
        }
        if let Some(n) = self.neighbour_if_alive(cell, 1, 1) {
            neighbours.push(n);
        }
        let ghost part8 = part7 + alive_singleton(self@, translate(cell@, 1, 1));
        proof {
            assert(coords_seq(neighbours@) =~= part8);
        }
        proof {
            assert(coords_seq(neighbours@) =~= alive_neighbours(self@, cell@));
        }
        neighbours
    }

    /// The neighbour of `cell` at offset `(dx, dy)` if that position is
    /// alive; positions beyond the lattice edge are never alive.
    fn neighbour_if_alive(&self, cell: &Vector, dx: i32, dy: i32) -> (r: Option<Vector>)
        requires
            -1 <= dx <= 1,
            -1 <= dy <= 1,
        ensures
            match r {
                Some(n) => n@ == translate(cell@, dx as int, dy as int) && self@.contains(n@),
                None => !self@.contains(translate(cell@, dx as int, dy as int)),
            },
    {
        proof {
            self.lemma_view_in_lattice();
        }
        match (cell.x.checked_add(dx), cell.y.checked_add(dy)) {
            (Some(nx), Some(ny)) => {
                let n = Vector { x: nx, y: ny };
                if self.contains(&n) {
                    Some(n)
                } else {
                    None
                }
            },
            _ => None,
        }
    }

    /// Every member of the view is a representable position.
    pub proof fn lemma_view_in_lattice(&self)
        ensures
            forall|p: (int, int)| #[trigger] self@.contains(p) ==> in_lattice(p),
    {
        assert forall|p: (int, int)| #[trigger] self@.contains(p) implies in_lattice(p) by {
            let s = coords_seq(self.cells@);
            let i = choose|i: int| 0 <= i < s.len() && s[i] == p;
            assert(s[i] == self.cells@[i]@);
        }
    }

    /// True exactly when every alive cell of `self` is alive in `other`.
    fn contains_all(&self, other: &Grid) -> (r: bool)
        ensures
            r == self@.subset_of(other@),
    {
        let n = self.cells.len();
        for i in 0..n
            invariant
                n == self.cells.len(),
                forall|j: int| 0 <= j < i ==> other@.contains(coords_seq(self.cells@)[j]),
        {
            if !other.contains(&self.cells[i]) {
                proof {
                    assert(coords_seq(self.cells@)[i as int] == self.cells@[i as int]@);
                    assert(self@.contains(self.cells@[i as int]@));
                }
                return false;
            }
        }
        proof {
            assert forall|p: (int, int)| self@.contains(p) implies other@.contains(p) by {
                let s = coords_seq(self.cells@);
                let j = choose|j: int| 0 <= j < s.len() && s[j] == p;
                assert(other@.contains(s[j]));
            }
        }
        true
    }
}

impl PartialEq for Grid {
    /// Two grids are equal exactly when the same cells are alive in both.
    fn eq(&self, other: &Grid) -> (r: bool) {
        let r = self.contains_all(other) && other.contains_all(self);
        proof {
            if r {
                assert(self@ =~= other@);
            }
        }
        r
    }
}

impl vstd::std_specs::cmp::PartialEqSpecImpl for Grid {
    open spec fn obeys_eq_spec() -> bool {
        true
    }

    open spec fn eq_spec(&self, other: &Grid) -> bool {
        self@ == other@
    }
}

/// Removing the position at index `i` of a duplicate-free sequence removes
/// exactly that position from the sequence's set of elements.
proof fn lemma_remove_index_to_set(s: Seq<(int, int)>, i: int)
    requires
        0 <= i < s.len(),
        s.no_duplicates(),
    ensures
        s.remove(i).no_duplicates(),
        s.remove(i).to_set() == s.to_set().remove(s[i]),
{
    let t = s.remove(i);
    assert forall|p: (int, int)| t.to_set().contains(p) implies s.to_set().remove(s[i]).contains(
        p,
    ) by {
        let j = choose|j: int| 0 <= j < t.len() && t[j] == p;
        if j < i {
            assert(s[j] == p);
        } else {
            assert(s[j + 1] == p);
        }
    }
    assert forall|p: (int, int)| s.to_set().remove(s[i]).contains(p) implies t.to_set().contains(
        p,
    ) by {
        let j = choose|j: int| 0 <= j < s.len() && s[j] == p;
        if j < i {
            assert(t[j] == p);
            assert(t.contains(p));
        } else {
            assert(t[j - 1] == p);
            assert(t.contains(p));
        }
    }
    assert(t.to_set() =~= s.to_set().remove(s[i]));
}

/// The alive-neighbour enumeration has one entry per alive neighbour, so its
/// length is the alive-neighbour count.
pub proof fn lemma_alive_neighbours_len(s: Set<(int, int)>, p: (int, int))
    ensures
        alive_neighbours(s, p).len() == neighbour_count(s, p),
{
}

/// Membership is idempotent: adding an alive cell again changes neither the
/// alive set nor the population.
pub proof fn lemma_add_cell_idempotent(g: Grid, c: Vector)
    ensures
        g@.insert(c@).insert(c@) == g@.insert(c@),
        g@.insert(c@).contains(c@),
        g@.insert(c@).insert(c@).len() == g@.insert(c@).len(),
{
    assert(g@.insert(c@).insert(c@) =~= g@.insert(c@));
}

/// Removing a cell right after adding it leaves the cell dead.
pub proof fn lemma_remove_after_add(g: Grid, c: Vector)
    ensures
        !g@.insert(c@).remove(c@).contains(c@),
{
}

/// Neighbourhood symmetry: once `a` is alive, `a` is enumerated among the
/// alive neighbours of each of its Moore neighbours `b`, and `a` is in turn
/// a Moore neighbour of `b`.
pub proof fn lemma_neighbour_symmetry(g: Grid, a: Vector, b: Vector)
    requires
        is_neighbour(a@, b@),
    ensures
        is_neighbour(b@, a@),
        alive_neighbours(g@.insert(a@), b@).contains(a@),
{
    broadcast use vstd::seq_lib::group_seq_properties;

    let s = g@.insert(a@);
    let dx = a@.0 - b@.0;
    let dy = a@.1 - b@.1;
    assert(s.contains(translate(b@, dx, dy)));
    assert(alive_singleton(s, translate(b@, dx, dy))[0] == a@);
    assert(alive_neighbours(s, b@).contains(a@));
}

} // verus!
