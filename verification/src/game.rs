//! The generation stepper and the viewport: deriving generation N+1 from
//! generation N, and rendering a finite window of a generation as text.

use vstd::prelude::*;

use crate::grid::Grid;
use crate::grid::Vector;
use crate::grid::coords_seq;
use crate::grid::in_lattice;
use crate::grid::is_neighbour;
use crate::grid::neighbour_count;
use crate::grid::translate;
use crate::rules::HasThreeNeighbours;
use crate::rules::HasTwoOrThreeNeighbours;
use crate::rules::Rule;
use crate::rules::born;
use crate::rules::survives;
use vstd::string::StringExecFns;

verus! {

/// The next generation of an alive set: a representable position is alive
/// afterwards exactly when it survives (alive with two or three alive
/// neighbours) or is born (three alive neighbours). Neighbour counts are
/// always taken against the old generation, never against a partial update.
pub open spec fn step_spec(s: Set<(int, int)>) -> Set<(int, int)> {
    Set::new(|p: (int, int)| in_lattice(p) && (survives(s, p) || born(s, p)))
}

/// Mark every representable Moore neighbour of `cell` alive in `frontier`.
fn add_neighbourhood(frontier: &mut Grid, cell: &Vector)
    requires
        old(frontier).wf(),
    ensures
        final(frontier).wf(),
        forall|p: (int, int)|
            #[trigger] final(frontier)@.contains(p) <==> (old(frontier)@.contains(p) || (
            is_neighbour(cell@, p) && in_lattice(p))),
{
    if let Some(n) = cell.translated(-1, -1) {
        frontier.add_cell(&n);
    }
    if let Some(n) = cell.translated(0, -1) {
        frontier.add_cell(&n);
    }
    if let Some(n) = cell.translated(1, -1) {
        frontier.add_cell(&n);
    }
    if let Some(n) = cell.translated(-1, 0) {
        frontier.add_cell(&n);
    }
    if let Some(n) = cell.translated(1, 0) {
        frontier.add_cell(&n);
    }
    if let Some(n) = cell.translated(-1, 1) {
        frontier.add_cell(&n);
    }
    if let Some(n) = cell.translated(0, 1) {
        frontier.add_cell(&n);
    }
    if let Some(n) = cell.translated(1, 1) {
        frontier.add_cell(&n);
    }
    proof {
        assert forall|p: (int, int)| #[trigger]
            frontier@.contains(p) <==> (old(frontier)@.contains(p) || (is_neighbour(cell@, p)
                && in_lattice(p))) by {
            if is_neighbour(cell@, p) {
                let dx = p.0 - cell@.0;
                let dy = p.1 - cell@.1;
                assert(p == translate(cell@, dx, dy));
            }
        }
    }
}

/// A position with at least one alive neighbour has an alive Moore
/// neighbour; in particular it lies next to the alive region.
proof fn lemma_positive_count_has_neighbour(s: Set<(int, int)>, p: (int, int))
    requires
        neighbour_count(s, p) > 0,
    ensures
        exists|a: (int, int)| s.contains(a) && is_neighbour(a, p),
{
    let n1 = translate(p, -1, -1);
    let n2 = translate(p, 0, -1);
    let n3 = translate(p, 1, -1);
    let n4 = translate(p, -1, 0);
    let n5 = translate(p, 1, 0);
    let n6 = translate(p, -1, 1);
    let n7 = translate(p, 0, 1);
    let n8 = translate(p, 1, 1);
    if s.contains(n1) {
        assert(s.contains(n1) && is_neighbour(n1, p));
    } else if s.contains(n2) {
        assert(s.contains(n2) && is_neighbour(n2, p));
    } else if s.contains(n3) {
        assert(s.contains(n3) && is_neighbour(n3, p));
    } else if s.contains(n4) {
        assert(s.contains(n4) && is_neighbour(n4, p));
    } else if s.contains(n5) {
        assert(s.contains(n5) && is_neighbour(n5, p));
    } else if s.contains(n6) {
        assert(s.contains(n6) && is_neighbour(n6, p));
    } else if s.contains(n7) {
        assert(s.contains(n7) && is_neighbour(n7, p));
    } else {
        assert(s.contains(n8) && is_neighbour(n8, p));
    }
}

/// Locality of the step: every cell of the next generation is an alive cell
/// of the current one or a Moore neighbour of one, so stepping never touches
/// positions outside the alive cells' neighbourhoods.
pub proof fn lemma_step_is_local(s: Set<(int, int)>, p: (int, int))
    requires
        step_spec(s).contains(p),
    ensures
        s.contains(p) || exists|a: (int, int)| s.contains(a) && is_neighbour(a, p),
{
    if !s.contains(p) {
        lemma_positive_count_has_neighbour(s, p);
    }
}

/// An alive cell with no alive neighbours is absent from the next
/// generation, wherever it lies on the lattice.
pub proof fn lemma_isolated_cell_dies(c: Vector)
    ensures
        step_spec(Set::<(int, int)>::empty().insert(c@)) == Set::<(int, int)>::empty(),
{
    let s = Set::<(int, int)>::empty().insert(c@);
    assert forall|p: (int, int)| !(#[trigger] step_spec(s).contains(p)) by {
        assert(neighbour_count(s, p) <= 1);
    }
    assert(step_spec(s) =~= Set::<(int, int)>::empty());
}

/// A filled two-by-two block is a fixed point of the step, wherever it
/// lies on the lattice: each of its cells has exactly three alive
/// neighbours, and no dead cell around it has more than two.
pub proof fn lemma_block_is_fixed_point(c: (int, int))
    requires
        in_lattice(c),
        in_lattice(translate(c, 1, 1)),
    ensures
        step_spec(
            Set::<(int, int)>::empty().insert(c).insert(translate(c, 1, 0)).insert(
                translate(c, 0, 1),
            ).insert(translate(c, 1, 1)),
        ) == Set::<(int, int)>::empty().insert(c).insert(translate(c, 1, 0)).insert(
            translate(c, 0, 1),
        ).insert(translate(c, 1, 1)),
{
    let s = Set::<(int, int)>::empty().insert(c).insert(translate(c, 1, 0)).insert(
        translate(c, 0, 1),
    ).insert(translate(c, 1, 1));
    assert forall|p: (int, int)| #[trigger] step_spec(s).contains(p) <==> s.contains(p) by {
        if s.contains(p) {
            assert(neighbour_count(s, p) == 3);
            assert(in_lattice(p));
        } else {
            assert(neighbour_count(s, p) <= 2);
        }
    }
    assert(step_spec(s) =~= s);
}

/// Compute the next generation of `grid` under the B3/S23 rule.
///
/// Only the alive cells and their Moore neighbourhoods are ever examined:
/// the rules are evaluated once per alive cell and once per frontier cell
/// (a Moore neighbour of an alive cell), so the number of rule evaluations
/// grows with the population, never with a viewport or a bounded region.
pub fn next_generation(grid: &Grid) -> (next: Grid)
    ensures
        next.wf(),
        next@ == step_spec(grid@),
{
    let occupied = grid.get_occupied_cells();
    let mut new_state = Grid::new();
    let mut frontier = Grid::new();
    let n = occupied.len();
    for i in 0..n
        invariant
            n == occupied.len(),
            coords_seq(occupied@).to_set() == grid@,
            new_state.wf(),
            frontier.wf(),
            forall|p: (int, int)|
                #[trigger] new_state@.contains(p) <==> (grid@.contains(p) && survives(grid@, p)
                    && exists|j: int| 0 <= j < i && coords_seq(occupied@)[j] == p),
            forall|p: (int, int)|
                #[trigger] frontier@.contains(p) <==> (in_lattice(p) && exists|j: int|
                    0 <= j < i && is_neighbour(coords_seq(occupied@)[j], p)),
    {
        let cell = occupied[i];
        proof {
            assert(coords_seq(occupied@)[i as int] == cell@);
            assert(coords_seq(occupied@).contains(cell@));
            assert(grid@.contains(cell@));
        }
        if HasTwoOrThreeNeighbours::complies(&cell, grid) {
            new_state.add_cell(&cell);
        }
        add_neighbourhood(&mut frontier, &cell);
    }
    proof {
        assert forall|p: (int, int)| #[trigger]
            new_state@.contains(p) <==> survives(grid@, p) by {
            if survives(grid@, p) {
                assert(coords_seq(occupied@).to_set().contains(p));
            }
        }
        assert forall|p: (int, int)| #[trigger]
            frontier@.contains(p) <==> (in_lattice(p) && exists|a: (int, int)|
                grid@.contains(a) && is_neighbour(a, p)) by {
            if in_lattice(p) && exists|a: (int, int)| grid@.contains(a) && is_neighbour(a, p) {
                let a = choose|a: (int, int)| grid@.contains(a) && is_neighbour(a, p);
                assert(coords_seq(occupied@).to_set().contains(a));
                let j = choose|j: int|
                    0 <= j < coords_seq(occupied@).len() && coords_seq(occupied@)[j] == a;
                assert(is_neighbour(coords_seq(occupied@)[j], p));
            }
        }
    }
    let ghost survivor_set = new_state@;
    let ghost frontier_set = frontier@;
    let births = frontier.get_occupied_cells();
    let m = births.len();
    for i in 0..m
        invariant
            m == births.len(),
            new_state.wf(),
            coords_seq(births@).to_set() == frontier_set,
            forall|p: (int, int)| #[trigger] survivor_set.contains(p) <==> survives(grid@, p),
            forall|p: (int, int)|
                #[trigger] frontier_set.contains(p) <==> (in_lattice(p) && exists|a: (int, int)|
                    grid@.contains(a) && is_neighbour(a, p)),
            forall|p: (int, int)|
                #[trigger] new_state@.contains(p) <==> (survivor_set.contains(p) || (born(
                    grid@,
                    p,
                ) && exists|j: int| 0 <= j < i && coords_seq(births@)[j] == p)),
    {
        let cell = births[i];
        proof {
            assert(coords_seq(births@)[i as int] == cell@);
        }
        if HasThreeNeighbours::complies(&cell, grid) {
            new_state.add_cell(&cell);
        }
    }
    proof {
        grid.lemma_view_in_lattice();
        assert forall|p: (int, int)| #[trigger]
            new_state@.contains(p) <==> step_spec(grid@).contains(p) by {
            if new_state@.contains(p) {
                if survivor_set.contains(p) {
                    assert(grid@.contains(p));
                    assert(in_lattice(p));
                } else {
                    assert(coords_seq(births@).to_set().contains(p));
                    assert(frontier_set.contains(p));
                }
            }
            if step_spec(grid@).contains(p) && !survives(grid@, p) {
                assert(born(grid@, p));
                lemma_positive_count_has_neighbour(grid@, p);
                assert(frontier_set.contains(p));
                assert(coords_seq(births@).to_set().contains(p));
                let j = choose|j: int|
                    0 <= j < coords_seq(births@).len() && coords_seq(births@)[j] == p;
                assert(coords_seq(births@)[j] == p);
            }
        }
        assert(new_state@ =~= step_spec(grid@));
    }
    new_state
}

/// The marker rendered for an alive cell, or for a dead one.
pub open spec fn cell_char(s: Set<(int, int)>, x: int, y: int) -> char {
    if s.contains((x, y)) {
        'X'
    } else {
        '.'
    }
}

/// The markers of one viewport row: columns `0..w` of row `y`.
pub open spec fn row_chars(s: Set<(int, int)>, y: int, w: int) -> Seq<char>
    decreases w,
{
    if w <= 0 {
        Seq::empty()
    } else {
        row_chars(s, y, w - 1).push(cell_char(s, w - 1, y))
    }
}

/// The rendered viewport: rows `0..h`, each of columns `0..w`, every row
/// closed by a line break.
pub open spec fn viewport_chars(s: Set<(int, int)>, w: int, h: int) -> Seq<char>
    decreases h,
{
    if h <= 0 {
        Seq::empty()
    } else {
        viewport_chars(s, w, h - 1) + row_chars(s, h - 1, w).push('\n')
    }
}

/// One run of the simulation: the current generation together with the
/// rendered viewport's dimensions.
pub struct Game {
    pub width: i32,
    pub height: i32,
    pub grid: Grid,
}

impl Game {
    /// A game over the given initial generation and viewport.
    pub fn new(width: i32, height: i32, grid: Grid) -> (game: Game)
        ensures
            game.width == width,
            game.height == height,
            game.grid == grid,
    {
        Game { width, height, grid }
    }

    /// Advance one generation: the grid is replaced wholesale by the next
    /// one, so every neighbour count is taken against the old generation.
    pub fn update(&mut self)
        ensures
            final(self).grid.wf(),
            final(self).grid@ == step_spec(old(self).grid@),
            final(self).width == old(self).width,
            final(self).height == old(self).height,
    {
        self.grid = next_generation(&self.grid);
    }

    /// Render the viewport: for each row y and column x an `X` marks an
    /// alive cell and a `.` a dead one, and each row ends with a line break.
    pub fn render(&self) -> (text: String)
        ensures
            text@ == viewport_chars(self.grid@, self.width as int, self.height as int),
    {
        let mut text = String::new();
        let h = self.height;
        let w = self.width;
        let mut y: i32 = 0;
        while y < h
            invariant
                h == self.height,
                w == self.width,
                0 <= y,
                h > 0 ==> y <= h,
                h <= 0 ==> y == 0,
                text@ == viewport_chars(self.grid@, w as int, y as int),
            decreases h - y,
        {
            let mut x: i32 = 0;
            proof {
                assert(text@ =~= viewport_chars(self.grid@, w as int, y as int) + row_chars(
                    self.grid@,
                    y as int,
                    0,
                ));
            }
            while x < w
                invariant
                    h == self.height,
                    w == self.width,
                    0 <= x,
                    w > 0 ==> x <= w,
                    w <= 0 ==> x == 0,
                    text@ == viewport_chars(self.grid@, w as int, y as int) + row_chars(
                        self.grid@,
                        y as int,
                        x as int,
                    ),
                decreases w - x,
            {
                let ghost before = text@;
                if self.grid.contains(&Vector::new(x, y)) {
                    text.append("X");
                    proof {
                        reveal_strlit("X");
                        assert(text@ =~= before.push('X'));
                    }
                } else {
                    text.append(".");
                    proof {
                        reveal_strlit(".");
                        assert(text@ =~= before.push('.'));
                    }
                }
                proof {
                    assert(text@ =~= viewport_chars(self.grid@, w as int, y as int) + row_chars(
                        self.grid@,
                        y as int,
                        x + 1,
                    ));
                }
                x = x + 1;
            }
            let ghost before = text@;
            text.append("\n");
            proof {
                reveal_strlit("\n");
                assert(text@ =~= before.push('\n'));
                if w <= 0 {
                    assert(row_chars(self.grid@, y as int, w as int) == Seq::<char>::empty());
                    assert(row_chars(self.grid@, y as int, 0) == Seq::<char>::empty());
                }
                assert(text@ =~= viewport_chars(self.grid@, w as int, y + 1));
            }
            y = y + 1;
        }
        proof {
            if h <= 0 {
                assert(viewport_chars(self.grid@, w as int, h as int) == Seq::<char>::empty());
                assert(viewport_chars(self.grid@, w as int, 0) == Seq::<char>::empty());
            }
        }
        text
    }
}

} // verus!
