//! The rule engine: the classic B3/S23 predicates, evaluated as pure,
//! read-only queries of a grid.

use vstd::prelude::*;

use crate::grid::Grid;
use crate::grid::Vector;
use crate::grid::alive_neighbours;
use crate::grid::lemma_alive_neighbours_len;
use crate::grid::neighbour_count;

verus! {

/// An alive cell keeps living exactly when it has two or three alive
/// neighbours.
pub open spec fn survives(s: Set<(int, int)>, p: (int, int)) -> bool {
    s.contains(p) && (neighbour_count(s, p) == 2 || neighbour_count(s, p) == 3)
}

/// A cell is (re)born exactly when it has three alive neighbours. Applying
/// this to an already-alive cell is harmless: re-adding it to a set changes
/// nothing.
pub open spec fn born(s: Set<(int, int)>, p: (int, int)) -> bool {
    neighbour_count(s, p) == 3
}

/// A birth/survival predicate over a position and a grid. Rules never
/// mutate the grid they inspect.
pub trait Rule {
    fn complies(point: &Vector, grid: &Grid) -> bool;
}

/// The survival rule: complies exactly when the position has two or three
/// alive neighbours.
pub struct HasTwoOrThreeNeighbours;

/// The birth rule: complies exactly when the position has three alive
/// neighbours.
pub struct HasThreeNeighbours;

impl Rule for HasTwoOrThreeNeighbours {
    fn complies(point: &Vector, grid: &Grid) -> (r: bool)
        ensures
            r == (neighbour_count(grid@, point@) == 2 || neighbour_count(grid@, point@) == 3),
    {
        let nr_neighbours = grid.get_neighbours(point).len();
        proof {
            lemma_alive_neighbours_len(grid@, point@);
            assert(alive_neighbours(grid@, point@).len() == nr_neighbours);
        }
        nr_neighbours == 2 || nr_neighbours == 3
    }
}

impl Rule for HasThreeNeighbours {
    fn complies(point: &Vector, grid: &Grid) -> (r: bool)
        ensures
            r == (neighbour_count(grid@, point@) == 3),
    {
        let nr_neighbours = grid.get_neighbours(point).len();
        proof {
            lemma_alive_neighbours_len(grid@, point@);
            assert(alive_neighbours(grid@, point@).len() == nr_neighbours);
        }
        nr_neighbours == 3
    }
}

} // verus!
