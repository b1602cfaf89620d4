//! Conway's Game of Life on a fixed-size grid whose edges are bordered by dead cells.
//!
//! Each generation is a pure function of the one before: every cell looks at its 8
//! neighbours in the previous generation and follows four rules.
//!
//! 1. A live cell with fewer than two live neighbours dies (underpopulation).
//! 2. A live cell with two or three live neighbours lives on.
//! 3. A live cell with more than three live neighbours dies (overcrowding).
//! 4. A dead cell with exactly three live neighbours becomes alive (reproduction).
use vstd::prelude::*;

pub mod patterns;
pub mod universe;

use universe::{lemma_coords_of_index, lemma_index_in_grid, lemma_index_of_coords, Universe};

verus! {

/// The state of a cell in the next generation, from its state and its number of live
/// neighbours now.
pub open spec fn next_state(alive: bool, neighbors: int) -> bool {
    if alive {
        neighbors == 2 || neighbors == 3
    } else {
        neighbors == 3
    }
}

/// `next` is the generation that follows `prev`: same size, and every cell on the grid
/// follows the rules applied to `prev`.
pub open spec fn is_next_generation(prev: Universe, next: Universe) -> bool {
    &&& next.wf()
    &&& next.spec_width() == prev.spec_width()
    &&& next.spec_height() == prev.spec_height()
    &&& forall|x: int, y: int|
        prev.in_bounds(x, y) ==> #[trigger] next.alive(x, y) == next_state(
            prev.alive(x, y),
            prev.live_neighbors(x, y),
        )
}

/// Holds a universe and advances it one generation at a time.
pub struct Game {
    pub universe: Universe,
}

impl Game {
    /// Creates a new `Game` with an all-dead `Universe` of size `width`, `height`.
    pub fn new(width: usize, height: usize) -> (g: Game)
        requires
            width * height <= usize::MAX,
        ensures
            g.universe.wf(),
            g.universe.spec_width() == width,
            g.universe.spec_height() == height,
            forall|x: int, y: int| !#[trigger] g.universe.alive(x, y),
    {
        Game { universe: Universe::new(width, height) }
    }

    /// Applies the four rules to every cell of the universe at once: each cell's new state
    /// is computed from a snapshot of the current generation.
    pub fn next_generation(&mut self)
        requires
            old(self).universe.wf(),
        ensures
            is_next_generation(old(self).universe, final(self).universe),
    {
        let previous_universe = self.universe.clone();
        let ghost prev = old(self).universe;
        let ghost w = prev.spec_width() as int;
        let ghost h = prev.spec_height() as int;
        let mut cells = previous_universe.iter();
        loop
            invariant
                cells.wf(),
                cells.source() == previous_universe,
                previous_universe.spec_width() == w,
                previous_universe.spec_height() == h,
                previous_universe.spec_cells() == prev.spec_cells(),
                prev.wf(),
                w == prev.spec_width(),
                h == prev.spec_height(),
                self.universe.wf(),
                self.universe.spec_width() == w,
                self.universe.spec_height() == h,
                cells.remaining() == prev.traversal().skip(cells.position() as int),
                forall|k: int|
                    0 <= k < cells.position() ==> #[trigger] self.universe.spec_cells()[k]
                        == next_state(
                        prev.alive(k % w, k / w),
                        prev.live_neighbors(k % w, k / w),
                    ),
            ensures
                cells.position() == w * h,
                self.universe.wf(),
                self.universe.spec_width() == w,
                self.universe.spec_height() == h,
                forall|k: int|
                    0 <= k < w * h ==> #[trigger] self.universe.spec_cells()[k] == next_state(
                        prev.alive(k % w, k / w),
                        prev.live_neighbors(k % w, k / w),
                    ),
            decreases prev.spec_cells().len() - cells.position(),
        {
            let ghost pos = cells.position() as int;
            match cells.next() {
                Some((x, y, cell)) => {
                    proof {
                        lemma_coords_of_index(pos, w, h);
                        assert(prev.traversal()[pos] == (pos % w, pos / w, prev.spec_cells()[pos]));
                    }
                    let cell_neighbor_count = previous_universe.count_neighbors(x, y);
                    let new_state = determine_new_state(cell, cell_neighbor_count);
                    self.universe.set(x, y, new_state);
                },
                None => {
                    break ;
                },
            }
        }
        proof {
            assert forall|x: int, y: int| prev.in_bounds(x, y) implies #[trigger] self.universe.alive(
                x,
                y,
            ) == next_state(prev.alive(x, y), prev.live_neighbors(x, y)) by {
                lemma_index_in_grid(x, y, w, h);
                lemma_index_of_coords(x, y, w);
            }
        }
    }

    /// Renders the universe as text; see [`Universe::to_string`].
    pub fn to_string(&self) -> (s: String)
        requires
            self.universe.wf(),
        ensures
            s@ == self.universe.text(),
    {
        self.universe.to_string()
    }
}

/// The next state of a cell, from whether it is alive and how many live neighbours it has.
pub fn determine_new_state(is_cell_alive: &bool, neighbor_count: u8) -> (r: bool)
    ensures
        r == next_state(*is_cell_alive, neighbor_count as int),
{
    if *is_cell_alive {
        match neighbor_count {
            0 | 1 => false,  // underpopulation
            2 | 3 => true,  // stays alive
            _ => false,  // overcrowding
        }
    } else {
        match neighbor_count {
            3 => true,  // reproduction
            _ => false,
        }
    }
}

} // verus!
