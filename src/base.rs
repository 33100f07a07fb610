use vstd::prelude::*;

use rand_chacha::ChaCha20Rng;

use crate::maze::{passage_bits, Maze};

verus! {

/// Why maze dimensions were refused.
#[derive(Debug, Copy, Clone, PartialEq, Eq, Structural)]
pub enum SizeError {
    /// A width or height of zero.
    ZeroSide,
    /// A width or height that does not fit in `usize`.
    SideTooLarge,
}

/// A strategy that carves a maze out of a closed grid.
pub trait MazeGenerator: Sized {
    /// The configuration that generation leaves as it was (what is left
    /// free is the generator's position in it).
    spec fn same_policy(&self, other: &Self) -> bool;

    /// Carves a `width` by `height` maze, drawing every random decision from
    /// `rng`: the result has those dimensions, its passages match on both
    /// sides, every cell is reached and connected to the others, and there
    /// are `width * height - 1` passages (each open on both of its sides).
    fn generate_maze(&mut self, width: u64, height: u64, rng: &mut ChaCha20Rng) -> (r: Maze)
        requires
            1 <= width <= usize::MAX,
            1 <= height <= usize::MAX,
        ensures
            r.size == (width, height),
            r.wf(),
            r.passages_match(),
            r.all_reached(),
            r.connected(),
            passage_bits(r.grid@) + 2 == 2 * (width * height),
            final(self).same_policy(old(self)),
    ;
}

} // verus!
