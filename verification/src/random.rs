//! The source of chance: a seeded generator and the two draws the game
//! makes from it.

use crate::field::Cell;
use rand::rngs::StdRng;
use rand::seq::SliceRandom;
use rand::Rng;
use vstd::prelude::*;

verus! {

/// `rand::rngs::StdRng`, the generator that callers seed and hand in. Nothing
/// is known of its state.
#[verifier::external_type_specification]
#[verifier::external_body]
pub struct ExStdRng(StdRng);

/// Draws a number below `bound` with `Rng::gen_range` on the range from zero
/// up to, and without, `bound`. The range must not be empty, or `gen_range`
/// panics. All that is claimed of the number is that it lies in the range;
/// which one comes depends on the generator's state.
#[verifier::external_body]
pub(crate) fn draw_below(rng: &mut StdRng, bound: usize) -> (pick: usize)
    requires
        bound > 0,
    ensures
        pick < bound,
{
    rng.gen_range(0..bound)
}

/// Picks one of `cells` with `SliceRandom::choose`, and hands back nothing
/// where there is no cell to pick. All that is claimed of the cell picked is
/// that it is one of `cells`; which one comes depends on the generator's
/// state.
#[verifier::external_body]
pub(crate) fn choose_cell(cells: &Vec<Cell>, rng: &mut StdRng) -> (picked: Option<Cell>)
    ensures
        match picked {
            Some(cell) => cells@.contains(cell),
            None => cells@.len() == 0,
        },
{
    cells.choose(rng).copied()
}

} // verus!
