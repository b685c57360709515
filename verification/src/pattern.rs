//! Patterns that alternate two colours over cells of unit size.

use vstd::prelude::*;

verus! {

/// Whether cell `cell` shows the first colour of an alternating pattern: the
/// cells with an even number do, those with an odd number show the second.
pub fn shows_first(cell: i64) -> (r: bool)
    ensures
        r <==> cell % 2 == 0,
{
    cell % 2 == 0
}

/// Neighbouring cells show different colours.
pub proof fn lemma_neighbours_differ(cell: int)
    ensures
        (cell % 2 == 0) != ((cell + 1) % 2 == 0),
{
}

} // verus!
