//! The pluggable placement strategy: an algorithm that proposes a straight
//! placement line for a ship against a read-only view of the cell matrix.

pub mod brute_force;

use vstd::prelude::*;

use crate::field::fit_pair_ok;
use crate::field::has_fit;
use crate::field::is_square;
use crate::field::Cell;
use crate::ship::Ship;

verus! {

/// Any algorithm that tries to put a [`Ship`] into a field implements this
/// trait.
///
/// The contract is the placement capability itself: a returned pair is a
/// straight line of exactly the ship's length whose cells are all empty and
/// in bounds, and "no fit" is returned only when no row and no column of the
/// matrix could hold the ship.
pub trait Seed {
    /// Return *head* and *tail* of a fit line for the provided ship, or
    /// `None` if no such line can be constructed.
    fn get_fit_line(ship: &Ship, matrix: &Vec<Vec<Cell>>) -> (r: Option<
        ((usize, usize), (usize, usize)),
    >)
        requires
            ship.wf(),
            is_square(matrix@),
        ensures
            r is None ==> !has_fit(matrix@, ship.length() as int),
            (r matches Some(pair) ==> fit_pair_ok(
                matrix@,
                pair.0,
                pair.1,
                ship.length() as int,
            )),
    ;
}

} // verus!
