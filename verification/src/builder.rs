//! Convenience constructor for the classic fleet on the classic grid.

use vstd::prelude::*;

use crate::field::len_sum;
use crate::field::Field;
use crate::field::FieldError;
use crate::seed::Seed;
use crate::ship::Ship;

verus! {

/// Length of ship `k` in the classic fleet
/// `[4, 3, 3, 2, 2, 2, 1, 1, 1, 1]`.
pub open spec fn classic_len(k: int) -> nat {
    if k == 0 {
        4
    } else if k <= 2 {
        3
    } else if k <= 5 {
        2
    } else {
        1
    }
}

/// Create a classic `10x10` field and place the classic fleet of 10 ships:
/// 1 of size 4, 2 of size 3, 3 of size 2, and 4 of size 1. `S` is the seed
/// strategy that fills the field with ships.
///
/// Construction always succeeds: before each ship is placed the fleet so far
/// covers too few cells to block every row, so an admissible line exists
/// whatever the earlier random placements were.
pub fn build_classic_field<S: Seed>() -> (r: Result<Field<S>, FieldError>)
    ensures
        r is Ok,
        (r matches Ok(f) ==> f.wf() && f.side() == 10 && f.ship_count() == 10 && forall|k: int|
            0 <= k < 10 ==> (#[trigger] f.ship_at(k)).length() == classic_len(k)),
        (r matches Ok(f) ==> forall|k: int, i: int|
            0 <= k < 10 ==> !(#[trigger] f.ship_at(k).seg_damaged(i))),
{
    let mut ships: Vec<Ship> = Vec::new();
    ships.push(Ship::new(4));
    ships.push(Ship::new(3));
    ships.push(Ship::new(3));
    ships.push(Ship::new(2));
    ships.push(Ship::new(2));
    ships.push(Ship::new(2));
    ships.push(Ship::new(1));
    ships.push(Ship::new(1));
    ships.push(Ship::new(1));
    ships.push(Ship::new(1));

    assert(forall|k: int| 0 <= k < 10 ==> (#[trigger] ships@[k]).length() == classic_len(k));
    assert(forall|k: int, i: int| 0 <= k < 10 ==> !(#[trigger] ships@[k].seg_damaged(i)));

    proof {
        lemma_classic_fleet_light(ships@);
    }

    Field::try_create(10, ships)
}

/// Law: the classic fleet stays light enough for `Field::try_create`'s
/// lightness clause on a `10x10` grid -- before each ship is placed, the
/// earlier ships cover fewer cells than it takes to deny every row an empty
/// run of the next ship's length. With footprint disjointness this is why
/// classic construction never fails, whatever the strategy's random choices.
pub proof fn lemma_classic_fleet_light(ships: Seq<Ship>)
    requires
        ships.len() == 10,
        forall|k: int| 0 <= k < 10 ==> (#[trigger] ships[k]).length() == classic_len(k),
    ensures
        forall|k: int|
            0 <= k < ships.len() ==> #[trigger] len_sum(ships, k) < (10int) * ((10int) / (
            ships[k].length() as int)),
{
    assert(len_sum(ships, 0) == 0);
    assert(len_sum(ships, 1) == 4);
    assert(len_sum(ships, 2) == 7);
    assert(len_sum(ships, 3) == 10);
    assert(len_sum(ships, 4) == 12);
    assert(len_sum(ships, 5) == 14);
    assert(len_sum(ships, 6) == 16);
    assert(len_sum(ships, 7) == 17);
    assert(len_sum(ships, 8) == 18);
    assert(len_sum(ships, 9) == 19);
    assert forall|k: int| 0 <= k < ships.len() implies #[trigger] len_sum(ships, k) < (10int) * ((
    10int) / (ships[k].length() as int)) by {
        assert(ships[k].length() == classic_len(k));
        if k == 0 {
            assert((10int) / 4int == 2);
        } else if k <= 2 {
            assert((10int) / 3int == 3);
        } else if k <= 5 {
            assert((10int) / 2int == 5);
        } else {
            assert((10int) / 1int == 10);
        }
    }
}

} // verus!
