use battleship::DamageResult;
use battleship::Ship;
use battleship::ShipError;

#[test]
fn damage_existed_seqments() {
    let mut ship = Ship::new(3);

    assert!(ship
        .damage(1)
        .is_ok_and(|res| matches!(res, DamageResult::Hit)));
    assert!(ship.segment_damaged(1));
    assert!(!ship.is_dead());

    assert!(ship
        .damage(0)
        .is_ok_and(|res| matches!(res, DamageResult::Hit)));
    assert!(ship.segment_damaged(0));
    assert!(!ship.is_dead());

    assert!(ship
        .damage(0)
        .is_ok_and(|res| matches!(res, DamageResult::Miss)));
    assert!(ship.segment_damaged(0));
    assert!(!ship.is_dead());

    assert!(ship
        .damage(2)
        .is_ok_and(|res| matches!(res, DamageResult::Destroyed)));
    assert!(ship.segment_damaged(2));
    assert!(ship.is_dead());
}

#[test]
fn damage_bad_segment() {
    let mut ship = Ship::new(2);

    assert!(ship.damage(2).is_err());
}

#[test]
fn damage_bad_segment_reports_and_keeps_state() {
    let mut ship = Ship::new(2);

    assert_eq!(ship.damage(7), Err(ShipError::SegmentOutOfBounds));
    assert!(!ship.segment_damaged(0));
    assert!(!ship.segment_damaged(1));
    assert!(!ship.is_dead());
}

#[test]
fn fit_len_is_own_length_or_none() {
    let ship = Ship::new(3);

    assert_eq!(ship.get_fit_len(10), Some(3));
    assert_eq!(ship.get_fit_len(3), Some(3));
    assert_eq!(ship.get_fit_len(2), None);
}

#[test]
fn single_segment_ship_dies_at_once() {
    let mut ship = Ship::new(1);

    assert!(!ship.is_dead());
    assert!(ship
        .damage(0)
        .is_ok_and(|res| matches!(res, DamageResult::Destroyed)));
    assert!(ship.is_dead());
    assert!(ship
        .damage(0)
        .is_ok_and(|res| matches!(res, DamageResult::Miss)));
    assert!(ship.is_dead());
}
