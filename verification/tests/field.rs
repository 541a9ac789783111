use battleship::build_classic_field;
use battleship::BruteForce;
use battleship::Cell;
use battleship::DamageResult;
use battleship::Field;
use battleship::FieldError;
use battleship::SegmentState;
use battleship::Ship;

fn snapshot(field: &Field<BruteForce>) -> Vec<Cell> {
    let n = field.size();
    let mut cells = Vec::new();
    for x in 0..n {
        for y in 0..n {
            cells.push(field.get_cell(x, y));
        }
    }
    cells
}

fn print_matrix(field: &Field<BruteForce>) {
    let n = field.size();
    for x in 0..n {
        let mut line = String::new();
        for y in 0..n {
            line.push(match field.get_cell(x, y) {
                Cell::Empty => '.',
                Cell::Segment { ship_id, state } => match state {
                    SegmentState::Fine => char::from_digit(ship_id as u32 % 10, 10).unwrap(),
                    SegmentState::Damaged => 'X',
                },
            });
        }
        println!("{}", line);
    }
}

fn classic_ships() -> Vec<Ship> {
    let mut ships = vec![];
    for (size, count) in (1..=4).rev().zip(1..=4) {
        for _ in 0..count {
            ships.push(Ship::new(size));
        }
    }
    ships
}

#[test]
fn put_1_ship_4() {
    let ship = Ship::new(4);
    let field = match Field::<BruteForce>::try_create(10, vec![ship]) {
        Ok(field) => field,
        Err(_) => panic!("failed to create field"),
    };

    println!("\n");
    print_matrix(&field);
}

#[test]
fn put_classic() {
    let field = match Field::<BruteForce>::try_create(10, classic_ships()) {
        Ok(field) => field,
        Err(_) => panic!("failed to create field"),
    };

    println!("\n");
    print_matrix(&field);
}

#[test]
fn attack_classic_4_head() {
    let mut field = match Field::<BruteForce>::try_create(10, classic_ships()) {
        Ok(field) => field,
        Err(_) => panic!("failed to create field"),
    };

    println!("\n");
    print_matrix(&field);

    let (x, y) = field.ship_head(0);
    assert!(field
        .attack(x, y)
        .is_ok_and(|res| !matches!(res, DamageResult::Miss)));

    println!("\nATTACKED: ({}, {})\n", x, y);
    print_matrix(&field);

    let (x, y) = field.ship_head(0);
    assert!(field
        .attack(x, y)
        .is_ok_and(|res| matches!(res, DamageResult::Miss)));
}

#[test]
fn single_ship_occupies_its_length() {
    for len in 1..=8u8 {
        let field = Field::<BruteForce>::try_create(10, vec![Ship::new(len)])
            .expect("a single ship no longer than the side always fits");
        let occupied = snapshot(&field)
            .iter()
            .filter(|c| matches!(c, Cell::Segment { .. }))
            .count();
        assert_eq!(occupied, len as usize);
    }
}

#[test]
fn classic_footprints_never_intersect() {
    let field = build_classic_field::<BruteForce>().expect("classic field");
    // footprints are disjoint, so the occupied cells add up to the fleet total
    let occupied = snapshot(&field)
        .iter()
        .filter(|c| matches!(c, Cell::Segment { .. }))
        .count();
    assert_eq!(occupied, 4 + 3 + 3 + 2 + 2 + 2 + 1 + 1 + 1 + 1);
}

#[test]
fn classic_builder_registers_ten_ships() {
    let field = build_classic_field::<BruteForce>().expect("classic field");
    assert_eq!(field.size(), 10);
    assert_eq!(field.num_ships(), 10);
}

#[test]
fn attack_empty_cell_misses_and_changes_nothing() {
    let mut field = Field::<BruteForce>::try_create(3, vec![Ship::new(1)]).unwrap();
    let mut empty_at = None;
    for x in 0..3 {
        for y in 0..3 {
            if field.get_cell(x, y) == Cell::Empty {
                empty_at = Some((x, y));
            }
        }
    }
    let (x, y) = empty_at.expect("a 3x3 grid with one single-cell ship has empty cells");

    let before = snapshot(&field);
    assert_eq!(field.attack(x, y), Ok(DamageResult::Miss));
    assert_eq!(snapshot(&field), before);
}

#[test]
fn reattack_damaged_cell_always_misses() {
    let mut field = Field::<BruteForce>::try_create(3, vec![Ship::new(1)]).unwrap();
    let (x, y) = field.ship_head(0);

    assert_eq!(field.attack(x, y), Ok(DamageResult::Destroyed));
    let after_kill = snapshot(&field);
    for _ in 0..3 {
        assert_eq!(field.attack(x, y), Ok(DamageResult::Miss));
        assert_eq!(snapshot(&field), after_kill);
    }
}

#[test]
fn any_fine_ship_until_fleet_destroyed() {
    let mut field = Field::<BruteForce>::try_create(4, vec![Ship::new(2), Ship::new(1)]).unwrap();
    assert!(field.any_fine_ship());

    // sink everything by attacking every cell once
    for x in 0..4 {
        for y in 0..4 {
            field.attack(x, y).unwrap();
        }
    }
    assert!(!field.any_fine_ship());

    // nothing revives the fleet
    for x in 0..4 {
        for y in 0..4 {
            field.attack(x, y).unwrap();
        }
    }
    assert!(!field.any_fine_ship());
}

#[test]
fn attack_out_of_range_errors_and_changes_nothing() {
    let mut field = Field::<BruteForce>::try_create(3, vec![Ship::new(1)]).unwrap();
    let before = snapshot(&field);

    assert_eq!(field.attack(3, 0), Err(FieldError::OutOfRange(3)));
    assert_eq!(field.attack(0, 3), Err(FieldError::OutOfRange(3)));
    assert_eq!(field.attack(17, 99), Err(FieldError::OutOfRange(3)));
    assert_eq!(snapshot(&field), before);
    assert!(field.any_fine_ship());
}

#[test]
fn grid_without_room_reports_full() {
    // an 8-cell ship cannot fit into a 2x2 grid
    let res = Field::<BruteForce>::try_create(2, vec![Ship::new(8)]);
    assert_eq!(res.err(), Some(FieldError::Full));
}

#[test]
fn hit_marks_exactly_the_attacked_cell() {
    let mut field = Field::<BruteForce>::try_create(5, vec![Ship::new(3)]).unwrap();
    let (x, y) = field.ship_head(0);
    let before = snapshot(&field);

    assert_eq!(field.attack(x, y), Ok(DamageResult::Hit));

    let after = snapshot(&field);
    for (i, (b, a)) in before.iter().zip(after.iter()).enumerate() {
        if i == x * 5 + y {
            assert_eq!(
                *a,
                Cell::Segment {
                    ship_id: 0,
                    state: SegmentState::Damaged
                }
            );
        } else {
            assert_eq!(a, b);
        }
    }
}
