use battleship::BruteForce;
use battleship::Cell;
use battleship::Seed;
use battleship::SegmentState;
use battleship::Ship;

fn occupied() -> Cell {
    Cell::Segment {
        ship_id: 0,
        state: SegmentState::Fine,
    }
}

#[test]
fn fit_empty_matrix() {
    let ship = Ship::new(4);
    let matrix = vec![vec![Cell::Empty; 10]; 10];

    assert!(BruteForce::get_fit_line(&ship, &matrix).is_some());
}

#[test]
fn fit_full_matrix() {
    let ship = Ship::new(4);
    let matrix = vec![vec![occupied(); 10]; 10];

    assert!(BruteForce::get_fit_line(&ship, &matrix).is_none());
}

#[test]
fn fit_exact_first_row() {
    let x = occupied();
    let empty = Cell::Empty;

    let matrix = vec![
        vec![x, x, x, x, x, empty, empty, empty, empty, x],
        vec![x; 10],
        vec![x; 10],
        vec![x; 10],
        vec![x; 10],
        vec![x; 10],
        vec![x; 10],
        vec![x; 10],
        vec![x; 10],
        vec![x; 10],
    ];

    let ship = Ship::new(4);

    assert!(BruteForce::get_fit_line(&ship, &matrix).is_some());
}

#[test]
fn fit_exact_first_col() {
    let x = occupied();
    let empty = Cell::Empty;

    let matrix = vec![
        vec![empty, x, x, x, x, x, x, x, x, x],
        vec![empty, x, x, x, x, x, x, x, x, x],
        vec![empty, x, x, x, x, x, x, x, x, x],
        vec![empty, x, x, x, x, x, x, x, x, x],
        vec![x; 10],
        vec![x; 10],
        vec![x; 10],
        vec![x; 10],
        vec![x; 10],
        vec![x; 10],
    ];

    let ship = Ship::new(3);

    assert!(BruteForce::get_fit_line(&ship, &matrix).is_some());
}

#[test]
fn longest_6_3() {
    let x = occupied();
    let o = Cell::Empty;

    let line = vec![x, o, x, x, o, o, x, x, x, o, o, o, x, x, o, o, o, o, o];

    assert_eq!(BruteForce::get_longest_subline(&line, x), Some((6, 3)));
}

#[test]
fn longest_14_5() {
    let x = occupied();
    let o = Cell::Empty;

    let line = vec![x, o, x, x, o, o, x, x, x, o, o, o, x, x, o, o, o, o, o];

    assert_eq!(BruteForce::get_longest_subline(&line, o), Some((14, 5)));
}

#[test]
fn longest_whole() {
    let x = occupied();
    let line = vec![x, x, x, x, x, x, x, x];

    assert_eq!(BruteForce::get_longest_subline(&line, x), Some((0, 8)));
}

#[test]
fn no_longest() {
    let x = occupied();
    let o = Cell::Empty;
    let line = vec![x, x, x, x, x, x, x, x];

    assert_eq!(BruteForce::get_longest_subline(&line, o), None);
}

#[test]
fn fit_line_runs_head_to_tail() {
    let ship = Ship::new(4);
    let matrix = vec![vec![Cell::Empty; 10]; 10];

    let ((x0, y0), (x1, y1)) = BruteForce::get_fit_line(&ship, &matrix).unwrap();
    if x0 == x1 {
        assert_eq!(y1, y0 + 4);
        assert!(x0 < 10 && y1 <= 10);
    } else {
        assert_eq!(y0, y1);
        assert_eq!(x1, x0 + 4);
        assert!(y0 < 10 && x1 <= 10);
    }
}

#[test]
fn tight_row_fit_is_forced() {
    let x = occupied();
    let empty = Cell::Empty;

    // the only empty run anywhere is row 0, columns 5..9, and it fits the
    // ship exactly, so the strategy has no choice at all
    let matrix = vec![
        vec![x, x, x, x, x, empty, empty, empty, empty, x],
        vec![x; 10],
        vec![x; 10],
        vec![x; 10],
        vec![x; 10],
        vec![x; 10],
        vec![x; 10],
        vec![x; 10],
        vec![x; 10],
        vec![x; 10],
    ];

    let ship = Ship::new(4);

    for _ in 0..16 {
        assert_eq!(
            BruteForce::get_fit_line(&ship, &matrix),
            Some(((0, 5), (0, 9)))
        );
    }
}

#[test]
fn loose_column_fit_stays_inside_the_run() {
    let x = occupied();
    let empty = Cell::Empty;

    // the only empty run is column 0, rows 0..4: a length-3 ship starts at
    // row 0 or row 1 and always runs head to tail downwards
    let matrix = vec![
        vec![empty, x, x, x, x, x, x, x, x, x],
        vec![empty, x, x, x, x, x, x, x, x, x],
        vec![empty, x, x, x, x, x, x, x, x, x],
        vec![empty, x, x, x, x, x, x, x, x, x],
        vec![x; 10],
        vec![x; 10],
        vec![x; 10],
        vec![x; 10],
        vec![x; 10],
        vec![x; 10],
    ];

    let ship = Ship::new(3);

    for _ in 0..16 {
        let ((x0, y0), (x1, y1)) = BruteForce::get_fit_line(&ship, &matrix).unwrap();
        assert_eq!(y0, 0);
        assert_eq!(y1, 0);
        assert!(x0 <= 1);
        assert_eq!(x1, x0 + 3);
    }
}
