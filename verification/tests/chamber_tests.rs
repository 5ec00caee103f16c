use puzzles::chamber::{Cave, Shape};

const EXAMPLE_JETS: &str = ">>><<><>><<<>><>>><<<>>><<<><<<>><>><<>>";

#[test]
fn example_pattern_part_one() {
    let mut cave = Cave::new(String::from(EXAMPLE_JETS));
    assert!(cave.jets_ok());
    assert_eq!(cave.part_1(2022), 3068);
}

#[test]
fn example_pattern_part_two() {
    let mut cave = Cave::new(String::from(EXAMPLE_JETS));
    assert_eq!(cave.part_1(1_000_000_000_000), 1_514_285_714_288);
}

#[test]
fn single_jet_five_pieces() {
    // One '>' jet: every push goes right.  By hand: the bar settles on the
    // floor at columns 3..=6; the cross stacks on it (rows 1..=3); the hook
    // lands against the right wall (rows 4..=6); the vertical bar slides
    // down column 6 to rows 7..=10; the square rests on it at rows 11..=12.
    let mut cave = Cave::new(String::from(">"));
    assert!(cave.jets_ok());
    assert_eq!(cave.part_1(5), 13);
}

#[test]
fn accelerated_run_matches_direct_run() {
    for n in 0..60 {
        let mut direct = Cave::new(String::from(EXAMPLE_JETS));
        let mut accel = Cave::new(String::from(EXAMPLE_JETS));
        assert_eq!(accel.part_1(n), direct.height_direct(n));
    }
    let mut direct = Cave::new(String::from("><>"));
    let mut accel = Cave::new(String::from("><>"));
    assert_eq!(accel.part_1(200), direct.height_direct(200));
}

#[test]
fn height_never_decreases() {
    let mut last = 0;
    for n in 0..80 {
        let mut cave = Cave::new(String::from(EXAMPLE_JETS));
        let h = cave.height_direct(n);
        assert!(h >= last);
        last = h;
    }
}

#[test]
fn part_one_runs_deterministically() {
    let mut a = Cave::new(String::from(EXAMPLE_JETS));
    let mut b = Cave::new(String::from(EXAMPLE_JETS));
    assert_eq!(a.part_1(500), b.part_1(500));
}

#[test]
fn rejects_bad_jets() {
    let cave = Cave::new(String::from(">x<"));
    assert!(!cave.jets_ok());
    let empty = Cave::new(String::new());
    assert!(!empty.jets_ok());
}

#[test]
fn shape_tables() {
    assert_eq!(Shape::Horiz.get_max_height(), 1);
    assert_eq!(Shape::Horiz.get_max_width(), 4);
    assert_eq!(Shape::Vert.get_max_height(), 4);
    assert_eq!(Shape::Vert.get_max_width(), 1);
    assert_eq!(Shape::Cross.get_bits(), 0b0100_1110_0100_0000);
    assert_eq!(Shape::Square.get_bits_row(1), 0b1100);
    assert_eq!(Shape::Square.get_bits_row(3), 0);
    assert_eq!(Shape::LShape.get_bits_row(3), 0b1110);
}

#[test]
fn one_piece_height() {
    let mut cave = Cave::new(String::from(">"));
    assert_eq!(cave.height_direct(1), 1);
    let mut cave2 = Cave::new(String::from("<"));
    assert_eq!(cave2.height_direct(2), 4);
}
