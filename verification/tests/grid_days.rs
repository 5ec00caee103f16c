use puzzles::forest::Forest;
use puzzles::monkeys::Monkey;
use puzzles::text::{replace_commas, split_ws};
use puzzles::mixing::Puzzle as MixPuzzle;
use puzzles::rope::Rope;
use puzzles::sensors::{Point, Sensor, SensorNetwork};
use puzzles::snafu::{Puzzle as SnafuPuzzle, Snafu};

#[test]
fn forest_visibility() {
    let mut forest = Forest::new();
    forest.add_line(String::from("30373"));
    forest.add_line(String::from("25512"));
    forest.add_line(String::from("65332"));
    forest.add_line(String::from("33549"));
    forest.add_line(String::from("35390"));
    assert_eq!(forest.count_visible(), 21);
    assert_eq!(forest.get_highest_scenic(), 8);
}

#[test]
fn forest_empty_and_single() {
    let empty = Forest::new();
    assert_eq!(empty.count_visible(), 0);
    assert_eq!(empty.get_highest_scenic(), 0);
    let mut one = Forest::new();
    one.add_line(String::from("5"));
    assert_eq!(one.count_visible(), 1);
    assert_eq!(one.get_highest_scenic(), 0);
}

#[test]
fn rope_short_walk() {
    let mut rope = Rope::new();
    rope.right(4);
    rope.up(4);
    rope.left(3);
    rope.down(1);
    rope.right(4);
    rope.down(1);
    rope.left(5);
    rope.right(2);
    // With nine trailing knots the short walk never moves the last knot.
    assert_eq!(rope.get_num_tail_visited(), 1);
}

#[test]
fn rope_long_walk() {
    let mut rope = Rope::new();
    rope.right(5);
    rope.up(8);
    rope.left(8);
    rope.down(3);
    rope.right(17);
    rope.down(10);
    rope.left(25);
    rope.up(20);
    assert_eq!(rope.get_num_tail_visited(), 36);
}

#[test]
fn snafu_values() {
    assert_eq!(Snafu::new("1=-0-2").get_string(), "1=-0-2");
    assert_eq!(Snafu::from_val(1747).get_string(), "1=-0-2");
    assert_eq!(Snafu::from_val(906).get_string(), "12111");
    assert_eq!(Snafu::from_val(198).get_string(), "2=0=");
    assert_eq!(Snafu::from_val(11).get_string(), "21");
    assert_eq!(Snafu::from_val(201).get_string(), "2=01");
    assert_eq!(Snafu::from_val(31).get_string(), "111");
    assert_eq!(Snafu::from_val(1257).get_string(), "20012");
    assert_eq!(Snafu::from_val(32).get_string(), "112");
    assert_eq!(Snafu::from_val(353).get_string(), "1=-1=");
    assert_eq!(Snafu::from_val(107).get_string(), "1-12");
    assert_eq!(Snafu::from_val(7).get_string(), "12");
    assert_eq!(Snafu::from_val(3).get_string(), "1=");
    assert_eq!(Snafu::from_val(37).get_string(), "122");
    assert_eq!(Snafu::from_val(0).get_string(), "");
}

#[test]
fn snafu_sum() {
    let mut puzzle = SnafuPuzzle::new();
    for line in [
        "1=-0-2", "12111", "2=0=", "21", "2=01", "111", "20012", "112", "1=-1=", "1-12", "12",
        "1=", "122",
    ] {
        puzzle.add_line(line);
    }
    assert_eq!(puzzle.total_string(), "2=-1=0");
}

#[test]
fn snafu_round_trip() {
    for v in [1i64, 2, 3, 4, 5, 6, 7, 8, 9, 10, 15, 2022, 12345, 314159265] {
        let s = Snafu::from_val(v).get_string();
        assert_eq!(Snafu::new(&s).get_string(), s);
    }
}

#[test]
fn mixing_grove_coordinates() {
    let mut puzzle = MixPuzzle::new();
    for line in ["1", "2", "-3", "3", "-2", "0", "4"] {
        puzzle.add_line(line);
    }
    assert_eq!(puzzle.pt_1(), 0);
    assert_eq!(puzzle.pt_2(), 1623178306);
}

#[test]
fn sensor_range() {
    let s = Sensor::new(Point::new(8, 7), Point::new(2, 10));
    // Beacon distance 9: on row 10 the stretch runs six wide of the sensor.
    let r = s.get_range_for_row(10).unwrap();
    assert_eq!(*r.start(), 2);
    assert_eq!(*r.end(), 14);
    assert!(s.get_range_for_row(17).is_none());
    assert_eq!(Point::new(8, 7).distance(&Point::new(2, 10)), 9);
}

#[test]
fn sensors_ruled_out_row() {
    let readings: [(i32, i32, i32, i32); 14] = [
        (2, 18, -2, 15),
        (9, 16, 10, 16),
        (13, 2, 15, 3),
        (12, 14, 10, 16),
        (10, 20, 10, 16),
        (14, 17, 10, 16),
        (8, 7, 2, 10),
        (2, 0, 2, 10),
        (0, 11, 2, 10),
        (20, 14, 25, 17),
        (17, 20, 21, 22),
        (16, 7, 15, 3),
        (14, 3, 15, 3),
        (20, 1, 15, 3),
    ];
    let mut network = SensorNetwork::new();
    for (sx, sy, bx, by) in readings {
        network.add_line(sx, sy, bx, by);
    }
    assert_eq!(network.cannot_be(10), 26);
}

#[test]
fn monkey_tosses() {
    let block = [
        String::from("Monkey 0:"),
        String::from("  Starting items: 79, 98"),
        String::from("  Operation: new = old * 19"),
        String::from("  Test: divisible by 23"),
        String::from("    If true: throw to monkey 2"),
        String::from("    If false: throw to monkey 3"),
    ];
    let mut monkey = Monkey::new(&block);
    assert_eq!(monkey.items, vec![79, 98]);
    assert_eq!(monkey.num_inspected, 0);
    // Items leave from the top of the pile: 98 first, then 79.
    assert_eq!(monkey.toss(), Some((3, 620)));
    assert_eq!(monkey.toss(), Some((3, 500)));
    assert_eq!(monkey.toss(), None);
    assert_eq!(monkey.num_inspected, 2);
    monkey.add_item(46);
    assert_eq!(monkey.items, vec![46]);
    // 46 * 19 = 874; 874 / 3 = 291; not divisible by 23.
    assert_eq!(monkey.toss(), Some((3, 291)));
}

#[test]
fn monkey_square_and_add() {
    let square = [
        String::from("Monkey 2:"),
        String::from("  Starting items: 6"),
        String::from("  Operation: new = old * old"),
        String::from("  Test: divisible by 13"),
        String::from("    If true: throw to monkey 1"),
        String::from("    If false: throw to monkey 3"),
    ];
    let mut m2 = Monkey::new(&square);
    // 6 * 6 = 36; 36 / 3 = 12; not divisible by 13.
    assert_eq!(m2.toss(), Some((3, 12)));
    let add = [
        String::from("Monkey 3:"),
        String::from("  Starting items: 74"),
        String::from("  Operation: new = old + 3"),
        String::from("  Test: divisible by 7"),
        String::from("    If true: throw to monkey 0"),
        String::from("    If false: throw to monkey 1"),
    ];
    let mut m3 = Monkey::new(&add);
    // 74 + 3 = 77; 77 / 3 = 25; not divisible by 7.
    assert_eq!(m3.toss(), Some((1, 25)));
}

#[test]
fn tokenizer_splits_words() {
    assert_eq!(
        split_ws("  Starting items: 54, 65"),
        vec!["Starting", "items:", "54,", "65"]
    );
    assert_eq!(replace_commas("54, 65"), "54  65");
    assert_eq!(split_ws(""), Vec::<String>::new());
    assert_eq!(split_ws("   "), Vec::<String>::new());
    assert_eq!(split_ws("one"), vec!["one"]);
}
