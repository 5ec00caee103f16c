use puzzles::calories::Elf;
use puzzles::cleaning::CleaningAssignment;
use puzzles::cpu::Cpu;
use puzzles::crates::CrateStack;
use puzzles::directories::DirEntry;
use puzzles::parsing::{parse_i32, parse_i64};
use puzzles::rucksack::Rucksack;

#[test]
fn elf_totals() {
    let mut elf = Elf::new();
    assert_eq!(elf.get_total(), 0);
    elf.add(1000);
    elf.add(2000);
    elf.add(3000);
    assert_eq!(elf.get_total(), 6000);
    elf.add(-500);
    assert_eq!(elf.get_total(), 5500);
}

#[test]
fn parse_integers() {
    assert_eq!(parse_i64("0"), Some(0));
    assert_eq!(parse_i64("-42"), Some(-42));
    assert_eq!(parse_i64("811589153"), Some(811589153));
    assert_eq!(parse_i64("9223372036854775807"), Some(i64::MAX));
    assert_eq!(parse_i64("9223372036854775808"), None);
    assert_eq!(parse_i64("-9223372036854775808"), Some(i64::MIN));
    assert_eq!(parse_i64("-9223372036854775809"), None);
    assert_eq!(parse_i64(""), None);
    assert_eq!(parse_i64("-"), None);
    assert_eq!(parse_i64("12a"), None);
    assert_eq!(parse_i64("007"), Some(7));
    assert_eq!(parse_i32("2147483647"), Some(i32::MAX));
    assert_eq!(parse_i32("2147483648"), None);
    assert_eq!(parse_i32("-8"), Some(-8));
}

#[test]
fn cleaning_containment_and_overlap() {
    let a = CleaningAssignment::new("2", "8");
    let b = CleaningAssignment::new("3", "7");
    assert!(a.fully_contained(&b));
    assert!(b.fully_contained(&a));
    assert!(a.overlap(&b));
    let c = CleaningAssignment::new("2", "4");
    let d = CleaningAssignment::new("6", "8");
    assert!(!c.fully_contained(&d));
    assert!(!c.overlap(&d));
    let e = CleaningAssignment::new("5", "7");
    let f = CleaningAssignment::new("7", "9");
    assert!(e.overlap(&f));
    assert!(!e.fully_contained(&f));
}

#[test]
fn crate_stacks_move_one_at_a_time() {
    let mut a = CrateStack::new();
    a.add('A');
    a.add('B');
    a.add('C');
    // `add` slides under: the stack is now C B A bottom-to-top.
    assert_eq!(a.last(), Some(&'A'));
    let mut b = CrateStack::new();
    b.transfer(&mut a, 2);
    // A then B popped off: b holds A B bottom-to-top.
    assert_eq!(b.pop(), 'B');
    assert_eq!(b.pop(), 'A');
    assert_eq!(a.last(), Some(&'C'));
}

#[test]
fn crate_stacks_move_as_group() {
    let mut a = CrateStack::new();
    a.push('X');
    a.push('Y');
    a.push('Z');
    let mut b = CrateStack::new();
    b.push('Q');
    b.transfer_part2(&mut a, 2);
    // Y Z arrive in original order on top of Q.
    assert_eq!(b.pop(), 'Z');
    assert_eq!(b.pop(), 'Y');
    assert_eq!(b.pop(), 'Q');
    assert_eq!(a.pop(), 'X');
}

#[test]
fn rucksack_duplicates() {
    let r = Rucksack::new(String::from("vJrwpWtwJgWrhcsFMMfFFhFp"));
    assert_eq!(r.find_duplicated(), 'p');
    assert_eq!(r.get_string(), "vJrwpWtwJgWrhcsFMMfFFhFp");
    let r2 = Rucksack::new(String::from("jqHRNqRjqzjGDLGLrsFMfFZSrLrFZsSL"));
    assert_eq!(r2.find_duplicated(), 'L');
}

#[test]
fn rucksack_priorities() {
    assert_eq!(Rucksack::get_priority('p'), 16);
    assert_eq!(Rucksack::get_priority('L'), 38);
    assert_eq!(Rucksack::get_priority('P'), 42);
    assert_eq!(Rucksack::get_priority('v'), 22);
    assert_eq!(Rucksack::get_priority('t'), 20);
    assert_eq!(Rucksack::get_priority('s'), 19);
    assert_eq!(Rucksack::get_priority('a'), 1);
    assert_eq!(Rucksack::get_priority('z'), 26);
    assert_eq!(Rucksack::get_priority('A'), 27);
    assert_eq!(Rucksack::get_priority('Z'), 52);
}

#[test]
fn rucksack_all_duplicates() {
    // top = "ab", bottom = "cd"; each scanned item is appended once per
    // compartment holding it, bottom first.
    let r = Rucksack::new(String::from("abcd"));
    assert_eq!(r.find_all_duplicates(&String::from("xacx")), "ac");
    assert_eq!(r.find_all_duplicates(&String::from("")), "");
}

#[test]
fn cpu_register_history() {
    let mut cpu = Cpu::new();
    cpu.add_line(String::from("noop"));
    cpu.add_line(String::from("addx 3"));
    cpu.add_line(String::from("addx -5"));
    cpu.execute();
    assert_eq!(cpu.get_x_at(1), 1);
    assert_eq!(cpu.get_x_at(2), 1);
    assert_eq!(cpu.get_x_at(3), 1);
    assert_eq!(cpu.get_x_at(4), 4);
    assert_eq!(cpu.get_x_at(5), 4);
    assert_eq!(cpu.get_x_at(6), -1);
    assert_eq!(cpu.get_x_at(100), -1);
}

#[test]
fn directory_sizes() {
    let mut root = DirEntry::new_dir(String::from("/"));
    root.add_new_dir(String::from("a"));
    root.add_new_file(String::from("b.txt"), 14848514);
    root.add_new_file(String::from("c.dat"), 8504156);
    root.add_new_dir(String::from("d"));
    let a = vec![String::from("a")];
    root.add_at_path(&a, 0, DirEntry::new_dir(String::from("e")));
    root.add_at_path(&a, 0, DirEntry::new_file(String::from("f"), 29116));
    root.add_at_path(&a, 0, DirEntry::new_file(String::from("g"), 2557));
    root.add_at_path(&a, 0, DirEntry::new_file(String::from("h.lst"), 62596));
    let ae = vec![String::from("a"), String::from("e")];
    assert!(root.has_dir_path(&ae, 0));
    root.add_at_path(&ae, 0, DirEntry::new_file(String::from("i"), 584));
    let d = vec![String::from("d")];
    root.add_at_path(&d, 0, DirEntry::new_file(String::from("j"), 4060174));
    root.add_at_path(&d, 0, DirEntry::new_file(String::from("d.log"), 8033020));
    root.add_at_path(&d, 0, DirEntry::new_file(String::from("d.ext"), 5626152));
    root.add_at_path(&d, 0, DirEntry::new_file(String::from("k"), 7214296));

    assert_eq!(root.get_size(), 48381165);
    let sub_a = root.get_subdir(String::from("a"));
    assert_eq!(sub_a.get_size(), 94853);
    assert_eq!(sub_a.get_subdir(String::from("e")).get_size(), 584);
    assert_eq!(root.get_subdir(String::from("d")).get_size(), 24933642);
    assert_eq!(root.get_less_than(100000), 95437);
    assert_eq!(root.get_smallest_dir_larger_than(8381165), 24933642);
    assert_eq!(root.get_smallest_dir_larger_than(48381165), u32::MAX);
    assert!(!root.has_dir_path(&vec![String::from("z")], 0));
}
