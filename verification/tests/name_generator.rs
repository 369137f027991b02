use std::collections::HashSet;

use optizoignons::name_generator::NameGenerator;
use optizoignons::numerals::push_numeral;

#[test]
fn test_name_generator() {
    let mut generator = NameGenerator::new();
    assert!(generator.next().is_some());

    const CNT: usize = 10_000;
    let mut set = HashSet::new();
    for _ in 0..CNT {
        set.insert(generator.next().unwrap());
    }
    assert_eq!(set.len(), CNT);
}

#[test]
fn names_are_the_numbers_from_one_on() {
    let mut generator = NameGenerator::new();
    for expected in 1..=120usize {
        assert_eq!(generator.next(), Some(expected.to_string()));
    }
}

#[test]
fn numbers_are_written_in_decimal() {
    for n in [0usize, 7, 9, 10, 11, 99, 100, 101, 4294967295, usize::MAX] {
        let mut out = String::from("n");
        push_numeral(&mut out, n as u64, 10);
        assert_eq!(out, format!("n{}", n));
    }
}
