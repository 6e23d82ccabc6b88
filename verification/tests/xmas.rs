use intcode::xmas::{first_invalid, xmas_validate};
use std::collections::VecDeque;

#[test]
fn test1() {
    let mut validators = VecDeque::new();
    validators.push_back(1);
    validators.push_back(2);
    validators.push_back(3);
    validators.push_back(4);
    validators.push_back(5);

    assert_eq!(true, xmas_validate(&validators, 9));
    assert_eq!(false, xmas_validate(&validators, 10));
}

#[test]
fn equal_values_at_distinct_positions_count() {
    let mut validators = VecDeque::new();
    validators.push_back(5);
    validators.push_back(5);
    assert_eq!(true, xmas_validate(&validators, 10));
}

#[test]
fn an_empty_window_validates_nothing() {
    let validators = VecDeque::new();
    assert_eq!(false, xmas_validate(&validators, 0));
}

#[test]
fn first_invalid_finds_the_first_break() {
    // 1..=25, then 49 = 24 + 25 (fine), then 100 (no pair sums to it)
    let mut numbers: Vec<i64> = (1..=25).collect();
    numbers.push(49);
    numbers.push(100);
    numbers.push(50);
    assert_eq!(first_invalid(&numbers), Some(100));
}

#[test]
fn first_invalid_passes_a_clean_stream() {
    let mut numbers: Vec<i64> = (1..=25).collect();
    numbers.push(26); // 1 + 25
    numbers.push(27); // 2 + 25
    assert_eq!(first_invalid(&numbers), None);
    // a stream no longer than the preamble has nothing to flag
    let short: Vec<i64> = (1..=10).collect();
    assert_eq!(first_invalid(&short), None);
}
