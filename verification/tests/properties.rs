use merge_sort::{merge_sort, merge_sort_parallel};
use std::cmp::Ordering;

/// A key with a tag that the comparison does not look at.
#[derive(Debug, Clone, Copy, PartialEq)]
struct Tagged {
    key: u32,
    tag: u32,
}

impl PartialOrd for Tagged {
    fn partial_cmp(&self, other: &Tagged) -> Option<Ordering> {
        self.key.partial_cmp(&other.key)
    }
}

/// An element whose comparison never returns.
#[derive(Debug, Clone, PartialEq)]
struct Untouchable;

impl PartialOrd for Untouchable {
    fn partial_cmp(&self, _other: &Untouchable) -> Option<Ordering> {
        panic!("no comparison was to be made")
    }
}

fn tagged(keys: &[u32]) -> Vec<Tagged> {
    let mut out = Vec::new();
    for (tag, key) in keys.iter().enumerate() {
        out.push(Tagged { key: *key, tag: tag as u32 });
    }
    out
}

fn tags(sorted: &[Tagged]) -> Vec<u32> {
    sorted.iter().map(|t| t.tag).collect()
}

fn scrambled(len: u32) -> Vec<u32> {
    let mut out = Vec::new();
    let mut x: u32 = 12345;
    for _ in 0..len {
        x = x.wrapping_mul(1103515245).wrapping_add(12345);
        out.push((x >> 16) % 50);
    }
    out
}

#[test]
fn output_is_ordered_permutation() {
    let input = scrambled(257);
    let out = merge_sort(&input).unwrap();
    assert_eq!(out.len(), input.len());
    for i in 1..out.len() {
        assert!(out[i - 1] <= out[i]);
    }
    for value in 0..50u32 {
        let before = input.iter().filter(|v| **v == value).count();
        let after = out.iter().filter(|v| **v == value).count();
        assert_eq!(before, after);
    }
    let mut expected = input.clone();
    expected.sort();
    assert_eq!(out, expected);
}

#[test]
fn input_is_left_as_it_was() {
    let input = vec![3, 1, 2];
    let before = input.clone();
    assert_eq!(Ok(vec![1, 2, 3]), merge_sort(&input));
    assert_eq!(before, input);
    assert_eq!(Ok(vec![1, 2, 3]), merge_sort_parallel(&input, 2));
    assert_eq!(before, input);
}

#[test]
fn odd_length_puts_smaller_half_left() {
    assert_eq!(Ok(vec![1, 2, 3]), merge_sort(&vec![3, 2, 1]));
    assert_eq!(Ok(vec![1, 2, 3, 4, 5]), merge_sort(&vec![5, 1, 4, 2, 3]));
    assert_eq!(Ok(vec![-7, -1, 0, 0, 2, 9, 9]), merge_sort(&vec![9, 0, -1, 9, 2, -7, 0]));
}

#[test]
fn equal_keys_keep_their_order() {
    let input = tagged(&[2, 1, 2, 1, 3, 0]);
    let out = merge_sort(&input).unwrap();
    assert_eq!(tags(&out), vec![5, 1, 3, 0, 2, 4]);
    let out = merge_sort_parallel(&input, 2).unwrap();
    assert_eq!(tags(&out), vec![5, 1, 3, 0, 2, 4]);
}

#[test]
fn pair_of_each_key_keeps_its_order() {
    let input = tagged(&[4, 3, 2, 1, 1, 2, 3, 4]);
    let out = merge_sort(&input).unwrap();
    assert_eq!(tags(&out), vec![3, 4, 2, 5, 1, 6, 0, 7]);
}

#[test]
fn three_equal_keys_keep_their_order() {
    let input = tagged(&[7, 7, 7]);
    let out = merge_sort(&input).unwrap();
    assert_eq!(tags(&out), vec![0, 1, 2]);
}

#[test]
fn equal_pair_goes_out_together_left_first() {
    let input = tagged(&[7, 7, 7, 7]);
    let out = merge_sort(&input).unwrap();
    assert_eq!(tags(&out), vec![0, 2, 1, 3]);
    let out = merge_sort_parallel(&input, 4).unwrap();
    assert_eq!(tags(&out), vec![0, 2, 1, 3]);
}

#[test]
fn every_budget_gives_the_sequential_result() {
    let mut length: u32 = 0;
    while length < 70 {
        let input = scrambled(length);
        let expected = merge_sort(&input);
        let mut budget: usize = 1;
        while budget <= 64 {
            assert_eq!(expected, merge_sort_parallel(&input, budget));
            budget *= 2;
        }
        length += 1;
    }
}

#[test]
fn tagged_input_gives_the_sequential_result_for_every_budget() {
    let input = tagged(&[5, 5, 5, 5, 1, 1, 1, 5, 5, 1, 1, 3, 3, 3, 3, 3, 3]);
    let expected = tags(&merge_sort(&input).unwrap());
    let mut budget: usize = 1;
    while budget <= 32 {
        assert_eq!(expected, tags(&merge_sort_parallel(&input, budget).unwrap()));
        budget *= 2;
    }
}

#[test]
fn largest_power_of_two_is_a_budget() {
    let budget: usize = (usize::MAX >> 1) + 1;
    assert_eq!(Ok(vec![1, 2, 3, 4]), merge_sort_parallel(&vec![4, 3, 2, 1], budget));
}

#[test]
fn empty_input_gives_empty_output() {
    let nothing: Vec<u32> = Vec::new();
    assert_eq!(Ok(Vec::new()), merge_sort(&nothing));
    assert_eq!(Ok(Vec::new()), merge_sort_parallel(&nothing, 1));
    assert_eq!(Ok(Vec::new()), merge_sort_parallel(&nothing, 8));
}

#[test]
fn single_element_comes_back_unchanged() {
    assert_eq!(Ok(vec![42]), merge_sort(&vec![42]));
    assert_eq!(Ok(vec![42]), merge_sort_parallel(&vec![42], 1));
    assert_eq!(Ok(vec![42]), merge_sort_parallel(&vec![42], 16));
    assert_eq!(Ok(vec![Untouchable]), merge_sort(&vec![Untouchable]));
    let lonely = merge_sort(&vec![std::f64::NAN]).unwrap();
    assert_eq!(lonely.len(), 1);
    assert!(lonely[0].is_nan());
}

#[test]
fn incomparable_pair_fails_the_sort() {
    let nan = std::f64::NAN;
    assert_eq!(Err("Can't compare"), merge_sort(&vec![1.0, nan]));
    assert_eq!(Err("Can't compare"), merge_sort(&vec![nan, 1.0]));
    assert_eq!(Err("Can't compare"), merge_sort(&vec![3.0, 1.0, nan, 2.0, 0.5]));
    assert_eq!(Err("Can't compare"), merge_sort(&vec![nan, 3.0, 1.0, 2.0, 0.5, nan]));
    assert_eq!(Err("Can't compare"), merge_sort(&vec![3.0, 1.0, 2.0, 0.5, 9.0, 8.0, nan]));
}

#[test]
fn incomparable_pair_fails_the_fan_out() {
    let nan = std::f64::NAN;
    assert_eq!(Err("Can't compare"), merge_sort_parallel(&vec![nan, nan], 1));
    assert_eq!(Err("Can't compare"), merge_sort_parallel(&vec![nan, nan], 2));
    assert_eq!(Err("Can't compare"), merge_sort_parallel(&vec![3.0, 1.0, nan, 2.0, 0.5], 4));
    assert_eq!(Err("Can't compare"), merge_sort_parallel(&vec![1.0, 2.0, 3.0, 4.0, nan], 2));
}

#[test]
fn budget_of_three_is_turned_down() {
    assert_eq!(
        Err("Threads count must be power of 2"),
        merge_sort_parallel(&vec![3, 2, 1], 3)
    );
    let nothing: Vec<u32> = Vec::new();
    assert_eq!(Err("Threads count must be power of 2"), merge_sort_parallel(&nothing, 3));
}

#[test]
fn budget_that_is_no_power_of_two_is_turned_down() {
    let input = vec![2, 1];
    for budget in [0usize, 3, 5, 6, 7, 9, 10, 12, 24, 100, usize::MAX] {
        assert_eq!(
            Err("Threads count must be power of 2"),
            merge_sort_parallel(&input, budget)
        );
    }
}

#[test]
fn invalid_budget_makes_no_comparison() {
    assert_eq!(
        Err("Threads count must be power of 2"),
        merge_sort_parallel(&vec![Untouchable, Untouchable], 3)
    );
}

#[test]
fn descending_ten_thousand_with_four_threads() {
    let mut input: Vec<u32> = Vec::new();
    let mut i: u32 = 10000;
    while i > 0 {
        input.push(i);
        i -= 1;
    }
    let sequential = merge_sort(&input);
    assert_eq!(sequential, merge_sort_parallel(&input, 4));
    let sorted = sequential.unwrap();
    assert_eq!(sorted.len(), 10000);
    assert_eq!(sorted[0], 1);
    assert_eq!(sorted[9999], 10000);
}
