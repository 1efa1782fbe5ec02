use merge_sort::engine::merge_sort_internal;
use merge_sort::failure::{
    INCOMPARABLE_ELEMENTS, INVALID_THREAD_BUDGET, THREAD_COMMUNICATION_FAILURE,
};
use merge_sort::fanout::{fan_out_step, is_thread_budget, join_halves, merge_halves, FanOut};
use merge_sort::merge::{merge, swap_elements};
use merge_sort::order::{compare, Relation};
use merge_sort::MergeResult;

#[test]
fn failure_messages() {
    assert_eq!(INCOMPARABLE_ELEMENTS, "Can't compare");
    assert_eq!(INVALID_THREAD_BUDGET, "Threads count must be power of 2");
    assert_eq!(THREAD_COMMUNICATION_FAILURE, "Recive parallel data error");
}

#[test]
fn compare_gives_the_relation() {
    assert_eq!(compare(&1, &2), Relation::Less);
    assert_eq!(compare(&2, &2), Relation::Equal);
    assert_eq!(compare(&3, &2), Relation::Greater);
    assert_eq!(compare(&1.5, &2.5), Relation::Less);
    assert_eq!(compare(&std::f64::NAN, &2.5), Relation::Incomparable);
    assert_eq!(compare(&2.5, &std::f64::NAN), Relation::Incomparable);
    assert_eq!(compare(&std::f64::NAN, &std::f64::NAN), Relation::Incomparable);
    assert_eq!(compare(&"a", &"b"), Relation::Less);
}

#[test]
fn swap_elements_exchanges_two_places() {
    let mut from = vec![1, 2, 3];
    let mut to = vec![10, 20];
    swap_elements(&mut from, 2, &mut to, 0);
    assert_eq!(from, vec![1, 2, 10]);
    assert_eq!(to, vec![3, 20]);
}

#[test]
fn merge_of_two_runs() {
    let mut input = vec![1, 3, 5, 2, 4, 6];
    let mut temp = vec![0; 6];
    assert_eq!(Ok(()), merge(&mut input, 3, &mut temp));
    assert_eq!(input, vec![1, 2, 3, 4, 5, 6]);
    assert_eq!(temp.len(), 6);
}

#[test]
fn merge_of_runs_of_unlike_length() {
    let mut input = vec![4, 1, 2, 3, 5, 9];
    let mut temp = vec![0; 8];
    assert_eq!(Ok(()), merge(&mut input, 1, &mut temp));
    assert_eq!(input, vec![1, 2, 3, 4, 5, 9]);
    assert_eq!(temp.len(), 8);

    let mut input = vec![2, 4, 6, 8, 5];
    let mut temp = vec![0; 5];
    assert_eq!(Ok(()), merge(&mut input, 4, &mut temp));
    assert_eq!(input, vec![2, 4, 5, 6, 8]);
}

#[test]
fn merge_with_an_empty_run() {
    let mut input = vec![1, 2, 3];
    let mut temp = vec![0; 3];
    assert_eq!(Ok(()), merge(&mut input, 0, &mut temp));
    assert_eq!(input, vec![1, 2, 3]);
    assert_eq!(Ok(()), merge(&mut input, 3, &mut temp));
    assert_eq!(input, vec![1, 2, 3]);
    let mut nothing: Vec<i32> = Vec::new();
    assert_eq!(Ok(()), merge(&mut nothing, 0, &mut temp));
    assert!(nothing.is_empty());
}

#[test]
fn merge_takes_equal_elements_in_pairs() {
    let mut input = vec![(1, 'a'), (1, 'b'), (2, 'c'), (1, 'd'), (2, 'e')];
    let mut keys: Vec<u32> = input.iter().map(|p| p.0).collect();
    let mut temp = vec![0; 5];
    assert_eq!(Ok(()), merge(&mut keys, 3, &mut temp));
    assert_eq!(keys, vec![1, 1, 1, 2, 2]);
    let mut scratch = input.clone();
    assert_eq!(Ok(()), merge(&mut input, 3, &mut scratch));
    assert_eq!(input, vec![(1, 'a'), (1, 'b'), (1, 'd'), (2, 'c'), (2, 'e')]);
}

#[test]
fn merge_stops_at_incomparable_elements() {
    let nan = std::f64::NAN;
    let mut input = vec![1.0, nan, 0.5, 2.0];
    let mut temp = vec![0.0; 4];
    assert_eq!(Err("Can't compare"), merge(&mut input, 2, &mut temp));
    assert_eq!(input.len(), 4);
    assert_eq!(temp.len(), 4);
}

#[test]
fn sort_in_place_with_longer_scratch() {
    let mut input = vec![5, 3, 8, 1, 9, 2, 7];
    let mut temp = vec![0; 10];
    assert_eq!(Ok(()), merge_sort_internal(&mut input, &mut temp));
    assert_eq!(input, vec![1, 2, 3, 5, 7, 8, 9]);
    assert_eq!(temp.len(), 10);
    let mut nothing: Vec<i32> = Vec::new();
    assert_eq!(Ok(()), merge_sort_internal(&mut nothing, &mut temp));
    assert!(nothing.is_empty());
}

#[test]
fn sort_in_place_fails_on_incomparable_elements() {
    let mut input = vec![2.0, std::f64::NAN, 1.0];
    let mut temp = vec![0.0; 3];
    assert_eq!(Err("Can't compare"), merge_sort_internal(&mut input, &mut temp));
}

#[test]
fn thread_budgets() {
    let mut budget: usize = 1;
    loop {
        assert!(is_thread_budget(budget));
        match budget.checked_mul(2) {
            Some(next) => budget = next,
            None => break,
        }
    }
    for budget in [0usize, 3, 5, 6, 7, 9, 10, 12, 15, 18, 96, 1000, usize::MAX] {
        assert!(!is_thread_budget(budget));
    }
}

#[test]
fn fan_out_steps() {
    assert_eq!(fan_out_step(10, 1), FanOut::Sequential);
    assert_eq!(fan_out_step(10, 0), FanOut::Sequential);
    assert_eq!(fan_out_step(1, 8), FanOut::Sequential);
    assert_eq!(fan_out_step(0, 8), FanOut::Sequential);
    assert_eq!(fan_out_step(10, 8), FanOut::Split { mid: 5, threads: 4 });
    assert_eq!(fan_out_step(7, 2), FanOut::Split { mid: 3, threads: 1 });
    assert_eq!(fan_out_step(2, 4), FanOut::Split { mid: 1, threads: 2 });
}

#[test]
fn halves_are_merged() {
    assert_eq!(Ok(vec![1, 2, 3, 4, 5]), merge_halves(vec![2, 4], vec![1, 3, 5]));
    assert_eq!(Ok(vec![1, 2, 3]), merge_halves(Vec::new(), vec![1, 2, 3]));
    assert_eq!(Ok(vec![1, 2, 3]), merge_halves(vec![1, 2, 3], Vec::new()));
    assert_eq!(
        Err("Can't compare"),
        merge_halves(vec![1.0], vec![std::f64::NAN])
    );
}

#[test]
fn join_after_a_worker_that_sorted() {
    let worker: Option<MergeResult<Vec<u32>>> = Some(Ok(vec![1, 4, 6]));
    assert_eq!(Ok(vec![1, 2, 3, 4, 5, 6]), join_halves(worker, vec![2, 3, 5]));
}

#[test]
fn join_after_a_worker_that_failed() {
    let worker: Option<MergeResult<Vec<u32>>> = Some(Err("Can't compare"));
    assert_eq!(Err("Can't compare"), join_halves(worker, vec![2, 3, 5]));
    let worker: Option<MergeResult<Vec<u32>>> = Some(Err("Recive parallel data error"));
    assert_eq!(Err("Recive parallel data error"), join_halves(worker, vec![2, 3, 5]));
}

#[test]
fn join_after_a_worker_that_was_lost() {
    let worker: Option<MergeResult<Vec<u32>>> = None;
    assert_eq!(Err("Recive parallel data error"), join_halves(worker, vec![2, 3, 5]));
}
