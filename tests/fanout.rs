use broadband::executor::{Event, Executor, Step};
use broadband::pass::BoolRun;
use broadband::reduce::{
    ready_all, ready_any, ready_bool, ready_filter_map, ready_find_map, BoolPass, FindPass,
    Quantifier,
};
use broadband::width::{automatic_width, default_pass_width, resolve_width};

/// Drives one boolean pass the way a runtime would. Completions are taken
/// newest-first when `newest_first` is set, oldest-first otherwise.
/// Returns the answer, how many handler calls were made, and the most
/// operations that were ever active at once.
fn drive<I: Iterator<Item = u64>>(
    quantifier: Quantifier,
    mut items: I,
    width: usize,
    pred: fn(u64) -> bool,
    newest_first: bool,
) -> (bool, usize, usize) {
    let mut run = BoolRun::new(quantifier, width);
    let mut in_flight: Vec<bool> = Vec::new();
    let mut calls = 0usize;
    let mut most = 0usize;
    loop {
        match run.next_step() {
            Step::Pull => match items.next() {
                Some(x) => {
                    calls += 1;
                    in_flight.push(pred(x));
                    run.admitted();
                    most = most.max(in_flight.len());
                }
                None => run.exhausted(),
            },
            Step::Wait => {
                let o = if newest_first { in_flight.pop().unwrap() } else { in_flight.remove(0) };
                if let Some(answer) = run.completed(o) {
                    assert_eq!(run.next_step(), Step::Done);
                    return (answer, calls, most);
                }
            }
            Step::Done => return (run.finish(), calls, most),
        }
    }
}

fn even(x: u64) -> bool {
    x % 2 == 0
}

#[test]
fn any_and_all_over_one_to_ten() {
    let outcomes: Vec<bool> = (1..=10u64).map(even).collect();
    assert!(ready_any(&outcomes).value);
    assert!(!ready_all(&outcomes).value);
    for width in [1usize, 2, 4, 8] {
        for newest_first in [false, true] {
            assert!(drive(Quantifier::Any, 1..=10u64, width, even, newest_first).0);
            assert!(!drive(Quantifier::All, 1..=10u64, width, even, newest_first).0);
        }
    }
}

#[test]
fn empty_upstream() {
    let none: Vec<bool> = Vec::new();
    assert!(ready_all(&none).value);
    assert_eq!(ready_all(&none).consumed, 0);
    assert!(!ready_any(&none).value);
    let found = ready_find_map::<u64>(Vec::new());
    assert_eq!(found.value, None);
    assert!(ready_filter_map::<u64>(Vec::new()).is_empty());
    assert!(drive(Quantifier::All, std::iter::empty(), 4, even, false).0);
    assert!(!drive(Quantifier::Any, std::iter::empty(), 4, even, false).0);
}

#[test]
fn bool_pass_matches_sequential() {
    let inputs: [&[u64]; 5] = [&[2, 4, 6], &[1, 3], &[2, 3, 4], &[7], &[8, 8, 1, 8]];
    for xs in inputs {
        let all = xs.iter().all(|&x| even(x));
        let any = xs.iter().any(|&x| even(x));
        for width in [1usize, 2, 3, 8] {
            for newest_first in [false, true] {
                assert_eq!(drive(Quantifier::All, xs.iter().copied(), width, even, newest_first).0, all);
                assert_eq!(drive(Quantifier::Any, xs.iter().copied(), width, even, newest_first).0, any);
            }
        }
    }
}

#[test]
fn width_bounds_active_operations() {
    for width in [1usize, 2, 4, 8] {
        for n in [0u64, 1, 3, 8, 20] {
            for newest_first in [false, true] {
                let (_, calls, most) = drive(Quantifier::All, 0..n, width, |_| true, newest_first);
                assert!(most <= width);
                assert_eq!(calls as u64, n);
                assert_eq!(most as u64, n.min(width as u64));
            }
        }
    }
}

#[test]
fn single_lane_short_circuit_on_endless_upstream() {
    let (answer, calls, _) = drive(Quantifier::All, 1u64.., 1, even, false);
    assert!(!answer);
    assert_eq!(calls, 1);
    let (answer, calls, _) = drive(Quantifier::Any, 0u64.., 1, even, false);
    assert!(answer);
    assert_eq!(calls, 1);
}

#[test]
fn short_circuit_reports_consumed() {
    let outcomes = vec![true, true, false, true, false];
    let r = ready_all(&outcomes);
    assert!(!r.value);
    assert_eq!(r.consumed, 3);
    let r = ready_any(&vec![false, false, true, true]);
    assert!(r.value);
    assert_eq!(r.consumed, 3);
    let r = ready_bool(Quantifier::All, &vec![true, true]);
    assert!(r.value);
    assert_eq!(r.consumed, 2);
}

#[test]
fn bool_pass_steps() {
    let mut pass = BoolPass::new(Quantifier::Any);
    assert_eq!(pass.observe(false), None);
    assert_eq!(pass.observe(true), Some(true));
    let mut pass = BoolPass::new(Quantifier::All);
    assert_eq!(pass.observe(true), None);
    assert!(pass.finish());
}

#[test]
fn explicit_width_skips_policy() {
    let w = resolve_width(Some(2), || -> usize { panic!("the policy is not consulted") });
    assert_eq!(w, 2);
}

#[test]
fn find_pass_steps() {
    let mut pass = FindPass::new();
    assert_eq!(pass.observe(None), None);
    assert_eq!(pass.observe(Some(4u64)), Some(4));
}

#[test]
fn bool_run_halts_on_settled_answer() {
    let mut run = BoolRun::new(Quantifier::All, 3);
    run.admitted();
    run.admitted();
    assert_eq!(run.next_step(), Step::Pull);
    run.admitted();
    assert_eq!(run.next_step(), Step::Wait);
    assert_eq!(run.completed(true), None);
    assert_eq!(run.next_step(), Step::Pull);
    assert_eq!(run.completed(false), Some(false));
    assert_eq!(run.next_step(), Step::Done);
    assert!(!run.finish());
}

#[test]
fn find_map_returns_first_present_value() {
    let r = ready_find_map(vec![None, Some(30u64), None, Some(10)]);
    assert_eq!(r.value, Some(30));
    assert_eq!(r.consumed, 2);
    let r = ready_find_map::<u64>(vec![None, None, None]);
    assert_eq!(r.value, None);
    assert_eq!(r.consumed, 3);
}

#[test]
fn find_map_value_comes_from_upstream() {
    let xs = [3u64, 9, 12, 15];
    let f = |x: u64| if x % 3 == 0 && x > 10 { Some(x * 2) } else { None };
    let mut outcomes: Vec<Option<u64>> = xs.iter().map(|&x| f(x)).collect();
    outcomes.reverse();
    let found = ready_find_map(outcomes).value.unwrap();
    assert!(xs.iter().any(|&x| f(x) == Some(found)));
    assert_eq!(found, 30);
}

#[test]
fn filter_map_keeps_present_values_in_order() {
    let r = ready_filter_map(vec![Some("a".to_string()), None, Some("b".to_string()), None]);
    assert_eq!(r, vec!["a".to_string(), "b".to_string()]);
}

#[test]
fn filter_map_set_matches_upstream() {
    let xs = [1u64, 2, 3, 4, 5, 6, 4];
    let f = |x: u64| if x % 2 == 0 { Some(x / 2) } else { None };
    let mut outcomes: Vec<Option<u64>> = xs.iter().map(|&x| f(x)).collect();
    outcomes.swap(0, 5);
    outcomes.swap(1, 3);
    let mut got = ready_filter_map(outcomes);
    got.sort();
    got.dedup();
    let mut want: Vec<u64> = xs.iter().filter_map(|&x| f(x)).collect();
    want.sort();
    want.dedup();
    assert_eq!(got, want);
}

#[test]
fn default_width_is_policy_width() {
    assert_eq!(automatic_width(0), 1);
    assert_eq!(automatic_width(12), 12);
    for p in [0usize, 1, 7, 64] {
        let w = automatic_width(p);
        assert!(w >= 1);
        assert_eq!(resolve_width(None, || automatic_width(p)), w);
        assert_eq!(default_pass_width(p), w);
    }
    assert_eq!(resolve_width(Some(3), || automatic_width(16)), 3);
}

#[test]
fn fault_stops_the_pass() {
    // The runtime reports a handler fault as a stop: nothing more is
    // admitted and the pass ends without another outcome.
    let mut exec = Executor::new(2);
    exec.record(Event::Admit);
    exec.record(Event::Admit);
    assert_eq!(exec.next_step(), Step::Wait);
    exec.record(Event::Halt);
    assert_eq!(exec.next_step(), Step::Done);
    exec.record(Event::Admit);
    exec.record(Event::Complete);
    assert_eq!(exec.active(), 2);
    assert_eq!(exec.next_step(), Step::Done);
}

#[test]
fn executor_refills_slots() {
    let mut exec = Executor::new(2);
    assert_eq!(exec.width(), 2);
    assert_eq!(exec.next_step(), Step::Pull);
    exec.record(Event::Admit);
    assert_eq!(exec.next_step(), Step::Pull);
    exec.record(Event::Admit);
    assert_eq!(exec.next_step(), Step::Wait);
    exec.record(Event::Complete);
    assert_eq!(exec.next_step(), Step::Pull);
    exec.record(Event::Exhausted);
    assert_eq!(exec.next_step(), Step::Wait);
    exec.record(Event::Complete);
    assert_eq!(exec.next_step(), Step::Done);
}
