use monitor::semaphores::{
    counts_fit_i32, decrement_step, exchange_outcome, group_by_identity, group_occurrences,
    DecrementOutcome, DecrementStep, Process, Semaphore, Sequence, SharedProcess,
};
use monitor::utils::signal;

fn taken(outcome: DecrementOutcome) -> Option<i32> {
    match outcome {
        DecrementOutcome::Taken { previous } => Some(previous),
        _ => None,
    }
}

#[test]
fn decrement_step_takes_when_enough() {
    assert!(matches!(decrement_step(5, 3), DecrementStep::Take(2)));
    assert!(matches!(decrement_step(3, 3), DecrementStep::Take(0)));
}

#[test]
fn decrement_step_waits_when_too_few() {
    assert!(matches!(decrement_step(2, 3), DecrementStep::Wait));
    assert!(matches!(decrement_step(-1, 0), DecrementStep::Wait));
}

#[test]
fn decrement_step_reports_overflow() {
    assert!(matches!(decrement_step(i32::MAX, -1), DecrementStep::Overflow));
    assert!(matches!(decrement_step(0, -5), DecrementStep::Take(5)));
}

#[test]
fn semaphore_takes_and_refuses_permits() {
    let sem = Semaphore::new(2);
    assert_eq!(taken(sem.try_decrement(1)), Some(2));
    match sem.try_decrement(2) {
        DecrementOutcome::MustWait { observed } => assert_eq!(observed, 1),
        _ => panic!("took more permits than there were"),
    }
    sem.increment_many(1);
    assert_eq!(taken(sem.try_decrement(2)), Some(2));
    assert!(matches!(sem.try_decrement(1), DecrementOutcome::MustWait { observed: 0 }));
}

#[test]
fn increment_adds_one_permit() {
    let sem = Semaphore::new(0);
    sem.increment();
    assert_eq!(taken(sem.try_decrement(1)), Some(1));
}

#[test]
fn clones_share_the_counter() {
    let sem = Semaphore::new(0);
    let other = sem.clone();
    other.increment_many(3);
    assert_eq!(taken(sem.try_decrement(3)), Some(3));
    assert_eq!(sem.identity(), other.identity());
    assert_ne!(sem.identity(), Semaphore::new(0).identity());
}

#[test]
fn group_occurrences_counts_in_first_occurrence_order() {
    let groups = group_occurrences(&vec![5, 7, 5, 9, 7, 5]);
    assert_eq!(groups, vec![(0, 3), (1, 2), (3, 1)]);
}

#[test]
fn group_occurrences_of_nothing_is_empty() {
    assert!(group_occurrences(&Vec::new()).is_empty());
}

#[test]
fn group_by_identity_counts_repeated_semaphores() {
    let a = Semaphore::new(0);
    let b = Semaphore::new(0);
    let groups = group_by_identity(&vec![a.clone(), b.clone(), a.clone()]);
    assert_eq!(groups, Some(vec![(0, 2), (1, 1)]));
}

#[test]
fn process_builders_collect_semaphores_in_order() {
    let a = Semaphore::new(0);
    let b = Semaphore::new(0);
    let c = Semaphore::new(0);
    let p = Process::new("s1")
        .wait_on(&a)
        .wait_on_many(&[b.clone(), c.clone()])
        .wait_on_many_borrowed(&[&a, &a])
        .release_on(&b)
        .release_on_many(&[c.clone()])
        .release_on_many_borrowed(&[&a]);
    assert_eq!(p.name(), "s1");
    let waits: Vec<usize> = p.waiting_on().iter().map(|s| s.identity()).collect();
    assert_eq!(waits, vec![a.identity(), b.identity(), c.identity(), a.identity(), a.identity()]);
    let releases: Vec<usize> = p.releasing().iter().map(|s| s.identity()).collect();
    assert_eq!(releases, vec![b.identity(), c.identity(), a.identity()]);
    assert_eq!(p.wait_groups(), Some(vec![(0, 3), (1, 1), (2, 1)]));
}

#[test]
fn process_release_increments_each_semaphore_by_its_count() {
    let a = Semaphore::new(0);
    let b = Semaphore::new(1);
    let p = Process::new(String::from("s5"))
        .release_on_many_borrowed(&[&a, &b, &a]);
    assert_eq!(p.release(), Some(vec![(0, 2), (1, 1)]));
    assert_eq!(taken(a.try_decrement(2)), Some(2));
    assert_eq!(taken(b.try_decrement(2)), Some(2));
}

#[test]
fn process_clone_keeps_everything() {
    let a = Semaphore::new(0);
    let p = Process::new("s0").wait_on(&a).release_on(&a);
    let q = p.clone();
    assert_eq!(q.name(), "s0");
    assert_eq!(q.waiting_on().len(), 1);
    assert_eq!(q.releasing()[0].identity(), a.identity());
}

#[test]
fn sequence_keeps_processes_in_order() {
    let seq = Sequence::new()
        .add(Process::new("s8"))
        .add_many(vec![Process::new("s1"), Process::new("s2")]);
    let names: Vec<&str> = seq.elements().iter().map(|p| p.name().as_str()).collect();
    assert_eq!(names, vec!["s8", "s1", "s2"]);
    assert!(Sequence::default().elements().is_empty());
}

#[test]
fn signal_without_waiters_wakes_nobody() {
    let cv = parking_lot::Condvar::new();
    assert!(!signal(&cv));
}

#[test]
fn releasing_acquired_permits_restores_the_count() {
    let sem = Semaphore::new(3);
    assert_eq!(taken(sem.try_decrement(2)), Some(3));
    sem.increment_many(2);
    assert_eq!(taken(sem.try_decrement(3)), Some(3));
    assert!(matches!(sem.try_decrement(1), DecrementOutcome::MustWait { observed: 0 }));
}

#[test]
fn added_permits_can_be_taken_back() {
    let sem = Semaphore::new(1);
    sem.increment_many(4);
    assert_eq!(taken(sem.try_decrement(4)), Some(5));
    assert_eq!(taken(sem.try_decrement(1)), Some(1));
}

#[test]
fn negative_count_on_full_counter_overflows() {
    let sem = Semaphore::new(i32::MAX);
    assert!(matches!(
        sem.try_decrement(-1),
        DecrementOutcome::Overflow { observed: i32::MAX }
    ));
}

#[test]
fn zero_permits_can_always_be_taken() {
    let sem = Semaphore::new(0);
    assert_eq!(taken(sem.try_decrement(0)), Some(0));
}

#[test]
fn small_key_lists_fit_i32_counts() {
    assert!(counts_fit_i32(&vec![1, 1, 2]));
    assert!(counts_fit_i32(&Vec::new()));
}

#[test]
fn release_of_empty_list_applies_no_groups() {
    let p = Process::new("idle");
    assert_eq!(p.release(), Some(Vec::new()));
    assert_eq!(p.wait_groups(), Some(Vec::new()));
}

#[test]
fn exchange_outcome_maps_success_and_failure() {
    assert!(matches!(exchange_outcome(4, Ok(4)), DecrementOutcome::Taken { previous: 4 }));
    assert!(matches!(exchange_outcome(4, Err(7)), DecrementOutcome::Contended { observed: 4 }));
}

#[test]
fn builders_agree_on_the_wait_list() {
    let a = Semaphore::new(0);
    let b = Semaphore::new(0);
    let ids = |p: &Process| -> Vec<usize> { p.waiting_on().iter().map(|s| s.identity()).collect() };
    let borrowed = Process::new("x").wait_on_many_borrowed(&[&a, &b]);
    let owned = Process::new("x").wait_on_many(&[a.clone(), b.clone()]);
    let one_by_one = Process::new("x").wait_on(&a).wait_on(&b);
    assert_eq!(ids(&borrowed), ids(&owned));
    assert_eq!(ids(&owned), ids(&one_by_one));
}

#[test]
fn builders_agree_on_the_release_list() {
    let a = Semaphore::new(0);
    let b = Semaphore::new(0);
    let ids = |p: &Process| -> Vec<usize> { p.releasing().iter().map(|s| s.identity()).collect() };
    let borrowed = Process::new("y").release_on_many_borrowed(&[&b, &a]);
    let owned = Process::new("y").release_on_many(&[b.clone(), a.clone()]);
    let one_by_one = Process::new("y").release_on(&b).release_on(&a);
    assert_eq!(ids(&borrowed), ids(&owned));
    assert_eq!(ids(&owned), ids(&one_by_one));
}

#[test]
fn shared_process_is_a_process() {
    let p: SharedProcess = Process::new("s0");
    assert_eq!(p.name(), "s0");
}
