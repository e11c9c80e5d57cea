use fractal_flame::compute_state::{
    clamp_histogram_coords, iteration_outcome, record_iteration, split_iterations,
    ComputeSchedule, IterationOutcome, State,
};
use fractal_flame::histogram::Histogram;

#[test]
fn split_gives_the_remainder_to_the_first_sequence() {
    assert_eq!(split_iterations(10, 3), vec![4, 3, 3]);
}

#[test]
fn split_of_an_even_budget() {
    let shares = split_iterations(36_000_000, 30_000);
    assert_eq!(shares.len(), 30_000);
    assert!(shares.iter().all(|&s| s == 1_200));
}

#[test]
fn split_with_more_sequences_than_iterations() {
    assert_eq!(split_iterations(5, 8), vec![5, 0, 0, 0, 0, 0, 0, 0]);
}

#[test]
fn split_over_one_sequence() {
    assert_eq!(split_iterations(17, 1), vec![17]);
}

#[test]
fn split_keeps_the_total() {
    for &(n, k) in &[(1u64, 1usize), (99, 7), (1000, 13), (u64::MAX, 3), (12, 12)] {
        let shares = split_iterations(n, k);
        assert_eq!(shares.len(), k);
        let total: u128 = shares.iter().map(|&s| s as u128).sum();
        assert_eq!(total, n as u128);
    }
}

#[test]
fn new_schedule_has_no_work_and_holds_the_histogram() {
    let s = ComputeSchedule::new(String::from("main"));
    assert_eq!(s.state(), State::NoWork);
    assert_eq!(s.active_sequences_count(), 0);
    assert_eq!(s.get_histogram(), Some(&String::from("main")));
}

#[test]
fn full_compute_cycle() {
    let mut s = ComputeSchedule::new(String::from("main"));
    let shares = s.run_iterations_in_current_sequences(100, 4);
    assert_eq!(shares, vec![25, 25, 25, 25]);
    assert_eq!(s.state(), State::ComputeSequences);
    assert_eq!(s.active_sequences_count(), 4);
    assert_eq!(s.get_histogram(), Some(&String::from("main")));

    let r = s.try_poll_and_merge(1, None);
    assert!(!r.merged);
    assert!(r.histogram_to_merge.is_none());
    assert_eq!(s.state(), State::ComputeSequences);
    assert_eq!(s.active_sequences_count(), 3);

    let r = s.try_poll_and_merge(0, None);
    assert!(!r.merged);
    assert_eq!(s.active_sequences_count(), 3);

    // The poll that sees the last sequence hands the histogram to the merge
    // and still answers false.
    let r = s.try_poll_and_merge(3, None);
    assert!(!r.merged);
    assert_eq!(r.histogram_to_merge, Some(String::from("main")));
    assert_eq!(s.state(), State::MergingHistograms);
    assert_eq!(s.active_sequences_count(), 0);
    assert_eq!(s.get_histogram(), None);

    let r = s.try_poll_and_merge(0, None);
    assert!(!r.merged);
    assert_eq!(s.state(), State::MergingHistograms);
    assert_eq!(s.get_histogram(), None);

    let r = s.try_poll_and_merge(0, Some(String::from("merged")));
    assert!(r.merged);
    assert!(r.histogram_to_merge.is_none());
    assert_eq!(s.state(), State::NoWork);
    assert_eq!(s.active_sequences_count(), 0);
    assert_eq!(s.get_histogram(), Some(&String::from("merged")));
}

#[test]
fn polling_an_idle_schedule_changes_nothing() {
    let mut s = ComputeSchedule::new(7u32);
    let r = s.try_poll_and_merge(0, None);
    assert!(!r.merged);
    assert!(r.histogram_to_merge.is_none());
    assert_eq!(s.state(), State::NoWork);
    assert_eq!(s.get_histogram(), Some(&7));
}

#[test]
fn merging_starts_with_the_last_sequence_in_any_batches() {
    let mut s = ComputeSchedule::new(1u32);
    s.run_iterations_in_current_sequences(7, 6);
    for batch in [2usize, 1, 0, 2] {
        let r = s.try_poll_and_merge(batch, None);
        assert!(!r.merged);
        assert!(r.histogram_to_merge.is_none());
        assert_eq!(s.state(), State::ComputeSequences);
    }
    assert_eq!(s.active_sequences_count(), 1);
    let r = s.try_poll_and_merge(1, None);
    assert!(!r.merged);
    assert_eq!(r.histogram_to_merge, Some(1));
    assert_eq!(s.state(), State::MergingHistograms);
}

#[test]
fn a_second_cycle_can_follow_the_first() {
    let mut s = ComputeSchedule::new(0u32);
    s.run_iterations_in_current_sequences(9, 2);
    let r = s.try_poll_and_merge(2, None);
    assert_eq!(r.histogram_to_merge, Some(0));
    assert!(s.try_poll_and_merge(0, Some(5)).merged);
    let shares = s.run_iterations_in_current_sequences(9, 4);
    assert_eq!(shares, vec![3, 2, 2, 2]);
    assert_eq!(s.active_sequences_count(), 4);
    assert_eq!(s.get_histogram(), Some(&5));
}

#[test]
fn record_iteration_counts_the_iteration_and_its_hit() {
    let mut h = Histogram::new(3, 2);
    let mut count: u64 = 15;
    record_iteration(&mut h, &mut count, Some((2, 1)));
    assert_eq!(count, 16);
    assert_eq!(*h.get(2, 1), 1);
    record_iteration(&mut h, &mut count, None);
    assert_eq!(count, 17);
    assert_eq!(*h.get(2, 1), 1);
    record_iteration(&mut h, &mut count, Some((2, 1)));
    record_iteration(&mut h, &mut count, Some((0, 0)));
    assert_eq!(count, 19);
    assert_eq!(*h.get(2, 1), 2);
    assert_eq!(*h.get(0, 0), 1);
    assert_eq!(*h.get(1, 0), 0);
}

#[test]
fn outcome_outside_the_area() {
    assert_eq!(iteration_outcome(false, 100, 15), IterationOutcome::OutsideArea);
    assert_eq!(iteration_outcome(false, 0, 0), IterationOutcome::OutsideArea);
}

#[test]
fn outcome_while_burning_in() {
    assert_eq!(iteration_outcome(true, 0, 15), IterationOutcome::Burning);
    assert_eq!(iteration_outcome(true, 14, 15), IterationOutcome::Burning);
}

#[test]
fn outcome_after_burn_in() {
    assert_eq!(
        iteration_outcome(true, 15, 15),
        IterationOutcome::Recorded { first_iteration: false }
    );
    assert_eq!(
        iteration_outcome(true, 0, 0),
        IterationOutcome::Recorded { first_iteration: true }
    );
}

#[test]
fn clamp_keeps_coords_inside() {
    assert_eq!(clamp_histogram_coords(0, 0, 800, 600), (0, 0));
    assert_eq!(clamp_histogram_coords(799, 599, 800, 600), (799, 599));
    assert_eq!(clamp_histogram_coords(123, 456, 800, 600), (123, 456));
}

#[test]
fn clamp_caps_coords_at_the_last_cell() {
    assert_eq!(clamp_histogram_coords(800, 600, 800, 600), (799, 599));
    assert_eq!(clamp_histogram_coords(usize::MAX, 3, 800, 600), (799, 3));
    assert_eq!(clamp_histogram_coords(5, 5, 1, 1), (0, 0));
}

#[test]
fn merging_schedule_has_no_histogram_at_hand() {
    let mut s = ComputeSchedule::new(3u32);
    s.run_iterations_in_current_sequences(4, 2);
    s.try_poll_and_merge(2, None);
    assert_eq!(s.state(), State::MergingHistograms);
    assert!(s.get_histogram().is_none());
}
