use chcpu::batch::BatchAccumulator;
use chcpu::batch::BatchOutcome;
use chcpu::errors::ChCpuError;

fn busy(i: usize) -> ChCpuError {
    ChCpuError::io0(format!("CPU {i} enable failed"), "Device or resource busy".to_string())
}

#[test]
fn all_successes_is_success() {
    let mut acc = BatchAccumulator::new();
    acc.record(Ok(()));
    acc.record(Ok(()));
    acc.record(Ok(()));
    let outcome = acc.finish();
    assert_eq!(outcome, BatchOutcome::Success);
    assert_eq!(outcome.exit_code(), 0);
}

#[test]
fn mixed_outcomes_are_partial_success() {
    // CPUs 1 and 3 succeed, CPU 2 fails: partial success, not the error
    let mut acc = BatchAccumulator::new();
    acc.record(Ok(()));
    acc.record(Err(busy(2)));
    acc.record(Ok(()));
    let outcome = acc.finish();
    assert_eq!(outcome, BatchOutcome::PartialSuccess);
    assert_eq!(outcome.exit_code(), 64);
}

#[test]
fn single_failure_is_the_overall_result() {
    // a batch over one CPU that fails reports that failure, not partial success
    let mut acc = BatchAccumulator::new();
    acc.record(Err(busy(5)));
    let outcome = acc.finish();
    assert_eq!(outcome, BatchOutcome::Failure(busy(5)));
    assert_eq!(outcome.exit_code(), 1);
}

#[test]
fn all_failures_report_the_first_error() {
    let mut acc = BatchAccumulator::new();
    acc.record(Err(busy(1)));
    acc.record(Err(busy(2)));
    acc.record(Err(busy(3)));
    assert_eq!(acc.finish(), BatchOutcome::Failure(busy(1)));
}

#[test]
fn a_late_success_still_makes_it_partial() {
    let mut acc = BatchAccumulator::new();
    acc.record(Err(busy(1)));
    acc.record(Err(busy(2)));
    acc.record(Ok(()));
    assert_eq!(acc.finish(), BatchOutcome::PartialSuccess);
}

#[test]
fn empty_batch_is_success() {
    let acc = BatchAccumulator::new();
    assert_eq!(acc.finish(), BatchOutcome::Success);
}
