use process_reaper::error::Fatal;
use process_reaper::escalation::ProcessObservation;
use process_reaper::monitor::{Action, Event, Monitor, Phase, GRACE_SECONDS};
use process_reaper::run_state::RunState;
use process_reaper::threshold::str_to_bytes_of_memory;

const MIB: u64 = 1 << 20;
const GIB: u64 = 1 << 30;

fn seen(pid: u32, resident_memory: u64) -> ProcessObservation {
    ProcessObservation { pid, resident_memory }
}

/// A monitor for "500MiB" on a machine with 8 GiB.
fn worker_monitor(notify: bool) -> Monitor {
    let threshold = str_to_bytes_of_memory("500MiB", 8 * GIB).unwrap();
    Monitor::new(threshold, notify)
}

#[test]
fn a_process_that_exits_after_the_soft_signal_is_left_alone() {
    let monitor = worker_monitor(false);
    assert_eq!(monitor.threshold(), 524_288_000);
    assert_eq!(monitor.action(), Action::Sample);
    let monitor = monitor.step(Event::Sampled(vec![seen(4711, 520 * MIB)]));
    assert_eq!(monitor.phase(), Phase::Escalating);
    assert_eq!(monitor.action(), Action::SoftSignal(4711));
    let monitor = monitor.step(Event::SoftSignalled(true));
    assert_eq!(monitor.phase(), Phase::Cooling);
    assert_eq!(monitor.action(), Action::Sleep(2));
    let monitor = monitor.step(Event::GraceElapsed);
    assert_eq!(monitor.phase(), Phase::Reconciling);
    assert_eq!(monitor.action(), Action::Resample);
    let monitor = monitor.step(Event::Resampled(vec![1, 2, 3]));
    assert_eq!(monitor.phase(), Phase::CheckingShutdown);
    assert_eq!(monitor.action(), Action::ReadRunFlag);
    let monitor = monitor.step(Event::RunFlag(true));
    assert_eq!(monitor.action(), Action::Sample);
}

#[test]
fn a_process_that_ignores_the_soft_signal_gets_the_hard_one() {
    let monitor = worker_monitor(false);
    let monitor = monitor.step(Event::Sampled(vec![seen(4711, 520 * MIB)]));
    assert_eq!(monitor.action(), Action::SoftSignal(4711));
    let monitor = monitor.step(Event::SoftSignalled(true));
    let monitor = monitor.step(Event::GraceElapsed);
    let monitor = monitor.step(Event::Resampled(vec![1, 4711, 3]));
    assert_eq!(monitor.phase(), Phase::Reaping);
    assert_eq!(monitor.action(), Action::HardSignal(4711));
    let monitor = monitor.step(Event::HardSignalled(true));
    assert_eq!(monitor.phase(), Phase::CheckingShutdown);
    assert_eq!(monitor.action(), Action::ReadRunFlag);
}

#[test]
fn an_iteration_without_matching_processes_sleeps_and_goes_on() {
    let monitor = worker_monitor(false);
    let monitor = monitor.step(Event::Sampled(vec![]));
    assert_eq!(monitor.action(), Action::Sleep(GRACE_SECONDS));
    let monitor = monitor.step(Event::GraceElapsed);
    assert_eq!(monitor.action(), Action::Resample);
    let monitor = monitor.step(Event::Resampled(vec![10, 11]));
    assert_eq!(monitor.action(), Action::ReadRunFlag);
    let monitor = monitor.step(Event::RunFlag(true));
    assert_eq!(monitor.phase(), Phase::Sampling);
    assert_eq!(monitor.action(), Action::Sample);
}

#[test]
fn processes_under_the_threshold_are_untouched() {
    let monitor = worker_monitor(false);
    let monitor = monitor.step(Event::Sampled(vec![seen(1, 499 * MIB), seen(2, 0)]));
    assert_eq!(monitor.action(), Action::Sleep(2));
    let monitor = monitor.step(Event::GraceElapsed);
    let monitor = monitor.step(Event::Resampled(vec![1, 2]));
    assert_eq!(monitor.action(), Action::ReadRunFlag);
}

#[test]
fn a_process_exactly_at_the_threshold_is_signalled() {
    let monitor = worker_monitor(false);
    let monitor = monitor.step(Event::Sampled(vec![seen(8, 500 * MIB)]));
    assert_eq!(monitor.action(), Action::SoftSignal(8));
}

#[test]
fn every_offender_is_signalled_once_before_the_sleep() {
    let monitor = worker_monitor(false);
    let sample = vec![seen(5, 600 * MIB), seen(6, 1), seen(7, 500 * MIB), seen(9, 2 * GIB)];
    let mut monitor = monitor.step(Event::Sampled(sample));
    let mut asked = Vec::new();
    let mut delivered = false;
    while let Action::SoftSignal(pid) = monitor.action() {
        asked.push(pid);
        monitor = monitor.step(Event::SoftSignalled(delivered));
        delivered = !delivered;
    }
    assert_eq!(asked, vec![5, 7, 9]);
    assert_eq!(monitor.action(), Action::Sleep(2));
}

#[test]
fn a_soft_signal_that_fails_still_leads_to_reconciliation() {
    let monitor = worker_monitor(false);
    let monitor = monitor.step(Event::Sampled(vec![seen(5, 600 * MIB)]));
    let monitor = monitor.step(Event::SoftSignalled(false));
    assert_eq!(monitor.action(), Action::Sleep(2));
    let monitor = monitor.step(Event::GraceElapsed);
    let monitor = monitor.step(Event::Resampled(vec![5]));
    assert_eq!(monitor.action(), Action::HardSignal(5));
    let monitor = monitor.step(Event::HardSignalled(false));
    assert_eq!(monitor.action(), Action::ReadRunFlag);
}

#[test]
fn only_survivors_among_the_pending_get_the_hard_signal() {
    let monitor = worker_monitor(false);
    let sample = vec![seen(5, 600 * MIB), seen(7, 700 * MIB), seen(9, 800 * MIB)];
    let mut monitor = monitor.step(Event::Sampled(sample));
    while let Action::SoftSignal(_) = monitor.action() {
        monitor = monitor.step(Event::SoftSignalled(true));
    }
    monitor = monitor.step(Event::GraceElapsed);
    monitor = monitor.step(Event::Resampled(vec![9, 6, 5, 1000]));
    let mut asked = Vec::new();
    while let Action::HardSignal(pid) = monitor.action() {
        asked.push(pid);
        monitor = monitor.step(Event::HardSignalled(true));
    }
    assert_eq!(asked, vec![5, 9]);
    assert_eq!(monitor.action(), Action::ReadRunFlag);
}

#[test]
fn pending_records_do_not_outlive_their_iteration() {
    let monitor = worker_monitor(false);
    let monitor = monitor.step(Event::Sampled(vec![seen(5, 600 * MIB)]));
    let monitor = monitor.step(Event::SoftSignalled(true));
    let monitor = monitor.step(Event::GraceElapsed);
    let monitor = monitor.step(Event::Resampled(vec![]));
    let monitor = monitor.step(Event::RunFlag(true));
    let monitor = monitor.step(Event::Sampled(vec![]));
    let monitor = monitor.step(Event::GraceElapsed);
    let monitor = monitor.step(Event::Resampled(vec![5]));
    assert_eq!(monitor.action(), Action::ReadRunFlag);
}

#[test]
fn the_ping_is_sent_once_per_iteration_where_it_is_enabled() {
    let monitor = worker_monitor(true);
    let monitor = monitor.step(Event::Sampled(vec![]));
    let monitor = monitor.step(Event::GraceElapsed);
    let monitor = monitor.step(Event::Resampled(vec![]));
    assert_eq!(monitor.phase(), Phase::Notifying);
    assert_eq!(monitor.action(), Action::NotifyAlive);
    let monitor = monitor.step(Event::Notified(true));
    assert_eq!(monitor.action(), Action::ReadRunFlag);
    let monitor = monitor.step(Event::RunFlag(true));
    let monitor = monitor.step(Event::Sampled(vec![seen(5, 600 * MIB)]));
    let monitor = monitor.step(Event::SoftSignalled(true));
    let monitor = monitor.step(Event::GraceElapsed);
    let monitor = monitor.step(Event::Resampled(vec![5]));
    let monitor = monitor.step(Event::HardSignalled(true));
    assert_eq!(monitor.action(), Action::NotifyAlive);
}

#[test]
fn a_failed_ping_is_fatal() {
    let monitor = worker_monitor(true);
    let monitor = monitor.step(Event::Sampled(vec![]));
    let monitor = monitor.step(Event::GraceElapsed);
    let monitor = monitor.step(Event::Resampled(vec![]));
    let monitor = monitor.step(Event::Notified(false));
    assert_eq!(monitor.phase(), Phase::Failed(Fatal::NotificationFailed));
    assert_eq!(monitor.action(), Action::Abort(Fatal::NotificationFailed));
    let monitor = monitor.step(Event::RunFlag(true));
    assert_eq!(monitor.action(), Action::Abort(Fatal::NotificationFailed));
}

#[test]
fn a_sample_that_cannot_be_taken_is_fatal() {
    let monitor = worker_monitor(true).step(Event::SampleFailed);
    assert_eq!(monitor.phase(), Phase::Failed(Fatal::SamplerUnavailable));
    assert_eq!(monitor.action(), Action::Abort(Fatal::SamplerUnavailable));
    let monitor = monitor.step(Event::Sampled(vec![]));
    assert_eq!(monitor.action(), Action::Abort(Fatal::SamplerUnavailable));

    let monitor = worker_monitor(false);
    let monitor = monitor.step(Event::Sampled(vec![seen(5, 600 * MIB)]));
    let monitor = monitor.step(Event::SampleFailed);
    assert_eq!(monitor.action(), Action::SoftSignal(5));
    let monitor = monitor.step(Event::SoftSignalled(true));
    let monitor = monitor.step(Event::GraceElapsed);
    let monitor = monitor.step(Event::SampleFailed);
    assert_eq!(monitor.action(), Action::Abort(Fatal::SamplerUnavailable));
}

#[test]
fn a_cleared_flag_ends_the_loop_for_good() {
    let monitor = worker_monitor(false);
    let monitor = monitor.step(Event::Sampled(vec![]));
    let monitor = monitor.step(Event::GraceElapsed);
    let monitor = monitor.step(Event::Resampled(vec![]));
    let monitor = monitor.step(Event::RunFlag(false));
    assert_eq!(monitor.phase(), Phase::Terminal);
    assert_eq!(monitor.action(), Action::Stop);
    let monitor = monitor.step(Event::RunFlag(true));
    assert_eq!(monitor.action(), Action::Stop);
    let monitor = monitor.step(Event::Sampled(vec![seen(1, u64::MAX)]));
    assert_eq!(monitor.action(), Action::Stop);
}

#[test]
fn a_request_during_the_iteration_is_seen_at_its_end() {
    // The flag is read only when the machine asks for it: the iteration under
    // way is completed first, hard signal included.
    let monitor = worker_monitor(false);
    let monitor = monitor.step(Event::Sampled(vec![seen(5, 600 * MIB)]));
    let monitor = monitor.step(Event::RunFlag(false));
    assert_eq!(monitor.action(), Action::SoftSignal(5));
    let monitor = monitor.step(Event::SoftSignalled(true));
    let monitor = monitor.step(Event::RunFlag(false));
    assert_eq!(monitor.action(), Action::Sleep(2));
    let monitor = monitor.step(Event::GraceElapsed);
    let monitor = monitor.step(Event::Resampled(vec![5]));
    assert_eq!(monitor.action(), Action::HardSignal(5));
    let monitor = monitor.step(Event::HardSignalled(true));
    assert_eq!(monitor.action(), Action::ReadRunFlag);
    let monitor = monitor.step(Event::RunFlag(false));
    assert_eq!(monitor.action(), Action::Stop);
}

#[test]
fn a_report_that_answers_nothing_changes_nothing() {
    let monitor = worker_monitor(true);
    let monitor = monitor.step(Event::GraceElapsed);
    assert_eq!(monitor.action(), Action::Sample);
    let monitor = monitor.step(Event::Notified(false));
    assert_eq!(monitor.action(), Action::Sample);
    let monitor = monitor.step(Event::Sampled(vec![seen(5, 600 * MIB), seen(6, 600 * MIB)]));
    let monitor = monitor.step(Event::HardSignalled(true));
    assert_eq!(monitor.action(), Action::SoftSignal(5));
    let monitor = monitor.step(Event::Sampled(vec![]));
    assert_eq!(monitor.action(), Action::SoftSignal(5));
    let monitor = monitor.step(Event::SoftSignalled(true));
    assert_eq!(monitor.action(), Action::SoftSignal(6));
}

#[test]
fn the_threshold_stays_as_it_was_resolved() {
    let mut monitor = worker_monitor(true);
    let reports = vec![
        Event::Sampled(vec![seen(5, 600 * MIB)]),
        Event::SoftSignalled(true),
        Event::GraceElapsed,
        Event::Resampled(vec![5]),
        Event::HardSignalled(true),
        Event::Notified(true),
        Event::RunFlag(true),
        Event::Sampled(vec![]),
    ];
    for report in reports {
        monitor = monitor.step(report);
        assert_eq!(monitor.threshold(), 524_288_000);
    }
}

#[test]
fn a_percentage_limit_drives_the_monitor() {
    let threshold = str_to_bytes_of_memory("50%", 8 * GIB).unwrap();
    let monitor = Monitor::new(threshold, false);
    let monitor = monitor.step(Event::Sampled(vec![seen(1, 4 * GIB - 1), seen(2, 4 * GIB)]));
    assert_eq!(monitor.action(), Action::SoftSignal(2));
    let monitor = monitor.step(Event::SoftSignalled(true));
    assert_eq!(monitor.action(), Action::Sleep(2));
}

#[test]
fn the_run_flag_starts_set_and_stays_cleared() {
    let mut state = RunState::new();
    assert!(state.is_running());
    state.request_stop();
    assert!(!state.is_running());
    state.request_stop();
    assert!(!state.is_running());
}

#[test]
fn the_run_flag_ends_the_loop_once_it_is_cleared() {
    let mut state = RunState::new();
    let mut monitor = worker_monitor(false);
    let mut samples = 0;
    loop {
        let report = match monitor.action() {
            Action::Sample => {
                samples += 1;
                Event::Sampled(vec![])
            }
            Action::Sleep(_) => {
                // The request arrives during the grace sleep of the second
                // iteration.
                if samples == 2 {
                    state.request_stop();
                }
                Event::GraceElapsed
            }
            Action::Resample => Event::Resampled(vec![]),
            Action::ReadRunFlag => Event::RunFlag(state.is_running()),
            Action::Stop => break,
            other => panic!("unexpected action {:?}", other),
        };
        monitor = monitor.step(report);
    }
    assert_eq!(samples, 2);
    assert_eq!(monitor.phase(), Phase::Terminal);
}
