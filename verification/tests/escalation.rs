use process_reaper::escalation::{find_survivors, is_listed, mark_offenders, ProcessObservation};

const MIB: u64 = 1 << 20;

fn seen(pid: u32, resident_memory: u64) -> ProcessObservation {
    ProcessObservation { pid, resident_memory }
}

#[test]
fn a_process_at_the_threshold_is_over_it() {
    assert!(seen(1, 500 * MIB).is_over(500 * MIB));
    assert!(seen(1, 500 * MIB + 1).is_over(500 * MIB));
    assert!(!seen(1, 500 * MIB - 1).is_over(500 * MIB));
    assert!(seen(1, 0).is_over(0));
    assert!(seen(1, u64::MAX).is_over(u64::MAX));
    assert!(!seen(1, u64::MAX - 1).is_over(u64::MAX));
}

#[test]
fn the_processes_over_the_threshold_are_marked_in_order() {
    let sample = vec![
        seen(40, 520 * MIB),
        seen(12, 100 * MIB),
        seen(7, 500 * MIB),
        seen(99, 500 * MIB - 1),
        seen(3, u64::MAX),
    ];
    assert_eq!(mark_offenders(&sample, 500 * MIB), vec![40, 7, 3]);
    assert_eq!(mark_offenders(&sample, 0), vec![40, 12, 7, 99, 3]);
    assert_eq!(mark_offenders(&sample, u64::MAX), vec![3]);
}

#[test]
fn an_empty_sample_marks_nothing() {
    assert_eq!(mark_offenders(&vec![], 500 * MIB), Vec::<u32>::new());
    assert_eq!(mark_offenders(&vec![seen(1, 1)], 2), Vec::<u32>::new());
}

#[test]
fn only_pending_processes_that_are_still_present_survive() {
    assert_eq!(find_survivors(&vec![40, 7, 3], &vec![1, 3, 40, 41]), vec![40, 3]);
    assert_eq!(find_survivors(&vec![40, 7, 3], &vec![]), Vec::<u32>::new());
    assert_eq!(find_survivors(&vec![], &vec![1, 2, 3]), Vec::<u32>::new());
    assert_eq!(find_survivors(&vec![5], &vec![5]), vec![5]);
    assert_eq!(find_survivors(&vec![5], &vec![6]), Vec::<u32>::new());
}

#[test]
fn a_list_holds_what_was_put_in_it() {
    assert!(is_listed(&vec![1, 2, 3], 3));
    assert!(is_listed(&vec![1, 2, 3], 1));
    assert!(!is_listed(&vec![1, 2, 3], 4));
    assert!(!is_listed(&vec![], 0));
}
