//! Which processes are signalled: the rule that marks a process as over the
//! threshold, and the rule that picks, after the grace interval, the marked
//! processes that get the forceful signal.

use vstd::prelude::*;

verus! {

/// One process as a sample shows it: its identifier and the memory it holds
/// resident, in bytes. The name is no part of it: a sample is taken by the
/// target name, which every process in it carries.
#[derive(Clone, Copy, Debug, PartialEq, Eq, Structural)]
pub struct ProcessObservation {
    pub pid: u32,
    pub resident_memory: u64,
}

impl ProcessObservation {
    /// A process is over the threshold when it holds at least that many bytes:
    /// the boundary itself counts.
    pub open spec fn over(self, threshold: u64) -> bool {
        self.resident_memory >= threshold
    }

    /// Whether the process is over the threshold.
    pub fn is_over(&self, threshold: u64) -> (over: bool)
        ensures
            over == self.over(threshold),
    {
        self.resident_memory >= threshold
    }
}

/// The test that [`offenders`] filters a sample by.
pub open spec fn over_threshold(threshold: u64) -> spec_fn(ProcessObservation) -> bool {
    |o: ProcessObservation| o.over(threshold)
}

/// The projection of an observation to its identifier.
pub open spec fn pid_of() -> spec_fn(ProcessObservation) -> u32 {
    |o: ProcessObservation| o.pid
}

/// The identifiers of the observations that are over the threshold, one for
/// each such observation, in the order of the sample.
pub open spec fn offenders(sample: Seq<ProcessObservation>, threshold: u64) -> Seq<u32> {
    sample.filter(over_threshold(threshold)).map_values(pid_of())
}

/// The test that [`survivors`] filters the pending identifiers by.
pub open spec fn still_present(present: Seq<u32>) -> spec_fn(u32) -> bool {
    |pid: u32| present.contains(pid)
}

/// The pending identifiers that a later sample still shows, in their order.
pub open spec fn survivors(pending: Seq<u32>, present: Seq<u32>) -> Seq<u32> {
    pending.filter(still_present(present))
}

/// Evaluates a sample: the identifiers of the processes over the threshold.
pub fn mark_offenders(sample: &Vec<ProcessObservation>, threshold: u64) -> (marked: Vec<u32>)
    ensures
        marked@ == offenders(sample@, threshold),
{
    let mut marked: Vec<u32> = Vec::new();
    let mut i: usize = 0;
    assert(sample@.take(0) =~= Seq::empty());
    while i < sample.len()
        invariant
            i <= sample.len(),
            marked@ == offenders(sample@.take(i as int), threshold),
        decreases sample.len() - i,
    {
        let observation = sample[i];
        proof {
            let seen = sample@.take(i as int);
            assert(sample@.take(i + 1) =~= seen.push(observation));
            seen.lemma_filter_push(observation, over_threshold(threshold));
            seen.filter(over_threshold(threshold)).lemma_push_map_commute(pid_of(), observation);
        }
        if observation.is_over(threshold) {
            marked.push(observation.pid);
        }
        i += 1;
    }
    assert(sample@.take(sample.len() as int) =~= sample@);
    marked
}

/// Whether the list holds the identifier.
pub fn is_listed(list: &Vec<u32>, pid: u32) -> (listed: bool)
    ensures
        listed == list@.contains(pid),
{
    let mut i: usize = 0;
    while i < list.len()
        invariant
            i <= list.len(),
            forall|k: int| 0 <= k < i ==> list@[k] != pid,
        decreases list.len() - i,
    {
        if list[i] == pid {
            return true;
        }
        i += 1;
    }
    false
}

/// Reconciles the pending identifiers with a later sample: those that the
/// sample still shows. An identifier that the sample lacks is not returned.
pub fn find_survivors(pending: &Vec<u32>, present: &Vec<u32>) -> (stale: Vec<u32>)
    ensures
        stale@ == survivors(pending@, present@),
{
    let mut stale: Vec<u32> = Vec::new();
    let mut i: usize = 0;
    assert(pending@.take(0) =~= Seq::empty());
    while i < pending.len()
        invariant
            i <= pending.len(),
            stale@ == survivors(pending@.take(i as int), present@),
        decreases pending.len() - i,
    {
        let pid = pending[i];
        proof {
            let seen = pending@.take(i as int);
            assert(pending@.take(i + 1) =~= seen.push(pid));
            seen.lemma_filter_push(pid, still_present(present@));
        }
        if is_listed(present, pid) {
            stale.push(pid);
        }
        i += 1;
    }
    assert(pending@.take(pending.len() as int) =~= pending@);
    stale
}

/// A process that holds exactly the threshold is over it.
pub proof fn lemma_boundary_is_over(observation: ProcessObservation, threshold: u64)
    requires
        observation.resident_memory == threshold,
    ensures
        observation.over(threshold),
        offenders(seq![observation], threshold) == seq![observation.pid],
{
    let none = Seq::<ProcessObservation>::empty();
    assert(seq![observation] =~= none.push(observation));
    none.lemma_filter_push(observation, over_threshold(threshold));
    assert(none.filter(over_threshold(threshold)) =~= none) by {
        none.lemma_filter_len(over_threshold(threshold));
    }
    assert(offenders(seq![observation], threshold) =~= seq![observation.pid]);
}

/// Every marked identifier belongs to an observation of the sample that is
/// over the threshold, and every such observation has its identifier marked.
pub proof fn lemma_offenders_are_the_over(sample: Seq<ProcessObservation>, threshold: u64, pid: u32)
    ensures
        offenders(sample, threshold).contains(pid) <==> exists|i: int|
            0 <= i < sample.len() && #[trigger] sample[i].over(threshold) && sample[i].pid == pid,
{
    broadcast use vstd::seq_lib::group_filter_ensures;

    let over = sample.filter(over_threshold(threshold));
    if offenders(sample, threshold).contains(pid) {
        let k = choose|k: int| 0 <= k < over.len() && over.map_values(pid_of())[k] == pid;
        assert(over.contains(over[k]));
        sample.lemma_filter_contains_rev(over_threshold(threshold), over[k]);
        let i = choose|i: int| 0 <= i < sample.len() && sample[i] == over[k];
        sample.lemma_filter_pred(over_threshold(threshold), k);
        assert(sample[i].over(threshold) && sample[i].pid == pid);
    }
    if exists|i: int| 0 <= i < sample.len() && #[trigger] sample[i].over(threshold) && sample[i].pid == pid {
        let i = choose|i: int| 0 <= i < sample.len() && #[trigger] sample[i].over(threshold) && sample[i].pid == pid;
        sample.lemma_filter_contains(over_threshold(threshold), i);
        let k = choose|k: int| 0 <= k < over.len() && over[k] == sample[i];
        assert(over.map_values(pid_of())[k] == pid);
    }
}

/// Whether no identifier occurs twice in the sample.
pub open spec fn distinct_pids(sample: Seq<ProcessObservation>) -> bool {
    forall|i: int, j: int|
        0 <= i < j < sample.len() ==> (#[trigger] sample[i]).pid != (#[trigger] sample[j]).pid
}

/// A sample that shows each process once marks each process at most once: no
/// process is pending twice in one iteration.
pub proof fn lemma_offenders_are_distinct(sample: Seq<ProcessObservation>, threshold: u64)
    requires
        distinct_pids(sample),
    ensures
        offenders(sample, threshold).no_duplicates(),
    decreases sample.len(),
{
    if sample.len() == 0 {
        sample.lemma_filter_len(over_threshold(threshold));
    } else {
        let earlier = sample.drop_last();
        let newest = sample.last();
        assert(distinct_pids(earlier)) by {
            assert forall|i: int, j: int| 0 <= i < j < earlier.len() implies (#[trigger] earlier[i]).pid
                != (#[trigger] earlier[j]).pid by {
                assert(earlier[i] == sample[i] && earlier[j] == sample[j]);
            }
        }
        lemma_offenders_are_distinct(earlier, threshold);
        assert(sample =~= earlier.push(newest));
        earlier.lemma_filter_push(newest, over_threshold(threshold));
        earlier.filter(over_threshold(threshold)).lemma_push_map_commute(pid_of(), newest);
        if newest.over(threshold) {
            let marked = offenders(earlier, threshold);
            assert(offenders(sample, threshold) == marked.push(newest.pid));
            if marked.contains(newest.pid) {
                lemma_offenders_are_the_over(earlier, threshold, newest.pid);
                let i = choose|i: int|
                    0 <= i < earlier.len() && #[trigger] earlier[i].over(threshold)
                        && earlier[i].pid == newest.pid;
                assert(sample[i].pid == sample[sample.len() - 1].pid);
            }
            assert forall|i: int, j: int|
                0 <= i < marked.len() + 1 && 0 <= j < marked.len() + 1 && i != j implies marked.push(
                newest.pid,
            )[i] != marked.push(newest.pid)[j] by {
                if i < marked.len() {
                    assert(marked.contains(marked[i]));
                }
                if j < marked.len() {
                    assert(marked.contains(marked[j]));
                }
            }
        }
    }
}

/// An identifier that the later sample lacks is not among the survivors, so
/// nothing is sent to it; one that is pending and present is.
pub proof fn lemma_survivors_are_pending_and_present(pending: Seq<u32>, present: Seq<u32>, pid: u32)
    ensures
        survivors(pending, present).contains(pid) <==> pending.contains(pid) && present.contains(pid),
{
    let stale = survivors(pending, present);
    if stale.contains(pid) {
        let k = choose|k: int| 0 <= k < stale.len() && stale[k] == pid;
        pending.lemma_filter_pred(still_present(present), k);
        pending.lemma_filter_contains_rev(still_present(present), pid);
    }
    if pending.contains(pid) && present.contains(pid) {
        let i = choose|i: int| 0 <= i < pending.len() && pending[i] == pid;
        pending.lemma_filter_contains(still_present(present), i);
    }
}

} // verus!
