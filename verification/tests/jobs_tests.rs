use xa_promote::jobs::{ips_in_range, BatchCounter, JobPlan, JobSpec};

fn drain(mut plan: JobPlan) -> Vec<(usize, usize, usize, u64)> {
    let mut out = Vec::new();
    while let Some(JobSpec { id, us_id, ip, seq_index }) = plan.next() {
        out.push((id, us_id, ip, seq_index));
    }
    assert!(plan.next().is_none());
    out
}

#[test]
fn job_plan_nests_samples_posters_and_sequences() {
    let jobs = drain(JobPlan::new(2, vec![5, 7], 2));
    assert_eq!(
        jobs,
        vec![
            (0, 0, 5, 0),
            (0, 0, 5, 1),
            (1, 0, 7, 0),
            (1, 0, 7, 1),
            (2, 1, 5, 0),
            (2, 1, 5, 1),
            (3, 1, 7, 0),
            (3, 1, 7, 1),
        ]
    );
}

#[test]
fn job_plan_without_posters_or_sequences_is_empty() {
    assert!(drain(JobPlan::new(3, vec![], 4)).is_empty());
    assert!(drain(JobPlan::new(3, vec![1], 0)).is_empty());
    assert!(drain(JobPlan::new(0, vec![1, 2], 4)).is_empty());
}

#[test]
fn job_plan_with_one_sequence() {
    assert_eq!(drain(JobPlan::new(1, vec![3, 1, 4], 1)), vec![(0, 0, 3, 0), (1, 0, 1, 0), (2, 0, 4, 0)]);
}

#[test]
fn ips_in_range_checks_every_poster() {
    assert!(ips_in_range(&vec![0, 3, 2], 4));
    assert!(!ips_in_range(&vec![0, 4, 2], 4));
    assert!(ips_in_range(&vec![], 0));
}

#[test]
fn batch_counter_flushes_at_batch_size() {
    let mut c = BatchCounter::new(3);
    let flushes: Vec<bool> = (0..7).map(|_| c.push()).collect();
    assert_eq!(flushes, vec![false, false, true, false, false, true, false]);
}

#[test]
fn batch_counter_of_size_zero_or_one_flushes_every_time() {
    let mut c = BatchCounter::new(0);
    assert!(c.push() && c.push());
    let mut c = BatchCounter::new(1);
    assert!(c.push() && c.push());
}
