use git_hours::{estimate_hours, Args};

fn args(max_commit_diff: u32, first_commit_add: u32) -> Args {
    Args { max_commit_diff, first_commit_add, merge_commits: true, branch: None }
}

#[test]
fn no_commits_estimate_zero() {
    assert_eq!(estimate_hours(&args(120, 120), &[]), 0);
}

#[test]
fn single_commit_estimates_zero() {
    assert_eq!(estimate_hours(&args(120, 120), &[1_700_000_000]), 0);
}

#[test]
fn minute_offsets_0_30_500_give_13_hours() {
    let t0: i64 = 1_600_000_000;
    let times = [t0, t0 + 30 * 60, t0 + 500 * 60];
    assert_eq!(estimate_hours(&args(120, 120), &times), 13);
}

#[test]
fn two_close_commits_add_gap_to_base() {
    // 10 h base + 1 h gap.
    assert_eq!(estimate_hours(&args(120, 120), &[0, 3600]), 11);
}

#[test]
fn gap_equal_to_threshold_starts_new_session() {
    // The gap of exactly 120 minutes is not below the threshold: 10 h + 30 min bonus rounds to 11.
    assert_eq!(estimate_hours(&args(120, 30), &[0, 7200]), 11);
    // One second less stays in the session: 10 h + 1:59:59 rounds to 12.
    assert_eq!(estimate_hours(&args(120, 30), &[0, 7199]), 12);
}

#[test]
fn half_hour_rounds_up() {
    // 10 h + 30 min = 10.5 h.
    assert_eq!(estimate_hours(&args(120, 120), &[0, 1800]), 11);
    // 10 h + 29 min rounds down.
    assert_eq!(estimate_hours(&args(120, 120), &[0, 1740]), 10);
}

#[test]
fn equal_timestamps_count_as_same_session() {
    assert_eq!(estimate_hours(&args(120, 120), &[5, 5, 5]), 10);
}

#[test]
fn larger_first_commit_add_never_lowers_estimate() {
    let times = [0, 600, 100_000, 100_300, 500_000];
    let mut last = 0;
    for f in [0u32, 30, 60, 120, 600, 6000] {
        let h = estimate_hours(&args(120, f), &times);
        assert!(h >= last);
        last = h;
    }
    // Two session starts at 6000 minutes each: 10 + 2 * 100 + 15 min, rounded.
    assert_eq!(last, 210);
}

#[test]
fn huge_estimate_saturates() {
    let times: Vec<i64> = (0..2000).map(|i| i * 1_000_000).collect();
    assert_eq!(estimate_hours(&args(0, u32::MAX), &times), u32::MAX);
}

#[test]
fn extreme_timestamps_do_not_overflow() {
    // One session start of 2 h on top of the base.
    assert_eq!(estimate_hours(&args(120, 120), &[i64::MIN, i64::MAX]), 12);
}
