//! The coding-session heuristic that turns one author's commit times into hours.
use vstd::prelude::*;

verus! {

/// Seconds of flat per-author overhead (ten hours).
pub const BASE_SECONDS: u128 = 36000;

/// Settings of one run.
pub struct Args {
    /// Largest gap, in minutes, that still counts as the same coding session
    /// (exclusive).
    pub max_commit_diff: u32,
    /// Minutes added for the first commit of each new coding session.
    pub first_commit_add: u32,
    /// Whether a merge commit's own timestamp is attributed to its author.
    pub merge_commits: bool,
    /// Restricts the walk to this one branch; all branches when absent.
    pub branch: Option<String>,
}

/// The timestamps are in ascending order.
pub open spec fn sorted_ascending(ts: Seq<i64>) -> bool {
    forall|i: int, j: int| 0 <= i <= j < ts.len() ==> ts[i] <= ts[j]
}

/// Seconds credited for the step from `prev` to `next`: the real gap inside a
/// session, the session-start bonus once the gap reaches the threshold.
pub open spec fn gap_seconds(prev: int, next: int, max_commit_diff: nat, first_commit_add: nat) -> int {
    if next - prev < 60 * max_commit_diff {
        next - prev
    } else {
        (60 * first_commit_add) as int
    }
}

/// Seconds credited for all consecutive pairs of `ts`.
pub open spec fn session_seconds(ts: Seq<i64>, max_commit_diff: nat, first_commit_add: nat) -> int
    decreases ts.len(),
{
    if ts.len() < 2 {
        0
    } else {
        session_seconds(ts.drop_last(), max_commit_diff, first_commit_add) + gap_seconds(
            ts[ts.len() - 2] as int,
            ts[ts.len() - 1] as int,
            max_commit_diff,
            first_commit_add,
        )
    }
}

/// The estimate in whole hours: zero below two commits, else the base plus all
/// credited gaps, rounded to the nearest hour (halves round up).
pub open spec fn estimated_hours(ts: Seq<i64>, max_commit_diff: nat, first_commit_add: nat) -> int {
    if ts.len() < 2 {
        0
    } else {
        (BASE_SECONDS + session_seconds(ts, max_commit_diff, first_commit_add) + 1800) / 3600
    }
}

proof fn lemma_session_seconds_nonneg(ts: Seq<i64>, d: nat, f: nat)
    requires
        sorted_ascending(ts),
    ensures
        session_seconds(ts, d, f) >= 0,
    decreases ts.len(),
{
    if ts.len() >= 2 {
        lemma_session_seconds_nonneg(ts.drop_last(), d, f);
    }
}

/// Raising the session-start bonus never lowers the credited seconds.
proof fn lemma_session_seconds_monotone(ts: Seq<i64>, d: nat, f1: nat, f2: nat)
    requires
        f1 <= f2,
    ensures
        session_seconds(ts, d, f1) <= session_seconds(ts, d, f2),
    decreases ts.len(),
{
    if ts.len() >= 2 {
        lemma_session_seconds_monotone(ts.drop_last(), d, f1, f2);
    }
}

/// Raising the minutes added per session start never lowers the estimate of a
/// fixed timestamp sequence.
pub proof fn lemma_estimate_monotone_in_first_commit_add(ts: Seq<i64>, d: nat, f1: nat, f2: nat)
    requires
        f1 <= f2,
    ensures
        estimated_hours(ts, d, f1) <= estimated_hours(ts, d, f2),
{
    if ts.len() >= 2 {
        lemma_session_seconds_monotone(ts, d, f1, f2);
        let a = BASE_SECONDS + session_seconds(ts, d, f1) + 1800;
        let b = BASE_SECONDS + session_seconds(ts, d, f2) + 1800;
        assert(a / 3600 <= b / 3600) by (nonlinear_arith)
            requires
                a <= b,
        ;
    }
}

/// The number of consecutive pairs of `ts` whose gap reaches the threshold, each
/// of which starts a new coding session.
pub open spec fn session_starts(ts: Seq<i64>, max_commit_diff: nat) -> nat
    decreases ts.len(),
{
    if ts.len() < 2 {
        0
    } else {
        session_starts(ts.drop_last(), max_commit_diff) + if ts[ts.len() - 1] - ts[ts.len() - 2] < 60
            * max_commit_diff {
            0nat
        } else {
            1nat
        }
    }
}

proof fn lemma_session_seconds_shift(ts: Seq<i64>, d: nat, f: nat, k: nat)
    ensures
        session_seconds(ts, d, f + 60 * k) == session_seconds(ts, d, f) + 3600 * k * session_starts(ts, d),
    decreases ts.len(),
{
    if ts.len() >= 2 {
        lemma_session_seconds_shift(ts.drop_last(), d, f, k);
        let b = session_starts(ts.drop_last(), d);
        assert(3600 * k * b + 3600 * k == 3600 * k * (b + 1)) by (nonlinear_arith);
        assert(60 * (f + 60 * k) == 60 * f + 3600 * k) by (nonlinear_arith);
        let prev = ts[ts.len() - 2] as int;
        let next = ts[ts.len() - 1] as int;
        if next - prev < 60 * d {
            assert(gap_seconds(prev, next, d, f + 60 * k) == gap_seconds(prev, next, d, f));
            assert(session_starts(ts, d) == b);
            assert(3600 * k * session_starts(ts, d) == 3600 * k * b);
        } else {
            assert(gap_seconds(prev, next, d, f + 60 * k) == gap_seconds(prev, next, d, f) + 3600 * k);
            assert(session_starts(ts, d) == b + 1);
            assert(3600 * k * session_starts(ts, d) == 3600 * k * (b + 1));
        }
        let f2: nat = f + 60 * k;
        assert(session_seconds(ts, d, f2) == session_seconds(ts.drop_last(), d, f2) + gap_seconds(
            prev,
            next,
            d,
            f2,
        ));
        assert(session_seconds(ts, d, f) == session_seconds(ts.drop_last(), d, f) + gap_seconds(
            prev,
            next,
            d,
            f,
        ));
    } else {
        assert(3600 * k * 0 == 0) by (nonlinear_arith);
    }
}

/// Adding `60 * k` minutes to the session-start bonus adds exactly `k` hours per
/// session start to the estimate of at least two commits.
pub proof fn lemma_each_session_start_adds_the_bonus(ts: Seq<i64>, d: nat, f: nat, k: nat)
    requires
        ts.len() >= 2,
    ensures
        estimated_hours(ts, d, f + 60 * k) == estimated_hours(ts, d, f) + k * session_starts(ts, d),
{
    lemma_session_seconds_shift(ts, d, f, k);
    let x = BASE_SECONDS + session_seconds(ts, d, f) + 1800;
    let m = k * session_starts(ts, d);
    assert(3600 * k * session_starts(ts, d) == 3600 * m) by (nonlinear_arith)
        requires
            m == k * session_starts(ts, d),
    ;
    assert((x + 3600 * m) / 3600 == x / 3600 + m) by (nonlinear_arith);
}

/// An author with no commit or a single one is estimated at zero hours.
pub proof fn lemma_estimate_of_fewer_than_two(ts: Seq<i64>, d: nat, f: nat)
    requires
        ts.len() < 2,
    ensures
        estimated_hours(ts, d, f) == 0,
{
}

/// Estimates the hours behind one author's ascending commit times (seconds
/// since the epoch). An estimate beyond `u32::MAX` is reported as `u32::MAX`.
pub fn estimate_hours(args: &Args, times: &[i64]) -> (r: u32)
    requires
        sorted_ascending(times@),
    ensures
        r as int == if estimated_hours(times@, args.max_commit_diff as nat, args.first_commit_add as nat)
            <= u32::MAX {
            estimated_hours(times@, args.max_commit_diff as nat, args.first_commit_add as nat)
        } else {
            u32::MAX as int
        },
        times@.len() < 2 ==> r == 0,
{
    let n = times.len();
    if n < 2 {
        return 0;
    }
    let ghost d = args.max_commit_diff as nat;
    let ghost f = args.first_commit_add as nat;
    let threshold: i128 = 60 * (args.max_commit_diff as i128);
    let bonus: u128 = 60 * (args.first_commit_add as u128);
    let mut total: u128 = BASE_SECONDS;
    let mut i: usize = 1;
    assert(times@.subrange(0, 1).len() == 1);
    while i < n
        invariant
            1 <= i <= n,
            n == times@.len(),
            sorted_ascending(times@),
            threshold == 60 * d,
            bonus == 60 * f,
            f == args.first_commit_add as nat,
            d == args.max_commit_diff as nat,
            total == BASE_SECONDS + session_seconds(times@.subrange(0, i as int), d, f),
            total <= BASE_SECONDS + i * 0x1_0000_0000_0000_0000,
        decreases n - i,
    {
        let prev = times[i - 1];
        let next = times[i];
        let gap: i128 = next as i128 - prev as i128;
        assert(0 <= gap <= 0x1_0000_0000_0000_0000);
        let step: u128 = if gap < threshold {
            gap as u128
        } else {
            bonus
        };
        assert(step <= 0x1_0000_0000_0000_0000);
        proof {
            let s = times@.subrange(0, i + 1);
            assert(s.drop_last() =~= times@.subrange(0, i as int));
            assert(s[s.len() - 2] == prev && s[s.len() - 1] == next);
            assert(i * 0x1_0000_0000_0000_0000 + 0x1_0000_0000_0000_0000 == (i + 1)
                * 0x1_0000_0000_0000_0000) by (nonlinear_arith);
            assert(i < 0x1_0000_0000_0000_0000);
            assert((i + 1) * 0x1_0000_0000_0000_0000 <= 0x1_0000_0000_0000_0000
                * 0x1_0000_0000_0000_0000) by (nonlinear_arith)
                requires
                    i + 1 <= 0x1_0000_0000_0000_0000,
            ;
        }
        total = total + step;
        i = i + 1;
    }
    assert(times@.subrange(0, n as int) =~= times@);
    proof {
        lemma_session_seconds_nonneg(times@, d, f);
    }
    let hours: u128 = (total + 1800) / 3600;
    if hours > u32::MAX as u128 {
        u32::MAX
    } else {
        hours as u32
    }
}

} // verus!
