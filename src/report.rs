//! One line per author: email, number of commits and estimated hours, ordered by
//! the hours.
use crate::estimate::{estimate_hours, estimated_hours, sorted_ascending, Args};
use crate::walk::AuthorTimes;
use vstd::pervasive::VecAdditionalExecFns;
use vstd::prelude::*;

verus! {

/// What the report says of one author.
pub struct AuthorReport {
    pub email: Vec<u8>,
    pub commits: usize,
    pub hours: u32,
}

/// The estimate as reported: capped at `u32::MAX`.
pub open spec fn reported_hours(ts: Seq<i64>, args: Args) -> int {
    let h = estimated_hours(ts, args.max_commit_diff as nat, args.first_commit_add as nat);
    if h <= u32::MAX {
        h
    } else {
        u32::MAX as int
    }
}

/// One report per author, in the same order: the email, the number of
/// attributed commits and the estimated hours.
pub fn build_reports(args: &Args, authors: Vec<AuthorTimes>) -> (r: Vec<AuthorReport>)
    requires
        forall|a: int| 0 <= a < authors@.len() ==> sorted_ascending(#[trigger] authors@[a].times@),
    ensures
        r@.len() == authors@.len(),
        forall|a: int|
            0 <= a < r@.len() ==> {
                &&& #[trigger] r@[a].email@ == authors@[a].email@
                &&& r@[a].commits == authors@[a].times@.len()
                &&& r@[a].hours == reported_hours(authors@[a].times@, *args)
            },
{
    let ghost a0 = authors@;
    let mut authors = authors;
    let mut out: Vec<AuthorReport> = Vec::new();
    let mut i: usize = 0;
    while i < authors.len()
        invariant
            authors@.len() == a0.len(),
            i <= a0.len(),
            out@.len() == i,
            forall|a: int| i <= a < a0.len() ==> #[trigger] authors@[a] == a0[a],
            forall|a: int| 0 <= a < a0.len() ==> sorted_ascending(#[trigger] a0[a].times@),
            forall|a: int|
                0 <= a < i ==> {
                    &&& #[trigger] out@[a].email@ == a0[a].email@
                    &&& out@[a].commits == a0[a].times@.len()
                    &&& out@[a].hours == reported_hours(a0[a].times@, *args)
                },
        decreases a0.len() - i,
    {
        let mut entry = AuthorTimes { email: Vec::new(), times: Vec::new() };
        authors.set_and_swap(i, &mut entry);
        let hours = estimate_hours(args, entry.times.as_slice());
        let commits = entry.times.len();
        out.push(AuthorReport { email: entry.email, commits, hours });
        i = i + 1;
    }
    out
}

/// `r` is `v` ordered by hours ascending, where `perm` says which place of `v`
/// each entry of `r` came from, and entries with equal hours keep their order.
pub open spec fn stably_sorted_by_hours(
    r: Seq<AuthorReport>,
    v: Seq<AuthorReport>,
    perm: Seq<int>,
) -> bool {
    &&& perm.len() == r.len() == v.len()
    &&& forall|k: int| 0 <= k < r.len() ==> 0 <= #[trigger] perm[k] < v.len() && r[k] == v[perm[k]]
    &&& forall|a: int, b: int| 0 <= a < b < r.len() ==> #[trigger] perm[a] != #[trigger] perm[b]
    &&& forall|a: int, b: int| 0 <= a < b < r.len() ==> #[trigger] r[a].hours <= #[trigger] r[b].hours
    &&& forall|a: int, b: int|
        0 <= a < b < r.len() && #[trigger] r[a].hours == #[trigger] r[b].hours ==> perm[a] < perm[b]
}

/// Orders the reports by hours ascending; reports with equal hours keep their
/// order, and each report appears exactly once.
pub fn sort_by_hours(v: Vec<AuthorReport>) -> (r: Vec<AuthorReport>)
    ensures
        exists|perm: Seq<int>| #[trigger] stably_sorted_by_hours(r@, v@, perm),
{
    let ghost v0 = v@;
    let mut v = v;
    let mut out: Vec<AuthorReport> = Vec::new();
    let ghost mut perm: Seq<int> = Seq::empty();
    let mut i: usize = 0;
    while i < v.len()
        invariant
            v@.len() == v0.len(),
            i <= v0.len(),
            forall|a: int| i <= a < v0.len() ==> #[trigger] v@[a] == v0[a],
            perm.len() == out@.len() == i,
            forall|k: int| 0 <= k < out@.len() ==> 0 <= #[trigger] perm[k] < i && out@[k] == v0[perm[k]],
            forall|a: int, b: int| 0 <= a < b < out@.len() ==> #[trigger] perm[a] != #[trigger] perm[b],
            forall|a: int, b: int|
                0 <= a < b < out@.len() ==> #[trigger] out@[a].hours <= #[trigger] out@[b].hours,
            forall|a: int, b: int|
                0 <= a < b < out@.len() && #[trigger] out@[a].hours == #[trigger] out@[b].hours
                    ==> perm[a] < perm[b],
        decreases v0.len() - i,
    {
        let mut x = AuthorReport { email: Vec::new(), commits: 0, hours: 0 };
        v.set_and_swap(i, &mut x);
        let h = x.hours;
        let mut p: usize = 0;
        while p < out.len() && out[p].hours <= h
            invariant
                p <= out@.len(),
                forall|j: int| 0 <= j < p ==> #[trigger] out@[j].hours <= h,
            decreases out@.len() - p,
        {
            p = p + 1;
        }
        let ghost old_out = out@;
        let ghost old_perm = perm;
        assert(forall|j: int| p <= j < old_out.len() ==> #[trigger] old_out[j].hours > h) by {
            assert forall|j: int| p <= j < old_out.len() implies #[trigger] old_out[j].hours > h by {
                assert(old_out[p as int].hours > h);
                if j > p {
                    assert(old_out[p as int].hours <= old_out[j].hours);
                }
            }
        }
        out.insert(p, x);
        proof {
            perm = perm.insert(p as int, i as int);
            assert forall|k: int| 0 <= k < out@.len() implies 0 <= #[trigger] perm[k] < i + 1
                && out@[k] == v0[perm[k]] by {
                if k < p {
                    assert(perm[k] == old_perm[k]);
                } else if k > p {
                    assert(perm[k] == old_perm[k - 1]);
                }
            }
            assert forall|a: int, b: int| 0 <= a < b < out@.len() implies #[trigger] perm[a]
                != #[trigger] perm[b] by {
                if a != p && b != p {
                    let a1 = if a < p { a } else { a - 1 };
                    let b1 = if b < p { b } else { b - 1 };
                    assert(perm[a] == old_perm[a1] && perm[b] == old_perm[b1]);
                } else if a == p {
                    assert(perm[b] == old_perm[b - 1]);
                } else {
                    assert(perm[a] == old_perm[a]);
                }
            }
            assert forall|a: int, b: int| 0 <= a < b < out@.len() implies #[trigger] out@[a].hours
                <= #[trigger] out@[b].hours by {
                if a != p && b != p {
                    let a1 = if a < p { a } else { a - 1 };
                    let b1 = if b < p { b } else { b - 1 };
                    assert(out@[a] == old_out[a1] && out@[b] == old_out[b1]);
                    assert(old_out[a1].hours <= old_out[b1].hours);
                } else if a == p {
                    assert(out@[b] == old_out[b - 1]);
                } else {
                    assert(out@[a] == old_out[a]);
                }
            }
            assert forall|a: int, b: int|
                0 <= a < b < out@.len() && #[trigger] out@[a].hours == #[trigger] out@[b].hours
                    implies perm[a] < perm[b] by {
                if a != p && b != p {
                    let a1 = if a < p { a } else { a - 1 };
                    let b1 = if b < p { b } else { b - 1 };
                    assert(out@[a] == old_out[a1] && out@[b] == old_out[b1]);
                    assert(perm[a] == old_perm[a1] && perm[b] == old_perm[b1]);
                    assert(old_out[a1].hours == old_out[b1].hours);
                } else if a == p {
                    assert(out@[b] == old_out[b - 1]);
                } else {
                    assert(out@[a] == old_out[a]);
                    assert(perm[a] == old_perm[a]);
                }
            }
        }
        i = i + 1;
    }
    assert(stably_sorted_by_hours(out@, v0, perm));
    out
}

} // verus!
