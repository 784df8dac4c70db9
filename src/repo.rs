//! Reading a repository: the branch tips to start from and the commits met on
//! the way, and the walk that collects each author's commit times.
use crate::estimate::{sorted_ascending, Args};
use crate::walk::{
    lemma_author_times_nonempty_has_order, lemma_no_heads_reaches_nothing, AuthorTimes, CommitRecord,
    CommitWalk, Signature, WalkModel,
};
use vstd::pervasive::VecAdditionalExecFns;
use vstd::prelude::*;
use vstd::string::StringExecFns;

verus! {

#[verifier::external_type_specification]
#[verifier::external_body]
pub struct ExRepository(gix::Repository);

#[verifier::external_type_specification]
#[verifier::external_body]
pub struct ExCommit<'r>(gix::Commit<'r>);

#[verifier::external_type_specification]
#[verifier::external_body]
pub struct ExReferences<'r>(gix::reference::iter::Platform<'r>);

/// Why the commit times could not be collected.
pub enum CollectError {
    /// The branch references could not be listed; the message says why.
    References(String),
    /// The number of expanded commits reached `usize::MAX`.
    TooManyCommits,
}

/// The namespace of branch references.
pub open spec fn heads_namespace() -> Seq<char> {
    seq!['r', 'e', 'f', 's', '/', 'h', 'e', 'a', 'd', 's', '/']
}

/// The prefix under which the references are listed: all branches, or those
/// whose name starts with the one requested (`wanted_ref` then keeps exactly it).
pub open spec fn branch_prefix_of(branch: Option<Seq<char>>) -> Seq<char> {
    match branch {
        Some(b) => heads_namespace() + b,
        None => heads_namespace(),
    }
}

/// The reference prefix for `branch`.
pub fn branch_prefix(branch: &Option<String>) -> (r: String)
    ensures
        r@ == branch_prefix_of(
            match branch {
                Some(b) => Some(b@),
                None => None,
            },
        ),
{
    let mut prefix = String::from_str("refs/heads/");
    proof {
        reveal_strlit("refs/heads/");
        assert(prefix@ =~= heads_namespace());
    }
    match branch {
        Some(b) => {
            prefix.append(b.as_str());
        },
        None => {},
    }
    prefix
}

/// Relies on `gix::Repository::references`: access to the repository's
/// references; a failure is the error's message.
#[verifier::external_body]
fn references<'r>(repo: &'r gix::Repository) -> (r: Result<gix::reference::iter::Platform<'r>, String>) {
    repo.references().map_err(|e| e.to_string())
}

/// A reference as listed: its full name, and the object it points at, which is
/// `None` for a symbolic reference.
pub struct ListedRef {
    pub name: Vec<u8>,
    pub target: Option<Vec<u8>>,
}

/// Relies on `gix::reference::iter::Platform::prefixed`, `gix::Reference::name`
/// and `gix::Reference::try_id`: one entry per reference whose name starts with
/// `prefix`, `None` for one that cannot be read; a failure to list them at all
/// is the error's message.
#[verifier::external_body]
fn list_refs(refs: &gix::reference::iter::Platform, prefix: &str) -> (r: Result<Vec<Option<ListedRef>>, String>) {
    let iter = refs.prefixed(prefix).map_err(|e| e.to_string())?;
    Ok(iter
        .map(|r| {
            r.ok().map(|r| ListedRef {
                name: r.name().as_bstr().to_vec(),
                target: r.try_id().map(|id| id.detach().as_bytes().to_vec()),
            })
        })
        .collect())
}

/// The bytes of `refs/heads/`.
pub open spec fn heads_namespace_bytes() -> Seq<u8> {
    seq![114u8, 101u8, 102u8, 115u8, 47u8, 104u8, 101u8, 97u8, 100u8, 115u8, 47u8]
}

/// The requested branch name as UTF-8 bytes.
pub open spec fn branch_bytes(branch: Option<String>) -> Option<Seq<u8>> {
    match branch {
        Some(b) => Some(vstd::utf8::encode_utf8(b@)),
        None => None,
    }
}

/// Whether the reference `name` starts the walk: any branch when none is
/// requested, else exactly `refs/heads/<branch>`.
pub open spec fn wanted_ref(branch: Option<Seq<u8>>, name: Seq<u8>) -> bool {
    match branch {
        None => heads_namespace_bytes().len() <= name.len() && name.subrange(
            0,
            heads_namespace_bytes().len() as int,
        ) == heads_namespace_bytes(),
        Some(b) => name == heads_namespace_bytes() + b,
    }
}

/// The tips that start the walk, in listing order: the targets of the readable,
/// non-symbolic references that are wanted.
pub open spec fn selected_tips(listed: Seq<Option<ListedRef>>, branch: Option<Seq<u8>>) -> Seq<Seq<u8>>
    decreases listed.len(),
{
    if listed.len() == 0 {
        Seq::empty()
    } else {
        let prev = selected_tips(listed.drop_last(), branch);
        match listed.last() {
            Some(l) => match l.target {
                Some(t) => if wanted_ref(branch, l.name@) {
                    prev.push(t@)
                } else {
                    prev
                },
                None => prev,
            },
            None => prev,
        }
    }
}

fn wanted(branch: &Option<String>, name: &Vec<u8>) -> (r: bool)
    ensures
        r == wanted_ref(branch_bytes(*branch), name@),
{
    let ns: Vec<u8> = vec![114u8, 101u8, 102u8, 115u8, 47u8, 104u8, 101u8, 97u8, 100u8, 115u8, 47u8];
    assert(ns@ =~= heads_namespace_bytes());
    let b: &[u8] = match branch {
        Some(b) => b.as_str().as_bytes(),
        None => &[],
    };
    let exact = branch.is_some();
    assert(exact ==> branch_bytes(*branch) == Some(b@));
    if exact && (b.len() > name.len() || name.len() - b.len() != ns.len()) {
        assert(name@.len() != (ns@ + b@).len());
        return false;
    }
    if !exact && name.len() < ns.len() {
        return false;
    }
    let want_len: usize = if exact { name.len() } else { ns.len() };
    let ghost full = ns@ + b@;
    let mut i: usize = 0;
    while i < want_len
        invariant
            i <= want_len <= name@.len(),
            want_len == (if exact { ns@.len() + b@.len() } else { ns@.len() }),
            ns@.len() == 11,
            ns@ == heads_namespace_bytes(),
            full == ns@ + b@,
            exact ==> branch_bytes(*branch) == Some(b@) && name@.len() == full.len(),
            !exact ==> branch_bytes(*branch) is None,
            forall|j: int| 0 <= j < i ==> name@[j] == full[j],
        decreases want_len - i,
    {
        let c = if i < ns.len() { ns[i] } else { b[i - ns.len()] };
        if name[i] != c {
            proof {
                assert(full[i as int] == c);
                if !exact {
                    assert(name@.subrange(0, 11)[i as int] != ns@[i as int]);
                }
            }
            return false;
        }
        i = i + 1;
    }
    proof {
        if exact {
            assert(name@ =~= full);
        } else {
            assert(name@.subrange(0, 11) =~= ns@);
        }
    }
    true
}

/// The tips to start from: the targets of the listed references that can be
/// read, are not symbolic, and are wanted for `branch`.
pub fn select_tips(listed: Vec<Option<ListedRef>>, branch: &Option<String>) -> (r: Vec<Vec<u8>>)
    ensures
        r@.map_values(|t: Vec<u8>| t@) == selected_tips(listed@, branch_bytes(*branch)),
{
    let ghost l0 = listed@;
    let ghost want = branch_bytes(*branch);
    let mut listed = listed;
    let mut out: Vec<Vec<u8>> = Vec::new();
    let mut i: usize = 0;
    while i < listed.len()
        invariant
            listed@.len() == l0.len(),
            i <= l0.len(),
            want == branch_bytes(*branch),
            forall|j: int| i <= j < l0.len() ==> #[trigger] listed@[j] == l0[j],
            out@.map_values(|t: Vec<u8>| t@) == selected_tips(l0.subrange(0, i as int), want),
        decreases l0.len() - i,
    {
        let mut entry: Option<ListedRef> = None;
        listed.set_and_swap(i, &mut entry);
        assert(l0.subrange(0, i + 1).drop_last() =~= l0.subrange(0, i as int));
        match entry {
            Some(l) => match l.target {
                Some(t) => {
                    if wanted(branch, &l.name) {
                        let ghost before = out@;
                        out.push(t);
                        assert(out@.map_values(|t: Vec<u8>| t@) =~= before.map_values(
                            |t: Vec<u8>| t@,
                        ).push(t@));
                    }
                },
                None => {},
            },
            None => {},
        }
        i = i + 1;
    }
    assert(l0.subrange(0, l0.len() as int) =~= l0);
    out
}

/// Lists the references of the selected branches, and walks the commits
/// reachable from their tips as `collect_from_tips` does.
pub fn get_commit_times_by_author(args: &Args, repo: &gix::Repository) -> (r: Result<
    Vec<AuthorTimes>,
    CollectError,
>)
    ensures
        r matches Ok(v) ==> exists|listed: Seq<Option<ListedRef>>|
            #[trigger] reports_tips(
                v@,
                selected_tips(listed, branch_bytes(args.branch)),
                args.merge_commits,
            ),
{
    let refs = match references(repo) {
        Ok(refs) => refs,
        Err(msg) => {
            return Err(CollectError::References(msg));
        },
    };
    let prefix = branch_prefix(&args.branch);
    let listed = match list_refs(&refs, prefix.as_str()) {
        Ok(l) => l,
        Err(msg) => {
            return Err(CollectError::References(msg));
        },
    };
    let ghost l0 = listed@;
    let tips = select_tips(listed, &args.branch);
    let r = collect_from_tips(repo, tips, args.merge_commits);
    proof {
        if r is Ok {
            assert(reports_tips(r->Ok_0@, selected_tips(l0, branch_bytes(args.branch)), args.merge_commits));
        }
    }
    r
}

/// Relies on `gix::Repository::find_commit`: the commit with identifier `id`,
/// `None` when there is none or `id` is no object identifier.
#[verifier::external_body]
fn find_commit<'r>(repo: &'r gix::Repository, id: &Vec<u8>) -> (r: Option<gix::Commit<'r>>) {
    let oid = gix::ObjectId::try_from(id.as_slice()).ok()?;
    repo.find_commit(oid).ok()
}

/// Relies on `gix::Commit::parent_ids`: the identifiers of the commit's parents,
/// in the order the commit lists them.
#[verifier::external_body]
fn commit_parents(commit: &gix::Commit) -> (r: Vec<Vec<u8>>) {
    commit.parent_ids().map(|p| p.detach().as_bytes().to_vec()).collect()
}

/// Relies on `gix::Commit::author` and `gix_actor::SignatureRef::time`: the
/// author's email and time, `None` when either cannot be read.
#[verifier::external_body]
fn commit_author(commit: &gix::Commit) -> (r: Option<Signature>) {
    let author = commit.author().ok()?;
    let time = author.time().ok()?;
    Some(Signature { email: author.email.to_vec(), seconds: time.seconds })
}

/// What the walk reads of the commit `id`: `None` when it cannot be found.
fn lookup_commit(repo: &gix::Repository, id: &Vec<u8>) -> (r: Option<CommitRecord>) {
    match find_commit(repo, id) {
        None => None,
        Some(commit) => {
            let parents = commit_parents(&commit);
            let author = commit_author(&commit);
            Some(CommitRecord { parents, author })
        },
    }
}

/// `v` holds, in order, each author of the finished walk `w` with that author's
/// attributed times sorted ascending.
pub open spec fn reports_walk(v: Seq<AuthorTimes>, w: WalkModel) -> bool {
    &&& w.wf()
    &&& w.finished()
    &&& v.len() == w.times.len()
    &&& forall|a: int|
        0 <= a < v.len() ==> {
            &&& #[trigger] v[a].email@ == w.times[a].0
            &&& sorted_ascending(v[a].times@)
            &&& v[a].times@.to_multiset() == w.times[a].1.to_multiset()
            &&& v[a].times@.len() > 0
        }
}

/// `v` reports a finished walk, with the given merge setting, that started from
/// exactly the identifiers of `tips`.
pub open spec fn reports_tips(v: Seq<AuthorTimes>, tips: Seq<Seq<u8>>, merge_commits: bool) -> bool {
    exists|w: WalkModel|
        #[trigger] reports_walk(v, w) && w.merge_commits == merge_commits && w.heads == tips.to_set()
}

/// Walks the commits reachable from `tips`, one tip after the other, and
/// collects per author email the sorted times of the commits that qualify.
/// Commits that cannot be found or whose author cannot be read leave the result
/// `Ok`; the only error is reaching `usize::MAX` expanded commits.
pub fn collect_from_tips(repo: &gix::Repository, tips: Vec<Vec<u8>>, merge_commits: bool) -> (r:
    Result<Vec<AuthorTimes>, CollectError>)
    ensures
        r matches Ok(v) ==> reports_tips(v@, tips@.map_values(|t: Vec<u8>| t@), merge_commits),
        r matches Err(e) ==> e is TooManyCommits,
        tips@.len() == 0 ==> (r matches Ok(v) && v@.len() == 0),
{
    let ghost tv = tips@.map_values(|t: Vec<u8>| t@);
    let mut rest = tips;
    let mut walk = CommitWalk::new(merge_commits);
    let mut k: usize = 0;
    assert(walk@.heads =~= tv.subrange(0, 0).to_set());
    while k < rest.len()
        invariant
            walk.rep_ok(),
            walk@.wf(),
            walk@.finished(),
            walk@.merge_commits == merge_commits,
            k <= rest@.len(),
            tv == tips@.map_values(|t: Vec<u8>| t@),
            rest@.len() == tv.len(),
            forall|i: int| k <= i < rest@.len() ==> #[trigger] rest@[i]@ == tv[i],
            walk@.heads == tv.subrange(0, k as int).to_set(),
        decreases rest@.len() - k,
    {
        let mut head: Vec<u8> = Vec::new();
        rest.set_and_swap(k, &mut head);
        assert(head@ == tv[k as int]);
        walk.push_head(head);
        proof {
            let next = tv.subrange(0, k + 1);
            assert(next =~= tv.subrange(0, k as int).push(tv[k as int]));
            assert forall|x: Seq<u8>| walk@.heads.contains(x) == next.to_set().contains(x) by {
                if x == tv[k as int] {
                    assert(next[k as int] == x);
                }
                if next.contains(x) && x != tv[k as int] {
                    let i = choose|i: int| 0 <= i < next.len() && next[i] == x;
                    assert(tv.subrange(0, k as int)[i] == x);
                }
                if tv.subrange(0, k as int).contains(x) {
                    let i = choose|i: int| 0 <= i < k && tv.subrange(0, k as int)[i] == x;
                    assert(next[i] == x);
                }
            }
            assert(walk@.heads =~= next.to_set());
        }
        k = k + 1;
        loop
            invariant
                walk.rep_ok(),
                walk@.wf(),
                walk@.merge_commits == merge_commits,
                walk@.heads == tv.subrange(0, k as int).to_set(),
                1 <= k <= tv.len(),
                tv == tips@.map_values(|t: Vec<u8>| t@),
            ensures
                walk.rep_ok(),
                walk@.wf(),
                walk@.finished(),
                walk@.merge_commits == merge_commits,
                walk@.heads == tv.subrange(0, k as int).to_set(),
            decreases usize::MAX - walk@.order.len(), walk@.stack.len(),
        {
            match walk.pop_unvisited() {
                None => {
                    break;
                },
                Some(id) => {
                    if walk.visited_count() == usize::MAX {
                        return Err(CollectError::TooManyCommits);
                    }
                    let rec = lookup_commit(repo, &id);
                    walk.visit(id, rec);
                },
            }
        }
    }
    assert(tv.subrange(0, tv.len() as int) =~= tv);
    let ghost w = walk@;
    let ghost n_times = w.times.len();
    let v = walk.finish();
    proof {
        assert forall|a: int| 0 <= a < v@.len() implies #[trigger] v@[a].times@.len() > 0 by {
            assert(v@[a].email@ == w.times[a].0);
            assert(w.times[a].1.len() > 0);
        }
        assert(reports_walk(v@, w));
        if tv.len() == 0 {
            if n_times > 0 {
                assert(w.times[0].1.len() > 0);
                lemma_author_times_nonempty_has_order(w.order, w.observed, w.merge_commits, w.times[0].0);
                let x = w.order[0];
                assert(w.observed.contains_key(x));
                assert(w.order.contains(x));
                lemma_no_heads_reaches_nothing(w.observed, w.heads, x);
                assert(w.heads =~= Set::<Seq<u8>>::empty());
            }
        }
    }
    Ok(v)
}

} // verus!
