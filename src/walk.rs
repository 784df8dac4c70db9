//! The walk over the commit graph: each reachable commit is expanded once, its
//! parents are always followed, and qualifying commits are attributed to the
//! email of their author.
use crate::idset::{same_bytes, IdSet};
use vstd::pervasive::VecAdditionalExecFns;
use crate::estimate::sorted_ascending;
use vstd::prelude::*;

verus! {

/// The author of a commit: email and authored time in seconds since the epoch.
pub struct Signature {
    pub email: Vec<u8>,
    pub seconds: i64,
}

/// What the walk reads of one commit.
pub struct CommitRecord {
    /// Identifiers of the parent commits.
    pub parents: Vec<Vec<u8>>,
    /// The author, when the commit's author and time could be read.
    pub author: Option<Signature>,
}

/// One author's commit times.
pub struct AuthorTimes {
    pub email: Vec<u8>,
    pub times: Vec<i64>,
}

/// A commit as plain values.
pub struct CommitModel {
    pub parents: Seq<Seq<u8>>,
    pub author: Option<(Seq<u8>, i64)>,
}

impl CommitRecord {
    pub open spec fn model(&self) -> CommitModel {
        CommitModel {
            parents: self.parents@.map_values(|p: Vec<u8>| p@),
            author: match self.author {
                Some(a) => Some((a.email@, a.seconds)),
                None => None,
            },
        }
    }
}

/// A commit with more than one parent.
pub open spec fn is_merge(c: CommitModel) -> bool {
    c.parents.len() > 1
}

/// Whether the commit's time is attributed: its author is known and it is no
/// merge, or merges are counted.
pub open spec fn qualifies(c: CommitModel, merge_commits: bool) -> bool {
    c.author is Some && (!is_merge(c) || merge_commits)
}

/// The times attributed to `email` by the commits of `order`, in that order.
pub open spec fn author_times(
    order: Seq<Seq<u8>>,
    observed: Map<Seq<u8>, CommitModel>,
    merge_commits: bool,
    email: Seq<u8>,
) -> Seq<i64>
    decreases order.len(),
{
    if order.len() == 0 {
        Seq::empty()
    } else {
        let prev = author_times(order.drop_last(), observed, merge_commits, email);
        let c = observed[order.last()];
        if qualifies(c, merge_commits) && c.author.unwrap().0 == email {
            prev.push(c.author.unwrap().1)
        } else {
            prev
        }
    }
}

/// The state of a walk as plain values.
pub struct WalkModel {
    /// Identifiers still to be taken, the last on top.
    pub stack: Seq<Seq<u8>>,
    /// Commits expanded so far, in the order of expansion.
    pub order: Seq<Seq<u8>>,
    /// What was read of each expanded commit.
    pub observed: Map<Seq<u8>, CommitModel>,
    /// Identifiers whose lookup failed; they were dropped.
    pub failed: Set<Seq<u8>>,
    /// The starting identifiers handed to the walk.
    pub heads: Set<Seq<u8>>,
    /// Per author email, the attributed times in order of expansion.
    pub times: Seq<(Seq<u8>, Seq<i64>)>,
    pub merge_commits: bool,
}

impl WalkModel {
    /// Whether `id` was expanded.
    pub open spec fn visited(self, id: Seq<u8>) -> bool {
        self.observed.contains_key(id)
    }

    /// Whether `id` is expanded, waiting on the stack, dropped, or in `pending`.
    pub open spec fn accounted(self, id: Seq<u8>, pending: Set<Seq<u8>>) -> bool {
        self.visited(id) || self.stack.contains(id) || self.failed.contains(id) || pending.contains(
            id,
        )
    }

    /// The invariant of a walk, with the identifiers of `pending` taken off the
    /// stack but not yet expanded.
    pub open spec fn wf_with(self, pending: Set<Seq<u8>>) -> bool {
        &&& self.order.no_duplicates()
        &&& forall|id: Seq<u8>| #[trigger]
            self.observed.contains_key(id) <==> self.order.contains(id)
        &&& forall|h: Seq<u8>| #[trigger] self.heads.contains(h) ==> self.accounted(h, pending)
        &&& forall|id: Seq<u8>, i: int|
            #![trigger self.observed[id].parents[i]]
            self.visited(id) && 0 <= i < self.observed[id].parents.len() ==> self.accounted(
                self.observed[id].parents[i],
                pending,
            )
        &&& times_ok(self.times, self.order, self.observed, self.merge_commits)
        &&& self.all_reached(pending)
    }

    /// Every identifier on the stack, expanded, or pending is reachable from the
    /// heads through the commits read so far.
    pub open spec fn all_reached(self, pending: Set<Seq<u8>>) -> bool {
        &&& forall|i: int|
            0 <= i < self.stack.len() ==> reached(self.observed, self.heads, #[trigger] self.stack[i])
        &&& forall|id: Seq<u8>|
            #[trigger] self.observed.contains_key(id) ==> reached(self.observed, self.heads, id)
        &&& forall|id: Seq<u8>| #[trigger] pending.contains(id) ==> reached(self.observed, self.heads, id)
    }

    pub open spec fn wf(self) -> bool {
        self.wf_with(Set::empty())
    }

    /// Nothing is left to take.
    pub open spec fn finished(self) -> bool {
        self.stack.len() == 0
    }
}

/// A depth-first walk with an explicit stack and a set of expanded commits.
pub struct CommitWalk {
    stack: Vec<Vec<u8>>,
    visited: IdSet,
    visited_count: usize,
    times: Vec<AuthorTimes>,
    merge_commits: bool,
    order: Ghost<Seq<Seq<u8>>>,
    observed: Ghost<Map<Seq<u8>, CommitModel>>,
    failed: Ghost<Set<Seq<u8>>>,
    heads: Ghost<Set<Seq<u8>>>,
}

impl View for CommitWalk {
    type V = WalkModel;

    closed spec fn view(&self) -> WalkModel {
        WalkModel {
            stack: self.stack@.map_values(|p: Vec<u8>| p@),
            order: self.order@,
            observed: self.observed@,
            failed: self.failed@,
            heads: self.heads@,
            times: self.times@.map_values(|a: AuthorTimes| (a.email@, a.times@)),
            merge_commits: self.merge_commits,
        }
    }
}

impl CommitWalk {
    /// The representation agrees with the model.
    pub closed spec fn rep_ok(&self) -> bool {
        &&& forall|id: Seq<u8>| #[trigger] self.visited.has(id) == self.observed@.contains_key(id)
        &&& self.visited_count == self.order@.len()
    }

    /// A walk with nothing on its stack.
    pub fn new(merge_commits: bool) -> (r: CommitWalk)
        ensures
            r.rep_ok(),
            r@.wf(),
            r@.stack.len() == 0,
            r@.order.len() == 0,
            r@.observed == Map::<Seq<u8>, CommitModel>::empty(),
            r@.failed == Set::<Seq<u8>>::empty(),
            r@.heads == Set::<Seq<u8>>::empty(),
            r@.times.len() == 0,
            r@.merge_commits == merge_commits,
    {
        let r = CommitWalk {
            stack: Vec::new(),
            visited: IdSet::new(),
            visited_count: 0,
            times: Vec::new(),
            merge_commits,
            order: Ghost(Seq::empty()),
            observed: Ghost(Map::empty()),
            failed: Ghost(Set::empty()),
            heads: Ghost(Set::empty()),
        };
        assert(r@.stack =~= Seq::<Seq<u8>>::empty());
        assert(r@.times =~= Seq::<(Seq<u8>, Seq<i64>)>::empty());
        r
    }

    /// The number of commits expanded so far.
    pub fn visited_count(&self) -> (r: usize)
        requires
            self.rep_ok(),
        ensures
            r == self@.order.len(),
    {
        self.visited_count
    }

    /// Starts from one more branch tip.
    pub fn push_head(&mut self, id: Vec<u8>)
        requires
            old(self).rep_ok(),
            old(self)@.wf(),
        ensures
            final(self).rep_ok(),
            final(self)@.wf(),
            final(self)@ == (WalkModel {
                stack: old(self)@.stack.push(id@),
                heads: old(self)@.heads.insert(id@),
                ..old(self)@
            }),
    {
        let ghost idv = id@;
        self.stack.push(id);
        self.heads = Ghost(self.heads@.insert(idv));
        proof {
            assert(self@.stack =~= old(self)@.stack.push(idv));
            assert(self@.stack.contains(idv)) by {
                assert(self@.stack[self@.stack.len() - 1] == idv);
            }
            assert forall|x: Seq<u8>| old(self)@.stack.contains(x) implies self@.stack.contains(x) by {
                let i = choose|i: int| 0 <= i < old(self)@.stack.len() && old(self)@.stack[i] == x;
                assert(self@.stack[i] == x);
            }
            lemma_times_frame(old(self)@, self@);
            let s0 = old(self)@;
            let w = self@;
            assert forall|i: int| 0 <= i < w.stack.len() implies reached(
                w.observed,
                w.heads,
                #[trigger] w.stack[i],
            ) by {
                if i < s0.stack.len() {
                    lemma_reached_mono(s0.observed, s0.heads, w.observed, w.heads, s0.stack[i]);
                } else {
                    assert(reachable_in(w.observed, w.heads, idv, 0));
                }
            }
            assert forall|id: Seq<u8>| #[trigger] w.observed.contains_key(id) implies reached(
                w.observed,
                w.heads,
                id,
            ) by {
                lemma_reached_mono(s0.observed, s0.heads, w.observed, w.heads, id);
            }
        }
    }

    /// Pops identifiers off the stack until one that was not expanded comes up,
    /// and returns it; `None` once the stack is empty.
    pub fn pop_unvisited(&mut self) -> (r: Option<Vec<u8>>)
        requires
            old(self).rep_ok(),
            old(self)@.wf(),
        ensures
            final(self).rep_ok(),
            final(self)@.stack.len() <= old(self)@.stack.len(),
            final(self)@ == (WalkModel {
                stack: old(self)@.stack.subrange(0, final(self)@.stack.len() as int),
                ..old(self)@
            }),
            r is None ==> final(self)@.stack.len() == 0 && forall|j: int|
                0 <= j < old(self)@.stack.len() ==> old(self)@.visited(
                    #[trigger] old(self)@.stack[j],
                ),
            r matches Some(id) ==> final(self)@.stack.len() < old(self)@.stack.len() && id@ == old(
                self,
            )@.stack[final(self)@.stack.len() as int] && !old(self)@.visited(id@) && forall|j: int|
                final(self)@.stack.len() < j < old(self)@.stack.len() ==> old(self)@.visited(
                    #[trigger] old(self)@.stack[j],
                ),
            r is None ==> final(self)@.wf() && final(self)@.finished(),
            r matches Some(id) ==> final(self)@.wf_with(set![id@]) && !final(self)@.visited(id@),
    {
        let ghost s0 = self@;
        assert(s0.stack.subrange(0, s0.stack.len() as int) =~= s0.stack);
        loop
            invariant
                self.rep_ok(),
                s0.wf(),
                s0 == old(self)@,
                self@ == (WalkModel { stack: s0.stack.subrange(0, self@.stack.len() as int), ..s0 }),
                self@.stack.len() <= s0.stack.len(),
                forall|j: int|
                    self@.stack.len() <= j < s0.stack.len() ==> s0.visited(#[trigger] s0.stack[j]),
            decreases self.stack@.len(),
        {
            let ghost before = self@.stack;
            match self.stack.pop() {
                None => {
                    proof {
                        assert(self@.stack =~= s0.stack.subrange(0, 0));
                        self.lemma_wf_after_pops(s0, Set::empty());
                    }
                    return None;
                },
                Some(id) => {
                    let ghost k = self@.stack.len() as int;
                    assert(self@.stack =~= s0.stack.subrange(0, k));
                    assert(id@ == before[k]);
                    assert(id@ == s0.stack[k]);
                    if !self.visited.contains(&id) {
                        proof {
                            assert(reached(s0.observed, s0.heads, s0.stack[k]));
                            self.lemma_wf_after_pops(s0, set![id@]);
                        }
                        return Some(id);
                    }
                },
            }
        }
    }

    /// Hands out each author's times, sorted ascending.
    pub fn finish(self) -> (r: Vec<AuthorTimes>)
        requires
            self.rep_ok(),
            self@.wf(),
        ensures
            r@.len() == self@.times.len(),
            forall|a: int|
                0 <= a < r@.len() ==> {
                    &&& #[trigger] r@[a].email@ == self@.times[a].0
                    &&& sorted_ascending(r@[a].times@)
                    &&& r@[a].times@.to_multiset() == self@.times[a].1.to_multiset()
                    &&& r@[a].times@.len() == self@.times[a].1.len()
                },
    {
        broadcast use vstd::seq_lib::group_to_multiset_ensures;

        let ghost tv = self@.times;
        let mut times = self.times;
        let mut i: usize = 0;
        while i < times.len()
            invariant
                i <= times@.len(),
                times@.len() == tv.len(),
                forall|a: int|
                    0 <= a < times@.len() ==> #[trigger] times@[a].email@ == tv[a].0 && times@[a].times@.to_multiset()
                        == tv[a].1.to_multiset(),
                forall|a: int| 0 <= a < i ==> sorted_ascending(#[trigger] times@[a].times@),
            decreases times@.len() - i,
        {
            let mut entry = AuthorTimes { email: Vec::new(), times: Vec::new() };
            times.set_and_swap(i, &mut entry);
            sort_times(&mut entry.times);
            times.set_and_swap(i, &mut entry);
            i = i + 1;
        }
        assert forall|a: int| 0 <= a < times@.len() implies times@[a].times@.len() == tv[a].1.len() by {
            assert(times@[a].email@ == tv[a].0);
            assert(times@[a].times@.to_multiset().len() == tv[a].1.to_multiset().len());
        }
        times
    }

    /// Takes in the lookup of `id`, which `pop_unvisited` handed out: a failed
    /// lookup drops it; a found commit is marked expanded, all its parents are
    /// pushed, and its time goes to its author when it qualifies.
    pub fn visit(&mut self, id: Vec<u8>, rec: Option<CommitRecord>)
        requires
            old(self).rep_ok(),
            old(self)@.wf_with(set![id@]),
            !old(self)@.visited(id@),
            old(self)@.order.len() < usize::MAX,
        ensures
            final(self).rep_ok(),
            final(self)@.wf(),
            final(self)@ == visit_model(
                old(self)@,
                id@,
                match rec {
                    Some(r) => Some(r.model()),
                    None => None,
                },
            ),
    {
        let ghost s0 = self@;
        let ghost idv = id@;
        match rec {
            None => {
                self.failed = Ghost(self.failed@.insert(idv));
                proof {
                    self.lemma_wf_after_step(s0, idv);
                }
            },
            Some(rec) => {
                let ghost c = rec.model();
                let CommitRecord { parents, author } = rec;
                let is_merge = parents.len() > 1;
                let mut parents = parents;
                self.stack.append(&mut parents);
                self.visited.insert(id);
                self.visited_count = self.visited_count + 1;
                self.order = Ghost(self.order@.push(idv));
                self.observed = Ghost(self.observed@.insert(idv, c));
                proof {
                    assert(self@.stack =~= s0.stack + c.parents);
                    lemma_attribute(s0.times, s0.order, s0.observed, s0.merge_commits, idv, c);
                }
                match author {
                    Some(sig) => {
                        if !is_merge || self.merge_commits {
                            self.add_time(sig.email, sig.seconds);
                        }
                    },
                    None => {},
                }
                proof {
                    assert(self@.times == attribute(s0.times, c, s0.merge_commits));
                    assert(self@ == visit_model(s0, idv, Some(c)));
                    self.lemma_wf_after_step(s0, idv);
                }
            },
        }
    }

    /// Appends `t` to the entry of `email`, creating it on first sight.
    fn add_time(&mut self, email: Vec<u8>, t: i64)
        requires
            forall|a: int, b: int|
                0 <= a < b < old(self)@.times.len() ==> #[trigger] old(self)@.times[a].0
                    != #[trigger] old(self)@.times[b].0,
        ensures
            final(self).stack == old(self).stack,
            final(self).visited == old(self).visited,
            final(self).visited_count == old(self).visited_count,
            final(self).merge_commits == old(self).merge_commits,
            final(self).order == old(self).order,
            final(self).observed == old(self).observed,
            final(self).failed == old(self).failed,
            final(self).heads == old(self).heads,
            final(self).times@.map_values(|a: AuthorTimes| (a.email@, a.times@)) == (if exists|a: int|
                0 <= a < old(self)@.times.len() && #[trigger] old(self)@.times[a].0 == email@ {
                let a = choose|a: int|
                    0 <= a < old(self)@.times.len() && #[trigger] old(self)@.times[a].0 == email@;
                old(self)@.times.update(a, (email@, old(self)@.times[a].1.push(t)))
            } else {
                old(self)@.times.push((email@, seq![t]))
            }),
    {
        let ghost tv = old(self)@.times;
        let mut i: usize = 0;
        while i < self.times.len()
            invariant
                self.times == old(self).times,
                self.stack == old(self).stack,
                self.visited == old(self).visited,
                self.visited_count == old(self).visited_count,
                self.merge_commits == old(self).merge_commits,
                self.order == old(self).order,
                self.observed == old(self).observed,
                self.failed == old(self).failed,
                self.heads == old(self).heads,
                tv == self.times@.map_values(|a: AuthorTimes| (a.email@, a.times@)),
                i <= self.times@.len(),
                forall|j: int| 0 <= j < i ==> tv[j].0 != email@,
                forall|a: int, b: int| 0 <= a < b < tv.len() ==> #[trigger] tv[a].0 != #[trigger] tv[b].0,
            decreases self.times@.len() - i,
        {
            if same_bytes(&self.times[i].email, &email) {
                let mut entry = AuthorTimes { email: Vec::new(), times: Vec::new() };
                self.times.set_and_swap(i, &mut entry);
                entry.times.push(t);
                self.times.set_and_swap(i, &mut entry);
                proof {
                    assert(tv[i as int].0 == email@);
                    let a = choose|a: int| 0 <= a < tv.len() && #[trigger] tv[a].0 == email@;
                    assert(a == i);
                    assert(self.times@.map_values(|a: AuthorTimes| (a.email@, a.times@)) =~= tv.update(
                        a,
                        (email@, tv[a].1.push(t)),
                    ));
                }
                return;
            }
            i = i + 1;
        }
        let ghost ev = email@;
        let mut first: Vec<i64> = Vec::new();
        first.push(t);
        assert(first@ =~= seq![t]);
        self.times.push(AuthorTimes { email, times: first });
        assert(self.times@.map_values(|a: AuthorTimes| (a.email@, a.times@)) =~= tv.push((ev, seq![t])));
    }

    /// After one step of `visit_model` from a state with `id` pending, the
    /// invariant holds with nothing pending.
    proof fn lemma_wf_after_step(&self, s0: WalkModel, id: Seq<u8>)
        requires
            s0.wf_with(set![id]),
            !s0.visited(id),
            self@ == visit_model(s0, id, None) || exists|c: CommitModel|
                self@ == visit_model(s0, id, Some(c)),
            times_ok(self@.times, self@.order, self@.observed, self@.merge_commits),
        ensures
            self@.wf(),
    {
        let w = self@;
        assert(!s0.order.contains(id));
        assert forall|x: Seq<u8>| s0.accounted(x, set![id]) implies w.accounted(x, Set::empty()) by {
            if s0.stack.contains(x) {
                let i = choose|i: int| 0 <= i < s0.stack.len() && s0.stack[i] == x;
                assert(w.stack[i] == x);
            }
        }
        if w.failed.contains(id) && w == visit_model(s0, id, None) {
        } else {
            let c = choose|c: CommitModel| w == visit_model(s0, id, Some(c));
            assert(w.order.no_duplicates()) by {
                assert forall|i: int, j: int|
                    0 <= i < j < w.order.len() implies w.order[i] != w.order[j] by {
                    if j == s0.order.len() {
                        assert(s0.order.contains(w.order[i]) ==> w.order[i] != id);
                        assert(s0.order[i] == w.order[i]);
                    } else {
                        assert(s0.order[i] == w.order[i] && s0.order[j] == w.order[j]);
                    }
                }
            }
            assert forall|x: Seq<u8>| #[trigger] w.observed.contains_key(x) <==> w.order.contains(x) by {
                if w.order.contains(x) {
                    let i = choose|i: int| 0 <= i < w.order.len() && w.order[i] == x;
                    if i < s0.order.len() {
                        assert(s0.order[i] == x);
                    }
                }
                if s0.order.contains(x) {
                    let i = choose|i: int| 0 <= i < s0.order.len() && s0.order[i] == x;
                    assert(w.order[i] == x);
                }
                if x == id {
                    assert(w.order[s0.order.len() as int] == x);
                }
            }
            assert forall|x: Seq<u8>, i: int|
                w.visited(x) && 0 <= i < w.observed[x].parents.len() implies w.accounted(
                #[trigger] w.observed[x].parents[i],
                Set::empty(),
            ) by {
                if x == id {
                    assert(w.stack[s0.stack.len() + i] == c.parents[i]);
                } else {
                    assert(s0.accounted(s0.observed[x].parents[i], set![id]));
                }
            }
        }
        assert forall|h: Seq<u8>| #[trigger] w.heads.contains(h) implies w.accounted(h, Set::empty()) by {
            assert(s0.accounted(h, set![id]));
        }
        assert(set![id].contains(id));
        assert(reached(s0.observed, s0.heads, id));
        assert forall|i: int| 0 <= i < w.stack.len() implies reached(
            w.observed,
            w.heads,
            #[trigger] w.stack[i],
        ) by {
            if i < s0.stack.len() {
                lemma_reached_mono(s0.observed, s0.heads, w.observed, w.heads, s0.stack[i]);
            } else {
                let c = choose|c: CommitModel| w == visit_model(s0, id, Some(c));
                let j = i - s0.stack.len();
                let n = choose|n: nat| #[trigger] reachable_in(s0.observed, s0.heads, id, n);
                lemma_reachable_mono(s0.observed, s0.heads, w.observed, w.heads, id, n);
                assert(w.observed[id].parents[j] == w.stack[i]);
                assert(reachable_in(w.observed, w.heads, w.stack[i], n + 1));
            }
        }
        assert forall|x: Seq<u8>| #[trigger] w.observed.contains_key(x) implies reached(
            w.observed,
            w.heads,
            x,
        ) by {
            if x == id {
                lemma_reached_mono(s0.observed, s0.heads, w.observed, w.heads, id);
            } else {
                lemma_reached_mono(s0.observed, s0.heads, w.observed, w.heads, x);
            }
        }
    }

    /// After popping a stretch whose identifiers were all expanded, or are in
    /// `pending`, the invariant still holds.
    proof fn lemma_wf_after_pops(&self, s0: WalkModel, pending: Set<Seq<u8>>)
        requires
            s0.wf(),
            self@.stack.len() <= s0.stack.len(),
            self@ == (WalkModel { stack: s0.stack.subrange(0, self@.stack.len() as int), ..s0 }),
            forall|j: int|
                self@.stack.len() <= j < s0.stack.len() ==> s0.visited(#[trigger] s0.stack[j])
                    || pending.contains(s0.stack[j]),
            forall|x: Seq<u8>| #[trigger] pending.contains(x) ==> reached(s0.observed, s0.heads, x),
        ensures
            self@.wf_with(pending),
    {
        let w = self@;
        assert forall|i: int| 0 <= i < w.stack.len() implies reached(
            w.observed,
            w.heads,
            #[trigger] w.stack[i],
        ) by {
            assert(w.stack[i] == s0.stack[i]);
        }
        assert forall|x: Seq<u8>| s0.accounted(x, Set::empty()) implies w.accounted(x, pending) by {
            if s0.stack.contains(x) && !s0.visited(x) && !s0.failed.contains(x) {
                let i = choose|i: int| 0 <= i < s0.stack.len() && s0.stack[i] == x;
                if i < w.stack.len() {
                    assert(w.stack[i] == x);
                }
            }
        }
        assert forall|id: Seq<u8>, i: int|
            w.visited(id) && 0 <= i < w.observed[id].parents.len() implies w.accounted(
            #[trigger] w.observed[id].parents[i],
            pending,
        ) by {
            assert(s0.accounted(s0.observed[id].parents[i], Set::empty()));
        }
        assert forall|h: Seq<u8>| #[trigger] w.heads.contains(h) implies w.accounted(h, pending) by {
            assert(s0.accounted(h, Set::empty()));
        }
        lemma_times_frame(s0, w);
    }
}

/// The attribution part of the invariant.
pub open spec fn times_ok(
    times: Seq<(Seq<u8>, Seq<i64>)>,
    order: Seq<Seq<u8>>,
    observed: Map<Seq<u8>, CommitModel>,
    merge_commits: bool,
) -> bool {
    &&& forall|a: int, b: int| 0 <= a < b < times.len() ==> #[trigger] times[a].0 != #[trigger] times[b].0
    &&& forall|a: int|
        0 <= a < times.len() ==> #[trigger] times[a].1 == author_times(
            order,
            observed,
            merge_commits,
            times[a].0,
        )
    &&& forall|e: Seq<u8>|
        #[trigger] author_times(order, observed, merge_commits, e).len() > 0 ==> exists|a: int|
            0 <= a < times.len() && #[trigger] times[a].0 == e
    &&& forall|a: int| 0 <= a < times.len() ==> #[trigger] times[a].1.len() > 0
}

proof fn lemma_attribute(
    times: Seq<(Seq<u8>, Seq<i64>)>,
    order: Seq<Seq<u8>>,
    observed: Map<Seq<u8>, CommitModel>,
    merge_commits: bool,
    id: Seq<u8>,
    c: CommitModel,
)
    requires
        times_ok(times, order, observed, merge_commits),
        !order.contains(id),
    ensures
        times_ok(
            attribute(times, c, merge_commits),
            order.push(id),
            observed.insert(id, c),
            merge_commits,
        ),
{
    let t2 = attribute(times, c, merge_commits);
    let o2 = order.push(id);
    let m2 = observed.insert(id, c);
    assert forall|e: Seq<u8>| true implies #[trigger] author_times(o2, m2, merge_commits, e) == if qualifies(
        c,
        merge_commits,
    ) && c.author.unwrap().0 == e {
        author_times(order, observed, merge_commits, e).push(c.author.unwrap().1)
    } else {
        author_times(order, observed, merge_commits, e)
    } by {
        lemma_author_times_step(order, observed, merge_commits, e, id, c);
    }
    if qualifies(c, merge_commits) {
        let (email, t) = c.author.unwrap();
        if exists|a: int| 0 <= a < times.len() && #[trigger] times[a].0 == email {
            let a = choose|a: int| 0 <= a < times.len() && #[trigger] times[a].0 == email;
            assert forall|b: int| 0 <= b < t2.len() implies #[trigger] t2[b].1 == author_times(
                o2,
                m2,
                merge_commits,
                t2[b].0,
            ) by {
                assert(author_times(o2, m2, merge_commits, t2[b].0) == author_times(
                    o2,
                    m2,
                    merge_commits,
                    t2[b].0,
                ));
            }
            assert forall|e: Seq<u8>|
                #[trigger] author_times(o2, m2, merge_commits, e).len() > 0 implies exists|b: int|
                0 <= b < t2.len() && #[trigger] t2[b].0 == e by {
                if e != email {
                    assert(author_times(order, observed, merge_commits, e).len() > 0);
                    let b = choose|b: int| 0 <= b < times.len() && #[trigger] times[b].0 == e;
                    assert(t2[b].0 == e);
                } else {
                    assert(t2[a].0 == e);
                }
            }
        } else {
            assert forall|b: int| 0 <= b < t2.len() implies #[trigger] t2[b].1 == author_times(
                o2,
                m2,
                merge_commits,
                t2[b].0,
            ) by {
                if b == times.len() {
                    assert(author_times(order, observed, merge_commits, email).len() == 0);
                    assert(author_times(order, observed, merge_commits, email) =~= Seq::empty());
                    assert(author_times(o2, m2, merge_commits, email) =~= seq![t]);
                } else {
                    assert(author_times(o2, m2, merge_commits, t2[b].0) == author_times(
                        o2,
                        m2,
                        merge_commits,
                        t2[b].0,
                    ));
                }
            }
            assert forall|e: Seq<u8>|
                #[trigger] author_times(o2, m2, merge_commits, e).len() > 0 implies exists|b: int|
                0 <= b < t2.len() && #[trigger] t2[b].0 == e by {
                if e != email {
                    assert(author_times(order, observed, merge_commits, e).len() > 0);
                    let b = choose|b: int| 0 <= b < times.len() && #[trigger] times[b].0 == e;
                    assert(t2[b].0 == e);
                } else {
                    assert(t2[times.len() as int].0 == e);
                }
            }
        }
    } else {
        assert forall|e: Seq<u8>|
            #[trigger] author_times(o2, m2, merge_commits, e).len() > 0 implies exists|b: int|
            0 <= b < t2.len() && #[trigger] t2[b].0 == e by {
            assert(author_times(order, observed, merge_commits, e).len() > 0);
        }
    }
}

/// Two walks that agree on what was expanded and attributed agree on the
/// attribution part of the invariant.
proof fn lemma_times_frame(s0: WalkModel, w: WalkModel)
    requires
        s0.wf(),
        w.order == s0.order,
        w.observed == s0.observed,
        w.times == s0.times,
        w.merge_commits == s0.merge_commits,
    ensures
        forall|e: Seq<u8>|
            #[trigger] author_times(w.order, w.observed, w.merge_commits, e).len() > 0 ==> exists|
                a: int,
            |
                0 <= a < w.times.len() && #[trigger] w.times[a].0 == e,
{
    assert forall|e: Seq<u8>|
        #[trigger] author_times(w.order, w.observed, w.merge_commits, e).len() > 0 implies exists|
            a: int,
        |
            0 <= a < w.times.len() && #[trigger] w.times[a].0 == e by {
        assert(author_times(s0.order, s0.observed, s0.merge_commits, e).len() > 0);
        let a = choose|a: int| 0 <= a < s0.times.len() && #[trigger] s0.times[a].0 == e;
        assert(w.times[a].0 == e);
    }
}

/// Relies on `slice::sort`: it orders the elements ascending and keeps each of
/// them.
#[verifier::external_body]
fn sort_times(v: &mut Vec<i64>)
    ensures
        sorted_ascending(final(v)@),
        final(v)@.to_multiset() == old(v)@.to_multiset(),
{
    v.sort();
}

/// The times after one more commit `c`, when it qualifies, are appended to its
/// author's entry, which is created on first sight of the email.
pub open spec fn attribute(
    times: Seq<(Seq<u8>, Seq<i64>)>,
    c: CommitModel,
    merge_commits: bool,
) -> Seq<(Seq<u8>, Seq<i64>)> {
    if qualifies(c, merge_commits) {
        let (email, t) = c.author.unwrap();
        if exists|a: int| 0 <= a < times.len() && #[trigger] times[a].0 == email {
            let a = choose|a: int| 0 <= a < times.len() && #[trigger] times[a].0 == email;
            times.update(a, (email, times[a].1.push(t)))
        } else {
            times.push((email, seq![t]))
        }
    } else {
        times
    }
}

/// The walk after the lookup of `id`: a failed lookup drops it; a found commit is
/// expanded, its parents pushed in order, and its time attributed.
pub open spec fn visit_model(s: WalkModel, id: Seq<u8>, rec: Option<CommitModel>) -> WalkModel {
    match rec {
        None => WalkModel { failed: s.failed.insert(id), ..s },
        Some(c) => WalkModel {
            stack: s.stack + c.parents,
            order: s.order.push(id),
            observed: s.observed.insert(id, c),
            times: attribute(s.times, c, s.merge_commits),
            ..s
        },
    }
}

proof fn lemma_author_times_frame(
    order: Seq<Seq<u8>>,
    observed: Map<Seq<u8>, CommitModel>,
    merge_commits: bool,
    email: Seq<u8>,
    id: Seq<u8>,
    c: CommitModel,
)
    requires
        !order.contains(id),
    ensures
        author_times(order, observed.insert(id, c), merge_commits, email) == author_times(
            order,
            observed,
            merge_commits,
            email,
        ),
    decreases order.len(),
{
    if order.len() > 0 {
        assert(order.drop_last().contains(id) ==> order.contains(id));
        assert(order.last() != id);
        lemma_author_times_frame(order.drop_last(), observed, merge_commits, email, id, c);
    }
}

proof fn lemma_author_times_step(
    order: Seq<Seq<u8>>,
    observed: Map<Seq<u8>, CommitModel>,
    merge_commits: bool,
    email: Seq<u8>,
    id: Seq<u8>,
    c: CommitModel,
)
    requires
        !order.contains(id),
    ensures
        author_times(order.push(id), observed.insert(id, c), merge_commits, email) == if qualifies(
            c,
            merge_commits,
        ) && c.author.unwrap().0 == email {
            author_times(order, observed, merge_commits, email).push(c.author.unwrap().1)
        } else {
            author_times(order, observed, merge_commits, email)
        },
{
    assert(order.push(id).drop_last() == order);
    lemma_author_times_frame(order, observed, merge_commits, email, id, c);
}

} // verus!

verus! {

/// `id` is reachable in `n` parent steps from `heads` in the commit graph `g`,
/// each commit on the way being one that `g` holds.
pub open spec fn reachable_in(
    g: Map<Seq<u8>, CommitModel>,
    heads: Set<Seq<u8>>,
    id: Seq<u8>,
    n: nat,
) -> bool
    decreases n,
{
    if n == 0 {
        heads.contains(id)
    } else {
        exists|p: Seq<u8>, i: int|
            reachable_in(g, heads, p, (n - 1) as nat) && g.contains_key(p) && 0 <= i
                < g[p].parents.len() && #[trigger] g[p].parents[i] == id
    }
}

/// `id` is reachable from `heads` in the commit graph `g`.
pub open spec fn reached(g: Map<Seq<u8>, CommitModel>, heads: Set<Seq<u8>>, id: Seq<u8>) -> bool {
    exists|n: nat| #[trigger] reachable_in(g, heads, id, n)
}

/// Reachability survives more heads and more commits in the graph.
proof fn lemma_reachable_mono(
    g1: Map<Seq<u8>, CommitModel>,
    h1: Set<Seq<u8>>,
    g2: Map<Seq<u8>, CommitModel>,
    h2: Set<Seq<u8>>,
    id: Seq<u8>,
    n: nat,
)
    requires
        reachable_in(g1, h1, id, n),
        h1.subset_of(h2),
        forall|k: Seq<u8>| #[trigger] g1.contains_key(k) ==> g2.contains_key(k) && g2[k] == g1[k],
    ensures
        reachable_in(g2, h2, id, n),
    decreases n,
{
    if n > 0 {
        let (p, i) = choose|p: Seq<u8>, i: int|
            reachable_in(g1, h1, p, (n - 1) as nat) && g1.contains_key(p) && 0 <= i
                < g1[p].parents.len() && #[trigger] g1[p].parents[i] == id;
        lemma_reachable_mono(g1, h1, g2, h2, p, (n - 1) as nat);
        assert(g2[p].parents[i] == id);
    }
}

proof fn lemma_reached_mono(
    g1: Map<Seq<u8>, CommitModel>,
    h1: Set<Seq<u8>>,
    g2: Map<Seq<u8>, CommitModel>,
    h2: Set<Seq<u8>>,
    id: Seq<u8>,
)
    requires
        reached(g1, h1, id),
        h1.subset_of(h2),
        forall|k: Seq<u8>| #[trigger] g1.contains_key(k) ==> g2.contains_key(k) && g2[k] == g1[k],
    ensures
        reached(g2, h2, id),
{
    let n = choose|n: nat| #[trigger] reachable_in(g1, h1, id, n);
    lemma_reachable_mono(g1, h1, g2, h2, id, n);
}

/// The lookups of the walk agree with the graph `g`: each commit read is the one
/// that `g` holds, and each failed lookup is of an identifier that `g` lacks.
pub open spec fn agrees_with(w: WalkModel, g: Map<Seq<u8>, CommitModel>) -> bool {
    &&& forall|id: Seq<u8>| #[trigger] w.observed.contains_key(id) ==> g.contains_key(id) && g[id] == w.observed[id]
    &&& forall|id: Seq<u8>| #[trigger] w.failed.contains(id) ==> !g.contains_key(id)
}

/// Once a walk has emptied its stack, every commit of the graph that is
/// reachable from the starting identifiers has been expanded, and exactly once:
/// it stands at one single place of the expansion order.
pub proof fn lemma_walk_visits_reachable_once(
    w: WalkModel,
    g: Map<Seq<u8>, CommitModel>,
    id: Seq<u8>,
    n: nat,
)
    requires
        w.wf(),
        w.finished(),
        agrees_with(w, g),
        reachable_in(g, w.heads, id, n),
        g.contains_key(id),
    ensures
        w.visited(id),
        exists|i: int|
            0 <= i < w.order.len() && w.order[i] == id && forall|j: int|
                0 <= j < w.order.len() && #[trigger] w.order[j] == id ==> j == i,
    decreases n,
{
    if n == 0 {
        assert(w.accounted(id, Set::empty()));
    } else {
        let (p, i) = choose|p: Seq<u8>, i: int|
            reachable_in(g, w.heads, p, (n - 1) as nat) && g.contains_key(p) && 0 <= i
                < g[p].parents.len() && #[trigger] g[p].parents[i] == id;
        lemma_walk_visits_reachable_once(w, g, p, (n - 1) as nat);
        assert(w.accounted(w.observed[p].parents[i], Set::empty()));
    }
    assert(w.order.contains(id));
    let i = choose|i: int| 0 <= i < w.order.len() && w.order[i] == id;
    assert forall|j: int| 0 <= j < w.order.len() && #[trigger] w.order[j] == id implies j == i by {
        if j != i {
            assert(w.order[j] != w.order[i]);
        }
    }
}

/// A finished walk whose lookups agree with the graph `g` has expanded exactly
/// the commits of `g` that are reachable from its starting identifiers.
pub proof fn lemma_walk_visits_exactly_reachable(w: WalkModel, g: Map<Seq<u8>, CommitModel>, id: Seq<u8>)
    requires
        w.wf(),
        w.finished(),
        agrees_with(w, g),
    ensures
        w.visited(id) <==> g.contains_key(id) && reached(g, w.heads, id),
{
    if w.visited(id) {
        lemma_reached_mono(w.observed, w.heads, g, w.heads, id);
    }
    if g.contains_key(id) && reached(g, w.heads, id) {
        let n = choose|n: nat| #[trigger] reachable_in(g, w.heads, id, n);
        lemma_walk_visits_reachable_once(w, g, id, n);
    }
}

/// Whether merge commits are attributed does not change which commits are
/// visited: two finished walks from the same starting identifiers whose lookups
/// agree with the same graph have expanded the same commits, whatever their
/// merge settings.
pub proof fn lemma_merge_setting_keeps_visited(
    w1: WalkModel,
    w2: WalkModel,
    g: Map<Seq<u8>, CommitModel>,
    id: Seq<u8>,
)
    requires
        w1.wf(),
        w1.finished(),
        agrees_with(w1, g),
        w2.wf(),
        w2.finished(),
        agrees_with(w2, g),
        w1.heads == w2.heads,
    ensures
        w1.visited(id) == w2.visited(id),
{
    lemma_walk_visits_exactly_reachable(w1, g, id);
    lemma_walk_visits_exactly_reachable(w2, g, id);
}

/// Leaving merge commits out of the attribution only removes times: each
/// author's times without merges are contained, counted with multiplicity, in
/// those with them.
pub proof fn lemma_merge_exclusion_only_drops_times(
    order: Seq<Seq<u8>>,
    observed: Map<Seq<u8>, CommitModel>,
    email: Seq<u8>,
)
    ensures
        author_times(order, observed, false, email).to_multiset().subset_of(
            author_times(order, observed, true, email).to_multiset(),
        ),
    decreases order.len(),
{
    broadcast use vstd::seq_lib::group_to_multiset_ensures;

    if order.len() > 0 {
        lemma_merge_exclusion_only_drops_times(order.drop_last(), observed, email);
    }
}

/// Nothing is reachable from no starting identifier.
pub proof fn lemma_no_heads_reaches_nothing(
    g: Map<Seq<u8>, CommitModel>,
    heads: Set<Seq<u8>>,
    id: Seq<u8>,
)
    requires
        heads =~= Set::<Seq<u8>>::empty(),
    ensures
        !reached(g, heads, id),
{
    assert forall|n: nat, x: Seq<u8>| !#[trigger] reachable_in(g, heads, x, n) by {
        lemma_no_heads_reachable_in(g, heads, x, n);
    }
}

proof fn lemma_no_heads_reachable_in(g: Map<Seq<u8>, CommitModel>, heads: Set<Seq<u8>>, id: Seq<u8>, n: nat)
    requires
        heads =~= Set::<Seq<u8>>::empty(),
    ensures
        !reachable_in(g, heads, id, n),
    decreases n,
{
    if n == 0 {
        assert(!heads.contains(id));
    } else {
        assert forall|p: Seq<u8>| !#[trigger] reachable_in(g, heads, p, (n - 1) as nat) by {
            lemma_no_heads_reachable_in(g, heads, p, (n - 1) as nat);
        }
        if reachable_in(g, heads, id, n) {
            let (p, i) = choose|p: Seq<u8>, i: int|
                reachable_in(g, heads, p, (n - 1) as nat) && g.contains_key(p) && 0 <= i
                    < g[p].parents.len() && #[trigger] g[p].parents[i] == id;
            assert(false);
        }
    }
}

/// An author with an attributed time implies that some commit was expanded.
pub proof fn lemma_author_times_nonempty_has_order(
    order: Seq<Seq<u8>>,
    observed: Map<Seq<u8>, CommitModel>,
    merge_commits: bool,
    email: Seq<u8>,
)
    requires
        author_times(order, observed, merge_commits, email).len() > 0,
    ensures
        order.len() > 0,
{
}

} // verus!
