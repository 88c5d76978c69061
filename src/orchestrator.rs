use vstd::prelude::*;

use std::collections::HashSet;

use crate::catalog::Problem;

verus! {

broadcast use vstd::std_specs::hash::group_hash_axioms;

/// Relies on rand's `SliceRandom::shuffle`, driven by the thread-local
/// generator: it only swaps elements, so the result is a reordering.
#[verifier::external_body]
fn shuffled(problems: Vec<Problem>) -> (r: Vec<Problem>)
    ensures
        r@.to_multiset() == problems@.to_multiset(),
{
    let mut problems = problems;
    rand::seq::SliceRandom::shuffle(problems.as_mut_slice(), &mut rand::rng());
    problems
}

/// What the run asks its driver to do next.
pub enum Step {
    /// The item is reserved to premium accounts: report it, fetch nothing.
    SkipPremium { id: u16 },
    /// The item is stored already: report it, fetch nothing.
    SkipFetched { id: u16 },
    /// Fetch the item by its slug, store it, and report the outcome; `rank` is
    /// its position in the shuffled catalog, from 1.
    Fetch { id: u16, slug: String, rank: usize },
    /// Nothing is left to do: the target was reached or the catalog ran out.
    Finished { fetched_amt: usize, target: usize },
}

/// How one fetch ended.
#[derive(Clone, Copy, Debug, PartialEq, Eq, Structural)]
pub enum Outcome {
    /// Fetched and written to its file.
    Written,
    /// The request failed or its answer could not be read.
    FetchFailed,
    /// Fetched, but the file could not be written.
    WriteFailed,
}

/// One acquisition run over the catalog.
pub struct FetchRun {
    /// The catalog in the order in which it is gone through.
    pub order: Vec<Problem>,
    /// Ids stored on disk, grown by every write of this run.
    pub fetched: HashSet<u16>,
    /// Ids found to be premium in this run.
    pub premium: HashSet<u16>,
    /// Items written in this run.
    pub fetched_amt: usize,
    /// How many items this run is to write.
    pub target: usize,
    /// The next position in `order`.
    pub pos: usize,
    /// The run asks for nothing more.
    pub done: bool,
    /// The run was over before it began: enough items were stored already.
    pub satisfied: bool,
}

/// What one decision does: `pre` is the run before, `post` after, `r` the step
/// asked for.
pub open spec fn next_step_post(pre: FetchRun, post: FetchRun, r: Step) -> bool {
    &&& post.same_plan(&pre)
    &&& pre.fetched@.subset_of(post.fetched@)
    &&& pre.done || pre.pos >= pre.order.len() ==> (r == Step::Finished {
        fetched_amt: pre.fetched_amt,
        target: pre.target,
    } && post.done && post.pos == pre.pos && post.fetched@ == pre.fetched@ && post.premium@
        == pre.premium@ && post.fetched_amt == pre.fetched_amt)
    &&& !pre.done && pre.pos < pre.order.len() ==> ({
        let p = pre.order@[pre.pos as int];
        &&& post.pos == pre.pos + 1
        &&& post.done == pre.done
        &&& post.fetched_amt == pre.fetched_amt
        &&& post.fetched@ == pre.fetched@
        &&& p.is_premium ==> r == Step::SkipPremium { id: p.id } && post.premium@
            == pre.premium@.insert(p.id)
        &&& !p.is_premium ==> post.premium@ == pre.premium@
        &&& !p.is_premium && pre.fetched@.contains(p.id) ==> r == Step::SkipFetched { id: p.id }
        &&& !p.is_premium && !pre.fetched@.contains(p.id) ==> (r matches Step::Fetch {
            id,
            slug,
            rank,
        } && id == p.id && slug@ == p.slug@ && rank == pre.pos + 1)
    })
}

/// What taking in the outcome of fetching `id` does.
pub open spec fn record_post(pre: FetchRun, post: FetchRun, id: u16, outcome: Outcome) -> bool {
    &&& post.same_plan(&pre)
    &&& post.pos == pre.pos
    &&& post.premium@ == pre.premium@
    &&& outcome == Outcome::Written && !pre.done ==> {
        &&& post.fetched@ == pre.fetched@.insert(id)
        &&& post.fetched_amt == pre.fetched_amt + 1
        &&& post.done == (post.fetched_amt == pre.target)
    }
    &&& outcome != Outcome::Written || pre.done ==> {
        &&& post.fetched@ == pre.fetched@
        &&& post.fetched_amt == pre.fetched_amt
        &&& post.done == pre.done
    }
}

/// `post` comes from `pre` by one decision or by taking in one outcome.
pub open spec fn follows(pre: FetchRun, post: FetchRun) -> bool {
    ||| exists|r: Step| #[trigger] next_step_post(pre, post, r)
    ||| exists|id: u16, o: Outcome| #[trigger] record_post(pre, post, id, o)
}

/// The states of a run, each following from the one before.
pub open spec fn is_trace(trace: Seq<FetchRun>) -> bool {
    forall|i: int| 0 <= i < trace.len() - 1 ==> follows(#[trigger] trace[i], trace[i + 1])
}

/// A step that hands `id` to the fetcher.
pub open spec fn fetches(r: Step, id: u16) -> bool {
    r matches Step::Fetch { id: x, .. } && x == id
}

proof fn lemma_trace_keeps(trace: Seq<FetchRun>, id: u16, i: int)
    requires
        is_trace(trace),
        0 <= i < trace.len(),
        trace[0].fetched@.contains(id),
    ensures
        trace[i].fetched@.contains(id),
    decreases i,
{
    if i > 0 {
        lemma_trace_keeps(trace, id, i - 1);
        assert(follows(trace[i - 1], trace[i]));
    }
}

proof fn lemma_trace_stays_done(trace: Seq<FetchRun>, i: int)
    requires
        is_trace(trace),
        0 <= i < trace.len(),
        trace[0].done,
    ensures
        trace[i].done,
    decreases i,
{
    if i > 0 {
        lemma_trace_stays_done(trace, i - 1);
        assert(follows(trace[i - 1], trace[i]));
    }
}

/// Once the fetch of `id` is written, no later decision of the run hands `id`
/// to the fetcher again, whatever the catalog repeats.
pub proof fn lemma_written_never_fetched_again(trace: Seq<FetchRun>, id: u16)
    requires
        trace.len() >= 2,
        is_trace(trace),
        !trace[0].done,
        record_post(trace[0], trace[1], id, Outcome::Written),
    ensures
        forall|i: int, r: Step|
            1 <= i < trace.len() - 1 && #[trigger] next_step_post(trace[i], trace[i + 1], r)
                ==> !fetches(r, id),
{
    let rest = trace.drop_first();
    assert(rest[0] == trace[1]);
    assert(trace[1].fetched@.contains(id));
    assert forall|i: int| 0 <= i < rest.len() - 1 implies follows(#[trigger] rest[i], rest[i + 1]) by {
        assert(follows(trace[i + 1], trace[i + 2]));
    }
    assert forall|i: int, r: Step|
        1 <= i < trace.len() - 1 && #[trigger] next_step_post(trace[i], trace[i + 1], r) implies !fetches(
        r,
        id,
    ) by {
        lemma_trace_keeps(rest, id, i - 1);
        assert(rest[i - 1] == trace[i]);
        let pre = trace[i];
        if !pre.done && pre.pos < pre.order.len() {
            assert(pre.order@[pre.pos as int].id != id || pre.fetched@.contains(id));
        }
    }
}

/// A run whose target was met before it began hands nothing to the fetcher.
pub proof fn lemma_satisfied_run_never_fetches(trace: Seq<FetchRun>)
    requires
        trace.len() >= 1,
        is_trace(trace),
        trace[0].done,
    ensures
        forall|i: int, r: Step|
            0 <= i < trace.len() - 1 && #[trigger] next_step_post(trace[i], trace[i + 1], r)
                ==> r is Finished,
{
    assert forall|i: int, r: Step|
        0 <= i < trace.len() - 1 && #[trigger] next_step_post(trace[i], trace[i + 1], r) implies r is Finished by {
        lemma_trace_stays_done(trace, i);
    }
}

/// The ids of the premium items among the first `pos` of `order`.
pub open spec fn premium_met(order: Seq<Problem>, pos: int) -> Set<u16> {
    Set::new(|id: u16| exists|j: int| 0 <= j < pos && #[trigger] order[j].is_premium && order[j].id == id)
}

proof fn lemma_premium_step(pre: FetchRun, post: FetchRun)
    requires
        follows(pre, post),
        pre.premium@ == premium_met(pre.order@, pre.pos as int),
    ensures
        post.premium@ == premium_met(post.order@, post.pos as int),
{
    if exists|r: Step| #[trigger] next_step_post(pre, post, r) {
        let r = choose|r: Step| #[trigger] next_step_post(pre, post, r);
        if !pre.done && pre.pos < pre.order.len() {
            let p = pre.order@[pre.pos as int];
            let k = pre.pos as int;
            assert forall|id: u16| #[trigger] post.premium@.contains(id) == premium_met(
                post.order@,
                post.pos as int,
            ).contains(id) by {
                if premium_met(post.order@, post.pos as int).contains(id) {
                    let j = choose|j: int|
                        0 <= j < k + 1 && #[trigger] post.order@[j].is_premium && post.order@[j].id
                            == id;
                    if j < k {
                        assert(premium_met(pre.order@, k).contains(id));
                    }
                }
                if pre.premium@.contains(id) {
                    let j = choose|j: int|
                        0 <= j < k && #[trigger] pre.order@[j].is_premium && pre.order@[j].id == id;
                    assert(post.order@[j].is_premium && post.order@[j].id == id);
                }
                if p.is_premium && id == p.id {
                    assert(post.order@[k].is_premium && post.order@[k].id == id);
                }
            }
            assert(post.premium@ =~= premium_met(post.order@, post.pos as int));
        } else {
            assert(post.premium@ =~= premium_met(post.order@, post.pos as int));
        }
    } else {
        let (id, o) = choose|id: u16, o: Outcome| #[trigger] record_post(pre, post, id, o);
        assert(post.premium@ =~= premium_met(post.order@, post.pos as int));
    }
}

proof fn lemma_premium_trace(trace: Seq<FetchRun>, i: int)
    requires
        is_trace(trace),
        0 <= i < trace.len(),
        trace[0].premium@ == premium_met(trace[0].order@, trace[0].pos as int),
    ensures
        trace[i].premium@ == premium_met(trace[i].order@, trace[i].pos as int),
    decreases i,
{
    if i > 0 {
        lemma_premium_trace(trace, i - 1);
        assert(follows(trace[i - 1], trace[i]));
        lemma_premium_step(trace[i - 1], trace[i]);
    }
}

/// Over a whole run that starts from nothing, the premium set is exactly the
/// set of ids of the premium items gone through so far: each is recorded once
/// however often the catalog repeats it, and nothing else is recorded.
pub proof fn lemma_premium_is_exactly_met(trace: Seq<FetchRun>)
    requires
        trace.len() >= 1,
        is_trace(trace),
        trace[0].pos == 0,
        trace[0].premium@ == Set::<u16>::empty(),
    ensures
        forall|i: int|
            0 <= i < trace.len() ==> (#[trigger] trace[i]).premium@ == premium_met(
                trace[i].order@,
                trace[i].pos as int,
            ),
{
    assert(premium_met(trace[0].order@, 0) =~= Set::<u16>::empty());
    assert forall|i: int| 0 <= i < trace.len() implies (#[trigger] trace[i]).premium@ == premium_met(
        trace[i].order@,
        trace[i].pos as int,
    ) by {
        lemma_premium_trace(trace, i);
    }
}

/// A premium item is never handed to the fetcher: it is recorded instead.
pub proof fn lemma_premium_never_fetched(pre: FetchRun, post: FetchRun, r: Step)
    requires
        next_step_post(pre, post, r),
        !pre.done,
        pre.pos < pre.order.len(),
        pre.order@[pre.pos as int].is_premium,
    ensures
        !fetches(r, pre.order@[pre.pos as int].id),
        post.premium@.contains(pre.order@[pre.pos as int].id),
        post.premium@ == pre.premium@.insert(pre.order@[pre.pos as int].id),
{
}

impl FetchRun {
    pub open spec fn wf(&self) -> bool {
        &&& self.pos <= self.order.len()
        &&& self.fetched_amt <= self.target
        &&& !self.done ==> self.fetched_amt < self.target
    }

    /// The fields that a step of the run leaves alone.
    pub open spec fn same_plan(&self, other: &FetchRun) -> bool {
        &&& self.order@ == other.order@
        &&& self.target == other.target
        &&& self.satisfied == other.satisfied
    }

    /// Starts a run that is to write `target` new items, with the catalog
    /// shuffled; a run whose target is already met by what is stored is done
    /// from the start and never asks for a fetch.
    pub fn new(problems: Vec<Problem>, fetched: HashSet<u16>, target: usize) -> (r: FetchRun)
        ensures
            r.wf(),
            r.satisfied == (target <= fetched@.len()),
            r.done == r.satisfied,
            r.order@.to_multiset() == problems@.to_multiset(),
            r.fetched@ == fetched@,
            r.premium@ == Set::<u16>::empty(),
            r.fetched_amt == 0,
            r.target == target,
            r.pos == 0,
    {
        let satisfied = target <= fetched.len();
        let order = if satisfied {
            problems
        } else {
            shuffled(problems)
        };
        FetchRun {
            order,
            fetched,
            premium: HashSet::new(),
            fetched_amt: 0,
            target,
            pos: 0,
            done: satisfied,
            satisfied,
        }
    }

    /// Decides what to do with the next item of the catalog.
    pub fn next_step(&mut self) -> (r: Step)
        requires
            old(self).wf(),
        ensures
            final(self).wf(),
            next_step_post(*old(self), *final(self), r),
    {
        if self.done || self.pos == self.order.len() {
            self.done = true;
            return Step::Finished { fetched_amt: self.fetched_amt, target: self.target };
        }
        let k = self.pos;
        self.pos = k + 1;
        let id = self.order[k].id;
        if self.order[k].is_premium {
            self.premium.insert(id);
            Step::SkipPremium { id }
        } else if self.fetched.contains(&id) {
            Step::SkipFetched { id }
        } else {
            let slug = self.order[k].slug.clone();
            Step::Fetch { id, slug, rank: k + 1 }
        }
    }

    /// Takes in how the fetch of item `id` ended. A written item counts toward
    /// the target and is never fetched again in this run; the run is done once
    /// the target is reached. A failure changes nothing, so a later run retries
    /// the item.
    pub fn record_outcome(&mut self, id: u16, outcome: Outcome)
        requires
            old(self).wf(),
        ensures
            final(self).wf(),
            record_post(*old(self), *final(self), id, outcome),
    {
        if outcome == Outcome::Written && !self.done {
            self.fetched.insert(id);
            self.fetched_amt = self.fetched_amt + 1;
            if self.fetched_amt == self.target {
                self.done = true;
            }
        }
    }

    /// Whether the run ended before it began, the target already being met.
    pub fn is_satisfied(&self) -> (r: bool)
        ensures
            r == self.satisfied,
    {
        self.satisfied
    }
}

} // verus!
