//! What holds of the hypotheses while the search is under way: the queues of
//! each are what is left of the spans fed, each round takes one span off
//! every hypothesis that steps, and no end that the search owes is lost.

use crate::hypothesis::{distinct_keys, lists_successors, may_follow, submit, PossibilityView};
use crate::operation::OpSpan;
use crate::search::{all_blocked, covers, derives, saturates};
use vstd::prelude::*;

verus! {

/// `q` is what is left of the spans `fed`: an end piece of them, which still
/// holds the Stopped marker if that is the last of them.
pub open spec fn is_rest(q: Seq<OpSpan>, fed: Seq<OpSpan>) -> bool {
    &&& q.len() <= fed.len()
    &&& q == fed.skip(fed.len() - q.len())
    &&& fed.len() > 0 && fed.last().inputs is Stopped ==> q.len() > 0
}

/// A Stopped marker can only be the last of the spans fed.
pub open spec fn markers_last(fed: Seq<OpSpan>) -> bool {
    forall|i: int| 0 <= i < fed.len() - 1 ==> !((#[trigger] fed[i]).inputs is Stopped)
}

/// The record of what each node submitted, after node `n` submits `span`: a
/// Resumed marker takes the Stopped marker it answers off the record.
pub open spec fn record(fed: Seq<Seq<OpSpan>>, n: int, span: OpSpan) -> Seq<Seq<OpSpan>> {
    fed.update(n, submit(fed[n], span))
}

/// The number of spans in all the queues together.
pub open spec fn total_len(queues: Seq<Seq<OpSpan>>) -> nat
    decreases queues.len(),
{
    if queues.len() == 0 {
        0
    } else {
        total_len(queues.drop_last()) + queues.last().len()
    }
}

/// Replacing one queue changes the total by the difference in length.
pub proof fn lemma_total_len_update(queues: Seq<Seq<OpSpan>>, n: int, q: Seq<OpSpan>)
    requires
        0 <= n < queues.len(),
    ensures
        total_len(queues.update(n, q)) + queues[n].len() == total_len(queues) + q.len(),
    decreases queues.len(),
{
    if n == queues.len() - 1 {
        assert(queues.update(n, q).drop_last() =~= queues.drop_last());
    } else {
        assert(queues.update(n, q).drop_last() =~= queues.drop_last().update(n, q));
        lemma_total_len_update(queues.drop_last(), n, q);
    }
}

/// The total is at least the length of any one queue.
pub proof fn lemma_total_len_covers(queues: Seq<Seq<OpSpan>>, n: int)
    requires
        0 <= n < queues.len(),
    ensures
        queues[n].len() <= total_len(queues),
    decreases queues.len(),
{
    if n < queues.len() - 1 {
        lemma_total_len_covers(queues.drop_last(), n);
    }
}

/// Queues that are each no longer than their counterparts are no longer in
/// total.
pub proof fn lemma_total_len_monotonic(shorter: Seq<Seq<OpSpan>>, longer: Seq<Seq<OpSpan>>)
    requires
        shorter.len() == longer.len(),
        forall|n: int| 0 <= n < shorter.len() ==> (#[trigger] shorter[n]).len() <= longer[n].len(),
    ensures
        total_len(shorter) <= total_len(longer),
    decreases shorter.len(),
{
    if shorter.len() > 0 {
        lemma_total_len_monotonic(shorter.drop_last(), longer.drop_last());
    }
}

impl PossibilityView {
    /// Every queue is what is left of the spans that `fed` records for its
    /// node.
    pub open spec fn anchored(self, fed: Seq<Seq<OpSpan>>) -> bool {
        &&& self.queues.len() == fed.len()
        &&& forall|n: int| 0 <= n < fed.len() ==> is_rest(#[trigger] self.queues[n], fed[n])
    }

    /// Hypotheses that grew from the same spans and would be merged have the
    /// same state.
    pub proof fn lemma_anchored_same_key(self, other: Self, fed: Seq<Seq<OpSpan>>)
        requires
            self.anchored(fed),
            other.anchored(fed),
            self.same_key(other),
        ensures
            self.same_state(other),
    {
        assert forall|n: int| 0 <= n < fed.len() implies self.queues[n] == other.queues[n] by {
            assert(self.lens()[n] == other.lens()[n]);
        }
        assert(self.queues =~= other.queues);
    }

    /// A step leaves the hypothesis anchored to the same spans.
    pub proof fn lemma_anchored_successor(self, n: int, fed: Seq<Seq<OpSpan>>)
        requires
            self.anchored(fed),
            self.normal_head(n),
            self.apply_head(n) is Some,
        ensures
            self.successor(n).anchored(fed),
    {
        self.lemma_successor(n);
        let next = self.successor(n);
        assert forall|k: int| 0 <= k < fed.len() implies is_rest(
            #[trigger] next.queues[k],
            fed[k],
        ) by {
            if k == n {
                let r = next.queues[k];
                assert(r =~= fed[k].skip(fed[k].len() - r.len()));
            }
        }
    }

    /// A span that may follow what was fed may follow what is left of it.
    pub proof fn lemma_anchored_admits(self, n: int, span: OpSpan, fed: Seq<Seq<OpSpan>>)
        requires
            self.anchored(fed),
            0 <= n < fed.len(),
            may_follow(fed[n], span),
        ensures
            self.admits(n, span),
    {
    }

    /// Submitting a span that a hypothesis admits, and recording it, keeps
    /// the hypothesis anchored and the record in shape.
    pub proof fn lemma_anchored_append(self, n: int, span: OpSpan, fed: Seq<Seq<OpSpan>>)
        requires
            self.anchored(fed),
            0 <= n < fed.len(),
            markers_last(fed[n]),
            self.admits(n, span),
        ensures
            self.append(n, span).anchored(record(fed, n, span)),
            markers_last(record(fed, n, span)[n]),
    {
        let next = self.append(n, span);
        let log = record(fed, n, span);
        assert forall|k: int| 0 <= k < log.len() implies is_rest(
            #[trigger] next.queues[k],
            log[k],
        ) by {
            if k == n {
                let r = next.queues[k];
                assert(r =~= log[k].skip(log[k].len() - r.len()));
            }
        }
    }

    /// The number of spans queued over all nodes.
    pub open spec fn backlog(self) -> nat {
        total_len(self.queues)
    }

    /// A step takes one span off the backlog.
    pub proof fn lemma_backlog_successor(self, n: int)
        requires
            self.normal_head(n),
            self.apply_head(n) is Some,
        ensures
            self.successor(n).backlog() + 1 == self.backlog(),
    {
        self.lemma_successor(n);
        lemma_total_len_update(self.queues, n, self.queues[n].drop_first());
    }

    /// A hypothesis that can step has something queued.
    pub proof fn lemma_backlog_positive(self)
        requires
            self.can_step(),
        ensures
            self.backlog() > 0,
    {
        let n = choose|n: int| self.normal_head(n);
        lemma_total_len_covers(self.queues, n);
    }

    /// A hypothesis has no more queued than was fed.
    pub proof fn lemma_backlog_bounded(self, fed: Seq<Seq<OpSpan>>)
        requires
            self.anchored(fed),
        ensures
            self.backlog() <= total_len(fed),
    {
        lemma_total_len_monotonic(self.queues, fed);
    }
}

/// Every member of `set` has its queues in order and grew from the spans
/// that `fed` records.
pub open spec fn all_anchored(set: Seq<PossibilityView>, fed: Seq<Seq<OpSpan>>) -> bool {
    forall|k: int| 0 <= k < set.len() ==> (#[trigger] set[k]).inv() && set[k].anchored(fed)
}

/// Every member of `set` can step.
pub open spec fn all_ready(set: Seq<PossibilityView>) -> bool {
    forall|k: int| 0 <= k < set.len() ==> (#[trigger] set[k]).can_step()
}

/// Every member of `set` is reached from some seed.
pub open spec fn all_derived(seeds: Seq<PossibilityView>, set: Seq<PossibilityView>) -> bool {
    forall|k: int| 0 <= k < set.len() ==> derives(seeds, #[trigger] set[k])
}

/// `after` is `before` with members added at the end.
pub open spec fn extends(before: Seq<PossibilityView>, after: Seq<PossibilityView>) -> bool {
    &&& before.len() <= after.len()
    &&& forall|k: int| 0 <= k < before.len() ==> #[trigger] after[k] == before[k]
}

/// The members added to `before` are members of `sources` that can step, if
/// `ready`, or that cannot, if not.
pub open spec fn added_from(
    before: Seq<PossibilityView>,
    after: Seq<PossibilityView>,
    sources: Seq<PossibilityView>,
    ready: bool,
) -> bool {
    forall|k: int|
        before.len() <= k < after.len() ==> (#[trigger] after[k]).can_step() == ready
            && sources.contains(after[k])
}

/// The members added to `before` are successors of members of `sources`
/// that can step, if `ready`, or that cannot, if not.
pub open spec fn added_by_step(
    before: Seq<PossibilityView>,
    after: Seq<PossibilityView>,
    sources: Seq<PossibilityView>,
    ready: bool,
) -> bool {
    forall|k: int|
        before.len() <= k < after.len() ==> (#[trigger] after[k]).can_step() == ready
            && stepped_from(sources, after[k])
}

/// Each of the first `upto` of `sources` has its state in `ready` if it can
/// step, and in `blocked` if it cannot.
pub open spec fn sorted_into(
    sources: Seq<PossibilityView>,
    upto: int,
    ready: Seq<PossibilityView>,
    blocked: Seq<PossibilityView>,
) -> bool {
    forall|m: int|
        0 <= m < upto ==> if (#[trigger] sources[m]).can_step() {
            covers(ready, sources[m])
        } else {
            covers(blocked, sources[m])
        }
}

/// Each successor of each of the first `upto` of `sources` has its state in
/// `ready` if it can step, and in `blocked` if it cannot.
pub open spec fn steps_sorted_into(
    sources: Seq<PossibilityView>,
    upto: int,
    ready: Seq<PossibilityView>,
    blocked: Seq<PossibilityView>,
) -> bool {
    forall|m: int, w: PossibilityView|
        0 <= m < upto && #[trigger] sources[m].steps_to(w) ==> if w.can_step() {
            covers(ready, w)
        } else {
            covers(blocked, w)
        }
}

/// Some member of `sources` steps to `w`.
pub open spec fn stepped_from(sources: Seq<PossibilityView>, w: PossibilityView) -> bool {
    exists|m: int| 0 <= m < sources.len() && (#[trigger] sources[m]).steps_to(w)
}

/// `after` is `before` with `w` added at the end, unless a member of `before`
/// would be merged with it: then `after` is `before`.
pub open spec fn inserted(
    before: Seq<PossibilityView>,
    after: Seq<PossibilityView>,
    w: PossibilityView,
) -> bool {
    &&& after == before || after == before.push(w)
    &&& exists|j: int| 0 <= j < after.len() && (#[trigger] after[j]).same_key(w)
}

/// The first `upto` of `sources` have been sorted into `ready` and `blocked`,
/// which began as `ready_before` and `blocked_before`.
pub open spec fn settled(
    sources: Seq<PossibilityView>,
    upto: int,
    fed: Seq<Seq<OpSpan>>,
    ready_before: Seq<PossibilityView>,
    ready: Seq<PossibilityView>,
    blocked_before: Seq<PossibilityView>,
    blocked: Seq<PossibilityView>,
) -> bool {
    &&& all_anchored(ready, fed)
    &&& all_anchored(blocked, fed)
    &&& distinct_keys(ready)
    &&& distinct_keys(blocked)
    &&& extends(ready_before, ready)
    &&& extends(blocked_before, blocked)
    &&& added_from(ready_before, ready, sources, true)
    &&& added_from(blocked_before, blocked, sources, false)
    &&& sorted_into(sources, upto, ready, blocked)
}

/// The first `upto` of `sources` have taken their steps: the successors that
/// can step again are in `next`, the others have joined `blocked`, which
/// began as `blocked_before`.
pub open spec fn expanded(
    sources: Seq<PossibilityView>,
    upto: int,
    fed: Seq<Seq<OpSpan>>,
    next: Seq<PossibilityView>,
    blocked_before: Seq<PossibilityView>,
    blocked: Seq<PossibilityView>,
) -> bool {
    &&& all_anchored(next, fed)
    &&& all_anchored(blocked, fed)
    &&& distinct_keys(next)
    &&& distinct_keys(blocked)
    &&& extends(blocked_before, blocked)
    &&& added_by_step(Seq::empty(), next, sources, true)
    &&& added_by_step(blocked_before, blocked, sources, false)
    &&& steps_sorted_into(sources, upto, next, blocked)
}

/// Some member of `front` still leads to the state of `end`.
pub open spec fn promises(front: Seq<PossibilityView>, end: PossibilityView) -> bool {
    exists|k: int, path: Seq<int>|
        0 <= k < front.len() && (#[trigger] front[k].legal(path)) && front[k].run(path).same_state(
            end,
        )
}

/// Adding members takes no state out of a collection.
pub proof fn lemma_covers_extends(
    before: Seq<PossibilityView>,
    after: Seq<PossibilityView>,
    w: PossibilityView,
)
    requires
        extends(before, after),
        covers(before, w),
    ensures
        covers(after, w),
{
    let j = choose|j: int| 0 <= j < before.len() && (#[trigger] before[j]).same_state(w);
    assert(after[j] == before[j]);
}

/// What a seed reaches in some steps, it reaches in one step more.
pub proof fn lemma_derives_step(
    seeds: Seq<PossibilityView>,
    from: PossibilityView,
    to: PossibilityView,
)
    requires
        derives(seeds, from),
        from.steps_to(to),
    ensures
        derives(seeds, to),
{
    let i = choose|i: int| 0 <= i < seeds.len() && (#[trigger] seeds[i]).reaches(from);
    let path = choose|path: Seq<int>| seeds[i].legal(path) && seeds[i].run(path) == from;
    let n = choose|n: int| from.advances(n) && from.successor(n) == to;
    seeds[i].lemma_run_push(path, n);
}

/// Sorting hypotheses into those that can step and those that cannot loses
/// none of the ends they lead to.
pub proof fn lemma_promise_sorted(
    seeds: Seq<PossibilityView>,
    pending: Seq<PossibilityView>,
    blocked: Seq<PossibilityView>,
    end: PossibilityView,
)
    requires
        exists|i: int| 0 <= i < seeds.len() && (#[trigger] seeds[i]).outcome(end),
        sorted_into(seeds, seeds.len() as int, pending, blocked),
    ensures
        covers(blocked, end) || promises(pending, end),
{
    let i = choose|i: int| 0 <= i < seeds.len() && (#[trigger] seeds[i]).outcome(end);
    let seed = seeds[i];
    let path = choose|path: Seq<int>| seed.legal(path) && seed.run(path) == end;
    if seed.can_step() {
        let j = choose|j: int| 0 <= j < pending.len() && (#[trigger] pending[j]).same_state(seed);
        pending[j].lemma_same_state_run(seed, path);
    } else {
        seed.lemma_blocked_run(path);
    }
}

/// One round of the search keeps its promises: when every hypothesis that
/// can step is replaced by its successors, sorted into those that can step
/// again and those that cannot, every end is still led to.
pub proof fn lemma_promise_kept(
    pending: Seq<PossibilityView>,
    next: Seq<PossibilityView>,
    blocked: Seq<PossibilityView>,
    end: PossibilityView,
)
    requires
        promises(pending, end),
        !end.can_step(),
        all_ready(pending),
        steps_sorted_into(pending, pending.len() as int, next, blocked),
    ensures
        covers(blocked, end) || promises(next, end),
{
    let (k, path) = choose|k: int, path: Seq<int>|
        0 <= k < pending.len() && (#[trigger] pending[k].legal(path)) && pending[k].run(
            path,
        ).same_state(end);
    let from = pending[k];
    // `from` can step and `end` cannot, so the path between them has a first step
    from.run(path).lemma_same_state_step(end, 0);
    let rest = path.drop_first();
    let via = from.successor(path[0]);
    assert(from.steps_to(via));
    if via.can_step() {
        let j = choose|j: int| 0 <= j < next.len() && (#[trigger] next[j]).same_state(via);
        next[j].lemma_same_state_run(via, rest);
    } else {
        via.lemma_blocked_run(rest);
    }
}

/// Sorting one more of `sources`: it was inserted into `ready` if it can
/// step, and into `blocked` if it cannot.
pub proof fn lemma_settle_one(
    sources: Seq<PossibilityView>,
    at: int,
    fed: Seq<Seq<OpSpan>>,
    ready_before: Seq<PossibilityView>,
    ready: Seq<PossibilityView>,
    ready_after: Seq<PossibilityView>,
    blocked_before: Seq<PossibilityView>,
    blocked: Seq<PossibilityView>,
    blocked_after: Seq<PossibilityView>,
)
    requires
        0 <= at < sources.len(),
        all_anchored(sources, fed),
        settled(sources, at, fed, ready_before, ready, blocked_before, blocked),
        distinct_keys(ready_after),
        distinct_keys(blocked_after),
        if sources[at].can_step() {
            inserted(ready, ready_after, sources[at]) && blocked_after == blocked
        } else {
            inserted(blocked, blocked_after, sources[at]) && ready_after == ready
        },
    ensures
        settled(sources, at + 1, fed, ready_before, ready_after, blocked_before, blocked_after),
{
    let w = sources[at];
    let (grown, grown_after) = if w.can_step() {
        (ready, ready_after)
    } else {
        (blocked, blocked_after)
    };
    // the member that has the key of `w` has its state
    let j = choose|j: int| 0 <= j < grown_after.len() && (#[trigger] grown_after[j]).same_key(w);
    grown_after[j].lemma_anchored_same_key(w, fed);
    grown_after[j].lemma_same_state_step(w, 0);
    assert forall|m: int| 0 <= m < at + 1 implies if (#[trigger] sources[m]).can_step() {
        covers(ready_after, sources[m])
    } else {
        covers(blocked_after, sources[m])
    } by {
        if m < at {
            if sources[m].can_step() {
                lemma_covers_extends(ready, ready_after, sources[m]);
            } else {
                lemma_covers_extends(blocked, blocked_after, sources[m]);
            }
        }
    }
}

/// The successors of an anchored hypothesis are anchored.
pub proof fn lemma_successors_anchored(
    from: PossibilityView,
    successors: Seq<PossibilityView>,
    fed: Seq<Seq<OpSpan>>,
)
    requires
        from.inv(),
        from.anchored(fed),
        lists_successors(from, successors),
    ensures
        all_anchored(successors, fed),
{
    assert forall|j: int| 0 <= j < successors.len() implies (#[trigger] successors[j]).inv()
        && successors[j].anchored(fed) by {
        let n = choose|n: int| from.advances(n) && from.successor(n) == successors[j];
        from.lemma_successor_inv(n);
        from.lemma_anchored_successor(n, fed);
    }
}

/// One more of `sources` has taken its steps: its successors were sorted into
/// `next` and `blocked`.
pub proof fn lemma_expand_one(
    sources: Seq<PossibilityView>,
    at: int,
    fed: Seq<Seq<OpSpan>>,
    successors: Seq<PossibilityView>,
    next: Seq<PossibilityView>,
    next_after: Seq<PossibilityView>,
    blocked_before: Seq<PossibilityView>,
    blocked: Seq<PossibilityView>,
    blocked_after: Seq<PossibilityView>,
)
    requires
        0 <= at < sources.len(),
        expanded(sources, at, fed, next, blocked_before, blocked),
        lists_successors(sources[at], successors),
        settled(successors, successors.len() as int, fed, next, next_after, blocked, blocked_after),
    ensures
        expanded(sources, at + 1, fed, next_after, blocked_before, blocked_after),
{
    assert forall|m: int, w: PossibilityView|
        0 <= m < at + 1 && #[trigger] sources[m].steps_to(w) implies if w.can_step() {
        covers(next_after, w)
    } else {
        covers(blocked_after, w)
    } by {
        if m < at {
            if w.can_step() {
                lemma_covers_extends(next, next_after, w);
            } else {
                lemma_covers_extends(blocked, blocked_after, w);
            }
        }
    }
}

/// When every live hypothesis takes a span that it admits, and the span is
/// recorded, the hypotheses stay anchored and in order, and the record stays
/// in shape.
pub proof fn lemma_submit_to_all(
    live: Seq<PossibilityView>,
    fed: Seq<Seq<OpSpan>>,
    n: int,
    span: OpSpan,
    seeds: Seq<PossibilityView>,
)
    requires
        live.len() > 0,
        all_anchored(live, fed),
        forall|k: int| 0 <= k < fed.len() ==> markers_last(#[trigger] fed[k]),
        0 <= n < fed.len(),
        span.wf(),
        forall|k: int| 0 <= k < live.len() ==> (#[trigger] live[k]).admits(n, span),
        seeds == Seq::new(live.len(), |k: int| live[k].append(n, span)),
    ensures
        all_anchored(seeds, record(fed, n, span)),
        forall|k: int|
            0 <= k < fed.len() ==> markers_last(#[trigger] record(fed, n, span)[k]),
{
    let log = record(fed, n, span);
    assert forall|k: int| 0 <= k < seeds.len() implies (#[trigger] seeds[k]).inv()
        && seeds[k].anchored(log) by {
        live[k].lemma_append_inv(n, span);
        live[k].lemma_anchored_append(n, span, fed);
    }
    assert forall|k: int| 0 <= k < fed.len() implies markers_last(#[trigger] log[k]) by {
        if k == n {
            live[0].lemma_anchored_append(n, span, fed);
        }
    }
}

/// What holds between the rounds of the search that began with `seeds`:
/// the hypotheses in `pending` can step and those in `blocked` cannot; all
/// of them are reached from a seed, anchored to the spans fed, and merged
/// where they could be; the pending ones have at most `bound` spans queued;
/// and every outcome of a seed has its state in `blocked` or is still led to
/// from `pending`.
pub open spec fn search_inv(
    seeds: Seq<PossibilityView>,
    fed: Seq<Seq<OpSpan>>,
    pending: Seq<PossibilityView>,
    blocked: Seq<PossibilityView>,
    bound: nat,
) -> bool {
    &&& all_anchored(pending, fed)
    &&& all_anchored(blocked, fed)
    &&& all_ready(pending)
    &&& all_blocked(blocked)
    &&& distinct_keys(pending)
    &&& distinct_keys(blocked)
    &&& all_derived(seeds, pending)
    &&& all_derived(seeds, blocked)
    &&& forall|k: int| 0 <= k < pending.len() ==> (#[trigger] pending[k]).backlog() <= bound
    &&& forall|end: PossibilityView| #[trigger]
        derives(seeds, end) && !end.can_step() ==> covers(blocked, end) || promises(pending, end)
}

/// A member of the seeds is reached from them.
pub proof fn lemma_member_derived(seeds: Seq<PossibilityView>, w: PossibilityView)
    requires
        seeds.contains(w),
    ensures
        derives(seeds, w),
{
    let i = choose|i: int| 0 <= i < seeds.len() && seeds[i] == w;
    assert(seeds[i].run(Seq::<int>::empty()) == w);
}

/// The search begins with the seeds sorted into those that can step and
/// those that cannot.
pub proof fn lemma_search_begins(
    seeds: Seq<PossibilityView>,
    fed: Seq<Seq<OpSpan>>,
    pending: Seq<PossibilityView>,
    blocked: Seq<PossibilityView>,
)
    requires
        settled(seeds, seeds.len() as int, fed, Seq::empty(), pending, Seq::empty(), blocked),
    ensures
        search_inv(seeds, fed, pending, blocked, total_len(fed)),
{
    assert forall|k: int| 0 <= k < pending.len() implies derives(seeds, #[trigger] pending[k])
        && pending[k].backlog() <= total_len(fed) by {
        lemma_member_derived(seeds, pending[k]);
        pending[k].lemma_backlog_bounded(fed);
    }
    assert forall|k: int| 0 <= k < blocked.len() implies derives(seeds, #[trigger] blocked[k]) by {
        lemma_member_derived(seeds, blocked[k]);
    }
    assert forall|end: PossibilityView| #[trigger]
        derives(seeds, end) && !end.can_step() implies covers(blocked, end) || promises(
        pending,
        end,
    ) by {
        lemma_promise_sorted(seeds, pending, blocked, end);
    }
}

/// A round of the search, in which every pending hypothesis is replaced by
/// its successors, takes one span off the bound and keeps the rest.
pub proof fn lemma_search_round(
    seeds: Seq<PossibilityView>,
    fed: Seq<Seq<OpSpan>>,
    pending: Seq<PossibilityView>,
    blocked: Seq<PossibilityView>,
    next: Seq<PossibilityView>,
    blocked_next: Seq<PossibilityView>,
    bound: nat,
)
    requires
        search_inv(seeds, fed, pending, blocked, bound),
        pending.len() > 0,
        expanded(pending, pending.len() as int, fed, next, blocked, blocked_next),
    ensures
        bound > 0,
        search_inv(seeds, fed, next, blocked_next, (bound - 1) as nat),
{
    pending[0].lemma_backlog_positive();
    assert forall|k: int| 0 <= k < next.len() implies derives(seeds, #[trigger] next[k])
        && next[k].backlog() < bound by {
        let m = choose|m: int| 0 <= m < pending.len() && (#[trigger] pending[m]).steps_to(next[k]);
        lemma_derives_step(seeds, pending[m], next[k]);
        let n = choose|n: int| pending[m].advances(n) && pending[m].successor(n) == next[k];
        pending[m].lemma_backlog_successor(n);
    }
    assert forall|k: int| 0 <= k < blocked_next.len() implies derives(
        seeds,
        #[trigger] blocked_next[k],
    ) && !blocked_next[k].can_step() by {
        if k >= blocked.len() {
            let m = choose|m: int|
                0 <= m < pending.len() && (#[trigger] pending[m]).steps_to(blocked_next[k]);
            lemma_derives_step(seeds, pending[m], blocked_next[k]);
        }
    }
    assert forall|end: PossibilityView| #[trigger]
        derives(seeds, end) && !end.can_step() implies covers(blocked_next, end) || promises(
        next,
        end,
    ) by {
        if covers(blocked, end) {
            lemma_covers_extends(blocked, blocked_next, end);
        } else {
            lemma_promise_kept(pending, next, blocked_next, end);
        }
    }
}

/// When nothing is pending, what is blocked is what the search leaves of the
/// seeds.
pub proof fn lemma_search_ends(
    seeds: Seq<PossibilityView>,
    fed: Seq<Seq<OpSpan>>,
    pending: Seq<PossibilityView>,
    blocked: Seq<PossibilityView>,
    bound: nat,
)
    requires
        search_inv(seeds, fed, pending, blocked, bound),
        pending.len() == 0,
    ensures
        saturates(seeds, blocked),
{
    assert forall|i: int, end: PossibilityView|
        0 <= i < seeds.len() && #[trigger] seeds[i].outcome(end) implies exists|j: int|
        0 <= j < blocked.len() && (#[trigger] blocked[j]).same_state(end) by {
        assert(derives(seeds, end));
    }
}

} // verus!
