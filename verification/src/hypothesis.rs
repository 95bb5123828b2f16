//! Hypotheses as mathematical values: what a hypothesis holds, when it can
//! take a step, which steps it can take, and what a newly submitted span does
//! to it.

use crate::operation::{Node, OpInputs, OpSpan, Value};
use crate::text::{decimal, joined};
use vstd::prelude::*;

verus! {

/// What a hypothesis takes the register to hold.
#[derive(Debug, Clone, Copy, PartialEq, Eq, Structural)]
pub enum RegisterState {
    /// Certainly nothing.
    Nil,
    /// Certainly this value.
    Known(Value),
    /// Unknown, after a failed operation: any observation is consistent.
    Uncertain,
}

impl RegisterState {
    /// The state that a Get's answer stands for.
    pub open spec fn observed(val: Option<Value>) -> RegisterState {
        match val {
            Some(v) => RegisterState::Known(v),
            None => RegisterState::Nil,
        }
    }

    /// Whether a Get answered with `val` is consistent with this state.
    pub open spec fn allows(self, val: Option<Value>) -> bool {
        self is Uncertain || self == Self::observed(val)
    }

    /// The state as text: the value, `nil`, or `???` when uncertain.
    pub open spec fn text(self) -> Seq<char> {
        match self {
            RegisterState::Known(v) => decimal(v as nat),
            RegisterState::Nil => "nil"@,
            RegisterState::Uncertain => "???"@,
        }
    }
}

/// The discipline of one node's queue: spans are well formed and follow one
/// another in time, no Resumed marker is ever queued, and a Stopped marker
/// can only be the last entry.
pub open spec fn queue_inv(q: Seq<OpSpan>) -> bool {
    &&& forall|i: int| 0 <= i < q.len() ==> (#[trigger] q[i]).wf() && !(q[i].inputs is Resumed)
    &&& forall|i: int, j: int|
        0 <= i < j < q.len() ==> (#[trigger] q[i]).normal() && q[i].ts_ack < (
        #[trigger] q[j]).ts_req
}

/// Whether `span` may be submitted after the spans of `q`: it starts after the
/// last of them ended, a Resumed marker answers a Stopped one, and nothing but
/// a Resumed marker follows a Stopped one.
pub open spec fn may_follow(q: Seq<OpSpan>, span: OpSpan) -> bool {
    &&& span.inputs is Resumed ==> q.len() > 0
    &&& q.len() > 0 ==> {
        &&& q.last().ts_ack < span.ts_req
        &&& if span.inputs is Resumed {
            q.last().inputs is Stopped
        } else {
            q.last().normal()
        }
    }
}

/// The spans of `q` after `span` is submitted: it joins them, except that a
/// Resumed marker takes away the Stopped marker it answers instead.
pub open spec fn submit(q: Seq<OpSpan>, span: OpSpan) -> Seq<OpSpan> {
    if span.inputs is Resumed {
        q.drop_last()
    } else {
        q.push(span)
    }
}

/// The mathematical content of a possibility.
pub struct PossibilityView {
    /// What the register holds after the history so far.
    pub value: RegisterState,
    /// For each node, in submission order, the spans not yet placed.
    pub queues: Seq<Seq<OpSpan>>,
    /// The linear history so far: each span with the node that submitted it.
    pub lineage: Seq<(Node, OpSpan)>,
}

impl PossibilityView {
    /// The hypothesis before anything was fed: nothing stored, nothing queued.
    pub open spec fn initial(nodes: nat) -> Self {
        PossibilityView {
            value: RegisterState::Nil,
            queues: Seq::new(nodes, |n: int| Seq::<OpSpan>::empty()),
            lineage: Seq::empty(),
        }
    }

    /// Every queue obeys [`queue_inv`].
    pub open spec fn inv(self) -> bool {
        forall|n: int| 0 <= n < self.queues.len() ==> queue_inv(#[trigger] self.queues[n])
    }

    /// Node `n` exists and has a span queued.
    pub open spec fn has_head(self, n: int) -> bool {
        0 <= n < self.queues.len() && self.queues[n].len() > 0
    }

    /// The oldest span queued for node `n`.
    pub open spec fn head(self, n: int) -> OpSpan {
        self.queues[n][0]
    }

    /// Node `n` has a normal operation at the head of its queue.
    pub open spec fn normal_head(self, n: int) -> bool {
        self.has_head(n) && self.head(n).normal()
    }

    /// A hypothesis can take a step once every node has something queued and
    /// at least one queue head is a normal operation.
    pub open spec fn can_step(self) -> bool {
        &&& forall|n: int| 0 <= n < self.queues.len() ==> self.has_head(n)
        &&& exists|n: int| self.normal_head(n)
    }

    /// `m` is the earliest acknowledgement among the normal queue heads.
    pub open spec fn is_min_ack(self, m: int) -> bool {
        &&& exists|n: int| self.normal_head(n) && self.head(n).ts_ack == m
        &&& forall|n: int| self.normal_head(n) ==> m <= self.head(n).ts_ack
    }

    /// The head of node `n` may come next: it is a normal operation that was
    /// requested before any normal head was acknowledged, so none of them is
    /// known to have finished before it began.
    pub open spec fn eligible(self, n: int) -> bool {
        &&& self.normal_head(n)
        &&& forall|k: int| self.normal_head(k) ==> self.head(n).ts_req < self.head(k).ts_ack
    }

    /// Moves the head of node `n` to the end of the history and sets what the
    /// register holds to `value`.
    pub open spec fn advance(self, n: int, value: RegisterState) -> Self {
        PossibilityView {
            value,
            queues: self.queues.update(n, self.queues[n].drop_first()),
            lineage: self.lineage.push((n as Node, self.head(n))),
        }
    }

    /// Places the head of node `n` next in the history. A Put stores its
    /// value, a Fail leaves the register uncertain, and a Get changes nothing
    /// but must be consistent with what the register holds: if it is not,
    /// there is no such hypothesis.
    pub open spec fn apply_head(self, n: int) -> Option<Self> {
        let head = self.head(n);
        match head.inputs {
            OpInputs::Put { val } => Some(self.advance(n, RegisterState::Known(val))),
            OpInputs::Get => if self.value.allows(head.observed()) {
                Some(self.advance(n, self.value))
            } else {
                None
            },
            OpInputs::Fail => Some(self.advance(n, RegisterState::Uncertain)),
            _ => None,
        }
    }

    /// Placing the head of node `n` next is a step of the search.
    pub open spec fn advances(self, n: int) -> bool {
        self.can_step() && self.eligible(n) && self.apply_head(n) is Some
    }

    /// The hypothesis reached by the step at node `n`.
    pub open spec fn successor(self, n: int) -> Self {
        self.apply_head(n)->Some_0
    }

    /// `next` is reached from this hypothesis by one step of the search.
    pub open spec fn steps_to(self, next: Self) -> bool {
        exists|n: int| self.advances(n) && self.successor(n) == next
    }

    /// Whether node `n` may submit `span` next, going by what it has queued.
    pub open spec fn admits(self, n: int, span: OpSpan) -> bool {
        may_follow(self.queues[n], span)
    }

    /// Node `n` submits `span`.
    pub open spec fn append(self, n: int, span: OpSpan) -> Self {
        PossibilityView { queues: self.queues.update(n, submit(self.queues[n], span)), ..self }
    }

    /// How many spans each node still has queued.
    pub open spec fn lens(self) -> Seq<nat> {
        Seq::new(self.queues.len(), |n: int| self.queues[n].len())
    }

    /// What decides whether two hypotheses are merged: what the register
    /// holds, and how many spans each node still has queued.
    pub open spec fn key(self) -> (RegisterState, Seq<nat>) {
        (self.value, self.lens())
    }

    /// Two hypotheses are merged when they have the same key. Neither the
    /// queued spans themselves nor the histories are compared.
    pub open spec fn same_key(self, other: Self) -> bool {
        self.key() == other.key()
    }

    /// Two hypotheses have the same future when they agree on what the
    /// register holds and on the queued spans themselves.
    pub open spec fn same_state(self, other: Self) -> bool {
        self.value == other.value && self.queues == other.queues
    }

    /// For each node, the number of spans it has queued, as text.
    pub open spec fn lens_text(self) -> Seq<Seq<char>> {
        Seq::new(self.queues.len(), |n: int| decimal(self.queues[n].len()))
    }

    /// For each entry of the history, the node, a hyphen and the span.
    pub open spec fn lineage_text(self) -> Seq<Seq<char>> {
        Seq::new(
            self.lineage.len(),
            |i: int| decimal(self.lineage[i].0 as nat) + "-"@ + self.lineage[i].1.text(),
        )
    }

    /// The hypothesis as text: what the register holds, the queue lengths
    /// between `<|[` and `]`, and the history, each entry after a `~`.
    pub open spec fn text(self) -> Seq<char> {
        self.value.text() + "<|["@ + joined(self.lens_text(), ","@) + "]~"@ + joined(
            self.lineage_text(),
            "~"@,
        )
    }

    /// A step at node `n` takes the head off that node's queue, appends it to
    /// the history and leaves the other queues alone.
    pub proof fn lemma_successor(self, n: int)
        requires
            self.normal_head(n),
            self.apply_head(n) is Some,
        ensures
            self.successor(n).queues == self.queues.update(n, self.queues[n].drop_first()),
            self.successor(n).lineage == self.lineage.push((n as Node, self.head(n))),
            self.successor(n).lens() == self.lens().update(n, (self.queues[n].len() - 1) as nat),
    {
    }

    /// `found` holds the hypotheses reached by the steps at the nodes below
    /// `upto`, and no others; no two of them would be merged.
    pub open spec fn steps_upto(self, upto: int, found: Seq<Self>) -> bool {
        &&& forall|j: int|
            0 <= j < found.len() ==> exists|n: int|
                0 <= n < upto && #[trigger] self.advances(n) && #[trigger] found[j]
                    == self.successor(n)
        &&& forall|n: int| 0 <= n < upto && #[trigger] self.advances(n) ==> found.contains(
            self.successor(n),
        )
        &&& distinct_keys(found)
    }

    /// Steps at different nodes lead to hypotheses that would not be merged:
    /// each has taken a span off another queue.
    pub proof fn lemma_successors_differ(self, k: int, n: int)
        requires
            self.normal_head(k),
            self.normal_head(n),
            self.apply_head(k) is Some,
            self.apply_head(n) is Some,
            k != n,
        ensures
            !self.successor(k).same_key(self.successor(n)),
    {
        self.lemma_successor(k);
        self.lemma_successor(n);
        assert(self.successor(k).lens()[n] != self.successor(n).lens()[n]);
    }

    /// Looking at node `n` after the nodes below it: its head is taken if it
    /// is a normal operation requested before the earliest acknowledgement
    /// `m`, and if the register allows it.
    pub proof fn lemma_steps_upto_next(self, n: int, m: int, before: Seq<Self>, after: Seq<Self>)
        requires
            self.can_step(),
            self.is_min_ack(m),
            0 <= n < self.queues.len(),
            self.steps_upto(n, before),
            after == if self.head(n).normal() && self.head(n).ts_req < m && self.apply_head(
                n,
            ) is Some {
                before.push(self.successor(n))
            } else {
                before
            },
        ensures
            self.steps_upto(n + 1, after),
    {
        if self.advances(n) {
            assert(after[before.len() as int] == self.successor(n));
            assert forall|i: int, j: int| 0 <= i < j < after.len() implies !(
            #[trigger] after[i]).same_key(#[trigger] after[j]) by {
                if j == before.len() {
                    let k = choose|k: int|
                        0 <= k < n && #[trigger] self.advances(k) && before[i] == self.successor(k);
                    self.lemma_successors_differ(k, n);
                }
            }
        }
        assert forall|k: int| 0 <= k < n + 1 && #[trigger] self.advances(k) implies after.contains(
            self.successor(k),
        ) by {
            if k < n {
                let j = choose|j: int| 0 <= j < before.len() && before[j] == self.successor(k);
                assert(after[j] == self.successor(k));
            }
        }
    }

    /// Once every node has been looked at, all the successors are found.
    pub proof fn lemma_steps_upto_all(self, found: Seq<Self>)
        requires
            self.steps_upto(self.queues.len() as int, found),
        ensures
            lists_successors(self, found),
            distinct_keys(found),
    {
    }

    /// A step keeps every queue in order.
    pub proof fn lemma_successor_inv(self, n: int)
        requires
            self.inv(),
            self.normal_head(n),
            self.apply_head(n) is Some,
        ensures
            self.successor(n).inv(),
    {
        self.lemma_successor(n);
    }

    /// Submitting a span that the node's queue admits keeps every queue in
    /// order.
    pub proof fn lemma_append_inv(self, n: int, span: OpSpan)
        requires
            self.inv(),
            0 <= n < self.queues.len(),
            span.wf(),
            self.admits(n, span),
        ensures
            self.append(n, span).inv(),
    {
    }

    /// The earliest acknowledgement decides which heads may come next: a
    /// normal head is eligible exactly when it was requested before it.
    pub proof fn lemma_eligible_before_min_ack(self, n: int, m: int)
        requires
            self.is_min_ack(m),
            self.normal_head(n),
        ensures
            self.eligible(n) <==> self.head(n).ts_req < m,
    {
    }

    /// A failed operation is a wildcard. Placing a Fail always succeeds and
    /// leaves the register uncertain; while it is uncertain, a Get is placed
    /// whatever it observed, and the register stays uncertain.
    pub proof fn lemma_fail_is_wildcard(self, n: int)
        requires
            self.has_head(n),
        ensures
            self.head(n).inputs is Fail ==> self.apply_head(n) is Some && self.successor(
                n,
            ).value is Uncertain,
            self.head(n).inputs is Get && self.value is Uncertain ==> self.apply_head(n) is Some
                && self.successor(n).value is Uncertain,
    {
    }

    /// While the register is certain, a Get is placed exactly when it
    /// observed what the register holds, and it changes nothing there.
    pub proof fn lemma_certain_get_must_match(self, n: int)
        requires
            self.has_head(n),
            self.head(n).inputs is Get,
            !(self.value is Uncertain),
        ensures
            self.apply_head(n) is Some <==> RegisterState::observed(self.head(n).observed())
                == self.value,
            self.apply_head(n) is Some ==> self.successor(n).value == self.value,
    {
    }

    /// A Stopped marker followed by the Resumed marker that answers it
    /// leaves the hypothesis exactly as it was.
    pub proof fn lemma_stop_resume_cancels(self, n: int, stop: OpSpan, resume: OpSpan)
        requires
            0 <= n < self.queues.len(),
            stop.inputs is Stopped,
            resume.inputs is Resumed,
        ensures
            self.append(n, stop).admits(n, resume) <==> stop.ts_ack < resume.ts_req,
            self.append(n, stop).append(n, resume) == self,
    {
        let q = self.queues[n];
        assert(q.push(stop).drop_last() =~= q);
        assert(self.append(n, stop).append(n, resume).queues =~= self.queues);
    }

    /// A Resumed marker is admitted only where a Stopped marker is the last
    /// span queued.
    pub proof fn lemma_resume_needs_stop(self, n: int, resume: OpSpan)
        requires
            resume.inputs is Resumed,
            self.admits(n, resume),
        ensures
            self.queues[n].len() > 0,
            self.queues[n].last().inputs is Stopped,
    {
    }

    /// A Resumed marker sets nothing in motion: a hypothesis that cannot step
    /// still cannot once the marker it admits is submitted.
    pub proof fn lemma_resume_keeps_blocked(self, n: int, resume: OpSpan)
        requires
            0 <= n < self.queues.len(),
            resume.inputs is Resumed,
            self.admits(n, resume),
            !self.can_step(),
        ensures
            !self.append(n, resume).can_step(),
    {
        let next = self.append(n, resume);
        if next.can_step() {
            assert forall|k: int| 0 <= k < self.queues.len() implies self.has_head(k) by {
                assert(next.has_head(k));
            }
            let k = choose|k: int| next.normal_head(k);
            assert(self.normal_head(k));
        }
    }
}

/// `successors` holds the hypotheses that `from` steps to, and no others.
pub open spec fn lists_successors(from: PossibilityView, successors: Seq<PossibilityView>) -> bool {
    &&& forall|j: int| 0 <= j < successors.len() ==> from.steps_to(#[trigger] successors[j])
    &&& forall|w: PossibilityView| #[trigger] from.steps_to(w) ==> successors.contains(w)
}

/// No two hypotheses of the collection would be merged.
pub open spec fn distinct_keys(vs: Seq<PossibilityView>) -> bool {
    forall|i: int, j: int| 0 <= i < j < vs.len() ==> !(#[trigger] vs[i]).same_key(#[trigger] vs[j])
}

} // verus!
