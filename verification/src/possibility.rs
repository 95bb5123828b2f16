//! A possibility is one hypothesis about the register's linear history: what
//! the register holds now, which spans each node has submitted that the
//! hypothesis has not placed in the history yet, and the history so far.

use crate::hypothesis::{distinct_keys, lists_successors, PossibilityView, RegisterState};
use crate::operation::{Node, OpInputs, OpResult, OpSpan, Timestamp};
use crate::text::{joined, lemma_joined_push, push_decimal};
use std::collections::VecDeque;
use vstd::prelude::*;
use vstd::std_specs::cmp::PartialEqSpecImpl;
use vstd::string::StringExecFns;

verus! {

/// One hypothesis about the register's linear history.
#[derive(Debug)]
pub struct Possibility {
    /// What the register holds after the history so far.
    current_val: RegisterState,
    /// The linear history that led to `current_val`.
    lineage_history: Vec<(Node, OpSpan)>,
    /// For each node, the spans it submitted that are not yet in the history.
    queued_spans: Vec<VecDeque<OpSpan>>,
}

impl View for Possibility {
    type V = PossibilityView;

    closed spec fn view(&self) -> PossibilityView {
        PossibilityView {
            value: self.current_val,
            queues: Seq::new(self.queued_spans.len() as nat, |n: int| self.queued_spans[n]@),
            lineage: self.lineage_history@,
        }
    }
}

/// The mathematical content of a collection of possibilities.
pub open spec fn views(ps: Seq<Possibility>) -> Seq<PossibilityView> {
    Seq::new(ps.len(), |i: int| ps[i]@)
}

impl Clone for Possibility {
    /// An independent copy: hypotheses never share queues or history.
    fn clone(&self) -> (copy: Self)
        ensures
            copy@ == self@,
    {
        let mut lineage_history: Vec<(Node, OpSpan)> = Vec::new();
        let mut i: usize = 0;
        while i < self.lineage_history.len()
            invariant
                i <= self.lineage_history.len(),
                lineage_history@ == self.lineage_history@.take(i as int),
            decreases self.lineage_history.len() - i,
        {
            lineage_history.push(self.lineage_history[i]);
            i += 1;
        }
        let copy = Possibility {
            current_val: self.current_val,
            lineage_history,
            queued_spans: self.queued_spans.clone(),
        };
        assert(copy@.lineage =~= self@.lineage);
        assert(copy@.queues =~= self@.queues);
        copy
    }
}

impl PartialEq for Possibility {
    /// Two possibilities are equal when they would be merged: they agree on
    /// what the register holds and on how many spans each node has queued.
    /// Neither the queued spans themselves nor the history are compared.
    fn eq(&self, other: &Self) -> (same: bool) {
        if self.current_val != other.current_val {
            return false;
        }
        if self.queued_spans.len() != other.queued_spans.len() {
            assert(self@.lens().len() != other@.lens().len());
            return false;
        }
        let mut n: usize = 0;
        while n < self.queued_spans.len()
            invariant
                n <= self.queued_spans.len(),
                self.queued_spans.len() == other.queued_spans.len(),
                forall|k: int| 0 <= k < n ==> self@.lens()[k] == other@.lens()[k],
            decreases self.queued_spans.len() - n,
        {
            if self.queued_spans[n].len() != other.queued_spans[n].len() {
                assert(self@.lens()[n as int] != other@.lens()[n as int]);
                return false;
            }
            n += 1;
        }
        assert(self@.lens() =~= other@.lens());
        true
    }
}

impl PartialEqSpecImpl for Possibility {
    open spec fn obeys_eq_spec() -> bool {
        true
    }

    open spec fn eq_spec(&self, other: &Self) -> bool {
        self@.same_key(other@)
    }
}

impl Possibility {
    /// The hypothesis before anything was fed, for `num_nodes` nodes.
    pub fn initial(num_nodes: usize) -> (p: Self)
        ensures
            p@ == PossibilityView::initial(num_nodes as nat),
            p@.inv(),
    {
        let mut queued_spans: Vec<VecDeque<OpSpan>> = Vec::new();
        let mut n: usize = 0;
        while n < num_nodes
            invariant
                n <= num_nodes,
                queued_spans.len() == n,
                forall|k: int|
                    0 <= k < n ==> (#[trigger] queued_spans[k])@ == Seq::<OpSpan>::empty(),
            decreases num_nodes - n,
        {
            queued_spans.push(VecDeque::new());
            n += 1;
        }
        let p = Possibility {
            current_val: RegisterState::Nil,
            lineage_history: Vec::new(),
            queued_spans,
        };
        assert(p@.queues =~= PossibilityView::initial(num_nodes as nat).queues);
        p
    }

    /// The number of nodes.
    pub fn num_nodes(&self) -> (n: usize)
        ensures
            n == self@.queues.len(),
    {
        self.queued_spans.len()
    }

    /// What the hypothesis takes the register to hold.
    pub fn current_val(&self) -> (value: RegisterState)
        ensures
            value == self@.value,
    {
        self.current_val
    }

    /// How many spans `node` has queued.
    pub fn queue_len(&self, node: Node) -> (len: usize)
        requires
            node < self@.queues.len(),
        ensures
            len == self@.queues[node as int].len(),
    {
        self.queued_spans[node].len()
    }

    /// The linear history so far: each span with the node that submitted it.
    pub fn lineage(&self) -> (history: &Vec<(Node, OpSpan)>)
        ensures
            history@ == self@.lineage,
    {
        &self.lineage_history
    }

    /// Whether `node` may submit `span` next, going by what it has queued:
    /// the span starts after the last queued one ended, a Resumed marker
    /// answers a queued Stopped one, and nothing else follows a Stopped one.
    pub fn admits(&self, node: Node, span: &OpSpan) -> (ok: bool)
        requires
            node < self@.queues.len(),
        ensures
            ok == self@.admits(node as int, *span),
    {
        let resumed = match span.inputs {
            OpInputs::Resumed => true,
            _ => false,
        };
        let queued = self.queued_spans[node].len();
        if queued == 0 {
            return !resumed;
        }
        let tail = self.queued_spans[node][queued - 1];
        let in_place = if resumed {
            match tail.inputs {
                OpInputs::Stopped => true,
                _ => false,
            }
        } else {
            tail.is_normal()
        };
        tail.ts_ack < span.ts_req && in_place
    }

    /// Node `node` submits `span`: it joins the node's queue, except that a
    /// Resumed marker removes the Stopped marker it answers.
    pub fn append_span(&mut self, node: Node, span: OpSpan)
        requires
            node < old(self)@.queues.len(),
            span.wf(),
            old(self)@.admits(node as int, span),
        ensures
            final(self)@ == old(self)@.append(node as int, span),
            old(self)@.inv() ==> final(self)@.inv(),
    {
        proof {
            if self@.inv() {
                self@.lemma_append_inv(node as int, span);
            }
        }
        match span.inputs {
            OpInputs::Resumed => {
                self.queued_spans[node].pop_back();
            },
            _ => {
                self.queued_spans[node].push_back(span);
            },
        }
        assert(self@.queues =~= old(self)@.append(node as int, span).queues);
    }

    /// Whether the hypothesis can take a step: every node has something
    /// queued and some queue head is a normal operation.
    pub fn can_step(&self) -> (b: bool)
        ensures
            b == self@.can_step(),
    {
        let mut seen_normal: bool = false;
        let mut n: usize = 0;
        while n < self.queued_spans.len()
            invariant
                n <= self.queued_spans.len(),
                forall|k: int| 0 <= k < n ==> self@.has_head(k),
                seen_normal == (exists|k: int| 0 <= k < n && self@.normal_head(k)),
            decreases self.queued_spans.len() - n,
        {
            if self.queued_spans[n].len() == 0 {
                assert(!self@.has_head(n as int));
                return false;
            }
            if self.queued_spans[n][0].is_normal() {
                assert(self@.normal_head(n as int));
                seen_normal = true;
            }
            n += 1;
        }
        seen_normal
    }

    /// Takes every step the hypothesis allows: one successor for each node
    /// whose head may come next and is consistent with the register.
    pub fn step(self) -> (next: Vec<Possibility>)
        requires
            self@.inv(),
            self@.can_step(),
        ensures
            lists_successors(self@, views(next@)),
            forall|j: int| 0 <= j < next.len() ==> (#[trigger] next[j])@.inv(),
            distinct_keys(views(next@)),
    {
        let min_ts_ack = self.min_head_ack();
        let mut next: Vec<Possibility> = Vec::new();
        let mut node: usize = 0;
        while node < self.queued_spans.len()
            invariant
                node <= self.queued_spans.len(),
                self@.inv(),
                self@.can_step(),
                self@.is_min_ack(min_ts_ack as int),
                self@.steps_upto(node as int, views(next@)),
                forall|j: int| 0 <= j < next.len() ==> (#[trigger] next[j])@.inv(),
            decreases self.queued_spans.len() - node,
        {
            let ghost before = views(next@);
            assert(self@.has_head(node as int));
            let head = self.queued_spans[node][0];
            if head.is_normal() && head.ts_req < min_ts_ack {
                // possible candidate as the next operation
                if let Some(new_state) = self.apply_head(node) {
                    next.push(new_state);
                    assert(views(next@) =~= before.push(self@.successor(node as int)));
                }
            }
            proof {
                self@.lemma_steps_upto_next(
                    node as int,
                    min_ts_ack as int,
                    before,
                    views(next@),
                );
            }
            node += 1;
        }
        proof {
            self@.lemma_steps_upto_all(views(next@));
        }
        next
    }

    /// The earliest acknowledgement among the normal queue heads.
    fn min_head_ack(&self) -> (m: Timestamp)
        requires
            self@.can_step(),
        ensures
            self@.is_min_ack(m as int),
    {
        let mut m: Timestamp = Timestamp::MAX;
        let mut n: usize = 0;
        while n < self.queued_spans.len()
            invariant
                n <= self.queued_spans.len(),
                forall|k: int| 0 <= k < self.queued_spans.len() ==> self@.has_head(k),
                forall|k: int| 0 <= k < n && self@.normal_head(k) ==> m <= self@.head(k).ts_ack,
                m == Timestamp::MAX || exists|k: int|
                    0 <= k < n && self@.normal_head(k) && self@.head(k).ts_ack == m,
            decreases self.queued_spans.len() - n,
        {
            assert(self@.has_head(n as int));
            let head = self.queued_spans[n][0];
            if head.is_normal() && head.ts_ack <= m {
                m = head.ts_ack;
                assert(self@.normal_head(n as int) && self@.head(n as int).ts_ack == m);
            }
            n += 1;
        }
        m
    }

    /// Places the head of `node` next in the history, if the hypothesis allows
    /// it: the result is `None` exactly when the head is a Get whose answer
    /// contradicts what the register certainly holds.
    pub fn apply_head(&self, node: Node) -> (next: Option<Self>)
        requires
            self@.inv(),
            self@.normal_head(node as int),
        ensures
            match next {
                Some(p) => self@.apply_head(node as int) == Some(p@) && p@.inv(),
                None => self@.apply_head(node as int) is None,
            },
    {
        proof {
            if self@.apply_head(node as int) is Some {
                self@.lemma_successor_inv(node as int);
            }
        }
        let op = self.queued_spans[node][0];
        match op.inputs {
            OpInputs::Put { val } => Some(self.advance(node, RegisterState::Known(val))),
            OpInputs::Get => match op.result {
                OpResult::Get { val } => {
                    let consistent = match self.current_val {
                        RegisterState::Uncertain => true,
                        RegisterState::Nil => val.is_none(),
                        RegisterState::Known(v) => val == Some(v),
                    };
                    if consistent {
                        Some(self.advance(node, self.current_val))
                    } else {
                        None
                    }
                },
                _ => None,
            },
            OpInputs::Fail => Some(self.advance(node, RegisterState::Uncertain)),
            _ => None,
        }
    }

    /// A copy in which the head of `node` has moved to the end of the history
    /// and the register holds `value`.
    fn advance(&self, node: Node, value: RegisterState) -> (next: Self)
        requires
            self@.has_head(node as int),
        ensures
            next@ == self@.advance(node as int, value),
    {
        let mut next = self.clone();
        let head = next.queued_spans[node][0];
        next.queued_spans[node].pop_front();
        next.lineage_history.push((node, head));
        next.current_val = value;
        assert(next@.queues =~= self@.advance(node as int, value).queues);
        next
    }

    /// Appends the hypothesis as text to `out`.
    pub fn push_text(&self, out: &mut String)
        ensures
            final(out)@ == old(out)@ + self@.text(),
    {
        match self.current_val {
            RegisterState::Known(v) => push_decimal(out, v),
            RegisterState::Nil => out.append("nil"),
            RegisterState::Uncertain => out.append("???"),
        }
        out.append("<|[");
        let ghost start = out@;
        let ghost lens = self@.lens_text();
        let mut n: usize = 0;
        while n < self.queued_spans.len()
            invariant
                n <= self.queued_spans.len(),
                lens == self@.lens_text(),
                out@ == start + joined(lens.take(n as int), ","@),
            decreases self.queued_spans.len() - n,
        {
            if n > 0 {
                out.append(",");
            }
            push_decimal(out, self.queued_spans[n].len() as u64);
            proof {
                lemma_joined_push(lens.take(n as int), ","@, lens[n as int]);
                assert(lens.take(n + 1) =~= lens.take(n as int).push(lens[n as int]));
            }
            n += 1;
        }
        assert(lens.take(n as int) =~= lens);
        out.append("]~");
        let ghost start = out@;
        let ghost entries = self@.lineage_text();
        let mut i: usize = 0;
        while i < self.lineage_history.len()
            invariant
                i <= self.lineage_history.len(),
                entries == self@.lineage_text(),
                out@ == start + joined(entries.take(i as int), "~"@),
            decreases self.lineage_history.len() - i,
        {
            if i > 0 {
                out.append("~");
            }
            push_decimal(out, self.lineage_history[i].0 as u64);
            out.append("-");
            self.lineage_history[i].1.push_text(out);
            proof {
                lemma_joined_push(entries.take(i as int), "~"@, entries[i as int]);
                assert(entries.take(i + 1) =~= entries.take(i as int).push(entries[i as int]));
            }
            i += 1;
        }
        assert(entries.take(i as int) =~= entries);
    }

    /// The hypothesis as text, such as `8<|[0,1]~0-Put(8)`.
    pub fn to_string(&self) -> (s: String)
        ensures
            s@ == self@.text(),
    {
        let mut s = String::new();
        self.push_text(&mut s);
        s
    }
}

} // verus!
