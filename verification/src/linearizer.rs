//! The online checker: it holds the hypotheses that are still alive and, for
//! each span fed, extends them and searches on until none can step.

use crate::frontier::{
    all_anchored, all_ready, expanded, inserted, is_rest, lemma_expand_one, lemma_search_begins,
    lemma_search_ends, lemma_search_round, lemma_settle_one, lemma_submit_to_all,
    lemma_successors_anchored, markers_last, record, search_inv, settled, total_len,
};
use crate::hypothesis::{distinct_keys, may_follow, PossibilityView};
use crate::operation::{Node, OpSpan};
use crate::possibility::{views, Possibility};
use crate::search::{all_blocked, lemma_saturated_survives, saturates, survives};
use vstd::prelude::*;
use vstd::string::StringExecFns;

verus! {

/// An online linearizability checker for one register shared by a fixed
/// number of nodes.
pub struct Linearizer {
    /// Number of nodes.
    num_nodes: usize,
    /// The hypotheses that are still alive. None of them can step, and no two
    /// of them would be merged.
    possibilities: Vec<Possibility>,
    /// What each node has submitted while a hypothesis was alive, without the
    /// Stopped markers that were answered.
    fed: Ghost<Seq<Seq<OpSpan>>>,
}

impl Linearizer {
    /// The number of nodes.
    pub closed spec fn nodes(&self) -> nat {
        self.num_nodes as nat
    }

    /// The hypotheses that are still alive.
    pub closed spec fn live(&self) -> Seq<PossibilityView> {
        views(self.possibilities@)
    }

    /// What each node has submitted while a hypothesis was alive, in order,
    /// without the Stopped markers that a Resumed marker answered.
    pub closed spec fn fed(&self) -> Seq<Seq<OpSpan>> {
        self.fed@
    }

    /// The history fed so far admits no linear order: no hypothesis is left.
    pub open spec fn violated(&self) -> bool {
        self.live().len() == 0
    }

    /// The checker's invariant: there is at least one node; among the spans
    /// fed by a node a Stopped marker can only be the last; every live
    /// hypothesis has its queues in order, grew from the spans fed, cannot
    /// step, and would not be merged with another.
    pub open spec fn wf(&self) -> bool {
        &&& self.nodes() > 0
        &&& self.fed().len() == self.nodes()
        &&& forall|n: int| 0 <= n < self.fed().len() ==> markers_last(#[trigger] self.fed()[n])
        &&& all_anchored(self.live(), self.fed())
        &&& all_blocked(self.live())
        &&& distinct_keys(self.live())
    }

    /// Whether `node` may submit `span` next: every live hypothesis admits
    /// it after what the node has queued there.
    pub open spec fn accepts(&self, node: int, span: OpSpan) -> bool {
        forall|k: int| 0 <= k < self.live().len() ==> (#[trigger] self.live()[k]).admits(node, span)
    }

    /// The live hypotheses, each extended by `span` from `node`.
    pub open spec fn seeds(&self, node: int, span: OpSpan) -> Seq<PossibilityView> {
        Seq::new(self.live().len(), |i: int| self.live()[i].append(node, span))
    }

    /// The checker as text.
    pub open spec fn text(&self) -> Seq<char> {
        "Possibilities {\n"@ + lines(self.live()) + "}"@
    }

    /// A span that may follow what its node has fed is accepted; once the
    /// history is violated, every span is.
    pub proof fn lemma_accepts_what_may_follow(&self, node: int, span: OpSpan)
        requires
            self.wf(),
            0 <= node < self.nodes(),
            !self.violated() ==> may_follow(self.fed()[node], span),
        ensures
            self.accepts(node, span),
    {
        assert forall|k: int| 0 <= k < self.live().len() implies (#[trigger] self.live()[k]).admits(
            node,
            span,
        ) by {
            self.live()[k].lemma_anchored_admits(node, span, self.fed());
        }
    }

    /// A Resumed marker sets off no step: once every live hypothesis has
    /// taken it, still none of them can step.
    pub proof fn lemma_resume_takes_no_step(&self, node: int, resume: OpSpan)
        requires
            self.wf(),
            0 <= node < self.nodes(),
            resume.inputs is Resumed,
            self.accepts(node, resume),
        ensures
            all_blocked(self.seeds(node, resume)),
    {
        assert forall|k: int| 0 <= k < self.live().len() implies !(#[trigger] self.seeds(
            node,
            resume,
        )[k]).can_step() by {
            self.live()[k].lemma_resume_keeps_blocked(node, resume);
        }
    }

    /// A checker for `num_nodes` nodes, with the one hypothesis that nothing
    /// has happened yet.
    pub fn new(num_nodes: usize) -> (lin: Self)
        requires
            num_nodes != 0,
        ensures
            lin.wf(),
            lin.nodes() == num_nodes,
            lin.live() == seq![PossibilityView::initial(num_nodes as nat)],
            lin.fed() == Seq::new(num_nodes as nat, |n: int| Seq::<OpSpan>::empty()),
    {
        let mut possibilities: Vec<Possibility> = Vec::new();
        possibilities.push(Possibility::initial(num_nodes));
        let lin = Linearizer {
            num_nodes,
            possibilities,
            fed: Ghost(Seq::new(num_nodes as nat, |n: int| Seq::<OpSpan>::empty())),
        };
        proof {
            let first = PossibilityView::initial(num_nodes as nat);
            assert forall|n: int| 0 <= n < lin.fed().len() implies is_rest(
                #[trigger] first.queues[n],
                lin.fed()[n],
            ) by {
                assert(first.queues[n] =~= lin.fed()[n].skip(0));
            }
        }
        lin
    }

    /// The number of nodes.
    pub fn num_nodes(&self) -> (n: usize)
        ensures
            n == self.nodes(),
    {
        self.num_nodes
    }

    /// The hypotheses that are still alive.
    pub fn possibilities(&self) -> (live: &Vec<Possibility>)
        ensures
            views(live@) == self.live(),
    {
        &self.possibilities
    }

    /// Whether `feed_span` may be called with `node` and `span`: the node
    /// exists, the span is well formed, and every live hypothesis admits it.
    pub fn admits(&self, node: Node, span: &OpSpan) -> (ok: bool)
        requires
            self.wf(),
        ensures
            ok == (node < self.nodes() && span.wf() && self.accepts(node as int, *span)),
    {
        if node >= self.num_nodes || !span.is_well_formed() {
            return false;
        }
        let mut i: usize = 0;
        while i < self.possibilities.len()
            invariant
                i <= self.possibilities.len(),
                node < self.num_nodes,
                self.wf(),
                forall|k: int|
                    0 <= k < i ==> (#[trigger] self.live()[k]).admits(node as int, *span),
            decreases self.possibilities.len() - i,
        {
            assert(self.live()[i as int].anchored(self.fed()));
            if !self.possibilities[i].admits(node, span) {
                return false;
            }
            i += 1;
        }
        true
    }

    /// Feeds the span that `node` submitted to every live hypothesis, then
    /// searches on until no hypothesis can step. Returns whether a hypothesis
    /// is left: `false` means that the history fed so far has no linear
    /// order, and then the checker changes no more.
    pub fn feed_span(&mut self, node: Node, span: OpSpan) -> (alive: bool)
        requires
            old(self).wf(),
            node < old(self).nodes(),
            span.wf(),
            old(self).accepts(node as int, span),
        ensures
            final(self).wf(),
            final(self).nodes() == old(self).nodes(),
            alive == !final(self).violated(),
            alive == survives(old(self).seeds(node as int, span)),
            old(self).violated() ==> final(self).violated(),
            all_blocked(final(self).live()),
            saturates(old(self).seeds(node as int, span), final(self).live()),
            final(self).fed() == if old(self).violated() {
                old(self).fed()
            } else {
                record(old(self).fed(), node as int, span)
            },
    {
        if self.possibilities.len() == 0 {
            proof {
                lemma_saturated_survives(self.seeds(node as int, span), self.live());
            }
            return false;
        }
        let ghost seeds = self.seeds(node as int, span);
        let ghost log = record(self.fed@, node as int, span);

        // every live hypothesis takes the span
        let mut i: usize = 0;
        while i < self.possibilities.len()
            invariant
                i <= self.possibilities.len(),
                self.possibilities.len() == seeds.len(),
                self.num_nodes == old(self).num_nodes,
                self.fed@ == old(self).fed@,
                node < self.num_nodes,
                span.wf(),
                old(self).wf(),
                old(self).accepts(node as int, span),
                seeds == old(self).seeds(node as int, span),
                forall|k: int| 0 <= k < i ==> (#[trigger] self.possibilities[k])@ == seeds[k],
                forall|k: int|
                    i <= k < self.possibilities.len() ==> (#[trigger] self.possibilities[k])@
                        == old(self).live()[k],
            decreases self.possibilities.len() - i,
        {
            self.possibilities[i].append_span(node, span);
            i += 1;
        }
        proof {
            lemma_submit_to_all(old(self).live(), old(self).fed(), node as int, span, seeds);
            assert(views(self.possibilities@) =~= seeds);
        }

        // those that can step now wait for the search, the others stay
        let mut all: Vec<Possibility> = Vec::new();
        std::mem::swap(&mut self.possibilities, &mut all);
        let mut pending: Vec<Possibility> = Vec::new();
        settle(all, &mut pending, &mut self.possibilities, Ghost(log));
        self.fed = Ghost(log);
        let ghost mut bound: nat = total_len(log);
        proof {
            lemma_search_begins(seeds, log, views(pending@), views(self.possibilities@));
        }

        // the search: round after round, until nothing can step
        while pending.len() > 0
            invariant
                self.num_nodes == old(self).num_nodes,
                self.fed@ == log,
                search_inv(seeds, log, views(pending@), views(self.possibilities@), bound),
            decreases bound,
        {
            let ghost before = views(pending@);
            let ghost blocked_before = views(self.possibilities@);
            pending = expand(pending, &mut self.possibilities, Ghost(log));
            proof {
                lemma_search_round(
                    seeds,
                    log,
                    before,
                    blocked_before,
                    views(pending@),
                    views(self.possibilities@),
                    bound,
                );
                bound = (bound - 1) as nat;
            }
        }
        proof {
            lemma_search_ends(seeds, log, views(pending@), views(self.possibilities@), bound);
            lemma_saturated_survives(seeds, views(self.possibilities@));
        }
        self.possibilities.len() > 0
    }

    /// The checker as text: a heading, one line for each live hypothesis,
    /// and a closing brace.
    pub fn to_string(&self) -> (s: String)
        ensures
            s@ == self.text(),
    {
        let mut s = String::new();
        s.append("Possibilities {\n");
        let ghost start = s@;
        let mut i: usize = 0;
        while i < self.possibilities.len()
            invariant
                i <= self.possibilities.len(),
                s@ == start + lines(self.live().take(i as int)),
            decreases self.possibilities.len() - i,
        {
            s.append("  ");
            self.possibilities[i].push_text(&mut s);
            s.append("\n");
            proof {
                let shown = self.live().take(i + 1);
                assert(shown.drop_last() =~= self.live().take(i as int));
            }
            i += 1;
        }
        assert(self.live().take(i as int) =~= self.live());
        s.append("}");
        s
    }
}

impl Clone for Linearizer {
    /// An independent checker in the same state.
    fn clone(&self) -> (copy: Self)
        ensures
            copy.nodes() == self.nodes(),
            copy.live() == self.live(),
            copy.fed() == self.fed(),
            copy.wf() == self.wf(),
    {
        let copy = Linearizer {
            num_nodes: self.num_nodes,
            possibilities: self.possibilities.clone(),
            fed: Ghost(self.fed@),
        };
        assert(copy.live() =~= self.live());
        copy
    }
}

/// One indented line of text for each hypothesis.
pub open spec fn lines(set: Seq<PossibilityView>) -> Seq<char>
    decreases set.len(),
{
    if set.len() == 0 {
        Seq::empty()
    } else {
        lines(set.drop_last()) + "  "@ + set.last().text() + "\n"@
    }
}

/// Adds `p` to `set` unless a member of `set` would be merged with it; the
/// member that came first stays.
fn insert_unique(set: &mut Vec<Possibility>, p: Possibility)
    requires
        distinct_keys(views(old(set)@)),
    ensures
        distinct_keys(views(final(set)@)),
        inserted(views(old(set)@), views(final(set)@), p@),
{
    let mut i: usize = 0;
    while i < set.len()
        invariant
            i <= set.len(),
            set@ == old(set)@,
            distinct_keys(views(set@)),
            forall|k: int| 0 <= k < i ==> !(#[trigger] views(set@)[k]).same_key(p@),
        decreases set.len() - i,
    {
        if set[i] == p {
            assert(views(set@)[i as int].same_key(p@));
            return ;
        }
        i += 1;
    }
    let ghost before = views(set@);
    set.push(p);
    proof {
        assert(views(set@) =~= before.push(p@));
        assert(views(set@)[before.len() as int].same_key(p@));
    }
}

/// Sorts the hypotheses of `from` into `ready`, if they can step, and
/// `blocked`, if they cannot, merging each with a member that has its state.
fn settle(
    from: Vec<Possibility>,
    ready: &mut Vec<Possibility>,
    blocked: &mut Vec<Possibility>,
    Ghost(fed): Ghost<Seq<Seq<OpSpan>>>,
)
    requires
        all_anchored(views(from@), fed),
        all_anchored(views(old(ready)@), fed),
        all_anchored(views(old(blocked)@), fed),
        distinct_keys(views(old(ready)@)),
        distinct_keys(views(old(blocked)@)),
    ensures
        settled(
            views(from@),
            from.len() as int,
            fed,
            views(old(ready)@),
            views(final(ready)@),
            views(old(blocked)@),
            views(final(blocked)@),
        ),
{
    let ghost all = views(from@);
    for p in it: from
        invariant
            views(it.seq()) == all,
            all_anchored(all, fed),
            settled(
                all,
                it.index() as int,
                fed,
                views(old(ready)@),
                views(ready@),
                views(old(blocked)@),
                views(blocked@),
            ),
    {
        let ghost ready_before = views(ready@);
        let ghost blocked_before = views(blocked@);
        if p.can_step() {
            insert_unique(ready, p);
        } else {
            insert_unique(blocked, p);
        }
        proof {
            lemma_settle_one(
                all,
                it.index() as int,
                fed,
                views(old(ready)@),
                ready_before,
                views(ready@),
                views(old(blocked)@),
                blocked_before,
                views(blocked@),
            );
        }
    }
}

/// One round of the search: every hypothesis of `pending` takes every step
/// it allows. The successors that can step again are returned; those that
/// cannot join `blocked`.
fn expand(
    pending: Vec<Possibility>,
    blocked: &mut Vec<Possibility>,
    Ghost(fed): Ghost<Seq<Seq<OpSpan>>>,
) -> (next: Vec<Possibility>)
    requires
        all_anchored(views(pending@), fed),
        all_ready(views(pending@)),
        all_anchored(views(old(blocked)@), fed),
        distinct_keys(views(old(blocked)@)),
    ensures
        expanded(
            views(pending@),
            pending.len() as int,
            fed,
            views(next@),
            views(old(blocked)@),
            views(final(blocked)@),
        ),
{
    let ghost all = views(pending@);
    let mut next: Vec<Possibility> = Vec::new();
    for p in it: pending
        invariant
            views(it.seq()) == all,
            all_anchored(all, fed),
            all_ready(all),
            expanded(
                all,
                it.index() as int,
                fed,
                views(next@),
                views(old(blocked)@),
                views(blocked@),
            ),
    {
        let ghost next_before = views(next@);
        let ghost blocked_before = views(blocked@);
        let successors = p.step();
        proof {
            lemma_successors_anchored(all[it.index() as int], views(successors@), fed);
        }
        settle(successors, &mut next, blocked, Ghost(fed));
        proof {
            lemma_expand_one(
                all,
                it.index() as int,
                fed,
                views(successors@),
                next_before,
                views(next@),
                views(old(blocked)@),
                blocked_before,
                views(blocked@),
            );
        }
    }
    next
}

} // verus!
