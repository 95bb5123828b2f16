//! The search that a fed span sets off, stated over hypotheses as values.
//!
//! A path names, step by step, the node whose queue head is placed next. The
//! hypotheses that stay alive are those at the end of a path on which no
//! further step is possible.

use crate::hypothesis::{distinct_keys, PossibilityView, RegisterState};
use vstd::prelude::*;

verus! {

impl PossibilityView {
    /// Every step of `path` is one the search takes, begun from here.
    pub open spec fn legal(self, path: Seq<int>) -> bool
        decreases path.len(),
    {
        path.len() > 0 ==> self.advances(path[0]) && self.successor(path[0]).legal(
            path.drop_first(),
        )
    }

    /// The hypothesis at the end of `path`, begun from here.
    pub open spec fn run(self, path: Seq<int>) -> Self
        decreases path.len(),
    {
        if path.len() == 0 {
            self
        } else {
            self.successor(path[0]).run(path.drop_first())
        }
    }

    /// The search gets from here to `end`.
    pub open spec fn reaches(self, end: Self) -> bool {
        exists|path: Seq<int>| self.legal(path) && self.run(path) == end
    }

    /// The search gets from here to `end` and can go no further.
    pub open spec fn outcome(self, end: Self) -> bool {
        self.reaches(end) && !end.can_step()
    }

    /// A hypothesis that cannot step is the end of every path from it.
    pub proof fn lemma_blocked_run(self, path: Seq<int>)
        requires
            !self.can_step(),
            self.legal(path),
        ensures
            path.len() == 0,
            self.run(path) == self,
    {
    }

    /// A legal path can be extended by a step from its end.
    pub proof fn lemma_run_push(self, path: Seq<int>, n: int)
        requires
            self.legal(path),
            self.run(path).advances(n),
        ensures
            self.legal(path.push(n)),
            self.run(path.push(n)) == self.run(path).successor(n),
        decreases path.len(),
    {
        let longer = path.push(n);
        if path.len() == 0 {
            assert(self.successor(n).legal(longer.drop_first()));
            assert(self.successor(n).run(longer.drop_first()) == self.successor(n));
        } else {
            assert(longer.drop_first() =~= path.drop_first().push(n));
            self.successor(path[0]).lemma_run_push(path.drop_first(), n);
        }
    }

    /// A hypothesis that cannot step is its own and only outcome.
    pub proof fn lemma_outcome_blocked(self, end: Self)
        requires
            !self.can_step(),
        ensures
            self.outcome(end) <==> end == self,
    {
        if end == self {
            assert(self.run(Seq::<int>::empty()) == self);
        }
    }

    /// The outcomes of a hypothesis that can step are the outcomes of its
    /// successors.
    pub proof fn lemma_outcome_step(self, end: Self)
        requires
            self.can_step(),
        ensures
            self.outcome(end) <==> exists|n: int| #[trigger]
                self.advances(n) && self.successor(n).outcome(end),
    {
        if self.outcome(end) {
            let path = choose|path: Seq<int>| self.legal(path) && self.run(path) == end;
            assert(self.successor(path[0]).reaches(end)) by {
                assert(self.successor(path[0]).legal(path.drop_first()));
            }
        }
        if exists|n: int| #[trigger] self.advances(n) && self.successor(n).outcome(end) {
            let n = choose|n: int| #[trigger] self.advances(n) && self.successor(n).outcome(end);
            let via = self.successor(n);
            let rest = choose|rest: Seq<int>| via.legal(rest) && via.run(rest) == end;
            let path = seq![n] + rest;
            assert(path.drop_first() =~= rest);
            assert(self.run(path) == end);
        }
    }

    /// What a step may do depends only on the register and the queues, and so
    /// does the state it leads to.
    pub proof fn lemma_same_state_step(self, other: Self, n: int)
        requires
            self.same_state(other),
        ensures
            self.can_step() == other.can_step(),
            self.advances(n) == other.advances(n),
            self.advances(n) ==> self.successor(n).same_state(other.successor(n)),
    {
        assert(forall|k: int| self.has_head(k) == other.has_head(k));
        assert(forall|k: int| self.normal_head(k) == other.normal_head(k));
    }

    /// Hypotheses with the same state allow the same paths, which lead to the
    /// same state again.
    pub proof fn lemma_same_state_run(self, other: Self, path: Seq<int>)
        requires
            self.same_state(other),
        ensures
            self.legal(path) == other.legal(path),
            self.legal(path) ==> self.run(path).same_state(other.run(path)),
        decreases path.len(),
    {
        if path.len() > 0 {
            self.lemma_same_state_step(other, path[0]);
            if self.advances(path[0]) {
                self.successor(path[0]).lemma_same_state_run(
                    other.successor(path[0]),
                    path.drop_first(),
                );
            }
        }
    }
}

/// Some seed reaches `end`.
pub open spec fn derives(seeds: Seq<PossibilityView>, end: PossibilityView) -> bool {
    exists|i: int| 0 <= i < seeds.len() && (#[trigger] seeds[i]).reaches(end)
}

/// Some member of `set` has the state of `w`.
pub open spec fn covers(set: Seq<PossibilityView>, w: PossibilityView) -> bool {
    exists|j: int| 0 <= j < set.len() && (#[trigger] set[j]).same_state(w)
}

/// No member of `set` can step.
pub open spec fn all_blocked(set: Seq<PossibilityView>) -> bool {
    forall|k: int| 0 <= k < set.len() ==> !(#[trigger] set[k]).can_step()
}

/// `live` is what the search leaves of `seeds`: every member of `live` is an
/// outcome of some seed, every outcome of a seed has its state in `live`, and
/// no two members of `live` would be merged.
pub open spec fn saturates(seeds: Seq<PossibilityView>, live: Seq<PossibilityView>) -> bool {
    &&& forall|j: int|
        0 <= j < live.len() ==> derives(seeds, #[trigger] live[j]) && !live[j].can_step()
    &&& forall|i: int, end: PossibilityView|
        0 <= i < seeds.len() && #[trigger] seeds[i].outcome(end) ==> exists|j: int|
            0 <= j < live.len() && (#[trigger] live[j]).same_state(end)
    &&& distinct_keys(live)
}

/// The keys of the hypotheses of `set`, in order.
pub open spec fn keys(set: Seq<PossibilityView>) -> Seq<(RegisterState, Seq<nat>)> {
    Seq::new(set.len(), |i: int| set[i].key())
}

/// The search runs until nothing can step: no one of the hypotheses it
/// leaves can step.
pub proof fn lemma_saturated_is_blocked(seeds: Seq<PossibilityView>, live: Seq<PossibilityView>)
    requires
        saturates(seeds, live),
    ensures
        all_blocked(live),
{
}

/// A violation is permanent: from no hypothesis the search leaves none,
/// whatever was fed.
pub proof fn lemma_violation_is_sticky(seeds: Seq<PossibilityView>, live: Seq<PossibilityView>)
    requires
        seeds.len() == 0,
        saturates(seeds, live),
    ensures
        live.len() == 0,
{
    if live.len() > 0 {
        assert(derives(seeds, live[0]));
    }
}

/// Hypotheses that agree on the register and on how many spans each node
/// has queued are one entry: there are as many live hypotheses as there are
/// different keys among them.
pub proof fn lemma_one_hypothesis_per_key(live: Seq<PossibilityView>)
    requires
        distinct_keys(live),
    ensures
        keys(live).no_duplicates(),
        keys(live).to_set().len() == live.len(),
{
    let ks = keys(live);
    ks.unique_seq_to_set();
}

/// Where no seed can step, the search leaves the seeds as they are: all that
/// is left is a seed, and every seed has its state among what is left.
pub proof fn lemma_blocked_seeds_stay(seeds: Seq<PossibilityView>, live: Seq<PossibilityView>)
    requires
        saturates(seeds, live),
        all_blocked(seeds),
    ensures
        forall|j: int| 0 <= j < live.len() ==> seeds.contains(#[trigger] live[j]),
        forall|i: int| 0 <= i < seeds.len() ==> covers(live, #[trigger] seeds[i]),
{
    assert forall|i: int| 0 <= i < seeds.len() implies covers(live, #[trigger] seeds[i]) by {
        seeds[i].lemma_outcome_blocked(seeds[i]);
    }
}

/// The search leaves something of `seeds`: some seed has an outcome.
pub open spec fn survives(seeds: Seq<PossibilityView>) -> bool {
    exists|i: int, end: PossibilityView|
        0 <= i < seeds.len() && #[trigger] seeds[i].outcome(end)
}

/// Something is left after the search exactly when some seed has an
/// outcome.
pub proof fn lemma_saturated_survives(seeds: Seq<PossibilityView>, live: Seq<PossibilityView>)
    requires
        saturates(seeds, live),
    ensures
        live.len() > 0 <==> survives(seeds),
{
    if live.len() > 0 {
        let i = choose|i: int| 0 <= i < seeds.len() && (#[trigger] seeds[i]).reaches(live[0]);
        assert(seeds[i].outcome(live[0]));
    }
}

} // verus!
