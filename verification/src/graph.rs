//! The weighted graph that a search explores, as a mathematical object.
//!
//! A graph is given by its start state, the states that count as goals, and
//! its weighted edges.  States carry an identity (see [`Node`]); two states
//! of one identity stand for the same place in the graph.

use crate::dijkstra::Node;
use vstd::prelude::*;

verus! {

/// A weighted graph over states of type `N`, with a start state and a set of
/// goal states.
#[verifier::reject_recursive_types(N)]
pub struct Graph<N> {
    /// The state from which every walk sets out.
    pub start: N,
    /// Whether a state is a goal.
    pub goal: spec_fn(N) -> bool,
    /// `edge(p, n, w)`: an edge of weight `w` leads from `p` to `n`.
    pub edge: spec_fn(N, N, nat) -> bool,
}

impl<N: Node> Graph<N> {
    /// `k` edges lead from the start to `n`, and their weights add up to `c`.
    pub open spec fn walk(self, k: nat, n: N, c: nat) -> bool
        decreases k,
    {
        if k == 0 {
            n == self.start && c == 0
        } else {
            exists|p: N, w: nat|
                #![trigger (self.edge)(p, n, w)]
                (self.edge)(p, n, w) && w <= c && self.walk((k - 1) as nat, p, (c - w) as nat)
        }
    }

    /// A walk of `k` edges and cost `c` from the start to `n` that leaves no
    /// goal: every state on it before `n` is not a goal.  These are the walks
    /// that a search follows, since it does not expand a goal.
    pub open spec fn approach(self, k: nat, n: N, c: nat) -> bool
        decreases k,
    {
        if k == 0 {
            n == self.start && c == 0
        } else {
            exists|p: N, w: nat|
                #![trigger (self.edge)(p, n, w)]
                (self.edge)(p, n, w) && w <= c && !(self.goal)(p) && self.approach(
                    (k - 1) as nat,
                    p,
                    (c - w) as nat,
                )
        }
    }

    /// Some approach ends in `n`.
    pub open spec fn reaches(self, n: N) -> bool {
        exists|k: nat, c: nat| self.approach(k, n, c)
    }

    /// Some approach of cost `c` ends in `n`.
    pub open spec fn reaches_at(self, n: N, c: nat) -> bool {
        exists|k: nat| self.approach(k, n, c)
    }

    /// The identities of the states that approaches end in.
    pub open spec fn reached_ids(self) -> Set<N::Id> {
        Set::new(|i: N::Id| exists|n: N| self.reaches(n) && n.spec_id() == i)
    }

    /// No approach to a state of identity `i` costs less than `c`.
    pub open spec fn at_least(self, i: N::Id, c: nat) -> bool {
        forall|k: nat, n: N, d: nat| #[trigger] self.approach(k, n, d) && n.spec_id() == i ==> c <= d
    }

    /// `c` is the least cost of an approach to a state of identity `i`.
    pub open spec fn least_cost(self, i: N::Id, c: nat) -> bool {
        &&& self.at_least(i, c)
        &&& exists|n: N| #[trigger] self.reaches_at(n, c) && n.spec_id() == i
    }

    /// Among the reached states, being a goal goes by identity.
    pub open spec fn goals_by_identity(self) -> bool {
        forall|p: N, q: N|
            #![trigger self.reaches(p), self.reaches(q)]
            self.reaches(p) && self.reaches(q) && p.spec_id() == q.spec_id() && (self.goal)(p)
                ==> (self.goal)(q)
    }

    /// No walk to a goal costs less than `c`.
    pub open spec fn goals_at_least(self, c: nat) -> bool {
        forall|k: nat, n: N, d: nat| #[trigger] self.walk(k, n, d) && (self.goal)(n) ==> c <= d
    }

    /// An approach goes on along an edge, unless it has come to a goal.
    pub proof fn lemma_approach_step(self, k: nat, p: N, d: nat, n: N, w: nat)
        requires
            self.approach(k, p, d),
            !(self.goal)(p),
            (self.edge)(p, n, w),
        ensures
            self.approach(k + 1, n, d + w),
    {
        assert(self.approach(((k + 1) - 1) as nat, p, ((d + w) - w) as nat));
    }

    /// The last edge of a walk that has one.
    pub proof fn lemma_walk_last(self, k: nat, n: N, c: nat) -> (last: (N, nat))
        requires
            self.walk(k, n, c),
            k > 0,
        ensures
            (self.edge)(last.0, n, last.1),
            last.1 <= c,
            self.walk((k - 1) as nat, last.0, (c - last.1) as nat),
    {
        choose|p: N, w: nat|
            #![trigger (self.edge)(p, n, w)]
            (self.edge)(p, n, w) && w <= c && self.walk((k - 1) as nat, p, (c - w) as nat)
    }

    /// The last edge of an approach that has one.
    pub proof fn lemma_approach_last(self, k: nat, n: N, c: nat) -> (last: (N, nat))
        requires
            self.approach(k, n, c),
            k > 0,
        ensures
            (self.edge)(last.0, n, last.1),
            last.1 <= c,
            !(self.goal)(last.0),
            self.approach((k - 1) as nat, last.0, (c - last.1) as nat),
    {
        choose|p: N, w: nat|
            #![trigger (self.edge)(p, n, w)]
            (self.edge)(p, n, w) && w <= c && !(self.goal)(p) && self.approach(
                (k - 1) as nat,
                p,
                (c - w) as nat,
            )
    }

    /// An approach is a walk.
    pub proof fn lemma_approach_is_walk(self, k: nat, n: N, c: nat)
        requires
            self.approach(k, n, c),
        ensures
            self.walk(k, n, c),
        decreases k,
    {
        if k > 0 {
            let (p, w) = self.lemma_approach_last(k, n, c);
            self.lemma_approach_is_walk((k - 1) as nat, p, (c - w) as nat);
        }
    }

    /// Every walk either is an approach, or passes a goal that an approach
    /// reaches at no greater cost.
    pub proof fn lemma_walk_meets_goal(self, k: nat, n: N, c: nat)
        requires
            self.walk(k, n, c),
        ensures
            self.approach(k, n, c) || exists|j: nat, g: N, d: nat|
                #[trigger] self.approach(j, g, d) && (self.goal)(g) && d <= c,
        decreases k,
    {
        if k > 0 {
            let (p, w) = self.lemma_walk_last(k, n, c);
            let d = (c - w) as nat;
            self.lemma_walk_meets_goal((k - 1) as nat, p, d);
            if self.approach((k - 1) as nat, p, d) {
                if (self.goal)(p) {
                } else {
                    self.lemma_approach_step((k - 1) as nat, p, d, n, w);
                }
            } else {
                let (j, g, e) = choose|j: nat, g: N, e: nat|
                    #[trigger] self.approach(j, g, e) && (self.goal)(g) && e <= d;
                assert(self.approach(j, g, e) && (self.goal)(g) && e <= c);
            }
        }
    }

    /// Where the start is a goal, the only approach is the empty one.
    pub proof fn lemma_goal_at_start(self, k: nat, n: N, c: nat)
        requires
            (self.goal)(self.start),
            self.approach(k, n, c),
        ensures
            k == 0,
            n == self.start,
            c == 0,
        decreases k,
    {
        if k > 0 {
            let (p, w) = self.lemma_approach_last(k, n, c);
            self.lemma_goal_at_start((k - 1) as nat, p, (c - w) as nat);
        }
    }
}

} // verus!
