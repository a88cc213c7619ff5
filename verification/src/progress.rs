//! The state of a best-first search in progress, as a mathematical object,
//! and the invariant that makes the search correct.
//!
//! A search keeps a set of visited identities and a frontier of entries.
//! Each visited identity was settled at the least cost at which the graph
//! reaches it; the frontier holds, for every edge that leaves the visited
//! part, an entry that costs no more than the walk along that edge.  From
//! this follows that an entry of least cost in the frontier, if its identity
//! is not visited yet, carries the least cost of that identity.

use crate::dijkstra::Node;
use crate::graph::Graph;
use vstd::multiset::Multiset;
use vstd::prelude::*;

verus! {

broadcast use vstd::multiset::group_multiset_axioms;

/// What a search has done so far.
#[verifier::reject_recursive_types(N)]
pub struct Progress<N: Node> {
    /// The identities that were taken from the frontier and settled.
    pub visited: Set<N::Id>,
    /// The visited identities whose edges are not all in the frontier yet.
    pub expanding: Set<N::Id>,
    /// The cost at which each visited identity was settled.
    pub settled: Map<N::Id, nat>,
    /// The entries that wait to be taken.
    pub frontier: Multiset<(N, usize)>,
    /// The goals produced so far, oldest first.
    pub results: Seq<(N, usize)>,
}

impl<N: Node> Progress<N> {
    /// The frontier holds an entry of identity `i` that costs at most `c`.
    pub open spec fn offers(self, i: N::Id, c: nat) -> bool {
        exists|e: (N, usize)| #[trigger] self.frontier.contains(e) && e.0.spec_id() == i && e.1 <= c
    }

    /// A goal of identity `i` is among the results.
    pub open spec fn produced(self, i: N::Id) -> bool {
        exists|j: int| 0 <= j < self.results.len() && (#[trigger] self.results[j]).0.spec_id() == i
    }

    /// The invariant of a search of `g`.
    pub open spec fn sound(self, g: Graph<N>) -> bool {
        &&& self.settled.dom() == self.visited
        &&& self.expanding.subset_of(self.visited)
        &&& forall|i: N::Id| #[trigger]
            self.visited.contains(i) ==> g.least_cost(i, self.settled[i])
        &&& forall|e: (N, usize)| #[trigger]
            self.frontier.contains(e) ==> g.reaches_at(e.0, e.1 as nat)
        &&& !self.visited.contains(g.start.spec_id()) ==> self.frontier.contains((g.start, 0usize))
        &&& forall|p: N, x: N, w: nat|
            self.visited.contains(p.spec_id()) && !self.expanding.contains(p.spec_id()) && g.reaches(p)
                && !(g.goal)(p) && #[trigger] (g.edge)(p, x, w) && !self.visited.contains(
                x.spec_id(),
            ) ==> self.offers(x.spec_id(), self.settled[p.spec_id()] + w)
        &&& forall|i: N::Id, e: (N, usize)|
            #![trigger self.visited.contains(i), self.frontier.contains(e)]
            self.visited.contains(i) && self.frontier.contains(e) ==> self.settled[i] <= e.1
        &&& forall|j: int|
            0 <= j < self.results.len() ==> {
                let r = #[trigger] self.results[j];
                &&& (g.goal)(r.0)
                &&& g.reaches_at(r.0, r.1 as nat)
                &&& self.visited.contains(r.0.spec_id())
                &&& self.settled[r.0.spec_id()] == r.1
            }
        &&& forall|a: int, b: int|
            0 <= a <= b < self.results.len() ==> (#[trigger] self.results[a]).1 <= (
            #[trigger] self.results[b]).1
        &&& forall|a: int, b: int|
            0 <= a < b < self.results.len() ==> (#[trigger] self.results[a]).0.spec_id() != (
            #[trigger] self.results[b]).0.spec_id()
        &&& forall|p: N| #[trigger]
            g.reaches(p) && (g.goal)(p) && self.visited.contains(p.spec_id())
                && !self.expanding.contains(p.spec_id()) ==> self.produced(p.spec_id())
    }

    /// A search that has not begun: only the start waits, at cost 0.
    pub open spec fn initial(start: N) -> Self {
        Progress {
            visited: Set::empty(),
            expanding: Set::empty(),
            settled: Map::empty(),
            frontier: Multiset::singleton((start, 0usize)),
            results: Seq::empty(),
        }
    }

    /// The search after the entry `e` was taken from the frontier and dropped.
    pub open spec fn discard(self, e: (N, usize)) -> Self {
        Progress { frontier: self.frontier.remove(e), ..self }
    }

    /// The search after the entry `e` was taken from the frontier and its
    /// identity visited, before its edges are in the frontier.
    pub open spec fn settle(self, e: (N, usize)) -> Self {
        Progress {
            visited: self.visited.insert(e.0.spec_id()),
            expanding: self.expanding.insert(e.0.spec_id()),
            settled: self.settled.insert(e.0.spec_id(), e.1 as nat),
            frontier: self.frontier.remove(e),
            ..self
        }
    }

    /// The search after the settled goal `e` was added to the results.
    pub open spec fn produce(self, e: (N, usize)) -> Self {
        Progress { expanding: self.expanding.remove(e.0.spec_id()), results: self.results.push(e), ..self }
    }

    /// The search after the entry `e` was added to the frontier.
    pub open spec fn offer(self, e: (N, usize)) -> Self {
        Progress { frontier: self.frontier.insert(e), ..self }
    }

    /// The search after all edges of identity `i` are in the frontier.
    pub open spec fn close(self, i: N::Id) -> Self {
        Progress { expanding: self.expanding.remove(i), ..self }
    }

    /// The invariant holds of a search that has not begun.
    pub proof fn lemma_initial_sound(g: Graph<N>)
        ensures
            Self::initial(g.start).sound(g),
    {
        let s = Self::initial(g.start);
        assert(s.settled.dom() =~= s.visited);
        assert(g.approach(0, g.start, 0));
        assert forall|e: (N, usize)| #[trigger] s.frontier.contains(e) implies g.reaches_at(
            e.0,
            e.1 as nat,
        ) by {
            assert(e == (g.start, 0usize));
        }
    }

    /// While no identity is being expanded, every approach to an identity that is not
    /// visited costs at least as much as some entry of the frontier.
    pub proof fn lemma_frontier_is_ahead(self, g: Graph<N>, k: nat, n: N, c: nat) -> (e: (N, usize))
        requires
            self.sound(g),
            self.expanding =~= Set::empty(),
            g.approach(k, n, c),
            !self.visited.contains(n.spec_id()),
        ensures
            self.frontier.contains(e),
            e.1 <= c,
        decreases k,
    {
        if k == 0 {
            (g.start, 0usize)
        } else {
            let (p, w) = g.lemma_approach_last(k, n, c);
            let d = (c - w) as nat;
            if self.visited.contains(p.spec_id()) {
                assert(g.least_cost(p.spec_id(), self.settled[p.spec_id()]));
                assert(g.reaches(p));
                assert(self.offers(n.spec_id(), self.settled[p.spec_id()] + w));
                choose|e: (N, usize)| #[trigger]
                    self.frontier.contains(e) && e.0.spec_id() == n.spec_id() && e.1
                        <= self.settled[p.spec_id()] + w
            } else {
                self.lemma_frontier_is_ahead(g, (k - 1) as nat, p, d)
            }
        }
    }

    /// Dropping an entry whose identity is visited keeps the invariant.
    pub proof fn lemma_discard_sound(self, g: Graph<N>, e: (N, usize))
        requires
            self.sound(g),
            self.frontier.contains(e),
            self.visited.contains(e.0.spec_id()),
        ensures
            self.discard(e).sound(g),
    {
        let t = self.discard(e);
        assert forall|x: (N, usize)| #[trigger] t.frontier.contains(x) implies self.frontier.contains(
            x,
        ) by {}
        assert forall|p: N, x: N, w: nat|
            t.visited.contains(p.spec_id()) && !t.expanding.contains(p.spec_id()) && g.reaches(p)
                && !(g.goal)(p) && #[trigger] (g.edge)(p, x, w) && !t.visited.contains(
                x.spec_id(),
            ) implies t.offers(x.spec_id(), t.settled[p.spec_id()] + w) by {
            self.lemma_offer_kept(e, x.spec_id(), self.settled[p.spec_id()] + w);
        }
        self.lemma_produced_kept(t);
    }

    /// What was produced stays produced while the results only grow.
    proof fn lemma_produced_kept(self, t: Self)
        requires
            self.results.len() <= t.results.len(),
            forall|j: int| 0 <= j < self.results.len() ==> self.results[j] == t.results[j],
        ensures
            forall|i: N::Id| #[trigger] self.produced(i) ==> t.produced(i),
    {
        assert forall|i: N::Id| #[trigger] self.produced(i) implies t.produced(i) by {
            let j = choose|j: int|
                0 <= j < self.results.len() && (#[trigger] self.results[j]).0.spec_id() == i;
            assert(t.results[j].0.spec_id() == i);
        }
    }

    /// Offers depend on the frontier alone.
    proof fn lemma_offer_same(self, t: Self, i: N::Id, c: nat)
        requires
            self.offers(i, c),
            t.frontier == self.frontier,
        ensures
            t.offers(i, c),
    {
        let x = choose|x: (N, usize)| #[trigger]
            self.frontier.contains(x) && x.0.spec_id() == i && x.1 <= c;
        assert(t.frontier.contains(x));
    }

    /// An offer of another identity than that of `e` stays when `e` leaves
    /// the frontier.
    proof fn lemma_offer_kept(self, e: (N, usize), i: N::Id, c: nat)
        requires
            self.offers(i, c),
            e.0.spec_id() != i,
        ensures
            self.discard(e).offers(i, c),
    {
        let x = choose|x: (N, usize)| #[trigger]
            self.frontier.contains(x) && x.0.spec_id() == i && x.1 <= c;
        assert(self.discard(e).frontier.contains(x));
    }

    /// An entry of least cost in the frontier, if its identity is not
    /// visited, carries the least cost of that identity, and no visited
    /// identity was settled at a greater cost.
    pub proof fn lemma_least_entry(self, g: Graph<N>, e: (N, usize))
        requires
            self.sound(g),
            self.expanding =~= Set::empty(),
            self.frontier.contains(e),
            forall|x: (N, usize)| #[trigger] self.frontier.contains(x) ==> e.1 <= x.1,
            !self.visited.contains(e.0.spec_id()),
        ensures
            g.least_cost(e.0.spec_id(), e.1 as nat),
            forall|i: N::Id| #[trigger] self.visited.contains(i) ==> self.settled[i] <= e.1,
    {
        assert forall|k: nat, n: N, d: nat| #[trigger]
            g.approach(k, n, d) && n.spec_id() == e.0.spec_id() implies e.1 <= d by {
            let x = self.lemma_frontier_is_ahead(g, k, n, d);
        }
        assert(g.reaches_at(e.0, e.1 as nat));
    }

    /// Visiting the identity of a least entry keeps the invariant; the
    /// identity is then being expanded.
    pub proof fn lemma_settle_sound(self, g: Graph<N>, e: (N, usize))
        requires
            self.sound(g),
            self.expanding =~= Set::empty(),
            self.frontier.contains(e),
            forall|x: (N, usize)| #[trigger] self.frontier.contains(x) ==> e.1 <= x.1,
            !self.visited.contains(e.0.spec_id()),
        ensures
            self.settle(e).sound(g),
            !self.settle(e).produced(e.0.spec_id()),
            forall|i: N::Id| #[trigger]
                self.settle(e).visited.contains(i) ==> self.settle(e).settled[i] <= e.1,
    {
        let t = self.settle(e);
        let id = e.0.spec_id();
        self.lemma_least_entry(g, e);
        assert(t.settled.dom() =~= t.visited);
        assert forall|x: (N, usize)| #[trigger] t.frontier.contains(x) implies g.reaches_at(
            x.0,
            x.1 as nat,
        ) by {
            assert(self.frontier.contains(x));
        }
        assert forall|p: N, x: N, w: nat|
            t.visited.contains(p.spec_id()) && !t.expanding.contains(p.spec_id()) && g.reaches(p)
                && !(g.goal)(p) && #[trigger] (g.edge)(p, x, w) && !t.visited.contains(
                x.spec_id(),
            ) implies t.offers(x.spec_id(), t.settled[p.spec_id()] + w) by {
            assert(self.visited.contains(p.spec_id()));
            self.lemma_offer_kept(e, x.spec_id(), self.settled[p.spec_id()] + w);
            let y = choose|y: (N, usize)| #[trigger]
                self.discard(e).frontier.contains(y) && y.0.spec_id() == x.spec_id() && y.1
                    <= self.settled[p.spec_id()] + w;
            assert(t.frontier.contains(y));
        }
        assert forall|i: N::Id, x: (N, usize)|
            #![trigger t.visited.contains(i), t.frontier.contains(x)]
            t.visited.contains(i) && t.frontier.contains(x) implies t.settled[i] <= x.1 by {
            assert(self.frontier.contains(x));
        }
        self.lemma_produced_kept(t);
        if t.produced(id) {
            let j = choose|j: int|
                0 <= j < t.results.len() && (#[trigger] t.results[j]).0.spec_id() == id;
            assert(self.visited.contains(self.results[j].0.spec_id()));
        }
    }

    /// Adding a goal that is being expanded to the results keeps the
    /// invariant.
    pub proof fn lemma_produce_sound(self, g: Graph<N>, e: (N, usize))
        requires
            self.sound(g),
            g.goals_by_identity(),
            self.expanding.contains(e.0.spec_id()),
            (g.goal)(e.0),
            g.reaches_at(e.0, e.1 as nat),
            self.settled[e.0.spec_id()] == e.1,
            !self.produced(e.0.spec_id()),
            forall|i: N::Id| #[trigger] self.visited.contains(i) ==> self.settled[i] <= e.1,
        ensures
            self.produce(e).sound(g),
    {
        let t = self.produce(e);
        let id = e.0.spec_id();
        assert(g.reaches(e.0));
        assert forall|p: N, x: N, w: nat|
            t.visited.contains(p.spec_id()) && !t.expanding.contains(p.spec_id()) && g.reaches(p)
                && !(g.goal)(p) && #[trigger] (g.edge)(p, x, w) && !t.visited.contains(
                x.spec_id(),
            ) implies t.offers(x.spec_id(), t.settled[p.spec_id()] + w) by {
            if p.spec_id() == id {
                assert((g.goal)(p));
            } else {
                assert(!self.expanding.contains(p.spec_id()));
                self.lemma_offer_same(t, x.spec_id(), self.settled[p.spec_id()] + w);
            }
        }
        assert forall|a: int, b: int| 0 <= a < b < t.results.len() implies (
        #[trigger] t.results[a]).0.spec_id() != (#[trigger] t.results[b]).0.spec_id() by {
            if b == self.results.len() {
                assert(self.results[a].0.spec_id() != id);
            }
        }
        self.lemma_produced_kept(t);
        assert(t.results[self.results.len() as int].0.spec_id() == id);
    }

    /// Adding an entry that the graph reaches, at a cost that no settled
    /// cost exceeds, keeps the invariant and every offer.
    pub proof fn lemma_offer_sound(self, g: Graph<N>, e: (N, usize))
        requires
            self.sound(g),
            g.reaches_at(e.0, e.1 as nat),
            forall|i: N::Id| #[trigger] self.visited.contains(i) ==> self.settled[i] <= e.1,
        ensures
            self.offer(e).sound(g),
            self.offer(e).offers(e.0.spec_id(), e.1 as nat),
            forall|i: N::Id, c: nat| #[trigger] self.offers(i, c) ==> self.offer(e).offers(i, c),
    {
        let t = self.offer(e);
        assert(t.frontier.contains(e));
        assert forall|i: N::Id, c: nat| #[trigger] self.offers(i, c) implies t.offers(i, c) by {
            let x = choose|x: (N, usize)| #[trigger]
                self.frontier.contains(x) && x.0.spec_id() == i && x.1 <= c;
            assert(t.frontier.contains(x));
        }
        assert forall|x: (N, usize)| #[trigger] t.frontier.contains(x) implies g.reaches_at(
            x.0,
            x.1 as nat,
        ) by {
            if x != e {
                assert(self.frontier.contains(x));
            }
        }
        assert forall|i: N::Id, x: (N, usize)|
            #![trigger t.visited.contains(i), t.frontier.contains(x)]
            t.visited.contains(i) && t.frontier.contains(x) implies t.settled[i] <= x.1 by {
            if x != e {
                assert(self.frontier.contains(x));
            }
        }
        self.lemma_produced_kept(t);
    }

    /// Once the frontier offers every edge out of the states of identity
    /// `i`, none of them a goal, the identity is expanded.
    pub proof fn lemma_close_sound(self, g: Graph<N>, i: N::Id)
        requires
            self.sound(g),
            self.visited.contains(i),
            forall|p: N| #[trigger] g.reaches(p) && p.spec_id() == i ==> !(g.goal)(p),
            forall|p: N, x: N, w: nat|
                g.reaches(p) && p.spec_id() == i && #[trigger] (g.edge)(p, x, w)
                    && !self.visited.contains(x.spec_id()) ==> self.offers(
                    x.spec_id(),
                    self.settled[i] + w,
                ),
        ensures
            self.close(i).sound(g),
    {
        let t = self.close(i);
        assert forall|p: N, x: N, w: nat|
            t.visited.contains(p.spec_id()) && !t.expanding.contains(p.spec_id()) && g.reaches(p)
                && !(g.goal)(p) && #[trigger] (g.edge)(p, x, w) && !t.visited.contains(
                x.spec_id(),
            ) implies t.offers(x.spec_id(), t.settled[p.spec_id()] + w) by {
            self.lemma_offer_same(t, x.spec_id(), self.settled[p.spec_id()] + w);
        }
        self.lemma_produced_kept(t);
    }
}

} // verus!
