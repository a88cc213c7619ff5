//! Best-first search over a weighted graph that the caller gives as two
//! functions: a goal test and an expansion of a state into its neighbours.
//!
//! [`Dijkstra::next`] hands out the goals in order of their cost from the
//! start, each identity once.

use crate::graph::Graph;
use crate::heap::MinHeap;
use crate::progress::Progress;
use std::collections::HashSet;
use std::hash::Hash;
use vstd::multiset::Multiset;
use vstd::prelude::*;
use vstd::set_lib::*;
use vstd::std_specs::hash::obeys_key_model;

verus! {

broadcast use vstd::multiset::group_multiset_axioms;

/// A state of a search.  States of one identity stand for the same place in
/// the graph: a search visits each identity once.
pub trait Node {
    /// The identity of a state.
    type Id: Eq + Hash;

    /// The identity of this state.  An implementation states here what
    /// [`Node::id`] returns.
    open spec fn spec_id(&self) -> Self::Id {
        arbitrary()
    }

    /// The identity of this state.
    fn id(&self) -> (id: Self::Id)
        ensures
            id == self.spec_id(),
    ;
}

/// Among the neighbours `out`, one of identity `i` lies at the end of an edge
/// of weight `w`.
pub open spec fn covers<N: Node>(out: Seq<(N, usize)>, i: N::Id, w: nat) -> bool {
    exists|j: int| 0 <= j < out.len() && (#[trigger] out[j]).0.spec_id() == i && out[j].1 == w
}

/// The graph that a goal test and an expansion describe: a state is a goal
/// where `success` may return `true` for it, and an edge leads to each
/// neighbour that `neighbors` may return.
///
/// What a function may return is bounded by what it declares: from the
/// declared `ensures` of the two functions a caller can show that a state is
/// no goal, that an edge is absent, and so what a result costs and that a
/// search ends without one.  That a function does return a value is known
/// only of a call that was made, so that a state is a goal, or that an edge
/// is there, cannot be shown from the declarations alone.
pub open spec fn graph_of<N, FS, FN>(start: N, success: FS, neighbors: FN) -> Graph<N> where
    N: Node,
    FS: FnMut(&N) -> bool,
    FN: FnMut(&N) -> Vec<(N, usize)>,
 {
    Graph {
        start,
        goal: |n: N| success.ensures((&n,), true),
        edge: |p: N, n: N, w: nat|
            exists|out: Vec<(N, usize)>, j: int|
                neighbors.ensures((&p,), out) && 0 <= j < out@.len() && (#[trigger] out@[j]).0 == n
                    && out@[j].1 == w,
    }
}

/// The two functions can be called on every state that the search comes to:
/// the goal test on each reached state, the expansion on each that is not a
/// goal.
pub open spec fn callable<N, FS, FN>(start: N, success: FS, neighbors: FN) -> bool where
    N: Node,
    FS: FnMut(&N) -> bool,
    FN: FnMut(&N) -> Vec<(N, usize)>,
 {
    let g = graph_of(start, success, neighbors);
    &&& forall|n: N| #[trigger] g.reaches(n) ==> success.requires((&n,))
    &&& forall|n: N| #[trigger] g.reaches(n) && !(g.goal)(n) ==> neighbors.requires((&n,))
}

/// The two functions go by identity: the goal test gives one answer for all
/// reached states of one identity, and each expansion of one of them holds,
/// up to identity, every edge out of every other.
pub open spec fn by_identity<N, FS, FN>(start: N, success: FS, neighbors: FN) -> bool where
    N: Node,
    FS: FnMut(&N) -> bool,
    FN: FnMut(&N) -> Vec<(N, usize)>,
 {
    let g = graph_of(start, success, neighbors);
    &&& forall|n: N| #[trigger] g.reaches(n) && success.ensures((&n,), false) ==> !(g.goal)(n)
    &&& g.goals_by_identity()
    &&& forall|p: N, out: Vec<(N, usize)>, q: N, x: N, w: nat|
        #![trigger neighbors.ensures((&p,), out), (g.edge)(q, x, w)]
        g.reaches(p) && !(g.goal)(p) && neighbors.ensures((&p,), out) && g.reaches(q) && q.spec_id()
            == p.spec_id() && (g.edge)(q, x, w) ==> covers(out@, x.spec_id(), w)
}

/// Every cost that the search adds up fits in `usize`: an edge out of a
/// state, taken after that state's identity was reached at its least cost,
/// ends within `usize::MAX`.
pub open spec fn costs_fit<N, FS, FN>(start: N, success: FS, neighbors: FN) -> bool where
    N: Node,
    FS: FnMut(&N) -> bool,
    FN: FnMut(&N) -> Vec<(N, usize)>,
 {
    let g = graph_of(start, success, neighbors);
    forall|p: N, c: nat, x: N, w: nat|
        #![trigger g.reaches_at(p, c), (g.edge)(p, x, w)]
        g.reaches_at(p, c) && g.at_least(p.spec_id(), c) && !(g.goal)(p) && (g.edge)(p, x, w) ==> c
            + w <= usize::MAX
}

/// What a search asks of its start state and its two functions.
pub open spec fn searchable<N, FS, FN>(start: N, success: FS, neighbors: FN) -> bool where
    N: Node,
    FS: FnMut(&N) -> bool,
    FN: FnMut(&N) -> Vec<(N, usize)>,
 {
    &&& obeys_key_model::<N::Id>()
    &&& callable(start, success, neighbors)
    &&& by_identity(start, success, neighbors)
    &&& costs_fit(start, success, neighbors)
    &&& graph_of(start, success, neighbors).reached_ids().finite()
}

/// A best-first search from a start state, by a goal test `success` and an
/// expansion `neighbors` of a state into its neighbours and the weights of
/// the edges to them.
pub struct Dijkstra<N, FS, FN> where N: Node {
    unvisited: MinHeap<N>,
    visited: HashSet<N::Id>,
    success: FS,
    neighbors: FN,
    start: Ghost<N>,
    settled: Ghost<Map<N::Id, nat>>,
    results: Ghost<Seq<(N, usize)>>,
}

impl<N, FS, FN> Dijkstra<N, FS, FN> where
    N: Node,
    FS: FnMut(&N) -> bool,
    FN: FnMut(&N) -> Vec<(N, usize)>,
 {
    /// The graph that is searched.
    pub closed spec fn graph(&self) -> Graph<N> {
        graph_of(self.start@, self.success, self.neighbors)
    }

    /// The identities visited so far.
    pub closed spec fn visited(&self) -> Set<N::Id> {
        self.visited@
    }

    /// The entries that wait in the frontier.
    pub closed spec fn frontier(&self) -> Multiset<(N, usize)> {
        self.unvisited@
    }

    /// The goals produced so far, oldest first.
    pub closed spec fn results(&self) -> Seq<(N, usize)> {
        self.results@
    }

    /// The search while the identities in `expanding` are being expanded.
    spec fn progress(&self, expanding: Set<N::Id>) -> Progress<N> {
        Progress {
            visited: self.visited@,
            expanding,
            settled: self.settled@,
            frontier: self.unvisited@,
            results: self.results@,
        }
    }

    /// The invariant of the search.
    pub closed spec fn inv(&self) -> bool {
        &&& searchable(self.start@, self.success, self.neighbors)
        &&& self.unvisited.wf()
        &&& self.progress(Set::empty()).sound(self.graph())
    }

    /// A goal waits: the graph reaches a goal whose identity is not visited.
    ///
    /// The graph holds what the two functions may return (see [`graph_of`]),
    /// so a caller can refute this from what they declare, and can establish
    /// it only from a call of the goal test that returned `true`.
    pub open spec fn pending(&self) -> bool {
        exists|p: N| #[trigger]
            self.graph().reaches(p) && (self.graph().goal)(p) && !self.visited().contains(
                p.spec_id(),
            )
    }

    /// A search of the graph of `success` and `neighbors` from `start`.
    /// Nothing is visited yet; whether `start` is a goal shows at the first
    /// call of [`Dijkstra::next`].
    pub fn new(start: N, success: FS, neighbors: FN) -> (search: Self)
        requires
            searchable(start, success, neighbors),
        ensures
            search.inv(),
            search.graph() == graph_of(start, success, neighbors),
            search.visited() == Set::<N::Id>::empty(),
            search.frontier() == Multiset::singleton((start, 0usize)),
            search.results() == Seq::<(N, usize)>::empty(),
    {
        let ghost g = graph_of(start, success, neighbors);
        let ghost first = start;
        let mut unvisited = MinHeap::new();
        unvisited.push(start, 0);
        proof {
            Progress::<N>::lemma_initial_sound(g);
            assert(unvisited@ =~= Multiset::singleton((first, 0usize)));
        }
        Self {
            unvisited,
            visited: HashSet::new(),
            success,
            neighbors,
            start: Ghost(first),
            settled: Ghost(Map::empty()),
            results: Ghost(Seq::empty()),
        }
    }

    /// What a call of [`Dijkstra::next`] that returns `result` makes of the
    /// search `self`: the search `after`.
    pub open spec fn step(&self, result: Option<(N, usize)>, after: &Self) -> bool {
        let g = self.graph();
        &&& after.graph() == g
        &&& self.visited().subset_of(after.visited())
        &&& result is Some <==> self.pending()
        &&& match result {
            Some((n, c)) => {
                &&& (g.goal)(n)
                &&& g.reaches_at(n, c as nat)
                &&& !self.visited().contains(n.spec_id())
                &&& after.visited().contains(n.spec_id())
                &&& after.results() == self.results().push((n, c))
                &&& forall|p: N, d: nat|
                    #![trigger g.reaches_at(p, d)]
                    g.reaches_at(p, d) && (g.goal)(p) && !self.visited().contains(p.spec_id())
                        ==> c <= d
            },
            None => {
                &&& after.results() == self.results()
                &&& after.frontier().len() == 0
                &&& forall|p: N| #[trigger] g.reaches(p) ==> after.visited().contains(p.spec_id())
            },
        }
    }

    /// Puts the neighbours `out` of the state `value`, which was settled at
    /// `cost` and is not a goal, in the frontier: each whose identity is not
    /// visited, at `cost` plus the weight of its edge.
    fn enqueue(&mut self, Ghost(value): Ghost<N>, cost: usize, out: Vec<(N, usize)>)
        requires
            searchable(old(self).start@, old(self).success, old(self).neighbors),
            old(self).unvisited.wf(),
            old(self).progress(set![value.spec_id()]).sound(old(self).graph()),
            old(self).visited@.contains(value.spec_id()),
            old(self).settled@[value.spec_id()] == cost,
            forall|i: N::Id| #[trigger]
                old(self).visited@.contains(i) ==> old(self).settled@[i] <= cost,
            old(self).graph().reaches_at(value, cost as nat),
            old(self).graph().at_least(value.spec_id(), cost as nat),
            !(old(self).graph().goal)(value),
            old(self).neighbors.ensures((&value,), out),
        ensures
            final(self).inv(),
            final(self).start == old(self).start,
            final(self).success == old(self).success,
            final(self).neighbors == old(self).neighbors,
            final(self).visited@ == old(self).visited@,
            final(self).results@ == old(self).results@,
    {
        let ghost g = self.graph();
        let ghost id = value.spec_id();
        let ghost all = out@;
        proof {
            assert(g.reaches(value));
        }
        for entry in it: out
            invariant
                all == it.seq(),
                searchable(self.start@, self.success, self.neighbors),
                self.unvisited.wf(),
                self.progress(set![id]).sound(g),
                g == self.graph(),
                self.start == old(self).start,
                self.success == old(self).success,
                self.neighbors == old(self).neighbors,
                self.visited@ == old(self).visited@,
                self.settled@ == old(self).settled@,
                self.results@ == old(self).results@,
                self.visited@.contains(id),
                self.settled@[id] == cost,
                id == value.spec_id(),
                forall|i: N::Id| #[trigger] self.visited@.contains(i) ==> self.settled@[i] <= cost,
                g.reaches(value),
                g.reaches_at(value, cost as nat),
                g.at_least(id, cost as nat),
                !(g.goal)(value),
                self.neighbors.ensures((&value,), out),
                forall|j: int|
                    0 <= j < it.index() ==> self.visited@.contains((#[trigger] all[j]).0.spec_id())
                        || self.progress(set![id]).offers(
                        all[j].0.spec_id(),
                        (cost + all[j].1) as nat,
                    ),
        {
            let (node, move_cost) = entry;
            let ghost j = it.index() as int;
            let ghost before = self.progress(set![id]);
            assert(all[j] == (node, move_cost));
            assert((g.edge)(value, node, move_cost as nat));
            let node_id = node.id();
            if !self.visited.contains(&node_id) {
                assert(cost + move_cost <= usize::MAX);
                let new_cost = cost + move_cost;
                proof {
                    let k = choose|k: nat| g.approach(k, value, cost as nat);
                    g.lemma_approach_step(k, value, cost as nat, node, move_cost as nat);
                    before.lemma_offer_sound(g, (node, new_cost));
                }
                self.unvisited.push(node, new_cost);
                assert(self.progress(set![id]) == before.offer((node, new_cost)));
            }
        }
        proof {
            let mid = self.progress(set![id]);
            assert forall|p: N| #[trigger] g.reaches(p) && p.spec_id() == id implies !(g.goal)(
                p,
            ) by {}
            assert forall|p: N, x: N, w: nat|
                g.reaches(p) && p.spec_id() == id && #[trigger] (g.edge)(p, x, w)
                    && !mid.visited.contains(x.spec_id()) implies mid.offers(
                x.spec_id(),
                mid.settled[id] + w,
            ) by {
                assert(covers(all, x.spec_id(), w));
                let j = choose|j: int|
                    0 <= j < all.len() && (#[trigger] all[j]).0.spec_id() == x.spec_id() && all[j].1
                        == w;
                assert(mid.offers(all[j].0.spec_id(), (cost + all[j].1) as nat));
            }
            mid.lemma_close_sound(g, id);
            assert(set![id].remove(id) =~= Set::<N::Id>::empty());
            assert(mid.close(id) == self.progress(Set::empty()));
        }
    }

    /// Produces the next goal, with its cost from the start, or `None` once
    /// no goal is left.
    ///
    /// The goals come in order of their cost, each identity once: the one
    /// returned is reached at no greater cost than any goal whose identity
    /// was not visited before the call.  `None` is returned exactly where
    /// every goal that the graph reaches was visited before.
    pub fn next(&mut self) -> (result: Option<(N, usize)>)
        requires
            old(self).inv(),
        ensures
            final(self).inv(),
            old(self).step(result, final(self)),
    {
        let ghost g = self.graph();
        let ghost ids = g.reached_ids();
        loop
            invariant
                self.inv(),
                g == self.graph(),
                ids == g.reached_ids(),
                self.start == old(self).start,
                self.success == old(self).success,
                self.neighbors == old(self).neighbors,
                old(self).visited@.subset_of(self.visited@),
                self.results@ == old(self).results@,
                forall|p: N| #[trigger]
                    g.reaches(p) && (g.goal)(p) && self.visited@.contains(p.spec_id()) ==> old(
                        self,
                    ).visited@.contains(p.spec_id()),
            decreases ids.difference(self.visited@).len(), self.unvisited@.len(),
        {
            let ghost before = self.progress(Set::empty());
            let (value, cost) = match self.unvisited.pop() {
                Some(entry) => entry,
                None => {
                    proof {
                        assert forall|p: N| #[trigger] g.reaches(p) implies self.visited@.contains(
                            p.spec_id(),
                        ) by {
                            if !self.visited@.contains(p.spec_id()) {
                                let (k, c) = choose|k: nat, c: nat| g.approach(k, p, c);
                                let e = before.lemma_frontier_is_ahead(g, k, p, c);
                            }
                        }
                    }
                    return None;
                },
            };
            let ghost e = (value, cost);
            let id = value.id();
            if self.visited.contains(&id) {
                proof {
                    before.lemma_discard_sound(g, e);
                    assert(self.progress(Set::empty()) == before.discard(e));
                }
                continue ;
            }
            proof {
                before.lemma_least_entry(g, e);
                before.lemma_settle_sound(g, e);
                assert(g.reaches(value));
                assert(ids.contains(value.spec_id()));
                assert(ids.difference(self.visited@.insert(value.spec_id())) =~= ids.difference(
                    self.visited@,
                ).remove(value.spec_id()));
                lemma_len_subset(ids.difference(self.visited@), ids);
            }
            self.visited.insert(id);
            self.settled = Ghost(self.settled@.insert(value.spec_id(), cost as nat));
            let ghost mid = self.progress(set![value.spec_id()]);
            assert(mid == before.settle(e));
            if (self.success)(&value) {
                proof {
                    assert forall|p: N, d: nat|
                        #![trigger g.reaches_at(p, d)]
                        g.reaches_at(p, d) && (g.goal)(p) && !old(self).visited@.contains(
                            p.spec_id(),
                        ) implies cost <= d by {
                        let k = choose|k: nat| g.approach(k, p, d);
                        assert(g.reaches(p));
                        let x = before.lemma_frontier_is_ahead(g, k, p, d);
                    }
                    mid.lemma_produce_sound(g, e);
                }
                self.results = Ghost(self.results@.push((value, cost)));
                proof {
                    assert(set![value.spec_id()].remove(value.spec_id()) =~= Set::<N::Id>::empty());
                    assert(self.progress(Set::empty()) == mid.produce(e));
                    assert((g.goal)(value));
                    assert(!old(self).visited@.contains(value.spec_id()));
                    assert(old(self).graph().reaches(value));
                    assert(old(self).pending());
                }
                return Some((value, cost));
            }
            let out = (self.neighbors)(&value);
            self.enqueue(Ghost(value), cost, out);
        }
    }

    /// The first result of a search is a goal of least cost: no walk from
    /// the start to any goal costs less, and a walk of that cost leads to the
    /// goal returned.  Where no walk leads to a goal, there is no result.
    pub proof fn lemma_first_result_is_cheapest(
        &self,
        result: Option<(N, usize)>,
        after: &Self,
    )
        requires
            self.visited() =~= Set::<N::Id>::empty(),
            self.step(result, after),
        ensures
            match result {
                Some((n, c)) => {
                    &&& (self.graph().goal)(n)
                    &&& exists|k: nat| self.graph().walk(k, n, c as nat)
                    &&& self.graph().goals_at_least(c as nat)
                },
                None => forall|k: nat, n: N, d: nat| #[trigger]
                    self.graph().walk(k, n, d) ==> !(self.graph().goal)(n),
            },
    {
        let g = self.graph();
        assert forall|k: nat, n: N, d: nat| #[trigger] g.walk(k, n, d) && (g.goal)(n) implies (
        match result {
            Some((_, c)) => c <= d,
            None => false,
        }) by {
            g.lemma_walk_meets_goal(k, n, d);
            let (j, p, e) = if g.approach(k, n, d) {
                (k, n, d)
            } else {
                choose|j: nat, p: N, e: nat| #[trigger] g.approach(j, p, e) && (g.goal)(p) && e <= d
            };
            assert(g.reaches(p));
            assert(g.reaches_at(p, e));
            assert(self.pending());
        }
        if let Some((n, c)) = result {
            let k = choose|k: nat| g.approach(k, n, c as nat);
            g.lemma_approach_is_walk(k, n, c as nat);
        }
    }

    /// The results come in ascending order of cost: of two goals produced,
    /// the earlier costs no more than the later.
    pub proof fn lemma_results_ascend(&self, earlier: int, later: int)
        requires
            self.inv(),
            0 <= earlier <= later < self.results().len(),
        ensures
            self.results()[earlier].1 <= self.results()[later].1,
    {
        let s = self.progress(Set::empty());
        assert(s.results[earlier].1 <= s.results[later].1);
    }

    /// No identity is produced twice: two results differ in identity.
    pub proof fn lemma_results_differ(&self, earlier: int, later: int)
        requires
            self.inv(),
            0 <= earlier < later < self.results().len(),
        ensures
            self.results()[earlier].0.spec_id() != self.results()[later].0.spec_id(),
    {
        let s = self.progress(Set::empty());
        assert(s.results[earlier].0.spec_id() != s.results[later].0.spec_id());
    }

    /// Every result is a goal that the graph reaches at the cost given, and
    /// its identity is visited.
    pub proof fn lemma_results_are_goals(&self, i: int)
        requires
            self.inv(),
            0 <= i < self.results().len(),
        ensures
            (self.graph().goal)(self.results()[i].0),
            self.graph().reaches_at(self.results()[i].0, self.results()[i].1 as nat),
            self.visited().contains(self.results()[i].0.spec_id()),
    {
        let s = self.progress(Set::empty());
        assert((self.graph().goal)(s.results[i].0));
    }

    /// Every result carries the least cost of its identity: no approach to
    /// a state of that identity costs less.
    pub proof fn lemma_results_at_least_cost(&self, i: int)
        requires
            self.inv(),
            0 <= i < self.results().len(),
        ensures
            self.graph().least_cost(self.results()[i].0.spec_id(), self.results()[i].1 as nat),
    {
        let s = self.progress(Set::empty());
        assert(s.visited.contains(s.results[i].0.spec_id()));
    }

    /// An identity is visited only through a call that handles it: a goal
    /// that the graph reaches, and whose identity is visited, is among the
    /// results.
    pub proof fn lemma_visited_goal_is_result(&self, p: N) -> (i: int)
        requires
            self.inv(),
            self.graph().reaches(p),
            (self.graph().goal)(p),
            self.visited().contains(p.spec_id()),
        ensures
            0 <= i < self.results().len(),
            self.results()[i].0.spec_id() == p.spec_id(),
    {
        let s = self.progress(Set::empty());
        assert(s.produced(p.spec_id()));
        choose|j: int| 0 <= j < s.results.len() && (#[trigger] s.results[j]).0.spec_id() == p.spec_id()
    }

    /// A search that has ended has listed every goal: once a call has
    /// returned `None`, each goal that the graph reaches is among the
    /// results by its identity, at the least cost of that identity.
    pub proof fn lemma_ended_lists_every_goal(&self, after: &Self, p: N) -> (i: int)
        requires
            self.step(None, after),
            after.inv(),
            self.graph().reaches(p),
            (self.graph().goal)(p),
        ensures
            0 <= i < after.results().len(),
            after.results()[i].0.spec_id() == p.spec_id(),
            self.graph().least_cost(p.spec_id(), after.results()[i].1 as nat),
    {
        let i = after.lemma_visited_goal_is_result(p);
        after.lemma_results_at_least_cost(i);
        i
    }

    /// The visited identities are among those that the graph reaches, so
    /// there are no more of them.
    pub proof fn lemma_visited_within_reach(&self)
        requires
            self.inv(),
        ensures
            self.visited().subset_of(self.graph().reached_ids()),
            self.visited().finite(),
            self.visited().len() <= self.graph().reached_ids().len(),
    {
        let g = self.graph();
        assert forall|i: N::Id| self.visited().contains(i) implies g.reached_ids().contains(i) by {
            assert(g.least_cost(i, self.settled@[i]));
            let n = choose|n: N| #[trigger] g.reaches_at(n, self.settled@[i]) && n.spec_id() == i;
            assert(g.reaches(n));
        }
        lemma_len_subset(self.visited(), g.reached_ids());
    }

    /// Once a search has ended it stays ended: after a call that returned
    /// `None`, every later call returns `None`.
    pub proof fn lemma_exhausted_for_good(
        &self,
        after: &Self,
        result: Option<(N, usize)>,
        later: &Self,
    )
        requires
            self.step(None, after),
            after.step(result, later),
        ensures
            result is None,
    {
    }

    /// Where the graph reaches no goal, a search has no result.
    pub proof fn lemma_no_goal_no_result(&self, result: Option<(N, usize)>, after: &Self)
        requires
            self.step(result, after),
            forall|p: N| #[trigger] self.graph().reaches(p) ==> !(self.graph().goal)(p),
        ensures
            result is None,
    {
    }

    /// Where the start is a goal, the first result is the start at cost 0.
    pub proof fn lemma_goal_at_start(&self, result: Option<(N, usize)>, after: &Self)
        requires
            self.visited() =~= Set::<N::Id>::empty(),
            (self.graph().goal)(self.graph().start),
            self.step(result, after),
        ensures
            result == Some((self.graph().start, 0usize)),
    {
        let g = self.graph();
        assert(g.approach(0, g.start, 0));
        assert(g.reaches(g.start));
        assert(self.pending());
        let (n, c) = result.unwrap();
        let k = choose|k: nat| g.approach(k, n, c as nat);
        g.lemma_goal_at_start(k, n, c as nat);
    }
}

} // verus!
