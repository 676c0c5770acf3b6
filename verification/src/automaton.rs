//! The tree automaton and its minimum-weight derivation search.
//!
//! The search generalizes Dijkstra's algorithm to hyperarcs: candidates wait
//! in a min-weight frontier, states are finalized in non-decreasing weight
//! order, and a binary hyperarc produces a candidate only once both of its
//! operand states are finalized.  Superseded frontier entries are discarded
//! lazily, by comparing arena indices instead of pointer identity.

use vstd::prelude::*;

use crate::derivation::{
    arena_ok, derivation_wf, is_start_entry, node_ok, tree_state, tree_valid, tree_weight,
    Derivation, SpecTree, TreeNode,
};
use crate::optimal::{
    all_relaxed, arc_relaxed, arc_sum, covers, fin_bounded, fin_optimal, lemma_cut,
    lemma_exhausted, lemma_target_bounded_finalize, lemma_target_bounded_install, live_wf,
    seeds_relaxed, target_bounded,
};
use crate::state_map::{lookup, StateIndexMap};
use crate::transition::{
    arc_open, has_arc, lemma_mirrored_push_pair, lemma_mirrored_push_single,
    lemma_usable_complete, lemma_usable_props, mirrored, spec_usable, Hyperarc, StatePair,
    Transition,
};
use crate::{State, SymbolTrait};

verus! {

/// Why a search returned no derivation.
#[derive(Clone, Copy, Debug, PartialEq, Eq, Structural)]
pub enum SearchError {
    /// No final state was designated before the search was invoked.
    MissingFinalState,
    /// The frontier was exhausted before the final state could be
    /// finalized: no accepting derivation exists from the initial states.
    Unreachable,
}

/// Every entry of an index map points into the arena, at a node whose state
/// is the entry's own key.
pub open spec fn map_wf<S: SymbolTrait>(m: Seq<(State, usize)>, nodes: Seq<TreeNode<S>>) -> bool {
    forall|s: State|
        #[trigger] lookup(m, s) is Some ==> match lookup(m, s) {
            Option::Some(i) => (i as int) < nodes.len() && nodes[i as int].state == s,
            Option::None => true,
        }
}

/// Every frontier entry is a valid arena index.
pub open spec fn frontier_wf<S: SymbolTrait>(fr: Seq<usize>, nodes: Seq<TreeNode<S>>) -> bool {
    forall|j: int| 0 <= j < fr.len() ==> ((#[trigger] fr[j]) as int) < nodes.len()
}

/// Once anything is finalized, every frontier candidate weighs at least as
/// much as the last finalized weight.
pub open spec fn frontier_bounded<S: SymbolTrait>(
    fr: Seq<usize>,
    nodes: Seq<TreeNode<S>>,
    tr: Seq<(State, usize)>,
) -> bool {
    tr.len() > 0 ==> forall|j: int|
        0 <= j < fr.len() ==> ((#[trigger] fr[j]) as int) < nodes.len() && nodes[fr[j] as int].weight
            >= tr.last().1
}

/// Weights appear in non-decreasing order: the finalization discipline of
/// the search.
pub open spec fn monotone_weights(tr: Seq<(State, usize)>) -> bool {
    forall|a: int, b: int|
        #![trigger tr[a], tr[b]]
        0 <= a <= b < tr.len() ==> tr[a].1 <= tr[b].1
}

/// The number of arcs whose source state is not yet finalized; the search
/// loop's termination measure.
pub open spec fn open_arc_count<S>(arcs: Seq<Hyperarc<S>>, fin: Seq<(State, usize)>) -> nat
    decreases arcs.len(),
{
    if arcs.len() == 0 {
        0
    } else {
        open_arc_count(arcs.drop_last(), fin) + (if lookup(fin, arcs.last().from) is None {
            1nat
        } else {
            0nat
        })
    }
}

/// Finalizing one more state never increases the count of arcs with an
/// unfinalized source, and strictly decreases it when some arc leaves the
/// newly finalized state.
proof fn lemma_open_count_insert<S>(
    arcs: Seq<Hyperarc<S>>,
    fin0: Seq<(State, usize)>,
    fin1: Seq<(State, usize)>,
    s: State,
)
    requires
        lookup(fin0, s) is None,
        lookup(fin1, s) is Some,
        forall|s2: State| s2 != s ==> lookup(fin1, s2) == lookup(fin0, s2),
    ensures
        open_arc_count(arcs, fin1) <= open_arc_count(arcs, fin0),
        (exists|j: int| 0 <= j < arcs.len() && (#[trigger] arcs[j]).from == s)
            ==> open_arc_count(arcs, fin1) < open_arc_count(arcs, fin0),
    decreases arcs.len(),
{
    if arcs.len() > 0 {
        lemma_open_count_insert(arcs.drop_last(), fin0, fin1, s);
        if exists|j: int| 0 <= j < arcs.len() && (#[trigger] arcs[j]).from == s {
            let j = choose|j: int| 0 <= j < arcs.len() && (#[trigger] arcs[j]).from == s;
            if j < arcs.len() - 1 {
                assert(arcs.drop_last()[j].from == s);
            }
        }
    }
}

/// A nonempty usable list means some arc leaves `from`.
proof fn lemma_usable_nonempty_source<S>(
    arcs: Seq<Hyperarc<S>>,
    from: State,
    fin: Seq<(State, usize)>,
)
    requires
        spec_usable(arcs, from, fin).len() > 0,
    ensures
        exists|j: int| 0 <= j < arcs.len() && (#[trigger] arcs[j]).from == from,
    decreases arcs.len(),
{
    if arcs.len() > 0 {
        let a = arcs.last();
        if a.from == from && arc_open(a, fin) {
            assert(arcs[arcs.len() - 1].from == from);
        } else {
            lemma_usable_nonempty_source(arcs.drop_last(), from, fin);
            let j = choose|j: int|
                0 <= j < arcs.drop_last().len() && (#[trigger] arcs.drop_last()[j]).from == from;
            assert(arcs[j].from == from);
        }
    }
}

/// Removes and returns a minimum-weight candidate from the frontier.
fn pop_min<S: SymbolTrait>(frontier: &mut Vec<usize>, arena: &Vec<TreeNode<S>>) -> (c: usize)
    requires
        old(frontier)@.len() > 0,
        frontier_wf(old(frontier)@, arena@),
    ensures
        final(frontier)@.len() == old(frontier)@.len() - 1,
        old(frontier)@.contains(c),
        (c as int) < arena@.len(),
        forall|j: int|
            0 <= j < final(frontier)@.len() ==> old(frontier)@.contains(
                #[trigger] final(frontier)@[j],
            ) && arena@[final(frontier)@[j] as int].weight >= arena@[c as int].weight,
        forall|j: int|
            0 <= j < old(frontier)@.len() ==> arena@[(#[trigger] old(frontier)@[j]) as int].weight
                >= arena@[c as int].weight,
        forall|x: usize|
            old(frontier)@.contains(x) && x != c ==> final(frontier)@.contains(x),
{
    let n = frontier.len();
    let mut mi: usize = 0;
    let mut i: usize = 1;
    while i < n
        invariant
            0 < i <= n,
            (mi as int) < i,
            n == frontier@.len(),
            frontier_wf(frontier@, arena@),
            forall|j: int|
                0 <= j < i ==> arena@[frontier@[j] as int].weight >= arena@[frontier@[mi as int] as int].weight,
        decreases n - i,
    {
        if arena[frontier[i]].weight < arena[frontier[mi]].weight {
            mi = i;
        }
        i = i + 1;
    }
    let ghost before = frontier@;
    let c = frontier.swap_remove(mi);
    proof {
        assert(before.contains(c)) by {
            assert(before[mi as int] == c);
        }
        assert forall|j: int| 0 <= j < frontier@.len() implies before.contains(
            #[trigger] frontier@[j],
        ) && arena@[frontier@[j] as int].weight >= arena@[c as int].weight by {
            if j == mi {
                assert(frontier@[j] == before[before.len() - 1]);
            } else {
                assert(frontier@[j] == before[j]);
            }
        }
        assert forall|x: usize| before.contains(x) && x != c implies frontier@.contains(x) by {
            let j = choose|j: int| 0 <= j < before.len() && before[j] == x;
            if j == mi {
                assert(false);
            } else if j == before.len() - 1 {
                assert(frontier@[mi as int] == x);
            } else {
                assert(frontier@[j] == x);
            }
        }
    }
    c
}

/// The automaton: a transition table of hyperarcs, initial states with
/// their starting weights, and a designated final state.
pub struct TreeAutomation<S> {
    transition: Transition<S>,
    start_state: Vec<(State, usize)>,
    final_state: Option<State>,
}

impl<S> TreeAutomation<S> {
    /// The automaton's well-formedness: its table is mirror-closed — a
    /// binary arc is registered once under each operand.  `new` establishes
    /// this and every method preserves it; the search relies on it to fire
    /// a binary arc from whichever operand is finalized last.
    pub closed spec fn wf(&self) -> bool {
        mirrored(self.transition.arcs())
    }
}

impl<S: SymbolTrait> TreeAutomation<S> {
    /// The registered arcs, as specifications see them.
    pub closed spec fn arcs(&self) -> Seq<Hyperarc<S>> {
        self.transition.arcs()
    }

    /// The initial states with their starting weights, in registration
    /// order.
    pub closed spec fn start(&self) -> Seq<(State, usize)> {
        self.start_state@
    }

    /// The designated final state, if one has been set.
    pub closed spec fn final_state(&self) -> Option<State> {
        self.final_state
    }

    /// A fresh automaton: no arcs, no initial states, no final state.
    pub fn new() -> (r: Self)
        ensures
            r.arcs() =~= Seq::<Hyperarc<S>>::empty(),
            r.start() =~= Seq::<(State, usize)>::empty(),
            r.final_state() is None,
            r.wf(),
    {
        let t = Transition::<S>::new();
        proof {
            assert(mirrored(t.arcs()));
        }
        TreeAutomation { transition: t, start_state: Vec::new(), final_state: None }
    }

    /// Registers a hyperarc.  A unary arc is stored once; a binary arc is
    /// stored symmetrically, keyed by either operand with the other as the
    /// recorded partner, so it can fire from whichever operand is finalized
    /// last.
    pub fn add_transition(&mut self, symbol: S, start: StatePair, end: State)
        requires
            old(self).wf(),
        ensures
            final(self).wf(),
            final(self).start() == old(self).start(),
            final(self).final_state() == old(self).final_state(),
            match start {
                StatePair::Single(st) => final(self).arcs() =~= old(self).arcs().push(
                    (Hyperarc { from: st, partner: None, symbol: symbol, target: end }),
                ),
                StatePair::Pair(a, b) => final(self).arcs() =~= old(self).arcs().push(
                    (Hyperarc { from: a, partner: Some(b), symbol: symbol, target: end }),
                ).push((Hyperarc { from: b, partner: Some(a), symbol: symbol, target: end })),
            },
    {
        let ghost arcs0 = self.transition.arcs();
        let ghost sp = start;
        let ghost sym0 = symbol;
        self.transition.add(symbol, start, end);
        proof {
            match sp {
                StatePair::Single(st) => lemma_mirrored_push_single(arcs0, st, sym0, end),
                StatePair::Pair(a, b) => lemma_mirrored_push_pair(arcs0, a, b, sym0, end),
            }
        }
    }

    /// Designates the final state, replacing any earlier designation.
    pub fn set_final_state(&mut self, final_state: State)
        ensures
            final(self).arcs() == old(self).arcs(),
            final(self).start() == old(self).start(),
            final(self).final_state() == Some(final_state),
            final(self).wf() == old(self).wf(),
    {
        self.final_state = Some(final_state);
    }

    /// Registers an initial state with its non-negative starting weight.
    pub fn add_initial_state(&mut self, start: State, weight: usize)
        ensures
            final(self).arcs() == old(self).arcs(),
            final(self).final_state() == old(self).final_state(),
            final(self).start() =~= old(self).start().push((start, weight)),
            final(self).wf() == old(self).wf(),
    {
        self.start_state.push((start, weight));
    }

    /// Runs the search and also returns the finalization trace: the states
    /// the search accepted, with their weights, in the order they were
    /// finalized.  The trace weights are non-decreasing: states are
    /// finalized cheapest first.
    pub fn find_path_traced(&self) -> (r: (
        Result<Derivation<S>, SearchError>,
        Ghost<Seq<(State, usize)>>,
    ))
        requires
            self.wf(),
        ensures
            monotone_weights(r.1@),
            match r.0 {
                Ok(d) => {
                    &&& self.final_state() is Some
                    &&& derivation_wf(d, self.arcs(), self.start())
                    &&& Some(d.nodes@[d.root as int].state) == self.final_state()
                    &&& r.1@.len() > 0
                    &&& r.1@.last() == ((d.nodes@[d.root as int].state, d.nodes@[
                        d.root as int].weight))
                    &&& forall|t: SpecTree<S>|
                        #[trigger] tree_valid(t, self.arcs(), self.start()) && tree_state(t)
                            == d.nodes@[d.root as int].state ==> tree_weight(t) >= d.nodes@[
                            d.root as int].weight
                },
                Err(SearchError::MissingFinalState) => self.final_state() is None,
                Err(SearchError::Unreachable) => {
                    &&& self.final_state() is Some
                    &&& forall|t: SpecTree<S>|
                        #[trigger] tree_valid(t, self.arcs(), self.start()) && Some(tree_state(t))
                            == self.final_state() ==> tree_weight(t) > usize::MAX
                },
            },
    {
        let ghost aa = self.arcs();
        let ghost sl = self.start();
        let ghost mut trace: Seq<(State, usize)> = Seq::empty();

        let goal: State = match self.final_state {
            None => {
                return (Err(SearchError::MissingFinalState), Ghost(trace));
            },
            Some(g) => g,
        };

        let mut arena: Vec<TreeNode<S>> = Vec::new();
        let mut best = StateIndexMap::new();
        let mut fin = StateIndexMap::new();
        let mut frontier: Vec<usize> = Vec::new();

        // Seed: one childless candidate per initial state, relaxed so the
        // best-known entry per state is the cheapest seen so far.
        let ns = self.start_state.len();
        let mut si: usize = 0;
        while si < ns
            invariant
                0 <= si <= ns,
                ns == sl.len(),
                sl == self.start(),
                aa == self.arcs(),
                arena_ok(arena@, aa, sl),
                map_wf(best@, arena@),
                map_wf(fin@, arena@),
                frontier_wf(frontier@, arena@),
                forall|s: State| #[trigger] lookup(fin@, s) is None,
                live_wf(best@, fin@, frontier@),
                forall|k: int|
                    0 <= k < si ==> target_bounded(
                        (#[trigger] sl[k]).0,
                        sl[k].1 as int,
                        arena@,
                        best@,
                        fin@,
                    ),
            decreases ns - si,
        {
            let (st, cost): (State, usize) = self.start_state[si];
            let ghost bestp = best@;
            let bo = best.get(st);
            let install: bool = match bo {
                None => true,
                Some(bi) => cost < arena[bi].weight,
            };
            if install {
                let idx = arena.len();
                let ghost prior = arena@;
                let ghost frp = frontier@;
                arena.push(
                    TreeNode {
                        state: st,
                        first_child: None,
                        second_child: None,
                        symbol: None,
                        weight: cost,
                    },
                );
                proof {
                    assert(sl[si as int] == (st, cost));
                    assert(is_start_entry(sl, st, cost));
                    assert forall|i: int| 0 <= i < arena@.len() implies node_ok(
                        arena@,
                        aa,
                        sl,
                        i,
                    ) by {
                        if i < prior.len() {
                            assert(node_ok(prior, aa, sl, i));
                        }
                    }
                }
                best.insert(st, idx);
                frontier.push(idx);
                proof {
                    assert forall|s: State|
                        (#[trigger] lookup(best@, s)) is Some && lookup(fin@, s)
                            is None implies match lookup(best@, s) {
                        Option::Some(i) => frontier@.contains(i),
                        Option::None => true,
                    } by {
                        if s == st {
                            assert(frontier@[frontier@.len() - 1] == idx);
                        } else {
                            assert(lookup(best@, s) == lookup(bestp, s));
                            match lookup(bestp, s) {
                                Option::Some(i) => {
                                    assert(frp.contains(i));
                                    let j = choose|j: int| 0 <= j < frp.len() && frp[j] == i;
                                    assert(frontier@[j] == i);
                                },
                                Option::None => {},
                            }
                        }
                    }
                    assert forall|k: int| 0 <= k <= si implies target_bounded(
                        (#[trigger] sl[k]).0,
                        sl[k].1 as int,
                        arena@,
                        best@,
                        fin@,
                    ) by {
                        let tgt = sl[k].0;
                        if tgt == st {
                            assert(lookup(best@, tgt) == Some(idx));
                            assert(arena@[idx as int].weight == cost);
                            if k < si {
                                assert(target_bounded(tgt, sl[k].1 as int, prior, bestp, fin@));
                            }
                        } else {
                            assert(lookup(best@, tgt) == lookup(bestp, tgt));
                            if k < si {
                                assert(target_bounded(tgt, sl[k].1 as int, prior, bestp, fin@));
                            }
                        }
                    }
                }
            } else {
                proof {
                    assert forall|k: int| 0 <= k <= si implies target_bounded(
                        (#[trigger] sl[k]).0,
                        sl[k].1 as int,
                        arena@,
                        best@,
                        fin@,
                    ) by {
                        if k < si {
                            assert(target_bounded(sl[k].0, sl[k].1 as int, arena@, best@, fin@));
                        }
                    }
                }
            }
            si = si + 1;
        }

        proof {
            assert forall|j: int| 0 <= j < aa.len() implies arc_relaxed(
                #[trigger] aa[j],
                arena@,
                best@,
                fin@,
            ) by {
                assert(lookup(fin@, aa[j].from) is None);
            }
            assert forall|t: SpecTree<S>| #[trigger] tree_valid(t, aa, sl) implies match lookup(
                fin@,
                tree_state(t),
            ) {
                Option::Some(i) => arena@[i as int].weight <= tree_weight(t),
                Option::None => true,
            } by {
                assert(lookup(fin@, tree_state(t)) is None);
            }
        }

        // The relaxation loop: repeatedly finalize the cheapest candidate.
        while frontier.len() > 0
            invariant
                sl == self.start(),
                aa == self.arcs(),
                self.final_state() == Some(goal),
                mirrored(aa),
                arena_ok(arena@, aa, sl),
                map_wf(best@, arena@),
                map_wf(fin@, arena@),
                frontier_wf(frontier@, arena@),
                frontier_bounded(frontier@, arena@, trace),
                monotone_weights(trace),
                all_relaxed(aa, arena@, best@, fin@),
                seeds_relaxed(sl, arena@, best@, fin@),
                live_wf(best@, fin@, frontier@),
                fin_optimal(fin@, arena@, aa, sl),
                trace.len() == 0 ==> (forall|s: State| #[trigger] lookup(fin@, s) is None),
                trace.len() > 0 ==> fin_bounded(fin@, arena@, trace.last().1 as int),
                lookup(fin@, goal) is None,
            decreases open_arc_count(aa, fin@), frontier@.len(),
        {
            let ghost fr0 = frontier@;
            let ghost fin0 = fin@;
            let cur = pop_min(&mut frontier, &arena);
            let cur_state: State = arena[cur].state;
            let cur_w: usize = arena[cur].weight;
            let live: bool = match best.get(cur_state) {
                None => false,
                Some(b) => b == cur,
            };
            if live && !fin.contains_key(cur_state) {
                proof {
                    assert(lookup(best@, cur_state) == Some(cur));
                    assert forall|t: SpecTree<S>|
                        tree_valid(t, aa, sl) && tree_state(t) == cur_state implies tree_weight(t)
                        >= cur_w by {
                        lemma_cut(t, aa, sl, arena@, best@, fin@, fr0, cur_w as int);
                    }
                }
                fin.insert(cur_state, cur);
                proof {
                    assert(fr0.contains(cur));
                    if trace.len() > 0 {
                        let j = choose|j: int| 0 <= j < fr0.len() && fr0[j] == cur;
                        assert(arena@[fr0[j] as int].weight >= trace.last().1);
                    }
                    let trace0 = trace;
                    trace = trace.push((cur_state, cur_w));
                    assert(trace.last() == ((cur_state, cur_w)));
                    lemma_open_count_insert(aa, fin0, fin@, cur_state);
                    assert forall|s: State| (#[trigger] lookup(fin@, s)) is Some implies match
                        lookup(fin@, s) {
                        Option::Some(i) => arena@[i as int].weight <= cur_w,
                        Option::None => true,
                    } by {
                        if s != cur_state {
                            assert(lookup(fin@, s) == lookup(fin0, s));
                            if trace0.len() > 0 {
                                assert(trace0.last().1 <= cur_w);
                            }
                        }
                    }
                    assert forall|t: SpecTree<S>| #[trigger] tree_valid(t, aa, sl) implies match
                        lookup(fin@, tree_state(t)) {
                        Option::Some(i) => arena@[i as int].weight <= tree_weight(t),
                        Option::None => true,
                    } by {
                        if tree_state(t) == cur_state {
                            assert(tree_weight(t) >= cur_w);
                        } else {
                            assert(lookup(fin@, tree_state(t)) == lookup(fin0, tree_state(t)));
                        }
                    }
                    assert forall|s: State|
                        (#[trigger] lookup(best@, s)) is Some && lookup(fin@, s)
                            is None implies match lookup(best@, s) {
                        Option::Some(i) => frontier@.contains(i),
                        Option::None => true,
                    } by {
                        if s != cur_state {
                            match lookup(best@, s) {
                                Option::Some(i) => {
                                    assert(lookup(fin0, s) is None);
                                    assert(fr0.contains(i));
                                    assert(arena@[i as int].state == s);
                                    assert(i != cur);
                                },
                                Option::None => {},
                            }
                        }
                    }
                    assert forall|k: int| 0 <= k < sl.len() implies target_bounded(
                        (#[trigger] sl[k]).0,
                        sl[k].1 as int,
                        arena@,
                        best@,
                        fin@,
                    ) by {
                        lemma_target_bounded_finalize(
                            sl[k].0,
                            sl[k].1 as int,
                            arena@,
                            best@,
                            fin0,
                            fin@,
                            cur_state,
                            cur,
                        );
                    }
                }
                if cur_state == goal {
                    return (Ok(Derivation { nodes: arena, root: cur }), Ghost(trace));
                }
                let arcs_list = self.transition.transition_list(cur_state, &fin);
                proof {
                    lemma_usable_props(aa, cur_state, fin@);
                    if arcs_list@.len() > 0 {
                        lemma_usable_nonempty_source(aa, cur_state, fin@);
                    }
                    assert forall|j: int| 0 <= j < aa.len() implies arc_relaxed(
                        #[trigger] aa[j],
                        arena@,
                        best@,
                        fin@,
                    ) || (exists|i: int|
                        0 <= i < arcs_list@.len() && covers(arcs_list@[i], aa[j], arena@, fin@)) by {
                        let e = aa[j];
                        match lookup(fin@, e.from) {
                            Option::None => {},
                            Option::Some(_) => {
                                match e.partner {
                                    Option::None => {
                                        if e.from == cur_state {
                                            lemma_usable_complete(aa, cur_state, fin@, j);
                                            let i = choose|i: int|
                                                0 <= i < arcs_list@.len() && arcs_list@[i] == e;
                                            assert(covers(arcs_list@[i], e, arena@, fin@));
                                        } else {
                                            assert(lookup(fin0, e.from) == lookup(fin@, e.from));
                                            assert(arc_relaxed(e, arena@, best@, fin0));
                                            assert(arc_sum(e, arena@, fin@) == arc_sum(
                                                e,
                                                arena@,
                                                fin0,
                                            ));
                                            if arc_sum(e, arena@, fin@) <= usize::MAX {
                                                lemma_target_bounded_finalize(
                                                    e.target,
                                                    arc_sum(e, arena@, fin0),
                                                    arena@,
                                                    best@,
                                                    fin0,
                                                    fin@,
                                                    cur_state,
                                                    cur,
                                                );
                                            }
                                        }
                                    },
                                    Option::Some(p) => {
                                        match lookup(fin@, p) {
                                            Option::None => {},
                                            Option::Some(_) => {
                                                if e.from == cur_state {
                                                    lemma_usable_complete(aa, cur_state, fin@, j);
                                                    let i = choose|i: int|
                                                        0 <= i < arcs_list@.len() && arcs_list@[i]
                                                            == e;
                                                    assert(covers(arcs_list@[i], e, arena@, fin@));
                                                } else if p == cur_state {
                                                    assert(has_arc(
                                                        aa,
                                                        p,
                                                        Option::Some(e.from),
                                                        e.symbol,
                                                        e.target,
                                                    ));
                                                    let m = Hyperarc {
                                                        from: cur_state,
                                                        partner: Option::Some(e.from),
                                                        symbol: e.symbol,
                                                        target: e.target,
                                                    };
                                                    let k = choose|k: int|
                                                        0 <= k < aa.len() && #[trigger] aa[k] == m;
                                                    assert(arc_open(aa[k], fin@));
                                                    lemma_usable_complete(aa, cur_state, fin@, k);
                                                    let i = choose|i: int|
                                                        0 <= i < arcs_list@.len() && arcs_list@[i]
                                                            == m;
                                                    assert(covers(arcs_list@[i], e, arena@, fin@));
                                                } else {
                                                    assert(lookup(fin0, e.from) == lookup(
                                                        fin@,
                                                        e.from,
                                                    ));
                                                    assert(lookup(fin0, p) == lookup(fin@, p));
                                                    assert(arc_relaxed(e, arena@, best@, fin0));
                                                    assert(arc_sum(e, arena@, fin@) == arc_sum(
                                                        e,
                                                        arena@,
                                                        fin0,
                                                    ));
                                                    if arc_sum(e, arena@, fin@) <= usize::MAX {
                                                        lemma_target_bounded_finalize(
                                                            e.target,
                                                            arc_sum(e, arena@, fin0),
                                                            arena@,
                                                            best@,
                                                            fin0,
                                                            fin@,
                                                            cur_state,
                                                            cur,
                                                        );
                                                    }
                                                }
                                            },
                                        }
                                    },
                                }
                            },
                        }
                    }
                }
                let na = arcs_list.len();
                let mut ai: usize = 0;
                while ai < na
                    invariant
                        0 <= ai <= na,
                        na == arcs_list@.len(),
                        na == 0 ==> frontier@.len() == fr0.len() - 1,
                        sl == self.start(),
                        aa == self.arcs(),
                        mirrored(aa),
                        forall|i: int|
                            0 <= i < arcs_list@.len() ==> {
                                let ar = #[trigger] arcs_list@[i];
                                aa.contains(ar) && ar.from == cur_state && arc_open(ar, fin@)
                            },
                        arena_ok(arena@, aa, sl),
                        map_wf(best@, arena@),
                        map_wf(fin@, arena@),
                        frontier_wf(frontier@, arena@),
                        frontier_bounded(frontier@, arena@, trace),
                        monotone_weights(trace),
                        trace.len() > 0,
                        trace.last() == ((cur_state, cur_w)),
                        (cur as int) < arena@.len(),
                        arena@[cur as int].state == cur_state,
                        arena@[cur as int].weight == cur_w,
                        lookup(fin@, cur_state) == Some(cur),
                        lookup(fin@, goal) is None,
                        seeds_relaxed(sl, arena@, best@, fin@),
                        live_wf(best@, fin@, frontier@),
                        fin_optimal(fin@, arena@, aa, sl),
                        fin_bounded(fin@, arena@, cur_w as int),
                        forall|j: int|
                            0 <= j < aa.len() ==> arc_relaxed(
                                #[trigger] aa[j],
                                arena@,
                                best@,
                                fin@,
                            ) || (exists|i: int|
                                ai <= i < na && covers(arcs_list@[i], aa[j], arena@, fin@)),
                    decreases na - ai,
                {
                    let a = &arcs_list[ai];
                    let ghost c = arcs_list@[ai as int];
                    let mut cand_w: usize = 0;
                    let mut second: Option<usize> = None;
                    let mut feasible: bool = false;
                    match a.partner {
                        None => {
                            let sw = a.symbol.weight();
                            if sw <= usize::MAX - cur_w {
                                cand_w = cur_w + sw;
                                feasible = true;
                            }
                        },
                        Some(p) => {
                            proof {
                                assert(arc_open(arcs_list@[ai as int], fin@));
                            }
                            let pio = fin.get(p);
                            if let Some(pi) = pio {
                                let pw = arena[pi].weight;
                                if pw <= usize::MAX - cur_w {
                                    let partial = cur_w + pw;
                                    let sw = a.symbol.weight();
                                    if sw <= usize::MAX - partial {
                                        cand_w = partial + sw;
                                        second = Some(pi);
                                        feasible = true;
                                    }
                                }
                            }
                        },
                    }
                    proof {
                        assert(feasible ==> cand_w == arc_sum(c, arena@, fin@));
                        assert(!feasible ==> arc_sum(c, arena@, fin@) > usize::MAX);
                        assert(arc_sum(c, arena@, fin@) >= cur_w);
                    }
                    if feasible && !fin.contains_key(a.target) {
                        let ghost bestp = best@;
                        let bo = best.get(a.target);
                        let install: bool = match bo {
                            None => true,
                            Some(bi) => cand_w < arena[bi].weight,
                        };
                        if install {
                            let idx = arena.len();
                            let ghost prior = arena@;
                            let ghost frp = frontier@;
                            arena.push(
                                TreeNode {
                                    state: a.target,
                                    first_child: Some(cur),
                                    second_child: second,
                                    symbol: Some(a.symbol.clone_sym()),
                                    weight: cand_w,
                                },
                            );
                            proof {
                                assert forall|i: int| 0 <= i < arena@.len() implies node_ok(
                                    arena@,
                                    aa,
                                    sl,
                                    i,
                                ) by {
                                    if i < prior.len() {
                                        assert(node_ok(prior, aa, sl, i));
                                    } else {
                                        assert(aa.contains(c));
                                        let j = choose|j: int| 0 <= j < aa.len() && aa[j] == c;
                                        match c.partner {
                                            Option::None => {
                                                assert(aa[j] == (Hyperarc {
                                                    from: arena@[cur as int].state,
                                                    partner: Option::None,
                                                    symbol: c.symbol,
                                                    target: c.target,
                                                }));
                                                assert(has_arc(
                                                    aa,
                                                    arena@[cur as int].state,
                                                    Option::None,
                                                    c.symbol,
                                                    c.target,
                                                ));
                                            },
                                            Option::Some(p) => {
                                                assert(aa[j] == (Hyperarc {
                                                    from: arena@[cur as int].state,
                                                    partner: Option::Some(p),
                                                    symbol: c.symbol,
                                                    target: c.target,
                                                }));
                                                assert(has_arc(
                                                    aa,
                                                    arena@[cur as int].state,
                                                    Option::Some(p),
                                                    c.symbol,
                                                    c.target,
                                                ));
                                            },
                                        }
                                    }
                                }
                                assert forall|x: Hyperarc<S>|
                                    arc_sum(x, arena@, fin@) == arc_sum(x, prior, fin@) by {}
                            }
                            best.insert(a.target, idx);
                            frontier.push(idx);
                            proof {
                                assert(arena@[idx as int].weight == cand_w);
                                assert(lookup(best@, c.target) == Some(idx));
                                assert(target_bounded(
                                    c.target,
                                    cand_w as int,
                                    arena@,
                                    best@,
                                    fin@,
                                ));
                                assert forall|s: State|
                                    (#[trigger] lookup(best@, s)) is Some && lookup(fin@, s)
                                        is None implies match lookup(best@, s) {
                                    Option::Some(i) => frontier@.contains(i),
                                    Option::None => true,
                                } by {
                                    if s == c.target {
                                        assert(frontier@[frontier@.len() - 1] == idx);
                                    } else {
                                        assert(lookup(best@, s) == lookup(bestp, s));
                                        match lookup(bestp, s) {
                                            Option::Some(i) => {
                                                assert(frp.contains(i));
                                                let j = choose|j: int|
                                                    0 <= j < frp.len() && frp[j] == i;
                                                assert(frontier@[j] == i);
                                            },
                                            Option::None => {},
                                        }
                                    }
                                }
                                assert forall|k: int| 0 <= k < sl.len() implies target_bounded(
                                    (#[trigger] sl[k]).0,
                                    sl[k].1 as int,
                                    arena@,
                                    best@,
                                    fin@,
                                ) by {
                                    lemma_target_bounded_install(
                                        sl[k].0,
                                        sl[k].1 as int,
                                        prior,
                                        arena@,
                                        bestp,
                                        best@,
                                        fin@,
                                        c.target,
                                        idx,
                                    );
                                }
                                assert forall|j: int| 0 <= j < aa.len() implies arc_relaxed(
                                    #[trigger] aa[j],
                                    arena@,
                                    best@,
                                    fin@,
                                ) || (exists|i: int|
                                    ai + 1 <= i < na && covers(
                                        arcs_list@[i],
                                        aa[j],
                                        arena@,
                                        fin@,
                                    )) by {
                                    let e = aa[j];
                                    if arc_relaxed(e, prior, bestp, fin@) {
                                        assert(arc_sum(e, arena@, fin@) == arc_sum(e, prior, fin@));
                                        if arc_sum(e, arena@, fin@) <= usize::MAX {
                                            match lookup(fin@, e.from) {
                                                Option::None => {},
                                                Option::Some(_) => {
                                                    match e.partner {
                                                        Option::None => {
                                                            lemma_target_bounded_install(
                                                                e.target,
                                                                arc_sum(e, prior, fin@),
                                                                prior,
                                                                arena@,
                                                                bestp,
                                                                best@,
                                                                fin@,
                                                                c.target,
                                                                idx,
                                                            );
                                                        },
                                                        Option::Some(p2) => {
                                                            if lookup(fin@, p2) is Some {
                                                                lemma_target_bounded_install(
                                                                    e.target,
                                                                    arc_sum(e, prior, fin@),
                                                                    prior,
                                                                    arena@,
                                                                    bestp,
                                                                    best@,
                                                                    fin@,
                                                                    c.target,
                                                                    idx,
                                                                );
                                                            }
                                                        },
                                                    }
                                                },
                                            }
                                        }
                                    } else {
                                        let i = choose|i: int|
                                            ai <= i < na && covers(arcs_list@[i], e, prior, fin@);
                                        assert(arc_sum(arcs_list@[i], arena@, fin@) == arc_sum(
                                            arcs_list@[i],
                                            prior,
                                            fin@,
                                        ));
                                        assert(arc_sum(e, arena@, fin@) == arc_sum(e, prior, fin@));
                                        if i == ai {
                                            assert(arc_sum(c, arena@, fin@) == cand_w);
                                            assert(target_bounded(
                                                e.target,
                                                arc_sum(e, arena@, fin@),
                                                arena@,
                                                best@,
                                                fin@,
                                            ));
                                        } else {
                                            assert(covers(arcs_list@[i], e, arena@, fin@));
                                        }
                                    }
                                }
                            }
                        } else {
                            proof {
                                assert forall|j: int| 0 <= j < aa.len() implies arc_relaxed(
                                    #[trigger] aa[j],
                                    arena@,
                                    best@,
                                    fin@,
                                ) || (exists|i: int|
                                    ai + 1 <= i < na && covers(
                                        arcs_list@[i],
                                        aa[j],
                                        arena@,
                                        fin@,
                                    )) by {
                                    let e = aa[j];
                                    if !arc_relaxed(e, arena@, best@, fin@) {
                                        let i = choose|i: int|
                                            ai <= i < na && covers(arcs_list@[i], e, arena@, fin@);
                                        if i == ai {
                                            assert(target_bounded(
                                                e.target,
                                                arc_sum(e, arena@, fin@),
                                                arena@,
                                                best@,
                                                fin@,
                                            ));
                                            assert(false);
                                        }
                                    }
                                }
                            }
                        }
                    } else {
                        proof {
                            assert forall|j: int| 0 <= j < aa.len() implies arc_relaxed(
                                #[trigger] aa[j],
                                arena@,
                                best@,
                                fin@,
                            ) || (exists|i: int|
                                ai + 1 <= i < na && covers(arcs_list@[i], aa[j], arena@, fin@)) by {
                                let e = aa[j];
                                if !arc_relaxed(e, arena@, best@, fin@) {
                                    let i = choose|i: int|
                                        ai <= i < na && covers(arcs_list@[i], e, arena@, fin@);
                                    if i == ai {
                                        if !feasible {
                                            assert(arc_sum(e, arena@, fin@) > usize::MAX);
                                            assert(arc_relaxed(e, arena@, best@, fin@));
                                        } else {
                                            assert(lookup(fin@, c.target) is Some);
                                            assert(target_bounded(
                                                e.target,
                                                arc_sum(e, arena@, fin@),
                                                arena@,
                                                best@,
                                                fin@,
                                            ));
                                            assert(arc_relaxed(e, arena@, best@, fin@));
                                        }
                                        assert(false);
                                    }
                                }
                            }
                        }
                    }
                    ai = ai + 1;
                }
            }
        }

        proof {
            assert forall|s: State| (#[trigger] lookup(best@, s)) is Some implies lookup(fin@, s)
                is Some by {
                if lookup(fin@, s) is None {
                    match lookup(best@, s) {
                        Option::Some(i) => {
                            assert(frontier@.contains(i));
                            assert(false);
                        },
                        Option::None => {},
                    }
                }
            }
            assert forall|t: SpecTree<S>|
                #[trigger] tree_valid(t, aa, sl) && Some(tree_state(t))
                    == self.final_state() implies tree_weight(t) > usize::MAX by {
                if tree_weight(t) <= usize::MAX {
                    lemma_exhausted(t, aa, sl, arena@, best@, fin@);
                }
            }
        }
        (Err(SearchError::Unreachable), Ghost(trace))
    }

    /// Runs the minimum-weight derivation search.  Returns the accepted
    /// derivation for the final state; `MissingFinalState` when no final
    /// state was designated; `Unreachable` when the frontier is exhausted
    /// before the final state is reached.
    pub fn find_path(&self) -> (r: Result<Derivation<S>, SearchError>)
        requires
            self.wf(),
        ensures
            match r {
                Ok(d) => {
                    &&& self.final_state() is Some
                    &&& derivation_wf(d, self.arcs(), self.start())
                    &&& Some(d.nodes@[d.root as int].state) == self.final_state()
                    &&& forall|t: SpecTree<S>|
                        #[trigger] tree_valid(t, self.arcs(), self.start()) && tree_state(t)
                            == d.nodes@[d.root as int].state ==> tree_weight(t) >= d.nodes@[
                            d.root as int].weight
                },
                Err(SearchError::MissingFinalState) => self.final_state() is None,
                Err(SearchError::Unreachable) => {
                    &&& self.final_state() is Some
                    &&& forall|t: SpecTree<S>|
                        #[trigger] tree_valid(t, self.arcs(), self.start()) && Some(tree_state(t))
                            == self.final_state() ==> tree_weight(t) > usize::MAX
                },
            },
    {
        let (r, _trace) = self.find_path_traced();
        r
    }
}

} // verus!

