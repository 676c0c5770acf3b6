//! The optimality argument for the search.
//!
//! The search finalizes states cheapest first; these predicates name the
//! facts the relaxation loop maintains, and the cut lemma turns them into
//! the classic Dijkstra argument, generalized to hyperarcs: any valid
//! derivation either weighs at least as much as everything still waiting in
//! the frontier, or its root is already finalized at no greater weight.

use vstd::prelude::*;

use crate::automaton::{frontier_wf, map_wf};
use crate::derivation::{
    lemma_tree_weight_nonneg, tree_state, tree_valid, tree_weight, SpecTree, TreeNode,
};
use crate::state_map::lookup;
use crate::transition::{has_arc, Hyperarc};
use crate::{State, SymbolTrait};

verus! {

/// The exact cost an arc entry charges once its operands are finalized:
/// the finalized operand weights plus the symbol weight.
pub open spec fn arc_sum<S: SymbolTrait>(
    a: Hyperarc<S>,
    nodes: Seq<TreeNode<S>>,
    fin: Seq<(State, usize)>,
) -> int {
    let base = match lookup(fin, a.from) {
        Option::Some(i) => nodes[i as int].weight as int,
        Option::None => 0,
    };
    let extra = match a.partner {
        Option::None => 0,
        Option::Some(p) => match lookup(fin, p) {
            Option::Some(k) => nodes[k as int].weight as int,
            Option::None => 0,
        },
    };
    base + extra + a.symbol.spec_weight()
}

/// The target state already has an entry of weight at most `w`: either
/// finalized, or best-known (and then still pending in the frontier).
pub open spec fn target_bounded<S: SymbolTrait>(
    tgt: State,
    w: int,
    nodes: Seq<TreeNode<S>>,
    best: Seq<(State, usize)>,
    fin: Seq<(State, usize)>,
) -> bool {
    match lookup(fin, tgt) {
        Option::Some(i) => nodes[i as int].weight <= w,
        Option::None => match lookup(best, tgt) {
            Option::Some(i) => nodes[i as int].weight <= w,
            Option::None => false,
        },
    }
}

/// An arc entry is relaxed: once all of its operands are finalized, its
/// target is bounded by the cost the arc charges, whenever that cost fits
/// the weight type at all.
pub open spec fn arc_relaxed<S: SymbolTrait>(
    a: Hyperarc<S>,
    nodes: Seq<TreeNode<S>>,
    best: Seq<(State, usize)>,
    fin: Seq<(State, usize)>,
) -> bool {
    match lookup(fin, a.from) {
        Option::None => true,
        Option::Some(_) => match a.partner {
            Option::None => arc_sum(a, nodes, fin) <= usize::MAX ==> target_bounded(
                a.target,
                arc_sum(a, nodes, fin),
                nodes,
                best,
                fin,
            ),
            Option::Some(p) => match lookup(fin, p) {
                Option::None => true,
                Option::Some(_) => arc_sum(a, nodes, fin) <= usize::MAX ==> target_bounded(
                    a.target,
                    arc_sum(a, nodes, fin),
                    nodes,
                    best,
                    fin,
                ),
            },
        },
    }
}

/// Every arc entry is relaxed.
pub open spec fn all_relaxed<S: SymbolTrait>(
    arcs: Seq<Hyperarc<S>>,
    nodes: Seq<TreeNode<S>>,
    best: Seq<(State, usize)>,
    fin: Seq<(State, usize)>,
) -> bool {
    forall|j: int| 0 <= j < arcs.len() ==> arc_relaxed(#[trigger] arcs[j], nodes, best, fin)
}

/// Every initial state's entry is bounded by its starting weight.
pub open spec fn seeds_relaxed<S: SymbolTrait>(
    start: Seq<(State, usize)>,
    nodes: Seq<TreeNode<S>>,
    best: Seq<(State, usize)>,
    fin: Seq<(State, usize)>,
) -> bool {
    forall|k: int|
        0 <= k < start.len() ==> target_bounded(
            (#[trigger] start[k]).0,
            start[k].1 as int,
            nodes,
            best,
            fin,
        )
}

/// Every best-known entry for a not yet finalized state still waits in the
/// frontier: the lazy-deletion discipline loses no pending candidate.
pub open spec fn live_wf(
    best: Seq<(State, usize)>,
    fin: Seq<(State, usize)>,
    fr: Seq<usize>,
) -> bool {
    forall|s: State|
        (#[trigger] lookup(best, s)) is Some && lookup(fin, s) is None ==> match lookup(best, s) {
            Option::Some(i) => fr.contains(i),
            Option::None => true,
        }
}

/// Every finalized weight is at most `bound`.
pub open spec fn fin_bounded<S: SymbolTrait>(
    fin: Seq<(State, usize)>,
    nodes: Seq<TreeNode<S>>,
    bound: int,
) -> bool {
    forall|s: State|
        (#[trigger] lookup(fin, s)) is Some ==> match lookup(fin, s) {
            Option::Some(i) => nodes[i as int].weight <= bound,
            Option::None => true,
        }
}

/// Every finalized state's weight undercuts every valid derivation of that
/// state: finalization is permanent because it is already optimal.
pub open spec fn fin_optimal<S: SymbolTrait>(
    fin: Seq<(State, usize)>,
    nodes: Seq<TreeNode<S>>,
    arcs: Seq<Hyperarc<S>>,
    start: Seq<(State, usize)>,
) -> bool {
    forall|t: SpecTree<S>|
        #[trigger] tree_valid(t, arcs, start) ==> match lookup(fin, tree_state(t)) {
            Option::Some(i) => nodes[i as int].weight <= tree_weight(t),
            Option::None => true,
        }
}

/// Relaxing `c` bounds `e`'s target at least as tightly as `e` requires:
/// the two entries share a target and `c` charges no more.  A binary arc's
/// mirror twin covers it this way.
pub open spec fn covers<S: SymbolTrait>(
    c: Hyperarc<S>,
    e: Hyperarc<S>,
    nodes: Seq<TreeNode<S>>,
    fin: Seq<(State, usize)>,
) -> bool {
    c.target == e.target && arc_sum(c, nodes, fin) <= arc_sum(e, nodes, fin)
}

/// Finalizing the live best candidate of one state preserves any target
/// bound: the finalized entry is the very node the bound already named.
pub proof fn lemma_target_bounded_finalize<S: SymbolTrait>(
    tgt: State,
    w0: int,
    nodes: Seq<TreeNode<S>>,
    best: Seq<(State, usize)>,
    fin0: Seq<(State, usize)>,
    fin1: Seq<(State, usize)>,
    s: State,
    c: usize,
)
    requires
        target_bounded(tgt, w0, nodes, best, fin0),
        lookup(fin0, s) is None,
        lookup(best, s) == Some(c),
        lookup(fin1, s) == Some(c),
        forall|s2: State| s2 != s ==> lookup(fin1, s2) == lookup(fin0, s2),
    ensures
        target_bounded(tgt, w0, nodes, best, fin1),
{
}

/// Installing a cheaper best candidate at the end of the arena preserves
/// any target bound.
pub proof fn lemma_target_bounded_install<S: SymbolTrait>(
    tgt: State,
    w0: int,
    nodes0: Seq<TreeNode<S>>,
    nodes1: Seq<TreeNode<S>>,
    best0: Seq<(State, usize)>,
    best1: Seq<(State, usize)>,
    fin: Seq<(State, usize)>,
    s: State,
    idx: usize,
)
    requires
        target_bounded(tgt, w0, nodes0, best0, fin),
        map_wf(best0, nodes0),
        map_wf(fin, nodes0),
        nodes1.len() == nodes0.len() + 1,
        forall|i: int| 0 <= i < nodes0.len() ==> nodes1[i] == nodes0[i],
        (idx as int) == nodes0.len(),
        lookup(best1, s) == Some(idx),
        forall|s2: State| s2 != s ==> lookup(best1, s2) == lookup(best0, s2),
        match lookup(best0, s) {
            Option::Some(i) => nodes1[idx as int].weight <= nodes0[i as int].weight,
            Option::None => true,
        },
    ensures
        target_bounded(tgt, w0, nodes1, best1, fin),
{
}

/// A target bounded by `w0` is either finalized at no more than `w0`, or
/// `w0` is at least the frontier's lower bound `w`.
proof fn lemma_bounded_target<S: SymbolTrait>(
    tgt: State,
    w0: int,
    nodes: Seq<TreeNode<S>>,
    best: Seq<(State, usize)>,
    fin: Seq<(State, usize)>,
    fr: Seq<usize>,
    w: int,
)
    requires
        target_bounded(tgt, w0, nodes, best, fin),
        map_wf(best, nodes),
        frontier_wf(fr, nodes),
        live_wf(best, fin, fr),
        forall|j: int| 0 <= j < fr.len() ==> nodes[(#[trigger] fr[j]) as int].weight >= w,
    ensures
        w0 >= w || match lookup(fin, tgt) {
            Option::Some(i) => nodes[i as int].weight <= w0,
            Option::None => false,
        },
{
    match lookup(fin, tgt) {
        Option::Some(_) => {},
        Option::None => {
            match lookup(best, tgt) {
                Option::Some(i) => {
                    assert(fr.contains(i));
                    let j = choose|j: int| 0 <= j < fr.len() && fr[j] == i;
                    assert(nodes[i as int].weight >= w);
                },
                Option::None => {},
            }
        },
    }
}

/// The cut argument of the Dijkstra-style search: with everything relaxed
/// and every frontier candidate weighing at least `w`, any valid derivation
/// either weighs at least `w` or has an already finalized root of no
/// greater weight.
pub proof fn lemma_cut<S: SymbolTrait>(
    t: SpecTree<S>,
    arcs: Seq<Hyperarc<S>>,
    start: Seq<(State, usize)>,
    nodes: Seq<TreeNode<S>>,
    best: Seq<(State, usize)>,
    fin: Seq<(State, usize)>,
    fr: Seq<usize>,
    w: int,
)
    requires
        tree_valid(t, arcs, start),
        map_wf(best, nodes),
        map_wf(fin, nodes),
        frontier_wf(fr, nodes),
        all_relaxed(arcs, nodes, best, fin),
        seeds_relaxed(start, nodes, best, fin),
        live_wf(best, fin, fr),
        forall|j: int| 0 <= j < fr.len() ==> nodes[(#[trigger] fr[j]) as int].weight >= w,
        w <= usize::MAX,
    ensures
        tree_weight(t) >= w || match lookup(fin, tree_state(t)) {
            Option::Some(i) => nodes[i as int].weight <= tree_weight(t),
            Option::None => false,
        },
    decreases t,
{
    match t {
        SpecTree::Leaf { state, weight } => {
            assert(target_bounded(state, weight as int, nodes, best, fin));
            lemma_bounded_target(state, weight as int, nodes, best, fin, fr, w);
        },
        SpecTree::Unary { state, sym, child } => {
            lemma_cut(*child, arcs, start, nodes, best, fin, fr, w);
            lemma_tree_weight_nonneg(*child);
            if tree_weight(*child) >= w {
            } else {
                let cs = tree_state(*child);
                let i = match lookup(fin, cs) {
                    Option::Some(i) => i,
                    Option::None => 0,
                };
                assert(lookup(fin, cs) == Some(i) && nodes[i as int].weight <= tree_weight(
                    *child,
                ));
                let e = Hyperarc { from: cs, partner: Option::None, symbol: sym, target: state };
                let j = choose|j: int| 0 <= j < arcs.len() && #[trigger] arcs[j] == e;
                assert(arc_relaxed(arcs[j], nodes, best, fin));
                let sum = arc_sum(e, nodes, fin);
                assert(sum == nodes[i as int].weight + sym.spec_weight());
                if sum <= usize::MAX {
                    assert(target_bounded(state, sum, nodes, best, fin));
                    lemma_bounded_target(state, sum, nodes, best, fin, fr, w);
                }
            }
        },
        SpecTree::Binary { state, sym, left, right } => {
            lemma_cut(*left, arcs, start, nodes, best, fin, fr, w);
            lemma_cut(*right, arcs, start, nodes, best, fin, fr, w);
            lemma_tree_weight_nonneg(*left);
            lemma_tree_weight_nonneg(*right);
            if tree_weight(*left) >= w || tree_weight(*right) >= w {
            } else {
                let ls = tree_state(*left);
                let rs = tree_state(*right);
                let i1 = match lookup(fin, ls) {
                    Option::Some(i) => i,
                    Option::None => 0,
                };
                let i2 = match lookup(fin, rs) {
                    Option::Some(i) => i,
                    Option::None => 0,
                };
                assert(lookup(fin, ls) == Some(i1) && nodes[i1 as int].weight <= tree_weight(
                    *left,
                ));
                assert(lookup(fin, rs) == Some(i2) && nodes[i2 as int].weight <= tree_weight(
                    *right,
                ));
                let e = Hyperarc {
                    from: ls,
                    partner: Option::Some(rs),
                    symbol: sym,
                    target: state,
                };
                let j = choose|j: int| 0 <= j < arcs.len() && #[trigger] arcs[j] == e;
                assert(arc_relaxed(arcs[j], nodes, best, fin));
                let sum = arc_sum(e, nodes, fin);
                assert(sum == nodes[i1 as int].weight + nodes[i2 as int].weight
                    + sym.spec_weight());
                if sum <= usize::MAX {
                    assert(target_bounded(state, sum, nodes, best, fin));
                    lemma_bounded_target(state, sum, nodes, best, fin, fr, w);
                }
            }
        },
    }
}

/// Once the frontier has drained, every valid derivation that fits the
/// weight type has a finalized root: the search misses nothing reachable.
pub proof fn lemma_exhausted<S: SymbolTrait>(
    t: SpecTree<S>,
    arcs: Seq<Hyperarc<S>>,
    start: Seq<(State, usize)>,
    nodes: Seq<TreeNode<S>>,
    best: Seq<(State, usize)>,
    fin: Seq<(State, usize)>,
)
    requires
        tree_valid(t, arcs, start),
        tree_weight(t) <= usize::MAX,
        map_wf(best, nodes),
        map_wf(fin, nodes),
        all_relaxed(arcs, nodes, best, fin),
        seeds_relaxed(start, nodes, best, fin),
        fin_optimal(fin, nodes, arcs, start),
        forall|s: State| (#[trigger] lookup(best, s)) is Some ==> lookup(fin, s) is Some,
    ensures
        lookup(fin, tree_state(t)) is Some,
    decreases t,
{
    match t {
        SpecTree::Leaf { state, weight } => {
            assert(target_bounded(state, weight as int, nodes, best, fin));
        },
        SpecTree::Unary { state, sym, child } => {
            lemma_tree_weight_nonneg(*child);
            lemma_exhausted(*child, arcs, start, nodes, best, fin);
            let cs = tree_state(*child);
            let i = match lookup(fin, cs) {
                Option::Some(i) => i,
                Option::None => 0,
            };
            assert(tree_valid(*child, arcs, start));
            assert(nodes[i as int].weight <= tree_weight(*child));
            let e = Hyperarc { from: cs, partner: Option::None, symbol: sym, target: state };
            let j = choose|j: int| 0 <= j < arcs.len() && #[trigger] arcs[j] == e;
            assert(arc_relaxed(arcs[j], nodes, best, fin));
            assert(arc_sum(e, nodes, fin) <= tree_weight(t));
            assert(target_bounded(state, arc_sum(e, nodes, fin), nodes, best, fin));
        },
        SpecTree::Binary { state, sym, left, right } => {
            lemma_tree_weight_nonneg(*left);
            lemma_tree_weight_nonneg(*right);
            lemma_exhausted(*left, arcs, start, nodes, best, fin);
            lemma_exhausted(*right, arcs, start, nodes, best, fin);
            let ls = tree_state(*left);
            let rs = tree_state(*right);
            let i1 = match lookup(fin, ls) {
                Option::Some(i) => i,
                Option::None => 0,
            };
            let i2 = match lookup(fin, rs) {
                Option::Some(i) => i,
                Option::None => 0,
            };
            assert(tree_valid(*left, arcs, start));
            assert(tree_valid(*right, arcs, start));
            assert(nodes[i1 as int].weight <= tree_weight(*left));
            assert(nodes[i2 as int].weight <= tree_weight(*right));
            let e = Hyperarc { from: ls, partner: Option::Some(rs), symbol: sym, target: state };
            let j = choose|j: int| 0 <= j < arcs.len() && #[trigger] arcs[j] == e;
            assert(arc_relaxed(arcs[j], nodes, best, fin));
            assert(arc_sum(e, nodes, fin) <= tree_weight(t));
            assert(target_bounded(state, arc_sum(e, nodes, fin), nodes, best, fin));
        },
    }
}

} // verus!
