//! Derivation nodes and derivation trees.
//!
//! Nodes live in an arena: a node's children are indices of earlier arena
//! entries, so sharing a finalized node among many parents is an index copy
//! and no cycle can arise.  A node, once in the arena, is never changed.

use vstd::prelude::*;

use crate::transition::{has_arc, Hyperarc};
use crate::{State, SymbolTrait};

verus! {

/// One derivation node: the best known way to reach `state` with
/// accumulated weight `weight`.  A node with no symbol and no children is an
/// initial node; a node with a symbol has one child (unary arc) or two
/// (binary arc).
pub struct TreeNode<S> {
    pub state: State,
    pub first_child: Option<usize>,
    pub second_child: Option<usize>,
    pub symbol: Option<S>,
    pub weight: usize,
}

/// Whether the start list holds the given state with the given weight.
pub open spec fn is_start_entry(start: Seq<(State, usize)>, state: State, weight: usize) -> bool {
    exists|k: int| 0 <= k < start.len() && #[trigger] start[k] == (state, weight)
}

/// Whether arena entry `i` is justified by the automaton: an initial node
/// taken from the start list; a unary step over a registered arc whose
/// operand is the child's state; or a binary step over a registered arc
/// whose operands are the two children's states.  In every case the node's
/// weight is the exact sum of its children's weights and the symbol's
/// weight.  Children precede their parent, so a justified arena is acyclic.
pub open spec fn node_ok<S: SymbolTrait>(
    nodes: Seq<TreeNode<S>>,
    arcs: Seq<Hyperarc<S>>,
    start: Seq<(State, usize)>,
    i: int,
) -> bool {
    let n = nodes[i];
    match (n.symbol, n.first_child, n.second_child) {
        (Option::None, Option::None, Option::None) => is_start_entry(start, n.state, n.weight),
        (Option::Some(sym), Option::Some(c1), Option::None) => {
            &&& (c1 as int) < i
            &&& has_arc(arcs, nodes[c1 as int].state, Option::None, sym, n.state)
            &&& n.weight == nodes[c1 as int].weight + sym.spec_weight()
        },
        (Option::Some(sym), Option::Some(c1), Option::Some(c2)) => {
            &&& (c1 as int) < i
            &&& (c2 as int) < i
            &&& has_arc(
                arcs,
                nodes[c1 as int].state,
                Option::Some(nodes[c2 as int].state),
                sym,
                n.state,
            )
            &&& n.weight == nodes[c1 as int].weight + nodes[c2 as int].weight + sym.spec_weight()
        },
        _ => false,
    }
}

/// The result of a successful search: an arena of derivation nodes and the
/// index of the accepted node for the final state.  The arena may also hold
/// superseded candidates; every entry is justified, and the tree below
/// `root` is reached through child indices.
pub struct Derivation<S> {
    pub nodes: Vec<TreeNode<S>>,
    pub root: usize,
}

/// Every arena entry is justified by the automaton.
pub open spec fn arena_ok<S: SymbolTrait>(
    nodes: Seq<TreeNode<S>>,
    arcs: Seq<Hyperarc<S>>,
    start: Seq<(State, usize)>,
) -> bool {
    forall|i: int| 0 <= i < nodes.len() ==> #[trigger] node_ok(nodes, arcs, start, i)
}

/// A derivation is well formed for the given arcs and start list when its
/// root index is in range and every arena entry is justified.
pub open spec fn derivation_wf<S: SymbolTrait>(
    d: Derivation<S>,
    arcs: Seq<Hyperarc<S>>,
    start: Seq<(State, usize)>,
) -> bool {
    &&& (d.root as int) < d.nodes@.len()
    &&& arena_ok(d.nodes@, arcs, start)
}

/// An abstract derivation tree: the mathematical object over which the
/// search's optimality is stated.  A leaf takes an initial state with its
/// starting weight; an inner node applies a registered arc to one or two
/// derived operands.
pub ghost enum SpecTree<S> {
    Leaf { state: State, weight: usize },
    Unary { state: State, sym: S, child: Box<SpecTree<S>> },
    Binary { state: State, sym: S, left: Box<SpecTree<S>>, right: Box<SpecTree<S>> },
}

/// The state a derivation tree derives.
pub open spec fn tree_state<S>(t: SpecTree<S>) -> State {
    match t {
        SpecTree::Leaf { state, .. } => state,
        SpecTree::Unary { state, .. } => state,
        SpecTree::Binary { state, .. } => state,
    }
}

/// The total weight of a derivation tree: the sum of its leaf weights and
/// the weights of every symbol it applies.
pub open spec fn tree_weight<S: SymbolTrait>(t: SpecTree<S>) -> int
    decreases t,
{
    match t {
        SpecTree::Leaf { weight, .. } => weight as int,
        SpecTree::Unary { sym, child, .. } => tree_weight(*child) + sym.spec_weight(),
        SpecTree::Binary { sym, left, right, .. } => tree_weight(*left) + tree_weight(*right)
            + sym.spec_weight(),
    }
}

/// Whether a derivation tree is valid for the given arcs and start list:
/// each leaf takes an initial state with its starting weight, and each
/// inner node applies a registered arc whose operands are the states its
/// children derive.
pub open spec fn tree_valid<S: SymbolTrait>(
    t: SpecTree<S>,
    arcs: Seq<Hyperarc<S>>,
    start: Seq<(State, usize)>,
) -> bool
    decreases t,
{
    match t {
        SpecTree::Leaf { state, weight } => is_start_entry(start, state, weight),
        SpecTree::Unary { state, sym, child } => tree_valid(*child, arcs, start) && has_arc(
            arcs,
            tree_state(*child),
            Option::None,
            sym,
            state,
        ),
        SpecTree::Binary { state, sym, left, right } => tree_valid(*left, arcs, start)
            && tree_valid(*right, arcs, start) && has_arc(
            arcs,
            tree_state(*left),
            Option::Some(tree_state(*right)),
            sym,
            state,
        ),
    }
}

/// Weights never go negative: a tree's weight is at least zero.
pub proof fn lemma_tree_weight_nonneg<S: SymbolTrait>(t: SpecTree<S>)
    ensures
        tree_weight(t) >= 0,
    decreases t,
{
    match t {
        SpecTree::Leaf { .. } => {},
        SpecTree::Unary { child, .. } => lemma_tree_weight_nonneg(*child),
        SpecTree::Binary { left, right, .. } => {
            lemma_tree_weight_nonneg(*left);
            lemma_tree_weight_nonneg(*right);
        },
    }
}

/// Every justified arena entry is witnessed by a valid derivation tree of
/// the same state and the same weight.  In particular a well-formed
/// `Derivation` achieves its root's weight with a genuine derivation.
pub proof fn lemma_arena_to_tree<S: SymbolTrait>(
    nodes: Seq<TreeNode<S>>,
    arcs: Seq<Hyperarc<S>>,
    start: Seq<(State, usize)>,
    i: int,
)
    requires
        arena_ok(nodes, arcs, start),
        0 <= i < nodes.len(),
    ensures
        exists|t: SpecTree<S>|
            tree_valid(t, arcs, start) && tree_state(t) == nodes[i].state && tree_weight(t)
                == nodes[i].weight,
    decreases i,
{
    let n = nodes[i];
    assert(node_ok(nodes, arcs, start, i));
    match (n.symbol, n.first_child, n.second_child) {
        (Option::None, Option::None, Option::None) => {
            let t = SpecTree::<S>::Leaf { state: n.state, weight: n.weight };
            assert(tree_valid(t, arcs, start) && tree_state(t) == n.state && tree_weight(t)
                == n.weight);
        },
        (Option::Some(sym), Option::Some(c1), Option::None) => {
            lemma_arena_to_tree(nodes, arcs, start, c1 as int);
            let t1 = choose|t1: SpecTree<S>|
                tree_valid(t1, arcs, start) && tree_state(t1) == nodes[c1 as int].state
                    && tree_weight(t1) == nodes[c1 as int].weight;
            let t = SpecTree::<S>::Unary { state: n.state, sym: sym, child: Box::new(t1) };
            assert(tree_valid(t, arcs, start) && tree_state(t) == n.state && tree_weight(t)
                == n.weight);
        },
        (Option::Some(sym), Option::Some(c1), Option::Some(c2)) => {
            lemma_arena_to_tree(nodes, arcs, start, c1 as int);
            lemma_arena_to_tree(nodes, arcs, start, c2 as int);
            let t1 = choose|t1: SpecTree<S>|
                tree_valid(t1, arcs, start) && tree_state(t1) == nodes[c1 as int].state
                    && tree_weight(t1) == nodes[c1 as int].weight;
            let t2 = choose|t2: SpecTree<S>|
                tree_valid(t2, arcs, start) && tree_state(t2) == nodes[c2 as int].state
                    && tree_weight(t2) == nodes[c2 as int].weight;
            let t = SpecTree::<S>::Binary {
                state: n.state,
                sym: sym,
                left: Box::new(t1),
                right: Box::new(t2),
            };
            assert(tree_valid(t, arcs, start) && tree_state(t) == n.state && tree_weight(t)
                == n.weight);
        },
        _ => {},
    }
}

/// Re-running the search on an unmodified automaton yields a derivation of
/// identical weight: any two well-formed results for the same final state
/// that each undercut every valid derivation of that state must weigh the
/// same, however ties were broken.
pub proof fn lemma_rerun_same_weight<S: SymbolTrait>(
    arcs: Seq<Hyperarc<S>>,
    start: Seq<(State, usize)>,
    goal: State,
    d1: Derivation<S>,
    d2: Derivation<S>,
)
    requires
        derivation_wf(d1, arcs, start),
        derivation_wf(d2, arcs, start),
        d1.nodes@[d1.root as int].state == goal,
        d2.nodes@[d2.root as int].state == goal,
        forall|t: SpecTree<S>|
            #[trigger] tree_valid(t, arcs, start) && tree_state(t) == goal ==> tree_weight(t)
                >= d1.nodes@[d1.root as int].weight,
        forall|t: SpecTree<S>|
            #[trigger] tree_valid(t, arcs, start) && tree_state(t) == goal ==> tree_weight(t)
                >= d2.nodes@[d2.root as int].weight,
    ensures
        d1.nodes@[d1.root as int].weight == d2.nodes@[d2.root as int].weight,
{
    lemma_arena_to_tree(d1.nodes@, arcs, start, d1.root as int);
    lemma_arena_to_tree(d2.nodes@, arcs, start, d2.root as int);
    let t1 = choose|t: SpecTree<S>|
        tree_valid(t, arcs, start) && tree_state(t) == d1.nodes@[d1.root as int].state
            && tree_weight(t) == d1.nodes@[d1.root as int].weight;
    let t2 = choose|t: SpecTree<S>|
        tree_valid(t, arcs, start) && tree_state(t) == d2.nodes@[d2.root as int].state
            && tree_weight(t) == d2.nodes@[d2.root as int].weight;
    assert(tree_weight(t2) >= d1.nodes@[d1.root as int].weight);
    assert(tree_weight(t1) >= d2.nodes@[d2.root as int].weight);
}

impl<S: SymbolTrait> Derivation<S> {
    /// The total weight of the derivation.
    pub fn weight(&self) -> (w: usize)
        requires
            (self.root as int) < self.nodes@.len(),
        ensures
            w == self.nodes@[self.root as int].weight,
    {
        self.nodes[self.root].weight
    }

    /// The accepted derivation node for the final state.
    pub fn root_node(&self) -> (n: &TreeNode<S>)
        requires
            (self.root as int) < self.nodes@.len(),
        ensures
            n == self.nodes@[self.root as int],
    {
        &self.nodes[self.root]
    }

    /// Any node of the arena by index; children of the root are reached
    /// this way.
    pub fn node(&self, i: usize) -> (n: &TreeNode<S>)
        requires
            (i as int) < self.nodes@.len(),
        ensures
            n == self.nodes@[i as int],
    {
        &self.nodes[i]
    }
}

} // verus!
