use tree_automaton::automaton::{SearchError, TreeAutomation};
use tree_automaton::derivation::Derivation;
use tree_automaton::transition::StatePair;
use tree_automaton::{Label, SymbolTrait};

fn sym(id: usize, weight: usize) -> Label {
    Label { id, weight }
}

#[test]
fn scenario_a_single_unary_arc() {
    let mut aut: TreeAutomation<Label> = TreeAutomation::new();
    aut.add_initial_state(0, 0);
    aut.add_transition(sym(1, 1), StatePair::Single(0), 1);
    aut.set_final_state(1);
    let d: Derivation<Label> = aut.find_path().expect("s1 must be reachable");
    assert_eq!(d.weight(), 1);
    let root = d.root_node();
    assert_eq!(root.state, 1);
    assert!(root.first_child.is_some());
    assert!(root.second_child.is_none());
    assert_eq!(root.symbol.as_ref().map(|s| s.id), Some(1));
    let child = d.node(root.first_child.unwrap());
    assert_eq!(child.state, 0);
    assert_eq!(child.weight, 0);
    assert!(child.symbol.is_none());
    assert!(child.first_child.is_none());
}

#[test]
fn scenario_b_binary_arc_combines_both_operands() {
    let mut aut: TreeAutomation<Label> = TreeAutomation::new();
    aut.add_initial_state(0, 0);
    aut.add_initial_state(1, 2);
    aut.add_transition(sym(7, 3), StatePair::Pair(0, 1), 2);
    aut.set_final_state(2);
    let d = aut.find_path().expect("s2 must be reachable");
    assert_eq!(d.weight(), 5);
    let root = d.root_node();
    assert_eq!(root.state, 2);
    assert!(root.first_child.is_some());
    assert!(root.second_child.is_some());
    let a = d.node(root.first_child.unwrap());
    let b = d.node(root.second_child.unwrap());
    let mut states = vec![a.state, b.state];
    states.sort();
    assert_eq!(states, vec![0, 1]);
    assert_eq!(a.weight + b.weight, 2);
}

#[test]
fn scenario_c_unreachable_final_state() {
    let mut aut: TreeAutomation<Label> = TreeAutomation::new();
    aut.add_initial_state(0, 0);
    aut.add_transition(sym(1, 1), StatePair::Single(0), 1);
    aut.set_final_state(9);
    let r = aut.find_path();
    assert!(matches!(r, Err(SearchError::Unreachable)));
}

#[test]
fn missing_final_state_is_rejected() {
    let mut aut: TreeAutomation<Label> = TreeAutomation::new();
    aut.add_initial_state(0, 0);
    aut.add_transition(sym(1, 1), StatePair::Single(0), 1);
    let r = aut.find_path();
    assert!(matches!(r, Err(SearchError::MissingFinalState)));
}

#[test]
fn scenario_d_cheaper_of_two_paths_wins() {
    let mut aut: TreeAutomation<Label> = TreeAutomation::new();
    aut.add_initial_state(0, 0);
    aut.add_transition(sym(1, 5), StatePair::Single(0), 1);
    aut.add_transition(sym(2, 3), StatePair::Single(0), 1);
    aut.set_final_state(1);
    let d = aut.find_path().expect("s1 must be reachable");
    assert_eq!(d.weight(), 3);
    assert_eq!(d.root_node().symbol.as_ref().map(|s| s.id), Some(2));
}

#[test]
fn rerun_gives_identical_weight() {
    let mut aut: TreeAutomation<Label> = TreeAutomation::new();
    aut.add_initial_state(0, 0);
    aut.add_initial_state(1, 1);
    aut.add_transition(sym(1, 2), StatePair::Single(0), 2);
    aut.add_transition(sym(2, 1), StatePair::Single(1), 2);
    aut.add_transition(sym(3, 4), StatePair::Pair(2, 1), 3);
    aut.set_final_state(3);
    let w1 = aut.find_path().expect("reachable").weight();
    let w2 = aut.find_path().expect("reachable").weight();
    assert_eq!(w1, w2);
    assert_eq!(w1, 7);
}

#[test]
fn binary_arc_needs_both_operands() {
    // Only one operand of the binary arc is ever derivable: the target
    // must stay unreachable.
    let mut aut: TreeAutomation<Label> = TreeAutomation::new();
    aut.add_initial_state(0, 0);
    aut.add_transition(sym(1, 1), StatePair::Pair(0, 5), 2);
    aut.set_final_state(2);
    assert!(matches!(aut.find_path(), Err(SearchError::Unreachable)));
}

#[test]
fn binary_arc_fires_whichever_operand_finalizes_last() {
    // The partner (state 1, weight 9) finalizes after state 0: the arc
    // must still fire thanks to its symmetric registration.
    let mut aut: TreeAutomation<Label> = TreeAutomation::new();
    aut.add_initial_state(0, 0);
    aut.add_initial_state(1, 9);
    aut.add_transition(sym(4, 1), StatePair::Pair(0, 1), 2);
    aut.set_final_state(2);
    let d = aut.find_path().expect("s2 must be reachable");
    assert_eq!(d.weight(), 10);
}

#[test]
fn self_pair_uses_the_operand_twice() {
    let mut aut: TreeAutomation<Label> = TreeAutomation::new();
    aut.add_initial_state(0, 3);
    aut.add_transition(sym(1, 1), StatePair::Pair(0, 0), 1);
    aut.set_final_state(1);
    let d = aut.find_path().expect("s1 must be reachable");
    assert_eq!(d.weight(), 7);
}

#[test]
fn no_initial_states_means_unreachable() {
    let mut aut: TreeAutomation<Label> = TreeAutomation::new();
    aut.add_transition(sym(1, 1), StatePair::Single(0), 1);
    aut.set_final_state(1);
    assert!(matches!(aut.find_path(), Err(SearchError::Unreachable)));
}

#[test]
fn duplicate_initial_state_keeps_the_cheaper_weight() {
    let mut aut: TreeAutomation<Label> = TreeAutomation::new();
    aut.add_initial_state(0, 5);
    aut.add_initial_state(0, 2);
    aut.set_final_state(0);
    let d = aut.find_path().expect("an initial state is reachable");
    assert_eq!(d.weight(), 2);
}

#[test]
fn final_state_that_is_initial_returns_a_leaf() {
    let mut aut: TreeAutomation<Label> = TreeAutomation::new();
    aut.add_initial_state(4, 6);
    aut.set_final_state(4);
    let d = aut.find_path().expect("reachable");
    assert_eq!(d.weight(), 6);
    let root = d.root_node();
    assert!(root.symbol.is_none());
    assert!(root.first_child.is_none());
    assert!(root.second_child.is_none());
}

#[test]
fn longer_chain_picks_the_global_minimum() {
    // Two routes to state 3: 0 -(1)-> 1 -(1)-> 3 of weight 2, and the
    // binary combination (1, 2) of weight 1 + 4 + 0 = 5.
    let mut aut: TreeAutomation<Label> = TreeAutomation::new();
    aut.add_initial_state(0, 0);
    aut.add_initial_state(2, 4);
    aut.add_transition(sym(1, 1), StatePair::Single(0), 1);
    aut.add_transition(sym(2, 1), StatePair::Single(1), 3);
    aut.add_transition(sym(3, 0), StatePair::Pair(1, 2), 3);
    aut.set_final_state(3);
    let d = aut.find_path().expect("reachable");
    assert_eq!(d.weight(), 2);
}

#[test]
fn zero_weight_arcs_are_allowed() {
    let mut aut: TreeAutomation<Label> = TreeAutomation::new();
    aut.add_initial_state(0, 0);
    aut.add_transition(sym(1, 0), StatePair::Single(0), 1);
    aut.add_transition(sym(2, 0), StatePair::Single(1), 2);
    aut.set_final_state(2);
    let d = aut.find_path().expect("reachable");
    assert_eq!(d.weight(), 0);
}

#[test]
fn label_exposes_its_weight() {
    let s = sym(3, 11);
    assert_eq!(s.weight(), 11);
    let t = s.clone_sym();
    assert_eq!(s, t);
}
