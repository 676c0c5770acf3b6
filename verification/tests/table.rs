use tree_automaton::state_map::StateIndexMap;
use tree_automaton::transition::{StatePair, Transition};
use tree_automaton::Label;

fn sym(id: usize, weight: usize) -> Label {
    Label { id, weight }
}

#[test]
fn unary_arcs_are_always_usable() {
    let mut table: Transition<Label> = Transition::new();
    table.add(sym(1, 2), StatePair::Single(3), 4);
    let fin = StateIndexMap::new();
    let arcs = table.transition_list(3, &fin);
    assert_eq!(arcs.len(), 1);
    assert_eq!(arcs[0].from, 3);
    assert!(arcs[0].partner.is_none());
    assert_eq!(arcs[0].symbol.id, 1);
    assert_eq!(arcs[0].target, 4);
}

#[test]
fn binary_arc_waits_for_its_partner() {
    let mut table: Transition<Label> = Transition::new();
    table.add(sym(1, 2), StatePair::Pair(3, 5), 7);
    let mut fin = StateIndexMap::new();
    assert_eq!(table.transition_list(3, &fin).len(), 0);
    fin.insert(5, 0);
    let arcs = table.transition_list(3, &fin);
    assert_eq!(arcs.len(), 1);
    assert_eq!(arcs[0].partner, Some(5));
    assert_eq!(arcs[0].target, 7);
}

#[test]
fn binary_arc_is_registered_under_both_operands() {
    let mut table: Transition<Label> = Transition::new();
    table.add(sym(9, 1), StatePair::Pair(3, 5), 7);
    let mut fin = StateIndexMap::new();
    fin.insert(3, 0);
    let arcs = table.transition_list(5, &fin);
    assert_eq!(arcs.len(), 1);
    assert_eq!(arcs[0].from, 5);
    assert_eq!(arcs[0].partner, Some(3));
    assert_eq!(arcs[0].symbol.id, 9);
}

#[test]
fn arcs_from_other_states_are_not_returned() {
    let mut table: Transition<Label> = Transition::new();
    table.add(sym(1, 1), StatePair::Single(0), 1);
    table.add(sym(2, 1), StatePair::Single(2), 3);
    let fin = StateIndexMap::new();
    let arcs = table.transition_list(0, &fin);
    assert_eq!(arcs.len(), 1);
    assert_eq!(arcs[0].symbol.id, 1);
}

#[test]
fn duplicate_registration_is_kept_twice() {
    let mut table: Transition<Label> = Transition::new();
    table.add(sym(1, 1), StatePair::Single(0), 1);
    table.add(sym(1, 1), StatePair::Single(0), 1);
    let fin = StateIndexMap::new();
    assert_eq!(table.transition_list(0, &fin).len(), 2);
}

#[test]
fn state_map_insert_replaces_earlier_binding() {
    let mut m = StateIndexMap::new();
    assert_eq!(m.get(1), None);
    assert!(!m.contains_key(1));
    m.insert(1, 10);
    m.insert(2, 20);
    assert_eq!(m.get(1), Some(10));
    assert_eq!(m.get(2), Some(20));
    m.insert(1, 30);
    assert_eq!(m.get(1), Some(30));
    assert_eq!(m.get(2), Some(20));
    assert!(m.contains_key(1));
    assert!(!m.contains_key(3));
}
