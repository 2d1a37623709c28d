use l_star::automaton::{Automaton, DfaState};
use l_star::word::{concat_vec_elem, concat_vecs, words_eq};

#[test]
fn state_accessors() {
    let mut s = DfaState::new(vec!['a', 'b'], false);
    assert_eq!(s.get_state_id(), &vec!['a', 'b']);
    assert!(!s.is_accepting());
    s.set_accepting(true);
    assert!(s.is_accepting());
    assert_eq!(s.transition('a'), None);
}

#[test]
fn serialize_joins_with_separator() {
    let s = DfaState::new(vec!['a', 'b', 'c'], false);
    assert_eq!(s.serialize_state_id(""), "abc");
    assert_eq!(s.serialize_state_id(", "), "a, b, c");
    assert_eq!(DfaState::new(Vec::new(), true).serialize_state_id("-"), "");
}

#[test]
fn transitions_overwrite() {
    let mut s = DfaState::new(vec!['x'], false);
    s.set_transition('a', vec!['y']);
    s.set_transition('a', vec!['z']);
    s.set_transition('b', vec!['y']);
    assert_eq!(s.transition('a'), Some(&vec!['z']));
    assert_eq!(s.transition('b'), Some(&vec!['y']));
}

#[test]
fn add_state_is_idempotent() {
    let mut h = Automaton::new(DfaState::new(Vec::new(), true));
    h.add_state(DfaState::new(Vec::new(), false));
    assert_eq!(h.get_states().len(), 1);
    assert!(h.get_initial_state().unwrap().is_accepting());
    h.add_state(DfaState::new(vec!['a'], false));
    assert_eq!(h.get_states().len(), 2);
    assert!(h.get_state(&vec!['b']).is_none());
}

#[test]
fn add_transition_registers_endpoints_and_overwrites() {
    let p = DfaState::new(Vec::new(), true);
    let q = DfaState::new(vec!['q'], false);
    let r = DfaState::new(vec!['r'], true);
    let mut h = Automaton::new(p.clone());
    h.add_transition(&q, &r, &'a');
    assert_eq!(h.get_states().len(), 3);
    assert_eq!(h.get_state(&vec!['q']).unwrap().transition('a'), Some(&vec!['r']));
    h.add_transition(&q, &p, &'a');
    assert_eq!(h.get_state(&vec!['q']).unwrap().transition('a'), Some(&Vec::new()));
    assert_eq!(h.get_states().len(), 3);
}

#[test]
fn initial_state_can_move() {
    let p = DfaState::new(Vec::new(), true);
    let q = DfaState::new(vec!['q'], false);
    let mut h = Automaton::new(p);
    h.set_initial_state(&q);
    assert!(h.get_initial_state().is_none());
    h.add_state(q.clone());
    assert_eq!(h.get_initial_state().unwrap().get_state_id(), &vec!['q']);
}

#[test]
fn word_helpers() {
    assert_eq!(concat_vec_elem(&['a'], &'b'), vec!['a', 'b']);
    assert_eq!(concat_vecs(&['a'], &['b', 'c']), vec!['a', 'b', 'c']);
    assert!(words_eq(&vec!['a'], &vec!['a']));
    assert!(!words_eq(&vec!['a'], &vec!['a', 'a']));
}

#[test]
fn dot_lists_states_start_and_edges() {
    let p = DfaState::new(Vec::new(), true);
    let q = DfaState::new(vec!['a', 'b'], false);
    let mut h = Automaton::new(p.clone());
    h.add_transition(&p, &q, &'a');
    h.add_transition(&q, &q, &'b');
    let expected = "digraph DFA {\n    \"\" [shape=doublecircle];\n    \"ab\";\n    __start__ [shape=point];\n    __start__ -> \"\";\n    \"\" -> \"ab\" [label = \"a\"];\n    \"ab\" -> \"ab\" [label = \"b\"];\n}\n";
    assert_eq!(h.to_dot(), expected);
}
