use std::cell::Cell;

use l_star::automaton::{Automaton, DfaState};
use l_star::learner::{LearnError, Learner};
use l_star::teacher::Teacher;

fn word(s: &str) -> Vec<char> {
    s.chars().collect()
}

/// Runs `h` on `w`; `None` when a transition is missing.
fn accepts(h: &Automaton, w: &[char]) -> Option<bool> {
    let mut state = h.get_initial_state()?;
    for c in w {
        let target = state.transition(*c)?;
        state = h.get_state(target)?;
    }
    Some(state.is_accepting())
}

/// Every word over `alphabet` of length at most `n`.
fn all_words(alphabet: &[char], n: usize) -> Vec<Vec<char>> {
    let mut out = vec![Vec::new()];
    let mut frontier = vec![Vec::new()];
    for _ in 0..n {
        let mut next = Vec::new();
        for w in &frontier {
            for a in alphabet {
                let mut v: Vec<char> = w.clone();
                v.push(*a);
                next.push(v);
            }
        }
        out.extend(next.iter().cloned());
        frontier = next;
    }
    out
}

/// A teacher that knows its language as a predicate and answers equivalence
/// queries by comparing on every word up to a length.
struct PredicateTeacher {
    alphabet: Vec<char>,
    language: fn(&[char]) -> bool,
}

impl Teacher for PredicateTeacher {
    fn membership_query(&self, states: Vec<char>) -> bool {
        (self.language)(&states)
    }

    fn validate_hypothesis(&self, automaton: Automaton) -> Result<bool, Vec<Vec<char>>> {
        let bad: Vec<Vec<char>> = all_words(&self.alphabet, 6)
            .into_iter()
            .filter(|w| accepts(&automaton, w) != Some((self.language)(w)))
            .collect();
        if bad.is_empty() {
            Ok(true)
        } else {
            Err(bad)
        }
    }
}

fn even_as(w: &[char]) -> bool {
    w.iter().filter(|c| **c == 'a').count() % 2 == 0
}

fn only_as(w: &[char]) -> bool {
    w.iter().all(|c| *c == 'a')
}

fn even_length(w: &[char]) -> bool {
    w.len() % 2 == 0
}

#[test]
fn even_number_of_as() {
    let teacher = PredicateTeacher { alphabet: vec!['a', 'b'], language: even_as };
    assert!(teacher.membership_query(word("")));
    assert!(!teacher.membership_query(word("a")));
    assert!(teacher.membership_query(word("aa")));
    assert!(!teacher.membership_query(word("ab")));
    assert!(teacher.membership_query(word("aba")));
    let mut learner = Learner::new(vec!['a', 'b'], teacher);
    let h = learner.learn(100).unwrap();
    for w in ["", "aa", "abab", "aab", "b"] {
        assert_eq!(accepts(&h, &word(w)), Some(true), "{}", w);
    }
    for w in ["a", "bab", "ab"] {
        assert_eq!(accepts(&h, &word(w)), Some(false), "{}", w);
    }
    assert_eq!(h.get_states().len(), 2);
}

#[test]
fn only_as_has_accepting_start_and_sink() {
    let teacher = PredicateTeacher { alphabet: vec!['a', 'b'], language: only_as };
    let mut learner = Learner::new(vec!['a', 'b'], teacher);
    let h = learner.learn(100).unwrap();
    assert_eq!(h.get_states().len(), 2);
    let start = h.get_initial_state().unwrap();
    assert!(start.is_accepting());
    assert_eq!(start.transition('a'), Some(start.get_state_id()));
    let sink_id = start.transition('b').unwrap().clone();
    assert_ne!(&sink_id, start.get_state_id());
    let sink = h.get_state(&sink_id).unwrap();
    assert!(!sink.is_accepting());
    assert_eq!(sink.transition('a'), Some(&sink_id));
    assert_eq!(sink.transition('b'), Some(&sink_id));
}

#[test]
fn single_symbol_even_length() {
    let teacher = PredicateTeacher { alphabet: vec!['a'], language: even_length };
    let mut learner = Learner::new(vec!['a'], teacher);
    let h = learner.learn(100).unwrap();
    for n in 0..10 {
        let w: Vec<char> = std::iter::repeat('a').take(n).collect();
        assert_eq!(accepts(&h, &w), Some(n % 2 == 0));
    }
    assert_eq!(h.get_states().len(), 2);
}

/// Rejects the first hypothesis with the counterexample "ab", then accepts.
struct RejectOnce {
    rounds: Cell<usize>,
}

impl Teacher for RejectOnce {
    fn membership_query(&self, states: Vec<char>) -> bool {
        even_as(&states)
    }

    fn validate_hypothesis(&self, _automaton: Automaton) -> Result<bool, Vec<Vec<char>>> {
        let n = self.rounds.get();
        self.rounds.set(n + 1);
        if n == 0 {
            Err(vec![word("ab")])
        } else {
            Ok(true)
        }
    }
}

#[test]
fn counterexample_is_added_to_prefixes() {
    let mut learner = Learner::new(vec!['a', 'b'], RejectOnce { rounds: Cell::new(0) });
    let h = learner.learn(100);
    assert!(h.is_ok());
    assert!(learner.observation_table().get_prefixes().contains(&word("ab")));
}

/// Answers equivalence queries with `Ok(false)`, which the protocol does not allow.
struct BrokenTeacher;

impl Teacher for BrokenTeacher {
    fn membership_query(&self, states: Vec<char>) -> bool {
        states.is_empty()
    }

    fn validate_hypothesis(&self, _automaton: Automaton) -> Result<bool, Vec<Vec<char>>> {
        Ok(false)
    }
}

#[test]
fn unexpected_answer_aborts() {
    let mut learner = Learner::new(vec!['a', 'b'], BrokenTeacher);
    assert_eq!(learner.learn(100).err(), Some(LearnError::UnexpectedResponse));
}

#[test]
fn no_budget_stops_at_once() {
    let teacher = PredicateTeacher { alphabet: vec!['a', 'b'], language: even_as };
    let mut learner = Learner::new(vec!['a', 'b'], teacher);
    assert_eq!(learner.learn(0).err(), Some(LearnError::BudgetExhausted));
    assert_eq!(learner.observation_table().get_prefixes().len(), 1);
}

#[test]
fn prefixes_and_suffixes_only_grow() {
    let teacher = PredicateTeacher { alphabet: vec!['a', 'b'], language: only_as };
    let mut learner = Learner::new(vec!['a', 'b'], teacher);
    let s0 = learner.observation_table().get_prefixes().clone();
    let e0 = learner.observation_table().get_suffixes().clone();
    assert_eq!(s0, vec![Vec::<char>::new()]);
    assert_eq!(e0, vec![Vec::new(), word("a"), word("b")]);
    learner.learn(100).unwrap();
    let s1 = learner.observation_table().get_prefixes();
    let e1 = learner.observation_table().get_suffixes();
    assert!(s1.len() >= s0.len() && s1[..s0.len()] == s0[..]);
    assert!(e1.len() >= e0.len() && e1[..e0.len()] == e0[..]);
}

#[test]
fn language_needing_a_longer_suffix() {
    fn ends_in_ab(w: &[char]) -> bool {
        w.ends_with(&['a', 'b'])
    }
    let teacher = PredicateTeacher { alphabet: vec!['a', 'b'], language: ends_in_ab };
    let mut learner = Learner::new(vec!['a', 'b'], teacher);
    let h = learner.learn(200).unwrap();
    for w in all_words(&['a', 'b'], 6) {
        assert_eq!(accepts(&h, &w), Some(ends_in_ab(&w)));
    }
    assert_eq!(h.get_states().len(), 3);
}

#[test]
fn refresh_is_total_and_repeatable() {
    let teacher = PredicateTeacher { alphabet: vec!['a', 'b'], language: only_as };
    let mut learner = Learner::new(vec!['a', 'b'], teacher);
    learner.update_observation_table();
    let table = learner.observation_table();
    // S = {""}, E = {"", "a", "b"}: rows "", "a", "b".
    assert_eq!(table.row_answers(&word("")), Some(&vec![true, true, false]));
    assert_eq!(table.row_answers(&word("a")), Some(&vec![true, true, false]));
    assert_eq!(table.row_answers(&word("b")), Some(&vec![false, false, false]));
    assert_eq!(table.row_answers(&word("ab")), None);
    let before: Vec<Option<Vec<bool>>> =
        ["", "a", "b"].iter().map(|w| table.row_answers(&word(w)).cloned()).collect();
    learner.update_observation_table();
    let table = learner.observation_table();
    let after: Vec<Option<Vec<bool>>> =
        ["", "a", "b"].iter().map(|w| table.row_answers(&word(w)).cloned()).collect();
    assert_eq!(before, after);
}

#[test]
fn hypothesis_is_total_and_deterministic() {
    let teacher = PredicateTeacher { alphabet: vec!['a', 'b'], language: even_as };
    let mut learner = Learner::new(vec!['a', 'b'], teacher);
    let h = learner.learn(100).unwrap();
    for st in h.get_states() {
        for a in ['a', 'b'] {
            let target = st.transition(a).expect("a transition on every symbol");
            assert!(h.get_state(target).is_some());
        }
        assert_eq!(st.transition('c'), None);
    }
}

#[test]
fn verdicts_end_or_extend_the_run() {
    let teacher = PredicateTeacher { alphabet: vec!['a', 'b'], language: even_as };
    let mut learner = Learner::new(vec!['a', 'b'], teacher);
    let h = || Automaton::new(DfaState::new(Vec::new(), true));
    let done = learner.handle_verdict(h(), Ok(true));
    assert_eq!(done.map(|r| r.map(|a| a.get_states().len())), Some(Ok(1)));
    let broken = learner.handle_verdict(h(), Ok(false));
    assert_eq!(broken.map(|r| r.err()), Some(Some(LearnError::UnexpectedResponse)));
    assert_eq!(learner.observation_table().get_prefixes().len(), 1);
    let more = learner.handle_verdict(h(), Err(vec![word("ab"), word(""), word("ba"), word("ab")]));
    assert!(more.is_none());
    assert_eq!(learner.observation_table().get_prefixes(), &vec![word(""), word("ab"), word("ba")]);
}

#[test]
fn repair_then_hypothesis_by_hand() {
    let teacher = PredicateTeacher { alphabet: vec!['a', 'b'], language: only_as };
    let mut learner = Learner::new(vec!['a', 'b'], teacher);
    learner.update_observation_table();
    // "b" has a row no prefix has: the first repair adds it to S.
    assert!(!learner.repair());
    assert_eq!(learner.observation_table().get_prefixes(), &vec![word(""), word("b")]);
    assert!(learner.repair());
    let h = learner.gen_hypothesis();
    assert_eq!(h.get_states().len(), 2);
    assert_eq!(accepts(&h, &word("aaa")), Some(true));
    assert_eq!(accepts(&h, &word("aba")), Some(false));
}
