//! Active learning of deterministic finite automata with Angluin's L*:
//! an observation table is filled through a teacher's membership queries,
//! repaired until closed and consistent, and turned into a hypothesis that the
//! teacher either accepts or answers with counterexamples.

pub mod automaton;
pub mod learner;
pub mod teacher;
pub mod word;
