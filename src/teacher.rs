use vstd::prelude::*;
use crate::automaton::{accepts, Automaton};

verus! {

/// An oracle for an unknown language over `char` symbols.
pub trait Teacher {
    /// Whether the word is in the language; the same answer every time it is
    /// asked. An implementation states its language here. The default, the
    /// empty language, only lets an implementation written outside verified
    /// code compile: one that leaves it out voids every guarantee that
    /// `Learner` gives about the language, since its answers are then promised
    /// to be `false`.
    closed spec fn member(&self, w: Seq<char>) -> bool {
        false
    }

    /// Membership query.
    fn membership_query(&self, states: Vec<char>) -> (r: bool)
        ensures
            r == self.member(states@),
    ;

    /// Equivalence query: `Ok(true)` when the automaton accepts exactly the
    /// language, `Err` with words that tell the two apart otherwise. Any other
    /// answer breaks the protocol.
    fn validate_hypothesis(&self, automaton: Automaton) -> (r: Result<bool, Vec<Vec<char>>>)
        ensures
            r == Ok::<bool, Vec<Vec<char>>>(true) ==> forall|w: Seq<char>| accepts(automaton, w) == self.member(w),
    ;
}

} // verus!
