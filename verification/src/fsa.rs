//! Shared finite-state-automaton items: the automaton kinds and the errors
//! of automaton construction and conversion.
use vstd::prelude::*;

verus! {

/// The kind of a finite automaton.
#[derive(Debug, PartialEq, Eq, Structural, Clone, Copy)]
pub enum FSAType {
    NonDeterministic,
    Deterministic,
}

impl Default for FSAType {
    fn default() -> (r: Self)
        ensures
            r == FSAType::NonDeterministic,
    {
        FSAType::NonDeterministic
    }
}

impl FSAType {
    /// The display text of the automaton kind.
    pub open spec fn spec_display_text(self) -> Seq<char> {
        match self {
            FSAType::NonDeterministic => "Недетерминированный конечный автомат (НКА)"@,
            FSAType::Deterministic => "Детерминированный конечный автомат (ДКА)"@,
        }
    }

    /// Renders the automaton kind for display.
    pub fn display_text(&self) -> (r: String)
        ensures
            r@ == self.spec_display_text(),
    {
        broadcast use vstd::string::to_string_from_display_ensures_for_str;

        match self {
            FSAType::NonDeterministic => "Недетерминированный конечный автомат (НКА)".to_string(),
            FSAType::Deterministic => "Детерминированный конечный автомат (ДКА)".to_string(),
        }
    }
}

/// An error reported by automaton construction or conversion.
#[derive(Debug, PartialEq, Eq, Structural, Clone, Copy)]
pub enum FiniteAutomataError {
    /// The grammar handed to the conversion is not right-aligned regular.
    InvalidGrammarType,
    /// The pool of fresh capital-letter state names is exhausted.
    NamingCapacityExceeded,
}

} // verus!
