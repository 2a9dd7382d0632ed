//! A formal-language toolkit: grammar classification and cleaning, conversion
//! of right-linear regular grammars to nondeterministic finite automata,
//! subset-construction determinization, and DFA minimization.
#![verifier::loop_isolation(false)]

pub mod symbols;
pub mod state_transition_table;
pub mod grammar;
pub mod cleaning;
pub mod fsa;
pub mod nfa;
pub mod dfa;
