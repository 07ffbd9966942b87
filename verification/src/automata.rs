use vstd::prelude::*;
use crate::automaton::{Automaton, AutomatonResult};

verus! {

/// Automaton whose states report failures as text.
pub type Automata<Id, D, S> = Automaton<Id, D, String, S>;

/// Why an [`Automata`] has stopped executing.
pub type AutomataResult<Id> = AutomatonResult<Id, String>;

} // verus!
