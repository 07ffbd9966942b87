//! A finite-automaton execution engine.
//!
//! A graph of states is built once inside a [`automaton_state::StateGraph`], which hands out a
//! [`automaton_state::SharedAutomatonState`] handle for every state stored in it. The frozen
//! graph is then driven by an [`automaton::Automaton`]: it visits the current state, lets it
//! pick the next one while it works on a caller supplied context, and stops when a state
//! reports that the input has ended, that nothing matched, or that an action failed.
//!
//! What a run returns is stated over a mathematical model: every state names the effect of one
//! visit ([`automaton_state::AutomatonState::transition`]), and [`automaton::run_within`] folds
//! these effects along the path that the automaton takes. Because a state may lead back to
//! itself, a run over an endless supply of input need not stop; [`automaton::Automaton::run`]
//! is specified for the runs that do.
//!
//! [`simple_impl::simple_state::SimpleStateImplementation`] is a ready made state that keeps an
//! ordered list of connections, pulls one key per visit from the data and takes the first
//! connection whose matcher chooses that key.

/// Basic part of automaton representing a node which is connected to either other nodes or itself.
pub mod automaton_state;
/// Core mechanism representing an automaton that travels through defined states.
pub mod automaton;
/// Names for automatons that fail with a text.
pub mod automata;
/// Simple implementations of automaton state.
pub mod simple_impl;
