/// Basic implementation of an automaton state. Provides management for handling connections
/// between states and allows for some action to be executed while changing states. Designed to
/// be used in parser like solutions.
pub mod simple_state;
