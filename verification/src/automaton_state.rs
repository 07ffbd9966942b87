use vstd::prelude::*;
use crate::automaton::NextState;

verus! {

/// Handle of a state stored in a [`StateGraph`]. Edges and the automaton refer to states through
/// handles, so any number of them may point at one state and a state may point at itself.
#[derive(Clone, Copy, Debug, PartialEq, Eq, Structural)]
pub struct SharedAutomatonState {
    index: usize,
}

impl SharedAutomatonState {
    /// Position of the referenced state in the graph that issued this handle.
    pub closed spec fn position(self) -> int {
        self.index as int
    }

    /// Position of the referenced state in the graph that issued this handle.
    pub fn index(&self) -> (index: usize)
        ensures
            index == self.position(),
    {
        self.index
    }

    /// Two handles with the same position are the same handle.
    pub proof fn lemma_position_identifies(self, other: Self)
        ensures
            self.position() == other.position() <==> self == other,
            0 <= self.position() <= usize::MAX,
    {
    }
}

/// Representation of a node in automaton graph. States act as stop points for an automaton where
/// next states are determined or for halting the execution when no more state changes can be
/// done.
///
/// * `Id` - identifier reported when the automaton stops on this state.
/// * `D` - data threaded through the whole run.
/// * `E` - error with which an action may fail.
pub trait AutomatonState<Id, D, E> {
    /// Identifier of this state. An implementation that does not define it leaves it unspecified.
    closed spec fn id(&self) -> Id {
        arbitrary()
    }

    /// What one visit of this state does to `data`: the outcome of the visit and the data it
    /// leaves. An implementation that does not define it leaves it unspecified.
    closed spec fn transition(&self, data: D) -> (Result<NextState, E>, D) {
        arbitrary()
    }

    /// Owned identifier used for identifying current state.
    fn get_id_owned(&self) -> (id: Id)
        ensures
            id == self.id(),
    ;

    /// Reference to identifier used for identifying current state.
    fn get_id(&self) -> (id: &Id)
        ensures
            *id == self.id(),
    ;

    /// Represents change of current state in graph. Provides state to be executed by automaton.
    /// Implementations should use this method for executing operations connected with state
    /// change.
    fn execute_next_connection(&self, data: &mut D) -> (outcome: Result<NextState, E>)
        ensures
            (outcome, *final(data)) == self.transition(*old(data)),
    ;
}

/// Arena in which the states of one automaton live while the graph is wired up.
pub struct StateGraph<S> {
    states: Vec<S>,
}

impl<S> View for StateGraph<S> {
    type V = Seq<S>;

    closed spec fn view(&self) -> Seq<S> {
        self.states@
    }
}

impl<S> StateGraph<S> {
    /// Whether `handle` refers to a state of this graph.
    pub open spec fn contains(self, handle: SharedAutomatonState) -> bool {
        0 <= handle.position() < self@.len()
    }

    /// Creates a graph without states.
    pub fn new() -> (graph: Self)
        ensures
            graph@ == Seq::<S>::empty(),
    {
        StateGraph { states: Vec::new() }
    }

    /// Number of states stored so far.
    pub fn len(&self) -> (n: usize)
        ensures
            n == self@.len(),
    {
        self.states.len()
    }

    /// Whether `handle` refers to a state of this graph.
    pub fn has(&self, handle: SharedAutomatonState) -> (found: bool)
        ensures
            found == self.contains(handle),
    {
        handle.index < self.states.len()
    }

    /// The state behind `handle`.
    pub fn state(&self, handle: SharedAutomatonState) -> (state: &S)
        requires
            self.contains(handle),
        ensures
            *state == self@[handle.position()],
    {
        &self.states[handle.index]
    }

    /// Mutable access to the state behind `handle`, for wiring it up after it has been stored.
    /// Every other state and every handle stays as it was.
    pub fn state_mut(&mut self, handle: SharedAutomatonState) -> (state: &mut S)
        requires
            old(self).contains(handle),
        ensures
            *state == old(self)@[handle.position()],
            final(self)@ == old(self)@.update(handle.position(), *final(state)),
    {
        &mut self.states[handle.index]
    }

    /// Hands the states over, in the order of their handles.
    pub fn into_states(self) -> (states: Vec<S>)
        ensures
            states@ == self@,
    {
        self.states
    }
}

/// Creates shared reference for given state: stores it in `graph` and returns the handle under
/// which edges and the automaton find it. Handles issued earlier stay valid.
pub fn new_shared_automaton_state<S>(graph: &mut StateGraph<S>, state: S) -> (handle:
    SharedAutomatonState)
    ensures
        final(graph)@ == old(graph)@.push(state),
        handle.position() == old(graph)@.len(),
{
    let index: usize = graph.states.len();
    graph.states.push(state);
    SharedAutomatonState { index }
}

} // verus!
