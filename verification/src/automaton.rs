use vstd::prelude::*;
use crate::automaton_state::{AutomatonState, SharedAutomatonState, StateGraph};
use std::marker::PhantomData;

verus! {

/// Result of an attempt of determining next target state.
#[derive(Clone, Copy, Debug, PartialEq, Eq, Structural)]
pub enum NextState {
    /// Automaton should take provided state for the next iteration.
    Continue(SharedAutomatonState),
    /// The input data has ended so there is no way for matching next state.
    ProcessEnded,
    /// There are no possible target states for received input data.
    NotFound,
}

/// Iterator for providing next key.
pub trait KeyIter<K> {
    fn next(&mut self) -> Option<K>;
}

/// Provides information on why automaton has stopped executing.
#[derive(Debug, PartialEq, Eq)]
pub enum AutomatonResult<Id, E> {
    /// Automaton execution ended because no more keys could be extracted. Contains identifier of
    /// current state in automaton execution - no more keys could be extracted after reaching this
    /// state.
    EmptyIter(Id),
    /// No connection could be matched for a key. Contains identifier of current state in
    /// automaton execution - no connections could be found on this state for given key.
    CouldNotFindNextState(Id),
    /// An error occured while executing function assigned to connection. Contains error
    /// generated while changing state.
    Error(E),
}

impl<Id, E> AutomatonResult<Id, E> {
    pub fn is_empty_iter(&self) -> (answer: bool)
        ensures
            answer == (self is EmptyIter),
    {
        matches!(self, AutomatonResult::EmptyIter(_))
    }

    pub fn is_could_not_find_next_state(&self) -> (answer: bool)
        ensures
            answer == (self is CouldNotFindNextState),
    {
        matches!(self, AutomatonResult::CouldNotFindNextState(_))
    }

    pub fn is_error(&self) -> (answer: bool)
        ensures
            answer == (self is Error),
    {
        matches!(self, AutomatonResult::Error(_))
    }
}

/// Whether a visit that ends with `outcome` continues to a next state.
pub open spec fn goes_on<E>(outcome: Result<NextState, E>) -> bool {
    outcome matches Ok(NextState::Continue(_))
}

/// Whether `outcome`, if it continues, continues to one of the first `len` states of a graph.
pub open spec fn stays_within<E>(outcome: Result<NextState, E>, len: nat) -> bool {
    outcome matches Ok(NextState::Continue(target)) ==> 0 <= target.position() < len
}

/// Whether every state of `states` only ever continues to a state of `states`.
pub open spec fn closed_under_transitions<Id, D, E, S: AutomatonState<Id, D, E>>(
    states: Seq<S>,
) -> bool {
    forall|i: int, data: D|
        0 <= i < states.len() ==> stays_within(
            (#[trigger] states[i].transition(data)).0,
            states.len(),
        )
}

/// The run that starts by visiting the state at `current` with `data`, cut off after `visits`
/// visits: the reason for which it stops and the data it leaves, or `None` if it has not stopped
/// by then.
pub open spec fn run_within<Id, D, E, S: AutomatonState<Id, D, E>>(
    states: Seq<S>,
    current: int,
    data: D,
    visits: nat,
) -> Option<(AutomatonResult<Id, E>, D)>
    decreases visits,
{
    if visits == 0 {
        None
    } else {
        let (outcome, left) = states[current].transition(data);
        match outcome {
            Err(error) => Some((AutomatonResult::Error(error), left)),
            Ok(NextState::Continue(next)) => run_within(
                states,
                next.position(),
                left,
                (visits - 1) as nat,
            ),
            Ok(NextState::NotFound) => Some(
                (AutomatonResult::CouldNotFindNextState(states[current].id()), left),
            ),
            Ok(NextState::ProcessEnded) => Some(
                (AutomatonResult::EmptyIter(states[current].id()), left),
            ),
        }
    }
}

/// A run that has stopped within some number of visits stops in the same way within any larger
/// number.
pub proof fn lemma_run_within_is_stable<Id, D, E, S: AutomatonState<Id, D, E>>(
    states: Seq<S>,
    current: int,
    data: D,
    visits: nat,
    more: nat,
)
    requires
        run_within(states, current, data, visits) is Some,
        visits <= more,
    ensures
        run_within(states, current, data, more) == run_within(states, current, data, visits),
    decreases visits,
{
    if visits > 0 {
        let (outcome, left) = states[current].transition(data);
        if let Ok(NextState::Continue(next)) = outcome {
            lemma_run_within_is_stable(
                states,
                next.position(),
                left,
                (visits - 1) as nat,
                (more - 1) as nat,
            );
        }
    }
}

/// However many visits a run is allowed, once it stops within them it has made the same visits.
pub proof fn lemma_visits_stop_with_run<Id, D, E, S: AutomatonState<Id, D, E>>(
    states: Seq<S>,
    current: int,
    data: D,
    visits: nat,
    more: nat,
)
    requires
        run_within(states, current, data, visits) is Some,
        run_within(states, current, data, more) is Some,
    ensures
        visits_within(states, current, data, more) == visits_within(
            states,
            current,
            data,
            visits,
        ),
    decreases visits,
{
    if visits > 0 && more > 0 {
        let (outcome, left) = states[current].transition(data);
        if let Ok(NextState::Continue(next)) = outcome {
            lemma_visits_stop_with_run(
                states,
                next.position(),
                left,
                (visits - 1) as nat,
                (more - 1) as nat,
            );
        }
    }
}

/// The reason for which a run stops on the state with identifier `id` when a visit of it ends
/// with `outcome`; `None` where the run goes on.
pub open spec fn stop_reason<Id, E>(id: Id, outcome: Result<NextState, E>) -> Option<
    AutomatonResult<Id, E>,
> {
    match outcome {
        Err(error) => Some(AutomatonResult::Error(error)),
        Ok(NextState::Continue(_)) => None,
        Ok(NextState::NotFound) => Some(AutomatonResult::CouldNotFindNextState(id)),
        Ok(NextState::ProcessEnded) => Some(AutomatonResult::EmptyIter(id)),
    }
}

/// The visits that the run of [`run_within`] makes, in order: the position of each visited state
/// and the data handed to it.
pub open spec fn visits_within<Id, D, E, S: AutomatonState<Id, D, E>>(
    states: Seq<S>,
    current: int,
    data: D,
    visits: nat,
) -> Seq<(int, D)>
    decreases visits,
{
    if visits == 0 {
        Seq::empty()
    } else {
        let (outcome, left) = states[current].transition(data);
        match outcome {
            Ok(NextState::Continue(next)) => seq![(current, data)] + visits_within(
                states,
                next.position(),
                left,
                (visits - 1) as nat,
            ),
            _ => seq![(current, data)],
        }
    }
}

/// What the visit `visit` = (position, data) does in `states`.
pub open spec fn visit_effect<Id, D, E, S: AutomatonState<Id, D, E>>(
    states: Seq<S>,
    visit: (int, D),
) -> (Result<NextState, E>, D) {
    states[visit.0].transition(visit.1)
}

/// The reason for which the run stops at the visit `visit`, `None` where the run goes on.
pub open spec fn visit_stop<Id, D, E, S: AutomatonState<Id, D, E>>(
    states: Seq<S>,
    visit: (int, D),
) -> Option<AutomatonResult<Id, E>> {
    stop_reason(states[visit.0].id(), visit_effect(states, visit).0)
}

/// Whether the visit `visit` continues to the visit `next`: to the state that `next` visits, with
/// the data that `next` is handed.
pub open spec fn leads_to<Id, D, E, S: AutomatonState<Id, D, E>>(
    states: Seq<S>,
    visit: (int, D),
    next: (int, D),
) -> bool {
    let (outcome, left) = visit_effect(states, visit);
    &&& outcome matches Ok(NextState::Continue(target))
    &&& target.position() == next.0
    &&& left == next.1
}

/// A run visits at most as many states as it is allowed to, and starts where it is told to.
pub proof fn lemma_visits_begin<Id, D, E, S: AutomatonState<Id, D, E>>(
    states: Seq<S>,
    current: int,
    data: D,
    visits: nat,
)
    ensures
        visits_within(states, current, data, visits).len() <= visits,
        visits > 0 ==> visits_within(states, current, data, visits).len() > 0
            && visits_within(states, current, data, visits)[0] == (current, data),
    decreases visits,
{
    if visits > 0 {
        let (outcome, left) = states[current].transition(data);
        if let Ok(NextState::Continue(next)) = outcome {
            lemma_visits_begin(states, next.position(), left, (visits - 1) as nat);
        }
    }
}

/// Every visit but the last continues to the state visited next and hands it the data that it
/// left: the data reaching a state reflects exactly the visits made before it.
pub proof fn lemma_visits_are_linked<Id, D, E, S: AutomatonState<Id, D, E>>(
    states: Seq<S>,
    current: int,
    data: D,
    visits: nat,
    i: int,
)
    requires
        0 <= i,
        i + 1 < visits_within(states, current, data, visits).len(),
    ensures
        leads_to(
            states,
            visits_within(states, current, data, visits)[i],
            visits_within(states, current, data, visits)[i + 1],
        ),
    decreases visits,
{
    let (outcome, left) = states[current].transition(data);
    if let Ok(NextState::Continue(next)) = outcome {
        lemma_visits_begin(states, next.position(), left, (visits - 1) as nat);
        if i > 0 {
            lemma_visits_are_linked(states, next.position(), left, (visits - 1) as nat, i - 1);
        }
    }
}

/// A run stops at the first visit that does not continue: that visit is the last one, its
/// outcome decides the result, and the data is left as that visit left it.
pub proof fn lemma_run_stops_with_visit<Id, D, E, S: AutomatonState<Id, D, E>>(
    states: Seq<S>,
    current: int,
    data: D,
    visits: nat,
    i: int,
)
    requires
        0 <= i < visits_within(states, current, data, visits).len(),
        visit_stop(states, visits_within(states, current, data, visits)[i]) is Some,
    ensures
        visits_within(states, current, data, visits).len() == i + 1,
        run_within(states, current, data, visits) == Some(
            (
                visit_stop(states, visits_within(states, current, data, visits)[i])->Some_0,
                visit_effect(states, visits_within(states, current, data, visits)[i]).1,
            ),
        ),
    decreases visits,
{
    let (outcome, left) = states[current].transition(data);
    if let Ok(NextState::Continue(next)) = outcome {
        lemma_visits_begin(states, next.position(), left, (visits - 1) as nat);
        lemma_run_stops_with_visit(states, next.position(), left, (visits - 1) as nat, i - 1);
    }
}

/// A run that has stopped has stopped at its last visit.
pub proof fn lemma_stopped_run_ends_path<Id, D, E, S: AutomatonState<Id, D, E>>(
    states: Seq<S>,
    current: int,
    data: D,
    visits: nat,
)
    requires
        run_within(states, current, data, visits) is Some,
    ensures
        visits_within(states, current, data, visits).len() > 0,
        run_within(states, current, data, visits) == Some(
            (
                visit_stop(states, visits_within(states, current, data, visits).last())->Some_0,
                visit_effect(states, visits_within(states, current, data, visits).last()).1,
            ),
        ),
        visit_stop(states, visits_within(states, current, data, visits).last()) is Some,
    decreases visits,
{
    let (outcome, left) = states[current].transition(data);
    if let Ok(NextState::Continue(next)) = outcome {
        lemma_stopped_run_ends_path(states, next.position(), left, (visits - 1) as nat);
    }
}

/// Termination: where some measure of the data drops with every visit that continues, a run
/// stops, after at most one visit more than the measure of the data it starts with.
pub proof fn lemma_measure_bounds_run<Id, D, E, S: AutomatonState<Id, D, E>>(
    states: Seq<S>,
    current: int,
    data: D,
    measure: spec_fn(D) -> nat,
)
    requires
        0 <= current < states.len(),
        closed_under_transitions::<Id, D, E, S>(states),
        forall|i: int, fed: D|
            0 <= i < states.len() && goes_on((#[trigger] states[i].transition(fed)).0)
                ==> measure(states[i].transition(fed).1) < measure(fed),
    ensures
        run_within(states, current, data, measure(data) + 1) is Some,
    decreases measure(data),
{
    let (outcome, left) = states[current].transition(data);
    if let Ok(NextState::Continue(next)) = outcome {
        assert(stays_within(outcome, states.len()));
        lemma_measure_bounds_run(states, next.position(), left, measure);
        lemma_run_within_is_stable(
            states,
            next.position(),
            left,
            measure(left) + 1,
            measure(data) as nat,
        );
    }
}

/// Finite-state automaton that crawls around a specified graph until no more state changes can
/// be done.
pub struct Automaton<Id, D, E, S> {
    states: Vec<S>,
    start_state: SharedAutomatonState,
    _id_phantom: PhantomData<Id>,
    _data_phantom: PhantomData<D>,
    _error_phantom: PhantomData<E>,
}

impl<Id, D, E, S: AutomatonState<Id, D, E>> Automaton<Id, D, E, S> {
    /// The states of the graph, in the order of their handles.
    pub closed spec fn states(self) -> Seq<S> {
        self.states@
    }

    /// Handle of the state that every run visits first.
    pub closed spec fn start(self) -> SharedAutomatonState {
        self.start_state
    }

    /// The start state is a state of the graph, and no state leads out of the graph.
    pub open spec fn well_formed(self) -> bool {
        &&& 0 <= self.start().position() < self.states().len()
        &&& closed_under_transitions::<Id, D, E, S>(self.states())
    }

    /// Whether a run on `data` stops after finitely many visits.
    pub open spec fn halts(self, data: D) -> bool {
        exists|visits: nat|
            (#[trigger] run_within::<Id, D, E, S>(
                self.states(),
                self.start().position(),
                data,
                visits,
            )) is Some
    }

    /// Number of visits after which a run on `data` has stopped, if it stops at all.
    pub open spec fn visits_needed(self, data: D) -> nat {
        choose|visits: nat|
            (#[trigger] run_within::<Id, D, E, S>(
                self.states(),
                self.start().position(),
                data,
                visits,
            )) is Some
    }

    /// What a run on `data` that stops returns, and the data it leaves.
    pub open spec fn outcome(self, data: D) -> (AutomatonResult<Id, E>, D) {
        run_within::<Id, D, E, S>(
            self.states(),
            self.start().position(),
            data,
            self.visits_needed(data),
        )->Some_0
    }

    /// A run that stops within `visits` visits halts, and its outcome is what it stopped with.
    pub proof fn lemma_outcome_within(self, data: D, visits: nat)
        requires
            run_within::<Id, D, E, S>(self.states(), self.start().position(), data, visits)
                is Some,
        ensures
            self.halts(data),
            Some(self.outcome(data)) == run_within::<Id, D, E, S>(
                self.states(),
                self.start().position(),
                data,
                visits,
            ),
    {
        let needed = self.visits_needed(data);
        if needed <= visits {
            lemma_run_within_is_stable(
                self.states(),
                self.start().position(),
                data,
                needed,
                visits,
            );
        } else {
            lemma_run_within_is_stable(
                self.states(),
                self.start().position(),
                data,
                visits,
                needed,
            );
        }
    }

    /// The visits that a run on `data` makes, in order: the position of each visited state and
    /// the data handed to it.
    pub open spec fn path(self, data: D) -> Seq<(int, D)> {
        visits_within::<Id, D, E, S>(
            self.states(),
            self.start().position(),
            data,
            self.visits_needed(data),
        )
    }

    /// A run that stops starts on the start state with the data it is given, and every visit
    /// but the last continues to the next one: the data that reaches a state reflects exactly
    /// the visits made before it.
    pub proof fn lemma_path_is_linked(self, data: D)
        requires
            self.halts(data),
        ensures
            self.path(data).len() > 0,
            self.path(data)[0] == (self.start().position(), data),
            forall|i: int|
                0 <= i && i + 1 < self.path(data).len() ==> leads_to(
                    self.states(),
                    #[trigger] self.path(data)[i],
                    self.path(data)[i + 1],
                ),
    {
        let needed = self.visits_needed(data);
        lemma_visits_begin(self.states(), self.start().position(), data, needed);
        assert forall|i: int| 0 <= i && i + 1 < self.path(data).len() implies leads_to(
            self.states(),
            #[trigger] self.path(data)[i],
            self.path(data)[i + 1],
        ) by {
            lemma_visits_are_linked(self.states(), self.start().position(), data, needed, i);
        }
    }

    /// A run stops at the first visit that does not continue: no further state is visited, the
    /// outcome of that visit decides the result, and the data is left as that visit left it.
    pub proof fn lemma_run_stops_at(self, data: D, i: int)
        requires
            self.halts(data),
            0 <= i < self.path(data).len(),
            visit_stop(self.states(), self.path(data)[i]) is Some,
        ensures
            self.path(data).len() == i + 1,
            self.outcome(data) == (
                visit_stop(self.states(), self.path(data)[i])->Some_0,
                visit_effect(self.states(), self.path(data)[i]).1,
            ),
    {
        lemma_run_stops_with_visit(
            self.states(),
            self.start().position(),
            data,
            self.visits_needed(data),
            i,
        );
    }

    /// Exhaustion: a run that stops, in which every visited state found a connection for its key
    /// and no action failed, has stopped because the input has ended, and returns `EmptyIter`
    /// with the identifier of the state visited last.
    pub proof fn lemma_exhaustion(self, data: D)
        requires
            self.halts(data),
            forall|i: int|
                0 <= i < self.path(data).len() ==> {
                    let outcome = (#[trigger] visit_effect(self.states(), self.path(data)[i])).0;
                    outcome is Ok && outcome != Ok::<NextState, E>(NextState::NotFound)
                },
        ensures
            self.outcome(data) == (
                AutomatonResult::<Id, E>::EmptyIter(self.states()[self.path(data).last().0].id()),
                visit_effect(self.states(), self.path(data).last()).1,
            ),
    {
        lemma_stopped_run_ends_path(
            self.states(),
            self.start().position(),
            data,
            self.visits_needed(data),
        );
        let outcome = visit_effect(self.states(), self.path(data)[self.path(data).len() - 1]).0;
        assert(outcome is Ok && outcome != Ok::<NextState, E>(NextState::NotFound));
    }

    /// No match: a run that reaches a state which finds no connection for its key stops there
    /// and returns `CouldNotFindNextState` with the identifier of that state. No further state
    /// is visited, and the data is what reached that state, changed by that visit alone.
    pub proof fn lemma_no_match(self, data: D, i: int)
        requires
            self.halts(data),
            0 <= i < self.path(data).len(),
            visit_effect(self.states(), self.path(data)[i]).0 == Ok::<NextState, E>(
                NextState::NotFound,
            ),
        ensures
            self.path(data).len() == i + 1,
            self.outcome(data) == (
                AutomatonResult::<Id, E>::CouldNotFindNextState(
                    self.states()[self.path(data)[i].0].id(),
                ),
                visit_effect(self.states(), self.path(data)[i]).1,
            ),
    {
        self.lemma_run_stops_at(data, i);
    }

    /// Fail fast: a run in which the visit at position `i` fails with `error` returns
    /// `Error(error)`. No further state is visited, each of the `i` visits before it has
    /// continued to the next one, and the data is what reached the failing state, changed by
    /// the failed visit alone.
    pub proof fn lemma_fail_fast(self, data: D, i: int, error: E)
        requires
            self.halts(data),
            0 <= i < self.path(data).len(),
            visit_effect(self.states(), self.path(data)[i]).0 == Err::<NextState, E>(error),
        ensures
            self.path(data).len() == i + 1,
            self.outcome(data) == (
                AutomatonResult::<Id, E>::Error(error),
                visit_effect(self.states(), self.path(data)[i]).1,
            ),
            forall|earlier: int|
                0 <= earlier < i ==> leads_to(
                    self.states(),
                    #[trigger] self.path(data)[earlier],
                    self.path(data)[earlier + 1],
                ),
    {
        self.lemma_run_stops_at(data, i);
        self.lemma_path_is_linked(data);
    }

    /// Termination: where some measure of the data drops with every visit that continues, every
    /// run stops, after at most one visit more than the measure of the data it starts with.
    pub proof fn lemma_halts_by_measure(self, data: D, measure: spec_fn(D) -> nat)
        requires
            self.well_formed(),
            forall|i: int, fed: D|
                0 <= i < self.states().len() && goes_on(
                    (#[trigger] self.states()[i].transition(fed)).0,
                ) ==> measure(self.states()[i].transition(fed).1) < measure(fed),
        ensures
            self.halts(data),
            self.path(data).len() <= measure(data) + 1,
    {
        lemma_measure_bounds_run(self.states(), self.start().position(), data, measure);
        let needed = self.visits_needed(data);
        lemma_visits_stop_with_run(
            self.states(),
            self.start().position(),
            data,
            needed,
            measure(data) + 1,
        );
        lemma_visits_begin(self.states(), self.start().position(), data, measure(data) + 1);
    }

    /// Creates new automaton with graph initiated by specified function.
    pub fn new<FInit: Fn() -> (StateGraph<S>, SharedAutomatonState)>(
        f_state_graph_init: FInit,
    ) -> (automaton: Self)
        requires
            call_requires(f_state_graph_init, ()),
            forall|graph: StateGraph<S>, start: SharedAutomatonState|
                call_ensures(f_state_graph_init, (), (graph, start)) ==> graph.contains(start)
                    && closed_under_transitions::<Id, D, E, S>(graph@),
        ensures
            automaton.well_formed(),
            exists|graph: StateGraph<S>|
                call_ensures(f_state_graph_init, (), (graph, automaton.start()))
                    && automaton.states() == graph@,
    {
        let (graph, start_state) = f_state_graph_init();
        let ghost built = graph;
        let automaton = Automaton {
            states: graph.into_states(),
            start_state,
            _id_phantom: PhantomData,
            _data_phantom: PhantomData,
            _error_phantom: PhantomData,
        };
        assert(call_ensures(f_state_graph_init, (), (built, start_state)));
        assert(automaton.states() == built@);
        assert(automaton.start() == start_state);
        assert(built.contains(start_state));
        automaton
    }

    /// Starts automaton with given data.
    pub fn run(&mut self, data: &mut D) -> (result: AutomatonResult<Id, E>)
        requires
            old(self).well_formed(),
            old(self).halts(*old(data)),
        ensures
            *final(self) == *old(self),
            (result, *final(data)) == old(self).outcome(*old(data)),
    {
        let ghost fed = *data;
        let ghost mut visits: nat = self.visits_needed(fed);
        let ghost states = self.states();
        let mut current_state = self.start_state;
        loop
            invariant
                *self == *old(self),
                fed == *old(data),
                states == self.states(),
                closed_under_transitions::<Id, D, E, S>(states),
                0 <= current_state.position() < states.len(),
                run_within::<Id, D, E, S>(states, current_state.position(), *data, visits)
                    == Some(old(self).outcome(fed)),
            decreases visits,
        {
            let connection_execute_result =
                self.states[current_state.index()].execute_next_connection(data);
            match connection_execute_result {
                Err(err) => {
                    return AutomatonResult::Error(err);
                },
                Ok(next_state_result) => {
                    match next_state_result {
                        NextState::Continue(next_state) => {
                            proof {
                                visits = (visits - 1) as nat;
                            }
                            current_state = next_state;
                        },
                        NextState::NotFound => {
                            return AutomatonResult::CouldNotFindNextState(
                                self.states[current_state.index()].get_id_owned(),
                            );
                        },
                        NextState::ProcessEnded => {
                            return AutomatonResult::EmptyIter(
                                self.states[current_state.index()].get_id_owned(),
                            );
                        },
                    };
                },
            };
        }
    }
}

} // verus!
