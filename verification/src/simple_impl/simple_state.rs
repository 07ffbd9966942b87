use vstd::prelude::*;
use crate::automaton::{
    closed_under_transitions, goes_on, lemma_stopped_run_ends_path, run_within, stays_within,
    visits_within, Automaton, AutomatonResult, NextState,
};
use crate::automaton_state::{AutomatonState, SharedAutomatonState};
use std::marker::PhantomData;

verus! {

/// Represents data, that can provide a key which will be used while searching for next state.
/// Usually will use iterator based on a sequence.
pub trait KeyProvidingData<K>: Sized {
    /// The key that the next call of `next_key` hands out, `None` once the keys have run out.
    /// An implementation that does not define it leaves it unspecified.
    closed spec fn pending_key(&self) -> Option<K> {
        arbitrary()
    }

    /// The data as the next call of `next_key` leaves it. An implementation that does not define
    /// it leaves it unspecified.
    closed spec fn advanced(&self) -> Self {
        arbitrary()
    }

    /// Hands out the next key, or `None` once the keys have run out.
    fn next_key(&mut self) -> (key: Option<K>)
        ensures
            key == old(self).pending_key(),
            *final(self) == old(self).advanced(),
    ;
}

/// Decides whether a connection should be chosen for a key.
pub trait ConnectionMatcher<K> {
    /// The keys for which the connection is chosen. An implementation that does not define it
    /// leaves it unspecified.
    closed spec fn accepts(&self, key: K) -> bool {
        arbitrary()
    }

    /// Whether the connection is chosen for `key`.
    fn matches(&self, key: &K) -> (accepted: bool)
        ensures
            accepted == self.accepts(*key),
    ;
}

/// Operation executed on the data while a connection is taken.
pub trait ConnectionAction<K, D, E> {
    /// Whether the operation succeeds on `data` and `key`, and the data it leaves either way.
    /// An implementation that does not define it leaves it unspecified.
    closed spec fn effect(&self, data: D, key: K) -> (Result<(), E>, D) {
        arbitrary()
    }

    /// Executes the operation on `data` for the key that chose the connection.
    fn execute(&self, data: &mut D, key: &K) -> (done: Result<(), E>)
        ensures
            (done, *final(data)) == self.effect(*old(data), *key),
    ;
}

/// Connection representing edge between two nodes (or one node with itself) in a graph
/// structure. Matcher is used to find the next state. Based on the key provided by the data.
/// Each connection has a specified operation which will be executed while changing to matched
/// next state.
///
/// * `matcher` - Defines whether this connection should be chosen for a specified key. It's up
/// to the user to ensure that connections don't have intersecting matchers. The first
/// connection matched for a key will always be used.
/// * `exec_function` - Operation that will be executing while changing state; `None` changes
/// state without touching the data.
/// * `connected_state` - State that will be returned if this connection is matched. Can be the
/// same state that this connection will be assigned to.
pub struct SimpleInterStateConnection<K, D, E, M, A> {
    matcher: M,
    exec_function: Option<A>,
    connected_state: SharedAutomatonState,
    _key_phantom: PhantomData<K>,
    _data_phantom: PhantomData<D>,
    _error_phantom: PhantomData<E>,
}

impl<K, D, E, M: ConnectionMatcher<K>, A: ConnectionAction<K, D, E>> SimpleInterStateConnection<
    K,
    D,
    E,
    M,
    A,
> {
    /// The matcher that this connection was created with.
    pub closed spec fn matcher(self) -> M {
        self.matcher
    }

    /// The operation that this connection was created with, if any.
    pub closed spec fn action(self) -> Option<A> {
        self.exec_function
    }

    /// The state that this connection leads to.
    pub closed spec fn target(self) -> SharedAutomatonState {
        self.connected_state
    }

    /// Whether this connection is chosen for `key`.
    pub open spec fn accepts(self, key: K) -> bool {
        self.matcher().accepts(key)
    }

    /// What taking this connection does to `data`: the effect of its operation, or nothing where
    /// it has none.
    pub open spec fn effect(self, data: D, key: K) -> (Result<(), E>, D) {
        match self.action() {
            Some(action) => action.effect(data, key),
            None => (Ok(()), data),
        }
    }

    /// What taking this connection for `key` does: its operation is executed on `data`, and where
    /// that succeeds the automaton continues to the target.
    pub open spec fn taken(self, data: D, key: K) -> (Result<NextState, E>, D) {
        let (done, left) = self.effect(data, key);
        match done {
            Ok(_) => (Ok(NextState::Continue(self.target())), left),
            Err(error) => (Err(error), left),
        }
    }

    /// Creates new connection with specified matcher and a procedure that will be executed when
    /// this connection is matched.
    pub fn new(matcher: M, exec_function: A, next_state: &SharedAutomatonState) -> (connection:
        Self)
        ensures
            connection.matcher() == matcher,
            connection.action() == Some(exec_function),
            connection.target() == *next_state,
    {
        SimpleInterStateConnection {
            matcher,
            exec_function: Some(exec_function),
            connected_state: *next_state,
            _key_phantom: PhantomData,
            _data_phantom: PhantomData,
            _error_phantom: PhantomData,
        }
    }

    /// Creates new connection with specified matcher. Does nothing when matched (designed to be
    /// used with intermediate states).
    pub fn new_no_action(matcher: M, next_state: &SharedAutomatonState) -> (connection: Self)
        ensures
            connection.matcher() == matcher,
            connection.action() == None::<A>,
            connection.target() == *next_state,
    {
        SimpleInterStateConnection {
            matcher,
            exec_function: None,
            connected_state: *next_state,
            _key_phantom: PhantomData,
            _data_phantom: PhantomData,
            _error_phantom: PhantomData,
        }
    }

    /// Does nothing
    fn do_nothing(_data: &mut D, _key: &K) -> (done: Result<(), E>)
        ensures
            done == Ok::<(), E>(()),
            *final(_data) == *old(_data),
    {
        Result::Ok(())
    }

    /// Takes this connection: executes its operation on `data` and names the state to continue
    /// with.
    fn take(&self, data: &mut D, key: &K) -> (outcome: Result<NextState, E>)
        ensures
            (outcome, *final(data)) == self.taken(*old(data), *key),
    {
        match &self.exec_function {
            Some(action) => action.execute(data, key)?,
            None => Self::do_nothing(data, key)?,
        };
        Result::Ok(NextState::Continue(self.connected_state))
    }
}

/// Whether the connection at `index` is the first of `connections` that is chosen for `key`.
pub open spec fn is_first_match<K, D, E, M: ConnectionMatcher<K>, A: ConnectionAction<K, D, E>>(
    connections: Seq<SimpleInterStateConnection<K, D, E, M, A>>,
    key: K,
    index: int,
) -> bool {
    &&& 0 <= index < connections.len()
    &&& connections[index].accepts(key)
    &&& forall|earlier: int|
        0 <= earlier < index ==> !(#[trigger] connections[earlier]).accepts(key)
}

/// Position of the connection that is taken for `key`: the first one in registration order that
/// is chosen for it, `None` where no connection is.
pub open spec fn first_match<K, D, E, M: ConnectionMatcher<K>, A: ConnectionAction<K, D, E>>(
    connections: Seq<SimpleInterStateConnection<K, D, E, M, A>>,
    key: K,
) -> Option<int> {
    if exists|index: int| is_first_match(connections, key, index) {
        Some(choose|index: int| is_first_match(connections, key, index))
    } else {
        None
    }
}

/// What one visit of a state with `connections` does: it pulls one key, takes the first
/// connection chosen for it, and executes that connection's operation.
pub open spec fn simple_transition<
    K,
    D: KeyProvidingData<K>,
    E,
    M: ConnectionMatcher<K>,
    A: ConnectionAction<K, D, E>,
>(connections: Seq<SimpleInterStateConnection<K, D, E, M, A>>, data: D) -> (
    Result<NextState, E>,
    D,
) {
    match data.pending_key() {
        None => (Ok(NextState::ProcessEnded), data.advanced()),
        Some(key) => match first_match(connections, key) {
            None => (Ok(NextState::NotFound), data.advanced()),
            Some(index) => connections[index].taken(data.advanced(), key),
        },
    }
}

/// AutomatonState implementating struct which simplifies state definition by managing list of
/// defined connections. Depends on data for providing next key. This key is then used to match a
/// connection from the defined list. Each state has an assigned identifier which is used to
/// inform which state did the automaton stop on. Identifier is copied to the result meaning it
/// has to implement the *Copy* trait.
pub struct SimpleStateImplementation<K, Id, D, E, M, A> {
    id: Id,
    next_states: Vec<SimpleInterStateConnection<K, D, E, M, A>>,
}

impl<
    K,
    Id: Copy,
    D: KeyProvidingData<K>,
    E,
    M: ConnectionMatcher<K>,
    A: ConnectionAction<K, D, E>,
> SimpleStateImplementation<K, Id, D, E, M, A> {
    /// Identifier that this state was created with.
    pub closed spec fn identifier(self) -> Id {
        self.id
    }

    /// The registered connections, in registration order.
    pub closed spec fn connections(self) -> Seq<SimpleInterStateConnection<K, D, E, M, A>> {
        self.next_states@
    }

    /// Creates new simple state with provided identifier.
    ///
    /// * `id` - Identifier of this state which will be copied into result when automaton stops
    /// on this state.
    pub fn new(id: Id) -> (state: Self)
        ensures
            state.identifier() == id,
            state.connections() == Seq::<SimpleInterStateConnection<K, D, E, M, A>>::empty(),
    {
        SimpleStateImplementation { id, next_states: Vec::new() }
    }

    /// Adds connection to possible next states of current state.
    pub fn register_connection(&mut self, connection: SimpleInterStateConnection<K, D, E, M, A>)
        ensures
            final(self).identifier() == old(self).identifier(),
            final(self).connections() == old(self).connections().push(connection),
    {
        self.next_states.push(connection);
    }
}

impl<
    K,
    Id: Copy,
    D: KeyProvidingData<K>,
    E,
    M: ConnectionMatcher<K>,
    A: ConnectionAction<K, D, E>,
> AutomatonState<Id, D, E> for SimpleStateImplementation<K, Id, D, E, M, A> {
    open spec fn id(&self) -> Id {
        self.identifier()
    }

    open spec fn transition(&self, data: D) -> (Result<NextState, E>, D) {
        simple_transition(self.connections(), data)
    }

    /// Returns owned copy of identifier of this state.
    fn get_id_owned(&self) -> (id: Id) {
        self.id
    }

    /// Returns identifier of this state.
    fn get_id(&self) -> (id: &Id) {
        &self.id
    }

    /// Finds connection by popping key from key iterator. Executes assigned function and returns
    /// next state if everything goes alright.
    fn execute_next_connection(&self, data: &mut D) -> (outcome: Result<NextState, E>) {
        let next_key = data.next_key();
        if let Option::Some(k) = next_key {
            let mut i: usize = 0;
            while i < self.next_states.len()
                invariant
                    i <= self.next_states.len(),
                    *data == old(data).advanced(),
                    old(data).pending_key() == Some(k),
                    forall|earlier: int|
                        0 <= earlier < i ==> !(#[trigger] self.connections()[earlier]).accepts(k),
                decreases self.next_states.len() - i,
            {
                let c = &self.next_states[i];
                if c.matcher.matches(&k) {
                    assert(is_first_match(self.connections(), k, i as int));
                    return c.take(data, &k);
                }
                i += 1;
            }
            Result::Ok(NextState::NotFound)
        } else {
            Result::Ok(NextState::ProcessEnded)
        }
    }
}

/// The connection that is taken for a key is the only first match for it.
pub proof fn lemma_first_match_is_taken<
    K,
    D,
    E,
    M: ConnectionMatcher<K>,
    A: ConnectionAction<K, D, E>,
>(connections: Seq<SimpleInterStateConnection<K, D, E, M, A>>, key: K, index: int)
    requires
        is_first_match(connections, key, index),
    ensures
        first_match(connections, key) == Some(index),
{
    let chosen = choose|index: int| is_first_match(connections, key, index);
    assert(is_first_match(connections, key, chosen));
    if chosen < index {
        assert(!connections[chosen].accepts(key));
    }
    if index < chosen {
        assert(!connections[index].accepts(key));
    }
}

/// Where the connection at `index` is chosen for a key, some connection registered no later is
/// the first match for it.
pub proof fn lemma_some_connection_is_first<
    K,
    D,
    E,
    M: ConnectionMatcher<K>,
    A: ConnectionAction<K, D, E>,
>(connections: Seq<SimpleInterStateConnection<K, D, E, M, A>>, key: K, index: int) -> (first:
    int)
    requires
        0 <= index < connections.len(),
        connections[index].accepts(key),
    ensures
        0 <= first <= index,
        is_first_match(connections, key, first),
    decreases index,
{
    if exists|before: int| 0 <= before < index && (#[trigger] connections[before]).accepts(key) {
        let before = choose|before: int|
            0 <= before < index && (#[trigger] connections[before]).accepts(key);
        lemma_some_connection_is_first(connections, key, before)
    } else {
        index
    }
}

/// A visit that pulls `key` takes the first connection chosen for it, and no other.
pub proof fn lemma_visit_takes_first_match<
    K,
    D: KeyProvidingData<K>,
    E,
    M: ConnectionMatcher<K>,
    A: ConnectionAction<K, D, E>,
>(connections: Seq<SimpleInterStateConnection<K, D, E, M, A>>, data: D, key: K, index: int)
    requires
        data.pending_key() == Some(key),
        is_first_match(connections, key, index),
    ensures
        simple_transition(connections, data) == connections[index].taken(data.advanced(), key),
{
    lemma_first_match_is_taken(connections, key, index);
}

/// First match: of two connections that are both chosen for a key, the later one is never taken.
/// The connection taken is the first one chosen for the key in registration order, whatever the
/// matchers of the later ones say: the earlier of the two if no connection before it is chosen
/// for the key, else one registered before it.
pub proof fn lemma_first_match_wins<
    K,
    D: KeyProvidingData<K>,
    E,
    M: ConnectionMatcher<K>,
    A: ConnectionAction<K, D, E>,
>(
    connections: Seq<SimpleInterStateConnection<K, D, E, M, A>>,
    data: D,
    key: K,
    earlier: int,
    later: int,
) -> (taken: int)
    requires
        data.pending_key() == Some(key),
        0 <= earlier < later < connections.len(),
        connections[earlier].accepts(key),
        connections[later].accepts(key),
    ensures
        0 <= taken <= earlier,
        is_first_match(connections, key, taken),
        first_match(connections, key) == Some(taken),
        simple_transition(connections, data) == connections[taken].taken(data.advanced(), key),
        (forall|before: int|
            0 <= before < earlier ==> !(#[trigger] connections[before]).accepts(key)) ==> taken
            == earlier,
{
    let taken = lemma_some_connection_is_first(connections, key, earlier);
    lemma_first_match_is_taken(connections, key, taken);
    taken
}

/// No match: a visit that pulls a key for which no connection is chosen ends with `NotFound`
/// and has done nothing to the data but pull that key.
pub proof fn lemma_unmatched_key_is_not_found<
    K,
    D: KeyProvidingData<K>,
    E,
    M: ConnectionMatcher<K>,
    A: ConnectionAction<K, D, E>,
>(connections: Seq<SimpleInterStateConnection<K, D, E, M, A>>, data: D, key: K)
    requires
        data.pending_key() == Some(key),
        forall|index: int|
            0 <= index < connections.len() ==> !(#[trigger] connections[index]).accepts(key),
    ensures
        simple_transition(connections, data) == (
            Ok::<NextState, E>(NextState::NotFound),
            data.advanced(),
        ),
{
    if exists|index: int| is_first_match(connections, key, index) {
        let index = choose|index: int| is_first_match(connections, key, index);
        assert(connections[index].accepts(key));
    }
}

/// No match, whole run: a run that reaches a state none of whose connections is chosen for the
/// key that the state pulls stops there and returns `CouldNotFindNextState` with the identifier
/// of that state. No further state is visited, and the data is what reached that state, that is
/// what the visits before it made of it, with nothing done to it but that key pulled.
pub proof fn lemma_unmatched_key_stops_run<
    K,
    Id: Copy,
    D: KeyProvidingData<K>,
    E,
    M: ConnectionMatcher<K>,
    A: ConnectionAction<K, D, E>,
>(
    automaton: Automaton<Id, D, E, SimpleStateImplementation<K, Id, D, E, M, A>>,
    data: D,
    i: int,
    key: K,
)
    requires
        automaton.halts(data),
        0 <= i < automaton.path(data).len(),
        ({
            let (position, fed) = automaton.path(data)[i];
            let connections = automaton.states()[position].connections();
            &&& fed.pending_key() == Some(key)
            &&& forall|index: int|
                0 <= index < connections.len() ==> !(#[trigger] connections[index]).accepts(key)
        }),
    ensures
        automaton.path(data).len() == i + 1,
        ({
            let (position, fed) = automaton.path(data)[i];
            automaton.outcome(data) == (
                AutomatonResult::<Id, E>::CouldNotFindNextState(
                    automaton.states()[position].identifier(),
                ),
                fed.advanced(),
            )
        }),
{
    let visit = automaton.path(data)[i];
    lemma_unmatched_key_is_not_found(automaton.states()[visit.0].connections(), visit.1, key);
    automaton.lemma_no_match(data, i);
}

/// A visit continues only by taking the first connection chosen for the key that it pulled.
pub proof fn lemma_transition_follows_connection<
    K,
    D: KeyProvidingData<K>,
    E,
    M: ConnectionMatcher<K>,
    A: ConnectionAction<K, D, E>,
>(connections: Seq<SimpleInterStateConnection<K, D, E, M, A>>, data: D) -> (index: int)
    requires
        goes_on(simple_transition(connections, data).0),
    ensures
        data.pending_key() is Some,
        is_first_match(connections, data.pending_key()->Some_0, index),
        simple_transition(connections, data) == connections[index].taken(
            data.advanced(),
            data.pending_key()->Some_0,
        ),
        simple_transition(connections, data).0 == Ok::<NextState, E>(
            NextState::Continue(connections[index].target()),
        ),
{
    first_match(connections, data.pending_key()->Some_0)->Some_0
}

/// States whose connections all lead to states of the same graph form a graph that no
/// transition leaves.
pub proof fn lemma_simple_states_stay_within<
    K,
    Id: Copy,
    D: KeyProvidingData<K>,
    E,
    M: ConnectionMatcher<K>,
    A: ConnectionAction<K, D, E>,
>(states: Seq<SimpleStateImplementation<K, Id, D, E, M, A>>)
    requires
        forall|i: int, j: int|
            0 <= i < states.len() && 0 <= j < states[i].connections().len() ==> 0 <= (
            #[trigger] states[i].connections()[j]).target().position() < states.len(),
    ensures
        closed_under_transitions::<Id, D, E, SimpleStateImplementation<K, Id, D, E, M, A>>(
            states,
        ),
{
    assert forall|i: int, data: D| 0 <= i < states.len() implies stays_within(
        (#[trigger] states[i].transition(data)).0,
        states.len(),
    ) by {
        if goes_on(states[i].transition(data).0) {
            let index = lemma_transition_follows_connection(states[i].connections(), data);
            assert(0 <= states[i].connections()[index].target().position() < states.len());
        }
    }
}

/// Termination: where some measure of the data drops with every key that is pulled and no
/// operation of a connection raises it, every run of an automaton over such states stops, after
/// at most one visit more than the measure of the data it starts with. A source of finitely many
/// keys that the operations leave alone has such a measure: the number of keys left.
pub proof fn lemma_finite_keys_halt<
    K,
    Id: Copy,
    D: KeyProvidingData<K>,
    E,
    M: ConnectionMatcher<K>,
    A: ConnectionAction<K, D, E>,
>(
    automaton: Automaton<Id, D, E, SimpleStateImplementation<K, Id, D, E, M, A>>,
    data: D,
    measure: spec_fn(D) -> nat,
)
    requires
        automaton.well_formed(),
        forall|fed: D|
            (#[trigger] fed.pending_key()) is Some ==> measure(fed.advanced()) < measure(fed),
        forall|i: int, j: int, fed: D, key: K|
            0 <= i < automaton.states().len() && 0 <= j
                < automaton.states()[i].connections().len() ==> measure(
                (#[trigger] automaton.states()[i].connections()[j].effect(fed, key)).1,
            ) <= measure(fed),
    ensures
        automaton.halts(data),
        automaton.path(data).len() <= measure(data) + 1,
{
    let states = automaton.states();
    assert forall|i: int, fed: D|
        0 <= i < states.len() && goes_on(
            (#[trigger] states[i].transition(fed)).0,
        ) implies measure(states[i].transition(fed).1) < measure(fed) by {
        let index = lemma_transition_follows_connection(states[i].connections(), fed);
        let key = fed.pending_key()->Some_0;
        assert(measure(states[i].connections()[index].effect(fed.advanced(), key).1) <= measure(
            fed.advanced(),
        ));
    }
    automaton.lemma_halts_by_measure(data, measure);
}

/// Self loop, one visit: a state whose connection at `looping` is the first match for every key
/// and leads back to `own`, the state itself, consumes exactly one key per visit. It stops where
/// no key is left or the operation of that connection fails, and otherwise continues to itself
/// with the data as that operation left it.
pub proof fn lemma_self_loop_visit<
    K,
    D: KeyProvidingData<K>,
    E,
    M: ConnectionMatcher<K>,
    A: ConnectionAction<K, D, E>,
>(
    connections: Seq<SimpleInterStateConnection<K, D, E, M, A>>,
    looping: int,
    own: SharedAutomatonState,
    data: D,
)
    requires
        forall|key: K| #[trigger] is_first_match(connections, key, looping),
        connections[looping].target() == own,
    ensures
        simple_transition(connections, data) == (match data.pending_key() {
            None => (Ok::<NextState, E>(NextState::ProcessEnded), data.advanced()),
            Some(key) => connections[looping].taken(data.advanced(), key),
        }),
        simple_transition(connections, data).0 matches Ok(next) ==> next
            == NextState::ProcessEnded || next == NextState::Continue(own),
{
    if let Some(key) = data.pending_key() {
        assert(is_first_match(connections, key, looping));
        lemma_visit_takes_first_match(connections, data, key, looping);
    }
}

/// A run that starts on a state that loops on every key never leaves it, and stops only because
/// the keys have run out or because the operation of the looping connection failed.
proof fn lemma_self_loop_within<
    K,
    Id: Copy,
    D: KeyProvidingData<K>,
    E,
    M: ConnectionMatcher<K>,
    A: ConnectionAction<K, D, E>,
>(
    states: Seq<SimpleStateImplementation<K, Id, D, E, M, A>>,
    own: SharedAutomatonState,
    looping: int,
    data: D,
    visits: nat,
)
    requires
        0 <= own.position() < states.len(),
        forall|key: K| #[trigger]
            is_first_match(states[own.position()].connections(), key, looping),
        states[own.position()].connections()[looping].target() == own,
    ensures
        forall|i: int|
            0 <= i < visits_within(states, own.position(), data, visits).len() ==> (
            #[trigger] visits_within(states, own.position(), data, visits)[i]).0
                == own.position(),
        run_within(states, own.position(), data, visits) matches Some((result, _)) ==> result
            == AutomatonResult::<Id, E>::EmptyIter(states[own.position()].identifier())
            || result is Error,
    decreases visits,
{
    if visits > 0 {
        lemma_self_loop_visit(states[own.position()].connections(), looping, own, data);
        let (outcome, left) = states[own.position()].transition(data);
        if let Ok(NextState::Continue(next)) = outcome {
            assert(next == own);
            lemma_self_loop_within(states, own, looping, left, (visits - 1) as nat);
            let rest = visits_within(states, own.position(), left, (visits - 1) as nat);
            assert(visits_within(states, own.position(), data, visits) == seq![
                (own.position(), data),
            ] + rest);
        }
    }
}

/// Self loop, whole run: an automaton whose start state loops on every key, as in
/// [`lemma_self_loop_visit`], never leaves that state. A run of it stops only because the keys
/// have run out, and then returns `EmptyIter` with the identifier of that state, or because the
/// operation of the looping connection failed, and then returns the error.
pub proof fn lemma_self_loop_run<
    K,
    Id: Copy,
    D: KeyProvidingData<K>,
    E,
    M: ConnectionMatcher<K>,
    A: ConnectionAction<K, D, E>,
>(
    automaton: Automaton<Id, D, E, SimpleStateImplementation<K, Id, D, E, M, A>>,
    looping: int,
    data: D,
)
    requires
        automaton.well_formed(),
        automaton.halts(data),
        forall|key: K| #[trigger]
            is_first_match(
                automaton.states()[automaton.start().position()].connections(),
                key,
                looping,
            ),
        automaton.states()[automaton.start().position()].connections()[looping].target()
            == automaton.start(),
    ensures
        ({
            let state = automaton.states()[automaton.start().position()];
            let path = automaton.path(data);
            let fed = path.last().1;
            &&& forall|i: int|
                0 <= i < path.len() ==> (#[trigger] path[i]).0 == automaton.start().position()
            &&& match automaton.outcome(data).0 {
                AutomatonResult::EmptyIter(id) => {
                    &&& id == state.identifier()
                    &&& fed.pending_key() is None
                },
                AutomatonResult::Error(error) => {
                    &&& fed.pending_key() matches Some(key)
                    &&& state.connections()[looping].effect(fed.advanced(), key).0 == Err::<(), E>(
                        error,
                    )
                },
                AutomatonResult::CouldNotFindNextState(_) => false,
            }
        }),
{
    let states = automaton.states();
    let own = automaton.start();
    let needed = automaton.visits_needed(data);
    lemma_self_loop_within(states, own, looping, data, needed);
    lemma_stopped_run_ends_path(states, own.position(), data, needed);
    let last = automaton.path(data).last();
    assert(last.0 == own.position());
    lemma_self_loop_visit(states[own.position()].connections(), looping, own, last.1);
}

} // verus!
