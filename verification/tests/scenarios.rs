use automata_like_programming::automaton::{Automaton, AutomatonResult, NextState};
use automata_like_programming::automaton_state::{
    new_shared_automaton_state, AutomatonState, SharedAutomatonState, StateGraph,
};
use automata_like_programming::simple_impl::simple_state::{
    ConnectionAction, ConnectionMatcher, KeyProvidingData, SimpleInterStateConnection,
    SimpleStateImplementation,
};

/// Text buffer that hands out the keys of a list, one per call.
struct Feed {
    buffer: String,
    keys: Vec<u8>,
    pulled: usize,
}

impl Feed {
    fn new(keys: Vec<u8>) -> Self {
        Self { buffer: String::new(), keys, pulled: 0 }
    }
}

impl KeyProvidingData<u8> for Feed {
    fn next_key(&mut self) -> Option<u8> {
        let key = self.keys.get(self.pulled).copied();
        if key.is_some() {
            self.pulled += 1;
        }
        key
    }
}

enum Matcher {
    Is(u8),
    Below(u8),
    Any,
}

impl ConnectionMatcher<u8> for Matcher {
    fn matches(&self, key: &u8) -> bool {
        match self {
            Matcher::Is(wanted) => key == wanted,
            Matcher::Below(limit) => key < limit,
            Matcher::Any => true,
        }
    }
}

enum Action {
    Append(&'static str),
    AppendKey,
    Fail(&'static str),
    AppendThenFail(&'static str, &'static str),
}

impl ConnectionAction<u8, Feed, String> for Action {
    fn execute(&self, data: &mut Feed, key: &u8) -> Result<(), String> {
        match self {
            Action::Append(text) => {
                data.buffer.push_str(text);
                Result::Ok(())
            }
            Action::AppendKey => {
                data.buffer.push_str(&format!("{}", key));
                Result::Ok(())
            }
            Action::Fail(message) => Result::Err(String::from(*message)),
            Action::AppendThenFail(text, message) => {
                data.buffer.push_str(text);
                Result::Err(String::from(*message))
            }
        }
    }
}

type State = SimpleStateImplementation<u8, u32, Feed, String, Matcher, Action>;
type Graph = StateGraph<State>;

fn connect(graph: &mut Graph, from: SharedAutomatonState, matcher: Matcher, action: Action, to: SharedAutomatonState) {
    graph.state_mut(from).register_connection(SimpleInterStateConnection::new(matcher, action, &to));
}

fn hello_simple_world() -> (Graph, SharedAutomatonState) {
    let mut graph: Graph = StateGraph::new();
    let first = new_shared_automaton_state(&mut graph, SimpleStateImplementation::new(1));
    let second = new_shared_automaton_state(&mut graph, SimpleStateImplementation::new(2));
    let third = new_shared_automaton_state(&mut graph, SimpleStateImplementation::new(3));
    connect(&mut graph, first, Matcher::Is(1), Action::Append("Hello"), second);
    connect(&mut graph, second, Matcher::Is(2), Action::Append(" simple "), third);
    connect(&mut graph, third, Matcher::Is(3), Action::Append("world!"), third);
    (graph, first)
}

#[test]
fn three_states_loop_then_end() {
    let mut automaton = Automaton::new(hello_simple_world);
    let mut data = Feed::new(vec![1, 2, 3]);
    let result = automaton.run(&mut data);
    assert_eq!(data.buffer, "Hello simple world!");
    assert_eq!(result, AutomatonResult::EmptyIter(3));
    assert_eq!(data.pulled, 3);
}

#[test]
fn start_state_without_connections_finds_no_next_state() {
    let mut automaton = Automaton::new(|| {
        let mut graph: Graph = StateGraph::new();
        let start = new_shared_automaton_state(&mut graph, SimpleStateImplementation::new(7));
        (graph, start)
    });
    let mut data = Feed::new(vec![4]);
    let result = automaton.run(&mut data);
    assert_eq!(result, AutomatonResult::CouldNotFindNextState(7));
    assert_eq!(data.buffer, "");
    assert_eq!(data.pulled, 1);
}

#[test]
fn empty_key_source_ends_on_start_state() {
    let mut automaton = Automaton::new(hello_simple_world);
    let mut data = Feed::new(vec![]);
    let result = automaton.run(&mut data);
    assert_eq!(result, AutomatonResult::EmptyIter(1));
    assert_eq!(data.buffer, "");
    assert_eq!(data.pulled, 0);
}

#[test]
fn error_on_second_transition_stops_the_run() {
    let mut automaton = Automaton::new(|| {
        let mut graph: Graph = StateGraph::new();
        let first = new_shared_automaton_state(&mut graph, SimpleStateImplementation::new(1));
        let second = new_shared_automaton_state(&mut graph, SimpleStateImplementation::new(2));
        let third = new_shared_automaton_state(&mut graph, SimpleStateImplementation::new(3));
        connect(&mut graph, first, Matcher::Any, Action::Append("one"), second);
        connect(&mut graph, second, Matcher::Any, Action::Fail("broken"), third);
        connect(&mut graph, third, Matcher::Any, Action::Append("three"), third);
        (graph, first)
    });
    let mut data = Feed::new(vec![9, 9, 9, 9]);
    let result = automaton.run(&mut data);
    assert_eq!(result, AutomatonResult::Error(String::from("broken")));
    assert!(result.is_error());
    assert_eq!(data.buffer, "one");
    assert_eq!(data.pulled, 2);
}

#[test]
fn failed_action_keeps_what_it_had_already_written() {
    let mut automaton = Automaton::new(|| {
        let mut graph: Graph = StateGraph::new();
        let first = new_shared_automaton_state(&mut graph, SimpleStateImplementation::new(1));
        connect(&mut graph, first, Matcher::Is(0), Action::Append("a"), first);
        connect(&mut graph, first, Matcher::Is(1), Action::AppendThenFail("b", "late"), first);
        (graph, first)
    });
    let mut data = Feed::new(vec![0, 0, 1, 0]);
    let result = automaton.run(&mut data);
    assert_eq!(result, AutomatonResult::Error(String::from("late")));
    assert_eq!(data.buffer, "aab");
    assert_eq!(data.pulled, 3);
}

#[test]
fn unmatched_key_stops_after_earlier_actions_only() {
    let mut automaton = Automaton::new(hello_simple_world);
    let mut data = Feed::new(vec![1, 2, 8, 3]);
    let result = automaton.run(&mut data);
    assert_eq!(result, AutomatonResult::CouldNotFindNextState(3));
    assert!(result.is_could_not_find_next_state());
    assert_eq!(data.buffer, "Hello simple ");
    assert_eq!(data.pulled, 3);
}

#[test]
fn first_registered_match_wins_over_more_specific_one() {
    let mut automaton = Automaton::new(|| {
        let mut graph: Graph = StateGraph::new();
        let start = new_shared_automaton_state(&mut graph, SimpleStateImplementation::new(1));
        let general = new_shared_automaton_state(&mut graph, SimpleStateImplementation::new(2));
        let specific = new_shared_automaton_state(&mut graph, SimpleStateImplementation::new(3));
        connect(&mut graph, start, Matcher::Any, Action::Append("general"), general);
        connect(&mut graph, start, Matcher::Is(5), Action::Append("specific"), specific);
        (graph, start)
    });
    let mut data = Feed::new(vec![5]);
    let result = automaton.run(&mut data);
    assert_eq!(result, AutomatonResult::EmptyIter(2));
    assert_eq!(data.buffer, "general");
}

#[test]
fn later_connection_is_taken_when_earlier_ones_reject() {
    let mut automaton = Automaton::new(|| {
        let mut graph: Graph = StateGraph::new();
        let start = new_shared_automaton_state(&mut graph, SimpleStateImplementation::new(1));
        let low = new_shared_automaton_state(&mut graph, SimpleStateImplementation::new(2));
        let five = new_shared_automaton_state(&mut graph, SimpleStateImplementation::new(3));
        let rest = new_shared_automaton_state(&mut graph, SimpleStateImplementation::new(4));
        connect(&mut graph, start, Matcher::Below(5), Action::Append("low"), low);
        connect(&mut graph, start, Matcher::Is(5), Action::Append("five"), five);
        connect(&mut graph, start, Matcher::Any, Action::Append("rest"), rest);
        (graph, start)
    });
    let mut low = Feed::new(vec![4]);
    assert_eq!(automaton.run(&mut low), AutomatonResult::EmptyIter(2));
    assert_eq!(low.buffer, "low");
    let mut five = Feed::new(vec![5]);
    assert_eq!(automaton.run(&mut five), AutomatonResult::EmptyIter(3));
    assert_eq!(five.buffer, "five");
    let mut rest = Feed::new(vec![6]);
    assert_eq!(automaton.run(&mut rest), AutomatonResult::EmptyIter(4));
    assert_eq!(rest.buffer, "rest");
}

#[test]
fn self_loop_consumes_one_key_per_visit_until_keys_end() {
    let mut automaton = Automaton::new(|| {
        let mut graph: Graph = StateGraph::new();
        let only = new_shared_automaton_state(&mut graph, SimpleStateImplementation::new(11));
        connect(&mut graph, only, Matcher::Any, Action::AppendKey, only);
        (graph, only)
    });
    let mut data = Feed::new(vec![3, 1, 4, 1, 5]);
    let result = automaton.run(&mut data);
    assert_eq!(result, AutomatonResult::EmptyIter(11));
    assert!(result.is_empty_iter());
    assert_eq!(data.buffer, "31415");
    assert_eq!(data.pulled, 5);
}

#[test]
fn self_loop_stops_on_action_error() {
    let mut automaton = Automaton::new(|| {
        let mut graph: Graph = StateGraph::new();
        let only = new_shared_automaton_state(&mut graph, SimpleStateImplementation::new(11));
        connect(&mut graph, only, Matcher::Any, Action::Fail("stop"), only);
        (graph, only)
    });
    let mut data = Feed::new(vec![3, 1, 4]);
    let result = automaton.run(&mut data);
    assert_eq!(result, AutomatonResult::Error(String::from("stop")));
    assert_eq!(data.buffer, "");
    assert_eq!(data.pulled, 1);
}

#[test]
fn connection_without_action_leaves_data_alone() {
    let mut automaton = Automaton::new(|| {
        let mut graph: Graph = StateGraph::new();
        let start = new_shared_automaton_state(&mut graph, SimpleStateImplementation::new(1));
        let middle = new_shared_automaton_state(&mut graph, SimpleStateImplementation::new(2));
        let end = new_shared_automaton_state(&mut graph, SimpleStateImplementation::new(3));
        graph.state_mut(start).register_connection(SimpleInterStateConnection::new_no_action(
            Matcher::Any,
            &middle,
        ));
        connect(&mut graph, middle, Matcher::Any, Action::Append("written"), end);
        graph.state_mut(end).register_connection(SimpleInterStateConnection::new_no_action(
            Matcher::Is(0),
            &start,
        ));
        (graph, start)
    });
    let mut data = Feed::new(vec![7, 7, 0, 7]);
    let result = automaton.run(&mut data);
    assert_eq!(result, AutomatonResult::EmptyIter(2));
    assert_eq!(data.buffer, "written");
    assert_eq!(data.pulled, 4);
}

#[test]
fn rerun_on_fresh_data_is_independent() {
    let mut automaton = Automaton::new(hello_simple_world);
    let mut first = Feed::new(vec![1, 2, 3, 3]);
    let mut second = Feed::new(vec![1, 5]);
    let mut third = Feed::new(vec![1, 2, 3, 3]);
    assert_eq!(automaton.run(&mut first), AutomatonResult::EmptyIter(3));
    assert_eq!(automaton.run(&mut second), AutomatonResult::CouldNotFindNextState(2));
    assert_eq!(automaton.run(&mut third), AutomatonResult::EmptyIter(3));
    assert_eq!(first.buffer, "Hello simple world!world!");
    assert_eq!(second.buffer, "Hello");
    assert_eq!(third.buffer, first.buffer);
}

#[test]
fn simple_state_reports_its_identifier() {
    let state: State = SimpleStateImplementation::new(42);
    assert_eq!(state.get_id_owned(), 42);
    assert_eq!(state.get_id(), &42);
}

#[test]
fn simple_state_visit_reports_each_outcome() {
    let mut graph: Graph = StateGraph::new();
    let start = new_shared_automaton_state(&mut graph, SimpleStateImplementation::new(1));
    let other = new_shared_automaton_state(&mut graph, SimpleStateImplementation::new(2));
    connect(&mut graph, start, Matcher::Is(1), Action::Append("x"), other);
    connect(&mut graph, start, Matcher::Is(2), Action::Fail("no"), other);
    let mut data = Feed::new(vec![1, 2, 3]);
    assert_eq!(graph.state(start).execute_next_connection(&mut data), Ok(NextState::Continue(other)));
    assert_eq!(data.buffer, "x");
    assert_eq!(graph.state(start).execute_next_connection(&mut data), Err(String::from("no")));
    assert_eq!(graph.state(start).execute_next_connection(&mut data), Ok(NextState::NotFound));
    assert_eq!(graph.state(start).execute_next_connection(&mut data), Ok(NextState::ProcessEnded));
    assert_eq!(data.buffer, "x");
    assert_eq!(data.pulled, 3);
}
