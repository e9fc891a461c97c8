use kipa::api::{Address, Key, Node};
use kipa::key_space::KeySpaceManager;
use kipa::error::Error;
use kipa::search::{action_outcome, SearchCallbackAction, SearchParams, SearchState, SearchStep};
use std::time::Duration;

const NUM_NODES: usize = 100;
const START_INDEX: usize = 50;

fn nodes() -> Vec<Node> {
    (0..NUM_NODES)
        .map(|i| {
            Node::new(
                Address::new(vec![0, 0, 0, i as u8], i as u16),
                Key::new(format!("{:08}", i), vec![0, 0, 0, i as u8]),
            )
        })
        .collect()
}

/// The neighbours of node `i` on a line of nodes.
fn line_neighbours(nodes: &[Node], i: usize) -> Vec<Node> {
    if i > 0 && i < NUM_NODES - 1 {
        vec![nodes[i - 1].clone(), nodes[i + 1].clone()]
    } else if i == 0 {
        vec![nodes[i + 1].clone()]
    } else {
        vec![nodes[i - 1].clone()]
    }
}

fn params(breadth: usize, max_num_active_threads: usize) -> SearchParams {
    SearchParams { breadth, max_num_active_threads, timeout: Duration::from_secs(1) }
}

/// Runs a search one query at a time, answering each query at once, and
/// returns the explored nodes in order and whether the breadth was reached.
fn run_search(breadth: usize, start: &[usize]) -> (Vec<usize>, bool) {
    let nodes = nodes();
    let mut state = SearchState::new(KeySpaceManager::new(1), &nodes[0].key, &params(breadth, 1));
    for &i in start {
        state.add_start_node(&nodes[i]);
    }
    let mut explored = vec![];
    loop {
        match state.next_step() {
            SearchStep::Explore(n) => {
                let i = n.address.port as usize;
                state.receive_neighbours(&line_neighbours(&nodes, i));
                if state.explored(&n) {
                    return (explored, true);
                }
                explored.push(i);
            }
            SearchStep::Wait() => panic!("no query is outstanding"),
            SearchStep::NotFound() => return (explored, false),
        }
    }
}

#[test]
fn test_search_order() {
    let (explored, exited) = run_search(2 * NUM_NODES, &[START_INDEX, START_INDEX + 1]);
    let mut expected: Vec<usize> = (0..START_INDEX + 1).rev().collect();
    expected.extend(START_INDEX + 1..NUM_NODES);
    assert_eq!(explored, expected);
    assert!(!exited);
}

#[test]
fn search_gives_up_once_closest_are_explored() {
    // The three nodes closest to node 0 are 0, 1 and 2: once they are all
    // explored the search gives up.
    let (explored, exited) = run_search(3, &[5]);
    assert!(exited);
    assert_eq!(explored, vec![5, 4, 3, 2, 1]);
}

#[test]
fn search_waits_for_outstanding_queries() {
    let nodes = nodes();
    let mut state = SearchState::new(KeySpaceManager::new(1), &nodes[0].key, &params(3, 2));
    assert!(matches!(state.next_step(), SearchStep::NotFound()));
    state.add_start_node(&nodes[10]);
    state.add_start_node(&nodes[20]);
    state.add_start_node(&nodes[30]);
    match state.next_step() {
        SearchStep::Explore(n) => assert_eq!(n.address.port, 10),
        _ => panic!("expected to explore"),
    }
    match state.next_step() {
        SearchStep::Explore(n) => assert_eq!(n.address.port, 20),
        _ => panic!("expected to explore"),
    }
    // Two queries are outstanding: the most allowed.
    assert!(matches!(state.next_step(), SearchStep::Wait()));
    let found = state.receive_neighbours(&vec![nodes[9].clone(), nodes[20].clone(), nodes[9].clone()]);
    assert_eq!(found, vec![nodes[9].clone()]);
    match state.next_step() {
        SearchStep::Explore(n) => assert_eq!(n.address.port, 9),
        _ => panic!("expected to explore"),
    }
    state.receive_neighbours(&vec![]);
    state.receive_neighbours(&vec![]);
    match state.next_step() {
        SearchStep::Explore(n) => assert_eq!(n.address.port, 30),
        _ => panic!("expected to explore"),
    }
    // Nothing left to explore, one query outstanding.
    assert!(matches!(state.next_step(), SearchStep::Wait()));
    state.receive_neighbours(&vec![]);
    assert!(matches!(state.next_step(), SearchStep::NotFound()));
}

#[test]
fn start_nodes_are_explored_even_if_repeated() {
    let nodes = nodes();
    let mut state = SearchState::new(KeySpaceManager::new(1), &nodes[0].key, &params(3, 5));
    state.add_start_node(&nodes[4]);
    state.add_start_node(&nodes[4]);
    assert!(matches!(state.next_step(), SearchStep::Explore(_)));
    assert!(matches!(state.next_step(), SearchStep::Explore(_)));
    assert!(matches!(state.next_step(), SearchStep::Wait()));
}

#[test]
fn nodes_are_found_once() {
    let nodes = nodes();
    let mut state = SearchState::new(KeySpaceManager::new(1), &nodes[0].key, &params(3, 2));
    state.add_start_node(&nodes[10]);
    state.add_start_node(&nodes[20]);
    assert!(matches!(state.next_step(), SearchStep::Explore(_)));
    assert!(matches!(state.next_step(), SearchStep::Explore(_)));
    let first = state.receive_neighbours(&vec![nodes[11].clone(), nodes[12].clone()]);
    assert_eq!(first, vec![nodes[11].clone(), nodes[12].clone()]);
    let second = state.receive_neighbours(&vec![nodes[12].clone(), nodes[10].clone(), nodes[13].clone()]);
    assert_eq!(second, vec![nodes[13].clone()]);
}

type Action = Result<SearchCallbackAction<usize>, Error>;

fn go_on(_: &Node) -> Action {
    Ok(SearchCallbackAction::Continue())
}

#[test]
fn callback_actions_end_the_search() {
    assert_eq!(action_outcome::<usize>(SearchCallbackAction::Continue()), None);
    assert_eq!(action_outcome(SearchCallbackAction::Return(7usize)), Some(Some(7)));
    assert_eq!(action_outcome::<usize>(SearchCallbackAction::Exit()), Some(None));
}

#[test]
fn start_nodes_stop_at_first_ending_callback() {
    let nodes = nodes();
    let mut state = SearchState::new(KeySpaceManager::new(1), &nodes[0].key, &params(3, 1));
    let start = vec![nodes[5].clone(), nodes[6].clone(), nodes[7].clone()];
    let found = |n: &Node| -> Action {
        if n.address.port == 6 {
            Ok(SearchCallbackAction::Return(6))
        } else {
            Ok(SearchCallbackAction::Continue())
        }
    };
    assert_eq!(state.add_start_nodes(&start, &found).unwrap(), Some(Some(6)));
    // Only the node before the one that ended the search was added.
    match state.next_step() {
        SearchStep::Explore(n) => assert_eq!(n, nodes[5]),
        _ => panic!("expected a node to explore"),
    }
    assert!(matches!(state.next_step(), SearchStep::Wait()));

    let mut state = SearchState::new(KeySpaceManager::new(1), &nodes[0].key, &params(3, 3));
    assert_eq!(state.add_start_nodes(&start, &go_on).unwrap(), None);
    for _ in 0..3 {
        assert!(matches!(state.next_step(), SearchStep::Explore(_)));
    }
}

#[test]
fn take_answer_reports_found_and_explored_nodes() {
    let nodes = nodes();
    let mut state = SearchState::new(KeySpaceManager::new(1), &nodes[0].key, &params(3, 1));
    assert_eq!(state.add_start_nodes(&vec![nodes[50].clone()], &go_on).unwrap(), None);
    let explored = match state.next_step() {
        SearchStep::Explore(n) => n,
        _ => panic!("expected a node to explore"),
    };
    // A found node can end the search with a value.
    let found_49 = |n: &Node| -> Action {
        if n.address.port == 49 {
            Ok(SearchCallbackAction::Return(49))
        } else {
            Ok(SearchCallbackAction::Continue())
        }
    };
    let never = |_: &Node| -> Action { panic!("the search ended before") };
    let answer = line_neighbours(&nodes, 50);
    assert_eq!(state.take_answer(&answer, &explored, &found_49, &never).unwrap(), Some(Some(49)));

    // Otherwise the explored callback decides, and its error ends the search.
    let mut state = SearchState::new(KeySpaceManager::new(1), &nodes[0].key, &params(3, 1));
    state.add_start_nodes(&vec![nodes[50].clone()], &go_on).unwrap();
    let explored = match state.next_step() {
        SearchStep::Explore(n) => n,
        _ => panic!("expected a node to explore"),
    };
    let failing = |_: &Node| -> Action { Err(Error::ResponseError("no answer".to_string())) };
    match state.take_answer(&answer, &explored, &go_on, &failing) {
        Err(Error::ResponseError(m)) => assert_eq!(m, "no answer"),
        _ => panic!("expected the callback's error"),
    }
}

#[test]
fn take_answer_goes_on_and_gives_up_when_closest_are_explored() {
    let nodes = nodes();
    let mut state = SearchState::new(KeySpaceManager::new(1), &nodes[0].key, &params(1, 1));
    state.add_start_nodes(&vec![nodes[50].clone()], &go_on).unwrap();
    let explored = match state.next_step() {
        SearchStep::Explore(n) => n,
        _ => panic!("expected a node to explore"),
    };
    // With breadth 1 the closest node, 49, is not yet explored: go on.
    let answer = line_neighbours(&nodes, 50);
    assert_eq!(state.take_answer(&answer, &explored, &go_on, &go_on).unwrap(), None);
    let next = match state.next_step() {
        SearchStep::Explore(n) => n,
        _ => panic!("expected a node to explore"),
    };
    assert_eq!(next, nodes[49]);

    // Searching for node 50 from itself: once it is explored, the closest
    // node is explored and the search gives up.
    let mut state = SearchState::new(KeySpaceManager::new(1), &nodes[50].key, &params(1, 1));
    state.add_start_nodes(&vec![nodes[50].clone()], &go_on).unwrap();
    let explored = match state.next_step() {
        SearchStep::Explore(n) => n,
        _ => panic!("expected a node to explore"),
    };
    let never = |_: &Node| -> Action { panic!("the search gave up before") };
    assert_eq!(state.take_answer(&answer, &explored, &go_on, &never).unwrap(), Some(None));
}
