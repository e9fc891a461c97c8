use kipa::api::{Address, Key, KeySpace, Node, RequestPayload, ResponsePayload};
use kipa::graph::{answer_request, receive_request, GraphStep};
use kipa::key_space::KeySpaceManager;
use kipa::neighbours::NeighboursStore;

fn graph_key(id: &str, data: Vec<u8>) -> Key {
    Key::new(id.to_string(), data)
}

fn graph_node(k: &Key) -> Node {
    Node::new(Address::new(vec![127, 0, 0, 1], 10842), k.clone())
}

fn unscored(_: &KeySpace, _: &Vec<(Node, KeySpace)>) -> String {
    panic!("no scoring expected")
}

fn never_verified(_: &Node) -> bool {
    panic!("a trusted sender is not verified")
}

#[test]
fn receive_request_considers_sender_as_trusted() {
    let local = graph_key("00000009", vec![9]);
    let mut store = NeighboursStore::new(&local, 3, KeySpaceManager::new(1));
    let sender = graph_node(&graph_key("00000001", vec![1]));
    let step = receive_request(
        &mut store,
        &RequestPayload::ListNeighboursRequest(),
        &Some(sender.clone()),
        &never_verified,
        &unscored,
    );
    assert_eq!(store.get_all(), vec![sender.clone()]);
    match step {
        GraphStep::Respond(ResponsePayload::ListNeighboursResponse(nodes)) => assert_eq!(nodes, vec![sender]),
        _ => panic!("expected a neighbour listing"),
    }
}

#[test]
fn receive_request_from_local_client_keeps_neighbours() {
    let local = graph_key("00000009", vec![9]);
    let mut store = NeighboursStore::new(&local, 3, KeySpaceManager::new(1));
    let step = receive_request(&mut store, &RequestPayload::VerifyRequest(), &None, &never_verified, &unscored);
    assert!(store.get_all().is_empty());
    assert!(matches!(step, GraphStep::Respond(ResponsePayload::VerifyResponse())));
}

#[test]
fn receive_request_ignores_sender_with_local_key() {
    let local = graph_key("00000009", vec![9]);
    let mut store = NeighboursStore::new(&local, 3, KeySpaceManager::new(1));
    let wanted = graph_key("00000002", vec![2]);
    let step = receive_request(
        &mut store,
        &RequestPayload::SearchRequest(wanted.clone()),
        &Some(graph_node(&local)),
        &never_verified,
        &unscored,
    );
    assert!(store.get_all().is_empty());
    match step {
        GraphStep::Search(k) => assert_eq!(k, wanted),
        _ => panic!("expected a search"),
    }
}

#[test]
fn answer_request_queries_closest_neighbours() {
    let local = graph_key("00000009", vec![0, 0, 0, 100]);
    let mut store = NeighboursStore::new(&local, 5, KeySpaceManager::new(1));
    for (id, d) in [("00000001", 10u8), ("00000002", 50), ("00000003", 30), ("00000004", 70)] {
        let n = graph_node(&graph_key(id, vec![0, 0, 0, d]));
        store.consider_candidate(&n, true, &never_verified, &unscored);
    }
    let target = graph_key("0000000A", vec![0, 0, 0, 40]);
    match answer_request(&store, &RequestPayload::QueryRequest(target)) {
        GraphStep::Respond(ResponsePayload::QueryResponse(nodes)) => {
            let ids = nodes.iter().map(|n| n.key.key_id.clone()).collect::<Vec<String>>();
            assert_eq!(ids, vec!["00000002", "00000003", "00000001"]);
        }
        _ => panic!("expected a query response"),
    }
    let connect_to = graph_node(&graph_key("00000005", vec![5]));
    match answer_request(&store, &RequestPayload::ConnectRequest(connect_to.clone())) {
        GraphStep::Connect(n) => assert_eq!(n, connect_to),
        _ => panic!("expected a connection"),
    }
}
