use kipa::api::{Address, Key, Node};
use kipa::gc::{NeighbourGc, NeighbourStatus};
use kipa::key_space::KeySpaceManager;
use kipa::neighbours::{NeighboursStore};
use kipa::api::KeySpace;

fn node(id: &str, data: u8) -> Node {
    Node::new(Address::new(vec![0, 0, 0, data], 0), Key::new(id.to_string(), vec![data]))
}

fn never_scored(_: &KeySpace, _: &Vec<(Node, KeySpace)>) -> String {
    panic!("no scoring expected")
}

#[test]
fn status_check_and_cooloff() {
    let mut s = NeighbourStatus::new();
    assert_eq!(s, NeighbourStatus { consecutive_failed: 0, retry_cooloff: 0 });
    assert!(s.start_check());
    s.record_check(false);
    assert_eq!(s, NeighbourStatus { consecutive_failed: 1, retry_cooloff: 1 });
    assert!(!s.start_check());
    assert_eq!(s.retry_cooloff, 0);
    assert!(s.start_check());
    s.record_check(false);
    assert_eq!(s, NeighbourStatus { consecutive_failed: 2, retry_cooloff: 2 });
    assert!(!s.start_check());
    assert!(!s.start_check());
    assert!(s.start_check());
    s.record_check(true);
    assert_eq!(s, NeighbourStatus::new());
}

/// Runs one round: every neighbour is checked unless cooling off, and
/// `alive` says which answer.
fn round(gc: &mut NeighbourGc, store: &mut NeighboursStore, alive: &dyn Fn(&Node) -> bool) -> usize {
    let neighbours = store.get_all();
    let mut checked = 0;
    let mut key_ids = vec![];
    for n in &neighbours {
        key_ids.push(n.key.key_id.clone());
        if gc.start_check(&n.key.key_id) {
            checked += 1;
            gc.record_check(&n.key.key_id, alive(n));
        }
    }
    gc.finish_round(store, &key_ids);
    checked
}

#[test]
fn unresponsive_neighbour_is_removed_after_retries() {
    let local = Key::new("00000009".to_string(), vec![9]);
    let mut store = NeighboursStore::new(&local, 3, KeySpaceManager::new(1));
    let a = node("0000000A", 1);
    let b = node("0000000B", 2);
    store.consider_candidate(&a, true, &|_: &Node| true, &never_scored);
    store.consider_candidate(&b, true, &|_: &Node| true, &never_scored);
    let mut gc = NeighbourGc::new(2);
    let b_dead = |n: &Node| n.key.key_id != "0000000B";

    // Round 1: both checked, b fails once and cools off for one round.
    assert_eq!(round(&mut gc, &mut store, &b_dead), 2);
    assert_eq!(gc.consecutive_failed(&"0000000B".to_string()), 1);
    assert_eq!(store.get_all().len(), 2);
    // Round 2: b is cooling off.
    assert_eq!(round(&mut gc, &mut store, &b_dead), 1);
    assert_eq!(store.get_all().len(), 2);
    // Round 3: b fails a second time and is removed.
    assert_eq!(round(&mut gc, &mut store, &b_dead), 2);
    assert_eq!(store.get_all(), vec![a.clone()]);
    assert_eq!(gc.consecutive_failed(&"0000000B".to_string()), 0);
    assert_eq!(gc.consecutive_failed(&"0000000A".to_string()), 0);
}

#[test]
fn statuses_of_departed_neighbours_are_dropped() {
    let local = Key::new("00000009".to_string(), vec![9]);
    let mut store = NeighboursStore::new(&local, 3, KeySpaceManager::new(1));
    let a = node("0000000A", 1);
    store.consider_candidate(&a, true, &|_: &Node| true, &never_scored);
    let mut gc = NeighbourGc::new(5);
    round(&mut gc, &mut store, &|_: &Node| false);
    assert_eq!(gc.consecutive_failed(&"0000000A".to_string()), 1);
    store.remove_by_key(&a.key);
    round(&mut gc, &mut store, &|_: &Node| false);
    assert_eq!(gc.consecutive_failed(&"0000000A".to_string()), 0);
}
