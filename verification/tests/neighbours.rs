use kipa::api::{Address, Key, KeySpace, Node};
use kipa::key_space::KeySpaceManager;
use kipa::neighbours::{CandidateAction, NeighboursStore};

fn key(id: &str, data: Vec<u8>) -> Key {
    Key::new(id.to_string(), data)
}

fn node(k: &Key) -> Node {
    Node::new(Address::new(vec![0, 0, 0, 0], 0), k.clone())
}

fn distance(manager: &KeySpaceManager, a: &KeySpace, b: &KeySpace) -> f32 {
    (manager.distance_total(a, b) as f32).powf(1f32 / a.get_size() as f32)
}

fn angle(manager: &KeySpaceManager, relative_to: &KeySpace, a: &KeySpace, b: &KeySpace) -> f32 {
    let numerator = manager.relative_dot(relative_to, a, b) as f32;
    let denominator = (manager.relative_dot(relative_to, a, a) as f32).sqrt()
        * (manager.relative_dot(relative_to, b, b) as f32).sqrt();
    if denominator == 0.0 {
        return 0.0;
    }
    (numerator / denominator).min(1.0).max(-1.0).acos()
}

/// The key identifier of the neighbour with the highest weighted score of
/// distance and angle similarity: the one to leave out.
fn worst_key_id(
    manager: &KeySpaceManager,
    distance_weighting: f32,
    angle_weighting: f32,
    local: &KeySpace,
    neighbours: &Vec<(Node, KeySpace)>,
) -> String {
    let pi = std::f32::consts::PI;
    let min_angles: Vec<f32> = neighbours
        .iter()
        .map(|(_, ks)| {
            neighbours
                .iter()
                .filter(|(_, ks2)| ks != ks2)
                .map(|(_, ks2)| angle(manager, local, ks, ks2))
                .fold(f32::INFINITY, f32::min)
        })
        .collect();
    let distances: Vec<f32> = neighbours.iter().map(|(_, ks)| distance(manager, local, ks)).collect();
    let min_distance = distances.iter().cloned().fold(f32::INFINITY, f32::min);
    let max_distance = distances.iter().cloned().fold(f32::NEG_INFINITY, f32::max);
    let mut worst: Option<(String, f32)> = None;
    for (i, (n, _)) in neighbours.iter().enumerate() {
        let normalized_a = 1.0 - (min_angles[i] / pi);
        let normalized_d = if (max_distance - min_distance).abs() > f32::EPSILON {
            (distances[i] - min_distance) / (max_distance - min_distance)
        } else {
            0.0
        };
        let score = ((normalized_d * distance_weighting) + (normalized_a * angle_weighting))
            / (distance_weighting + angle_weighting);
        let replace = match &worst {
            None => true,
            Some((_, s)) => score > *s,
        };
        if replace {
            worst = Some((n.key.key_id.clone(), score));
        }
    }
    worst.unwrap().0
}

fn sorted_data(store: &NeighboursStore, index: usize) -> Vec<u8> {
    let mut data = store.get_all().iter().map(|n| n.key.data[index]).collect::<Vec<u8>>();
    data.sort();
    data
}

#[test]
fn test_consider_candidates() {
    let keys = vec![
        key("00000001", vec![1]),
        key("00000002", vec![2]),
        key("00000003", vec![3]),
        key("00000004", vec![4]),
        key("00000005", vec![5]),
        key("00000006", vec![6]),
        key("00000007", vec![7]),
    ];
    let manager = KeySpaceManager::new(1);
    let mut ns = NeighboursStore::new(&keys[keys.len() - 1], 3, manager);
    let score = |local: &KeySpace, p: &Vec<(Node, KeySpace)>| worst_key_id(&manager, 1.0, 0.0, local, p);
    for i in 0..keys.len() - 1 {
        ns.consider_candidate(&node(&keys[i]), true, &|_: &Node| true, &score);
    }
    assert_eq!(sorted_data(&ns, 0), vec![4, 5, 6]);
}

#[test]
fn test_consider_candidates_angles() {
    let keys = vec![
        key("00000001", vec![0, 0, 0, 1]),
        key("00000002", vec![0, 0, 0, 2]),
        key("00000003", vec![0, 0, 0, 3]),
        key("00000004", vec![0, 0, 0, 6]),
    ];
    let manager = KeySpaceManager::new(1);
    let mut ns = NeighboursStore::new(&keys[2], 2, manager);
    let score = |local: &KeySpace, p: &Vec<(Node, KeySpace)>| worst_key_id(&manager, 0.5, 0.5, local, p);
    for k in &keys {
        ns.consider_candidate(&node(k), true, &|_: &Node| true, &score);
    }
    assert_eq!(sorted_data(&ns, 3), vec![2, 6]);
}

fn never_scored(_: &KeySpace, _: &Vec<(Node, KeySpace)>) -> String {
    panic!("no scoring expected")
}

#[test]
fn consider_candidate_ignores_local_and_known() {
    let local = key("00000009", vec![9]);
    let mut ns = NeighboursStore::new(&local, 2, KeySpaceManager::new(1));
    let n1 = node(&key("00000001", vec![1]));
    assert_eq!(ns.assess_candidate(&node(&local)), CandidateAction::Ignore());
    ns.consider_candidate(&node(&local), true, &|_: &Node| true, &never_scored);
    assert!(ns.get_all().is_empty());
    assert_eq!(ns.assess_candidate(&n1), CandidateAction::Add());
    ns.consider_candidate(&n1, true, &|_: &Node| true, &never_scored);
    assert_eq!(ns.assess_candidate(&n1), CandidateAction::Known());
    ns.consider_candidate(&n1, true, &|_: &Node| true, &never_scored);
    assert_eq!(ns.get_all(), vec![n1]);
}

#[test]
fn consider_candidate_updates_address_when_verified() {
    let local = key("00000009", vec![9]);
    let mut ns = NeighboursStore::new(&local, 2, KeySpaceManager::new(1));
    let k1 = key("00000001", vec![1]);
    ns.consider_candidate(&node(&k1), true, &|_: &Node| true, &never_scored);
    let moved = Node::new(Address::new(vec![10, 0, 0, 1], 8080), k1.clone());
    assert_eq!(ns.assess_candidate(&moved), CandidateAction::UpdateAddress());
    // Not trusted and not verified: nothing changes.
    ns.consider_candidate(&moved, false, &|_: &Node| false, &never_scored);
    assert_eq!(ns.get_all(), vec![node(&k1)]);
    // Verified: the address is updated.
    ns.consider_candidate(&moved, false, &|_: &Node| true, &never_scored);
    assert_eq!(ns.get_all(), vec![moved]);
}

#[test]
fn consider_candidate_adds_only_verified() {
    let local = key("00000009", vec![9]);
    let mut ns = NeighboursStore::new(&local, 2, KeySpaceManager::new(1));
    let n1 = node(&key("00000001", vec![1]));
    ns.consider_candidate(&n1, false, &|_: &Node| false, &never_scored);
    assert!(ns.get_all().is_empty());
    ns.consider_candidate(&n1, false, &|_: &Node| true, &never_scored);
    assert_eq!(ns.get_all(), vec![n1]);
}

#[test]
fn consider_candidate_keeps_store_when_candidate_is_worst() {
    let local = key("00000009", vec![9]);
    let mut ns = NeighboursStore::new(&local, 1, KeySpaceManager::new(1));
    let n1 = node(&key("00000001", vec![1]));
    let n2 = node(&key("00000002", vec![2]));
    ns.consider_candidate(&n2, true, &|_: &Node| true, &never_scored);
    assert_eq!(ns.assess_candidate(&n1), CandidateAction::Compete());
    let candidate_worst = |_: &KeySpace, _: &Vec<(Node, KeySpace)>| "00000001".to_string();
    ns.consider_candidate(&n1, true, &|_: &Node| true, &candidate_worst);
    assert_eq!(ns.get_all(), vec![n2.clone()]);
    let other_worst = |_: &KeySpace, _: &Vec<(Node, KeySpace)>| "00000002".to_string();
    ns.consider_candidate(&n1, true, &|_: &Node| true, &other_worst);
    assert_eq!(ns.get_all(), vec![n1]);
}

#[test]
fn get_n_closest_orders_by_distance() {
    let local = key("00000009", vec![0, 0, 0, 100]);
    let mut ns = NeighboursStore::new(&local, 5, KeySpaceManager::new(1));
    let keys = vec![
        key("00000001", vec![0, 0, 0, 10]),
        key("00000002", vec![0, 0, 0, 50]),
        key("00000003", vec![0, 0, 0, 30]),
        key("00000004", vec![0, 0, 0, 70]),
    ];
    for k in &keys {
        ns.consider_candidate(&node(k), true, &|_: &Node| true, &never_scored);
    }
    let target = key("0000000A", vec![0, 0, 0, 40]);
    let closest = ns.get_n_closest(&target, 3);
    let ids = closest.iter().map(|n| n.key.key_id.clone()).collect::<Vec<String>>();
    // 30 and 50 are equally near 40: the one added first comes first.
    assert_eq!(ids, vec!["00000002", "00000003", "00000001"]);
    assert_eq!(ns.get_n_closest(&target, 10).len(), 4);
    assert!(ns.get_n_closest(&target, 0).is_empty());
}

#[test]
fn remove_by_key_and_key_id() {
    let local = key("00000009", vec![9]);
    let mut ns = NeighboursStore::new(&local, 3, KeySpaceManager::new(1));
    let k1 = key("00000001", vec![1]);
    let k2 = key("00000002", vec![2]);
    let k3 = key("00000003", vec![3]);
    for k in &[&k1, &k2, &k3] {
        ns.consider_candidate(&node(k), true, &|_: &Node| true, &never_scored);
    }
    ns.remove_by_key(&k2);
    assert_eq!(ns.get_all(), vec![node(&k1), node(&k3)]);
    ns.remove_by_key_id(&"00000001".to_string());
    assert_eq!(ns.get_all(), vec![node(&k3)]);
    let potential = ns.potential_neighbours(&node(&k1));
    assert_eq!(potential.len(), 2);
    assert_eq!(potential[1].1, KeySpace::new(vec![0x01000000]));
    assert_eq!(ns.local_key_space(), KeySpace::new(vec![0x09000000]));
}
