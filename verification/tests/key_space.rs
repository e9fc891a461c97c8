use kipa::api::{Key, KeySpace};
use kipa::key_space::KeySpaceManager;

fn ks(coords: Vec<i32>) -> KeySpace {
    KeySpace::new(coords)
}

/// The distance between two locations: the `n`-th root of the distance total.
fn distance(manager: &KeySpaceManager, a: &KeySpace, b: &KeySpace) -> f32 {
    (manager.distance_total(a, b) as f32).powf(1f32 / a.get_size() as f32)
}

/// The angle between `a` and `b` seen from `relative_to`.
fn angle(manager: &KeySpaceManager, relative_to: &KeySpace, a: &KeySpace, b: &KeySpace) -> f32 {
    let numerator = manager.relative_dot(relative_to, a, b) as f32;
    let denominator = (manager.relative_dot(relative_to, a, a) as f32).sqrt()
        * (manager.relative_dot(relative_to, b, b) as f32).sqrt();
    if denominator == 0.0 {
        return 0.0;
    }
    let cos_angle = numerator / denominator;
    assert!(cos_angle.abs() < 1.01);
    cos_angle.min(1.0).max(-1.0).acos()
}

fn first_coords(ks: &[KeySpace]) -> Vec<i32> {
    let mut nums = ks.iter().map(|k| k.coords[0]).collect::<Vec<i32>>();
    nums.sort();
    nums
}

#[test]
fn key_space_test_remove_duplicate_keys_small() {
    let mut ks = vec![ks(vec![1]), ks(vec![1])];
    let manager = KeySpaceManager::new(1);
    manager.remove_duplicate_keys(&mut ks, &|k: &KeySpace| k.clone());
    assert_eq!(ks.len(), 1);
    assert_eq!(first_coords(&ks), vec![1]);
}

#[test]
fn key_space_test_remove_duplicate_keys() {
    let mut ks = vec![
        ks(vec![1]),
        ks(vec![1]),
        ks(vec![2]),
        ks(vec![4]),
        ks(vec![1]),
        ks(vec![4]),
        ks(vec![4]),
        ks(vec![6]),
        ks(vec![5]),
    ];
    let manager = KeySpaceManager::new(1);
    manager.remove_duplicate_keys(&mut ks, &|k: &KeySpace| k.clone());
    assert_eq!(ks.len(), 5);
    let nums = first_coords(&ks);
    for n in &[1, 2, 4, 5, 6] {
        assert!(nums.contains(n));
    }
}

#[test]
fn key_space_manager_test_remove_duplicate_keys_small() {
    let mut ks = vec![ks(vec![1]), ks(vec![1])];
    let manager = KeySpaceManager::new(1);
    manager.remove_duplicate_keys(&mut ks, &|k: &KeySpace| k.clone());
    assert_eq!(ks.len(), 1);
    assert_eq!(first_coords(&ks), vec![1]);
}

#[test]
fn key_space_manager_test_remove_duplicate_keys() {
    let mut ks = vec![
        ks(vec![1]),
        ks(vec![1]),
        ks(vec![2]),
        ks(vec![4]),
        ks(vec![1]),
        ks(vec![4]),
        ks(vec![4]),
        ks(vec![6]),
        ks(vec![5]),
    ];
    let manager = KeySpaceManager::new(1);
    manager.remove_duplicate_keys(&mut ks, &|k: &KeySpace| k.clone());
    assert_eq!(ks.len(), 5);
    let nums = first_coords(&ks);
    for n in &[1, 2, 4, 5, 6] {
        assert!(nums.contains(n));
    }
}

#[test]
fn remove_duplicate_keys_keeps_short_vectors() {
    let manager = KeySpaceManager::new(1);
    let mut empty: Vec<KeySpace> = vec![];
    manager.remove_duplicate_keys(&mut empty, &|k: &KeySpace| k.clone());
    assert!(empty.is_empty());
    let mut one = vec![ks(vec![7])];
    manager.remove_duplicate_keys(&mut one, &|k: &KeySpace| k.clone());
    assert_eq!(one, vec![ks(vec![7])]);
}

#[test]
fn remove_duplicate_keys_sorts_by_distance_to_first() {
    let manager = KeySpaceManager::new(1);
    let mut v = vec![ks(vec![5]), ks(vec![9]), ks(vec![6]), ks(vec![5]), ks(vec![1])];
    manager.remove_duplicate_keys(&mut v, &|k: &KeySpace| k.clone());
    assert_eq!(v, vec![ks(vec![5]), ks(vec![6]), ks(vec![9]), ks(vec![1])]);
}

#[test]
fn remove_duplicate_keys_keeps_first_of_each_location() {
    let manager = KeySpaceManager::new(1);
    let mut v = vec![("a", 5), ("b", 9), ("c", 5), ("d", 6)];
    manager.remove_duplicate_keys(&mut v, &|t: &(&str, i32)| ks(vec![t.1]));
    assert_eq!(v, vec![("a", 5), ("d", 6), ("b", 9)]);
    let mut single = vec![("e", 3)];
    manager.remove_duplicate_keys(&mut single, &|t: &(&str, i32)| ks(vec![t.1]));
    assert_eq!(single, vec![("e", 3)]);
}

#[test]
fn remove_duplicate_keys_leaves_no_repeat() {
    // 4 and 6 are equally far from 5: both 4s go all the same.
    let manager = KeySpaceManager::new(1);
    let mut v = vec![ks(vec![5]), ks(vec![4]), ks(vec![6]), ks(vec![4])];
    manager.remove_duplicate_keys(&mut v, &|k: &KeySpace| k.clone());
    assert_eq!(v, vec![ks(vec![5]), ks(vec![4]), ks(vec![6])]);
    let mut v = vec![ks(vec![0]), ks(vec![2]), ks(vec![-2]), ks(vec![2]), ks(vec![-2])];
    manager.remove_duplicate_keys(&mut v, &|k: &KeySpace| k.clone());
    assert_eq!(v, vec![ks(vec![0]), ks(vec![2]), ks(vec![-2])]);
}

#[test]
fn key_space_manager_test_distance() {
    let ks = vec![ks(vec![1, 3]), ks(vec![3, 2]), ks(vec![0, 0])];
    let manager = KeySpaceManager::new(2);

    for i in 0..ks.len() {
        for j in i + 1..ks.len() {
            assert!((distance(&manager, &ks[i], &ks[j]) - distance(&manager, &ks[j], &ks[i])).abs() < 1e-4);
        }
    }

    assert!((distance(&manager, &ks[0], &ks[1]) - 3f32.sqrt()).abs() < 1e-4);
    assert!((distance(&manager, &ks[0], &ks[2]) - 4f32.sqrt()).abs() < 1e-4);
    assert!((distance(&manager, &ks[1], &ks[2]) - 5f32.sqrt()).abs() < 1e-4);
}

#[test]
fn key_space_test_distance() {
    let ks = vec![ks(vec![1, 3]), ks(vec![3, 2]), ks(vec![0, 0])];
    let manager = KeySpaceManager::new(2);

    for i in 0..ks.len() {
        for j in i + 1..ks.len() {
            assert!((distance(&manager, &ks[i], &ks[j]) - distance(&manager, &ks[j], &ks[i])).abs() < 1e-4);
        }
    }

    assert!((distance(&manager, &ks[0], &ks[1]) - 3f32.sqrt()).abs() < 1e-4);
    assert!((distance(&manager, &ks[0], &ks[2]) - 4f32.sqrt()).abs() < 1e-4);
    assert!((distance(&manager, &ks[1], &ks[2]) - 5f32.sqrt()).abs() < 1e-4);
}

#[test]
fn distance_total_values() {
    let manager = KeySpaceManager::new(2);
    assert_eq!(manager.distance_total(&ks(vec![1, 3]), &ks(vec![3, 2])), 3);
    assert_eq!(manager.distance_total(&ks(vec![1, 3]), &ks(vec![0, 0])), 4);
    assert_eq!(manager.distance_total(&ks(vec![3, 2]), &ks(vec![0, 0])), 5);
    assert_eq!(manager.distance_total(&ks(vec![0, 0]), &ks(vec![3, 2])), 5);
    assert_eq!(manager.distance_total(&ks(vec![-7, 9]), &ks(vec![-7, 9])), 0);
    // Distances go round the ends of the range of `i32` when that is shorter.
    assert_eq!(manager.distance_total(&ks(vec![i32::MAX, 0]), &ks(vec![i32::MIN, 0])), 0);
    assert_eq!(manager.distance_total(&ks(vec![i32::MAX - 1, 0]), &ks(vec![i32::MIN + 1, 0])), 2);
}

#[test]
fn test_angle() {
    // Grid of form:
    //        |7   8   1
    //        |
    // y = 0 >|6   0   2
    //        |
    //        |5   4   3
    //         ---------
    //       x = 0 ^
    let ks = vec![
        ks(vec![0, 0]),
        ks(vec![2, 2]),
        ks(vec![2, 0]),
        ks(vec![2, -2]),
        ks(vec![0, -2]),
        ks(vec![-2, -2]),
        ks(vec![-2, 0]),
        ks(vec![-2, 2]),
        ks(vec![0, 2]),
    ];
    let manager = KeySpaceManager::new(2);
    let pi = std::f32::consts::PI;

    for k in &ks {
        assert_eq!(angle(&manager, k, k, k), 0.0);
    }
    for k in &ks {
        assert_eq!(angle(&manager, &ks[0], k, k), 0.0);
    }

    assert!((angle(&manager, &ks[0], &ks[1], &ks[2]) - pi / 4.0).abs() < 1e-4);
    assert!((angle(&manager, &ks[0], &ks[2], &ks[6]) - pi).abs() < 1e-4);
    assert!((angle(&manager, &ks[0], &ks[3], &ks[6]) - 3.0 * pi / 4.0).abs() < 1e-4);
    assert!((angle(&manager, &ks[0], &ks[7], &ks[8]) - pi / 4.0).abs() < 1e-4);
    assert!((angle(&manager, &ks[0], &ks[3], &ks[7]) - pi).abs() < 1e-4);
}

#[test]
fn test_angle_1d() {
    let ks = vec![ks(vec![-1]), ks(vec![0]), ks(vec![1]), ks(vec![2])];
    let manager = KeySpaceManager::new(1);
    assert!((angle(&manager, &ks[1], &ks[0], &ks[2]) - std::f32::consts::PI).abs() < 1e-4);
    assert_eq!(angle(&manager, &ks[1], &ks[2], &ks[3]), 0.0);
}

#[test]
fn relative_dot_values() {
    let manager = KeySpaceManager::new(2);
    let origin = ks(vec![1, 1]);
    assert_eq!(manager.relative_dot(&origin, &ks(vec![3, 1]), &ks(vec![1, 4])), 0);
    assert_eq!(manager.relative_dot(&origin, &ks(vec![3, 2]), &ks(vec![4, -1])), 4);
}

#[test]
fn test_distance_overflow() {
    let ks_size = 100;
    let manager = KeySpaceManager::new(ks_size);
    let ks1 = ks(std::iter::repeat(i32::MAX).take(ks_size).collect());
    let ks2 = ks(std::iter::repeat(i32::MIN).take(ks_size).collect());
    distance(&manager, &ks1, &ks2);
    assert_eq!(manager.distance_total(&ks1, &ks2), 0);
}

#[test]
fn test_dot_overflow() {
    let ks_size = 2;
    let manager = KeySpaceManager::new(ks_size);
    let ks_origin = ks(std::iter::repeat(0).take(ks_size).collect());
    let ks1 = ks(std::iter::repeat(i32::MAX).take(ks_size).collect());
    let ks2 = ks(std::iter::repeat(i32::MIN).take(ks_size).collect());
    angle(&manager, &ks_origin, &ks1, &ks2);
    assert_eq!(
        manager.relative_dot(&ks_origin, &ks1, &ks2),
        2 * (i32::MAX as i128) * (i32::MIN as i128)
    );
}

#[test]
fn create_from_key_folds_bytes() {
    let manager = KeySpaceManager::new(1);
    let key = Key::new("00000001".to_string(), vec![1, 2, 3, 4, 0x10, 0, 0, 0x01]);
    // Bytes at equal positions modulo four are XOR-ed: [0x11, 2, 3, 5].
    assert_eq!(manager.create_from_key(&key).coords, vec![0x11020305]);
    let key = Key::new("00000002".to_string(), vec![0xFF, 0xFF, 0xFF, 0xFE]);
    assert_eq!(manager.create_from_key(&key).coords, vec![-2]);
    let manager = KeySpaceManager::new(2);
    let key = Key::new("00000003".to_string(), vec![0, 0, 0, 7]);
    assert_eq!(manager.create_from_key(&key).coords, vec![7, 0]);
}

#[test]
fn sort_key_relative_is_stable_by_distance() {
    let manager = KeySpaceManager::new(1);
    let mut v: Vec<(u32, KeySpace)> = vec![
        (0, ks(vec![10])),
        (1, ks(vec![-3])),
        (2, ks(vec![3])),
        (3, ks(vec![0])),
        (4, ks(vec![-10])),
    ];
    manager.sort_key_relative(&mut v, &|e: &(u32, KeySpace)| e.1.clone(), &ks(vec![0]));
    let order = v.iter().map(|e| e.0).collect::<Vec<u32>>();
    assert_eq!(order, vec![3, 1, 2, 0, 4]);
}

#[test]
fn key_space_text() {
    assert_eq!(ks(vec![1, -2]).to_string(), "KeySpace(1, -2)");
    assert_eq!(ks(vec![]).to_string(), "KeySpace()");
    assert_eq!(ks(vec![i32::MIN]).to_string(), "KeySpace(-2147483648)");
    assert_eq!(ks(vec![1, 2, 3]).get_size(), 3);
}
