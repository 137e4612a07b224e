use fnv::FnvHasher;
use hash_ring::hashing::render_replica_key;
use hash_ring::hashing::replica_points;
use hash_ring::Consistent;
use hash_ring::RingError;
use std::hash::Hash;
use std::hash::Hasher;

fn fnv_of(text: &str) -> u64 {
    let mut hasher = FnvHasher::default();
    String::from(text).hash(&mut hasher);
    hasher.finish()
}

/// The owner of `target` found by looking at every virtual node in turn.
fn owner_by_scan(nodes: &[(&str, u32)], replicas: u32, target: u64) -> Option<String> {
    let mut placed: Vec<(u64, String)> = Vec::new();
    for (name, weight) in nodes {
        for i in 0..replicas {
            for j in 0..*weight {
                let point = fnv_of(&format!("{}{}{}", i, j, name));
                placed.retain(|(p, _)| *p != point);
                placed.push((point, String::from(*name)));
            }
        }
    }
    let ahead = placed.iter().filter(|(p, _)| *p >= target).min_by_key(|(p, _)| *p);
    let first = placed.iter().min_by_key(|(p, _)| *p);
    ahead.or(first).map(|(_, name)| name.clone())
}

#[test]
fn consistent_hash() {
    let mut instance = Consistent::new();
    instance.set_replicas_num(3);
    for i in 0..10 {
        instance.add(format!("{}{}", i, i), 10);
    }
    let r = instance.get(&String::from("kk")).unwrap();
    println!("{} ", r);
}

#[test]
fn ten_nodes_answer_as_a_scan_does() {
    let names: Vec<String> = (0..10).map(|i| format!("{}{}", i, i)).collect();
    let nodes: Vec<(&str, u32)> = names.iter().map(|n| (n.as_str(), 10)).collect();
    let mut ring = Consistent::new();
    ring.set_replicas_num(3);
    for name in &names {
        ring.add(name.clone(), 10);
    }
    assert_eq!(ring.len(), 300);
    assert_eq!(ring.get(&String::from("kk")), Ok(String::from("77")));
    for k in 0..500 {
        let key = format!("key-{}", k);
        assert_eq!(ring.get(&key).ok(), owner_by_scan(&nodes, 3, fnv_of(&key)));
    }
}

#[test]
fn single_node_serves_every_key() {
    let mut ring = Consistent::new();
    ring.set_replicas_num(3);
    ring.add(String::from("node-a"), 10);
    assert_eq!(ring.get(&String::from("kk")), Ok(String::from("node-a")));
    for k in 0..200 {
        assert_eq!(ring.get(&format!("k{}", k)), Ok(String::from("node-a")));
    }
}

#[test]
fn empty_ring_has_no_owner() {
    let ring = Consistent::new();
    assert_eq!(ring.get(&String::from("x")), Err(RingError::EmptyRing));
    assert_eq!(ring.locate(0), Err(RingError::EmptyRing));
    assert!(ring.is_empty());
    assert_eq!(ring.len(), 0);
    assert!(ring.sorted_points().is_empty());
}

#[test]
fn configured_ring_without_nodes_is_empty() {
    for n in [0u32, 1, 3, 1000] {
        let mut ring = Consistent::new();
        ring.set_replicas_num(n);
        for key in ["", "x", "kk", "node-a"] {
            assert_eq!(ring.get(&String::from(key)), Err(RingError::EmptyRing));
        }
        assert_eq!(ring.locate(u64::MAX), Err(RingError::EmptyRing));
    }
}

#[test]
fn two_nodes_share_a_thousand_keys() {
    let mut ring = Consistent::new();
    ring.add(String::from("node-a"), 5);
    ring.add(String::from("node-b"), 5);
    let mut a = 0;
    let mut b = 0;
    for k in 0..1000 {
        let owner = ring.get(&format!("key-{}", k)).unwrap();
        if owner == "node-a" {
            a += 1;
        } else if owner == "node-b" {
            b += 1;
        } else {
            panic!("unexpected owner {}", owner);
        }
    }
    assert_eq!(a + b, 1000);
    assert!(a >= 1);
    assert!(b >= 1);
    assert_eq!(ring.len(), 10);
    assert!(ring.owner_at(fnv_of("00node-a")).is_some());
    assert!(ring.owner_at(fnv_of("00node-b")).is_some());
}

#[test]
fn unconfigured_ring_places_one_replica() {
    let mut ring = Consistent::new();
    assert_eq!(ring.replicas_num(), 0);
    ring.add(String::from("node-a"), 5);
    assert_eq!(ring.replicas_num(), 0);
    assert!(!ring.is_empty());
    assert_eq!(ring.len(), 5);
    for j in 0..5 {
        let point = fnv_of(&format!("0{}node-a", j));
        assert_eq!(ring.owner_at(point), Some(String::from("node-a")));
    }
    assert_eq!(ring.owner_at(fnv_of("10node-a")), None);
    assert_eq!(ring.get(&String::from("kk")), Ok(String::from("node-a")));

    let mut configured = Consistent::new();
    configured.set_replicas_num(1);
    configured.add(String::from("node-a"), 5);
    assert_eq!(ring.sorted_points(), configured.sorted_points());
}

#[test]
fn replica_count_is_at_least_one() {
    let mut ring = Consistent::new();
    ring.set_replicas_num(0);
    assert_eq!(ring.replicas_num(), 1);
    ring.set_replicas_num(1);
    assert_eq!(ring.replicas_num(), 1);
    ring.set_replicas_num(2);
    assert_eq!(ring.replicas_num(), 2);
    ring.set_replicas_num(u32::MAX);
    assert_eq!(ring.replicas_num(), u32::MAX);
}

#[test]
fn reconfiguring_keeps_the_placed_points() {
    let mut ring = Consistent::new();
    ring.set_replicas_num(2);
    ring.add(String::from("node-a"), 3);
    let before = ring.sorted_points().clone();
    let answer = ring.get(&String::from("kk"));
    ring.set_replicas_num(5);
    assert_eq!(ring.sorted_points(), &before);
    assert_eq!(ring.get(&String::from("kk")), answer);
    ring.add(String::from("node-b"), 1);
    assert_eq!(ring.len(), 6 + 5);
}

#[test]
fn weight_zero_adds_nothing() {
    let mut fresh = Consistent::new();
    fresh.add(String::from("node-a"), 0);
    assert!(fresh.is_empty());
    assert_eq!(fresh.get(&String::from("x")), Err(RingError::EmptyRing));

    let mut ring = Consistent::new();
    ring.set_replicas_num(4);
    ring.add(String::from("node-a"), 0);
    assert!(ring.is_empty());
    ring.add(String::from("node-b"), 2);
    let before = ring.sorted_points().clone();
    ring.add(String::from("node-c"), 0);
    assert_eq!(ring.sorted_points(), &before);
    assert_eq!(ring.len(), 8);
}

#[test]
fn add_places_one_point_per_replica_and_unit() {
    let mut ring = Consistent::new();
    ring.set_replicas_num(3);
    ring.add(String::from("node-a"), 4);
    assert_eq!(ring.len(), 12);
    for i in 0..3 {
        for j in 0..4 {
            let point = fnv_of(&format!("{}{}node-a", i, j));
            assert_eq!(ring.owner_at(point), Some(String::from("node-a")));
            assert!(ring.sorted_points().contains(&point));
        }
    }
    assert_eq!(ring.owner_at(fnv_of("34node-a")), None);
    assert_eq!(ring.owner_at(fnv_of("node-a")), None);
}

#[test]
fn index_is_the_sorted_key_set_after_every_add() {
    let mut ring = Consistent::new();
    ring.set_replicas_num(3);
    let mut expected: Vec<u64> = Vec::new();
    for (n, name) in ["node-a", "node-b", "node-c", "node-a"].iter().enumerate() {
        let weight = (n as u32) + 2;
        ring.add(String::from(*name), weight);
        for i in 0..3 {
            for j in 0..weight {
                expected.push(fnv_of(&format!("{}{}{}", i, j, name)));
            }
        }
        expected.sort();
        expected.dedup();
        let index = ring.sorted_points();
        assert_eq!(index, &expected);
        for pair in index.windows(2) {
            assert!(pair[0] < pair[1]);
        }
        assert_eq!(index.len(), ring.len());
        for point in index {
            assert!(ring.owner_at(*point).is_some());
        }
    }
}

#[test]
fn adding_a_node_again_changes_nothing() {
    let mut ring = Consistent::new();
    ring.set_replicas_num(3);
    ring.add(String::from("node-a"), 5);
    ring.add(String::from("node-b"), 5);
    let before = ring.sorted_points().clone();
    ring.add(String::from("node-a"), 5);
    assert_eq!(ring.sorted_points(), &before);
    assert_eq!(ring.len(), 30);
}

#[test]
fn same_calls_give_the_same_answers() {
    let mut first = Consistent::new();
    let mut second = Consistent::new();
    for ring in [&mut first, &mut second] {
        ring.set_replicas_num(4);
        ring.add(String::from("node-a"), 3);
        ring.add(String::from("node-b"), 7);
        ring.add(String::from("node-c"), 1);
    }
    assert_eq!(first.sorted_points(), second.sorted_points());
    for k in 0..300 {
        let key = format!("user:{}", k);
        let answer = first.get(&key);
        assert!(answer.is_ok());
        assert_eq!(first.get(&key), answer);
        assert_eq!(second.get(&key), answer);
    }
}

#[test]
fn every_answer_is_a_node_that_was_added() {
    let mut ring = Consistent::new();
    ring.set_replicas_num(2);
    let names = ["alpha", "beta", "gamma"];
    for (n, name) in names.iter().enumerate() {
        ring.add(String::from(*name), (n as u32) + 1);
    }
    for k in 0..500 {
        let owner = ring.get(&format!("{}", k)).unwrap();
        assert!(names.contains(&owner.as_str()));
    }
    for target in [0, 1, u64::MAX / 2, u64::MAX - 1, u64::MAX] {
        let owner = ring.locate(target).unwrap();
        assert!(names.contains(&owner.as_str()));
    }
}

#[test]
fn heavier_node_owns_more_keys() {
    let mut ring = Consistent::new();
    ring.set_replicas_num(20);
    ring.add(String::from("A"), 1);
    ring.add(String::from("B"), 10);
    let mut a = 0;
    let mut b = 0;
    for k in 0..10000 {
        match ring.get(&format!("key-{}", k)).unwrap().as_str() {
            "A" => a += 1,
            "B" => b += 1,
            other => panic!("unexpected owner {}", other),
        }
    }
    assert_eq!(a + b, 10000);
    assert!(a > 0);
    assert!(b > 5 * a);
}

#[test]
fn key_beyond_every_point_wraps_to_the_smallest() {
    let mut ring = Consistent::new();
    ring.set_replicas_num(1);
    ring.add(String::from("node-a"), 2);
    ring.add(String::from("node-b"), 2);
    let index = ring.sorted_points().clone();
    assert_eq!(index.len(), 4);
    let smallest = index[0];
    let largest = index[3];
    let first_owner = ring.owner_at(smallest).unwrap();
    let mut found = 0;
    for k in 0..2000 {
        let key = format!("key-{}", k);
        if fnv_of(&key) > largest {
            found += 1;
            assert_eq!(ring.get(&key), Ok(first_owner.clone()));
        }
    }
    assert!(found > 0);
    assert_eq!(ring.locate(u64::MAX), Ok(first_owner.clone()));
    assert_eq!(ring.locate(largest), ring.owner_at(largest).ok_or(RingError::EmptyRing));
    assert_eq!(ring.locate(largest + 1), Ok(first_owner));
}

#[test]
fn locate_walks_to_the_next_point() {
    let mut ring = Consistent::new();
    ring.place(String::from("a"), &vec![10, 30]);
    ring.place(String::from("b"), &vec![20]);
    assert_eq!(ring.sorted_points(), &vec![10, 20, 30]);
    assert_eq!(ring.locate(0), Ok(String::from("a")));
    assert_eq!(ring.locate(10), Ok(String::from("a")));
    assert_eq!(ring.locate(11), Ok(String::from("b")));
    assert_eq!(ring.locate(20), Ok(String::from("b")));
    assert_eq!(ring.locate(21), Ok(String::from("a")));
    assert_eq!(ring.locate(30), Ok(String::from("a")));
    assert_eq!(ring.locate(31), Ok(String::from("a")));
    assert_eq!(ring.locate(u64::MAX), Ok(String::from("a")));
}

#[test]
fn place_overwrites_the_owner_of_a_point() {
    let mut ring = Consistent::new();
    ring.place(String::from("a"), &vec![7, 7, 3]);
    assert_eq!(ring.sorted_points(), &vec![3, 7]);
    ring.place(String::from("b"), &vec![7, 9]);
    assert_eq!(ring.sorted_points(), &vec![3, 7, 9]);
    assert_eq!(ring.owner_at(3), Some(String::from("a")));
    assert_eq!(ring.owner_at(7), Some(String::from("b")));
    assert_eq!(ring.owner_at(9), Some(String::from("b")));
    assert_eq!(ring.owner_at(8), None);
    assert_eq!(ring.len(), 3);
    ring.place(String::from("c"), &Vec::new());
    assert_eq!(ring.sorted_points(), &vec![3, 7, 9]);
}

#[test]
fn replica_key_is_index_unit_and_name() {
    assert_eq!(render_replica_key(0, 0, &String::from("node-a")), "00node-a");
    assert_eq!(render_replica_key(3, 12, &String::from("node-a")), "312node-a");
    assert_eq!(render_replica_key(10, 9, &String::from("")), "109");
    assert_eq!(render_replica_key(7, 100, &String::from("n")), "7100n");
    assert_eq!(
        render_replica_key(u32::MAX, 4000000000, &String::from("é")),
        "42949672954000000000é"
    );
    for i in [0u32, 1, 9, 10, 11, 99, 100, 101, 65535, 1000000] {
        assert_eq!(
            render_replica_key(i, i / 2, &String::from("x")),
            format!("{}{}{}", i, i / 2, "x")
        );
    }
}

#[test]
fn replica_points_are_fnv_hashes_of_the_keys() {
    let points = replica_points(2, &String::from("node-a"), 3);
    assert_eq!(points.len(), 6);
    for i in 0..2u32 {
        for j in 0..3u32 {
            let expected = fnv_of(&format!("{}{}node-a", i, j));
            assert_eq!(points[(i * 3 + j) as usize], expected);
        }
    }
    assert_eq!(replica_points(0, &String::from("node-a"), 3), Vec::<u64>::new());
    assert_eq!(replica_points(3, &String::from("node-a"), 0), Vec::<u64>::new());
}

#[test]
fn hash_is_fnv1a_of_the_bytes_and_a_closing_byte() {
    let mut hasher = FnvHasher::default();
    hasher.write(b"00node-a");
    hasher.write(&[0xff]);
    let expected = hasher.finish();
    assert_eq!(replica_points(1, &String::from("node-a"), 1), vec![expected]);
    let mut ring = Consistent::new();
    ring.place(String::from("low"), &vec![fnv_of("kk")]);
    ring.place(String::from("high"), &vec![fnv_of("kk") + 1]);
    assert_eq!(ring.get(&String::from("kk")), Ok(String::from("low")));
    assert_eq!(fnv_of("kk"), 0x3d99c8193632c344);
}

#[test]
fn error_says_what_is_wrong() {
    assert_eq!(RingError::EmptyRing.message(), "empty circle");
    assert_eq!(format!("{:?}", RingError::EmptyRing), "EmptyRing");
}
