use echofront::hashring::{fnv1a_64, ConsistentHashRing};

fn build(names: &[(usize, &str)], vnodes: u32) -> ConsistentHashRing {
    let mut r = ConsistentHashRing::new(vnodes);
    r.rebuild(names);
    r
}

#[test]
fn same_key_same_member() {
    let r = build(&[(0, "a"), (1, "b"), (2, "c")], 100);
    let first = r.lookup("session-42").unwrap();
    for _ in 0..100 {
        assert_eq!(r.lookup("session-42"), Some(first));
    }
}

#[test]
fn removal_remaps_minimal_fraction() {
    let members = [(0, "a"), (1, "b"), (2, "c"), (3, "d")];
    let before = build(&members, 200);
    let keys: Vec<String> = (0..5000).map(|i| format!("key-{i}")).collect();
    let mapping: Vec<usize> = keys.iter().map(|k| before.lookup(k).unwrap()).collect();

    // Remove member 3.
    let after = build(&[(0, "a"), (1, "b"), (2, "c")], 200);
    let mut moved = 0usize;
    let mut moved_from_other = 0usize;
    for (k, &old) in keys.iter().zip(&mapping) {
        let new = after.lookup(k).unwrap();
        if new != old {
            moved += 1;
            if old != 3 {
                moved_from_other += 1;
            }
        }
    }
    // Keys that were NOT on the removed node must not move.
    assert_eq!(moved_from_other, 0, "keys on surviving nodes must not move");
    // Fraction moved should be close to 1/4.
    let frac = moved as f64 / keys.len() as f64;
    assert!(frac > 0.15 && frac < 0.35, "moved fraction {frac} not near 1/4");
}

#[test]
fn prefix_similar_keys_spread_across_members() {
    let r = build(&[(0, "A"), (1, "B"), (2, "C"), (3, "D")], 160);
    let mut counts = [0usize; 4];
    for i in 0..400 {
        counts[r.lookup(&format!("user-{i}")).unwrap()] += 1;
    }
    for (i, c) in counts.iter().enumerate() {
        assert!(*c > 0, "member {i} starved of prefix similar keys: {counts:?}");
    }
}

#[test]
fn distributes_across_members() {
    let r = build(&[(0, "a"), (1, "b"), (2, "c"), (3, "d")], 200);
    let mut counts = [0usize; 4];
    for i in 0..8000 {
        let id = r.lookup(&format!("k-{i}")).unwrap();
        counts[id] += 1;
    }
    for c in counts {
        assert!(c > 0, "every member should receive some keys");
    }
}

#[test]
fn fnv_known_values() {
    assert_eq!(fnv1a_64(b""), 0xcbf2_9ce4_8422_2325);
    assert_eq!(fnv1a_64(b"a"), 0xaf63_dc4c_8601_ec8c);
    assert_eq!(fnv1a_64(b"foobar"), 0x8594_4171_f739_67e8);
}

#[test]
fn empty_ring_has_no_owner() {
    let r = ConsistentHashRing::new(10);
    assert!(r.is_empty());
    assert_eq!(r.lookup("anything"), None);
    assert!(r.members().is_empty());
}

#[test]
fn zero_virtual_nodes_act_like_one() {
    let r = build(&[(7, "a")], 0);
    assert!(!r.is_empty());
    for i in 0..50 {
        assert_eq!(r.lookup(&format!("k-{i}")), Some(7));
    }
}

#[test]
fn rebuild_replaces_the_members() {
    let mut r = build(&[(0, "a"), (1, "b")], 50);
    assert_eq!(r.members(), &[0, 1]);
    r.rebuild(&[(5, "c")]);
    assert_eq!(r.members(), &[5]);
    assert_eq!(r.lookup("x"), Some(5));
    r.rebuild(&[]);
    assert!(r.is_empty());
}

#[test]
fn a_later_member_takes_over_shared_points() {
    // Equal names stand at equal points, and the later member holds them.
    let r = build(&[(0, "same"), (1, "same")], 20);
    for i in 0..100 {
        assert_eq!(r.lookup(&format!("k-{i}")), Some(1));
    }
}

#[test]
fn joining_member_only_takes_keys() {
    let before = build(&[(0, "a"), (1, "b"), (2, "c")], 120);
    let after = build(&[(0, "a"), (9, "x"), (1, "b"), (2, "c")], 120);
    let mut moved = 0;
    for i in 0..2000 {
        let key = format!("key-{i}");
        let new = after.lookup(&key);
        if new != before.lookup(&key) {
            assert_eq!(new, Some(9));
            moved += 1;
        }
    }
    assert!(moved > 0);
}

#[test]
fn cloned_ring_answers_alike() {
    let a = build(&[(0, "a"), (1, "b"), (2, "c")], 40);
    let b = a.clone();
    for i in 0..200 {
        let key = format!("key-{i}");
        assert_eq!(a.lookup(&key), b.lookup(&key));
    }
}
