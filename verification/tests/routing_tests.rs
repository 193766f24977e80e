use broker::routing::{fnv1a_hash, partition_index_for_key};

#[test]
fn fnv1a_matches_known_vectors() {
    // Standard 64-bit FNV-1a test vectors.
    assert_eq!(fnv1a_hash(b""), 0xcbf29ce484222325);
    assert_eq!(fnv1a_hash(b"a"), 0xaf63dc4c8601ec8c);
    assert_eq!(fnv1a_hash(b"foobar"), 0x85944171f73967e8);
}

#[test]
fn absent_key_routes_to_partition_zero() {
    assert_eq!(partition_index_for_key(&None, 1), 0);
    assert_eq!(partition_index_for_key(&None, 8), 0);
}

#[test]
fn same_key_routes_to_same_partition() {
    let key = Some("dummy_key".to_string());
    let first = partition_index_for_key(&key, 5);
    for _ in 0..10 {
        assert_eq!(partition_index_for_key(&key, 5), first);
    }
}

#[test]
fn routed_partition_is_in_range() {
    for np in 1u32..6 {
        for k in ["", "a", "dummy_key", "dummy_key_2", "another"] {
            let idx = partition_index_for_key(&Some(k.to_string()), np);
            assert!(idx < np);
        }
    }
}

#[test]
fn single_partition_topic_routes_everything_to_zero() {
    assert_eq!(partition_index_for_key(&Some("any key".to_string()), 1), 0);
    assert_eq!(partition_index_for_key(&None, 1), 0);
}

#[test]
fn routing_is_a_function_of_the_key_bytes() {
    let a = partition_index_for_key(&Some("dummy_key".to_string()), 7);
    let b = partition_index_for_key(&Some(String::from("dummy_key")), 7);
    assert_eq!(a, b);
}
