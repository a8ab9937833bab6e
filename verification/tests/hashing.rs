use keyspace::hash::DefaultHasher;
use keyspace::node::{KeyspaceNode, NodeRef, Nodes};
use keyspace::replication::{DefaultReplicationStrategy, ReplicaSet};
use keyspace::sharding::Shards;

#[test]
fn sanity_checks() {
    // Ensure that the hasher produces consistent results.
    let data = b"hello world";
    let mut hasher1 = DefaultHasher::new();
    hasher1.write(data);
    let hash1 = hasher1.finish();

    let mut hasher2 = DefaultHasher::new();
    hasher2.write(data);
    let hash2 = hasher2.finish();
    assert_eq!(hash1, hash2, "Hashes should be equal for the same input");

    // Ensure that output stays the same across releases. The streams below
    // are what std's Hash machinery writes for a string slice (its bytes
    // plus the 0xff terminator), for the 32-bit integer 42, and for a
    // struct of a 32-bit field 123 followed by the string "test".
    let mut hasher = DefaultHasher::new();
    hasher.write(b"hello world");
    hasher.write(&[0xff]);
    assert_eq!(hasher.finish(), 11123828800333028832);

    let mut hasher = DefaultHasher::new();
    hasher.write(&42i32.to_le_bytes());
    assert_eq!(hasher.finish(), 6826880404968503204);

    let mut hasher = DefaultHasher::new();
    hasher.write(&123u32.to_le_bytes());
    hasher.write(b"test");
    hasher.write(&[0xff]);
    assert_eq!(hasher.finish(), 17347315807818014607);
}

#[test]
fn empty_and_incremental_writes() {
    // The digest is a function of the concatenated stream alone: the same
    // bytes split across writes give the same digest.
    let mut whole = DefaultHasher::new();
    whole.write(b"hello world");
    let mut parts = DefaultHasher::new();
    parts.write(b"hello ");
    parts.write(b"world");
    assert_eq!(whole.finish(), parts.finish());

    // And writing nothing is not the same digest as writing something.
    let empty = DefaultHasher::new();
    assert_ne!(empty.finish(), whole.finish());
}

#[test]
fn replica_set_takes_leading_candidates() {
    let handles: Vec<NodeRef<String>> = (0..5)
        .map(|i| NodeRef::new(format!("node{}", i)))
        .collect();

    let rs = ReplicaSet::<String, 3>::try_from_iter(handles.clone()).expect("enough candidates");
    assert_eq!(rs.len(), 3);
    assert_eq!(rs.get(0).id(), "node0");
    assert_eq!(rs.get(1).id(), "node1");
    assert_eq!(rs.get(2).id(), "node2");
    assert!(rs.contains_id(&"node2".to_string()));
    assert!(!rs.contains_id(&"node4".to_string()));

    let short: Vec<NodeRef<String>> = handles.into_iter().take(2).collect();
    let err = match ReplicaSet::<String, 3>::try_from_iter(short) {
        Err(e) => e,
        Ok(_) => panic!("two candidates must not fill a set of three"),
    };
    assert_eq!(err, keyspace::KeyspaceError::IncompleteReplicaSet);
}

#[test]
fn shard_table_layout() {
    let names: Vec<String> = (0..4).map(|i| format!("node{}", i)).collect();
    let nodes = Nodes::from_vec(names);
    let shards =
        Shards::<String, 2>::new(&nodes, DefaultReplicationStrategy::new()).expect("table built");
    assert_eq!(shards.len(), 65536);

    let all = shards.iter();
    assert_eq!(all.len(), 65536);
    let first = &all[0];
    let range = first.key_range();
    assert!(range.contains(0));
    assert!(!range.contains(1u64 << 48));
    let last = &all[65535];
    let range = last.key_range();
    assert!(range.contains(u64::MAX));
    assert_eq!(last.replica_set().len(), 2);

    let idx = keyspace::sharding::ShardIdx::from_position(1u64 << 48);
    assert_eq!(idx.value(), 1);
    let rs = shards.replica_set(idx);
    assert_eq!(rs.len(), 2);
}
