use keyspace::node::{KeyspaceNode, Nodes};

#[derive(Debug, Hash, PartialEq, Eq, Clone)]
struct Node {
    id: String,
    addr: String,
    port: u16,
    capacity: usize,
}

impl Node {
    fn new(id: &str, ip: &str, port: u16, capacity: usize) -> Self {
        Self {
            id: id.to_string(),
            addr: ip.to_string(),
            port,
            capacity,
        }
    }
}

impl KeyspaceNode for Node {
    type Id = String;

    fn id(&self) -> &String {
        &self.id
    }

    fn id_eq(a: &String, b: &String) -> bool {
        a == b
    }

    fn id_clone(id: &String) -> String {
        id.clone()
    }

    fn capacity(&self) -> usize {
        self.capacity
    }
}

#[test]
fn basic_ops() {
    let mut nodes = Nodes::new();

    // Insert nodes
    let node1 = Node::new("node1", "127.0.0.1", 2048, 10);
    let res = nodes.insert(node1.clone());
    assert!(res.is_none(), "Node should be inserted");
    let res = nodes.insert(Node::new("node2", "127.0.0.1", 2049, 10));
    assert!(res.is_none(), "Node should be inserted");
    let res = nodes.insert(Node::new("node3", "127.0.0.1", 2050, 10));
    assert!(res.is_none(), "Node should be inserted");

    assert_eq!(nodes.len(), 3, "There should be 3 nodes");
    assert!(nodes.keys().contains(&"node1".to_string()));
    assert!(nodes.keys().contains(&"node2".to_string()));
    assert!(nodes.keys().contains(&"node3".to_string()));

    // Update existing node
    let node1a = Node::new("node1", "127.0.0.2", 2048, 10);
    let res = nodes.insert(node1a.clone());
    assert_eq!(res.unwrap().inner(), &node1);

    // Check if the node exists
    assert!(nodes.contains(node1a.id()));
}

#[test]
fn node_handles_and_lookup() {
    let mut nodes = Nodes::new();
    nodes.insert(Node::new("node1", "10.0.0.1", 80, 1));
    nodes.insert(Node::new("node2", "10.0.0.2", 81, 2));

    let found = nodes.get("node2".to_string()).expect("node2 should exist");
    assert_eq!(found.id(), "node2");
    assert_eq!(found.inner().capacity(), 2);
    assert!(nodes.get("node9".to_string()).is_none());

    let removed = nodes.remove(&"node1".to_string()).expect("node1 removed");
    assert_eq!(removed.id(), "node1");
    assert_eq!(nodes.len(), 1);
    assert!(!nodes.contains(&"node1".to_string()));
    assert!(nodes.remove(&"node1".to_string()).is_none());

    let values = nodes.values();
    assert_eq!(values.len(), 1);
    assert_eq!(values[0].id(), "node2");
}
