use gossip_node::helper::compare_knowledge;
use gossip_node::node::{Node, TopoEntry};
use gossip_node::protocol::Body;

fn topo(pairs: &[(&str, &[&str])]) -> Vec<TopoEntry> {
    pairs
        .iter()
        .map(|(n, ns)| TopoEntry {
            node: n.to_string(),
            neighbors: ns.iter().map(|s| s.to_string()).collect(),
        })
        .collect()
}

fn initialized(id: &str, peers: &[&str]) -> Node {
    let mut node = Node::new();
    node.node_id = Some(id.to_string());
    node.node_ids = Some(peers.iter().map(|s| s.to_string()).collect());
    node
}

#[test]
fn fresh_node_round_is_none() {
    let mut node = Node::new();
    assert!(node.talk().is_none());
}

#[test]
fn record_keeps_sorted_unique() {
    let mut node = Node::new();
    for v in [3, 1, 2, 2, 1] {
        node.save(v);
    }
    assert_eq!(node.load(), vec![1, 2, 3]);
}

#[test]
fn record_all_batched() {
    let mut node = Node::new();
    node.save_all(vec![5, 1, 5, 3, 1]);
    assert_eq!(node.load(), vec![1, 3, 5]);
}

#[test]
fn record_is_idempotent() {
    let mut node = Node::new();
    node.save(2);
    let once = node.load();
    node.save(2);
    assert_eq!(node.load(), once);
    assert_eq!(once, vec![2]);
}

#[test]
fn snapshot_empty_on_new() {
    let node = Node::new();
    assert_eq!(node.load(), Vec::<usize>::new());
}

#[test]
fn next_mid_strictly_increases() {
    let mut node = Node::new();
    assert_eq!(node.next_mid(), 1);
    assert_eq!(node.next_mid(), 2);
    assert_eq!(node.next_mid(), 3);
}

#[test]
fn compare_knowledge_difference() {
    let local = vec![1, 2, 3, 4];
    let remote = vec![2, 4];
    assert_eq!(compare_knowledge(&local, &remote), vec![1, 3]);
}

#[test]
fn compare_knowledge_nothing_missing() {
    let local = vec![1, 2];
    let remote = vec![1, 2, 3];
    assert_eq!(compare_knowledge(&local, &remote), Vec::<usize>::new());
}

#[test]
fn compare_knowledge_disjoint() {
    let local = vec![7, 9];
    let remote = vec![8];
    assert_eq!(compare_knowledge(&local, &remote), vec![7, 9]);
}

#[test]
fn guid_absent_before_init() {
    let mut node = Node::new();
    assert_eq!(node.get_guid("77"), None);
}

#[test]
fn guid_cached_once_derived() {
    let mut node = initialized("n1", &["n1"]);
    assert_eq!(node.get_guid("77"), Some("n177".to_string()));
    // the cached identifier survives even a changed process tag
    assert_eq!(node.get_guid("88"), Some("n177".to_string()));
}

#[test]
fn topology_seeds_empty_beliefs() {
    let mut node = initialized("n1", &["n1", "n2"]);
    node.update_topo(topo(&[("n1", &["n2"]), ("n2", &["n1"])]));
    assert!(node.has_belief(&"n2".to_string()));
    assert!(!node.has_belief(&"n1".to_string()));
    assert_eq!(node.get_remote_known("n2".to_string()), Vec::<usize>::new());
}

#[test]
fn topology_reapply_keeps_beliefs() {
    let mut node = initialized("n1", &["n1", "n2"]);
    let t = topo(&[("n1", &["n2"]), ("n2", &["n1"])]);
    node.update_topo(t.clone());
    node.update_remote_known("n2".to_string(), vec![1, 2]);
    node.update_topo(t);
    assert_eq!(node.get_remote_known("n2".to_string()), vec![1, 2]);
}

#[test]
fn belief_union_no_duplicates() {
    let mut node = initialized("n1", &["n1", "n2"]);
    node.update_topo(topo(&[("n2", &["n1"])]));
    node.update_remote_known("n2".to_string(), vec![1, 2]);
    node.update_remote_known("n2".to_string(), vec![2, 3, 2]);
    assert_eq!(node.get_remote_known("n2".to_string()), vec![1, 2, 3]);
}

#[test]
fn belief_never_shrinks() {
    let mut node = initialized("n1", &["n1", "n2"]);
    node.update_topo(topo(&[("n2", &["n1"])]));
    node.update_remote_known("n2".to_string(), vec![4, 9]);
    node.update_remote_known("n2".to_string(), vec![1]);
    let belief = node.get_remote_known("n2".to_string());
    assert!(belief.contains(&4) && belief.contains(&9) && belief.contains(&1));
}

#[test]
fn round_sends_delta_per_peer() {
    let mut node = initialized("n1", &["n1", "n2", "n3"]);
    node.update_topo(topo(&[("n1", &["n2", "n3"]), ("n2", &["n1"]), ("n3", &["n1"])]));
    node.save_all(vec![1, 2]);
    node.update_remote_known("n2".to_string(), vec![1, 2]);
    let msgs = node.talk().expect("an initialized node returns a message list");
    assert_eq!(msgs.len(), 1);
    assert_eq!(msgs[0].src, "n1");
    assert_eq!(msgs[0].dest, "n3");
    match &msgs[0].body {
        Body::Gossip { msg_id, news } => {
            assert_eq!(*news, vec![1, 2]);
            assert_eq!(*msg_id, node.msg_counter);
        }
        other => panic!("expected a gossip body, got {:?}", other),
    }
}

#[test]
fn round_empty_when_all_believed() {
    let mut node = initialized("n1", &["n1", "n2"]);
    node.update_topo(topo(&[("n2", &["n1"])]));
    node.save_all(vec![1, 2]);
    node.update_remote_known("n2".to_string(), vec![1, 2]);
    let msgs = node.talk().expect("a message list, possibly empty");
    assert!(msgs.is_empty());
}

#[test]
fn record_all_empty_batch_is_noop() {
    let mut node = Node::new();
    node.save(4);
    node.save_all(vec![]);
    assert_eq!(node.load(), vec![4]);
}

#[test]
fn round_stamps_each_message_freshly() {
    let mut node = initialized("n1", &["n1", "n2", "n3"]);
    node.update_topo(topo(&[("n2", &["n1"]), ("n3", &["n1"])]));
    node.save(7);
    let before = node.msg_counter;
    let msgs = node.talk().expect("a message list");
    assert_eq!(msgs.len(), 2);
    let mut ids: Vec<usize> = msgs
        .iter()
        .map(|m| match &m.body {
            Body::Gossip { msg_id, .. } => *msg_id,
            other => panic!("expected a gossip body, got {:?}", other),
        })
        .collect();
    ids.sort();
    assert_eq!(ids, vec![before + 1, before + 2]);
    assert_eq!(node.msg_counter, before + 2);
}

#[test]
fn round_skips_own_entry() {
    let mut node = initialized("n1", &["n1", "n2"]);
    node.update_topo(topo(&[("n1", &["n2"]), ("n2", &["n1"])]));
    node.save(5);
    let msgs = node.talk().expect("a message list");
    assert_eq!(msgs.len(), 1);
    assert_eq!(msgs[0].dest, "n2");
}
