use gossip_node::node::{Node, TopoEntry};
use gossip_node::protocol::{Body, Message};

const PID: &str = "42";

fn msg(src: &str, dest: &str, body: Body) -> Message {
    Message { src: src.to_string(), dest: dest.to_string(), body }
}

fn topo(pairs: &[(&str, &[&str])]) -> Vec<TopoEntry> {
    pairs
        .iter()
        .map(|(n, ns)| TopoEntry {
            node: n.to_string(),
            neighbors: ns.iter().map(|s| s.to_string()).collect(),
        })
        .collect()
}

/// A node that has been through the initialization handshake and had the
/// mutual two-node topology applied, as the test harness would drive it.
fn ready_node(id: &str, other: &str) -> Node {
    let mut node = Node::new();
    let init = msg(
        "c0",
        id,
        Body::Init {
            msg_id: 1,
            node_id: id.to_string(),
            node_ids: vec![id.to_string(), other.to_string()],
        },
    );
    init.handle(&mut node, PID).expect("init draws a reply");
    let t = msg(
        "c0",
        id,
        Body::Topology {
            msg_id: 2,
            topology: topo(&[(id, &[other]), (other, &[id])]),
        },
    );
    t.handle(&mut node, PID).expect("topology draws a reply");
    node
}

#[test]
fn echo_reply_addressing() {
    let mut node = Node::new();
    let request = msg("c1", "n1", Body::Echo { msg_id: 5, echo: "hi".to_string() });
    let reply = request.handle(&mut node, PID).expect("echo draws a reply");
    assert_eq!(
        reply,
        msg("n1", "c1", Body::EchoOk { msg_id: 1, echo: "hi".to_string(), in_reply_to: 5 })
    );
}

#[test]
fn init_sets_identity_and_acks() {
    let mut node = Node::new();
    let request = msg(
        "c0",
        "n3",
        Body::Init {
            msg_id: 9,
            node_id: "n3".to_string(),
            node_ids: vec!["n1".to_string(), "n2".to_string(), "n3".to_string()],
        },
    );
    let reply = request.handle(&mut node, PID).expect("init draws a reply");
    assert_eq!(reply, msg("n3", "c0", Body::InitOk { msg_id: 1, in_reply_to: 9 }));
    assert_eq!(node.node_id, Some("n3".to_string()));
    assert_eq!(
        node.node_ids,
        Some(vec!["n1".to_string(), "n2".to_string(), "n3".to_string()])
    );
}

#[test]
fn init_first_call_wins() {
    let mut node = Node::new();
    let first = msg(
        "c0",
        "n1",
        Body::Init { msg_id: 1, node_id: "n1".to_string(), node_ids: vec!["n1".to_string()] },
    );
    let _ = first.handle(&mut node, PID);
    let second = msg(
        "c0",
        "n1",
        Body::Init { msg_id: 2, node_id: "n9".to_string(), node_ids: vec!["n9".to_string()] },
    );
    let reply = second.handle(&mut node, PID).expect("a repeated init is still acknowledged");
    assert!(matches!(reply.body, Body::InitOk { in_reply_to: 2, .. }));
    assert_eq!(node.node_id, Some("n1".to_string()));
    assert_eq!(node.node_ids, Some(vec!["n1".to_string()]));
}

#[test]
fn broadcast_then_read_round_trip() {
    let mut node = ready_node("n1", "n2");
    let counter = node.msg_counter;
    let b1 = msg("c1", "n1", Body::Broadcast { msg_id: 10, message: 7 });
    let ack = b1.handle(&mut node, PID).expect("broadcast draws a reply");
    assert_eq!(
        ack,
        msg("n1", "c1", Body::BroadcastOk { msg_id: counter + 1, in_reply_to: 10 })
    );
    let b2 = msg("c1", "n1", Body::Broadcast { msg_id: 11, message: 3 });
    let _ = b2.handle(&mut node, PID);
    let read = msg("c1", "n1", Body::Read { msg_id: 12 });
    let reply = read.handle(&mut node, PID).expect("read draws a reply");
    match reply.body {
        Body::ReadOk { in_reply_to, messages, .. } => {
            assert_eq!(in_reply_to, 12);
            assert_eq!(messages, vec![3, 7]);
        }
        other => panic!("expected a read acknowledgment, got {:?}", other),
    }
}

#[test]
fn generate_same_id_twice() {
    let mut node = ready_node("n1", "n2");
    let g1 = msg("c1", "n1", Body::Generate { msg_id: 20 });
    let g2 = msg("c1", "n1", Body::Generate { msg_id: 21 });
    let r1 = g1.handle(&mut node, PID).expect("generate draws a reply");
    let r2 = g2.handle(&mut node, PID).expect("generate draws a reply");
    let id1 = match r1.body {
        Body::GenerateOk { id, .. } => id,
        other => panic!("expected a generate acknowledgment, got {:?}", other),
    };
    let id2 = match r2.body {
        Body::GenerateOk { id, .. } => id,
        other => panic!("expected a generate acknowledgment, got {:?}", other),
    };
    assert_eq!(id1, "n142");
    assert_eq!(id1, id2);
}

#[test]
fn topology_is_acknowledged() {
    let mut node = Node::new();
    let init = msg(
        "c0",
        "n1",
        Body::Init { msg_id: 1, node_id: "n1".to_string(), node_ids: vec!["n1".to_string()] },
    );
    let _ = init.handle(&mut node, PID);
    let request = msg(
        "c0",
        "n1",
        Body::Topology { msg_id: 2, topology: topo(&[("n1", &["n2"]), ("n2", &["n1"])]) },
    );
    let reply = request.handle(&mut node, PID).expect("topology draws a reply");
    assert!(matches!(reply.body, Body::TopologyOk { in_reply_to: 2, .. }));
    assert!(node.has_belief(&"n2".to_string()));
}

#[test]
fn gossip_merges_and_acks() {
    let mut node = ready_node("n1", "n2");
    node.save_all(vec![4, 5]);
    let gossip = msg("n2", "n1", Body::Gossip { msg_id: 30, news: vec![1, 2, 3] });
    let reply = gossip.handle(&mut node, PID).expect("gossip draws a reply");
    assert_eq!(node.load(), vec![1, 2, 3, 4, 5]);
    match reply.body {
        Body::GossipOk { in_reply_to, news, .. } => {
            assert_eq!(in_reply_to, 30);
            // everything n2 just proved it knows is already on this node
            assert_eq!(news, Vec::<usize>::new());
        }
        other => panic!("expected a gossip acknowledgment, got {:?}", other),
    }
    assert_eq!(node.get_remote_known("n2".to_string()), vec![1, 2, 3]);
}

#[test]
fn regossip_same_news_changes_nothing() {
    let mut node = ready_node("n1", "n2");
    let gossip = msg("n2", "n1", Body::Gossip { msg_id: 30, news: vec![1, 2, 3] });
    let _ = gossip.handle(&mut node, PID);
    let after_first = node.load();
    let again = msg("n2", "n1", Body::Gossip { msg_id: 31, news: vec![1, 2, 3] });
    let _ = again.handle(&mut node, PID);
    assert_eq!(node.load(), after_first);
    assert_eq!(after_first, vec![1, 2, 3]);
    assert_eq!(node.get_remote_known("n2".to_string()), vec![1, 2, 3]);
}

#[test]
fn gossip_ok_without_news_is_terminal() {
    let mut node = ready_node("n1", "n2");
    let counter = node.msg_counter;
    let ack = msg("n2", "n1", Body::GossipOk { msg_id: 40, news: vec![], in_reply_to: 7 });
    assert!(ack.handle(&mut node, PID).is_none());
    assert_eq!(node.msg_counter, counter);
    assert_eq!(node.load(), Vec::<usize>::new());
}

#[test]
fn gossip_ok_with_news_reenters_gossip() {
    let mut node = ready_node("n1", "n2");
    let ack = msg("n2", "n1", Body::GossipOk { msg_id: 41, news: vec![9], in_reply_to: 7 });
    let reply = ack.handle(&mut node, PID).expect("news-bearing acknowledgment draws a reply");
    assert_eq!(node.load(), vec![9]);
    assert!(matches!(reply.body, Body::GossipOk { in_reply_to: 41, .. }));
}

#[test]
fn plain_acks_are_terminal() {
    let mut node = ready_node("n1", "n2");
    let counter = node.msg_counter;
    let bodies = vec![
        Body::InitOk { msg_id: 1, in_reply_to: 1 },
        Body::EchoOk { msg_id: 2, echo: "hi".to_string(), in_reply_to: 1 },
        Body::GenerateOk { msg_id: 3, id: "x".to_string(), in_reply_to: 1 },
        Body::BroadcastOk { msg_id: 4, in_reply_to: 1 },
        Body::ReadOk { msg_id: 5, in_reply_to: 1, messages: vec![1] },
        Body::TopologyOk { msg_id: 6, in_reply_to: 1 },
    ];
    for body in bodies {
        assert!(msg("n2", "n1", body).handle(&mut node, PID).is_none());
    }
    assert_eq!(node.msg_counter, counter);
    assert_eq!(node.load(), Vec::<usize>::new());
}

#[test]
fn two_nodes_converge() {
    let mut a = ready_node("n1", "n2");
    let mut b = ready_node("n2", "n1");
    a.save_all(vec![1, 2, 3]);
    b.save_all(vec![4, 5]);

    let mut last_round_replies: Vec<Message> = Vec::new();
    for _ in 0..4 {
        let mut pending: Vec<Message> = Vec::new();
        pending.extend(a.talk().expect("initialized nodes gossip"));
        pending.extend(b.talk().expect("initialized nodes gossip"));
        last_round_replies.clear();
        while let Some(m) = pending.pop() {
            let reply = if m.dest == "n1" {
                m.handle(&mut a, PID)
            } else {
                m.handle(&mut b, PID)
            };
            if let Some(r) = reply {
                last_round_replies.push(r.clone());
                pending.push(r);
            }
        }
    }

    let expected = vec![1, 2, 3, 4, 5];
    assert_eq!(a.load(), expected);
    assert_eq!(b.load(), expected);
    // every exchange has reached its terminal state: each response carries
    // an empty residual delta
    assert!(!last_round_replies.is_empty());
    for r in last_round_replies {
        match r.body {
            Body::GossipOk { news, .. } => assert_eq!(news, Vec::<usize>::new()),
            other => panic!("expected a gossip acknowledgment, got {:?}", other),
        }
    }
}
