//! The closed set of wire messages and the per-type handler that mutates a
//! node and produces at most one reply.

use vstd::prelude::*;
use crate::helper::{
    clone_strings, clone_values, compare_knowledge, delta, merge_new, sorted_strict,
};
use crate::node::{
    belief_of, clone_topology, guid_after, has_peer, lemma_filter_subset,
    missing_keys, topo_keys, topo_keys_unique, Node, TopoEntry,
};

verus! {

broadcast use vstd::seq_lib::group_filter_ensures;

/// One framed protocol message.
#[derive(Debug, Clone, PartialEq, Eq)]
pub struct Message {
    pub src: String,
    pub dest: String,
    pub body: Body,
}

/// The tagged request/response bodies. Requests always draw a reply; the
/// acknowledgment variants are terminal, except a `GossipOk` that still
/// carries news.
#[derive(Debug, Clone, PartialEq, Eq)]
pub enum Body {
    Init { msg_id: usize, node_id: String, node_ids: Vec<String> },
    InitOk { msg_id: usize, in_reply_to: usize },
    Echo { msg_id: usize, echo: String },
    EchoOk { msg_id: usize, echo: String, in_reply_to: usize },
    Generate { msg_id: usize },
    GenerateOk { msg_id: usize, id: String, in_reply_to: usize },
    Broadcast { msg_id: usize, message: usize },
    BroadcastOk { msg_id: usize, in_reply_to: usize },
    Read { msg_id: usize },
    ReadOk { msg_id: usize, in_reply_to: usize, messages: Vec<usize> },
    Topology { msg_id: usize, topology: Vec<TopoEntry> },
    TopologyOk { msg_id: usize, in_reply_to: usize },
    Gossip { msg_id: usize, news: Vec<usize> },
    GossipOk { msg_id: usize, news: Vec<usize>, in_reply_to: usize },
}

/// Everything but the message counter is unchanged, and the counter moved
/// up by one: the shape of a handler that only mints a reply id.
pub open spec fn stamped_only(pre: Node, post: Node) -> bool {
    &&& post.msg_counter == pre.msg_counter + 1
    &&& post.guid == pre.guid
    &&& post.node_id == pre.node_id
    &&& post.node_ids == pre.node_ids
    &&& post.known == pre.known
    &&& post.topology == pre.topology
    &&& post.remote_known == pre.remote_known
}

/// What a handled message may assume of the node: room for one more
/// message id, and the per-variant protocol preconditions — gossip only
/// from peers the topology has declared, identifiers only after the
/// initialization handshake.
pub open spec fn handle_pre(req: Message, pre: Node) -> bool {
    &&& pre.wf()
    &&& pre.msg_counter < usize::MAX
    &&& match req.body {
        Body::Generate { .. } => pre.guid is Some || pre.node_id is Some,
        Body::Topology { topology, .. } => pre.node_id is Some
            && topo_keys_unique(topology@),
        Body::Gossip { .. } => has_peer(pre.remote_known@, req.src@),
        Body::GossipOk { news, .. } => news@.len() > 0
            ==> has_peer(pre.remote_known@, req.src@),
        _ => true,
    }
}

/// The anti-entropy reconciliation step shared by `Gossip` requests and
/// news-bearing `GossipOk` responses: the receiver learns every value of
/// `news`, the sender's belief entry absorbs `news` (never shrinking), and
/// the reply carries the residual delta — the sender's updated belief
/// entry minus the receiver's new knowledge. An exchange is settled once
/// that residual comes back empty.
pub open spec fn gossip_post(
    req: Message,
    pre: Node,
    post: Node,
    r: Option<Message>,
    in_rep: int,
    news: Seq<usize>,
) -> bool {
    &&& post.known@.to_set() == pre.known@.to_set().union(news.to_set())
    &&& sorted_strict(post.known@)
    &&& post.known@.len() >= pre.known@.len()
    &&& post.remote_known@.len() == pre.remote_known@.len()
    &&& forall|i: int|
        0 <= i < pre.remote_known@.len()
            && (#[trigger] pre.remote_known@[i]).peer@ != req.src@
            ==> post.remote_known@[i] == pre.remote_known@[i]
    &&& forall|i: int|
        0 <= i < pre.remote_known@.len()
            && (#[trigger] pre.remote_known@[i]).peer@ == req.src@
            ==> post.remote_known@[i].peer == pre.remote_known@[i].peer
                && post.remote_known@[i].values@
                    == merge_new(pre.remote_known@[i].values@, news)
                && pre.remote_known@[i].values@.is_prefix_of(post.remote_known@[i].values@)
                && post.remote_known@[i].values@.to_set()
                    == pre.remote_known@[i].values@.to_set().union(news.to_set())
    &&& post.msg_counter == pre.msg_counter + 1
    &&& post.guid == pre.guid
    &&& post.node_id == pre.node_id
    &&& post.node_ids == pre.node_ids
    &&& post.topology == pre.topology
    &&& (r matches Some(m) && m.src@ == req.dest@ && m.dest@ == req.src@
        && (m.body matches Body::GossipOk { msg_id, news: out, in_reply_to }
            && msg_id == pre.msg_counter + 1
            && in_reply_to == in_rep
            && out@ == delta(belief_of(post.remote_known@, req.src@), post.known@)))
}

/// The full dispatch contract, one case per message kind.
pub open spec fn handle_post(
    req: Message,
    pre: Node,
    post: Node,
    r: Option<Message>,
    pid: Seq<char>,
) -> bool {
    match req.body {
        Body::Init { msg_id, node_id, node_ids } => {
            &&& pre.node_id is Some ==> post.node_id == pre.node_id
                && post.node_ids == pre.node_ids
            &&& pre.node_id is None ==> post.node_id.deep_view() == Some(node_id@)
                && post.node_ids.deep_view() == Some(node_ids.deep_view())
            &&& post.msg_counter == pre.msg_counter + 1
            &&& post.guid == pre.guid
            &&& post.known == pre.known
            &&& post.topology == pre.topology
            &&& post.remote_known == pre.remote_known
            &&& (r matches Some(m) && m.src@ == req.dest@ && m.dest@ == req.src@
                && (m.body matches Body::InitOk { msg_id: mid, in_reply_to }
                    && mid == pre.msg_counter + 1 && in_reply_to == msg_id))
        },
        Body::Echo { msg_id, echo } => {
            &&& stamped_only(pre, post)
            &&& (r matches Some(m) && m.src@ == req.dest@ && m.dest@ == req.src@
                && (m.body matches Body::EchoOk { msg_id: mid, echo: e, in_reply_to }
                    && mid == pre.msg_counter + 1 && e@ == echo@ && in_reply_to == msg_id))
        },
        Body::Generate { msg_id } => {
            &&& post.guid.deep_view()
                == guid_after(pre.guid.deep_view(), pre.node_id.deep_view(), pid)
            &&& post.msg_counter == pre.msg_counter + 1
            &&& post.node_id == pre.node_id
            &&& post.node_ids == pre.node_ids
            &&& post.known == pre.known
            &&& post.topology == pre.topology
            &&& post.remote_known == pre.remote_known
            &&& (r matches Some(m) && m.src@ == req.dest@ && m.dest@ == req.src@
                && (m.body matches Body::GenerateOk { msg_id: mid, id, in_reply_to }
                    && mid == pre.msg_counter + 1
                    && Some(id@) == post.guid.deep_view()
                    && in_reply_to == msg_id))
        },
        Body::Broadcast { msg_id, message } => {
            &&& post.known@.to_set() == pre.known@.to_set().insert(message)
            &&& sorted_strict(post.known@)
            &&& post.msg_counter == pre.msg_counter + 1
            &&& post.guid == pre.guid
            &&& post.node_id == pre.node_id
            &&& post.node_ids == pre.node_ids
            &&& post.topology == pre.topology
            &&& post.remote_known == pre.remote_known
            &&& (r matches Some(m) && m.src@ == req.dest@ && m.dest@ == req.src@
                && (m.body matches Body::BroadcastOk { msg_id: mid, in_reply_to }
                    && mid == pre.msg_counter + 1 && in_reply_to == msg_id))
        },
        Body::Read { msg_id } => {
            &&& stamped_only(pre, post)
            &&& (r matches Some(m) && m.src@ == req.dest@ && m.dest@ == req.src@
                && (m.body matches Body::ReadOk { msg_id: mid, in_reply_to, messages }
                    && mid == pre.msg_counter + 1
                    && in_reply_to == msg_id
                    && messages@ == pre.known@))
        },
        Body::Topology { msg_id, topology } => {
            &&& post.topology@.len() == topology@.len()
            &&& forall|i: int|
                0 <= i < topology@.len()
                    ==> (#[trigger] post.topology@[i]).node@ == topology@[i].node@
                        && post.topology@[i].neighbors.deep_view()
                            == topology@[i].neighbors.deep_view()
            &&& post.remote_known@.len() == pre.remote_known@.len()
                + missing_keys(pre.remote_known@, topology@, pre.node_id.unwrap()@).len()
            &&& forall|i: int|
                0 <= i < pre.remote_known@.len()
                    ==> post.remote_known@[i] == pre.remote_known@[i]
            &&& forall|i: int|
                pre.remote_known@.len() <= i < post.remote_known@.len()
                    ==> (#[trigger] post.remote_known@[i]).peer@
                        == missing_keys(
                            pre.remote_known@,
                            topology@,
                            pre.node_id.unwrap()@,
                        )[i - pre.remote_known@.len()]
                        && post.remote_known@[i].values@.len() == 0
            &&& post.msg_counter == pre.msg_counter + 1
            &&& post.guid == pre.guid
            &&& post.node_id == pre.node_id
            &&& post.node_ids == pre.node_ids
            &&& post.known == pre.known
            &&& (r matches Some(m) && m.src@ == req.dest@ && m.dest@ == req.src@
                && (m.body matches Body::TopologyOk { msg_id: mid, in_reply_to }
                    && mid == pre.msg_counter + 1 && in_reply_to == msg_id))
        },
        Body::Gossip { msg_id, news } => gossip_post(req, pre, post, r, msg_id as int, news@),
        Body::GossipOk { msg_id, news, .. } => {
            if news@.len() == 0 {
                r is None && post == pre
            } else {
                gossip_post(req, pre, post, r, msg_id as int, news@)
            }
        },
        _ => r is None && post == pre,
    }
}

impl Message {
    /// Dispatch one inbound message against the node: requests mutate the
    /// node as their kind demands and draw a reply addressed back to the
    /// sender; terminal acknowledgments do nothing — except a `GossipOk`
    /// still carrying news, which re-enters the gossip reconciliation.
    pub fn handle(&self, node: &mut Node, pid: &str) -> (r: Option<Message>)
        requires
            handle_pre(*self, *old(node)),
        ensures
            final(node).wf(),
            handle_post(*self, *old(node), *final(node), r, pid@),
    {
        match &self.body {
            Body::Init { msg_id, node_id, node_ids } => Some(self.init_handle(
                node,
                node_id.clone(),
                clone_strings(node_ids),
                *msg_id,
            )),
            Body::InitOk { .. } => None,
            Body::Echo { msg_id, echo } => Some(self.echo_handle(
                node.next_mid(),
                echo.clone(),
                *msg_id,
            )),
            Body::EchoOk { .. } => None,
            Body::Generate { msg_id } => Some(self.generate_handle(node, pid, *msg_id)),
            Body::GenerateOk { .. } => None,
            Body::Broadcast { msg_id, message } => Some(self.broadcast_handle(
                node,
                *msg_id,
                *message,
            )),
            Body::BroadcastOk { .. } => None,
            Body::Read { msg_id } => Some(self.read_handle(node, *msg_id)),
            Body::ReadOk { .. } => None,
            Body::Topology { msg_id, topology } => Some(self.topology_handle(
                node,
                *msg_id,
                topology,
            )),
            Body::TopologyOk { .. } => None,
            Body::Gossip { msg_id, news } => Some(self.gossip_handle(
                node,
                *msg_id,
                clone_values(news),
            )),
            Body::GossipOk { msg_id, news, .. } => self.gossip_ok_handle(
                node,
                *msg_id,
                clone_values(news),
            ),
        }
    }

    /// A reply travels the request's path backwards.
    fn reply(&self, body: Body) -> (m: Message)
        ensures
            m.src@ == self.dest@,
            m.dest@ == self.src@,
            m.body == body,
    {
        Message { src: self.dest.clone(), dest: self.src.clone(), body }
    }

    fn init_handle(
        &self,
        node: &mut Node,
        node_id: String,
        node_ids: Vec<String>,
        in_reply_to: usize,
    ) -> (m: Message)
        requires
            old(node).wf(),
            old(node).msg_counter < usize::MAX,
        ensures
            final(node).wf(),
            old(node).node_id is Some ==> final(node).node_id == old(node).node_id
                && final(node).node_ids == old(node).node_ids,
            old(node).node_id is None
                ==> final(node).node_id == Some(node_id)
                    && final(node).node_ids == Some(node_ids),
            final(node).msg_counter == old(node).msg_counter + 1,
            final(node).guid == old(node).guid,
            final(node).known == old(node).known,
            final(node).topology == old(node).topology,
            final(node).remote_known == old(node).remote_known,
            m.src@ == self.dest@,
            m.dest@ == self.src@,
            m.body matches Body::InitOk { msg_id, in_reply_to: irt }
                && msg_id == old(node).msg_counter + 1 && irt == in_reply_to,
    {
        if node.node_id.is_none() {
            node.node_id = Some(node_id);
            node.node_ids = Some(node_ids);
        }
        let mid = node.next_mid();
        self.reply(Body::InitOk { msg_id: mid, in_reply_to })
    }

    fn echo_handle(&self, msg_id: usize, echo: String, in_reply_to: usize) -> (m: Message)
        ensures
            m.src@ == self.dest@,
            m.dest@ == self.src@,
            m.body matches Body::EchoOk { msg_id: mid, echo: e, in_reply_to: irt }
                && mid == msg_id && e == echo && irt == in_reply_to,
    {
        self.reply(Body::EchoOk { msg_id, in_reply_to, echo })
    }

    fn generate_handle(&self, node: &mut Node, pid: &str, in_reply_to: usize) -> (m: Message)
        requires
            old(node).wf(),
            old(node).msg_counter < usize::MAX,
            old(node).guid is Some || old(node).node_id is Some,
        ensures
            final(node).wf(),
            final(node).guid.deep_view() == guid_after(
                old(node).guid.deep_view(),
                old(node).node_id.deep_view(),
                pid@,
            ),
            final(node).msg_counter == old(node).msg_counter + 1,
            final(node).node_id == old(node).node_id,
            final(node).node_ids == old(node).node_ids,
            final(node).known == old(node).known,
            final(node).topology == old(node).topology,
            final(node).remote_known == old(node).remote_known,
            m.src@ == self.dest@,
            m.dest@ == self.src@,
            m.body matches Body::GenerateOk { msg_id, id, in_reply_to: irt }
                && msg_id == old(node).msg_counter + 1
                && Some(id@) == final(node).guid.deep_view()
                && irt == in_reply_to,
    {
        let mid = node.next_mid();
        let id = match node.get_guid(pid) {
            Some(g) => g,
            None => {
                proof {
                    assert(false);
                }
                vstd::pervasive::unreached()
            },
        };
        self.reply(Body::GenerateOk { msg_id: mid, in_reply_to, id })
    }

    fn broadcast_handle(&self, node: &mut Node, in_reply_to: usize, message: usize) -> (m: Message)
        requires
            old(node).wf(),
            old(node).msg_counter < usize::MAX,
        ensures
            final(node).wf(),
            final(node).known@.to_set() == old(node).known@.to_set().insert(message),
            final(node).msg_counter == old(node).msg_counter + 1,
            final(node).guid == old(node).guid,
            final(node).node_id == old(node).node_id,
            final(node).node_ids == old(node).node_ids,
            final(node).topology == old(node).topology,
            final(node).remote_known == old(node).remote_known,
            m.src@ == self.dest@,
            m.dest@ == self.src@,
            m.body matches Body::BroadcastOk { msg_id, in_reply_to: irt }
                && msg_id == old(node).msg_counter + 1 && irt == in_reply_to,
    {
        node.save(message);
        let mid = node.next_mid();
        self.reply(Body::BroadcastOk { msg_id: mid, in_reply_to })
    }

    fn read_handle(&self, node: &mut Node, in_reply_to: usize) -> (m: Message)
        requires
            old(node).wf(),
            old(node).msg_counter < usize::MAX,
        ensures
            final(node).wf(),
            stamped_only(*old(node), *final(node)),
            m.src@ == self.dest@,
            m.dest@ == self.src@,
            m.body matches Body::ReadOk { msg_id, in_reply_to: irt, messages }
                && msg_id == old(node).msg_counter + 1
                && irt == in_reply_to
                && messages@ == old(node).known@,
    {
        let messages = node.load();
        let mid = node.next_mid();
        self.reply(Body::ReadOk { msg_id: mid, in_reply_to, messages })
    }

    fn topology_handle(
        &self,
        node: &mut Node,
        in_reply_to: usize,
        topology: &Vec<TopoEntry>,
    ) -> (m: Message)
        requires
            old(node).wf(),
            old(node).msg_counter < usize::MAX,
            old(node).node_id is Some,
            topo_keys_unique(topology@),
        ensures
            final(node).wf(),
            final(node).topology@.len() == topology@.len(),
            forall|i: int|
                0 <= i < topology@.len()
                    ==> (#[trigger] final(node).topology@[i]).node@ == topology@[i].node@
                        && final(node).topology@[i].neighbors.deep_view()
                            == topology@[i].neighbors.deep_view(),
            final(node).remote_known@.len() == old(node).remote_known@.len()
                + missing_keys(
                    old(node).remote_known@,
                    topology@,
                    old(node).node_id.unwrap()@,
                ).len(),
            forall|i: int|
                0 <= i < old(node).remote_known@.len()
                    ==> final(node).remote_known@[i] == old(node).remote_known@[i],
            forall|i: int|
                old(node).remote_known@.len() <= i < final(node).remote_known@.len()
                    ==> (#[trigger] final(node).remote_known@[i]).peer@
                        == missing_keys(
                            old(node).remote_known@,
                            topology@,
                            old(node).node_id.unwrap()@,
                        )[i - old(node).remote_known@.len()]
                        && final(node).remote_known@[i].values@.len() == 0,
            final(node).msg_counter == old(node).msg_counter + 1,
            final(node).guid == old(node).guid,
            final(node).node_id == old(node).node_id,
            final(node).node_ids == old(node).node_ids,
            final(node).known == old(node).known,
            m.src@ == self.dest@,
            m.dest@ == self.src@,
            m.body matches Body::TopologyOk { msg_id, in_reply_to: irt }
                && msg_id == old(node).msg_counter + 1 && irt == in_reply_to,
    {
        let copy = clone_topology(topology);
        proof {
            assert(topo_keys(copy@) =~= topo_keys(topology@));
            assert(topo_keys_unique(copy@));
            assert(missing_keys(node.remote_known@, copy@, node.node_id.unwrap()@)
                == missing_keys(node.remote_known@, topology@, node.node_id.unwrap()@));
        }
        node.update_topo(copy);
        let mid = node.next_mid();
        self.reply(Body::TopologyOk { msg_id: mid, in_reply_to })
    }

    fn gossip_handle(&self, node: &mut Node, in_reply_to: usize, news_recv: Vec<usize>) -> (m: Message)
        requires
            old(node).wf(),
            old(node).msg_counter < usize::MAX,
            has_peer(old(node).remote_known@, self.src@),
        ensures
            final(node).wf(),
            gossip_post(
                *self,
                *old(node),
                *final(node),
                Some(m),
                in_reply_to as int,
                news_recv@,
            ),
    {
        let ghost news = news_recv@;
        let local_known0 = node.load();
        let local_unknown = compare_knowledge(&news_recv, &local_known0);
        node.save_all(local_unknown);
        proof {
            assert(node.known@.to_set()
                =~= old(node).known@.to_set().union(news.to_set())) by {
                let kn0 = old(node).known@;
                assert forall|x: usize| news.to_set().contains(x) implies
                    kn0.to_set().union(delta(news, kn0).to_set()).contains(x)
                by {
                    if !kn0.contains(x) {
                        let w = choose|w: int| 0 <= w < news.len() && news[w] == x;
                        assert(delta(news, kn0).contains(news[w]));
                    }
                }
                assert forall|x: usize| delta(news, kn0).to_set().contains(x) implies
                    news.to_set().contains(x)
                by {
                    let w = choose|w: int|
                        0 <= w < delta(news, kn0).len() && delta(news, kn0)[w] == x;
                    lemma_filter_subset(news, |v: usize| !kn0.contains(v), w);
                }
            }
        }
        node.update_remote_known(self.src.clone(), news_recv);
        proof {
            assert(has_peer(node.remote_known@, self.src@)) by {
                let w = choose|w: int|
                    0 <= w < old(node).remote_known@.len()
                        && old(node).remote_known@[w].peer@ == self.src@;
                assert(node.remote_known@[w].peer@ == self.src@);
            }
        }
        let remote_known = node.get_remote_known(self.src.clone());
        let local_known = node.load();
        let to_send = compare_knowledge(&remote_known, &local_known);
        let mid = node.next_mid();
        self.reply(Body::GossipOk { msg_id: mid, in_reply_to, news: to_send })
    }

    fn gossip_ok_handle(
        &self,
        node: &mut Node,
        in_reply_to: usize,
        news_recv: Vec<usize>,
    ) -> (r: Option<Message>)
        requires
            old(node).wf(),
            old(node).msg_counter < usize::MAX,
            news_recv@.len() > 0 ==> has_peer(old(node).remote_known@, self.src@),
        ensures
            final(node).wf(),
            news_recv@.len() == 0 ==> r is None && *final(node) == *old(node),
            news_recv@.len() > 0 ==> gossip_post(
                *self,
                *old(node),
                *final(node),
                r,
                in_reply_to as int,
                news_recv@,
            ),
    {
        if news_recv.is_empty() {
            None
        } else {
            Some(self.gossip_handle(node, in_reply_to, news_recv))
        }
    }
}


} // verus!
