//! The node's state: accumulated knowledge, the declared topology, and the
//! per-peer belief table that drives the anti-entropy gossip rounds.

use vstd::prelude::*;
use vstd::string::StringExecFns;
use crate::helper::{compare_knowledge, delta, merge_new, sorted_strict, vec_contains};
use crate::protocol::{Body, Message};

verus! {

broadcast use
    vstd::seq_lib::group_filter_ensures,
    Seq::lemma_filter_push,
    Seq::lemma_push_to_set_commute;

/// One row of the topology table: a node and its declared neighbours.
#[derive(Debug, Clone, PartialEq, Eq)]
pub struct TopoEntry {
    pub node: String,
    pub neighbors: Vec<String>,
}

/// One row of the belief table: a peer and the values it is believed to know.
#[derive(Debug, Clone, PartialEq, Eq)]
pub struct BeliefEntry {
    pub peer: String,
    pub values: Vec<usize>,
}

/// A belief entry for `p` exists.
pub open spec fn has_peer(entries: Seq<BeliefEntry>, p: Seq<char>) -> bool {
    exists|i: int| 0 <= i < entries.len() && entries[i].peer@ == p
}

/// The index of `p`'s belief entry; meaningful only under `has_peer` and
/// unique keys.
pub open spec fn peer_index(entries: Seq<BeliefEntry>, p: Seq<char>) -> int {
    choose|i: int| 0 <= i < entries.len() && entries[i].peer@ == p
}

/// The values peer `p` is believed to know.
pub open spec fn belief_of(entries: Seq<BeliefEntry>, p: Seq<char>) -> Seq<usize> {
    entries[peer_index(entries, p)].values@
}

/// No two belief entries name the same peer.
pub open spec fn peers_unique(entries: Seq<BeliefEntry>) -> bool {
    forall|i: int, j: int|
        0 <= i < j < entries.len() ==> entries[i].peer@ != entries[j].peer@
}

/// The node identifiers a topology table names, in order.
pub open spec fn topo_keys(topo: Seq<TopoEntry>) -> Seq<Seq<char>> {
    topo.map_values(|e: TopoEntry| e.node@)
}

/// No two topology rows name the same node.
pub open spec fn topo_keys_unique(topo: Seq<TopoEntry>) -> bool {
    forall|i: int, j: int|
        0 <= i < j < topo.len() ==> topo[i].node@ != topo[j].node@
}

/// Whether applying a topology must seed a belief entry for key `k`: no
/// entry yet, and the key is not the node itself.
pub open spec fn seed_pred(entries: Seq<BeliefEntry>, me: Seq<char>) -> spec_fn(Seq<char>) -> bool {
    |k: Seq<char>| !has_peer(entries, k) && k != me
}

/// The topology keys for which applying `topo` must seed a fresh, empty
/// belief entry: those with no entry yet that are not the node itself.
pub open spec fn missing_keys(entries: Seq<BeliefEntry>, topo: Seq<TopoEntry>, me: Seq<char>)
    -> Seq<Seq<char>> {
    topo_keys(topo).filter(seed_pred(entries, me))
}

/// The session identifier after one derivation attempt: an already cached
/// identifier is kept; otherwise it is derived from the identity and the
/// process tag, or stays absent while the identity is unset.
pub open spec fn guid_after(
    guid: Option<Seq<char>>,
    id: Option<Seq<char>>,
    pid: Seq<char>,
) -> Option<Seq<char>> {
    match guid {
        Some(g) => Some(g),
        None => match id {
            Some(i) => Some(i + pid),
            None => None,
        },
    }
}

/// Every element of a filtered sequence comes from the original sequence.
pub proof fn lemma_filter_subset<A>(s: Seq<A>, pred: spec_fn(A) -> bool, i: int)
    requires
        0 <= i < s.filter(pred).len(),
    ensures
        s.contains(s.filter(pred)[i]),
    decreases s.len(),
{
    reveal(Seq::filter);
    if s.len() != 0 {
        let dropped = s.drop_last();
        if pred(s.last()) && i == s.filter(pred).len() - 1 {
            assert(s.filter(pred)[i] == s.last());
            assert(s[s.len() - 1] == s.last());
        } else {
            lemma_filter_subset(dropped, pred, i);
            let w = choose|w: int| 0 <= w < dropped.len() && dropped[w] == dropped.filter(pred)[i];
            assert(s[w] == dropped.filter(pred)[i]);
        }
    }
}

/// Applying a topology a second time seeds nothing: every belief entry the
/// topology could add is already present afterwards, so reapplying it
/// leaves the belief table exactly as it was.
pub proof fn lemma_topology_reapply_adds_nothing(
    pre: Seq<BeliefEntry>,
    topo: Seq<TopoEntry>,
    me: Seq<char>,
    post: Seq<BeliefEntry>,
)
    requires
        post.len() == pre.len() + missing_keys(pre, topo, me).len(),
        forall|i: int| 0 <= i < pre.len() ==> post[i] == pre[i],
        forall|i: int|
            pre.len() <= i < post.len()
                ==> (#[trigger] post[i]).peer@ == missing_keys(pre, topo, me)[i - pre.len()],
    ensures
        missing_keys(post, topo, me).len() == 0,
{
    broadcast use vstd::seq_lib::group_filter_ensures;

    let m0 = missing_keys(pre, topo, me);
    let m1 = missing_keys(post, topo, me);
    let keys = topo_keys(topo);
    if m1.len() > 0 {
        let e = m1[0];
        assert(seed_pred(post, me)(e));
        lemma_filter_subset(keys, seed_pred(post, me), 0);
        let x = choose|x: int| 0 <= x < keys.len() && keys[x] == e;
        if has_peer(pre, e) {
            let w = choose|w: int| 0 <= w < pre.len() && pre[w].peer@ == e;
            assert(post[w].peer@ == e);
            assert(has_peer(post, e));
        } else {
            assert(seed_pred(pre, me)(keys[x]));
            assert(m0.contains(keys[x]));
            let t = choose|t: int| 0 <= t < m0.len() && m0[t] == e;
            assert(post[pre.len() + t].peer@ == e);
            assert(has_peer(post, e));
        }
    }
}

/// A session identifier, once derivable, is stable: deriving again, even
/// with a different process tag, yields the same identifier.
pub proof fn lemma_guid_stable(
    g: Option<Seq<char>>,
    id: Option<Seq<char>>,
    p1: Seq<char>,
    p2: Seq<char>,
)
    ensures
        guid_after(guid_after(g, id, p1), id, p2) == guid_after(g, id, p1),
{
}

/// The gossip round a node owes its peers: for each belief entry, in table
/// order, the delta of the node's knowledge over that peer's believed
/// values, kept only when non-empty, paired with the peer's name.
pub open spec fn round_news(known: Seq<usize>, entries: Seq<BeliefEntry>)
    -> Seq<(Seq<char>, Seq<usize>)>
    decreases entries.len(),
{
    if entries.len() == 0 {
        Seq::empty()
    } else {
        let rest = round_news(known, entries.drop_last());
        let d = delta(known, entries.last().values@);
        if d.len() == 0 {
            rest
        } else {
            rest.push((entries.last().peer@, d))
        }
    }
}

/// A fresh copy of a topology table, key and neighbour views preserved.
pub(crate) fn clone_topology(t: &Vec<TopoEntry>) -> (r: Vec<TopoEntry>)
    ensures
        r@.len() == t@.len(),
        forall|i: int|
            0 <= i < t@.len() ==> (#[trigger] r@[i]).node@ == t@[i].node@
                && r@[i].neighbors.deep_view() == t@[i].neighbors.deep_view(),
{
    let mut r: Vec<TopoEntry> = Vec::new();
    let mut i: usize = 0;
    while i < t.len()
        invariant
            i <= t@.len(),
            r@.len() == i,
            forall|j: int|
                0 <= j < i ==> (#[trigger] r@[j]).node@ == t@[j].node@
                    && r@[j].neighbors.deep_view() == t@[j].neighbors.deep_view(),
        decreases t@.len() - i,
    {
        r.push(TopoEntry {
            node: t[i].node.clone(),
            neighbors: crate::helper::clone_strings(&t[i].neighbors),
        });
        i = i + 1;
    }
    r
}

/// Locating a peer's entry pins down `peer_index` and `belief_of` when the
/// keys are unique.
pub proof fn lemma_peer_at(entries: Seq<BeliefEntry>, p: Seq<char>, i: int)
    requires
        peers_unique(entries),
        0 <= i < entries.len(),
        entries[i].peer@ == p,
    ensures
        has_peer(entries, p),
        peer_index(entries, p) == i,
        belief_of(entries, p) == entries[i].values@,
{
    assert(has_peer(entries, p));
    let j = peer_index(entries, p);
    assert(0 <= j < entries.len() && entries[j].peer@ == p);
    if i < j {
        assert(entries[i].peer@ != entries[j].peer@);
    } else if j < i {
        assert(entries[j].peer@ != entries[i].peer@);
    }
}

/// The index of `p`'s entry in the belief table, if any.
fn find_peer(entries: &Vec<BeliefEntry>, p: &String) -> (r: Option<usize>)
    ensures
        match r {
            Some(i) => i < entries@.len() && entries@[i as int].peer@ == p@,
            None => !has_peer(entries@, p@),
        },
{
    let mut i: usize = 0;
    while i < entries.len()
        invariant
            i <= entries@.len(),
            forall|j: int| 0 <= j < i ==> entries@[j].peer@ != p@,
        decreases entries@.len() - i,
    {
        if entries[i].peer == *p {
            return Some(i);
        }
        i = i + 1;
    }
    None
}

/// A single gossip participant.
#[derive(Debug, Clone, PartialEq, Eq)]
pub struct Node {
    pub msg_counter: usize,
    pub guid: Option<String>,
    pub node_id: Option<String>,
    pub node_ids: Option<Vec<String>>,
    pub known: Vec<usize>,
    pub topology: Vec<TopoEntry>,
    pub remote_known: Vec<BeliefEntry>,
}

impl Node {
    /// The node's internal invariant: knowledge strictly sorted (hence
    /// duplicate-free), belief keys unique, belief sets duplicate-free,
    /// and no topology or beliefs before the identity is set.
    pub open spec fn wf(self) -> bool {
        &&& sorted_strict(self.known@)
        &&& peers_unique(self.remote_known@)
        &&& forall|i: int|
            0 <= i < self.remote_known@.len()
                ==> (#[trigger] self.remote_known@[i]).values@.no_duplicates()
        &&& self.node_id is None
            ==> self.topology@.len() == 0 && self.remote_known@.len() == 0
    }

    pub fn new() -> (n: Node)
        ensures
            n.wf(),
            n.msg_counter == 0,
            n.guid is None,
            n.node_id is None,
            n.node_ids is None,
            n.known@.len() == 0,
            n.topology@.len() == 0,
            n.remote_known@.len() == 0,
    {
        Node {
            msg_counter: 0,
            guid: None,
            node_id: None,
            node_ids: None,
            known: Vec::new(),
            topology: Vec::new(),
            remote_known: Vec::new(),
        }
    }

    /// Mint a fresh message identifier: the counter strictly increases and
    /// the returned value is never reused.
    pub fn next_mid(&mut self) -> (r: usize)
        requires
            old(self).msg_counter < usize::MAX,
        ensures
            final(self).msg_counter == old(self).msg_counter + 1,
            r == final(self).msg_counter,
            final(self).guid == old(self).guid,
            final(self).node_id == old(self).node_id,
            final(self).node_ids == old(self).node_ids,
            final(self).known == old(self).known,
            final(self).topology == old(self).topology,
            final(self).remote_known == old(self).remote_known,
    {
        self.msg_counter = self.msg_counter + 1;
        self.msg_counter
    }

    /// The session identifier, derived once from the identity and the
    /// caller-supplied process tag, then cached; absent until the identity
    /// is set.
    pub fn get_guid(&mut self, pid: &str) -> (r: Option<String>)
        ensures
            final(self).guid.deep_view() == guid_after(
                old(self).guid.deep_view(),
                old(self).node_id.deep_view(),
                pid@,
            ),
            r.deep_view() == final(self).guid.deep_view(),
            final(self).msg_counter == old(self).msg_counter,
            final(self).node_id == old(self).node_id,
            final(self).node_ids == old(self).node_ids,
            final(self).known == old(self).known,
            final(self).topology == old(self).topology,
            final(self).remote_known == old(self).remote_known,
    {
        match &self.guid {
            Some(g) => {
                let out = g.clone();
                Some(out)
            },
            None => match &self.node_id {
                Some(id) => {
                    let g = id.clone().concat(pid);
                    let out = g.clone();
                    self.guid = Some(g);
                    Some(out)
                },
                None => None,
            },
        }
    }

    /// Record one value: the knowledge set gains `val` and stays strictly
    /// sorted; recording a value already known changes nothing.
    pub fn save(&mut self, val: usize)
        requires
            old(self).wf(),
        ensures
            final(self).wf(),
            final(self).known@.to_set() == old(self).known@.to_set().insert(val),
            old(self).known@.len() <= final(self).known@.len()
                <= old(self).known@.len() + 1,
            old(self).known@.contains(val) ==> final(self).known == old(self).known,
            final(self).msg_counter == old(self).msg_counter,
            final(self).guid == old(self).guid,
            final(self).node_id == old(self).node_id,
            final(self).node_ids == old(self).node_ids,
            final(self).topology == old(self).topology,
            final(self).remote_known == old(self).remote_known,
    {
        let mut idx: usize = 0;
        while idx < self.known.len() && self.known[idx] < val
            invariant
                idx <= self.known@.len(),
                forall|j: int| 0 <= j < idx ==> self.known@[j] < val,
            decreases self.known@.len() - idx,
        {
            idx = idx + 1;
        }
        if idx < self.known.len() && self.known[idx] == val {
            proof {
                assert(self.known@.contains(val));
                assert(self.known@.to_set() =~= self.known@.to_set().insert(val));
            }
            return;
        }
        let ghost pre = self.known@;
        self.known.insert(idx, val);
        proof {
            pre.insert_ensures(idx as int, val);
            let post = self.known@;
            assert(!pre.contains(val)) by {
                if pre.contains(val) {
                    let w = choose|w: int| 0 <= w < pre.len() && pre[w] == val;
                    if w < idx {
                        assert(pre[w] < val);
                    } else {
                        assert(idx < pre.len() && pre[idx as int] >= val);
                        assert(pre[idx as int] != val);
                        if w > idx {
                            assert(pre[idx as int] < pre[w]);
                        }
                    }
                }
            }
            assert(sorted_strict(post)) by {
                assert forall|i: int, j: int| 0 <= i < j < post.len() implies
                    post[i] < post[j]
                by {
                    if j < idx {
                        assert(post[i] == pre[i] && post[j] == pre[j]);
                    } else if i > idx {
                        assert(post[i] == pre[i - 1] && post[j] == pre[j - 1]);
                    } else if i < idx && j == idx {
                        assert(post[i] == pre[i] && pre[i] < val);
                    } else if i == idx {
                        assert(post[i] == val);
                        assert(post[j] == pre[j - 1] && j - 1 >= idx);
                        assert(idx < pre.len() && pre[idx as int] > val);
                        assert(pre[j - 1] >= pre[idx as int]);
                    } else {
                        assert(i < idx && j > idx);
                        assert(post[i] == pre[i] && pre[i] < val);
                        assert(post[j] == pre[j - 1] && j - 1 >= idx);
                        assert(idx < pre.len() ==> pre[j - 1] >= pre[idx as int]);
                        assert(idx < pre.len() && pre[idx as int] > val);
                    }
                }
            }
            assert(post.to_set() =~= pre.to_set().insert(val)) by {
                assert forall|x: usize| post.to_set().contains(x) implies
                    pre.to_set().contains(x) || x == val
                by {
                    let w = choose|w: int| 0 <= w < post.len() && post[w] == x;
                    if w < idx {
                        assert(pre[w] == x);
                    } else if w > idx {
                        assert(pre[w - 1] == x);
                    }
                }
                assert forall|x: usize| pre.to_set().contains(x) implies
                    post.to_set().contains(x)
                by {
                    let w = choose|w: int| 0 <= w < pre.len() && pre[w] == x;
                    if w < idx {
                        assert(post[w] == x);
                    } else {
                        assert(post[w + 1] == x);
                    }
                }
                assert(post.to_set().contains(val)) by {
                    assert(post[idx as int] == val);
                }
            }
        }
    }

    /// Record a batch of values: the knowledge set gains every value of
    /// `vals` and nothing else.
    pub fn save_all(&mut self, vals: Vec<usize>)
        requires
            old(self).wf(),
        ensures
            final(self).wf(),
            final(self).known@.to_set()
                == old(self).known@.to_set().union(vals@.to_set()),
            final(self).known@.len() >= old(self).known@.len(),
            final(self).msg_counter == old(self).msg_counter,
            final(self).guid == old(self).guid,
            final(self).node_id == old(self).node_id,
            final(self).node_ids == old(self).node_ids,
            final(self).topology == old(self).topology,
            final(self).remote_known == old(self).remote_known,
    {
        let ghost pre = *old(self);
        let mut i: usize = 0;
        while i < vals.len()
            invariant
                i <= vals@.len(),
                self.wf(),
                self.known@.to_set()
                    == pre.known@.to_set().union(vals@.subrange(0, i as int).to_set()),
                self.known@.len() >= pre.known@.len(),
                self.msg_counter == pre.msg_counter,
                self.guid == pre.guid,
                self.node_id == pre.node_id,
                self.node_ids == pre.node_ids,
                self.topology == pre.topology,
                self.remote_known == pre.remote_known,
            decreases vals@.len() - i,
        {
            self.save(vals[i]);
            proof {
                assert(vals@.subrange(0, i + 1)
                    =~= vals@.subrange(0, i as int).push(vals@[i as int]));
                assert(self.known@.to_set()
                    =~= pre.known@.to_set().union(vals@.subrange(0, i + 1).to_set()));
            }
            i = i + 1;
        }
        proof {
            assert(vals@.subrange(0, vals@.len() as int) =~= vals@);
        }
    }

    /// Replace the topology wholesale and, first, seed an empty belief
    /// entry for every incoming key that has none yet and is not this node
    /// itself. Existing belief entries are never reset.
    pub fn update_topo(&mut self, topology: Vec<TopoEntry>)
        requires
            old(self).wf(),
            old(self).node_id is Some,
            topo_keys_unique(topology@),
        ensures
            final(self).wf(),
            final(self).topology == topology,
            final(self).remote_known@.len() == old(self).remote_known@.len()
                + missing_keys(
                    old(self).remote_known@,
                    topology@,
                    old(self).node_id.unwrap()@,
                ).len(),
            forall|i: int|
                0 <= i < old(self).remote_known@.len()
                    ==> final(self).remote_known@[i] == old(self).remote_known@[i],
            forall|i: int|
                old(self).remote_known@.len() <= i < final(self).remote_known@.len()
                    ==> (#[trigger] final(self).remote_known@[i]).peer@
                        == missing_keys(
                            old(self).remote_known@,
                            topology@,
                            old(self).node_id.unwrap()@,
                        )[i - old(self).remote_known@.len()]
                        && final(self).remote_known@[i].values@.len() == 0,
            final(self).msg_counter == old(self).msg_counter,
            final(self).guid == old(self).guid,
            final(self).node_id == old(self).node_id,
            final(self).node_ids == old(self).node_ids,
            final(self).known == old(self).known,
    {
        let me = match &self.node_id {
            Some(s) => s.clone(),
            None => {
                proof {
                    assert(false);
                }
                vstd::pervasive::unreached()
            },
        };
        let ghost pre = self.remote_known@;
        let mut j: usize = 0;
        while j < topology.len()
            invariant
                j <= topology@.len(),
                topo_keys_unique(topology@),
                me@ == old(self).node_id.unwrap()@,
                self.wf(),
                self.node_id is Some,
                self.remote_known@.len() == pre.len()
                    + missing_keys(pre, topology@.subrange(0, j as int), me@).len(),
                forall|i: int| 0 <= i < pre.len() ==> self.remote_known@[i] == pre[i],
                forall|i: int|
                    pre.len() <= i < self.remote_known@.len()
                        ==> (#[trigger] self.remote_known@[i]).peer@
                            == missing_keys(pre, topology@.subrange(0, j as int), me@)[
                                i - pre.len()]
                            && self.remote_known@[i].values@.len() == 0,
                forall|i: int|
                    pre.len() <= i < self.remote_known@.len()
                        ==> exists|x: int|
                            0 <= x < j
                                && (#[trigger] self.remote_known@[i]).peer@
                                    == topology@[x].node@,
                self.msg_counter == old(self).msg_counter,
                self.guid == old(self).guid,
                self.node_id == old(self).node_id,
                self.node_ids == old(self).node_ids,
                self.known == old(self).known,
                self.topology == old(self).topology,
            decreases topology@.len() - j,
        {
            let k = topology[j].node.clone();
            let ghost kv = k@;
            let ghost cur = self.remote_known@;
            let ghost sub0 = topology@.subrange(0, j as int);
            let ghost sub1 = topology@.subrange(0, j + 1);
            let ghost m0 = missing_keys(pre, sub0, me@);
            proof {
                assert(kv == topology@[j as int].node@);
                assert(sub1.drop_last() =~= sub0);
                assert(sub1 =~= sub0.push(topology@[j as int]));
                assert(topo_keys(sub1) =~= topo_keys(sub0).push(topology@[j as int].node@));
                assert(!m0.contains(kv)) by {
                    if m0.contains(kv) {
                        let t = choose|t: int| 0 <= t < m0.len() && m0[t] == kv;
                        lemma_filter_subset(topo_keys(sub0), seed_pred(pre, me@), t);
                        let x = choose|x: int|
                            0 <= x < topo_keys(sub0).len() && topo_keys(sub0)[x] == kv;
                        assert(topology@[x].node@ == kv);
                        assert(topology@[x].node@ != topology@[j as int].node@);
                    }
                }
                assert(has_peer(cur, kv) == has_peer(pre, kv)) by {
                    if has_peer(cur, kv) {
                        let w = choose|w: int|
                            0 <= w < cur.len() && cur[w].peer@ == kv;
                        if w < pre.len() {
                            assert(pre[w].peer@ == kv);
                            assert(has_peer(pre, kv));
                        } else {
                            assert(m0[w - pre.len()] == kv);
                            assert(m0.contains(kv));
                        }
                    }
                    if has_peer(pre, kv) {
                        let w = choose|w: int|
                            0 <= w < pre.len() && pre[w].peer@ == kv;
                        assert(cur[w].peer@ == kv);
                        assert(has_peer(cur, kv));
                    }
                }
            }
            let fresh = !self.has_belief(&k) && k != me;
            if fresh {
                self.remote_known.push(BeliefEntry { peer: k, values: Vec::new() });
            }
            proof {
                assert(missing_keys(pre, sub1, me@) == (
                    if !has_peer(pre, kv) && kv != me@ {
                        m0.push(kv)
                    } else {
                        m0
                    }
                )) by {
                    assert(seed_pred(pre, me@)(kv) == (!has_peer(pre, kv) && kv != me@));
                    assert(topo_keys(sub1).filter(seed_pred(pre, me@))
                        == topo_keys(sub0).push(kv).filter(seed_pred(pre, me@)));
                }
                if fresh {
                    assert(self.remote_known@.len() == cur.len() + 1);
                    assert(self.remote_known@.last().peer@ == kv);
                    assert(self.remote_known@.last().values@.len() == 0);
                    assert(peers_unique(self.remote_known@)) by {
                        assert(forall|i: int|
                            0 <= i < cur.len()
                                ==> (#[trigger] cur[i]).peer@ != kv);
                    }
                    assert(forall|i: int|
                        pre.len() <= i < self.remote_known@.len() - 1
                            ==> (#[trigger] self.remote_known@[i]).peer@
                                == missing_keys(pre, sub1, me@)[i - pre.len()]
                                && self.remote_known@[i].values@.len() == 0);
                }
            }
            j = j + 1;
        }
        proof {
            assert(topology@.subrange(0, topology@.len() as int) =~= topology@);
        }
        self.topology = topology;
    }

    /// Whether a belief entry exists for `peer`; gossip may only be merged
    /// for peers the topology has declared.
    pub fn has_belief(&self, peer: &String) -> (b: bool)
        ensures
            b == has_peer(self.remote_known@, peer@),
    {
        match find_peer(&self.remote_known, peer) {
            Some(i) => {
                proof {
                    assert(self.remote_known@[i as int].peer@ == peer@);
                }
                true
            },
            None => false,
        }
    }

    /// Extend the belief entry of `remote` with every value of `knowledge`
    /// not already believed: the old belief stays as a prefix (beliefs are
    /// never retracted) and the entry's value set becomes the union.
    /// All other entries are untouched.
    pub fn update_remote_known(&mut self, remote: String, knowledge: Vec<usize>)
        requires
            old(self).wf(),
            has_peer(old(self).remote_known@, remote@),
        ensures
            final(self).wf(),
            final(self).remote_known@.len() == old(self).remote_known@.len(),
            forall|i: int|
                0 <= i < old(self).remote_known@.len()
                    && (#[trigger] old(self).remote_known@[i]).peer@ != remote@
                    ==> final(self).remote_known@[i] == old(self).remote_known@[i],
            forall|i: int|
                0 <= i < old(self).remote_known@.len()
                    && (#[trigger] old(self).remote_known@[i]).peer@ == remote@
                    ==> final(self).remote_known@[i].peer == old(self).remote_known@[i].peer
                        && final(self).remote_known@[i].values@
                            == merge_new(old(self).remote_known@[i].values@, knowledge@)
                        && old(self).remote_known@[i].values@.is_prefix_of(
                            final(self).remote_known@[i].values@)
                        && final(self).remote_known@[i].values@.to_set()
                            == old(self).remote_known@[i].values@.to_set()
                                .union(knowledge@.to_set()),
            final(self).msg_counter == old(self).msg_counter,
            final(self).guid == old(self).guid,
            final(self).node_id == old(self).node_id,
            final(self).node_ids == old(self).node_ids,
            final(self).known == old(self).known,
            final(self).topology == old(self).topology,
    {
        let idx = match find_peer(&self.remote_known, &remote) {
            Some(i) => i,
            None => {
                proof {
                    assert(false);
                }
                vstd::pervasive::unreached()
            },
        };
        let ghost pre = self.remote_known@;
        let entry = self.remote_known.remove(idx);
        let mut vals = entry.values;
        let mut k: usize = 0;
        while k < knowledge.len()
            invariant
                k <= knowledge@.len(),
                vals@ == merge_new(entry.values@, knowledge@.subrange(0, k as int)),
            decreases knowledge@.len() - k,
        {
            let x = knowledge[k];
            proof {
                crate::helper::lemma_merge_new_push(
                    entry.values@,
                    knowledge@.subrange(0, k as int),
                    x,
                );
                assert(knowledge@.subrange(0, k + 1)
                    =~= knowledge@.subrange(0, k as int).push(x));
            }
            if !vec_contains(&vals, x) {
                vals.push(x);
            }
            k = k + 1;
        }
        proof {
            assert(knowledge@.subrange(0, knowledge@.len() as int) =~= knowledge@);
        }
        self.remote_known.insert(idx, BeliefEntry { peer: entry.peer, values: vals });
        proof {
            let post = self.remote_known@;
            assert(post =~= pre.update(idx as int, post[idx as int]));
            crate::helper::lemma_merge_new_props(pre[idx as int].values@, knowledge@);
            assert forall|i: int|
                0 <= i < pre.len() && (#[trigger] pre[i]).peer@ == remote@
                implies i == idx
            by {
                lemma_peer_at(pre, remote@, i);
                lemma_peer_at(pre, remote@, idx as int);
            }
        }
    }

    /// A copy of the values `remote` is believed to know; the node itself
    /// is left unchanged.
    pub fn get_remote_known(&mut self, remote: String) -> (r: Vec<usize>)
        requires
            old(self).wf(),
            has_peer(old(self).remote_known@, remote@),
        ensures
            *final(self) == *old(self),
            r@ == belief_of(old(self).remote_known@, remote@),
    {
        let idx = match find_peer(&self.remote_known, &remote) {
            Some(i) => i,
            None => {
                proof {
                    assert(false);
                }
                vstd::pervasive::unreached()
            },
        };
        proof {
            lemma_peer_at(self.remote_known@, remote@, idx as int);
        }
        crate::helper::clone_values(&self.remote_known[idx].values)
    }

    /// One anti-entropy gossip round. An uninitialised node (no identity,
    /// no topology) owes nothing and returns no message list at all.
    /// Otherwise, for every belief entry in table order whose delta
    /// (knowledge minus believed values) is non-empty, one freshly stamped
    /// `Gossip` message carries that delta to the peer. Beliefs are left
    /// untouched: they only move when the peer answers.
    pub fn talk(&mut self) -> (r: Option<Vec<Message>>)
        requires
            old(self).wf(),
            old(self).msg_counter + old(self).remote_known@.len() <= usize::MAX,
        ensures
            final(self).wf(),
            old(self).node_id is None && old(self).topology@.len() == 0
                ==> r is None && *final(self) == *old(self),
            !(old(self).node_id is None && old(self).topology@.len() == 0)
                ==> (r matches Some(msgs)
                    && msgs@.len()
                        == round_news(old(self).known@, old(self).remote_known@).len()
                    && final(self).msg_counter == old(self).msg_counter + msgs@.len()
                    && (forall|i: int|
                        0 <= i < msgs@.len()
                            ==> (#[trigger] msgs@[i]).src@ == old(self).node_id.unwrap()@
                                && msgs@[i].dest@
                                    == round_news(
                                        old(self).known@,
                                        old(self).remote_known@,
                                    )[i].0
                                && (msgs@[i].body matches Body::Gossip { msg_id, news }
                                    && msg_id == old(self).msg_counter + i + 1
                                    && news@
                                        == round_news(
                                            old(self).known@,
                                            old(self).remote_known@,
                                        )[i].1))),
            final(self).guid == old(self).guid,
            final(self).node_id == old(self).node_id,
            final(self).node_ids == old(self).node_ids,
            final(self).known == old(self).known,
            final(self).topology == old(self).topology,
            final(self).remote_known == old(self).remote_known,
    {
        if self.topology.len() == 0 && self.node_id.is_none() {
            return None;
        }
        let me = match &self.node_id {
            Some(s) => s.clone(),
            None => {
                proof {
                    assert(false);
                }
                vstd::pervasive::unreached()
            },
        };
        let ghost start = self.msg_counter as int;
        let ghost rk = self.remote_known@;
        let ghost kn = self.known@;
        let mut msgs: Vec<Message> = Vec::new();
        let mut i: usize = 0;
        while i < self.remote_known.len()
            invariant
                i <= rk.len(),
                self.wf(),
                me@ == old(self).node_id.unwrap()@,
                rk == self.remote_known@,
                kn == self.known@,
                start == old(self).msg_counter,
                start + rk.len() <= usize::MAX,
                self.guid == old(self).guid,
                self.node_id == old(self).node_id,
                self.node_ids == old(self).node_ids,
                self.known == old(self).known,
                self.topology == old(self).topology,
                self.remote_known == old(self).remote_known,
                msgs@.len() == round_news(kn, rk.subrange(0, i as int)).len(),
                msgs@.len() <= i,
                self.msg_counter == start + msgs@.len(),
                forall|j: int|
                    0 <= j < msgs@.len()
                        ==> (#[trigger] msgs@[j]).src@ == me@
                            && msgs@[j].dest@ == round_news(kn, rk.subrange(0, i as int))[j].0
                            && (msgs@[j].body matches Body::Gossip { msg_id, news }
                                && msg_id == start + j + 1
                                && news@ == round_news(kn, rk.subrange(0, i as int))[j].1),
            decreases rk.len() - i,
        {
            let ghost sub0 = rk.subrange(0, i as int);
            let ghost sub1 = rk.subrange(0, i + 1);
            let to_send = compare_knowledge(&self.known, &self.remote_known[i].values);
            proof {
                assert(sub1.drop_last() =~= sub0);
                assert(sub1.last() == rk[i as int]);
                assert(round_news(kn, sub1) == (
                    if delta(kn, rk[i as int].values@).len() == 0 {
                        round_news(kn, sub0)
                    } else {
                        round_news(kn, sub0).push((rk[i as int].peer@, delta(kn, rk[i as int].values@)))
                    }
                ));
            }
            if to_send.len() > 0 {
                let dest = self.remote_known[i].peer.clone();
                let mid = self.next_mid();
                msgs.push(Message {
                    src: me.clone(),
                    dest,
                    body: Body::Gossip { msg_id: mid, news: to_send },
                });
            }
            i = i + 1;
        }
        proof {
            assert(rk.subrange(0, rk.len() as int) =~= rk);
        }
        Some(msgs)
    }

    /// A copy of everything this node knows, in ascending order.
    pub fn load(&self) -> (r: Vec<usize>)
        ensures
            r@ == self.known@,
    {
        let mut r: Vec<usize> = Vec::new();
        let mut i: usize = 0;
        while i < self.known.len()
            invariant
                i <= self.known@.len(),
                r@ == self.known@.subrange(0, i as int),
            decreases self.known@.len() - i,
        {
            r.push(self.known[i]);
            proof {
                assert(self.known@.subrange(0, i + 1)
                    =~= self.known@.subrange(0, i as int).push(self.known@[i as int]));
            }
            i = i + 1;
        }
        proof {
            assert(self.known@.subrange(0, self.known@.len() as int) =~= self.known@);
        }
        r
    }
}

} // verus!
