use std::collections::HashSet;
use crate::adj::{Adj, AdjView};
use crate::config::{awaits, initiates, joined, lemma_nodes_below_contains, nodes_below, Config};
use crate::message::{BodyView, LogicalClock, Message, MessageBody, MessageView};
use crate::search::{broadcast_targets, contains_node, SearchLayer};
use vstd::prelude::*;

verus! {

broadcast use vstd::std_specs::hash::group_hash_axioms;

/// What the session layer does when a connection with a node is made.
#[derive(Debug, Clone, Copy, PartialEq, Eq, Structural)]
pub enum SessionAction {
    /// The node is outside the network: take it in and tell the others.
    TakeIn(u32),
    /// The last connection this node waited for is made: the network is established.
    Established,
    /// Nothing to do.
    Nothing,
}

/// The connections the session layer still waits for before the node counts
/// the network as established.
pub struct SessionLayer {
    remaining_conns: HashSet<u32>,
}

impl View for SessionLayer {
    type V = Set<u32>;

    closed spec fn view(&self) -> Set<u32> {
        self.remaining_conns@
    }
}

/// The nodes this node connects with when the network starts: its target when
/// it is outside the network, else those it asks to connect and those it waits for.
pub open spec fn required_connections(config: Config) -> Set<u32> {
    if config.outside(config.id) {
        set![config.target_node->0]
    } else {
        Set::new(
            |j: u32| j < config.adj.n && (initiates(config.adj@, config.id, j) || awaits(config.adj@, config.id, j)),
        )
    }
}

/// Whether the session layer is to connect to `target` for a download: it has
/// no connection with it, and it comes first among `targets`.
pub open spec fn needs_stream(targets: Seq<u32>, connected: Set<u32>, k: int) -> bool {
    !connected.contains(targets[k]) && !targets.take(k).contains(targets[k])
}

/// The targets, in order, the session layer connects to for a download.
pub open spec fn streams_to_open(targets: Seq<u32>, connected: Set<u32>) -> Seq<u32>
    decreases targets.len(),
{
    if targets.len() == 0 {
        Seq::empty()
    } else {
        let front = streams_to_open(targets.drop_last(), connected);
        if needs_stream(targets, connected, targets.len() - 1) {
            front.push(targets.last())
        } else {
            front
        }
    }
}

impl SessionLayer {
    /// The session layer of a node that starts waiting for the connections it is
    /// set up to make.
    pub fn new(config: &Config) -> (s: SessionLayer)
        requires
            config.outside(config.id) ==> config.target_node is Some,
            config.own_cells_indexable(),
        ensures
            s@ == required_connections(*config),
    {
        let (outgoing, incoming) = config.get_nodes_to_connect();
        let mut remaining_conns: HashSet<u32> = HashSet::new();
        insert_nodes(&mut remaining_conns, &outgoing);
        insert_nodes(&mut remaining_conns, &incoming);
        proof {
            let want = required_connections(*config);
            if config.outside(config.id) {
                assert(outgoing@.to_set() =~= set![config.target_node->0]) by {
                    assert(outgoing@[0] == config.target_node->0);
                }
                assert(incoming@.to_set() =~= Set::<u32>::empty());
            } else {
                let n = config.adj.n as nat;
                let a = config.adj@;
                let i = config.id;
                assert forall|j: u32| #[trigger] want.contains(j) <==> remaining_conns@.contains(j) by {
                    lemma_nodes_below_contains(n, |m: u32| initiates(a, i, m), j);
                    lemma_nodes_below_contains(n, |m: u32| awaits(a, i, m), j);
                }
            }
            assert(remaining_conns@ =~= want);
        }
        SessionLayer { remaining_conns }
    }

    /// Decides what the start of the session layer comes to: a node that waits
    /// for no connection has its network established at once.
    pub fn on_start(&self) -> (act: SessionAction)
        ensures
            self@.is_empty() ==> act == SessionAction::Established,
            !self@.is_empty() ==> act == SessionAction::Nothing,
    {
        if self.remaining_conns.is_empty() {
            SessionAction::Established
        } else {
            SessionAction::Nothing
        }
    }

    /// Decides what a new connection with `node_id` comes to: a node outside
    /// the network is taken in; otherwise, while connections are awaited, the
    /// node is no longer awaited, and the network is established when it was
    /// the last.
    pub fn on_new_connection(&mut self, config: &Config, node_id: u32) -> (act: SessionAction)
        ensures
            config.outside(node_id) ==> act == SessionAction::TakeIn(node_id) && final(self)@ == old(self)@,
            !config.outside(node_id) && old(self)@.is_empty() ==> act == SessionAction::Nothing && final(self)@
                == old(self)@,
            !config.outside(node_id) && !old(self)@.is_empty() ==> final(self)@ == old(self)@.remove(node_id) && (
            if final(self)@.is_empty() {
                act == SessionAction::Established
            } else {
                act == SessionAction::Nothing
            }),
    {
        if config.is_node_outside(&node_id) {
            return SessionAction::TakeIn(node_id);
        }
        if self.remaining_conns.is_empty() {
            return SessionAction::Nothing;
        }
        self.remaining_conns.remove(&node_id);
        if self.remaining_conns.is_empty() {
            SessionAction::Established
        } else {
            SessionAction::Nothing
        }
    }

    /// Takes the outside node `node_id` into the network: the matrix grown and
    /// linked to this node is installed, and the update to send, with the
    /// nodes to send it to.
    pub fn handle_new_outside_connection(config: &mut Config, clock: &mut LogicalClock, node_id: u32) -> (res: (
        Message,
        Vec<u32>,
    ))
        requires
            node_id >= old(config).adj.n ==> node_id < u32::MAX && (node_id + 1) * (node_id + 1) <= u32::MAX && (
            node_id != old(config).id ==> old(config).id <= node_id),
            node_id < old(config).adj.n && node_id != old(config).id ==> node_id * old(config).adj.n
                + old(config).id < old(config).adj.data@.len() && node_id * old(config).adj.n + old(config).id
                <= u32::MAX,
            old(clock).value < u64::MAX,
        ensures
            final(config).id == old(config).id,
            final(config).target_node == old(config).target_node,
            final(config).listen_ip == old(config).listen_ip,
            final(config).routes@ == old(config).routes@,
            final(config).adj@ == joined(old(config).adj@, node_id, old(config).id),
            final(config).adj@.member(node_id),
            old(config).adj@.connected() && old(config).adj@.member(old(config).id) && old(config).id != node_id
                ==> final(config).adj@.connected(),
            old(config).id != node_id && old(config).id < final(config).adj.n && final(config).adj@.active(
                old(config).id,
            ) ==> final(config).adj@.linked(node_id, old(config).id),
            final(clock).value == old(clock).value + 1,
            res.0@ == (MessageView {
                sender: old(config).id,
                timestamp: final(clock).value,
                body: BodyView::AdjUpdate { adj: final(config).adj@ },
            }),
            final(config).own_cells_indexable() ==> res.1@ == broadcast_targets(
                final(config).adj@,
                old(config).id,
                Seq::empty(),
            ),
    {
        let new_adj = config.apply_outside_connection(node_id, config.id);
        let msg_adj = new_adj.clone();
        config.replace_adj(new_adj);
        let msg = Message::new(config, clock, MessageBody::AdjUpdate { adj: msg_adj });
        if config.own_cells_fit() {
            let exclusions: Vec<u32> = Vec::new();
            let targets = SearchLayer::get_broadcastable_nodes(config, &exclusions);
            assert(exclusions@ =~= Seq::<u32>::empty());
            (msg, targets)
        } else {
            (msg, Vec::new())
        }
    }

    /// The update that announces `new_adj`, and the neighbours of this node to send it to.
    pub fn broadcast_adj_update(config: &Config, clock: &mut LogicalClock, new_adj: Adj) -> (res: (Message, Vec<u32>))
        requires
            config.own_cells_indexable(),
            old(clock).value < u64::MAX,
        ensures
            final(clock).value == old(clock).value + 1,
            res.0@ == (MessageView {
                sender: config.id,
                timestamp: final(clock).value,
                body: BodyView::AdjUpdate { adj: new_adj@ },
            }),
            res.1@ == broadcast_targets(config.adj@, config.id, Seq::empty()),
    {
        let msg = Message::new(config, clock, MessageBody::AdjUpdate { adj: new_adj });
        let exclusions: Vec<u32> = Vec::new();
        let targets = SearchLayer::get_broadcastable_nodes(config, &exclusions);
        assert(exclusions@ =~= Seq::<u32>::empty());
        (msg, targets)
    }

    /// The nodes to open a connection to for a download from `targets`: each
    /// target without a connection, once, in order. These connections are
    /// closed again after the download.
    pub fn establish_download_streams(targets: &Vec<u32>, connected: &HashSet<u32>) -> (res: Vec<u32>)
        ensures
            res@ == streams_to_open(targets@, connected@),
    {
        let mut temp_conns: Vec<u32> = Vec::new();
        let mut k: usize = 0;
        while k < targets.len()
            invariant
                k <= targets@.len(),
                temp_conns@ == streams_to_open(targets@.take(k as int), connected@),
                forall|x: u32| #[trigger] temp_conns@.contains(x) <==> (targets@.take(k as int).contains(x)
                    && !connected@.contains(x)),
            decreases targets@.len() - k,
        {
            let t = targets[k];
            let ghost pre = targets@.take(k as int);
            let ghost post = targets@.take(k as int + 1);
            proof {
                assert(post =~= pre.push(t));
                assert(post.drop_last() =~= pre);
                assert(post.take(k as int) =~= pre);
                pre.lemma_push_to_set_commute(t);
                vstd::seq_lib::lemma_seq_contains_after_push(pre, t, t);
            }
            let ghost temp_before = temp_conns@;
            if !connected.contains(&t) && !contains_node(&temp_conns, t) {
                temp_conns.push(t);
            }
            proof {
                assert forall|x: u32| #[trigger] temp_conns@.contains(x) <==> (post.contains(x) && !connected@.contains(x)) by {
                    vstd::seq_lib::lemma_seq_contains_after_push(pre, t, x);
                    vstd::seq_lib::lemma_seq_contains_after_push(temp_before, t, x);
                    assert(temp_before.contains(x) <==> (pre.contains(x) && !connected@.contains(x)));
                }
            }
            k = k + 1;
        }
        assert(targets@.take(targets@.len() as int) =~= targets@);
        temp_conns
    }

    /// The nodes this node is set up to ask for a connection but has none with, in order.
    pub fn repair_connections(config: &Config, connected: &HashSet<u32>) -> (res: Vec<u32>)
        requires
            config.outside(config.id) ==> config.target_node is Some,
            config.own_cells_indexable(),
        ensures
            !config.outside(config.id) ==> res@ == nodes_below(
                config.adj.n as nat,
                |j: u32| initiates(config.adj@, config.id, j) && !connected@.contains(j),
            ),
            config.outside(config.id) ==> res@ == (if connected@.contains(config.target_node->0) {
                Seq::<u32>::empty()
            } else {
                seq![config.target_node->0]
            }),
    {
        let required_conns = config.get_nodes_to_connect().0;
        let mut missing_conns: Vec<u32> = Vec::new();
        let mut k: usize = 0;
        proof {
            reveal(Seq::filter);
            assert(required_conns@.take(0) =~= Seq::<u32>::empty());
        }
        while k < required_conns.len()
            invariant
                k <= required_conns@.len(),
                missing_conns@ == required_conns@.take(k as int).filter(|j: u32| !connected@.contains(j)),
            decreases required_conns@.len() - k,
        {
            let c = required_conns[k];
            proof {
                let pre = required_conns@.take(k as int);
                assert(required_conns@.take(k as int + 1) =~= pre.push(c));
                pre.lemma_filter_push(c, |j: u32| !connected@.contains(j));
            }
            if !connected.contains(&c) {
                missing_conns.push(c);
            }
            k = k + 1;
        }
        proof {
            assert(required_conns@.take(required_conns@.len() as int) =~= required_conns@);
            if config.outside(config.id) {
                let t = config.target_node->0;
                assert(required_conns@ =~= seq![t]);
                assert(seq![t] =~= Seq::<u32>::empty().push(t));
                Seq::<u32>::empty().lemma_filter_push(t, |j: u32| !connected@.contains(j));
                reveal(Seq::filter);
                assert(Seq::<u32>::empty().filter(|j: u32| !connected@.contains(j)) =~= Seq::<u32>::empty());
            } else {
                lemma_filter_nodes_below(
                    config.adj.n as nat,
                    |j: u32| initiates(config.adj@, config.id, j),
                    |j: u32| !connected@.contains(j),
                    |j: u32| initiates(config.adj@, config.id, j) && !connected@.contains(j),
                );
            }
        }
        missing_conns
    }
}

/// Keeping the nodes that pass `keep` among those below `k` that pass `pick`
/// gives those below `k` that pass both.
proof fn lemma_filter_nodes_below(
    k: nat,
    pick: spec_fn(u32) -> bool,
    keep: spec_fn(u32) -> bool,
    both: spec_fn(u32) -> bool,
)
    requires
        forall|j: u32| #[trigger] both(j) == (pick(j) && keep(j)),
    ensures
        nodes_below(k, pick).filter(keep) == nodes_below(k, both),
    decreases k,
{
    if k == 0 {
        reveal(Seq::filter);
        assert(Seq::<u32>::empty().filter(keep) =~= Seq::<u32>::empty());
    } else {
        lemma_filter_nodes_below((k - 1) as nat, pick, keep, both);
        let rest = nodes_below((k - 1) as nat, pick);
        if pick((k - 1) as u32) {
            rest.lemma_filter_push((k - 1) as u32, keep);
        }
    }
}

/// Adds the nodes of `nodes` to `set`.
fn insert_nodes(set: &mut HashSet<u32>, nodes: &Vec<u32>)
    ensures
        final(set)@ == old(set)@.union(nodes@.to_set()),
{
    let mut k: usize = 0;
    while k < nodes.len()
        invariant
            k <= nodes@.len(),
            set@ == old(set)@.union(nodes@.take(k as int).to_set()),
        decreases nodes@.len() - k,
    {
        proof {
            assert(nodes@.take(k as int + 1) =~= nodes@.take(k as int).push(nodes@[k as int]));
            nodes@.take(k as int).lemma_push_to_set_commute(nodes@[k as int]);
        }
        set.insert(nodes[k]);
        k = k + 1;
    }
    assert(nodes@.take(nodes@.len() as int) =~= nodes@);
}

} // verus!
