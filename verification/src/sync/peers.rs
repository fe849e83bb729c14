//! Which peers one round exchanges with: every roster node this node can
//! dial, plus every peer holding a live session with it that it could not
//! dial. Always-on nodes go first, since a round the bound cuts short should
//! still reach the backbone.

use vstd::prelude::*;
use crate::operations::merge;
use crate::routing::protocol;
use crate::seam::NodeId;

verus! {

/// A roster node, as a round reads it.
#[derive(Debug, Clone, Copy, PartialEq, Eq)]
pub struct SyncNode {
    pub id: NodeId,
    /// Whether the record names an endpoint.
    pub dialable: bool,
    pub always_on: bool,
}

/// A peer of a round.
#[derive(Debug, Clone, Copy, PartialEq, Eq)]
pub struct ChosenPeer {
    pub id: NodeId,
    /// Where the record that names its endpoints stands; `None` for a peer
    /// that only its session reaches.
    pub record: Option<usize>,
    pub always_on: bool,
}

/// Whether a node may be exchanged with: it is not this one, and was not
/// expelled.
pub open spec fn may_exchange(node: NodeId, local: NodeId, expelled: Seq<NodeId>) -> bool {
    node != local && !expelled.contains(node)
}

/// The dialable nodes among the first `n`, in roster order.
pub open spec fn dialable(
    nodes: Seq<SyncNode>,
    local: NodeId,
    expelled: Seq<NodeId>,
    n: nat,
) -> Seq<ChosenPeer>
    decreases n,
{
    if n == 0 {
        Seq::empty()
    } else {
        let before = dialable(nodes, local, expelled, (n - 1) as nat);
        let node = nodes[n - 1];
        if may_exchange(node.id, local, expelled) && node.dialable {
            before.push(
                ChosenPeer {
                    id: node.id,
                    record: Some((n - 1) as usize),
                    always_on: node.always_on,
                },
            )
        } else {
            before
        }
    }
}

/// Whether a list of peers holds a node.
pub open spec fn chosen_already(peers: Seq<ChosenPeer>, node: NodeId) -> bool {
    exists|i: int| 0 <= i < peers.len() && (#[trigger] peers[i]).id == node
}

/// Whether the first record of a node from `at` on says it is always on.
pub open spec fn is_always_on(nodes: Seq<SyncNode>, node: NodeId, at: int) -> bool
    decreases nodes.len() - at,
{
    if at < 0 || at >= nodes.len() {
        false
    } else if nodes[at].id == node {
        nodes[at].always_on
    } else {
        is_always_on(nodes, node, at + 1)
    }
}

/// The peers once the first `n` sessions are brought in: each peer that could
/// not be dialed, once.
pub open spec fn reached(
    nodes: Seq<SyncNode>,
    sessions: Seq<NodeId>,
    local: NodeId,
    expelled: Seq<NodeId>,
    n: nat,
) -> Seq<ChosenPeer>
    decreases n,
{
    if n == 0 {
        dialable(nodes, local, expelled, nodes.len())
    } else {
        let before = reached(nodes, sessions, local, expelled, (n - 1) as nat);
        let peer = sessions[n - 1];
        if may_exchange(peer, local, expelled) && !chosen_already(before, peer) {
            before.push(
                ChosenPeer { id: peer, record: None, always_on: is_always_on(nodes, peer, 0) },
            )
        } else {
            before
        }
    }
}

/// The peers that are, or are not, always on, in order.
pub open spec fn grouped(peers: Seq<ChosenPeer>, always_on: bool) -> Seq<ChosenPeer>
    decreases peers.len(),
{
    if peers.len() == 0 {
        Seq::empty()
    } else if peers.last().always_on == always_on {
        grouped(peers.drop_last(), always_on).push(peers.last())
    } else {
        grouped(peers.drop_last(), always_on)
    }
}

/// The peers of a round, in the order they are exchanged with.
pub open spec fn round_order(
    nodes: Seq<SyncNode>,
    sessions: Seq<NodeId>,
    local: NodeId,
    expelled: Seq<NodeId>,
) -> Seq<ChosenPeer> {
    let peers = reached(nodes, sessions, local, expelled, sessions.len());
    grouped(peers, true) + grouped(peers, false)
}

fn always_on_of(nodes: &Vec<SyncNode>, node: &NodeId) -> (r: bool)
    ensures
        r == is_always_on(nodes@, *node, 0),
{
    let mut i: usize = 0;
    while i < nodes.len()
        invariant
            i <= nodes@.len(),
            is_always_on(nodes@, *node, 0) == is_always_on(nodes@, *node, i as int),
        decreases nodes@.len() - i,
    {
        if nodes[i].id.same(node) {
            return nodes[i].always_on;
        }
        i = i + 1;
    }
    false
}

fn is_chosen(peers: &Vec<ChosenPeer>, node: &NodeId) -> (r: bool)
    ensures
        r == chosen_already(peers@, *node),
{
    let mut i: usize = 0;
    while i < peers.len()
        invariant
            i <= peers@.len(),
            forall|j: int| 0 <= j < i ==> (#[trigger] peers@[j]).id != *node,
        decreases peers@.len() - i,
    {
        if peers[i].id.same(node) {
            return true;
        }
        i = i + 1;
    }
    false
}

fn push_group(out: &mut Vec<ChosenPeer>, peers: &Vec<ChosenPeer>, always_on: bool)
    ensures
        final(out)@ == old(out)@ + grouped(peers@, always_on),
{
    let ghost start = out@;
    let mut i: usize = 0;
    proof {
        assert(out@ =~= start + grouped(peers@.take(0), always_on));
    }
    while i < peers.len()
        invariant
            i <= peers@.len(),
            out@ == start + grouped(peers@.take(i as int), always_on),
        decreases peers@.len() - i,
    {
        proof {
            assert(peers@.take(i as int + 1).drop_last() =~= peers@.take(i as int));
            assert(peers@.take(i as int + 1).last() == peers@[i as int]);
        }
        if peers[i].always_on == always_on {
            out.push(peers[i]);
        }
        proof {
            assert(out@ =~= start + grouped(peers@.take(i as int + 1), always_on));
        }
        i = i + 1;
    }
    proof {
        assert(peers@.take(peers@.len() as int) =~= peers@);
    }
}

/// The peers of one round, at most `limit` of them, always-on first.
pub fn choose_peers(
    local: NodeId,
    nodes: &Vec<SyncNode>,
    sessions: &Vec<NodeId>,
    expelled: &Vec<NodeId>,
    limit: usize,
) -> (r: Vec<ChosenPeer>)
    requires
        limit > 0,
    ensures
        r@ == merge::at_most(round_order(nodes@, sessions@, local, expelled@), limit),
        r@.len() <= limit,
{
    let mut chosen: Vec<ChosenPeer> = Vec::new();
    let mut i: usize = 0;
    while i < nodes.len()
        invariant
            i <= nodes@.len(),
            chosen@ == dialable(nodes@, local, expelled@, i as nat),
        decreases nodes@.len() - i,
    {
        let node = nodes[i];
        if !node.id.same(&local) && !protocol::holds_node(expelled, &node.id) && node.dialable {
            chosen.push(
                ChosenPeer { id: node.id, record: Some(i), always_on: node.always_on },
            );
        }
        i = i + 1;
    }
    let mut s: usize = 0;
    while s < sessions.len()
        invariant
            s <= sessions@.len(),
            chosen@ == reached(nodes@, sessions@, local, expelled@, s as nat),
        decreases sessions@.len() - s,
    {
        let peer = sessions[s];
        if !peer.same(&local) && !protocol::holds_node(expelled, &peer) && !is_chosen(
            &chosen,
            &peer,
        ) {
            let always_on = always_on_of(nodes, &peer);
            chosen.push(ChosenPeer { id: peer, record: None, always_on });
        }
        s = s + 1;
    }
    let mut out: Vec<ChosenPeer> = Vec::new();
    push_group(&mut out, &chosen, true);
    push_group(&mut out, &chosen, false);
    proof {
        assert(out@ =~= round_order(nodes@, sessions@, local, expelled@));
    }
    if out.len() > limit {
        out.truncate(limit);
    }
    out
}

proof fn lemma_reached_may_exchange(
    nodes: Seq<SyncNode>,
    sessions: Seq<NodeId>,
    local: NodeId,
    expelled: Seq<NodeId>,
    n: nat,
)
    ensures
        forall|i: int|
            0 <= i < reached(nodes, sessions, local, expelled, n).len() ==> may_exchange(
                (#[trigger] reached(nodes, sessions, local, expelled, n)[i]).id,
                local,
                expelled,
            ),
    decreases n,
{
    if n == 0 {
        lemma_dialable_may_exchange(nodes, local, expelled, nodes.len());
    } else {
        lemma_reached_may_exchange(nodes, sessions, local, expelled, (n - 1) as nat);
        let before = reached(nodes, sessions, local, expelled, (n - 1) as nat);
        let after = reached(nodes, sessions, local, expelled, n);
        assert forall|i: int| 0 <= i < after.len() implies may_exchange(
            (#[trigger] after[i]).id,
            local,
            expelled,
        ) by {
            if i < before.len() {
                assert(after[i] == before[i]);
            }
        }
    }
}

proof fn lemma_dialable_may_exchange(
    nodes: Seq<SyncNode>,
    local: NodeId,
    expelled: Seq<NodeId>,
    n: nat,
)
    ensures
        forall|i: int|
            0 <= i < dialable(nodes, local, expelled, n).len() ==> may_exchange(
                (#[trigger] dialable(nodes, local, expelled, n)[i]).id,
                local,
                expelled,
            ),
    decreases n,
{
    if n > 0 {
        lemma_dialable_may_exchange(nodes, local, expelled, (n - 1) as nat);
        let before = dialable(nodes, local, expelled, (n - 1) as nat);
        let after = dialable(nodes, local, expelled, n);
        assert forall|i: int| 0 <= i < after.len() implies may_exchange(
            (#[trigger] after[i]).id,
            local,
            expelled,
        ) by {
            if i < before.len() {
                assert(after[i] == before[i]);
            }
        }
    }
}

proof fn lemma_grouped(peers: Seq<ChosenPeer>, always_on: bool)
    ensures
        forall|i: int|
            0 <= i < grouped(peers, always_on).len() ==> peers.contains(
                #[trigger] grouped(peers, always_on)[i],
            ) && grouped(peers, always_on)[i].always_on == always_on,
    decreases peers.len(),
{
    if peers.len() > 0 {
        let front = peers.drop_last();
        lemma_grouped(front, always_on);
        let before = grouped(front, always_on);
        let after = grouped(peers, always_on);
        assert forall|i: int| 0 <= i < after.len() implies peers.contains(#[trigger] after[i])
            && after[i].always_on == always_on by {
            if i < before.len() {
                assert(after[i] == before[i]);
                let k = front.index_of(before[i]);
                assert(peers[k] == before[i]);
            } else {
                assert(peers[peers.len() - 1] == after[i]);
            }
        }
    }
}

/// A round never reaches this node or an expelled one, and no node that may
/// be away is exchanged with before one that is always on.
pub proof fn law_rounds_reach_the_backbone_first(
    nodes: Seq<SyncNode>,
    sessions: Seq<NodeId>,
    local: NodeId,
    expelled: Seq<NodeId>,
    i: int,
    j: int,
)
    requires
        0 <= i < j < round_order(nodes, sessions, local, expelled).len(),
    ensures
        ({
            let order = round_order(nodes, sessions, local, expelled);
            &&& may_exchange(order[i].id, local, expelled)
            &&& may_exchange(order[j].id, local, expelled)
            &&& order[j].always_on ==> order[i].always_on
        }),
{
    let peers = reached(nodes, sessions, local, expelled, sessions.len());
    lemma_reached_may_exchange(nodes, sessions, local, expelled, sessions.len());
    lemma_grouped(peers, true);
    lemma_grouped(peers, false);
    let order = round_order(nodes, sessions, local, expelled);
    let first = grouped(peers, true);
    assert forall|k: int| 0 <= k < order.len() implies peers.contains(#[trigger] order[k]) && (
    order[k].always_on == (k < first.len())) by {
        if k < first.len() {
            assert(order[k] == first[k]);
        } else {
            assert(order[k] == grouped(peers, false)[k - first.len()]);
        }
    }
    assert(peers.contains(order[i]));
    assert(peers.contains(order[j]));
    let a = peers.index_of(order[i]);
    let b = peers.index_of(order[j]);
    assert(may_exchange(peers[a].id, local, expelled));
    assert(may_exchange(peers[b].id, local, expelled));
}

/// Whether a peer of a round is what the roster and the sessions say: a
/// record that can be dialed, or a session's other end that no such record
/// reaches, neither this node nor an expelled one.
pub open spec fn is_rightly_chosen(
    peer: ChosenPeer,
    nodes: Seq<SyncNode>,
    sessions: Seq<NodeId>,
    local: NodeId,
    expelled: Seq<NodeId>,
) -> bool {
    &&& peer.id != local
    &&& !expelled.contains(peer.id)
    &&& match peer.record {
        Some(at) => at < nodes.len() && nodes[at as int].id == peer.id && nodes[at as int].dialable
            && peer.always_on == nodes[at as int].always_on,
        None => sessions.contains(peer.id) && forall|i: int|
            0 <= i < nodes.len() && (#[trigger] nodes[i]).id == peer.id ==> !nodes[i].dialable && ((
            forall|j: int| 0 <= j < i ==> (#[trigger] nodes[j]).id != peer.id) ==> peer.always_on
                == nodes[i].always_on),
    }
    &&& (forall|i: int| 0 <= i < nodes.len() ==> (#[trigger] nodes[i]).id != peer.id)
        ==> !peer.always_on
}

proof fn lemma_always_on(nodes: Seq<SyncNode>, node: NodeId, at: int)
    requires
        0 <= at <= nodes.len(),
    ensures
        (forall|i: int| at <= i < nodes.len() ==> (#[trigger] nodes[i]).id != node)
            ==> !is_always_on(nodes, node, at),
        forall|i: int|
            at <= i < nodes.len() && (#[trigger] nodes[i]).id == node && (forall|j: int|
                at <= j < i ==> (#[trigger] nodes[j]).id != node) ==> is_always_on(nodes, node, at)
                == nodes[i].always_on,
    decreases nodes.len() - at,
{
    if at < nodes.len() && nodes[at].id != node {
        lemma_always_on(nodes, node, at + 1);
    }
}

/// Whether `a` is exchanged with before `b` where neither comes first for
/// being always on: as its record stands first, or for having one.
pub open spec fn stands_before(a: ChosenPeer, b: ChosenPeer) -> bool {
    match (a.record, b.record) {
        (Some(i), Some(j)) => i < j,
        (Some(_), None) => true,
        (None, Some(_)) => false,
        (None, None) => a.id != b.id,
    }
}

proof fn lemma_dialable(
    nodes: Seq<SyncNode>,
    sessions: Seq<NodeId>,
    local: NodeId,
    expelled: Seq<NodeId>,
    n: nat,
)
    requires
        n <= nodes.len() <= usize::MAX,
    ensures
        ({
            let peers = dialable(nodes, local, expelled, n);
            &&& forall|k: int|
                0 <= k < peers.len() ==> is_rightly_chosen(
                    #[trigger] peers[k],
                    nodes,
                    sessions,
                    local,
                    expelled,
                ) && peers[k].record is Some && peers[k].record->0 < n
            &&& forall|k: int, l: int|
                0 <= k < l < peers.len() ==> stands_before(
                    #[trigger] peers[k],
                    #[trigger] peers[l],
                )
            &&& forall|i: int|
                0 <= i < n && (#[trigger] nodes[i]).dialable && nodes[i].id != local
                    && !expelled.contains(nodes[i].id) ==> exists|k: int|
                    0 <= k < peers.len() && (#[trigger] peers[k]).record == Some(i as usize)
        }),
    decreases n,
{
    if n > 0 {
        lemma_dialable(nodes, sessions, local, expelled, (n - 1) as nat);
        let before = dialable(nodes, local, expelled, (n - 1) as nat);
        let peers = dialable(nodes, local, expelled, n);
        assert forall|k: int| 0 <= k < peers.len() implies is_rightly_chosen(
            #[trigger] peers[k],
            nodes,
            sessions,
            local,
            expelled,
        ) && peers[k].record is Some && peers[k].record->0 < n by {
            if k < before.len() {
                assert(peers[k] == before[k]);
            }
        }
        assert forall|k: int, l: int| 0 <= k < l < peers.len() implies stands_before(
            #[trigger] peers[k],
            #[trigger] peers[l],
        ) by {
            assert(peers[k] == before[k]);
            if l < before.len() {
                assert(peers[l] == before[l]);
            }
        }
        assert forall|i: int|
            0 <= i < n && (#[trigger] nodes[i]).dialable && nodes[i].id != local
                && !expelled.contains(nodes[i].id) implies exists|k: int|
            0 <= k < peers.len() && (#[trigger] peers[k]).record == Some(i as usize) by {
            if i < n - 1 {
                let k = choose|k: int|
                    0 <= k < before.len() && (#[trigger] before[k]).record == Some(i as usize);
                assert(peers[k] == before[k]);
            } else {
                assert(peers[before.len() as int].record == Some(i as usize));
            }
        }
    }
}

proof fn lemma_reached(
    nodes: Seq<SyncNode>,
    sessions: Seq<NodeId>,
    local: NodeId,
    expelled: Seq<NodeId>,
    n: nat,
)
    requires
        n <= sessions.len(),
        nodes.len() <= usize::MAX,
    ensures
        ({
            let peers = reached(nodes, sessions, local, expelled, n);
            &&& forall|k: int|
                0 <= k < peers.len() ==> is_rightly_chosen(
                    #[trigger] peers[k],
                    nodes,
                    sessions,
                    local,
                    expelled,
                )
            &&& forall|k: int, l: int|
                0 <= k < l < peers.len() ==> stands_before(
                    #[trigger] peers[k],
                    #[trigger] peers[l],
                )
            &&& forall|i: int|
                0 <= i < nodes.len() && (#[trigger] nodes[i]).dialable && nodes[i].id != local
                    && !expelled.contains(nodes[i].id) ==> exists|k: int|
                    0 <= k < peers.len() && (#[trigger] peers[k]).record == Some(i as usize)
            &&& forall|i: int|
                0 <= i < n && (#[trigger] sessions[i]) != local && !expelled.contains(sessions[i])
                    ==> chosen_already(peers, sessions[i])
        }),
    decreases n,
{
    let peers = reached(nodes, sessions, local, expelled, n);
    if n == 0 {
        lemma_dialable(nodes, sessions, local, expelled, nodes.len());
    } else {
        lemma_reached(nodes, sessions, local, expelled, (n - 1) as nat);
        let before = reached(nodes, sessions, local, expelled, (n - 1) as nat);
        let peer = sessions[n - 1];
        assert forall|k: int| 0 <= k < peers.len() implies is_rightly_chosen(
            #[trigger] peers[k],
            nodes,
            sessions,
            local,
            expelled,
        ) by {
            if k < before.len() {
                assert(peers[k] == before[k]);
            } else {
                assert(sessions.contains(peer));
                lemma_always_on(nodes, peer, 0);
                assert forall|i: int| 0 <= i < nodes.len() && (
                #[trigger] nodes[i]).id == peer implies !nodes[i].dialable && ((forall|j: int|
                    0 <= j < i ==> (#[trigger] nodes[j]).id != peer) ==> peers[k].always_on
                    == nodes[i].always_on) by {
                    if nodes[i].dialable {
                        let at = choose|at: int|
                            0 <= at < before.len() && (#[trigger] before[at]).record == Some(
                                i as usize,
                            );
                        assert(is_rightly_chosen(before[at], nodes, sessions, local, expelled));
                        assert(before[at].id == peer);
                    }
                }
            }
        }
        assert forall|k: int, l: int| 0 <= k < l < peers.len() implies stands_before(
            #[trigger] peers[k],
            #[trigger] peers[l],
        ) by {
            assert(peers[k] == before[k]);
            if l < before.len() {
                assert(peers[l] == before[l]);
            }
        }
        assert forall|i: int|
            0 <= i < nodes.len() && (#[trigger] nodes[i]).dialable && nodes[i].id != local
                && !expelled.contains(nodes[i].id) implies exists|k: int|
            0 <= k < peers.len() && (#[trigger] peers[k]).record == Some(i as usize) by {
            let k = choose|k: int|
                0 <= k < before.len() && (#[trigger] before[k]).record == Some(i as usize);
            assert(peers[k] == before[k]);
        }
        assert forall|i: int|
            0 <= i < n && (#[trigger] sessions[i]) != local && !expelled.contains(
                sessions[i],
            ) implies chosen_already(peers, sessions[i]) by {
            if chosen_already(before, sessions[i]) {
                let k = choose|k: int|
                    0 <= k < before.len() && (#[trigger] before[k]).id == sessions[i];
                assert(peers[k] == before[k]);
            } else {
                assert(peers[before.len() as int].id == sessions[i]);
            }
        }
    }
}

proof fn lemma_group_holds(peers: Seq<ChosenPeer>, always_on: bool)
    ensures
        ({
            let group = grouped(peers, always_on);
            &&& forall|k: int|
                0 <= k < peers.len() && (#[trigger] peers[k]).always_on == always_on
                    ==> group.contains(peers[k])
            &&& (forall|k: int, l: int|
                0 <= k < l < peers.len() ==> stands_before(
                    #[trigger] peers[k],
                    #[trigger] peers[l],
                )) ==> forall|k: int, l: int|
                0 <= k < l < group.len() ==> stands_before(
                    #[trigger] group[k],
                    #[trigger] group[l],
                )
        }),
    decreases peers.len(),
{
    if peers.len() > 0 {
        let front = peers.drop_last();
        lemma_group_holds(front, always_on);
        lemma_grouped(front, always_on);
        let before = grouped(front, always_on);
        let group = grouped(peers, always_on);
        assert forall|k: int|
            0 <= k < peers.len() && (#[trigger] peers[k]).always_on == always_on implies group.contains(
            peers[k],
        ) by {
            if k < front.len() {
                assert(front[k] == peers[k]);
                let at = before.index_of(front[k]);
                assert(before.contains(front[k]));
                assert(group[at] == peers[k]);
            } else {
                assert(group[before.len() as int] == peers[k]);
            }
        }
        if forall|k: int, l: int|
            0 <= k < l < peers.len() ==> stands_before(#[trigger] peers[k], #[trigger] peers[l]) {
            assert forall|k: int, l: int| 0 <= k < l < front.len() implies stands_before(
                #[trigger] front[k],
                #[trigger] front[l],
            ) by {
                assert(stands_before(peers[k], peers[l]));
            }
            assert forall|k: int, l: int| 0 <= k < l < group.len() implies stands_before(
                #[trigger] group[k],
                #[trigger] group[l],
            ) by {
                assert(group[k] == before[k]);
                if l < before.len() {
                    assert(group[l] == before[l]);
                } else {
                    assert(front.contains(before[k]));
                    let at = front.index_of(before[k]);
                    assert(stands_before(peers[at], peers[peers.len() - 1]));
                }
            }
        }
    }
}

/// A round reaches everyone it may: every record that can be dialed and
/// every peer a live session reaches stands in it, but for this node and the
/// expelled; a peer stands there once, with its record where it can be
/// dialed and by its session alone where it cannot; the always-on ones come
/// first, and otherwise the records in roster order before the sessions.
pub proof fn law_a_round_reaches_everyone_it_may(
    nodes: Seq<SyncNode>,
    sessions: Seq<NodeId>,
    local: NodeId,
    expelled: Seq<NodeId>,
)
    requires
        nodes.len() <= usize::MAX,
    ensures
        ({
            let order = round_order(nodes, sessions, local, expelled);
            &&& forall|k: int|
                0 <= k < order.len() ==> is_rightly_chosen(
                    #[trigger] order[k],
                    nodes,
                    sessions,
                    local,
                    expelled,
                )
            &&& forall|k: int, l: int|
                0 <= k < l < order.len() ==> (#[trigger] order[k]).always_on && !(
                #[trigger] order[l]).always_on || order[k].always_on == order[l].always_on
                    && stands_before(order[k], order[l])
            &&& forall|i: int|
                0 <= i < nodes.len() && (#[trigger] nodes[i]).dialable && nodes[i].id != local
                    && !expelled.contains(nodes[i].id) ==> exists|k: int|
                    0 <= k < order.len() && (#[trigger] order[k]).record == Some(i as usize)
            &&& forall|i: int|
                0 <= i < sessions.len() && (#[trigger] sessions[i]) != local && !expelled.contains(
                    sessions[i],
                ) ==> exists|k: int| 0 <= k < order.len() && (#[trigger] order[k]).id == sessions[i]
        }),
{
    let peers = reached(nodes, sessions, local, expelled, sessions.len());
    let order = round_order(nodes, sessions, local, expelled);
    let first = grouped(peers, true);
    let rest = grouped(peers, false);
    lemma_reached(nodes, sessions, local, expelled, sessions.len());
    lemma_grouped(peers, true);
    lemma_grouped(peers, false);
    lemma_group_holds(peers, true);
    lemma_group_holds(peers, false);
    assert forall|k: int| 0 <= k < order.len() implies is_rightly_chosen(
        #[trigger] order[k],
        nodes,
        sessions,
        local,
        expelled,
    ) && order[k].always_on == (k < first.len()) by {
        let peer = if k < first.len() {
            first[k]
        } else {
            rest[k - first.len()]
        };
        assert(order[k] == peer);
        assert(peers.contains(peer));
        let at = peers.index_of(peer);
        assert(is_rightly_chosen(peers[at], nodes, sessions, local, expelled));
    }
    assert forall|k: int, l: int| 0 <= k < l < order.len() implies (
    #[trigger] order[k]).always_on && !(#[trigger] order[l]).always_on || order[k].always_on
        == order[l].always_on && stands_before(order[k], order[l]) by {
        if l < first.len() {
            assert(stands_before(first[k], first[l]));
        } else if k >= first.len() {
            assert(stands_before(rest[k - first.len()], rest[l - first.len()]));
        }
    }
    assert forall|k: int| 0 <= k < peers.len() implies order.contains(#[trigger] peers[k]) by {
        if peers[k].always_on {
            let at = first.index_of(peers[k]);
            assert(first.contains(peers[k]));
            assert(order[at] == peers[k]);
        } else {
            let at = rest.index_of(peers[k]);
            assert(rest.contains(peers[k]));
            assert(order[first.len() + at] == peers[k]);
        }
    }
    assert forall|i: int|
        0 <= i < nodes.len() && (#[trigger] nodes[i]).dialable && nodes[i].id != local
            && !expelled.contains(nodes[i].id) implies exists|k: int|
        0 <= k < order.len() && (#[trigger] order[k]).record == Some(i as usize) by {
        let at = choose|at: int|
            0 <= at < peers.len() && (#[trigger] peers[at]).record == Some(i as usize);
        assert(order.contains(peers[at]));
        let k = order.index_of(peers[at]);
        assert(order[k] == peers[at]);
    }
    assert forall|i: int|
        0 <= i < sessions.len() && (#[trigger] sessions[i]) != local && !expelled.contains(
            sessions[i],
        ) implies exists|k: int| 0 <= k < order.len() && (#[trigger] order[k]).id == sessions[i] by {
        let at = choose|at: int| 0 <= at < peers.len() && (#[trigger] peers[at]).id == sessions[i];
        assert(order.contains(peers[at]));
        let k = order.index_of(peers[at]);
        assert(order[k] == peers[at]);
    }
}

/// A round is cut to its limit from the front: the first of those it could
/// reach, as many as the limit leaves.
pub proof fn law_a_cut_round_keeps_the_first(
    nodes: Seq<SyncNode>,
    sessions: Seq<NodeId>,
    local: NodeId,
    expelled: Seq<NodeId>,
    limit: usize,
)
    ensures
        ({
            let order = round_order(nodes, sessions, local, expelled);
            let cut = merge::at_most(order, limit);
            &&& cut.is_prefix_of(order)
            &&& cut.len() < order.len() ==> cut.len() == limit
        }),
{
}
} // verus!
