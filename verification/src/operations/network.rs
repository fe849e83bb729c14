//! The owner's network operations: the roster's durable facts beside what
//! the last sync learned by trying. Every seam is optional to mount, and an
//! operation that lacks one says which.

use vstd::prelude::*;
use crate::seam::{ErrorView, NodeId, SeamError};
use crate::sweep::source;

verus! {

/// What an operation without its seam is told.
pub open spec fn not_mounted(entry: Seq<char>) -> Seq<char> {
    "this node has no network: the `"@ + entry + "` entry is not mounted"@
}

/// The refusal that names the entry an operation lacks.
pub fn unavailable(entry: &str) -> (r: SeamError)
    ensures
        r@ == ErrorView::Unavailable(not_mounted(entry@)),
{
    let mut message = "this node has no network: the `".to_owned();
    message.append(entry);
    message.append("` entry is not mounted");
    SeamError::Unavailable(message)
}

/// Which network seams are mounted.
#[derive(Debug, Clone, Copy, PartialEq, Eq)]
pub struct Mounted {
    pub roster: bool,
    pub sync: bool,
    pub node: bool,
}

/// The seam the network view lacks, the first of those it asks for.
pub open spec fn missing_for_view(mounted: Mounted) -> Option<Seq<char>> {
    if !mounted.roster {
        Some("roster"@)
    } else if !mounted.sync {
        Some("sync"@)
    } else if !mounted.node {
        Some("node"@)
    } else {
        None
    }
}

/// Whether the network can be viewed: the roster, sync and node entries are
/// mounted, asked for in that order.
pub fn check_view(mounted: Mounted) -> (r: Result<(), SeamError>)
    ensures
        r is Ok <==> missing_for_view(mounted) is None,
        r matches Err(e) ==> e@ == ErrorView::Unavailable(
            not_mounted(missing_for_view(mounted)->0),
        ),
{
    if !mounted.roster {
        Err(unavailable("roster"))
    } else if !mounted.sync {
        Err(unavailable("sync"))
    } else if !mounted.node {
        Err(unavailable("node"))
    } else {
        Ok(())
    }
}

/// An invitation, as a join reads it.
#[derive(Debug, PartialEq, Eq)]
pub struct InvitationTerms {
    pub node: NodeId,
    /// The second at which it expires.
    pub expires: i64,
    /// That second's date.
    pub expires_on: String,
}

/// What an expired invitation is told.
pub open spec fn expired(node: NodeId, on: Seq<char>) -> Seq<char> {
    "invitation from node "@ + node.short_view() + " expired on "@ + on
        + "; ask for a fresh one"@
}

/// Whether an invitation may be joined through: it parsed, and it has not
/// expired by the caller's clock. Nothing is dialed otherwise.
pub fn check_invitation(parsed: Result<InvitationTerms, String>, now: i64) -> (r: Result<
    InvitationTerms,
    SeamError,
>)
    ensures
        match parsed {
            Err(reason) => r matches Err(e) && e@ == ErrorView::Refused(
                "invitation: "@ + reason@,
            ),
            Ok(terms) => if now < terms.expires {
                r == Ok::<InvitationTerms, SeamError>(terms)
            } else {
                r matches Err(e) && e@ == ErrorView::Refused(
                    expired(terms.node, terms.expires_on@),
                )
            },
        },
{
    match parsed {
        Err(reason) => {
            let mut message = "invitation: ".to_owned();
            message.append(reason.as_str());
            Err(SeamError::Refused(message))
        },
        Ok(terms) => {
            if now < terms.expires {
                return Ok(terms);
            }
            let mut message = "invitation from node ".to_owned();
            message.append(terms.node.short().as_str());
            message.append(" expired on ");
            message.append(terms.expires_on.as_str());
            message.append("; ask for a fresh one");
            Err(SeamError::Refused(message))
        },
    }
}

// --- The view ---

/// A host and the nodes that steward it, in roster order.
#[derive(Debug, PartialEq, Eq)]
pub struct HostStewards {
    pub host: String,
    pub stewards: Vec<NodeId>,
}

/// What the last attempts to sync with a node learned.
#[derive(Debug, PartialEq, Eq)]
pub struct PeerSyncView {
    pub node: NodeId,
    pub live: bool,
    /// The second of the last success.
    pub last_success: Option<i64>,
    pub last_error: Option<String>,
}

/// One origin's part of the log.
#[derive(Debug, Clone, Copy, PartialEq, Eq)]
pub struct LogCount {
    pub entries: u64,
}

/// The log summed across origins.
#[derive(Debug, Clone, Copy, PartialEq, Eq)]
pub struct LogSummary {
    pub entries: u64,
    pub origins: u32,
}

/// One node as the owner sees it.
#[derive(Debug, PartialEq, Eq)]
pub struct NetworkNodeView {
    pub node: NodeId,
    pub is_local: bool,
    pub live: bool,
    pub last_sync: Option<i64>,
    pub last_error: Option<String>,
    pub hosts: Vec<String>,
}

/// The network as this node sees it.
#[derive(Debug, PartialEq, Eq)]
pub struct NetworkView {
    pub nodes: Vec<NetworkNodeView>,
    pub hosts: Vec<HostStewards>,
    pub log: LogSummary,
}

/// Where the last view of a node stands among the first `n` peers.
pub open spec fn peer_of(peers: Seq<PeerSyncView>, node: NodeId, n: nat) -> Option<int>
    decreases n,
{
    if n == 0 {
        None
    } else if peers[n - 1].node == node {
        Some(n - 1)
    } else {
        peer_of(peers, node, (n - 1) as nat)
    }
}

/// The host, once for each time the node stands among its first `n`
/// stewards.
pub open spec fn claims(entry: HostStewards, node: NodeId, n: nat) -> Seq<String>
    decreases n,
{
    if n == 0 {
        Seq::empty()
    } else if entry.stewards@[n - 1] == node {
        claims(entry, node, (n - 1) as nat).push(entry.host)
    } else {
        claims(entry, node, (n - 1) as nat)
    }
}

/// The hosts a node stewards among the first `n`, in roster order.
pub open spec fn stewarded(hosts: Seq<HostStewards>, node: NodeId, n: nat) -> Seq<String>
    decreases n,
{
    if n == 0 {
        Seq::empty()
    } else {
        stewarded(hosts, node, (n - 1) as nat) + claims(
            hosts[n - 1],
            node,
            hosts[n - 1].stewards@.len(),
        )
    }
}

/// Whether a node stands among the first `n` of a list.
pub open spec fn listed(nodes: Seq<NodeId>, node: NodeId, n: int) -> bool {
    exists|i: int| 0 <= i < n && #[trigger] nodes[i] == node
}

/// Whether a view is the owner's of the node at `i`: its session knowledge is
/// the last attempt's, a node is always live to itself, and it is shown with
/// the hosts it stewards where it stands first.
pub open spec fn shows(
    view: NetworkNodeView,
    nodes: Seq<NodeId>,
    local: NodeId,
    hosts: Seq<HostStewards>,
    peers: Seq<PeerSyncView>,
    i: int,
) -> bool {
    let node = nodes[i];
    let peer = peer_of(peers, node, peers.len());
    &&& view.node == node
    &&& view.is_local == (node == local)
    &&& view.live == (node == local || (peer is Some && peers[peer->0].live))
    &&& view.last_sync == (match peer {
        Some(at) => peers[at].last_success,
        None => None,
    })
    &&& view.last_error == (match peer {
        Some(at) => peers[at].last_error,
        None => None,
    })
    &&& view.hosts@ == (if listed(nodes, node, i) {
        Seq::empty()
    } else {
        stewarded(hosts, node, hosts.len())
    })
}

/// The entries of the first `n` origins.
pub open spec fn entries_of(counts: Seq<LogCount>, n: nat) -> nat
    decreases n,
{
    if n == 0 {
        0
    } else {
        entries_of(counts, (n - 1) as nat) + counts[n - 1].entries as nat
    }
}

proof fn lemma_entries_grow(counts: Seq<LogCount>, n: nat, m: nat)
    requires
        n <= m,
    ensures
        entries_of(counts, n) <= entries_of(counts, m),
    decreases m - n,
{
    if n < m {
        lemma_entries_grow(counts, n, (m - 1) as nat);
    }
}

fn find_peer(peers: &Vec<PeerSyncView>, node: &NodeId) -> (r: Option<usize>)
    ensures
        match peer_of(peers@, *node, peers@.len()) {
            Some(at) => r is Some && r->0 == at && 0 <= at < peers@.len(),
            None => r is None,
        },
{
    let mut n: usize = peers.len();
    while n > 0
        invariant
            n <= peers@.len(),
            peer_of(peers@, *node, peers@.len()) == peer_of(peers@, *node, n as nat),
        decreases n,
    {
        if peers[n - 1].node.same(node) {
            return Some(n - 1);
        }
        n = n - 1;
    }
    None
}

fn hosts_of(hosts: &Vec<HostStewards>, node: &NodeId) -> (r: Vec<String>)
    ensures
        r@ == stewarded(hosts@, *node, hosts@.len()),
{
    let mut out: Vec<String> = Vec::new();
    let mut h: usize = 0;
    while h < hosts.len()
        invariant
            h <= hosts@.len(),
            out@ == stewarded(hosts@, *node, h as nat),
        decreases hosts@.len() - h,
    {
        let ghost before = out@;
        let mut k: usize = 0;
        proof {
            assert(out@ =~= before + claims(hosts@[h as int], *node, 0));
        }
        while k < hosts[h].stewards.len()
            invariant
                h < hosts@.len(),
                k <= hosts@[h as int].stewards@.len(),
                out@ == before + claims(hosts@[h as int], *node, k as nat),
            decreases hosts@[h as int].stewards@.len() - k,
        {
            let ghost then_ = out@;
            if hosts[h].stewards[k].same(node) {
                out.push(hosts[h].host.clone());
            }
            proof {
                assert(out@ =~= before + claims(hosts@[h as int], *node, (k + 1) as nat));
            }
            k = k + 1;
        }
        h = h + 1;
    }
    out
}

fn is_listed(nodes: &Vec<NodeId>, node: &NodeId, n: usize) -> (r: bool)
    requires
        n <= nodes@.len(),
    ensures
        r == listed(nodes@, *node, n as int),
{
    let mut i: usize = 0;
    while i < n
        invariant
            i <= n <= nodes@.len(),
            forall|j: int| 0 <= j < i ==> #[trigger] nodes@[j] != *node,
        decreases n - i,
    {
        if nodes[i].same(node) {
            return true;
        }
        i = i + 1;
    }
    false
}

fn sum_entries(counts: &Vec<LogCount>) -> (r: u64)
    requires
        entries_of(counts@, counts@.len()) <= u64::MAX,
    ensures
        r == entries_of(counts@, counts@.len()),
{
    let mut total: u64 = 0;
    let mut i: usize = 0;
    while i < counts.len()
        invariant
            i <= counts@.len(),
            entries_of(counts@, counts@.len()) <= u64::MAX,
            total == entries_of(counts@, i as nat),
        decreases counts@.len() - i,
    {
        proof {
            lemma_entries_grow(counts@, (i + 1) as nat, counts@.len());
        }
        total = total + counts[i].entries;
        i = i + 1;
    }
    total
}

/// Assemble the owner's view: nodes in roster order with their session
/// knowledge and stewarded hosts, hosts with their stewards, and the log
/// summed across origins.
pub fn network_view(
    local: NodeId,
    nodes: &Vec<NodeId>,
    hosts: Vec<HostStewards>,
    peers: &Vec<PeerSyncView>,
    counts: &Vec<LogCount>,
) -> (r: NetworkView)
    requires
        entries_of(counts@, counts@.len()) <= u64::MAX,
    ensures
        r.nodes@.len() == nodes@.len(),
        forall|i: int|
            0 <= i < nodes@.len() ==> shows(
                #[trigger] r.nodes@[i],
                nodes@,
                local,
                hosts@,
                peers@,
                i,
            ),
        r.hosts@ == hosts@,
        r.log.entries == entries_of(counts@, counts@.len()),
        r.log.origins == (if counts@.len() > u32::MAX {
            u32::MAX as nat
        } else {
            counts@.len()
        }),
{
    let mut views: Vec<NetworkNodeView> = Vec::new();
    let mut i: usize = 0;
    while i < nodes.len()
        invariant
            i <= nodes@.len(),
            views@.len() == i,
            forall|j: int|
                0 <= j < i ==> shows(
                    #[trigger] views@[j],
                    nodes@,
                    local,
                    hosts@,
                    peers@,
                    j,
                ),
        decreases nodes@.len() - i,
    {
        let node = nodes[i];
        let is_local = node.same(&local);
        let stewarded_here = if is_listed(nodes, &node, i) {
            Vec::new()
        } else {
            hosts_of(&hosts, &node)
        };
        let view = match find_peer(peers, &node) {
            Some(at) => NetworkNodeView {
                node,
                is_local,
                live: is_local || peers[at].live,
                last_sync: peers[at].last_success,
                last_error: source::copy_text(&peers[at].last_error),
                hosts: stewarded_here,
            },
            None => NetworkNodeView {
                node,
                is_local,
                live: is_local,
                last_sync: None,
                last_error: None,
                hosts: stewarded_here,
            },
        };
        views.push(view);
        i = i + 1;
    }
    let origins: u32 = if counts.len() > u32::MAX as usize {
        u32::MAX
    } else {
        counts.len() as u32
    };
    let log = LogSummary { entries: sum_entries(counts), origins };
    NetworkView { nodes: views, hosts, log }
}

/// This node is live to itself, whatever the last attempt found; a peer no
/// attempt was made with is not.
pub proof fn law_liveness_is_learned(
    view: NetworkNodeView,
    nodes: Seq<NodeId>,
    local: NodeId,
    hosts: Seq<HostStewards>,
    peers: Seq<PeerSyncView>,
    i: int,
)
    requires
        0 <= i < nodes.len(),
        shows(view, nodes, local, hosts, peers, i),
    ensures
        view.is_local ==> view.live,
        !view.is_local && (forall|k: int| 0 <= k < peers.len() ==> (#[trigger] peers[k]).node
            != view.node) ==> !view.live,
{
    lemma_peer_of(peers, nodes[i], peers.len());
}

proof fn lemma_peer_of(peers: Seq<PeerSyncView>, node: NodeId, n: nat)
    requires
        n <= peers.len(),
    ensures
        peer_of(peers, node, n) matches Some(at) ==> 0 <= at < n && peers[at].node == node,
    decreases n,
{
    if n > 0 {
        lemma_peer_of(peers, node, (n - 1) as nat);
    }
}


/// What is shown of a node's sessions is the last view of it, and nothing
/// where there is none.
pub proof fn law_the_last_attempt_is_shown(peers: Seq<PeerSyncView>, node: NodeId, n: nat)
    requires
        n <= peers.len(),
    ensures
        match peer_of(peers, node, n) {
            Some(at) => 0 <= at < n && peers[at].node == node && forall|k: int|
                at < k < n ==> (#[trigger] peers[k]).node != node,
            None => forall|k: int| 0 <= k < n ==> (#[trigger] peers[k]).node != node,
        },
    decreases n,
{
    if n > 0 {
        law_the_last_attempt_is_shown(peers, node, (n - 1) as nat);
    }
}

proof fn lemma_claims(entry: HostStewards, node: NodeId, n: nat)
    requires
        n <= entry.stewards@.len(),
    ensures
        claims(entry, node, n).len() == entry.stewards@.take(n as int).filter(
            |steward: NodeId| steward == node,
        ).len(),
        forall|i: int|
            0 <= i < claims(entry, node, n).len() ==> #[trigger] claims(entry, node, n)[i]
                == entry.host,
    decreases n,
{
    reveal(Seq::filter);
    let stewards = entry.stewards@;
    if n > 0 {
        lemma_claims(entry, node, (n - 1) as nat);
        assert(stewards.take(n as int).drop_last() =~= stewards.take(n - 1));
        assert(stewards.take(n as int).last() == stewards[n - 1]);
    }
}

/// Whether a name is that of one of the first `n` hosts, one that the node
/// stewards.
pub open spec fn stewards_it(
    hosts: Seq<HostStewards>,
    node: NodeId,
    n: nat,
    name: String,
) -> bool {
    exists|k: int|
        0 <= k < n && (#[trigger] hosts[k]).stewards@.contains(node) && name == hosts[k].host
}

/// A node is shown with the hosts it stewards, in roster order: for each host
/// in turn its name, as often as the node stands among its stewards.
pub proof fn law_a_node_is_shown_with_its_hosts(
    hosts: Seq<HostStewards>,
    node: NodeId,
    n: nat,
)
    requires
        n <= hosts.len(),
    ensures
        forall|k: int|
            0 <= k < n && (#[trigger] hosts[k]).stewards@.contains(node) ==> stewarded(
                hosts,
                node,
                n,
            ).contains(hosts[k].host),
        forall|i: int|
            0 <= i < stewarded(hosts, node, n).len() ==> stewards_it(
                hosts,
                node,
                n,
                #[trigger] stewarded(hosts, node, n)[i],
            ),
        n > 0 ==> stewarded(hosts, node, n).len() == stewarded(hosts, node, (n - 1) as nat).len()
            + hosts[n - 1].stewards@.filter(|steward: NodeId| steward == node).len(),
        n > 0 ==> stewarded(hosts, node, (n - 1) as nat).is_prefix_of(stewarded(hosts, node, n)),
    decreases n,
{
    reveal(Seq::filter);
    if n > 0 {
        law_a_node_is_shown_with_its_hosts(hosts, node, (n - 1) as nat);
        let entry = hosts[n - 1];
        let before = stewarded(hosts, node, (n - 1) as nat);
        let own = claims(entry, node, entry.stewards@.len());
        let all = stewarded(hosts, node, n);
        let mine = |steward: NodeId| steward == node;
        lemma_claims(entry, node, entry.stewards@.len());
        assert(entry.stewards@.take(entry.stewards@.len() as int) =~= entry.stewards@);
        assert(own.len() > 0 <==> entry.stewards@.contains(node)) by {
            if entry.stewards@.contains(node) {
                let k = entry.stewards@.index_of(node);
                entry.stewards@.lemma_filter_contains(mine, k);
            }
            if own.len() > 0 {
                let first = entry.stewards@.filter(mine)[0];
                assert(entry.stewards@.filter(mine).contains(first));
                entry.stewards@.lemma_filter_pred(mine, 0);
                entry.stewards@.lemma_filter_contains_rev(mine, first);
            }
        }
        assert forall|k: int|
            0 <= k < n && (#[trigger] hosts[k]).stewards@.contains(node) implies all.contains(
            hosts[k].host,
        ) by {
            if k < n - 1 {
                assert(before.contains(hosts[k].host));
                let i = before.index_of(hosts[k].host);
                assert(all[i] == hosts[k].host);
            } else {
                assert(all[before.len() as int] == own[0]);
            }
        }
        assert forall|i: int| 0 <= i < all.len() implies stewards_it(
            hosts,
            node,
            n,
            #[trigger] all[i],
        ) by {
            if i < before.len() {
                assert(all[i] == before[i]);
                assert(stewards_it(hosts, node, (n - 1) as nat, before[i]));
                let k = choose|k: int|
                    0 <= k < n - 1 && (#[trigger] hosts[k]).stewards@.contains(node) && before[i]
                        == hosts[k].host;
                assert(hosts[k].stewards@.contains(node));
            } else {
                assert(all[i] == own[i - before.len()]);
                assert(hosts[n - 1].stewards@.contains(node));
            }
        }
    }
}

/// The log's entries are those of every origin, summed.
pub proof fn law_the_log_sums_every_origin(counts: Seq<LogCount>, n: nat)
    requires
        n <= counts.len(),
    ensures
        entries_of(counts, n) == counts.take(n as int).fold_left(
            0int,
            |sum: int, count: LogCount| sum + count.entries,
        ),
    decreases n,
{
    if n > 0 {
        law_the_log_sums_every_origin(counts, (n - 1) as nat);
        assert(counts.take(n as int).drop_last() =~= counts.take(n - 1));
    }
}
} // verus!
