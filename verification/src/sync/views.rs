//! What this node last learned about each peer by trying. Liveness here is
//! local knowledge: the last exchange succeeded, or a session with the peer
//! is open right now; never a synced fact. Bounded: past the bound the peer
//! least recently tried is forgotten.

use vstd::prelude::*;
use crate::order;
use crate::order::Ranked;
use crate::routing::protocol;
use crate::seam;
use crate::seam::NodeId;
use crate::sweep::source;
use super::exchange;

verus! {

/// Most peers remembered.
pub const PEER_VIEWS_MAX: usize = 1_024;

/// What is remembered of one peer.
#[derive(Debug, PartialEq, Eq)]
pub struct PeerLedger {
    pub node: NodeId,
    /// The second it was last tried.
    pub attempted: i64,
    pub last_ok: bool,
    pub last_success: Option<i64>,
    pub last_error: Option<String>,
    pub entries_received: u64,
    pub entries_sent: u64,
}

/// What is reported of one peer.
#[derive(Debug, PartialEq, Eq)]
pub struct PeerSyncView {
    pub node: NodeId,
    pub live: bool,
    pub last_success: Option<i64>,
    pub last_error: Option<String>,
    pub entries_received: u64,
    pub entries_sent: u64,
}

impl PeerLedger {
    /// What is reported of the peer.
    pub open spec fn shown(self, session_open: bool) -> PeerSyncView {
        PeerSyncView {
            node: self.node,
            live: self.last_ok || session_open,
            last_success: self.last_success,
            last_error: self.last_error,
            entries_received: self.entries_received,
            entries_sent: self.entries_sent,
        }
    }

    /// A peer tried for the first time.
    pub open spec fn fresh(node: NodeId, now: i64) -> PeerLedger {
        PeerLedger {
            node,
            attempted: now,
            last_ok: false,
            last_success: None,
            last_error: None,
            entries_received: 0,
            entries_sent: 0,
        }
    }

    /// The ledger after an exchange that succeeded.
    pub open spec fn succeeded(self, now: i64, received: u64, sent: u64) -> PeerLedger {
        PeerLedger {
            attempted: now,
            last_ok: true,
            last_success: Some(now),
            last_error: None,
            entries_received: exchange::held_sum(self.entries_received, received),
            entries_sent: exchange::held_sum(self.entries_sent, sent),
            ..self
        }
    }

    /// The ledger after an exchange that failed.
    pub open spec fn failed(self, now: i64, error: String) -> PeerLedger {
        PeerLedger { attempted: now, last_ok: false, last_error: Some(error), ..self }
    }

    fn view_of(&self, session_open: bool) -> (r: PeerSyncView)
        ensures
            r == self.shown(session_open),
    {
        PeerSyncView {
            node: self.node,
            live: self.last_ok || session_open,
            last_success: self.last_success,
            last_error: source::copy_text(&self.last_error),
            entries_received: self.entries_received,
            entries_sent: self.entries_sent,
        }
    }
}

/// Where a peer stands from `at` on.
pub open spec fn position_from(ledgers: Seq<PeerLedger>, node: NodeId, at: int) -> Option<int>
    decreases ledgers.len() - at,
{
    if at < 0 || at >= ledgers.len() {
        None
    } else if ledgers[at].node == node {
        Some(at)
    } else {
        position_from(ledgers, node, at + 1)
    }
}

/// Whether the peer at `at` is the first of those tried longest ago.
pub open spec fn is_oldest(ledgers: Seq<PeerLedger>, at: int) -> bool {
    &&& 0 <= at < ledgers.len()
    &&& forall|i: int|
        0 <= i < ledgers.len() ==> ledgers[at].attempted <= (#[trigger] ledgers[i]).attempted
    &&& forall|i: int| 0 <= i < at ==> ledgers[at].attempted < (#[trigger] ledgers[i]).attempted
}

/// The ledgers without the one at `at`: the last takes its place.
pub open spec fn forgotten(ledgers: Seq<PeerLedger>, at: int) -> Seq<PeerLedger> {
    ledgers.update(at, ledgers.last()).drop_last()
}

/// Whether `after` is `before` with a ledger for `node`, created if absent; a
/// full set drops the peer tried longest ago first.
pub open spec fn seats(
    after: Seq<PeerLedger>,
    before: Seq<PeerLedger>,
    node: NodeId,
    now: i64,
) -> bool {
    match position_from(before, node, 0) {
        Some(_) => after == before,
        None => if before.len() >= PEER_VIEWS_MAX {
            exists|at: int| #[trigger]
                is_oldest(before, at) && after == forgotten(before, at).push(
                    PeerLedger::fresh(node, now),
                )
        } else {
            after == before.push(PeerLedger::fresh(node, now))
        },
    }
}

/// Whether no peer stands twice, and no more peers than the bound.
pub open spec fn ledgers_wf(ledgers: Seq<PeerLedger>) -> bool {
    &&& ledgers.len() <= PEER_VIEWS_MAX
    &&& forall|i: int, j: int|
        0 <= i < j < ledgers.len() ==> (#[trigger] ledgers[i]).node != (#[trigger] ledgers[j]).node
}

proof fn lemma_position_from(ledgers: Seq<PeerLedger>, node: NodeId, at: int)
    requires
        0 <= at <= ledgers.len(),
    ensures
        match position_from(ledgers, node, at) {
            Some(i) => at <= i < ledgers.len() && ledgers[i].node == node,
            None => forall|i: int| at <= i < ledgers.len() ==> (#[trigger] ledgers[i]).node != node,
        },
    decreases ledgers.len() - at,
{
    if at < ledgers.len() && ledgers[at].node != node {
        lemma_position_from(ledgers, node, at + 1);
    }
}

/// The first place that holds a node is where it stands.
proof fn lemma_position_is(ledgers: Seq<PeerLedger>, node: NodeId, at: int)
    requires
        ledgers_wf(ledgers),
        0 <= at < ledgers.len(),
        ledgers[at].node == node,
    ensures
        position_from(ledgers, node, 0) == Some(at),
{
    lemma_position_from(ledgers, node, 0);
    match position_from(ledgers, node, 0) {
        Some(i) => {
            if i < at {
                assert(ledgers[i].node != ledgers[at].node);
            } else if at < i {
                assert(ledgers[at].node != ledgers[i].node);
            }
        },
        None => {},
    }
}

/// The entries one exchange moved.
#[derive(Debug, Clone, Copy, PartialEq, Eq)]
pub struct Moved {
    pub received: u64,
    pub sent: u64,
}

pub struct PeerLedgers {
    ledgers: Vec<PeerLedger>,
}

impl View for PeerLedgers {
    type V = Seq<PeerLedger>;

    closed spec fn view(&self) -> Seq<PeerLedger> {
        self.ledgers@
    }
}

impl PeerLedgers {
    pub fn new() -> (r: PeerLedgers)
        ensures
            r@ == Seq::<PeerLedger>::empty(),
            ledgers_wf(r@),
    {
        PeerLedgers { ledgers: Vec::new() }
    }

    fn find(&self, node: &NodeId) -> (r: Option<usize>)
        ensures
            match position_from(self@, *node, 0) {
                Some(at) => r is Some && r->0 == at && 0 <= at < self@.len(),
                None => r is None,
            },
    {
        let mut i: usize = 0;
        while i < self.ledgers.len()
            invariant
                i <= self.ledgers@.len(),
                position_from(self@, *node, 0) == position_from(self@, *node, i as int),
            decreases self.ledgers@.len() - i,
        {
            if self.ledgers[i].node.same(node) {
                return Some(i);
            }
            i = i + 1;
        }
        None
    }

    fn oldest(&self) -> (r: usize)
        requires
            self@.len() > 0,
        ensures
            is_oldest(self@, r as int),
    {
        let mut best: usize = 0;
        let mut i: usize = 1;
        while i < self.ledgers.len()
            invariant
                1 <= i <= self.ledgers@.len(),
                best < i,
                forall|j: int|
                    0 <= j < i ==> self.ledgers@[best as int].attempted <= (
                    #[trigger] self.ledgers@[j]).attempted,
                forall|j: int|
                    0 <= j < best ==> self.ledgers@[best as int].attempted < (
                    #[trigger] self.ledgers@[j]).attempted,
            decreases self.ledgers@.len() - i,
        {
            if self.ledgers[i].attempted < self.ledgers[best].attempted {
                best = i;
            }
            i = i + 1;
        }
        best
    }

    /// The ledger for `node`, created if absent; a full set drops the peer
    /// tried longest ago first.
    fn seat(&mut self, node: NodeId, now: i64) -> (r: usize)
        requires
            ledgers_wf(old(self)@),
        ensures
            seats(final(self)@, old(self)@, node, now),
            ledgers_wf(final(self)@),
            r < final(self)@.len(),
            final(self)@[r as int].node == node,
    {
        let ghost before = self@;
        proof {
            lemma_position_from(before, node, 0);
        }
        match self.find(&node) {
            Some(at) => at,
            None => {
                if self.ledgers.len() >= PEER_VIEWS_MAX {
                    let at: usize = self.oldest();
                    self.ledgers.swap_remove(at);
                    proof {
                        assert(is_oldest(before, at as int));
                        let left = self@;
                        assert(left == forgotten(before, at as int));
                        assert forall|i: int| 0 <= i < left.len() implies #[trigger] left[i]
                            == before[if i == at {
                            before.len() - 1
                        } else {
                            i
                        }] by {}
                        assert forall|i: int, j: int| 0 <= i < j < left.len() implies (
                        #[trigger] left[i]).node != (#[trigger] left[j]).node by {
                            let a = if i == at {
                                before.len() - 1
                            } else {
                                i
                            };
                            let b = if j == at {
                                before.len() - 1
                            } else {
                                j
                            };
                            if a < b {
                                assert(before[a].node != before[b].node);
                            } else {
                                assert(before[b].node != before[a].node);
                            }
                        }
                        assert forall|i: int| 0 <= i < left.len() implies (#[trigger] left[i]).node
                            != node by {
                            assert(before[if i == at {
                                before.len() - 1
                            } else {
                                i
                            }].node != node);
                        }
                    }
                }
                let ghost left = self@;
                self.ledgers.push(
                    PeerLedger {
                        node,
                        attempted: now,
                        last_ok: false,
                        last_success: None,
                        last_error: None,
                        entries_received: 0,
                        entries_sent: 0,
                    },
                );
                proof {
                    let after = self@;
                    assert(after =~= left.push(PeerLedger::fresh(node, now)));
                    assert forall|i: int, j: int| 0 <= i < j < after.len() implies (
                    #[trigger] after[i]).node != (#[trigger] after[j]).node by {
                        assert(after[i] == left[i]);
                        if j < left.len() {
                            assert(after[j] == left[j]);
                        }
                    }
                }
                self.ledgers.len() - 1
            },
        }
    }

    /// An exchange with a peer succeeded: the error is cleared and the counts
    /// grow.
    pub fn record_success(&mut self, node: NodeId, now: i64, received: u64, sent: u64)
        requires
            ledgers_wf(old(self)@),
        ensures
            ledgers_wf(final(self)@),
            exists|seated: Seq<PeerLedger>, at: int|
                #[trigger] seats(seated, old(self)@, node, now) && position_from(seated, node, 0)
                    == Some(at) && final(self)@ == #[trigger] seated.update(
                    at,
                    seated[at].succeeded(now, received, sent),
                ),
    {
        let at: usize = self.seat(node, now);
        let ghost seated = self@;
        proof {
            lemma_position_is(seated, node, at as int);
        }
        let updated = PeerLedger {
            node,
            attempted: now,
            last_ok: true,
            last_success: Some(now),
            last_error: None,
            entries_received: self.ledgers[at].entries_received.saturating_add(received),
            entries_sent: self.ledgers[at].entries_sent.saturating_add(sent),
        };
        self.ledgers.set(at, updated);
        proof {
            assert(self@ =~= seated.update(
                at as int,
                seated[at as int].succeeded(now, received, sent),
            ));
            lemma_update_wf(seated, at as int, self@);
        }
    }

    /// An exchange with a peer failed: what it last succeeded with stands.
    pub fn record_error(&mut self, node: NodeId, now: i64, error: String)
        requires
            ledgers_wf(old(self)@),
        ensures
            ledgers_wf(final(self)@),
            exists|seated: Seq<PeerLedger>, at: int|
                #[trigger] seats(seated, old(self)@, node, now) && position_from(seated, node, 0)
                    == Some(at) && final(self)@ == #[trigger] seated.update(
                    at,
                    seated[at].failed(now, error),
                ),
    {
        let at: usize = self.seat(node, now);
        let ghost seated = self@;
        proof {
            lemma_position_is(seated, node, at as int);
        }
        let updated = PeerLedger {
            node,
            attempted: now,
            last_ok: false,
            last_success: self.ledgers[at].last_success,
            last_error: Some(error),
            entries_received: self.ledgers[at].entries_received,
            entries_sent: self.ledgers[at].entries_sent,
        };
        self.ledgers.set(at, updated);
        proof {
            assert(self@ =~= seated.update(at as int, seated[at as int].failed(now, error)));
            lemma_update_wf(seated, at as int, self@);
        }
    }

    /// What is reported of one peer, if it was tried.
    pub fn view_of(&self, node: &NodeId, session_open: bool) -> (r: Option<PeerSyncView>)
        ensures
            r == (match position_from(self@, *node, 0) {
                Some(at) => Some(self@[at].shown(session_open)),
                None => None,
            }),
    {
        match self.find(node) {
            Some(at) => Some(self.ledgers[at].view_of(session_open)),
            None => None,
        }
    }

    /// Record one exchange on its peer's ledger whichever way it went, and
    /// report the peer as it now stands; a failure is handed back as well, so
    /// that a join fails loudly.
    pub fn record(
        &mut self,
        peer: NodeId,
        now: i64,
        outcome: Result<Moved, String>,
        session_open: bool,
    ) -> (r: Result<PeerSyncView, String>)
        requires
            ledgers_wf(old(self)@),
        ensures
            ledgers_wf(final(self)@),
            match outcome {
                Ok(moved) => exists|seated: Seq<PeerLedger>, at: int|
                    #[trigger] seats(seated, old(self)@, peer, now) && position_from(
                        seated,
                        peer,
                        0,
                    ) == Some(at) && final(self)@ == #[trigger] seated.update(
                        at,
                        seated[at].succeeded(now, moved.received, moved.sent),
                    ) && r == Ok::<PeerSyncView, String>(
                        seated[at].succeeded(now, moved.received, moved.sent).shown(session_open),
                    ),
                Err(error) => (exists|seated: Seq<PeerLedger>, at: int|
                    #[trigger] seats(seated, old(self)@, peer, now) && position_from(
                        seated,
                        peer,
                        0,
                    ) == Some(at) && final(self)@ == #[trigger] seated.update(
                        at,
                        seated[at].failed(now, error),
                    )) && r == Err::<PeerSyncView, String>(error),
            },
    {
        match outcome {
            Ok(moved) => {
                let ghost before = self@;
                self.record_success(peer, now, moved.received, moved.sent);
                let ghost (seated, at) = choose|seated: Seq<PeerLedger>, at: int|
                    #[trigger] seats(seated, before, peer, now) && position_from(seated, peer, 0)
                        == Some(at) && self@ == #[trigger] seated.update(
                        at,
                        seated[at].succeeded(now, moved.received, moved.sent),
                    );
                proof {
                    lemma_position_from(seated, peer, 0);
                    assert(self@[at].node == peer);
                    lemma_position_is(self@, peer, at);
                }
                match self.view_of(&peer, session_open) {
                    Some(view) => Ok(view),
                    None => Err(String::new()),
                }
            },
            Err(error) => {
                self.record_error(peer, now, error.clone());
                Err(error)
            },
        }
    }

    /// Every peer tried, ordered by node id.
    pub fn views(&self, sessions: &Vec<NodeId>) -> (r: Vec<PeerSyncView>)
        ensures
            order::is_sorting_of(r@, all_shown(self@, sessions@)),
            r@.len() == self@.len(),
    {
        let mut out: Vec<PeerSyncView> = Vec::new();
        let mut i: usize = 0;
        while i < self.ledgers.len()
            invariant
                i <= self.ledgers@.len(),
                out@.len() == i,
                forall|j: int|
                    0 <= j < i ==> #[trigger] out@[j] == self.ledgers@[j].shown(
                        sessions@.contains(self.ledgers@[j].node),
                    ),
            decreases self.ledgers@.len() - i,
        {
            let open = protocol::holds_node(sessions, &self.ledgers[i].node);
            out.push(self.ledgers[i].view_of(open));
            i = i + 1;
        }
        proof {
            assert(out@ =~= all_shown(self@, sessions@));
        }
        let sorted = order::sorted(out);
        proof {
            order::lemma_sorting_len(sorted@, all_shown(self@, sessions@));
        }
        sorted
    }
}

proof fn lemma_update_wf(before: Seq<PeerLedger>, at: int, after: Seq<PeerLedger>)
    requires
        ledgers_wf(before),
        0 <= at < before.len(),
        after.len() == before.len(),
        after[at].node == before[at].node,
        forall|i: int| 0 <= i < before.len() && i != at ==> after[i] == before[i],
    ensures
        ledgers_wf(after),
{
    assert forall|i: int, j: int| 0 <= i < j < after.len() implies (#[trigger] after[i]).node != (
    #[trigger] after[j]).node by {
        assert(before[i].node != before[j].node);
        assert(after[i].node == before[i].node);
        assert(after[j].node == before[j].node);
    }
}

/// What is reported of every peer tried, a peer with an open session as live.
pub open spec fn all_shown(ledgers: Seq<PeerLedger>, sessions: Seq<NodeId>) -> Seq<PeerSyncView> {
    Seq::new(ledgers.len(), |i: int| ledgers[i].shown(sessions.contains(ledgers[i].node)))
}

/// Views stand in the order of their nodes.
impl Ranked for PeerSyncView {
    open spec fn ranks_before(&self, other: &Self) -> bool {
        !seam::bytes_precede(other.node.bytes@, self.node.bytes@)
    }

    proof fn ranks_total(a: &Self, b: &Self) {
        let x = a.node.bytes@;
        let y = b.node.bytes@;
        seam::lemma_bytes_irreflexive(x);
        if seam::bytes_precede(x, y) && seam::bytes_precede(y, x) {
            seam::lemma_bytes_transitive(x, y, x);
        }
    }

    proof fn ranks_transitive(a: &Self, b: &Self, c: &Self) {
        let x = a.node.bytes@;
        let y = b.node.bytes@;
        let z = c.node.bytes@;
        if seam::bytes_precede(z, x) {
            seam::lemma_bytes_total(x, y);
            if seam::bytes_precede(x, y) {
                seam::lemma_bytes_transitive(z, x, y);
            }
        }
    }

    fn before(&self, other: &Self) -> (r: bool) {
        !other.node.precedes(&self.node)
    }
}

/// A success clears the error and makes the peer live; a failure keeps what
/// the peer last succeeded with and leaves it live only through a session.
pub proof fn law_the_last_attempt_decides_liveness(
    ledger: PeerLedger,
    now: i64,
    received: u64,
    sent: u64,
    error: String,
    session_open: bool,
)
    ensures
        ledger.succeeded(now, received, sent).shown(session_open).live,
        ledger.succeeded(now, received, sent).shown(session_open).last_error is None,
        ledger.failed(now, error).shown(session_open).live == session_open,
        ledger.failed(now, error).shown(session_open).last_success == ledger.last_success,
        ledger.failed(now, error).shown(session_open).entries_received == ledger.entries_received,
{
}


/// Seating a peer gives it a ledger and keeps every other's, except that a
/// full set forgets the peer tried longest ago.
pub proof fn law_a_seated_peer_displaces_only_the_oldest(
    before: Seq<PeerLedger>,
    after: Seq<PeerLedger>,
    node: NodeId,
    now: i64,
)
    requires
        ledgers_wf(before),
        seats(after, before, node, now),
    ensures
        exists|i: int| 0 <= i < after.len() && (#[trigger] after[i]).node == node,
        (exists|i: int| 0 <= i < before.len() && (#[trigger] before[i]).node == node) ==> after
            == before,
        before.len() < PEER_VIEWS_MAX ==> before.is_prefix_of(after),
        after.len() <= PEER_VIEWS_MAX,
        forall|k: int|
            0 <= k < before.len() && !after.contains(#[trigger] before[k]) ==> before.len()
                == PEER_VIEWS_MAX && forall|j: int|
                0 <= j < before.len() ==> before[k].attempted <= (#[trigger] before[j]).attempted,
        forall|i: int|
            0 <= i < after.len() ==> before.contains(#[trigger] after[i]) || (after[i].node == node
                && after[i].attempted == now && !after[i].last_ok && after[i].last_success is None
                && after[i].last_error is None && after[i].entries_received == 0
                && after[i].entries_sent == 0),
{
    lemma_position_from(before, node, 0);
    match position_from(before, node, 0) {
        Some(at) => {
            assert(after[at].node == node);
        },
        None => {
            let fresh = PeerLedger::fresh(node, now);
            if before.len() >= PEER_VIEWS_MAX {
                let at = choose|at: int| #[trigger]
                    is_oldest(before, at) && after == forgotten(before, at).push(fresh);
                let last = before.len() - 1;
                assert(after[last] == fresh);
                assert forall|k: int| 0 <= k < before.len() && k != at implies after.contains(
                    #[trigger] before[k],
                ) by {
                    if k == last {
                        assert(after[at] == before[k]);
                    } else {
                        assert(after[k] == before[k]);
                    }
                }
                assert forall|i: int| 0 <= i < after.len() && i != last implies before.contains(
                    #[trigger] after[i],
                ) by {
                    if i == at {
                        assert(after[i] == before[last]);
                    } else {
                        assert(after[i] == before[i]);
                    }
                }
            } else {
                assert(after[before.len() as int] == fresh);
                assert forall|k: int| 0 <= k < before.len() implies after.contains(
                    #[trigger] before[k],
                ) by {
                    assert(after[k] == before[k]);
                }
                assert forall|i: int| 0 <= i < before.len() implies before.contains(
                    #[trigger] after[i],
                ) by {
                    assert(after[i] == before[i]);
                }
            }
        },
    }
}

/// What an exchange moved is added to what the peer moved before, and a
/// success is dated; a failure says why and adds nothing. Neither touches
/// whom the ledger is of, and both are the last attempt from then on.
pub proof fn law_a_ledger_adds_up(
    ledger: PeerLedger,
    now: i64,
    received: u64,
    sent: u64,
    error: String,
)
    ensures
        ({
            let went = ledger.succeeded(now, received, sent);
            let broke = ledger.failed(now, error);
            &&& went.node == ledger.node && broke.node == ledger.node
            &&& went.attempted == now && broke.attempted == now
            &&& went.last_success == Some(now)
            &&& broke.last_error == Some(error)
            &&& ledger.entries_received + received <= u64::MAX ==> went.entries_received
                == ledger.entries_received + received
            &&& ledger.entries_sent + sent <= u64::MAX ==> went.entries_sent == ledger.entries_sent
                + sent
            &&& went.entries_received >= ledger.entries_received
            &&& went.entries_sent >= ledger.entries_sent
            &&& broke.entries_received == ledger.entries_received
            &&& broke.entries_sent == ledger.entries_sent
        }),
{
}

/// Every peer tried is reported once, in the order of the nodes, as what its
/// ledger says; one with an open session is live whatever its ledger says.
pub proof fn law_every_peer_is_reported(
    ledgers: Seq<PeerLedger>,
    sessions: Seq<NodeId>,
    i: int,
)
    requires
        0 <= i < ledgers.len(),
    ensures
        all_shown(ledgers, sessions).len() == ledgers.len(),
        ({
            let view = all_shown(ledgers, sessions)[i];
            &&& view.node == ledgers[i].node
            &&& view.live == (ledgers[i].last_ok || sessions.contains(ledgers[i].node))
            &&& view.last_success == ledgers[i].last_success
            &&& view.last_error == ledgers[i].last_error
            &&& view.entries_received == ledgers[i].entries_received
            &&& view.entries_sent == ledgers[i].entries_sent
        }),
        forall|a: PeerSyncView, b: PeerSyncView| #[trigger]
            a.ranks_before(&b) <==> !seam::bytes_precede(b.node.bytes@, a.node.bytes@),
{
}
} // verus!
