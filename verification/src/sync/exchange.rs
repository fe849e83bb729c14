//! One exchange with one peer: each round ships the suffix the responder
//! lacks beside the requester's vector, until neither side has news. Every
//! round is bounded in entries and every exchange in rounds.

use vstd::prelude::*;
use crate::seam::{ErrorView, NodeId, SeamError};
use crate::text;
use super::protocol::{VectorEntry, VersionVector};

verus! {

/// Rounds one exchange may take before it yields to the next scheduled one.
pub const ROUNDS_MAX: u32 = 64;

/// One exchange in flight.
pub struct Exchange {
    /// Entries applied from the peer.
    received: u64,
    /// Entries shipped to the peer.
    sent: u64,
    rounds: u32,
    previous: Option<VersionVector>,
    over: bool,
}

/// What one exchange has moved, and the vector the peer last answered with.
#[verifier::ext_equal]
pub struct ExchangeView {
    pub received: u64,
    pub sent: u64,
    pub rounds: nat,
    pub previous: Option<Seq<VectorEntry>>,
    pub over: bool,
}

impl View for Exchange {
    type V = ExchangeView;

    closed spec fn view(&self) -> ExchangeView {
        ExchangeView {
            received: self.received,
            sent: self.sent,
            rounds: self.rounds as nat,
            previous: match self.previous {
                Some(vector) => Some(vector.entries@),
                None => None,
            },
            over: self.over,
        }
    }
}

/// A sum held at the greatest number there is room for.
pub open spec fn held_sum(a: u64, b: u64) -> u64 {
    if a + b > u64::MAX {
        u64::MAX
    } else {
        (a + b) as u64
    }
}

impl ExchangeView {
    /// What every round keeps: an exchange that goes on has rounds left.
    pub open spec fn wf(self) -> bool {
        self.rounds <= ROUNDS_MAX && (!self.over ==> self.rounds < ROUNDS_MAX)
    }

    /// Whether a round ends the exchange: neither side has news, or the peer
    /// applied nothing of what it was shipped and shipped nothing new, or the
    /// rounds are spent.
    pub open spec fn ends(self, applied: u64, outbound: nat, vector: Seq<VectorEntry>) -> bool {
        (applied == 0 && outbound == 0) || (applied == 0 && self.previous == Some(vector))
            || self.rounds + 1 == ROUNDS_MAX
    }

    /// The exchange after a round.
    pub open spec fn after(
        self,
        sent: u64,
        applied: u64,
        outbound: nat,
        vector: Seq<VectorEntry>,
    ) -> ExchangeView {
        ExchangeView {
            received: held_sum(self.received, applied),
            sent: held_sum(self.sent, sent),
            rounds: self.rounds + 1,
            previous: Some(vector),
            over: self.ends(applied, outbound, vector),
        }
    }
}

impl Exchange {
    pub fn new() -> (r: Exchange)
        ensures
            r@ == (ExchangeView { received: 0, sent: 0, rounds: 0, previous: None, over: false }),
            r@.wf(),
    {
        Exchange { received: 0, sent: 0, rounds: 0, previous: None, over: false }
    }

    pub fn is_over(&self) -> (r: bool)
        ensures
            r == self@.over,
    {
        self.over
    }

    pub fn received(&self) -> (r: u64)
        ensures
            r == self@.received,
    {
        self.received
    }

    pub fn sent(&self) -> (r: u64)
        ensures
            r == self@.sent,
    {
        self.sent
    }

    pub fn rounds(&self) -> (r: u32)
        ensures
            r == self@.rounds,
    {
        self.rounds
    }

    /// One round: `sent` entries went out, `applied` of the peer's were taken,
    /// `outbound` are ready for the next round, and the peer answered with
    /// `vector`.
    pub fn round(&mut self, sent: u64, applied: u64, outbound: usize, vector: VersionVector)
        requires
            old(self)@.wf(),
            !old(self)@.over,
        ensures
            final(self)@ == old(self)@.after(sent, applied, outbound as nat, vector.entries@),
            final(self)@.wf(),
    {
        let stands_still = match &self.previous {
            Some(previous) => previous.same(&vector),
            None => false,
        };
        self.rounds = self.rounds + 1;
        self.received = self.received.saturating_add(applied);
        self.sent = self.sent.saturating_add(sent);
        let quiet = applied == 0 && outbound == 0;
        let stalled = applied == 0 && stands_still;
        self.over = quiet || stalled || self.rounds == ROUNDS_MAX;
        self.previous = Some(vector);
    }
}

/// An exchange ends: each round brings it closer to its bound, a round in
/// which neither side has news is its last, and so is one in which a peer
/// that refuses what it is shipped stands still.
pub proof fn law_an_exchange_ends(
    exchange: ExchangeView,
    sent: u64,
    applied: u64,
    outbound: nat,
    vector: Seq<VectorEntry>,
)
    requires
        exchange.wf(),
        !exchange.over,
    ensures
        ({
            let after = exchange.after(sent, applied, outbound, vector);
            &&& after.wf()
            &&& after.rounds == exchange.rounds + 1
            &&& after.rounds <= ROUNDS_MAX
            &&& applied == 0 && outbound == 0 ==> after.over
            &&& applied == 0 && exchange.previous == Some(vector) ==> after.over
            &&& applied > 0 && after.rounds < ROUNDS_MAX ==> !after.over
        }),
{
}

/// What a request that took too long is told.
pub fn timed_out(peer: NodeId, secs: u64) -> (r: SeamError)
    ensures
        r@ == ErrorView::Failed(
            "sync with "@ + peer.short_view() + " timed out after "@ + text::decimal(secs as nat)
                + "s"@,
        ),
{
    let mut message = "sync with ".to_owned();
    message.append(peer.short().as_str());
    message.append(" timed out after ");
    message.append(text::number(secs).as_str());
    message.append("s");
    SeamError::Failed(message)
}

/// Whether a peer may be exchanged with at all: a node does not sync with
/// itself.
pub fn check_peer(peer: NodeId, local: NodeId) -> (r: Result<(), SeamError>)
    ensures
        r is Ok <==> peer != local,
        r matches Err(e) ==> e@ == ErrorView::Refused("a node does not sync with itself"@),
{
    if peer.same(&local) {
        return Err(SeamError::Refused("a node does not sync with itself".to_owned()));
    }
    Ok(())
}

/// An exchange goes on exactly while there is something to go on for: a
/// round is its last where it took nothing of the peer's and either has
/// nothing more to ship or finds the peer's vector where it stood, and where
/// no round is left; what it moved is the sum of its rounds, and what the
/// peer answered with is remembered for the next.
pub proof fn law_an_exchange_goes_on_for_news(
    exchange: ExchangeView,
    sent: u64,
    applied: u64,
    outbound: nat,
    vector: Seq<VectorEntry>,
)
    requires
        exchange.wf(),
        !exchange.over,
    ensures
        ({
            let after = exchange.after(sent, applied, outbound, vector);
            &&& !after.over <==> (applied > 0 || (outbound > 0 && exchange.previous != Some(
                vector,
            ))) && exchange.rounds + 1 < ROUNDS_MAX
            &&& exchange.received + applied <= u64::MAX ==> after.received == exchange.received
                + applied
            &&& exchange.sent + sent <= u64::MAX ==> after.sent == exchange.sent + sent
            &&& after.received >= exchange.received
            &&& after.sent >= exchange.sent
            &&& after.previous == Some(vector)
        }),
{
}

} // verus!
