//! Who may connect: expelled peers are refused, roster peers admitted, and
//! strangers admitted only with a one-time invitation token.

use vstd::prelude::*;
use crate::routing::protocol;
use crate::seam::{ErrorView, NodeId, SeamError};
use super::invitations;
use super::invitations::OpenInvitations;

verus! {

/// The in-memory answer to "who may connect": the store's members and
/// expelled nodes, plus the peers a redeemed invitation admitted whose own
/// records have not arrived yet.
pub struct AdmissionCache {
    known: Vec<NodeId>,
    expelled: Vec<NodeId>,
    invited: Vec<NodeId>,
}

/// Who is known, who is expelled, and who was invited, the oldest first.
#[verifier::ext_equal]
pub struct CacheView {
    pub known: Set<NodeId>,
    pub expelled: Set<NodeId>,
    pub invited: Seq<NodeId>,
}

impl View for AdmissionCache {
    type V = CacheView;

    closed spec fn view(&self) -> CacheView {
        CacheView {
            known: self.known@.to_set(),
            expelled: self.expelled@.to_set(),
            invited: self.invited@,
        }
    }
}

/// The invited peers the store does not know one way or the other.
pub open spec fn still_pending(
    invited: Seq<NodeId>,
    known: Set<NodeId>,
    expelled: Set<NodeId>,
) -> Seq<NodeId>
    decreases invited.len(),
{
    if invited.len() == 0 {
        Seq::empty()
    } else if known.contains(invited.last()) || expelled.contains(invited.last()) {
        still_pending(invited.drop_last(), known, expelled)
    } else {
        still_pending(invited.drop_last(), known, expelled).push(invited.last())
    }
}

impl CacheView {
    /// The view once a peer was invited: a full list forgets the oldest.
    pub open spec fn with_invited(self, peer: NodeId, pending_max: nat) -> CacheView {
        if self.invited.contains(peer) {
            self
        } else if self.invited.len() >= pending_max {
            CacheView { invited: self.invited.skip(1).push(peer), ..self }
        } else {
            CacheView { invited: self.invited.push(peer), ..self }
        }
    }

    /// The view once the store was read again.
    pub open spec fn replaced(self, known: Set<NodeId>, expelled: Set<NodeId>) -> CacheView {
        CacheView { known, expelled, invited: still_pending(self.invited, known, expelled) }
    }
}

impl AdmissionCache {
    pub fn new() -> (r: AdmissionCache)
        ensures
            r@ == (CacheView {
                known: Set::empty(),
                expelled: Set::empty(),
                invited: Seq::empty(),
            }),
    {
        let cache = AdmissionCache {
            known: Vec::new(),
            expelled: Vec::new(),
            invited: Vec::new(),
        };
        proof {
            assert(cache@ =~= (CacheView {
                known: Set::empty(),
                expelled: Set::empty(),
                invited: Seq::empty(),
            }));
        }
        cache
    }

    /// Remember a peer whose invitation was redeemed.
    pub fn remember_invited(&mut self, peer: NodeId, pending_max: usize)
        requires
            pending_max > 0,
        ensures
            final(self)@ == old(self)@.with_invited(peer, pending_max as nat),
            old(self)@.invited.len() <= pending_max ==> final(self)@.invited.len() <= pending_max,
    {
        let ghost before = self@;
        if protocol::holds_node(&self.invited, &peer) {
            return;
        }
        if self.invited.len() >= pending_max {
            self.invited.remove(0);
            proof {
                assert(self.invited@ =~= before.invited.skip(1));
            }
        }
        self.invited.push(peer);
    }

    /// Replace the store-derived sets and forget invited peers the store now
    /// knows one way or the other. This node's own key is never a stranger.
    pub fn replace(&mut self, local: NodeId, members: Vec<NodeId>, expelled: Vec<NodeId>)
        requires
            members@.to_set().insert(local).disjoint(expelled@.to_set()),
        ensures
            final(self)@ == old(self)@.replaced(
                members@.to_set().insert(local),
                expelled@.to_set(),
            ),
    {
        let ghost before = self@;
        let ghost given = members@;
        let mut known = members;
        known.push(local);
        proof {
            assert(known@.to_set() =~= given.to_set().insert(local)) by {
                assert forall|x: NodeId| known@.to_set().contains(x) == given.to_set().insert(
                    local,
                ).contains(x) by {
                    if given.contains(x) {
                        let i = given.index_of(x);
                        assert(known@[i] == x);
                    }
                    if x == local {
                        assert(known@[given.len() as int] == x);
                    }
                    if known@.contains(x) {
                        let i = known@.index_of(x);
                        if i < given.len() {
                            assert(given[i] == x);
                        }
                    }
                }
            }
        }
        let mut pending: Vec<NodeId> = Vec::new();
        let mut i: usize = 0;
        proof {
            assert(self.invited@.take(0) =~= Seq::empty());
        }
        while i < self.invited.len()
            invariant
                i <= self.invited@.len(),
                pending@ == still_pending(
                    self.invited@.take(i as int),
                    known@.to_set(),
                    expelled@.to_set(),
                ),
            decreases self.invited@.len() - i,
        {
            proof {
                assert(self.invited@.take(i as int + 1).drop_last() =~= self.invited@.take(
                    i as int,
                ));
                assert(self.invited@.take(i as int + 1).last() == self.invited@[i as int]);
            }
            let peer = self.invited[i];
            if !protocol::holds_node(&known, &peer) && !protocol::holds_node(&expelled, &peer) {
                pending.push(peer);
            }
            i = i + 1;
        }
        proof {
            assert(self.invited@.take(self.invited@.len() as int) =~= self.invited@);
        }
        self.known = known;
        self.expelled = expelled;
        self.invited = pending;
    }
}

/// Whether a peer is let in.
#[derive(Debug, PartialEq, Eq)]
pub enum Admit {
    Admitted,
    Refused(String),
}

/// What a refused peer is told.
pub open spec fn admit_refusal(answer: Admit) -> Option<Seq<char>> {
    match answer {
        Admit::Admitted => None,
        Admit::Refused(reason) => Some(reason@),
    }
}

/// One node at its door: its own key, the view it answers from, and the
/// invitations it holds open.
pub struct Doorkeeper {
    pub local: NodeId,
    pub cache: AdmissionCache,
    pub invitations: OpenInvitations,
}

pub open spec fn own_key() -> Seq<char> {
    "a node never admits its own key as a peer"@
}

pub open spec fn was_expelled(peer: NodeId) -> Seq<char> {
    "node "@ + peer.short_view() + " was expelled"@
}

pub open spec fn no_invitation(peer: NodeId) -> Seq<char> {
    "node "@ + peer.short_view() + " is not in the roster and presented no invitation"@
}

pub open spec fn not_open(peer: NodeId) -> Seq<char> {
    "node "@ + peer.short_view() + " presented an invitation that is not open"@
}

impl Doorkeeper {
    /// Whether a peer is let in without an invitation.
    pub open spec fn knows(self, peer: NodeId) -> bool {
        self.cache@.known.contains(peer) || self.cache@.invited.contains(peer)
    }

    /// Whether a token is open at `now`.
    pub open spec fn opens(self, token: Seq<char>, now: i64) -> bool {
        invitations::is_live(self.invitations@, token, now)
    }

    /// What a peer that presents `invitation` is refused with.
    pub open spec fn refusal(self, peer: NodeId, invitation: Option<Seq<char>>, now: i64) -> Option<
        Seq<char>,
    > {
        if peer == self.local {
            Some(own_key())
        } else if self.cache@.expelled.contains(peer) {
            Some(was_expelled(peer))
        } else if self.knows(peer) {
            None
        } else {
            match invitation {
                None => Some(no_invitation(peer)),
                Some(token) => if self.opens(token, now) {
                    None
                } else {
                    Some(not_open(peer))
                },
            }
        }
    }

    /// Whether admitting a peer asks the ledger: only a stranger that
    /// presents an invitation does.
    pub open spec fn asks_ledger(self, peer: NodeId, invitation: Option<Seq<char>>) -> bool {
        peer != self.local && !self.cache@.expelled.contains(peer) && !self.knows(peer)
            && invitation is Some
    }

    /// Redeem a token for a peer: a redeemed one is remembered as invited.
    pub fn redeem(&mut self, peer: NodeId, token: &str, now: i64, pending_max: usize) -> (r: bool)
        requires
            pending_max > 0,
        ensures
            r == old(self).opens(token@, now),
            final(self).local == old(self).local,
            final(self).invitations@ == invitations::redeemed(
                invitations::pruned(old(self).invitations@, now),
                token@,
            ),
            final(self).cache@ == (if r {
                old(self).cache@.with_invited(peer, pending_max as nat)
            } else {
                old(self).cache@
            }),
    {
        let redeemed = self.invitations.redeem(token, now);
        if redeemed {
            self.cache.remember_invited(peer, pending_max);
        }
        redeemed
    }

    /// The policy: expelled first, so an expelled peer's stale record can
    /// never readmit it; then roster members and invited peers; then a
    /// stranger with a live token, admitted as it is redeemed.
    pub fn let_in(&mut self, peer: NodeId, invitation: Option<&String>, now: i64, pending_max: usize) -> (r:
        Admit)
        requires
            pending_max > 0,
        ensures
            admit_refusal(r) == old(self).refusal(
                peer,
                match invitation {
                    Some(token) => Some(token@),
                    None => None,
                },
                now,
            ),
            final(self).local == old(self).local,
            invitation is None || !old(self).asks_ledger(peer, Some(invitation->0@)) ==> *final(self) == *old(self),
            invitation is Some && old(self).asks_ledger(peer, Some(invitation->0@)) ==> {
                &&& final(self).invitations@ == invitations::redeemed(
                    invitations::pruned(old(self).invitations@, now),
                    invitation->0@,
                )
                &&& final(self).cache@ == (if r is Admitted {
                    old(self).cache@.with_invited(peer, pending_max as nat)
                } else {
                    old(self).cache@
                })
            },
    {
        if peer.same(&self.local) {
            return Admit::Refused("a node never admits its own key as a peer".to_owned());
        }
        if protocol::holds_node(&self.cache.expelled, &peer) {
            let mut reason = "node ".to_owned();
            reason.append(peer.short().as_str());
            reason.append(" was expelled");
            return Admit::Refused(reason);
        }
        if protocol::holds_node(&self.cache.known, &peer) {
            return Admit::Admitted;
        }
        if protocol::holds_node(&self.cache.invited, &peer) {
            return Admit::Admitted;
        }
        match invitation {
            None => {
                let mut reason = "node ".to_owned();
                reason.append(peer.short().as_str());
                reason.append(" is not in the roster and presented no invitation");
                Admit::Refused(reason)
            },
            Some(token) => {
                if self.redeem(peer, token.as_str(), now, pending_max) {
                    return Admit::Admitted;
                }
                let mut reason = "node ".to_owned();
                reason.append(peer.short().as_str());
                reason.append(" presented an invitation that is not open");
                Admit::Refused(reason)
            },
        }
    }

    /// Whether a node may be expelled by this one.
    pub fn check_expel(&self, node: NodeId) -> (r: Result<(), SeamError>)
        ensures
            r is Ok <==> node != self.local,
            r matches Err(e) ==> e@ == ErrorView::Refused(
                "a node cannot expel itself; expel it from another node"@,
            ),
    {
        if node.same(&self.local) {
            return Err(
                SeamError::Refused(
                    "a node cannot expel itself; expel it from another node".to_owned(),
                ),
            );
        }
        Ok(())
    }
}

/// An expelled peer is never let in, whatever it presents, and presenting an
/// open token does not spend it.
pub proof fn law_expelled_peers_are_never_admitted(
    keeper: Doorkeeper,
    peer: NodeId,
    invitation: Option<Seq<char>>,
    now: i64,
)
    requires
        keeper.cache@.expelled.contains(peer),
        peer != keeper.local,
    ensures
        keeper.refusal(peer, invitation, now) == Some(was_expelled(peer)),
        !keeper.asks_ledger(peer, invitation),
{
}

/// A stranger gets in by an open invitation and in no other way.
pub proof fn law_strangers_need_an_open_invitation(
    keeper: Doorkeeper,
    peer: NodeId,
    invitation: Option<Seq<char>>,
    now: i64,
)
    requires
        !keeper.knows(peer),
        keeper.refusal(peer, invitation, now) is None,
    ensures
        invitation matches Some(token) && keeper.opens(token, now),
{
}

/// Reading the store again settles who was invited: a peer the store now
/// lists as expelled is no longer let in as invited.
pub proof fn law_the_store_settles_the_invited(
    cache: CacheView,
    known: Set<NodeId>,
    expelled: Set<NodeId>,
    peer: NodeId,
)
    requires
        known.contains(peer) || expelled.contains(peer),
    ensures
        !cache.replaced(known, expelled).invited.contains(peer),
{
    lemma_still_pending(cache.invited, known, expelled, peer);
}

proof fn lemma_still_pending(
    invited: Seq<NodeId>,
    known: Set<NodeId>,
    expelled: Set<NodeId>,
    peer: NodeId,
)
    requires
        known.contains(peer) || expelled.contains(peer),
    ensures
        !still_pending(invited, known, expelled).contains(peer),
    decreases invited.len(),
{
    if invited.len() > 0 {
        lemma_still_pending(invited.drop_last(), known, expelled, peer);
        let before = still_pending(invited.drop_last(), known, expelled);
        let after = still_pending(invited, known, expelled);
        if after.contains(peer) {
            let i = after.index_of(peer);
            if i < before.len() {
                assert(before[i] == peer);
            }
        }
    }
}


/// What the store settles leaves the list of the invited, and nothing else
/// does: those it knows neither way stay, in order, and what it says of the
/// others is taken over as it is.
pub proof fn law_only_the_settled_leave_the_invited(
    cache: CacheView,
    known: Set<NodeId>,
    expelled: Set<NodeId>,
)
    ensures
        cache.replaced(known, expelled).known == known,
        cache.replaced(known, expelled).expelled == expelled,
        cache.replaced(known, expelled).invited == cache.invited.filter(
            |peer: NodeId| !known.contains(peer) && !expelled.contains(peer),
        ),
{
    lemma_pending_is_filtered(cache.invited, known, expelled);
}

proof fn lemma_pending_is_filtered(
    invited: Seq<NodeId>,
    known: Set<NodeId>,
    expelled: Set<NodeId>,
)
    ensures
        still_pending(invited, known, expelled) == invited.filter(
            |peer: NodeId| !known.contains(peer) && !expelled.contains(peer),
        ),
    decreases invited.len(),
{
    reveal(Seq::filter);
    if invited.len() > 0 {
        lemma_pending_is_filtered(invited.drop_last(), known, expelled);
    }
}

/// An invited peer is remembered, last of all, and the others with it; only a
/// full list forgets one, the oldest. Inviting a peer twice changes nothing.
pub proof fn law_the_invited_are_remembered(cache: CacheView, peer: NodeId, pending_max: nat)
    requires
        pending_max > 0,
    ensures
        ({
            let after = cache.with_invited(peer, pending_max);
            &&& after.invited.contains(peer)
            &&& after.known == cache.known
            &&& after.expelled == cache.expelled
            &&& after.with_invited(peer, pending_max) == after
            &&& forall|i: int|
                0 <= i < cache.invited.len() && (i > 0 || cache.invited.len() < pending_max)
                    ==> after.invited.contains(#[trigger] cache.invited[i])
            &&& forall|i: int|
                0 <= i < after.invited.len() ==> #[trigger] after.invited[i] == peer
                    || cache.invited.contains(after.invited[i])
            &&& !cache.invited.contains(peer) ==> after.invited.last() == peer
            &&& after.invited.len() <= cache.invited.len() + 1
        }),
{
    let after = cache.with_invited(peer, pending_max);
    if !cache.invited.contains(peer) {
        assert(after.invited[after.invited.len() - 1] == peer);
        let dropped: int = if cache.invited.len() >= pending_max {
            1
        } else {
            0
        };
        assert forall|i: int|
            0 <= i < cache.invited.len() && (i > 0 || cache.invited.len()
                < pending_max) implies after.invited.contains(#[trigger] cache.invited[i]) by {
            assert(after.invited[i - dropped] == cache.invited[i]);
        }
        assert forall|i: int| 0 <= i < after.invited.len() implies #[trigger] after.invited[i]
            == peer || cache.invited.contains(after.invited[i]) by {
            if i < after.invited.len() - 1 {
                assert(cache.invited[i + dropped] == after.invited[i]);
            }
        }
    }
}

/// A peer is let in exactly when it is another node, not expelled, and known,
/// invited, or with a token that was issued and has not expired.
pub proof fn law_who_is_let_in(
    keeper: Doorkeeper,
    peer: NodeId,
    invitation: Option<Seq<char>>,
    now: i64,
)
    ensures
        keeper.refusal(peer, invitation, now) is None <==> {
            &&& peer != keeper.local
            &&& !keeper.cache@.expelled.contains(peer)
            &&& keeper.cache@.known.contains(peer) || keeper.cache@.invited.contains(peer) || (
            invitation is Some && exists|i: int|
                0 <= i < keeper.invitations@.len() && (#[trigger] keeper.invitations@[i]).token
                    == invitation->0 && now < keeper.invitations@[i].expires)
        },
        keeper.asks_ledger(peer, invitation) <==> peer != keeper.local
            && !keeper.cache@.expelled.contains(peer) && !keeper.cache@.known.contains(peer)
            && !keeper.cache@.invited.contains(peer) && invitation is Some,
{
}
} // verus!
