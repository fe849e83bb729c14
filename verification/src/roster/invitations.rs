//! The open invitations one node holds: a bounded ledger of one-time tokens,
//! each with an expiry. The ledger takes the clock as an argument, so its
//! behavior is the same whatever the time.

use vstd::prelude::*;
use base64::engine::general_purpose::URL_SAFE_NO_PAD;
use base64::Engine as _;
use rand::RngCore as _;
use crate::seam::{ErrorView, SeamError};
use crate::text;

verus! {

/// Random bytes behind one token: 256 bits, so a guess is hopeless within
/// the day a token stays open.
pub const TOKEN_RANDOM_BYTES: usize = 32;

/// Characters base64url spends on [`TOKEN_RANDOM_BYTES`] without padding.
pub const TOKEN_CHARS: usize = 43;

// --- Tokens ---

/// The byte at `i`, zero past the end.
pub open spec fn byte_at(bytes: Seq<u8>, i: int) -> int {
    if 0 <= i < bytes.len() {
        bytes[i] as int
    } else {
        0
    }
}

/// The `k`-th group of six bits of some bytes, the first bit first.
pub open spec fn sextet(bytes: Seq<u8>, k: int) -> int {
    let b0 = byte_at(bytes, 3 * (k / 4));
    let b1 = byte_at(bytes, 3 * (k / 4) + 1);
    let b2 = byte_at(bytes, 3 * (k / 4) + 2);
    if k % 4 == 0 {
        b0 / 4
    } else if k % 4 == 1 {
        (b0 % 4) * 16 + b1 / 16
    } else if k % 4 == 2 {
        (b1 % 16) * 4 + b2 / 64
    } else {
        b2 % 64
    }
}

/// The character of six bits in the URL-safe base64 alphabet.
pub open spec fn base64url_char(d: int) -> char {
    if d < 26 {
        ('A' as u32 + d) as char
    } else if d < 52 {
        ('a' as u32 + (d - 26)) as char
    } else if d < 62 {
        ('0' as u32 + (d - 52)) as char
    } else if d == 62 {
        '-'
    } else {
        '_'
    }
}

/// Bytes in base64url without padding: one character for every six bits,
/// the last one filled up with zeroes.
pub open spec fn base64url(bytes: Seq<u8>) -> Seq<char> {
    Seq::new(((8 * bytes.len() + 5) / 6) as nat, |k: int| base64url_char(sextet(bytes, k)))
}

/// `rand::RngCore::fill_bytes` of the generator `rand::rng()` hands out: the
/// bytes are chance's, so nothing is claimed of them but how many there are.
/// A process whose operating system yields no entropy at all does not get
/// past `rand::rng()`.
#[verifier::external_body]
fn random_bytes(count: usize) -> (r: Vec<u8>)
    ensures
        r@.len() == count,
{
    let mut bytes = vec![0u8; count];
    rand::rng().fill_bytes(&mut bytes);
    bytes
}

/// `base64::Engine::encode` of the engine `URL_SAFE_NO_PAD`: the bytes in the
/// URL-safe alphabet, without padding.
#[verifier::external_body]
fn encode_base64url(bytes: &Vec<u8>) -> (r: String)
    requires
        bytes@.len() <= usize::MAX / 2,
    ensures
        r@ == base64url(bytes@),
{
    URL_SAFE_NO_PAD.encode(bytes)
}

/// Whether a token is plain: letters, digits, hyphens and underscores only.
pub open spec fn is_plain(token: Seq<char>) -> bool {
    forall|i: int|
        0 <= i < token.len() ==> ({
            let c = #[trigger] token[i];
            ('A' <= c <= 'Z') || ('a' <= c <= 'z') || ('0' <= c <= '9') || c == '-' || c == '_'
        })
}

/// The token some bytes stand for.
pub fn token_of(bytes: &Vec<u8>) -> (r: String)
    requires
        bytes@.len() <= usize::MAX / 2,
    ensures
        r@ == base64url(bytes@),
        is_plain(r@),
        bytes@.len() == TOKEN_RANDOM_BYTES ==> r@.len() == TOKEN_CHARS,
{
    proof {
        law_tokens_are_plain(bytes@);
    }
    encode_base64url(bytes)
}

/// Base64url is plain, whatever the bytes: it needs no escaping anywhere a
/// token is shown, and 32 bytes make 43 characters of it.
pub proof fn law_tokens_are_plain(bytes: Seq<u8>)
    ensures
        is_plain(base64url(bytes)),
        bytes.len() == TOKEN_RANDOM_BYTES ==> base64url(bytes).len() == TOKEN_CHARS,
{
    let token = base64url(bytes);
    assert forall|i: int| 0 <= i < token.len() implies ({
        let c = #[trigger] token[i];
        ('A' <= c <= 'Z') || ('a' <= c <= 'z') || ('0' <= c <= '9') || c == '-' || c == '_'
    }) by {
        let d = sextet(bytes, i);
        assert(0 <= d < 64);
    }
}

/// A fresh token.
fn random_token() -> (r: String)
    ensures
        r@.len() == TOKEN_CHARS,
        is_plain(r@),
{
    let bytes = random_bytes(TOKEN_RANDOM_BYTES);
    token_of(&bytes)
}

// --- The ledger ---

/// One open invitation.
#[derive(Debug, PartialEq, Eq)]
pub struct OpenInvitation {
    pub token: String,
    /// The second at which it expires.
    pub expires: i64,
}

/// Every unredeemed, unexpired invitation this node minted since it started.
pub struct OpenInvitations {
    open: Vec<OpenInvitation>,
}

/// An invitation's token and expiry.
pub struct InvitationView {
    pub token: Seq<char>,
    pub expires: i64,
}

impl View for OpenInvitations {
    type V = Seq<InvitationView>;

    closed spec fn view(&self) -> Seq<InvitationView> {
        Seq::new(
            self.open@.len(),
            |i: int| InvitationView {
                token: self.open@[i].token@,
                expires: self.open@[i].expires,
            },
        )
    }
}

/// The invitations still open at `now`: expiry is exclusive.
pub open spec fn pruned(open: Seq<InvitationView>, now: i64) -> Seq<InvitationView>
    decreases open.len(),
{
    if open.len() == 0 {
        Seq::empty()
    } else if now < open.last().expires {
        pruned(open.drop_last(), now).push(open.last())
    } else {
        pruned(open.drop_last(), now)
    }
}

/// Where a token stands from `at` on.
pub open spec fn token_from(open: Seq<InvitationView>, token: Seq<char>, at: int) -> Option<int>
    decreases open.len() - at,
{
    if at < 0 || at >= open.len() {
        None
    } else if open[at].token == token {
        Some(at)
    } else {
        token_from(open, token, at + 1)
    }
}

/// Whether a token was issued and has not expired at `now`.
pub open spec fn is_live(open: Seq<InvitationView>, token: Seq<char>, now: i64) -> bool {
    exists|i: int|
        0 <= i < open.len() && (#[trigger] open[i]).token == token && now < open[i].expires
}

/// What is live is what is open once the expired invitations are gone.
proof fn lemma_live_is_open(open: Seq<InvitationView>, token: Seq<char>, now: i64)
    ensures
        is_live(open, token, now) == is_open(pruned(open, now), token),
    decreases open.len(),
{
    if open.len() > 0 {
        let front = open.drop_last();
        lemma_live_is_open(front, token, now);
        let before = pruned(front, now);
        let after = pruned(open, now);
        if is_live(open, token, now) {
            let i = choose|i: int|
                0 <= i < open.len() && (#[trigger] open[i]).token == token && now < open[i].expires;
            if i < front.len() {
                assert(front[i] == open[i]);
                assert(is_live(front, token, now));
                let k = choose|k: int| 0 <= k < before.len() && (#[trigger] before[k]).token == token;
                assert(after[k].token == token);
            } else {
                assert(after[after.len() - 1].token == token);
            }
        }
        if is_open(after, token) {
            let k = choose|k: int| 0 <= k < after.len() && (#[trigger] after[k]).token == token;
            if k < before.len() {
                assert(before[k].token == token);
                let i = choose|i: int|
                    0 <= i < front.len() && (#[trigger] front[i]).token == token && now
                        < front[i].expires;
                assert(open[i].token == token);
            } else {
                assert(open[open.len() - 1].token == token);
            }
        }
    }
}

/// Whether a token is open.
pub open spec fn is_open(open: Seq<InvitationView>, token: Seq<char>) -> bool {
    exists|i: int| 0 <= i < open.len() && (#[trigger] open[i]).token == token
}

/// The ledger after a token is redeemed: the last invitation takes its place.
pub open spec fn redeemed(open: Seq<InvitationView>, token: Seq<char>) -> Seq<InvitationView> {
    match token_from(open, token, 0) {
        Some(at) => open.update(at, open.last()).drop_last(),
        None => open,
    }
}

/// What a full ledger is told.
pub open spec fn ledger_full(open_max: nat) -> Seq<char> {
    text::decimal(open_max)
        + " invitations are already open; redeem or wait out one first"@
}

/// The second at which an invitation minted at `now` expires.
pub open spec fn expiry(now: i64, ttl_secs: i64) -> i64 {
    if now + ttl_secs > i64::MAX {
        i64::MAX
    } else {
        (now + ttl_secs) as i64
    }
}

impl OpenInvitations {
    pub fn new() -> (r: OpenInvitations)
        ensures
            r@ == Seq::<InvitationView>::empty(),
    {
        let ledger = OpenInvitations { open: Vec::new() };
        proof {
            assert(ledger@ =~= Seq::empty());
        }
        ledger
    }

    pub fn open_count(&self) -> (r: usize)
        ensures
            r == self@.len(),
    {
        self.open.len()
    }

    fn prune(&mut self, now: i64)
        ensures
            final(self)@ == pruned(old(self)@, now),
    {
        let ghost all = self@;
        let mut held: Vec<OpenInvitation> = Vec::new();
        std::mem::swap(&mut self.open, &mut held);
        let ghost given = held@;
        proof {
            assert(self@ =~= pruned(all.take(0), now));
        }
        for invitation in it: held
            invariant
                it.seq() == given,
                all.len() == given.len(),
                forall|i: int|
                    0 <= i < given.len() ==> #[trigger] all[i] == (InvitationView {
                        token: given[i].token@,
                        expires: given[i].expires,
                    }),
                self@ == pruned(all.take(it.index()), now),
        {
            let ghost before = self@;
            let ghost index = it.index();
            let ghost shown = InvitationView {
                token: invitation.token@,
                expires: invitation.expires,
            };
            proof {
                assert(all.take(index + 1).drop_last() =~= all.take(index));
                assert(all.take(index + 1).last() == all[index]);
                assert(all[index] == shown);
            }
            if now < invitation.expires {
                self.open.push(invitation);
                proof {
                    assert(self@ =~= before.push(shown));
                }
            }
        }
        proof {
            assert(all.take(all.len() as int) =~= all);
        }
    }

    /// Open an invitation with a given token until `now + ttl_secs`. Expired
    /// invitations are pruned first, so a ledger full of stale ones never
    /// blocks a new invitation; a ledger full of live ones refuses.
    pub fn open(&mut self, token: String, now: i64, ttl_secs: i64, open_max: usize) -> (r: Result<
        i64,
        SeamError,
    >)
        requires
            ttl_secs > 0,
            now < i64::MAX,
        ensures
            r is Ok <==> pruned(old(self)@, now).len() < open_max,
            r matches Ok(expires) ==> expires == expiry(now, ttl_secs) && expires > now
                && final(self)@ == pruned(old(self)@, now).push(
                InvitationView { token: token@, expires },
            ),
            r matches Err(e) ==> e@ == ErrorView::Refused(ledger_full(open_max as nat))
                && final(self)@ == pruned(old(self)@, now),
            final(self)@.len() <= open_max || final(self)@ == pruned(old(self)@, now),
    {
        self.prune(now);
        if self.open.len() >= open_max {
            let mut message = text::number(open_max as u64);
            message.append(" invitations are already open; redeem or wait out one first");
            return Err(SeamError::Refused(message));
        }
        let expires: i64 = if now > 0 && ttl_secs > i64::MAX - now {
            i64::MAX
        } else {
            now + ttl_secs
        };
        let ghost before = self@;
        let ghost shown = InvitationView { token: token@, expires };
        self.open.push(OpenInvitation { token, expires });
        proof {
            assert(self@ =~= before.push(shown));
        }
        Ok(expires)
    }

    /// Mint a fresh token and open an invitation with it.
    pub fn mint(&mut self, now: i64, ttl_secs: i64, open_max: usize) -> (r: Result<
        (String, i64),
        SeamError,
    >)
        requires
            ttl_secs > 0,
            now < i64::MAX,
        ensures
            r is Ok <==> pruned(old(self)@, now).len() < open_max,
            r matches Ok(minted) ==> minted.0@.len() == TOKEN_CHARS && is_plain(minted.0@)
                && minted.1 == expiry(now, ttl_secs) && final(self)@ == pruned(old(self)@, now).push(
                InvitationView { token: minted.0@, expires: minted.1 },
            ),
            r matches Err(e) ==> e@ == ErrorView::Refused(ledger_full(open_max as nat))
                && final(self)@ == pruned(old(self)@, now),
    {
        let token = random_token();
        let shown = token.clone();
        match self.open(token, now, ttl_secs, open_max) {
            Ok(expires) => Ok((shown, expires)),
            Err(e) => Err(e),
        }
    }

    /// Consume the invitation `token` names: true once, then never.
    pub fn redeem(&mut self, token: &str, now: i64) -> (r: bool)
        ensures
            r == is_live(old(self)@, token@, now),
            final(self)@ == redeemed(pruned(old(self)@, now), token@),
    {
        proof {
            lemma_live_is_open(self@, token@, now);
        }
        self.prune(now);
        let ghost live = self@;
        let mut i: usize = 0;
        while i < self.open.len()
            invariant
                i <= self.open@.len(),
                live == self@,
                live == pruned(old(self)@, now),
                is_live(old(self)@, token@, now) == is_open(live, token@),
                token_from(live, token@, 0) == token_from(live, token@, i as int),
                forall|j: int| 0 <= j < i ==> (#[trigger] live[j]).token != token@,
            decreases self.open@.len() - i,
        {
            if text::same(self.open[i].token.as_str(), token) {
                let ghost before = self.open@;
                self.open.swap_remove(i);
                proof {
                    assert(live[i as int].token == token@);
                    assert(self@ =~= redeemed(live, token@));
                }
                return true;
            }
            proof {
                assert(live[i as int].token != token@);
            }
            i = i + 1;
        }
        false
    }
}

proof fn lemma_token_from(open: Seq<InvitationView>, token: Seq<char>, at: int)
    requires
        0 <= at <= open.len(),
    ensures
        match token_from(open, token, at) {
            Some(i) => at <= i < open.len() && open[i].token == token,
            None => forall|i: int| at <= i < open.len() ==> (#[trigger] open[i]).token != token,
        },
    decreases open.len() - at,
{
    if at < open.len() && open[at].token != token {
        lemma_token_from(open, token, at + 1);
    }
}

/// Whether no token stands twice.
pub open spec fn tokens_differ(open: Seq<InvitationView>) -> bool {
    forall|i: int, j: int|
        0 <= i < j < open.len() ==> (#[trigger] open[i]).token != (#[trigger] open[j]).token
}

proof fn lemma_pruned(open: Seq<InvitationView>, now: i64)
    ensures
        pruned(open, now).len() <= open.len(),
        forall|i: int|
            0 <= i < pruned(open, now).len() ==> (#[trigger] pruned(open, now)[i]).expires > now
                && open.contains(pruned(open, now)[i]),
        tokens_differ(open) ==> tokens_differ(pruned(open, now)),
    decreases open.len(),
{
    if open.len() > 0 {
        let front = open.drop_last();
        lemma_pruned(front, now);
        let before = pruned(front, now);
        let after = pruned(open, now);
        assert forall|i: int| 0 <= i < after.len() implies (#[trigger] after[i]).expires > now
            && open.contains(after[i]) by {
            if i < before.len() {
                assert(after[i] == before[i]);
                let k = front.index_of(before[i]);
                assert(open[k] == before[i]);
            } else {
                assert(open[open.len() - 1] == after[i]);
            }
        }
        if tokens_differ(open) {
            assert(tokens_differ(front)) by {
                assert forall|i: int, j: int| 0 <= i < j < front.len() implies (
                #[trigger] front[i]).token != (#[trigger] front[j]).token by {
                    assert(open[i].token != open[j].token);
                }
            }
            assert forall|i: int, j: int| 0 <= i < j < after.len() implies (
            #[trigger] after[i]).token != (#[trigger] after[j]).token by {
                assert(after[i] == before[i]);
                if j < before.len() {
                    assert(after[j] == before[j]);
                } else {
                    let k = front.index_of(before[i]);
                    assert(front[k] == before[i]);
                    assert(open[k].token != open[open.len() - 1].token);
                }
            }
        }
    }
}

/// A token redeems once and then never: where no token stands twice, the
/// ledger a redeemed token leaves behind does not hold it, now or later, and
/// still holds every other one.
pub proof fn law_a_token_redeems_once(
    open: Seq<InvitationView>,
    token: Seq<char>,
    now: i64,
    later: i64,
)
    requires
        tokens_differ(open),
        is_live(open, token, now),
    ensures
        !is_live(redeemed(pruned(open, now), token), token, later),
        redeemed(pruned(open, now), token).len() == pruned(open, now).len() - 1,
        forall|other: Seq<char>|
            other != token && #[trigger] is_live(open, other, now) ==> is_live(
                redeemed(pruned(open, now), token),
                other,
                now,
            ),
{
    let live = pruned(open, now);
    lemma_pruned(open, now);
    lemma_live_is_open(open, token, now);
    lemma_token_from(live, token, 0);
    let at = token_from(live, token, 0)->0;
    let after = redeemed(live, token);
    assert forall|i: int| 0 <= i < after.len() implies (#[trigger] after[i]).token != token by {
        if i == at {
            assert(after[i] == live[live.len() - 1]);
            assert(live[at].token != live[live.len() - 1].token);
        } else {
            assert(after[i] == live[i]);
            if i < at {
                assert(live[i].token != live[at].token);
            } else {
                assert(live[at].token != live[i].token);
            }
        }
    }
    assert forall|other: Seq<char>|
        other != token && #[trigger] is_live(open, other, now) implies is_live(
        after,
        other,
        now,
    ) by {
        lemma_live_is_open(open, other, now);
        let i = choose|i: int| 0 <= i < live.len() && (#[trigger] live[i]).token == other;
        if i == live.len() - 1 {
            assert(after[at].token == other && now < after[at].expires);
        } else {
            assert(after[i].token == other && now < after[i].expires);
        }
    }
}

/// An expired invitation does not redeem: a token whose every invitation has
/// expired by `now` is not open.
pub proof fn law_expired_tokens_do_not_redeem(open: Seq<InvitationView>, token: Seq<char>, now: i64)
    requires
        forall|i: int|
            0 <= i < open.len() && (#[trigger] open[i]).token == token ==> open[i].expires <= now,
    ensures
        !is_live(open, token, now),
        redeemed(pruned(open, now), token) == pruned(open, now),
{
    lemma_live_is_open(open, token, now);
    let live = pruned(open, now);
    lemma_token_from(live, token, 0);
    if token_from(live, token, 0) is Some {
        assert(live[token_from(live, token, 0)->0].token == token);
    }
}


/// Only expired invitations are pruned: those whose second has not come stay,
/// in order, as they are.
pub proof fn law_only_the_expired_are_pruned(open: Seq<InvitationView>, now: i64, later: i64)
    ensures
        pruned(open, now) == open.filter(|invitation: InvitationView| now < invitation.expires),
        now <= later ==> pruned(pruned(open, now), later) == pruned(open, later),
    decreases open.len(),
{
    reveal(Seq::filter);
    if open.len() > 0 {
        law_only_the_expired_are_pruned(open.drop_last(), now, later);
        if now < open.last().expires {
            assert(pruned(open, now).drop_last() =~= pruned(open.drop_last(), now));
            assert(pruned(open, now).last() == open.last());
        }
    }
}

/// An invitation lasts as long as was asked: it is live at every second from
/// its minting to just before its expiry, and never after.
pub proof fn law_an_invitation_lasts_its_time(now: i64, ttl_secs: i64, at: i64)
    requires
        ttl_secs >= 0,
    ensures
        expiry(now, ttl_secs) >= now,
        now + ttl_secs <= i64::MAX ==> (at < expiry(now, ttl_secs) <==> at - now < ttl_secs),
{
}

/// Six bits at a time, four characters hold what three bytes do: read as one
/// number, each group of four stands for the number its three bytes are.
pub proof fn law_four_characters_hold_three_bytes(bytes: Seq<u8>, g: int)
    requires
        0 <= g,
    ensures
        ((sextet(bytes, 4 * g) * 64 + sextet(bytes, 4 * g + 1)) * 64 + sextet(bytes, 4 * g + 2))
            * 64 + sextet(bytes, 4 * g + 3) == (byte_at(bytes, 3 * g) * 256 + byte_at(
            bytes,
            3 * g + 1,
        )) * 256 + byte_at(bytes, 3 * g + 2),
        0 <= sextet(bytes, 4 * g) < 64,
        0 <= sextet(bytes, 4 * g + 1) < 64,
        0 <= sextet(bytes, 4 * g + 2) < 64,
        0 <= sextet(bytes, 4 * g + 3) < 64,
        base64url(bytes).len() * 6 >= bytes.len() * 8,
        base64url(bytes).len() * 6 < bytes.len() * 8 + 6,
{
    let b0 = byte_at(bytes, 3 * g);
    let b1 = byte_at(bytes, 3 * g + 1);
    let b2 = byte_at(bytes, 3 * g + 2);
    assert((4 * g) / 4 == g && (4 * g) % 4 == 0);
    assert((4 * g + 1) / 4 == g && (4 * g + 1) % 4 == 1);
    assert((4 * g + 2) / 4 == g && (4 * g + 2) % 4 == 2);
    assert((4 * g + 3) / 4 == g && (4 * g + 3) % 4 == 3);
    assert(0 <= b0 < 256 && 0 <= b1 < 256 && 0 <= b2 < 256);
}
} // verus!
