//! The steward's and the relay's half of routing: what a request that
//! arrives is answered with, whom it is forwarded to, and what a requester
//! that tried everyone is told.

use vstd::prelude::*;
use crate::operations::ladder;
use crate::seam::{Address, ErrorView, NodeId, SeamError};
use super::protocol;
use super::protocol::{RouteBody, RouteReply, RouteRequest, RouteResponse};

verus! {

/// Most roster stewards of one host dialed directly for one request.
pub const STEWARDS_TRIED_MAX: usize = 4;

/// Most session peers asked to relay one request after every steward failed.
pub const RELAY_PEERS_MAX: usize = 4;

/// Where a host is served.
#[derive(Debug, PartialEq, Eq)]
pub enum Location {
    /// By a connection of this node.
    Local,
    /// By these nodes, in roster order.
    Remote(Vec<NodeId>),
    Unknown,
}

/// A list without one node.
pub open spec fn others(nodes: Seq<NodeId>, me: NodeId) -> Seq<NodeId>
    decreases nodes.len(),
{
    if nodes.len() == 0 {
        Seq::empty()
    } else if nodes.last() == me {
        others(nodes.drop_last(), me)
    } else {
        others(nodes.drop_last(), me).push(nodes.last())
    }
}

/// Where a host is served: by this node when its registry says so, else by
/// the roster's stewards. A stale claim by this node itself is not a remote
/// steward: the registry is the truth about what this node serves.
pub fn locate(registered: bool, stewards: &Vec<NodeId>, me: NodeId) -> (r: Location)
    ensures
        match r {
            Location::Local => registered,
            Location::Remote(nodes) => !registered && nodes@ == others(stewards@, me)
                && nodes@.len() > 0,
            Location::Unknown => !registered && others(stewards@, me).len() == 0,
        },
{
    if registered {
        return Location::Local;
    }
    let mut nodes: Vec<NodeId> = Vec::new();
    let mut i: usize = 0;
    proof {
        assert(stewards@.take(0) =~= Seq::empty());
    }
    while i < stewards.len()
        invariant
            i <= stewards@.len(),
            nodes@ == others(stewards@.take(i as int), me),
        decreases stewards@.len() - i,
    {
        proof {
            assert(stewards@.take(i as int + 1).drop_last() =~= stewards@.take(i as int));
            assert(stewards@.take(i as int + 1).last() == stewards@[i as int]);
        }
        if !stewards[i].same(&me) {
            nodes.push(stewards[i]);
        }
        i = i + 1;
    }
    proof {
        assert(stewards@.take(stewards@.len() as int) =~= stewards@);
    }
    if nodes.len() == 0 {
        Location::Unknown
    } else {
        Location::Remote(nodes)
    }
}

/// What a node does with a well-formed request.
#[derive(Debug, Clone, Copy, PartialEq, Eq)]
pub enum Serving {
    /// Answer from its own index: a query is never forwarded.
    Query,
    /// Serve it from its own connection to the host.
    Local,
    /// Relay it.
    Relay,
}

/// What a request that already crossed this node is told.
pub open spec fn relay_loop(me: NodeId) -> Seq<char> {
    "route request already crossed node "@ + me.short_view() + " (a relay loop)"@
}

/// What a node does with a well-formed request, given whether it stewards
/// the host the request names.
pub fn serving(request: &RouteRequest, me: NodeId, registered: bool) -> (r: Result<
    Serving,
    SeamError,
>)
    ensures
        r is Err <==> request.visited@.contains(me),
        r matches Err(e) ==> e@ == ErrorView::Refused(relay_loop(me)),
        r matches Ok(serving) ==> serving == (if request.body is Query {
            Serving::Query
        } else if registered {
            Serving::Local
        } else {
            Serving::Relay
        }),
{
    if protocol::holds_node(&request.visited, &me) {
        let mut message = "route request already crossed node ".to_owned();
        message.append(me.short().as_str());
        message.append(" (a relay loop)");
        return Err(SeamError::Refused(message));
    }
    match request.body {
        RouteBody::Query { .. } => Ok(Serving::Query),
        _ => if registered {
            Ok(Serving::Local)
        } else {
            Ok(Serving::Relay)
        },
    }
}

// --- Relaying ---

/// The shown names of the first `n` nodes, with commas between.
pub open spec fn shorts(nodes: Seq<NodeId>, n: nat) -> Seq<char>
    decreases n,
{
    if n == 0 {
        Seq::empty()
    } else if n == 1 {
        nodes[0].short_view()
    } else {
        shorts(nodes, (n - 1) as nat) + ", "@ + nodes[n - 1].short_view()
    }
}

/// Who was tried, in words.
pub open spec fn tried_text(tried: Seq<NodeId>) -> Seq<char> {
    if tried.len() == 0 {
        "nobody"@
    } else {
        shorts(tried, tried.len())
    }
}

/// What a relay that could not reach a host says.
pub open spec fn cannot_reach(
    me: NodeId,
    host: Seq<char>,
    why: Seq<char>,
    tried: Seq<NodeId>,
) -> Seq<char> {
    "node "@ + me.short_view() + " cannot reach host `"@ + host + "`: "@ + why + " (tried "@
        + tried_text(tried) + ")"@
}

/// Whether a reply is a relay's "not through me", naming who it tried.
pub open spec fn is_unreachable_reply<P>(
    reply: RouteReply<P>,
    me: NodeId,
    host: Seq<char>,
    tried: Seq<NodeId>,
    why: Seq<char>,
) -> bool {
    reply matches RouteReply::Json(RouteResponse::Error { kind, message }) && kind@
        == protocol::ERROR_KIND_UNREACHABLE@ && message@ == cannot_reach(me, host, why, tried)
}

/// The relay's "not through me", naming who it tried so the requester's
/// error can say so.
pub fn unreachable_reply<P>(me: NodeId, host: &str, tried: &Vec<NodeId>, why: &str) -> (r:
    RouteReply<P>)
    ensures
        is_unreachable_reply(r, me, host@, tried@, why@),
        r.says_unreachable(),
{
    let mut list = String::new();
    let mut i: usize = 0;
    while i < tried.len()
        invariant
            i <= tried@.len(),
            list@ == shorts(tried@, i as nat),
        decreases tried@.len() - i,
    {
        if i > 0 {
            list.append(", ");
        }
        list.append(tried[i].short().as_str());
        proof {
            assert(list@ =~= shorts(tried@, (i + 1) as nat));
        }
        i = i + 1;
    }
    let mut message = "node ".to_owned();
    message.append(me.short().as_str());
    message.append(" cannot reach host `");
    message.append(host);
    message.append("`: ");
    message.append(why);
    message.append(" (tried ");
    if tried.len() == 0 {
        message.append("nobody");
    } else {
        message.append(list.as_str());
    }
    message.append(")");
    proof {
        assert(message@ =~= cannot_reach(me, host@, why@, tried@));
    }
    RouteReply::Json(
        RouteResponse::Error { kind: protocol::ERROR_KIND_UNREACHABLE.to_owned(), message },
    )
}

/// What a relay does with a request for a host it does not steward.
#[derive(Debug, PartialEq, Eq)]
pub enum RelayStep<P> {
    /// Say why not.
    Answer(RouteReply<P>),
    /// Forward this request.
    Forward(RouteRequest),
}

/// Forward a request for a host this node does not steward, or say why not:
/// no hops left, or this node does not relay. The forwarded request has one
/// hop less and names this node as crossed.
pub fn relay<P>(request: RouteRequest, me: NodeId, host: &str, relays: bool) -> (r: RelayStep<P>)
    ensures
        match r {
            RelayStep::Answer(reply) => (request.hops_remaining == 0 && is_unreachable_reply(
                reply,
                me,
                host@,
                Seq::empty(),
                "the hop limit is reached"@,
            )) || (request.hops_remaining > 0 && !relays && is_unreachable_reply(
                reply,
                me,
                host@,
                Seq::empty(),
                "this node does not relay"@,
            )),
            RelayStep::Forward(next) => request.hops_remaining > 0 && relays && next.hops_remaining
                == request.hops_remaining - 1 && next.visited@ == request.visited@.push(me)
                && next.body == request.body,
        },
{
    let nobody: Vec<NodeId> = Vec::new();
    if request.hops_remaining == 0 {
        return RelayStep::Answer(
            unreachable_reply(me, host, &nobody, "the hop limit is reached"),
        );
    }
    if !relays {
        return RelayStep::Answer(
            unreachable_reply(me, host, &nobody, "this node does not relay"),
        );
    }
    let mut visited = request.visited;
    visited.push(me);
    RelayStep::Forward(
        RouteRequest { hops_remaining: request.hops_remaining - 1, visited, body: request.body },
    )
}

/// A request crosses each node once and no more than its hops allow: while
/// the nodes crossed and the hops left make up the budget, forwarding keeps
/// them so, and a request that was well formed stays well formed.
pub proof fn law_forwarding_keeps_requests_well_formed(
    request: RouteRequest,
    next: RouteRequest,
    me: NodeId,
    hops_max: u32,
)
    requires
        request.refusal(hops_max) is None,
        request.visited@.len() + request.hops_remaining <= hops_max + 1,
        !request.visited@.contains(me),
        request.hops_remaining > 0,
        next.hops_remaining == request.hops_remaining - 1,
        next.visited@ == request.visited@.push(me),
        next.body == request.body,
    ensures
        next.refusal(hops_max) is None,
        next.visited@.len() + next.hops_remaining <= hops_max + 1,
{
    lemma_no_repeat_pushed(request.visited@, me, 0);
}

proof fn lemma_no_repeat_pushed(visited: Seq<NodeId>, me: NodeId, at: int)
    requires
        0 <= at <= visited.len(),
        protocol::first_repeat(visited, at) is None,
        !visited.contains(me),
    ensures
        protocol::first_repeat(visited.push(me), at) is None,
    decreases visited.len() - at,
{
    let longer = visited.push(me);
    if at < visited.len() {
        assert(longer[at] == visited[at]);
        if protocol::crossed(longer, longer[at], at) {
            let i = choose|i: int| 0 <= i < at && #[trigger] longer[i] == longer[at];
            assert(visited[i] == visited[at]);
            assert(protocol::crossed(visited, visited[at], at));
        }
        lemma_no_repeat_pushed(visited, me, at + 1);
    } else {
        if protocol::crossed(longer, me, at) {
            let i = choose|i: int| 0 <= i < at && #[trigger] longer[i] == me;
            assert(visited[i] == me);
        }
        assert(protocol::first_repeat(longer, at + 1) is None);
    }
}

// --- Whom a request is forwarded to ---

/// Whether a node may be tried: it is not this one, and the request has not
/// crossed it.
pub open spec fn may_try(node: NodeId, me: NodeId, visited: Seq<NodeId>) -> bool {
    node != me && !visited.contains(node)
}

/// The first nodes of a list that may be tried, at most `limit` of them.
pub open spec fn triable(
    nodes: Seq<NodeId>,
    me: NodeId,
    visited: Seq<NodeId>,
    limit: nat,
) -> Seq<NodeId>
    decreases nodes.len(),
{
    if nodes.len() == 0 {
        Seq::empty()
    } else {
        let before = triable(nodes.drop_last(), me, visited, limit);
        if before.len() < limit && may_try(nodes.last(), me, visited) {
            before.push(nodes.last())
        } else {
            before
        }
    }
}

/// The stewards of a host to dial directly, in roster order: those the
/// request has not crossed.
pub fn candidates(stewards: &Vec<NodeId>, me: NodeId, visited: &Vec<NodeId>) -> (r: Vec<NodeId>)
    ensures
        r@ == triable(stewards@, me, visited@, STEWARDS_TRIED_MAX as nat),
        r@.len() <= STEWARDS_TRIED_MAX,
        forall|i: int| 0 <= i < r@.len() ==> may_try(#[trigger] r@[i], me, visited@),
{
    let mut out: Vec<NodeId> = Vec::new();
    let mut i: usize = 0;
    proof {
        assert(stewards@.take(0) =~= Seq::empty());
    }
    while i < stewards.len()
        invariant
            i <= stewards@.len(),
            out@ == triable(
                stewards@.take(i as int),
                me,
                visited@,
                STEWARDS_TRIED_MAX as nat,
            ),
            out@.len() <= STEWARDS_TRIED_MAX,
            forall|k: int| 0 <= k < out@.len() ==> may_try(#[trigger] out@[k], me, visited@),
        decreases stewards@.len() - i,
    {
        proof {
            assert(stewards@.take(i as int + 1).drop_last() =~= stewards@.take(i as int));
            assert(stewards@.take(i as int + 1).last() == stewards@[i as int]);
        }
        let node = stewards[i];
        if out.len() < STEWARDS_TRIED_MAX && !node.same(&me) && !protocol::holds_node(
            visited,
            &node,
        ) {
            out.push(node);
        }
        i = i + 1;
    }
    proof {
        assert(stewards@.take(stewards@.len() as int) =~= stewards@);
    }
    out
}

/// The first distinct session peers that may be tried and have not been, at
/// most `limit` of them.
pub open spec fn relayable(
    sessions: Seq<NodeId>,
    me: NodeId,
    visited: Seq<NodeId>,
    tried: Seq<NodeId>,
    limit: nat,
) -> Seq<NodeId>
    decreases sessions.len(),
{
    if sessions.len() == 0 {
        Seq::empty()
    } else {
        let before = relayable(sessions.drop_last(), me, visited, tried, limit);
        let node = sessions.last();
        if before.len() < limit && may_try(node, me, visited) && !tried.contains(node)
            && !before.contains(node) {
            before.push(node)
        } else {
            before
        }
    }
}

/// The peers with a live session to ask next, each once: those the request
/// has not crossed and that were not tried as stewards.
pub fn relays(
    sessions: &Vec<NodeId>,
    me: NodeId,
    visited: &Vec<NodeId>,
    tried: &Vec<NodeId>,
) -> (r: Vec<NodeId>)
    ensures
        r@ == relayable(sessions@, me, visited@, tried@, RELAY_PEERS_MAX as nat),
        r@.len() <= RELAY_PEERS_MAX,
        r@.no_duplicates(),
        forall|i: int|
            0 <= i < r@.len() ==> may_try(#[trigger] r@[i], me, visited@) && !tried@.contains(
                r@[i],
            ),
{
    let mut out: Vec<NodeId> = Vec::new();
    let mut i: usize = 0;
    proof {
        assert(sessions@.take(0) =~= Seq::empty());
    }
    while i < sessions.len()
        invariant
            i <= sessions@.len(),
            out@ == relayable(
                sessions@.take(i as int),
                me,
                visited@,
                tried@,
                RELAY_PEERS_MAX as nat,
            ),
            out@.len() <= RELAY_PEERS_MAX,
            out@.no_duplicates(),
            forall|k: int|
                0 <= k < out@.len() ==> may_try(#[trigger] out@[k], me, visited@)
                    && !tried@.contains(out@[k]),
        decreases sessions@.len() - i,
    {
        proof {
            assert(sessions@.take(i as int + 1).drop_last() =~= sessions@.take(i as int));
            assert(sessions@.take(i as int + 1).last() == sessions@[i as int]);
        }
        let node = sessions[i];
        if out.len() < RELAY_PEERS_MAX && !node.same(&me) && !protocol::holds_node(
            visited,
            &node,
        ) && !protocol::holds_node(tried, &node) && !protocol::holds_node(&out, &node) {
            let ghost before = out@;
            out.push(node);
            proof {
                assert forall|a: int, b: int|
                    0 <= a < out@.len() && 0 <= b < out@.len() && a != b implies out@[a]
                    != out@[b] by {
                    if a < before.len() && b < before.len() {
                        assert(before[a] != before[b]);
                    } else if a < before.len() {
                        assert(before.contains(before[a]));
                    } else {
                        assert(before.contains(before[b]));
                    }
                }
            }
        }
        i = i + 1;
    }
    proof {
        assert(sessions@.take(sessions@.len() as int) =~= sessions@);
    }
    out
}

/// What one exchange with a candidate came to.
#[derive(Debug, PartialEq, Eq)]
pub enum Exchange<P> {
    /// The candidate is not in the roster, or looking it up failed.
    NotInRoster,
    /// It did not answer.
    Silent,
    /// It answered nonsense.
    Garbled,
    /// It answered.
    Replied(RouteReply<P>),
}

/// The answer of a candidate, or none when the next one is to be tried: a
/// candidate that says the host is unreachable through it has not answered
/// for the host.
pub fn taken<P>(exchange: Exchange<P>) -> (r: Option<RouteReply<P>>)
    ensures
        r == (match exchange {
            Exchange::Replied(reply) => if reply.says_unreachable() {
                None
            } else {
                Some(reply)
            },
            _ => None,
        }),
{
    match exchange {
        Exchange::Replied(reply) => if reply.is_unreachable() {
            None
        } else {
            Some(reply)
        },
        _ => None,
    }
}

/// One forwarding in flight: whom to ask next, and who was asked.
pub struct Forwarding {
    me: NodeId,
    visited: Vec<NodeId>,
    waiting: Vec<NodeId>,
    tried: Vec<NodeId>,
    relaying: bool,
}

/// What a forwarding holds.
#[verifier::ext_equal]
pub struct ForwardingView {
    pub me: NodeId,
    /// The nodes the request has crossed.
    pub visited: Seq<NodeId>,
    /// Candidates still to ask, the next one last.
    pub waiting: Seq<NodeId>,
    pub tried: Seq<NodeId>,
    /// Whether the session peers have been brought in.
    pub relaying: bool,
}

impl View for Forwarding {
    type V = ForwardingView;

    closed spec fn view(&self) -> ForwardingView {
        ForwardingView {
            me: self.me,
            visited: self.visited@,
            waiting: self.waiting@,
            tried: self.tried@,
            relaying: self.relaying,
        }
    }
}

impl ForwardingView {
    /// What a forwarding keeps: everyone asked or to be asked may be tried,
    /// and no more than the bounds allow.
    pub open spec fn wf(self) -> bool {
        &&& self.tried.len() + self.waiting.len() <= if self.relaying {
            STEWARDS_TRIED_MAX + RELAY_PEERS_MAX
        } else {
            STEWARDS_TRIED_MAX as int
        }
        &&& forall|i: int|
            0 <= i < self.tried.len() ==> may_try(#[trigger] self.tried[i], self.me, self.visited)
        &&& forall|i: int|
            0 <= i < self.waiting.len() ==> may_try(
                #[trigger] self.waiting[i],
                self.me,
                self.visited,
            )
    }

    /// The forwarding once its next candidate is asked.
    pub open spec fn asked(self) -> ForwardingView {
        ForwardingView {
            waiting: self.waiting.drop_last(),
            tried: self.tried.push(self.waiting.last()),
            ..self
        }
    }
}

/// A list the other way round.
fn reversed(nodes: &Vec<NodeId>) -> (r: Vec<NodeId>)
    ensures
        r@ == nodes@.reverse(),
{
    let mut out: Vec<NodeId> = Vec::new();
    let mut i: usize = nodes.len();
    while i > 0
        invariant
            i <= nodes@.len(),
            out@.len() == nodes@.len() - i,
            forall|j: int|
                0 <= j < out@.len() ==> #[trigger] out@[j] == nodes@[nodes@.len() - 1 - j],
        decreases i,
    {
        i = i - 1;
        out.push(nodes[i]);
    }
    proof {
        assert(out@ =~= nodes@.reverse());
    }
    out
}

impl Forwarding {
    /// A forwarding that starts with the host's stewards.
    pub fn to_stewards(stewards: &Vec<NodeId>, me: NodeId, visited: Vec<NodeId>) -> (r: Forwarding)
        ensures
            r@ == (ForwardingView {
                me,
                visited: visited@,
                waiting: triable(
                    stewards@,
                    me,
                    visited@,
                    STEWARDS_TRIED_MAX as nat,
                ).reverse(),
                tried: Seq::empty(),
                relaying: false,
            }),
            r@.wf(),
    {
        let first = candidates(stewards, me, &visited);
        let waiting = reversed(&first);
        let ghost crossed = visited@;
        let forwarding = Forwarding {
            me,
            visited,
            waiting,
            tried: Vec::new(),
            relaying: false,
        };
        proof {
            assert forall|i: int| 0 <= i < forwarding@.waiting.len() implies may_try(
                #[trigger] forwarding@.waiting[i],
                me,
                crossed,
            ) by {
                assert(forwarding@.waiting[i] == first@[first@.len() - 1 - i]);
            }
            assert(forwarding@.tried =~= Seq::empty());
        }
        forwarding
    }

    /// Whom to ask next; whoever is asked counts as tried.
    pub fn next(&mut self) -> (r: Option<NodeId>)
        requires
            old(self)@.wf(),
        ensures
            r is Some <==> old(self)@.waiting.len() > 0,
            r matches Some(node) ==> node == old(self)@.waiting.last() && final(self)@ == old(
                self,
            )@.asked(),
            r is None ==> final(self)@ == old(self)@,
            final(self)@.wf(),
    {
        let ghost before = self@;
        match self.waiting.pop() {
            Some(node) => {
                self.tried.push(node);
                proof {
                    assert(before.waiting[before.waiting.len() - 1] == node);
                    assert(self@ =~= before.asked());
                    assert forall|i: int| 0 <= i < self@.waiting.len() implies may_try(
                        #[trigger] self@.waiting[i],
                        self@.me,
                        self@.visited,
                    ) by {
                        assert(self@.waiting[i] == before.waiting[i]);
                    }
                    assert forall|i: int| 0 <= i < self@.tried.len() implies may_try(
                        #[trigger] self@.tried[i],
                        self@.me,
                        self@.visited,
                    ) by {
                        if i < before.tried.len() {
                            assert(self@.tried[i] == before.tried[i]);
                        }
                    }
                }
                Some(node)
            },
            None => {
                proof {
                    assert(self@ =~= before);
                }
                None
            },
        }
    }

    /// Bring in the session peers, once every steward has failed.
    pub fn to_relays(&mut self, sessions: &Vec<NodeId>)
        requires
            old(self)@.wf(),
            !old(self)@.relaying,
            old(self)@.waiting.len() == 0,
        ensures
            final(self)@ == (ForwardingView {
                waiting: relayable(
                    sessions@,
                    old(self)@.me,
                    old(self)@.visited,
                    old(self)@.tried,
                    RELAY_PEERS_MAX as nat,
                ).reverse(),
                relaying: true,
                ..old(self)@
            }),
            final(self)@.wf(),
    {
        let ghost before = self@;
        let next = relays(sessions, self.me, &self.visited, &self.tried);
        self.waiting = reversed(&next);
        self.relaying = true;
        proof {
            assert forall|i: int| 0 <= i < self@.waiting.len() implies may_try(
                #[trigger] self@.waiting[i],
                self@.me,
                self@.visited,
            ) by {
                assert(self@.waiting[i] == next@[next@.len() - 1 - i]);
            }
            assert forall|i: int| 0 <= i < self@.tried.len() implies may_try(
                #[trigger] self@.tried[i],
                self@.me,
                self@.visited,
            ) by {
                assert(self@.tried[i] == before.tried[i]);
            }
        }
    }

    /// Who was asked, in order.
    pub fn into_tried(self) -> (r: Vec<NodeId>)
        ensures
            r@ == self@.tried,
    {
        self.tried
    }
}

/// A requester asks a bounded number of nodes, never itself, and never one
/// its request has already crossed.
pub proof fn law_forwarding_is_bounded(forwarding: ForwardingView, i: int)
    requires
        forwarding.wf(),
        0 <= i < forwarding.tried.len(),
    ensures
        forwarding.tried.len() <= STEWARDS_TRIED_MAX + RELAY_PEERS_MAX,
        forwarding.tried[i] != forwarding.me,
        !forwarding.visited.contains(forwarding.tried[i]),
{
    assert(may_try(forwarding.tried[i], forwarding.me, forwarding.visited));
}

/// What a routed request comes to on the requester's side: a steward's typed
/// error comes back as the error it names, and any other reply is served.
pub fn routed<P>(body: &RouteBody, reply: RouteReply<P>) -> (r: Result<RouteReply<P>, SeamError>)
    ensures
        match reply {
            RouteReply::Json(RouteResponse::Error { kind, message }) => r matches Err(e) && e@
                == protocol::from_wire(protocol::body_address(*body), kind@, message@),
            _ => r == Ok::<RouteReply<P>, SeamError>(reply),
        },
{
    match reply {
        RouteReply::Json(RouteResponse::Error { kind, message }) => Err(
            protocol::error_from_wire(body, kind.as_str(), message),
        ),
        served => Ok(served),
    }
}

/// The text a read is answered with; any other shape is a mismatch, named.
pub fn text_reply<P>(operation: &str, reply: RouteReply<P>) -> (r: Result<String, SeamError>)
    ensures
        match reply {
            RouteReply::Json(RouteResponse::Text(text)) => r == Ok::<String, SeamError>(text),
            _ => r matches Err(e) && e@ == ErrorView::Failed(
                "routed "@ + operation@ + " was answered with "@ + protocol::shape_of(reply),
            ),
        },
{
    match reply {
        RouteReply::Json(RouteResponse::Text(text)) => Ok(text),
        other => Err(protocol::unexpected_reply(operation, &other)),
    }
}

/// The bytes a fetch is answered with; any other shape is a mismatch, named.
pub fn bytes_reply<P>(operation: &str, reply: RouteReply<P>) -> (r: Result<Vec<u8>, SeamError>)
    ensures
        match reply {
            RouteReply::Bytes(bytes) => r == Ok::<Vec<u8>, SeamError>(bytes),
            _ => r matches Err(e) && e@ == ErrorView::Failed(
                "routed "@ + operation@ + " was answered with "@ + protocol::shape_of(reply),
            ),
        },
{
    match reply {
        RouteReply::Bytes(bytes) => Ok(bytes),
        other => Err(protocol::unexpected_reply(operation, &other)),
    }
}

/// The envelope a description is answered with; any other shape is a
/// mismatch, named.
pub fn envelope_reply<P>(operation: &str, reply: RouteReply<P>) -> (r: Result<P, SeamError>)
    ensures
        match reply {
            RouteReply::Json(RouteResponse::Envelope(envelope)) => r == Ok::<P, SeamError>(envelope),
            _ => r matches Err(e) && e@ == ErrorView::Failed(
                "routed "@ + operation@ + " was answered with "@ + protocol::shape_of(reply),
            ),
        },
{
    match reply {
        RouteReply::Json(RouteResponse::Envelope(envelope)) => Ok(envelope),
        other => Err(protocol::unexpected_reply(operation, &other)),
    }
}

/// The expansion an expand is answered with; any other shape is a mismatch,
/// named.
pub fn expand_reply<P>(operation: &str, reply: RouteReply<P>) -> (r: Result<P, SeamError>)
    ensures
        match reply {
            RouteReply::Json(RouteResponse::Expand(expansion)) => r == Ok::<P, SeamError>(expansion),
            _ => r matches Err(e) && e@ == ErrorView::Failed(
                "routed "@ + operation@ + " was answered with "@ + protocol::shape_of(reply),
            ),
        },
{
    match reply {
        RouteReply::Json(RouteResponse::Expand(expansion)) => Ok(expansion),
        other => Err(protocol::unexpected_reply(operation, &other)),
    }
}

// --- The requester's side ---

/// How a request for a host starts out.
#[derive(Debug, PartialEq, Eq)]
pub enum RouteStart {
    /// Serve it here.
    Serve(RouteBody),
    /// Carry this request to the stewards.
    Forward(RouteRequest, Vec<NodeId>),
}

/// How a request starts out: served here when this node stewards the host,
/// carried to the stewards with the whole hop budget and this node as the
/// requester otherwise, and refused when nobody stewards the host.
pub fn start_route(body: RouteBody, host: &str, location: Location, me: NodeId, hops_max: u32) -> (r:
    Result<RouteStart, SeamError>)
    ensures
        match location {
            Location::Local => r == Ok::<RouteStart, SeamError>(RouteStart::Serve(body)),
            Location::Remote(stewards) => r matches Ok(RouteStart::Forward(request, to))
                && request.hops_remaining == hops_max && request.visited@ == seq![me]
                && request.body == body && to == stewards,
            Location::Unknown => r matches Err(e) && e@ == ErrorView::UnknownHost(host@),
        },
{
    match location {
        Location::Local => Ok(RouteStart::Serve(body)),
        Location::Remote(stewards) => {
            let mut visited: Vec<NodeId> = Vec::new();
            visited.push(me);
            proof {
                assert(visited@ =~= seq![me]);
            }
            Ok(RouteStart::Forward(RouteRequest { hops_remaining: hops_max, visited, body }, stewards))
        },
        Location::Unknown => Err(SeamError::UnknownHost(host.to_owned())),
    }
}

/// What a requester whom nobody answered is told: who was tried.
pub fn nobody_answered(host: &str, tried: Vec<NodeId>) -> (r: SeamError)
    ensures
        r@ == (ErrorView::Unreachable { host: host@, tried: tried@ }),
{
    SeamError::Unreachable { host: host.to_owned(), tried }
}

/// A request as it starts out is well formed when its body is, and holds the
/// whole hop budget, so that every hop of it is well formed too.
pub proof fn law_routes_start_well_formed(request: RouteRequest, me: NodeId, hops_max: u32)
    requires
        request.hops_remaining == hops_max,
        request.visited@ == seq![me],
        request.body.refusal() is None,
    ensures
        request.refusal(hops_max) is None,
        request.visited@.len() + request.hops_remaining <= hops_max + 1,
{
    assert(protocol::first_repeat(request.visited@, 1) is None);
    assert(!protocol::crossed(request.visited@, me, 0));
}

// --- The steward's side ---

/// What a steward reads for a body.
#[derive(Debug, PartialEq, Eq)]
pub enum LocalRead {
    Text(Address),
    Lines { address: Address, start: u64, end: u64 },
    Bytes(Address),
    Describe(Address),
    Expand(Address),
    Scan { address: Address, start: u64, end: u64 },
    Query { text: String, limit: usize },
}

/// What a steward reads for a body: a range of lines is checked again, since
/// the steward never trusts the requester, and a query's limit is clamped.
pub fn local_read(body: RouteBody) -> (r: Result<LocalRead, SeamError>)
    ensures
        match body {
            RouteBody::ReadText { address } => r == Ok::<LocalRead, SeamError>(
                LocalRead::Text(address),
            ),
            RouteBody::ReadLines { address, start, end } => if ladder::is_line_range(start, end) {
                r == Ok::<LocalRead, SeamError>(LocalRead::Lines { address, start, end })
            } else {
                r matches Err(e) && e@ == (ErrorView::ScanRange { start, end })
            },
            RouteBody::ReadBytes { address } => r == Ok::<LocalRead, SeamError>(
                LocalRead::Bytes(address),
            ),
            RouteBody::Describe { address } => r == Ok::<LocalRead, SeamError>(
                LocalRead::Describe(address),
            ),
            RouteBody::Expand { address } => r == Ok::<LocalRead, SeamError>(
                LocalRead::Expand(address),
            ),
            RouteBody::Scan { address, start, end } => r == Ok::<LocalRead, SeamError>(
                LocalRead::Scan { address, start, end },
            ),
            RouteBody::Query { text, limit } => r matches Ok(LocalRead::Query { text: asked, limit: most })
                && asked == text && most == (if limit < 1 {
                1
            } else if limit > ladder::QUERY_LIMIT_MAX {
                ladder::QUERY_LIMIT_MAX as int
            } else {
                limit as int
            }),
        },
{
    match body {
        RouteBody::ReadText { address } => Ok(LocalRead::Text(address)),
        RouteBody::ReadLines { address, start, end } => match ladder::check_line_range(start, end) {
            Err(e) => Err(e),
            Ok(_) => Ok(LocalRead::Lines { address, start, end }),
        },
        RouteBody::ReadBytes { address } => Ok(LocalRead::Bytes(address)),
        RouteBody::Describe { address } => Ok(LocalRead::Describe(address)),
        RouteBody::Expand { address } => Ok(LocalRead::Expand(address)),
        RouteBody::Scan { address, start, end } => Ok(LocalRead::Scan { address, start, end }),
        RouteBody::Query { text, limit } => Ok(
            LocalRead::Query { text, limit: ladder::clamp_query_limit(limit as usize) },
        ),
    }
}

/// The reply to a byte read: the bytes, unless what came back does not fit
/// one message.
pub fn served_bytes<P>(address: &Address, bytes: Vec<u8>, limit: u64) -> (r: Result<
    RouteReply<P>,
    SeamError,
>)
    ensures
        r is Ok <==> bytes@.len() <= limit,
        r matches Ok(reply) ==> reply == RouteReply::<P>::Bytes(bytes),
        r matches Err(e) ==> e@ == (ErrorView::FetchTooLarge {
            address: address@,
            bytes: bytes@.len() as u64,
            limit,
        }),
{
    match ladder::check_bytes_read(address, bytes.len() as u64, limit) {
        Err(e) => Err(e),
        Ok(_) => Ok(RouteReply::Bytes(bytes)),
    }
}

/// The reply to a request, whatever serving it came to: an error on this
/// node's side becomes an error reply, so the requester always hears
/// something. The error comes with the sentence it displays.
pub fn answered<P>(served: Result<RouteReply<P>, (SeamError, String)>) -> (r: RouteReply<P>)
    ensures
        match served {
            Ok(reply) => r == reply,
            Err((error, shown)) => r matches RouteReply::Json(
                RouteResponse::Error { kind, message },
            ) && kind@ == protocol::kind_view(error@) && message == shown,
        },
{
    match served {
        Ok(reply) => reply,
        Err((error, shown)) => RouteReply::Json(protocol::error_response(&error, shown)),
    }
}

proof fn lemma_triable(nodes: Seq<NodeId>, me: NodeId, visited: Seq<NodeId>, limit: nat)
    ensures
        triable(nodes, me, visited, limit) == cut(
            nodes.filter(|node: NodeId| node != me && !visited.contains(node)),
            limit,
        ),
    decreases nodes.len(),
{
    let worth = |node: NodeId| node != me && !visited.contains(node);
    reveal(Seq::filter);
    if nodes.len() > 0 {
        lemma_triable(nodes.drop_last(), me, visited, limit);
        let before = nodes.drop_last().filter(worth);
        if worth(nodes.last()) && before.len() >= limit {
            assert(before.push(nodes.last()).take(limit as int) =~= before.take(limit as int));
        }
        if worth(nodes.last()) && before.len() < limit && before.len() + 1 > limit {
            assert(before.push(nodes.last()).take(limit as int) =~= before.push(nodes.last()));
        }
    }
}

/// The first `limit` of a list, or all of it.
pub open spec fn cut(nodes: Seq<NodeId>, limit: nat) -> Seq<NodeId> {
    if nodes.len() <= limit {
        nodes
    } else {
        nodes.take(limit as int)
    }
}

/// The stewards dialed are the first of those worth dialing: all stewards
/// but this node and the nodes the request has crossed, in roster order, as
/// many as are tried.
pub proof fn law_the_first_stewards_are_dialed(
    stewards: Seq<NodeId>,
    me: NodeId,
    visited: Seq<NodeId>,
    limit: nat,
)
    ensures
        ({
            let dialed = triable(stewards, me, visited, limit);
            let worth = stewards.filter(|node: NodeId| node != me && !visited.contains(node));
            &&& dialed.is_prefix_of(worth)
            &&& dialed.len() < worth.len() ==> dialed.len() == limit
        }),
{
    lemma_triable(stewards, me, visited, limit);
}

proof fn lemma_relayable_grows(
    sessions: Seq<NodeId>,
    me: NodeId,
    visited: Seq<NodeId>,
    tried: Seq<NodeId>,
    limit: nat,
    n: int,
)
    requires
        0 <= n <= sessions.len(),
    ensures
        relayable(sessions.take(n), me, visited, tried, limit).is_prefix_of(
            relayable(sessions, me, visited, tried, limit),
        ),
    decreases sessions.len(),
{
    if n < sessions.len() {
        let front = sessions.drop_last();
        lemma_relayable_grows(front, me, visited, tried, limit, n);
        assert(front.take(n) =~= sessions.take(n));
    } else {
        assert(sessions.take(n) =~= sessions);
    }
}

proof fn lemma_relayable(
    sessions: Seq<NodeId>,
    me: NodeId,
    visited: Seq<NodeId>,
    tried: Seq<NodeId>,
    limit: nat,
)
    ensures
        ({
            let asked = relayable(sessions, me, visited, tried, limit);
            &&& asked.len() <= limit
            &&& asked.no_duplicates()
            &&& forall|node: NodeId| #[trigger]
                asked.contains(node) ==> sessions.contains(node) && node != me && !visited.contains(
                    node,
                ) && !tried.contains(node)
            &&& forall|node: NodeId| #[trigger]
                sessions.contains(node) && node != me && !visited.contains(node)
                    && !tried.contains(node) && !asked.contains(node) ==> asked.len() == limit
        }),
    decreases sessions.len(),
{
    let asked = relayable(sessions, me, visited, tried, limit);
    if sessions.len() > 0 {
        let front = sessions.drop_last();
        lemma_relayable(front, me, visited, tried, limit);
        let before = relayable(front, me, visited, tried, limit);
        assert forall|node: NodeId| #[trigger] asked.contains(node) implies sessions.contains(node)
            && node != me && !visited.contains(node) && !tried.contains(node) by {
            let k = asked.index_of(node);
            if k < before.len() {
                assert(before[k] == node);
                assert(before.contains(node));
                let i = front.index_of(node);
                assert(sessions[i] == node);
            } else {
                assert(sessions[sessions.len() - 1] == node);
            }
        }
        assert forall|node: NodeId| #[trigger]
            sessions.contains(node) && node != me && !visited.contains(node) && !tried.contains(
                node,
            ) && !asked.contains(node) implies asked.len() == limit by {
            if before.contains(node) {
                let k = before.index_of(node);
                assert(asked[k] == node);
            }
            let i = sessions.index_of(node);
            if i < front.len() {
                assert(front[i] == node);
                assert(front.contains(node));
            } else if asked.len() > before.len() {
                assert(asked[before.len() as int] == node);
            }
        }
        assert(asked.no_duplicates()) by {
            assert forall|a: int, b: int|
                0 <= a < asked.len() && 0 <= b < asked.len() && a != b implies asked[a] != asked[b] by {
                if a < before.len() && b < before.len() {
                    assert(before[a] != before[b]);
                } else if a < before.len() {
                    assert(before.contains(before[a]));
                } else if b < before.len() {
                    assert(before.contains(before[b]));
                }
            }
        }
    }
}

/// The relays asked are the session peers worth asking, each once, in the
/// order their sessions stand: a peer is left out only for being this node,
/// crossed or tried, or for want of room, and a later session never takes
/// the place of an earlier one.
pub proof fn law_every_session_peer_may_relay(
    sessions: Seq<NodeId>,
    me: NodeId,
    visited: Seq<NodeId>,
    tried: Seq<NodeId>,
    limit: nat,
    n: int,
)
    requires
        0 <= n <= sessions.len(),
    ensures
        ({
            let asked = relayable(sessions, me, visited, tried, limit);
            &&& asked.no_duplicates()
            &&& asked.len() <= limit
            &&& forall|node: NodeId| #[trigger]
                asked.contains(node) ==> sessions.contains(node) && node != me && !visited.contains(
                    node,
                ) && !tried.contains(node)
            &&& forall|node: NodeId| #[trigger]
                sessions.contains(node) && node != me && !visited.contains(node)
                    && !tried.contains(node) && !asked.contains(node) ==> asked.len() == limit
            &&& relayable(sessions.take(n), me, visited, tried, limit).is_prefix_of(asked)
        }),
{
    lemma_relayable(sessions, me, visited, tried, limit);
    lemma_relayable_grows(sessions, me, visited, tried, limit, n);
}

/// A host's remote stewards are all of them but this node, in roster order,
/// and those tried are named in the order they were, with commas between.
pub proof fn law_remote_stewards_are_the_others(nodes: Seq<NodeId>, me: NodeId, n: nat)
    requires
        n <= nodes.len(),
    ensures
        others(nodes, me) == nodes.filter(|node: NodeId| node != me),
        shorts(nodes, n) == crate::text::joined(
            nodes.take(n as int).map_values(|node: NodeId| node.short_view()),
            ", "@,
        ),
{
    lemma_others_are_filtered(nodes, me);
    lemma_shorts_are_joined(nodes, n);
}

proof fn lemma_others_are_filtered(nodes: Seq<NodeId>, me: NodeId)
    ensures
        others(nodes, me) == nodes.filter(|node: NodeId| node != me),
    decreases nodes.len(),
{
    reveal(Seq::filter);
    if nodes.len() > 0 {
        lemma_others_are_filtered(nodes.drop_last(), me);
    }
}

proof fn lemma_shorts_are_joined(nodes: Seq<NodeId>, n: nat)
    requires
        n <= nodes.len(),
    ensures
        shorts(nodes, n) == crate::text::joined(
            nodes.take(n as int).map_values(|node: NodeId| node.short_view()),
            ", "@,
        ),
    decreases n,
{
    let shown = |node: NodeId| node.short_view();
    let all = nodes.take(n as int).map_values(shown);
    if n > 1 {
        lemma_shorts_are_joined(nodes, (n - 1) as nat);
        assert(all.drop_last() =~= nodes.take(n - 1).map_values(shown));
        assert(all.last() == nodes[n - 1].short_view());
    } else if n == 1 {
        assert(all[0] == nodes[0].short_view());
    }
}

/// Asking one candidate moves it from those waiting to those tried and
/// changes nothing else: tried, and then waiting, the next one first, they
/// are the same nodes in the same order throughout.
pub proof fn law_candidates_are_asked_in_turn(forwarding: ForwardingView)
    requires
        forwarding.waiting.len() > 0,
    ensures
        forwarding.asked().tried + forwarding.asked().waiting.reverse() == forwarding.tried
            + forwarding.waiting.reverse(),
        forwarding.asked().tried.len() == forwarding.tried.len() + 1,
        forwarding.tried.is_prefix_of(forwarding.asked().tried),
        forwarding.asked().me == forwarding.me,
        forwarding.asked().visited == forwarding.visited,
        forwarding.asked().relaying == forwarding.relaying,
{
    assert(forwarding.asked().tried + forwarding.asked().waiting.reverse() =~= forwarding.tried
        + forwarding.waiting.reverse());
}
} // verus!
