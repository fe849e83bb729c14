//! Fanning a query out: which nodes are asked, and what each one's answer
//! becomes. A fan-out reaches every target directly and is never relayed, so
//! no index is counted twice.

use vstd::prelude::*;
use crate::operations::ladder;
use crate::operations::merge;
use crate::operations::merge::{FanOutReply, QueryResult};
use crate::seam::NodeId;
use crate::text;
use super::protocol;
use super::protocol::{RouteBody, RouteReply, RouteRequest, RouteResponse};

verus! {

/// A roster node, as a fan-out reads it.
#[derive(Debug, Clone, Copy, PartialEq, Eq)]
pub struct FanOutNode {
    pub id: NodeId,
    pub deep_index: bool,
    pub always_on: bool,
}

/// Whether a node is worth asking: it is another one, and advertises a deep
/// index.
pub open spec fn is_target(node: FanOutNode, me: NodeId) -> bool {
    node.id != me && node.deep_index
}

/// The targets among the first `n` nodes that hold, or do not hold, a live
/// session and are, or are not, always on, in roster order.
pub open spec fn tier(
    nodes: Seq<FanOutNode>,
    live: Seq<NodeId>,
    me: NodeId,
    is_live: bool,
    always_on: bool,
    n: nat,
) -> Seq<usize>
    decreases n,
{
    if n == 0 {
        Seq::empty()
    } else {
        let before = tier(nodes, live, me, is_live, always_on, (n - 1) as nat);
        let node = nodes[n - 1];
        if is_target(node, me) && live.contains(node.id) == is_live && node.always_on == always_on {
            before.push((n - 1) as usize)
        } else {
            before
        }
    }
}

/// The targets in the order they are asked: those with a live session first,
/// then the always-on ones, then the rest, each in roster order.
pub open spec fn ranked(nodes: Seq<FanOutNode>, live: Seq<NodeId>, me: NodeId) -> Seq<usize> {
    tier(nodes, live, me, true, true, nodes.len()) + tier(nodes, live, me, true, false, nodes.len())
        + tier(nodes, live, me, false, true, nodes.len()) + tier(
        nodes,
        live,
        me,
        false,
        false,
        nodes.len(),
    )
}

fn push_tier(
    out: &mut Vec<usize>,
    nodes: &Vec<FanOutNode>,
    live: &Vec<NodeId>,
    me: NodeId,
    is_live: bool,
    always_on: bool,
)
    ensures
        final(out)@ == old(out)@ + tier(nodes@, live@, me, is_live, always_on, nodes@.len()),
{
    let ghost start = out@;
    let mut i: usize = 0;
    proof {
        assert(out@ =~= start + tier(nodes@, live@, me, is_live, always_on, 0));
    }
    while i < nodes.len()
        invariant
            i <= nodes@.len(),
            out@ == start + tier(nodes@, live@, me, is_live, always_on, i as nat),
        decreases nodes@.len() - i,
    {
        let node = nodes[i];
        if !node.id.same(&me) && node.deep_index && protocol::holds_node(live, &node.id) == is_live
            && node.always_on == always_on {
            out.push(i);
        }
        proof {
            assert(out@ =~= start + tier(
                nodes@,
                live@,
                me,
                is_live,
                always_on,
                (i + 1) as nat,
            ));
        }
        i = i + 1;
    }
}

/// The nodes a query fans out to: every other node advertising a deep index,
/// those with a live session first, then the always-on ones, then the rest
/// in roster order, held to the configured count.
pub fn fan_out_targets(
    nodes: &Vec<FanOutNode>,
    live: &Vec<NodeId>,
    me: NodeId,
    nodes_max: usize,
) -> (r: Vec<usize>)
    ensures
        r@ == merge::at_most(ranked(nodes@, live@, me), nodes_max),
        r@.len() <= nodes_max,
{
    let mut out: Vec<usize> = Vec::new();
    push_tier(&mut out, nodes, live, me, true, true);
    push_tier(&mut out, nodes, live, me, true, false);
    push_tier(&mut out, nodes, live, me, false, true);
    push_tier(&mut out, nodes, live, me, false, false);
    proof {
        assert(out@ =~= ranked(nodes@, live@, me));
    }
    if out.len() > nodes_max {
        out.truncate(nodes_max);
    }
    out
}

/// The request a fan-out sends each target: a query held to the limit one
/// serves, with no hops, for a query is never forwarded.
pub fn fan_out_request(text: &str, limit: usize, me: NodeId) -> (r: RouteRequest)
    ensures
        r.hops_remaining == 0,
        r.visited@ == seq![me],
        r.body matches RouteBody::Query { text: sent, limit: held } && sent@ == text@ && held == (
        if limit < 1 {
            1
        } else if limit > ladder::QUERY_LIMIT_MAX {
            ladder::QUERY_LIMIT_MAX
        } else {
            limit
        }),
{
    let held: usize = ladder::clamp_query_limit(limit);
    let mut visited: Vec<NodeId> = Vec::new();
    visited.push(me);
    proof {
        assert(visited@ =~= seq![me]);
    }
    RouteRequest {
        hops_remaining: 0,
        visited,
        body: RouteBody::Query { text: text.to_owned(), limit: held as u32 },
    }
}

/// What one exchange of a fan-out came to.
#[derive(Debug, PartialEq, Eq)]
pub enum FanOutOutcome<P> {
    /// The node did not answer in time.
    TimedOut,
    /// The exchange failed, or what came back did not decode.
    Failed(String),
    Answered(RouteReply<P>),
}

/// Why a node gave no results, if it gave none.
pub open spec fn why_none<P>(outcome: FanOutOutcome<P>, timeout_ms: u64) -> Option<Seq<char>> {
    match outcome {
        FanOutOutcome::TimedOut => Some(
            "timed out after "@ + text::decimal(timeout_ms as nat) + " ms"@,
        ),
        FanOutOutcome::Failed(reason) => Some(reason@),
        FanOutOutcome::Answered(RouteReply::Json(RouteResponse::Query(_))) => None,
        FanOutOutcome::Answered(RouteReply::Json(RouteResponse::Error { kind, message })) => Some(
            kind@ + ": "@ + message@,
        ),
        FanOutOutcome::Answered(_) => Some("answered with something other than results"@),
    }
}

/// The results an outcome brought.
pub open spec fn brought<P>(outcome: FanOutOutcome<P>) -> Seq<QueryResult<P>> {
    match outcome {
        FanOutOutcome::Answered(RouteReply::Json(RouteResponse::Query(results))) => results@,
        _ => Seq::empty(),
    }
}

/// One node's part in a fan-out: its results stamped with its id and held to
/// the bound, or the reason it gave none.
pub fn fan_out_reply<P>(
    node: NodeId,
    elapsed_ms: u64,
    outcome: FanOutOutcome<P>,
    timeout_ms: u64,
) -> (r: FanOutReply<P>)
    ensures
        r.node == node,
        r.elapsed_ms == elapsed_ms,
        crate::sweep::source::text_view(r.error) == why_none(outcome, timeout_ms),
        r.results@ == merge::at_most(brought(outcome), ladder::QUERY_LIMIT_MAX).map(
            |_i: int, result: QueryResult<P>| QueryResult { via: Some(node), ..result },
        ),
{
    let mut error: Option<String> = None;
    let mut results: Vec<QueryResult<P>> = Vec::new();
    let ghost given = outcome;
    match outcome {
        FanOutOutcome::TimedOut => {
            let mut message = "timed out after ".to_owned();
            message.append(text::number(timeout_ms).as_str());
            message.append(" ms");
            error = Some(message);
        },
        FanOutOutcome::Failed(reason) => {
            error = Some(reason);
        },
        FanOutOutcome::Answered(RouteReply::Json(RouteResponse::Query(found))) => {
            let mut found = found;
            if found.len() > ladder::QUERY_LIMIT_MAX {
                found.truncate(ladder::QUERY_LIMIT_MAX);
            }
            let ghost held = found@;
            for result in it: found
                invariant
                    it.seq() == held,
                    results@.len() == it.index(),
                    forall|i: int|
                        0 <= i < it.index() ==> #[trigger] results@[i] == (QueryResult {
                            via: Some(node),
                            ..held[i]
                        }),
            {
                let mut marked = result;
                marked.via = Some(node);
                results.push(marked);
            }
        },
        FanOutOutcome::Answered(RouteReply::Json(RouteResponse::Error { kind, message })) => {
            let mut reason = kind;
            reason.append(": ");
            reason.append(message.as_str());
            error = Some(reason);
        },
        FanOutOutcome::Answered(_) => {
            error = Some("answered with something other than results".to_owned());
        },
    }
    proof {
        assert(results@ =~= merge::at_most(brought(given), ladder::QUERY_LIMIT_MAX).map(
            |_i: int, result: QueryResult<P>| QueryResult { via: Some(node), ..result },
        ));
    }
    FanOutReply { node, results, elapsed_ms, error }
}

/// A fan-out asks no node twice and never itself: every target stands once
/// in the roster's list, is another node, and advertises a deep index.
pub proof fn law_targets_are_worth_asking(
    nodes: Seq<FanOutNode>,
    live: Seq<NodeId>,
    me: NodeId,
    i: int,
)
    requires
        nodes.len() <= usize::MAX,
        0 <= i < ranked(nodes, live, me).len(),
    ensures
        ranked(nodes, live, me)[i] < nodes.len(),
        is_target(nodes[ranked(nodes, live, me)[i] as int], me),
        forall|j: int|
            0 <= j < ranked(nodes, live, me).len() && j != i ==> #[trigger] ranked(
                nodes,
                live,
                me,
            )[j] != ranked(nodes, live, me)[i],
{
    let n = nodes.len();
    let a = tier(nodes, live, me, true, true, n);
    let b = tier(nodes, live, me, true, false, n);
    let c = tier(nodes, live, me, false, true, n);
    let d = tier(nodes, live, me, false, false, n);
    lemma_tier(nodes, live, me, true, true, n);
    lemma_tier(nodes, live, me, true, false, n);
    lemma_tier(nodes, live, me, false, true, n);
    lemma_tier(nodes, live, me, false, false, n);
    let all = ranked(nodes, live, me);
    assert(all == a + b + c + d);
    assert forall|k: int| 0 <= k < all.len() implies in_tier(
        nodes,
        live,
        me,
        #[trigger] all[k],
        k < a.len() + b.len(),
        k < a.len() || (a.len() + b.len() <= k < a.len() + b.len() + c.len()),
    ) by {
        if k < a.len() {
            assert(all[k] == a[k]);
        } else if k < a.len() + b.len() {
            assert(all[k] == b[k - a.len()]);
        } else if k < a.len() + b.len() + c.len() {
            assert(all[k] == c[k - a.len() - b.len()]);
        } else {
            assert(all[k] == d[k - a.len() - b.len() - c.len()]);
        }
    }
    assert(in_tier(
        nodes,
        live,
        me,
        all[i],
        i < a.len() + b.len(),
        i < a.len() || (a.len() + b.len() <= i < a.len() + b.len() + c.len()),
    ));
    assert forall|j: int| 0 <= j < all.len() && j != i implies #[trigger] all[j] != all[i] by {
        assert(in_tier(
            nodes,
            live,
            me,
            all[j],
            j < a.len() + b.len(),
            j < a.len() || (a.len() + b.len() <= j < a.len() + b.len() + c.len()),
        ));
        if all[j] == all[i] {
            if i < a.len() {
                assert(a[i] == a[j]);
            } else if i < a.len() + b.len() {
                assert(b[i - a.len()] == b[j - a.len()]);
            } else if i < a.len() + b.len() + c.len() {
                assert(c[i - a.len() - b.len()] == c[j - a.len() - b.len()]);
            } else {
                assert(d[i - a.len() - b.len() - c.len()] == d[j - a.len() - b.len() - c.len()]);
            }
        }
    }
}

/// Whether node `a` of the roster is asked before node `b`: for its live
/// session, else for being always on, else for standing first.
pub open spec fn asked_before(nodes: Seq<FanOutNode>, live: Seq<NodeId>, a: int, b: int) -> bool {
    let live_a = live.contains(nodes[a].id);
    let live_b = live.contains(nodes[b].id);
    ||| live_a && !live_b
    ||| live_a == live_b && nodes[a].always_on && !nodes[b].always_on
    ||| live_a == live_b && nodes[a].always_on == nodes[b].always_on && a < b
}

proof fn lemma_tier_holds(
    nodes: Seq<FanOutNode>,
    live: Seq<NodeId>,
    me: NodeId,
    at: int,
    n: nat,
)
    requires
        0 <= at < n <= nodes.len() <= usize::MAX,
        nodes[at].id != me,
        nodes[at].deep_index,
    ensures
        tier(
            nodes,
            live,
            me,
            live.contains(nodes[at].id),
            nodes[at].always_on,
            n,
        ).contains(at as usize),
    decreases n,
{
    let is_live = live.contains(nodes[at].id);
    let on = nodes[at].always_on;
    let now = tier(nodes, live, me, is_live, on, n);
    if at == n - 1 {
        assert(now[now.len() - 1] == at as usize);
    } else {
        lemma_tier_holds(nodes, live, me, at, (n - 1) as nat);
        let before = tier(nodes, live, me, is_live, on, (n - 1) as nat);
        let k = choose|k: int| 0 <= k < before.len() && before[k] == at as usize;
        assert(now[k] == at as usize);
    }
}

/// A fan-out asks the best of the nodes worth asking, in order, and leaves
/// one out only for want of room: every node asked is another one that
/// advertises a deep index; of two that are asked, the one with a live
/// session comes first, else the one that is always on, else the one that
/// stands first in the roster; and where such a node is not asked, the bound
/// is reached by nodes that all come before it.
pub proof fn law_the_best_targets_are_asked(
    nodes: Seq<FanOutNode>,
    live: Seq<NodeId>,
    me: NodeId,
    nodes_max: usize,
)
    requires
        nodes.len() <= usize::MAX,
    ensures
        ({
            let asked = merge::at_most(ranked(nodes, live, me), nodes_max);
            &&& asked.len() <= nodes_max
            &&& forall|i: int|
                0 <= i < asked.len() ==> (#[trigger] asked[i]) < nodes.len()
                    && nodes[asked[i] as int].id != me && nodes[asked[i] as int].deep_index
            &&& forall|i: int, j: int|
                0 <= i < j < asked.len() ==> asked_before(
                    nodes,
                    live,
                    #[trigger] asked[i] as int,
                    #[trigger] asked[j] as int,
                )
            &&& forall|t: int|
                0 <= t < nodes.len() && (#[trigger] nodes[t]).id != me && nodes[t].deep_index
                    && !asked.contains(t as usize) ==> asked.len() == nodes_max && forall|i: int|
                    0 <= i < asked.len() ==> asked_before(nodes, live, #[trigger] asked[i] as int, t)
        }),
{
    let n = nodes.len();
    let a = tier(nodes, live, me, true, true, n);
    let b = tier(nodes, live, me, true, false, n);
    let c = tier(nodes, live, me, false, true, n);
    let d = tier(nodes, live, me, false, false, n);
    lemma_tier(nodes, live, me, true, true, n);
    lemma_tier(nodes, live, me, true, false, n);
    lemma_tier(nodes, live, me, false, true, n);
    lemma_tier(nodes, live, me, false, false, n);
    let all = ranked(nodes, live, me);
    let asked = merge::at_most(all, nodes_max);
    let ab = (a.len() + b.len()) as int;
    let abc = (ab + c.len()) as int;
    assert(all == a + b + c + d);
    assert forall|k: int| 0 <= k < all.len() implies in_tier(
        nodes,
        live,
        me,
        #[trigger] all[k],
        k < ab,
        k < a.len() || ab <= k < abc,
    ) by {
        if k < a.len() {
            assert(all[k] == a[k]);
        } else if k < ab {
            assert(all[k] == b[k - a.len()]);
        } else if k < abc {
            assert(all[k] == c[k - ab]);
        } else {
            assert(all[k] == d[k - abc]);
        }
    }
    assert forall|i: int, j: int| 0 <= i < j < all.len() implies asked_before(
        nodes,
        live,
        #[trigger] all[i] as int,
        #[trigger] all[j] as int,
    ) by {
        assert(in_tier(nodes, live, me, all[i], i < ab, i < a.len() || ab <= i < abc));
        assert(in_tier(nodes, live, me, all[j], j < ab, j < a.len() || ab <= j < abc));
        if j < a.len() {
            assert(a[i] < a[j]);
        } else if a.len() <= i && j < ab {
            assert(b[i - a.len()] < b[j - a.len()]);
        } else if ab <= i && j < abc {
            assert(c[i - ab] < c[j - ab]);
        } else if abc <= i {
            assert(d[i - abc] < d[j - abc]);
        }
    }
    assert forall|i: int| 0 <= i < asked.len() implies #[trigger] asked[i] == all[i] by {}
    assert forall|t: int|
        0 <= t < nodes.len() && (#[trigger] nodes[t]).id != me && nodes[t].deep_index
            && !asked.contains(t as usize) implies asked.len() == nodes_max && forall|i: int|
        0 <= i < asked.len() ==> asked_before(nodes, live, #[trigger] asked[i] as int, t) by {
        lemma_tier_holds(nodes, live, me, t, n);
        let is_live = live.contains(nodes[t].id);
        let on = nodes[t].always_on;
        let mine = tier(nodes, live, me, is_live, on, n);
        let k = choose|k: int| 0 <= k < mine.len() && mine[k] == t as usize;
        let at = k + if is_live && on {
            0
        } else if is_live {
            a.len() as int
        } else if on {
            ab
        } else {
            abc
        };
        assert(all[at] == t as usize);
        if at < asked.len() {
            assert(asked[at] == t as usize);
        }
        assert forall|i: int| 0 <= i < asked.len() implies asked_before(
            nodes,
            live,
            #[trigger] asked[i] as int,
            t,
        ) by {
            assert(asked_before(nodes, live, all[i] as int, all[at] as int));
        }
    }
}

spec fn in_tier(
    nodes: Seq<FanOutNode>,
    live: Seq<NodeId>,
    me: NodeId,
    at: usize,
    is_live: bool,
    always_on: bool,
) -> bool {
    at < nodes.len() && is_target(nodes[at as int], me) && live.contains(nodes[at as int].id)
        == is_live && nodes[at as int].always_on == always_on
}

proof fn lemma_tier(
    nodes: Seq<FanOutNode>,
    live: Seq<NodeId>,
    me: NodeId,
    is_live: bool,
    always_on: bool,
    n: nat,
)
    requires
        n <= nodes.len() <= usize::MAX,
    ensures
        forall|k: int|
            0 <= k < tier(nodes, live, me, is_live, always_on, n).len() ==> in_tier(
                nodes,
                live,
                me,
                #[trigger] tier(nodes, live, me, is_live, always_on, n)[k],
                is_live,
                always_on,
            ) && tier(nodes, live, me, is_live, always_on, n)[k] < n,
        forall|k: int, l: int|
            0 <= k < l < tier(nodes, live, me, is_live, always_on, n).len() ==> #[trigger] tier(
                nodes,
                live,
                me,
                is_live,
                always_on,
                n,
            )[k] < #[trigger] tier(nodes, live, me, is_live, always_on, n)[l],
    decreases n,
{
    if n > 0 {
        lemma_tier(nodes, live, me, is_live, always_on, (n - 1) as nat);
        let before = tier(nodes, live, me, is_live, always_on, (n - 1) as nat);
        let now = tier(nodes, live, me, is_live, always_on, n);
        assert forall|k: int| 0 <= k < now.len() implies in_tier(
            nodes,
            live,
            me,
            #[trigger] now[k],
            is_live,
            always_on,
        ) && now[k] < n by {
            if k < before.len() {
                assert(now[k] == before[k]);
            }
        }
        assert forall|k: int, l: int| 0 <= k < l < now.len() implies #[trigger] now[k]
            < #[trigger] now[l] by {
            assert(now[k] == before[k]);
            if l < before.len() {
                assert(now[l] == before[l]);
            }
        }
    }
}


/// A node either gave results or is told of: it has a reason exactly when it
/// did not answer with results, and results only when it did.
pub proof fn law_a_silent_node_has_a_reason<P>(outcome: FanOutOutcome<P>, timeout_ms: u64)
    ensures
        why_none(outcome, timeout_ms) is None <==> (outcome matches FanOutOutcome::Answered(
            RouteReply::Json(RouteResponse::Query(_)),
        )),
        why_none(outcome, timeout_ms) is Some ==> brought(outcome).len() == 0,
        outcome matches FanOutOutcome::Answered(RouteReply::Json(RouteResponse::Query(results)))
            ==> brought(outcome) == results@,
        outcome matches FanOutOutcome::Failed(reason) ==> why_none(outcome, timeout_ms) == Some(
            reason@,
        ),
{
}
} // verus!
