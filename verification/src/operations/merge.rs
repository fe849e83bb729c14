//! Merging a query's local results with what the fan-out brought back.
//! Scores from differently profiled indexes do not compare, so the merge
//! fuses by rank across the local list and each remote list, keeps one copy
//! per address (the local one when this node has it, else the best-ranked
//! remote), and then collapses digest-equal copies into `replicas`. A remote
//! node that failed contributes an empty list and a summary saying why; it
//! never fails the query.

use vstd::prelude::*;
use crate::order;
use crate::order::Ranked;
use crate::seam::{Address, AddressView, NodeId};
use crate::sweep::source;
use super::ladder::QUERY_LIMIT_MAX;

verus! {

/// Most nodes one query fans out to.
pub const FAN_OUT_NODES_MAX: usize = 8;

/// One result of a query: what the merge reads of it, and what it shows.
#[derive(Debug, PartialEq, Eq)]
pub struct QueryResult<P> {
    pub address: Address,
    /// The bits of the score.
    pub score: u64,
    pub content_digest: Option<String>,
    /// Other addresses of the same content.
    pub replicas: Vec<Address>,
    /// The node whose index answered; `None` for this node's own.
    pub via: Option<NodeId>,
    pub shown: P,
}

/// One node's part in a fan-out: its results, or the reason it gave none.
#[derive(Debug, PartialEq, Eq)]
pub struct FanOutReply<P> {
    pub node: NodeId,
    pub results: Vec<QueryResult<P>>,
    pub elapsed_ms: u64,
    pub error: Option<String>,
}

/// What a query says of one fanned-out node.
#[derive(Debug, PartialEq, Eq)]
pub struct FanOutSummary {
    pub node: NodeId,
    pub results: u32,
    pub elapsed_ms: u64,
    pub error: Option<String>,
}

/// One address's representative among the lists it appeared in.
#[derive(Debug, PartialEq, Eq)]
pub struct Candidate<P> {
    pub result: QueryResult<P>,
    /// The rank the representative held in its list.
    pub rank: usize,
    pub is_local: bool,
}

/// Whether a summary is a reply's.
pub open spec fn summarizes<P>(summary: FanOutSummary, reply: FanOutReply<P>) -> bool {
    &&& summary.node == reply.node
    &&& summary.results == (if reply.results@.len() > u32::MAX {
        u32::MAX as nat
    } else {
        reply.results@.len()
    })
    &&& summary.elapsed_ms == reply.elapsed_ms
    &&& summary.error == reply.error
}

/// What a query says of one fanned-out node.
pub fn summary_of<P>(reply: &FanOutReply<P>) -> (r: FanOutSummary)
    ensures
        summarizes(r, *reply),
{
    let count: usize = reply.results.len();
    FanOutSummary {
        node: reply.node,
        results: if count > u32::MAX as usize {
            u32::MAX
        } else {
            count as u32
        },
        elapsed_ms: reply.elapsed_ms,
        error: source::copy_text(&reply.error),
    }
}

// --- Interning ---

/// The candidate that holds an address.
pub open spec fn id_of<P>(candidates: Seq<Candidate<P>>, address: AddressView) -> Option<int>
    decreases candidates.len(),
{
    if candidates.len() == 0 {
        None
    } else if candidates.last().result.address@ == address {
        Some(candidates.len() - 1)
    } else {
        id_of(candidates.drop_last(), address)
    }
}

/// The candidates and the id of a result, once it is interned: an address
/// gets a candidate on first sight, and its representative is replaced only
/// by a better-ranked remote copy or a local one, and never when it is local.
pub open spec fn seated<P>(
    candidates: Seq<Candidate<P>>,
    result: QueryResult<P>,
    rank: usize,
    is_local: bool,
) -> (Seq<Candidate<P>>, int) {
    match id_of(candidates, result.address@) {
        Some(id) => if !candidates[id].is_local && (is_local || rank < candidates[id].rank) {
            (candidates.update(id, Candidate { result, rank, is_local }), id)
        } else {
            (candidates, id)
        },
        None => (candidates.push(Candidate { result, rank, is_local }), candidates.len() as int),
    }
}

/// The candidates and the ids of the first `n` results of a best-first list.
pub open spec fn interned<P>(
    candidates: Seq<Candidate<P>>,
    results: Seq<QueryResult<P>>,
    is_local: bool,
    n: nat,
) -> (Seq<Candidate<P>>, Seq<int>)
    decreases n,
{
    if n == 0 {
        (candidates, Seq::empty())
    } else {
        let (before, ids) = interned(candidates, results, is_local, (n - 1) as nat);
        let (after, id) = seated(before, results[n - 1], (n - 1) as usize, is_local);
        (after, ids.push(id))
    }
}

/// Whether no two candidates hold one address.
pub open spec fn distinct<P>(candidates: Seq<Candidate<P>>) -> bool {
    forall|i: int, j: int|
        0 <= i < j < candidates.len() ==> (#[trigger] candidates[i]).result.address@ != (
        #[trigger] candidates[j]).result.address@
}

proof fn lemma_id_of<P>(candidates: Seq<Candidate<P>>, address: AddressView)
    ensures
        match id_of(candidates, address) {
            Some(id) => 0 <= id < candidates.len() && candidates[id].result.address@ == address,
            None => forall|i: int|
                0 <= i < candidates.len() ==> (#[trigger] candidates[i]).result.address@ != address,
        },
    decreases candidates.len(),
{
    if candidates.len() > 0 && candidates.last().result.address@ != address {
        let front = candidates.drop_last();
        lemma_id_of(front, address);
        if id_of(front, address) is None {
            assert forall|i: int| 0 <= i < candidates.len() implies (
            #[trigger] candidates[i]).result.address@ != address by {
                if i < front.len() {
                    assert(front[i] == candidates[i]);
                }
            }
        }
    }
}

/// Seating keeps candidates distinct, keeps local ones, and answers with the
/// id of the address.
proof fn lemma_seated<P>(
    candidates: Seq<Candidate<P>>,
    result: QueryResult<P>,
    rank: usize,
    is_local: bool,
)
    requires
        distinct(candidates),
    ensures
        ({
            let (after, id) = seated(candidates, result, rank, is_local);
            &&& distinct(after)
            &&& candidates.len() <= after.len() <= candidates.len() + 1
            &&& 0 <= id < after.len()
            &&& after[id].result.address@ == result.address@
            &&& forall|i: int|
                0 <= i < candidates.len() ==> (#[trigger] after[i]).result.address@
                    == candidates[i].result.address@ && (candidates[i].is_local ==> after[i]
                    == candidates[i])
        }),
{
    lemma_id_of(candidates, result.address@);
    let (after, id) = seated(candidates, result, rank, is_local);
    assert forall|i: int, j: int| 0 <= i < j < after.len() implies (
    #[trigger] after[i]).result.address@ != (#[trigger] after[j]).result.address@ by {
        assert(candidates[i].result.address@ == after[i].result.address@);
        if j < candidates.len() {
            assert(candidates[j].result.address@ == after[j].result.address@);
        }
    }
}

proof fn lemma_interned<P>(
    candidates: Seq<Candidate<P>>,
    results: Seq<QueryResult<P>>,
    is_local: bool,
    n: nat,
)
    requires
        distinct(candidates),
        n <= results.len(),
    ensures
        ({
            let (after, ids) = interned(candidates, results, is_local, n);
            &&& distinct(after)
            &&& ids.len() == n
            &&& candidates.len() <= after.len() <= candidates.len() + n
            &&& forall|k: int|
                0 <= k < n ==> 0 <= #[trigger] ids[k] < after.len()
                    && after[ids[k]].result.address@ == results[k].address@
            &&& forall|i: int|
                0 <= i < candidates.len() ==> (#[trigger] after[i]).result.address@
                    == candidates[i].result.address@ && (candidates[i].is_local ==> after[i]
                    == candidates[i])
        }),
    decreases n,
{
    if n > 0 {
        lemma_interned(candidates, results, is_local, (n - 1) as nat);
        let (before, before_ids) = interned(candidates, results, is_local, (n - 1) as nat);
        lemma_seated(before, results[n - 1], (n - 1) as usize, is_local);
        let (after, ids) = interned(candidates, results, is_local, n);
        assert forall|k: int| 0 <= k < n implies 0 <= #[trigger] ids[k] < after.len()
            && after[ids[k]].result.address@ == results[k].address@ by {
            if k < n - 1 {
                assert(ids[k] == before_ids[k]);
                assert(after[ids[k]].result.address@ == before[ids[k]].result.address@);
            }
        }
        assert forall|i: int| 0 <= i < candidates.len() implies (
        #[trigger] after[i]).result.address@ == candidates[i].result.address@ && (
        candidates[i].is_local ==> after[i] == candidates[i]) by {
            assert(before[i].result.address@ == candidates[i].result.address@);
        }
    }
}

fn find<P>(candidates: &Vec<Candidate<P>>, address: &Address) -> (r: Option<usize>)
    requires
        distinct(candidates@),
    ensures
        match id_of(candidates@, address@) {
            Some(id) => r is Some && r->0 == id && 0 <= id < candidates@.len(),
            None => r is None,
        },
{
    let mut i: usize = 0;
    proof {
        lemma_id_of(candidates@, address@);
    }
    while i < candidates.len()
        invariant
            i <= candidates@.len(),
            distinct(candidates@),
            forall|j: int|
                0 <= j < i ==> (#[trigger] candidates@[j]).result.address@ != address@,
        decreases candidates@.len() - i,
    {
        if candidates[i].result.address.same(address) {
            proof {
                lemma_id_of(candidates@, address@);
                let id = id_of(candidates@, address@)->0;
                assert(candidates@[i as int].result.address@ == address@);
                if id < i {
                    assert(candidates@[id].result.address@ != address@);
                }
                if i < id {
                    assert(candidates@[i as int].result.address@
                        != candidates@[id].result.address@);
                }
            }
            return Some(i);
        }
        i = i + 1;
    }
    proof {
        lemma_id_of(candidates@, address@);
    }
    None
}

/// Places as numbers.
pub open spec fn ids_of(list: Seq<usize>) -> Seq<int> {
    Seq::new(list.len(), |i: int| list[i] as int)
}

/// Intern one best-first list: each address gets a stable id on first sight,
/// and its representative is replaced only by a better-ranked remote copy,
/// never when the representative is local.
fn intern_list<P>(
    candidates: &mut Vec<Candidate<P>>,
    results: Vec<QueryResult<P>>,
    is_local: bool,
) -> (r: Vec<usize>)
    requires
        distinct(old(candidates)@),
    ensures
        (final(candidates)@, ids_of(r@)) == interned(
            old(candidates)@,
            results@,
            is_local,
            results@.len(),
        ),
        distinct(final(candidates)@),
{
    let ghost start = candidates@;
    let ghost all = results@;
    let count: usize = results.len();
    let mut list: Vec<usize> = Vec::new();
    let mut rank: usize = 0;
    proof {
        assert(ids_of(list@) =~= Seq::empty());
    }
    for result in it: results
        invariant
            it.seq() == all,
            count == all.len(),
            rank == it.index(),
            distinct(start),
            distinct(candidates@),
            (candidates@, ids_of(list@)) == interned(start, all, is_local, it.index() as nat),
    {
        let ghost before = candidates@;
        let ghost before_list = list@;
        proof {
            lemma_seated(before, result, rank, is_local);
            lemma_id_of(before, result.address@);
        }
        let id: usize = match find(candidates, &result.address) {
            Some(id) => {
                if !candidates[id].is_local && (is_local || rank < candidates[id].rank) {
                    candidates.set(id, Candidate { result, rank, is_local });
                }
                id
            },
            None => {
                let id: usize = candidates.len();
                candidates.push(Candidate { result, rank, is_local });
                id
            },
        };
        list.push(id);
        proof {
            assert(candidates@ =~= seated(before, result, rank, is_local).0);
            assert(id == seated(before, result, rank, is_local).1);
            assert(ids_of(list@) =~= ids_of(before_list).push(id as int));
        }
        rank = rank + 1;
    }
    list
}

/// A peer's list as the merge takes it: held to the bound it was asked for,
/// and each result marked with the node it came from.
pub open spec fn stamped<P>(reply: FanOutReply<P>) -> Seq<QueryResult<P>> {
    Seq::new(
        if reply.results@.len() <= QUERY_LIMIT_MAX {
            reply.results@.len()
        } else {
            QUERY_LIMIT_MAX as nat
        },
        |i: int| QueryResult { via: Some(reply.node), ..reply.results@[i] },
    )
}

/// A peer's list, held to the bound and marked with the node it came from.
pub fn stamp<P>(reply: FanOutReply<P>) -> (r: Vec<QueryResult<P>>)
    ensures
        r@ == stamped(reply),
{
    let node = reply.node;
    let mut results = reply.results;
    if results.len() > QUERY_LIMIT_MAX {
        results.truncate(QUERY_LIMIT_MAX);
    }
    let ghost held = results@;
    let mut out: Vec<QueryResult<P>> = Vec::new();
    for result in it: results
        invariant
            it.seq() == held,
            out@.len() == it.index(),
            forall|i: int|
                0 <= i < it.index() ==> #[trigger] out@[i] == (QueryResult {
                    via: Some(node),
                    ..held[i]
                }),
    {
        let mut marked = result;
        marked.via = Some(node);
        out.push(marked);
    }
    proof {
        assert(out@ =~= stamped(reply));
    }
    out
}

/// The candidates and lists of the local results and the first `n` replies.
pub open spec fn pooled<P>(
    local: Seq<QueryResult<P>>,
    replies: Seq<FanOutReply<P>>,
    n: nat,
) -> (Seq<Candidate<P>>, Seq<Seq<int>>)
    decreases n,
{
    if n == 0 {
        let (candidates, ids) = interned(Seq::empty(), local, true, local.len());
        (candidates, seq![ids])
    } else {
        let (before, lists) = pooled(local, replies, (n - 1) as nat);
        let (after, ids) = interned(
            before,
            stamped(replies[n - 1]),
            false,
            stamped(replies[n - 1]).len(),
        );
        (after, lists.push(ids))
    }
}

/// Everything the merge ranks: one candidate per address, and the lists that
/// rank them by id, the local one first.
#[derive(Debug, PartialEq, Eq)]
pub struct Pool<P> {
    pub candidates: Vec<Candidate<P>>,
    pub lists: Vec<Vec<usize>>,
}

/// The lists of a pool, as ids.
pub open spec fn list_views(lists: Seq<Vec<usize>>) -> Seq<Seq<int>> {
    Seq::new(lists.len(), |i: int| ids_of(lists[i]@))
}

/// The merged results and one summary per fanned-out node.
#[derive(Debug, PartialEq, Eq)]
pub struct Merged<P> {
    pub results: Vec<QueryResult<P>>,
    pub remote: Vec<FanOutSummary>,
}

/// What a merge comes to before it is ranked.
#[derive(Debug, PartialEq, Eq)]
pub enum Gathered<P> {
    /// No remote node answered with results: the local list stands
    /// untouched.
    Local(Vec<QueryResult<P>>),
    /// There is something to fuse.
    Pooled(Pool<P>),
}

/// Whether some reply brought a result.
pub open spec fn any_results<P>(replies: Seq<FanOutReply<P>>) -> bool {
    exists|i: int| 0 <= i < replies.len() && (#[trigger] replies[i]).results@.len() > 0
}

/// The first results of a list.
pub open spec fn at_most<T>(list: Seq<T>, limit: usize) -> Seq<T> {
    if list.len() <= limit {
        list
    } else {
        list.take(limit as int)
    }
}

/// Whether a pool holds the local results and every reply's.
pub open spec fn pools<P>(
    pool: Pool<P>,
    local: Seq<QueryResult<P>>,
    replies: Seq<FanOutReply<P>>,
) -> bool {
    (pool.candidates@, list_views(pool.lists@)) == pooled(local, replies, replies.len())
}

/// Gather the local list and every remote list. With nothing to merge the
/// local list stands untouched, scores and all, so a node with no network
/// answers exactly as it always has.
pub fn gather<P>(local: Vec<QueryResult<P>>, replies: Vec<FanOutReply<P>>, limit: usize) -> (r: (
    Gathered<P>,
    Vec<FanOutSummary>,
))
    requires
        limit >= 1,
        replies@.len() <= FAN_OUT_NODES_MAX,
    ensures
        match r.0 {
            Gathered::Local(results) => !any_results(replies@) && results@ == at_most(
                local@,
                limit,
            ),
            Gathered::Pooled(pool) => any_results(replies@) && pools(pool, local@, replies@)
                && distinct(pool.candidates@),
        },
        r.1@.len() == replies@.len(),
        forall|i: int|
            0 <= i < replies@.len() ==> summarizes(#[trigger] r.1@[i], replies@[i]),
{
    let mut remote: Vec<FanOutSummary> = Vec::new();
    let mut any = false;
    let mut i: usize = 0;
    while i < replies.len()
        invariant
            i <= replies@.len(),
            remote@.len() == i,
            forall|j: int| 0 <= j < i ==> summarizes(#[trigger] remote@[j], replies@[j]),
            any == exists|j: int| 0 <= j < i && (#[trigger] replies@[j]).results@.len() > 0,
        decreases replies@.len() - i,
    {
        remote.push(summary_of(&replies[i]));
        if replies[i].results.len() > 0 {
            any = true;
        }
        i = i + 1;
    }
    if !any {
        let mut local = local;
        let ghost given = local@;
        if local.len() > limit {
            local.truncate(limit);
        }
        return (Gathered::Local(local), remote);
    }
    let ghost given = local@;
    let ghost all = replies@;
    let mut candidates: Vec<Candidate<P>> = Vec::new();
    let mut lists: Vec<Vec<usize>> = Vec::new();
    let list = intern_list(&mut candidates, local, true);
    lists.push(list);
    proof {
        assert(list_views(lists@) =~= seq![ids_of(list@)]);
    }
    for reply in it: replies
        invariant
            it.seq() == all,
            distinct(candidates@),
            (candidates@, list_views(lists@)) == pooled(given, all, it.index() as nat),
    {
        let ghost before = lists@;
        let results = stamp(reply);
        let list = intern_list(&mut candidates, results, false);
        lists.push(list);
        proof {
            assert(list_views(lists@) =~= list_views(before).push(ids_of(list@)));
        }
    }
    (Gathered::Pooled(Pool { candidates, lists }), remote)
}

// --- Ranking ---

/// One candidate's fused score: what orders it, and what is shown.
#[derive(Debug, Clone, Copy, PartialEq, Eq)]
pub struct FusedScore {
    /// Greater is better; the bits of a positive float order like the float.
    pub key: u64,
    /// The bits of the score shown.
    pub shown: u64,
}

/// A candidate's place in the ranking.
#[derive(Debug, Clone, Copy, PartialEq, Eq)]
pub struct RankKey {
    pub key: u64,
    pub id: usize,
}

/// Best score first; ties break by id, and ids are assigned local list
/// first, so a local copy outranks a remote one that fused to the same
/// score.
impl Ranked for RankKey {
    open spec fn ranks_before(&self, other: &Self) -> bool {
        self.key > other.key || (self.key == other.key && self.id <= other.id)
    }

    proof fn ranks_total(a: &Self, b: &Self) {
    }

    proof fn ranks_transitive(a: &Self, b: &Self, c: &Self) {
    }

    fn before(&self, other: &Self) -> (r: bool) {
        self.key > other.key || (self.key == other.key && self.id <= other.id)
    }
}

/// Every candidate with its key, in id order.
pub open spec fn rank_keys(scores: Seq<FusedScore>) -> Seq<RankKey> {
    Seq::new(scores.len(), |i: int| RankKey { key: scores[i].key, id: i as usize })
}

/// Whether results are the candidates, best first, each with its score.
pub open spec fn is_ranking<P>(
    results: Seq<QueryResult<P>>,
    candidates: Seq<Candidate<P>>,
    scores: Seq<FusedScore>,
) -> bool {
    exists|order: Seq<RankKey>| #[trigger]
        order::is_sorting_of(order, rank_keys(scores)) && results.len() == order.len() && forall|
            i: int,
        |
            0 <= i < results.len() ==> #[trigger] results[i] == (QueryResult {
                score: scores[order[i].id as int].shown,
                ..candidates[order[i].id as int].result
            })
}

proof fn lemma_rank_order(order: Seq<RankKey>, scores: Seq<FusedScore>)
    requires
        order::is_sorting_of(order, rank_keys(scores)),
        scores.len() <= usize::MAX,
    ensures
        order.len() == scores.len(),
        forall|i: int|
            0 <= i < order.len() ==> (#[trigger] order[i]).id < scores.len() && order[i].key
                == scores[order[i].id as int].key,
        forall|i: int, j: int|
            0 <= i < j < order.len() ==> (#[trigger] order[i]).id != (#[trigger] order[j]).id,
{
    let keys = rank_keys(scores);
    order::lemma_sorting_len(order, keys);
    assert forall|i: int| 0 <= i < order.len() implies (#[trigger] order[i]).id < scores.len()
        && order[i].key == scores[order[i].id as int].key by {
        order::lemma_sorting_contains(order, keys, order[i]);
        assert(order.contains(order[i]));
        let k = keys.index_of(order[i]);
        assert(keys[k] == order[i]);
    }
    assert(keys.no_duplicates()) by {
        assert forall|i: int, j: int|
            0 <= i < keys.len() && 0 <= j < keys.len() && i != j implies keys[i] != keys[j] by {
            assert(keys[i].id == i);
            assert(keys[j].id == j);
        }
    }
    order::lemma_sorting_distinct(order, keys);
    assert forall|i: int, j: int| 0 <= i < j < order.len() implies (#[trigger] order[i]).id != (
    #[trigger] order[j]).id by {
        if order[i].id == order[j].id {
            assert(order[i].key == order[j].key);
            assert(order[i] == order[j]);
        }
    }
}

/// The candidates, best first, each with its score: every candidate is
/// ranked once.
pub fn fuse<P>(candidates: Vec<Candidate<P>>, scores: &Vec<FusedScore>) -> (r: Vec<QueryResult<P>>)
    requires
        scores@.len() == candidates@.len(),
    ensures
        is_ranking(r@, candidates@, scores@),
        r@.len() == candidates@.len(),
{
    let ghost given = candidates@;
    let mut keys: Vec<RankKey> = Vec::new();
    let mut k: usize = 0;
    while k < scores.len()
        invariant
            k <= scores@.len(),
            keys@.len() == k,
            forall|i: int|
                0 <= i < k ==> #[trigger] keys@[i] == (RankKey {
                    key: scores@[i].key,
                    id: i as usize,
                }),
        decreases scores@.len() - k,
    {
        keys.push(RankKey { key: scores[k].key, id: k });
        k = k + 1;
    }
    proof {
        assert(keys@ =~= rank_keys(scores@));
    }
    let order = order::sorted(keys);
    proof {
        lemma_rank_order(order@, scores@);
    }
    let mut slots: Vec<Option<QueryResult<P>>> = Vec::new();
    for candidate in it: candidates
        invariant
            it.seq() == given,
            slots@.len() == it.index(),
            forall|i: int|
                0 <= i < it.index() ==> #[trigger] slots@[i] == Some(given[i].result),
    {
        slots.push(Some(candidate.result));
    }
    let mut ranked: Vec<QueryResult<P>> = Vec::new();
    let mut n: usize = 0;
    while n < order.len()
        invariant
            n <= order@.len(),
            order@.len() == scores@.len() == given.len() == slots@.len(),
            ranked@.len() == n,
            forall|i: int|
                0 <= i < order@.len() ==> (#[trigger] order@[i]).id < scores@.len(),
            forall|i: int, j: int|
                0 <= i < j < order@.len() ==> (#[trigger] order@[i]).id != (
                #[trigger] order@[j]).id,
            forall|i: int|
                n <= i < order@.len() ==> slots@[(#[trigger] order@[i]).id as int] == Some(
                    given[order@[i].id as int].result,
                ),
            forall|i: int|
                0 <= i < n ==> #[trigger] ranked@[i] == (QueryResult {
                    score: scores@[order@[i].id as int].shown,
                    ..given[order@[i].id as int].result
                }),
        decreases order@.len() - n,
    {
        let id: usize = order[n].id;
        let mut taken: Option<QueryResult<P>> = None;
        let ghost before = slots@;
        std::mem::swap(&mut slots[id], &mut taken);
        proof {
            assert(before[order@[n as int].id as int] == Some(given[id as int].result));
            assert forall|i: int| n + 1 <= i < order@.len() implies slots@[(
            #[trigger] order@[i]).id as int] == Some(given[order@[i].id as int].result) by {
                assert(order@[n as int].id != order@[i].id);
            }
        }
        if let Some(result) = taken {
            let mut result = result;
            result.score = scores[id].shown;
            ranked.push(result);
        }
        n = n + 1;
    }
    proof {
        assert(order::is_sorting_of(order@, rank_keys(scores@)));
    }
    ranked
}

// --- Replicas ---

/// Whether a list holds an address.
pub open spec fn holds_address(addresses: Seq<Address>, address: AddressView) -> bool {
    exists|i: int| 0 <= i < addresses.len() && (#[trigger] addresses[i])@ == address
}

fn is_held(addresses: &Vec<Address>, address: &Address) -> (r: bool)
    ensures
        r == holds_address(addresses@, address@),
{
    let mut i: usize = 0;
    while i < addresses.len()
        invariant
            i <= addresses@.len(),
            forall|j: int| 0 <= j < i ==> (#[trigger] addresses@[j])@ != address@,
        decreases addresses@.len() - i,
    {
        if addresses[i].same(address) {
            return true;
        }
        i = i + 1;
    }
    false
}

/// Replicas with the first `n` incoming addresses joined, each once, the
/// kept result's own left out.
pub open spec fn joined(
    kept: AddressView,
    replicas: Seq<Address>,
    incoming: Seq<Address>,
    n: nat,
) -> Seq<Address>
    decreases n,
{
    if n == 0 {
        replicas
    } else {
        let before = joined(kept, replicas, incoming, (n - 1) as nat);
        let address = incoming[n - 1];
        if address@ == kept || holds_address(before, address@) {
            before
        } else {
            before.push(address)
        }
    }
}

/// The addresses a digest-equal copy brings: its own, then its replicas.
pub open spec fn brought<P>(duplicate: QueryResult<P>) -> Seq<Address> {
    seq![duplicate.address] + duplicate.replicas@
}

/// Whether `after` is `kept` with a digest-equal copy folded in.
pub open spec fn absorbs<P>(
    after: QueryResult<P>,
    kept: QueryResult<P>,
    duplicate: QueryResult<P>,
) -> bool {
    &&& after == (QueryResult { replicas: after.replicas, ..kept })
    &&& after.replicas@ == joined(
        kept.address@,
        kept.replicas@,
        brought(duplicate),
        brought(duplicate).len(),
    )
}

/// Fold a digest-equal copy into the result that outranked it: its address
/// and its own replicas join the kept result's, each address once.
pub fn absorb_replica<P>(kept: &mut QueryResult<P>, duplicate: QueryResult<P>)
    ensures
        absorbs(*final(kept), *old(kept), duplicate),
{
    let ghost incoming = brought(duplicate);
    let ghost start = kept.replicas@;
    let ghost own = kept.address@;
    let ghost before_kept = *kept;
    let address = duplicate.address;
    let ghost first = address;
    let others = duplicate.replicas;
    if !address.same(&kept.address) && !is_held(&kept.replicas, &address) {
        kept.replicas.push(address);
    }
    proof {
        assert(incoming[0] == first);
        reveal_with_fuel(joined, 2);
    }
    let ghost rest = others@;
    for replica in it: others
        invariant
            it.seq() == rest,
            incoming == seq![first] + rest,
            kept.address@ == own,
            own == before_kept.address@,
            *kept == (QueryResult { replicas: kept.replicas, ..before_kept }),
            kept.replicas@ == joined(own, start, incoming, (it.index() + 1) as nat),
    {
        proof {
            assert(incoming[it.index() + 1] == replica);
        }
        if !replica.same(&kept.address) && !is_held(&kept.replicas, &replica) {
            kept.replicas.push(replica);
        }
    }
}

/// The kept result that holds a digest.
pub open spec fn kept_with<P>(kept: Seq<QueryResult<P>>, digest: Seq<char>) -> Option<int>
    decreases kept.len(),
{
    if kept.len() == 0 {
        None
    } else if source::text_view(kept.last().content_digest) == Some(digest) {
        Some(kept.len() - 1)
    } else {
        kept_with(kept.drop_last(), digest)
    }
}

/// Whether `after` is `before` with one more result: folded into the result
/// that holds its digest, or kept of its own. Results without a digest never
/// collapse.
pub open spec fn takes<P>(
    after: Seq<QueryResult<P>>,
    before: Seq<QueryResult<P>>,
    result: QueryResult<P>,
) -> bool {
    match result.content_digest {
        Some(digest) => match kept_with(before, digest@) {
            Some(at) => after.len() == before.len() && absorbs(after[at], before[at], result)
                && forall|i: int|
                0 <= i < before.len() && i != at ==> #[trigger] after[i] == before[i],
            None => after == before.push(result),
        },
        None => after == before.push(result),
    }
}

/// Whether a history takes results one after the other, from nothing.
pub open spec fn is_collapse<P>(
    history: Seq<Seq<QueryResult<P>>>,
    results: Seq<QueryResult<P>>,
) -> bool {
    &&& history.len() == results.len() + 1
    &&& history[0].len() == 0
    &&& forall|k: int|
        0 <= k < results.len() ==> takes(history[k + 1], history[k], #[trigger] results[k])
}

/// Whether `kept` are results with digest-equal copies folded into the best
/// of them.
pub open spec fn collapses<P>(kept: Seq<QueryResult<P>>, results: Seq<QueryResult<P>>) -> bool {
    exists|history: Seq<Seq<QueryResult<P>>>| #[trigger]
        is_collapse(history, results) && kept == history[results.len() as int]
}

proof fn lemma_kept_with<P>(kept: Seq<QueryResult<P>>, digest: Seq<char>)
    ensures
        match kept_with(kept, digest) {
            Some(at) => 0 <= at < kept.len() && source::text_view(kept[at].content_digest) == Some(
                digest,
            ) && forall|i: int|
                at < i < kept.len() ==> source::text_view((#[trigger] kept[i]).content_digest)
                    != Some(digest),
            None => forall|i: int|
                0 <= i < kept.len() ==> source::text_view((#[trigger] kept[i]).content_digest)
                    != Some(digest),
        },
    decreases kept.len(),
{
    if kept.len() > 0 && source::text_view(kept.last().content_digest) != Some(digest) {
        let front = kept.drop_last();
        lemma_kept_with(front, digest);
        assert forall|i: int|
            0 <= i < kept.len() && (match kept_with(front, digest) {
                Some(at) => at < i,
                None => true,
            }) implies source::text_view((#[trigger] kept[i]).content_digest) != Some(digest) by {
            if i < front.len() {
                assert(front[i] == kept[i]);
            }
        }
    }
}

fn find_digest<P>(kept: &Vec<QueryResult<P>>, digest: &Option<String>) -> (r: Option<usize>)
    ensures
        match *digest {
            Some(digest) => match kept_with(kept@, digest@) {
                Some(at) => r is Some && r->0 == at && 0 <= at < kept@.len(),
                None => r is None,
            },
            None => r is None,
        },
{
    if digest.is_none() {
        return None;
    }
    let mut n: usize = kept.len();
    proof {
        assert(kept@.take(n as int) =~= kept@);
    }
    while n > 0
        invariant
            n <= kept@.len(),
            digest is Some,
            kept_with(kept@, digest->0@) == kept_with(kept@.take(n as int), digest->0@),
        decreases n,
    {
        proof {
            assert(kept@.take(n as int).last() == kept@[n - 1]);
            assert(kept@.take(n as int).drop_last() =~= kept@.take(n - 1));
        }
        if source::same_text(&kept[n - 1].content_digest, digest) {
            return Some(n - 1);
        }
        n = n - 1;
    }
    None
}

/// Results with digest-equal copies folded into the one that outranks them.
pub fn collapse_by_digest<P>(results: Vec<QueryResult<P>>) -> (r: Vec<QueryResult<P>>)
    ensures
        collapses(r@, results@),
        r@.len() <= results@.len(),
{
    let ghost all = results@;
    let mut kept: Vec<QueryResult<P>> = Vec::new();
    let ghost mut history: Seq<Seq<QueryResult<P>>> = seq![kept@];
    for result in it: results
        invariant
            it.seq() == all,
            history.len() == it.index() + 1,
            history[0].len() == 0,
            history[it.index()] == kept@,
            forall|k: int|
                0 <= k < it.index() ==> takes(history[k + 1], history[k], #[trigger] all[k]),
            kept@.len() <= it.index(),
    {
        let ghost before = kept@;
        let ghost index = it.index();
        proof {
            if result.content_digest is Some {
                lemma_kept_with(before, result.content_digest->0@);
            }
        }
        match find_digest(&kept, &result.content_digest) {
            Some(at) => {
                absorb_replica(&mut kept[at], result);
            },
            None => {
                kept.push(result);
            },
        }
        proof {
            let longer = history.push(kept@);
            assert(takes(kept@, before, result));
            assert forall|k: int| 0 <= k < index + 1 implies takes(
                longer[k + 1],
                longer[k],
                #[trigger] all[k],
            ) by {
                if k < index {
                    assert(longer[k + 1] == history[k + 1]);
                    assert(longer[k] == history[k]);
                }
            }
            history = longer;
        }
    }
    proof {
        assert(is_collapse(history, all));
    }
    kept
}

/// The merged results: the pool ranked by fused score, digest-equal copies
/// collapsed, held to the limit.
pub fn finish<P>(pool: Pool<P>, scores: &Vec<FusedScore>, limit: usize) -> (r: Vec<QueryResult<P>>)
    requires
        scores@.len() == pool.candidates@.len(),
    ensures
        exists|ranked: Seq<QueryResult<P>>, kept: Seq<QueryResult<P>>|
            #[trigger] is_ranking(ranked, pool.candidates@, scores@) && #[trigger] collapses(
                kept,
                ranked,
            ) && r@ == at_most(kept, limit),
        r@.len() <= limit,
{
    let ranked = fuse(pool.candidates, scores);
    let ghost ranking = ranked@;
    let mut results = collapse_by_digest(ranked);
    let ghost kept = results@;
    proof {
        assert(is_ranking(ranking, pool.candidates@, scores@));
        assert(collapses(kept, ranking));
    }
    if results.len() > limit {
        results.truncate(limit);
    }
    proof {
        assert(results@ == at_most(kept, limit));
    }
    results
}

// --- What the merge promises ---

proof fn lemma_pooled<P>(local: Seq<QueryResult<P>>, replies: Seq<FanOutReply<P>>, n: nat)
    requires
        n <= replies.len(),
    ensures
        distinct(pooled(local, replies, n).0),
        pooled(local, replies, 0).0.len() <= pooled(local, replies, n).0.len(),
        forall|i: int|
            0 <= i < pooled(local, replies, 0).0.len() && pooled(
                local,
                replies,
                0,
            ).0[i].is_local ==> #[trigger] pooled(local, replies, n).0[i] == pooled(
                local,
                replies,
                0,
            ).0[i],
    decreases n,
{
    if n == 0 {
        lemma_interned(Seq::empty(), local, true, local.len());
    } else {
        lemma_pooled(local, replies, (n - 1) as nat);
        let before = pooled(local, replies, (n - 1) as nat).0;
        lemma_interned(
            before,
            stamped(replies[n - 1]),
            false,
            stamped(replies[n - 1]).len(),
        );
        let first = pooled(local, replies, 0).0;
        let after = pooled(local, replies, n).0;
        assert forall|i: int| 0 <= i < first.len() && first[i].is_local implies #[trigger] after[i]
            == first[i] by {
            assert(before[i] == first[i]);
        }
    }
}

proof fn lemma_local_pool<P>(local: Seq<QueryResult<P>>, n: nat)
    requires
        n <= local.len(),
    ensures
        forall|i: int|
            0 <= i < interned(Seq::empty(), local, true, n).0.len() ==> (#[trigger] interned(
                Seq::empty(),
                local,
                true,
                n,
            ).0[i]).is_local,
    decreases n,
{
    if n > 0 {
        lemma_local_pool(local, (n - 1) as nat);
        lemma_interned(Seq::empty(), local, true, (n - 1) as nat);
        let before = interned(Seq::empty(), local, true, (n - 1) as nat).0;
        lemma_id_of(before, local[n - 1].address@);
        let after = interned(Seq::empty(), local, true, n).0;
        assert forall|i: int| 0 <= i < after.len() implies (#[trigger] after[i]).is_local by {
            if i < before.len() {
                assert(before[i].is_local);
            }
        }
    }
}

/// One copy per address, and the local one where there is one: whatever the
/// replies bring, no two candidates share an address, and the candidates of
/// the local list stand as they were.
pub proof fn law_local_copies_stand<P>(local: Seq<QueryResult<P>>, replies: Seq<FanOutReply<P>>)
    ensures
        ({
            let first = pooled(local, replies, 0).0;
            let all = pooled(local, replies, replies.len()).0;
            &&& distinct(all)
            &&& first.len() <= all.len()
            &&& forall|i: int| 0 <= i < first.len() ==> #[trigger] all[i] == first[i]
            &&& forall|k: int|
                0 <= k < local.len() ==> exists|i: int|
                    0 <= i < first.len() && (#[trigger] all[i]).result.address@ == (
                    #[trigger] local[k]).address@
        }),
{
    lemma_pooled(local, replies, replies.len());
    lemma_local_pool(local, local.len());
    lemma_interned(Seq::empty(), local, true, local.len());
    let first = pooled(local, replies, 0).0;
    let all = pooled(local, replies, replies.len()).0;
    assert forall|i: int| 0 <= i < first.len() implies #[trigger] all[i] == first[i] by {
        assert(first[i].is_local);
    }
    assert forall|k: int| 0 <= k < local.len() implies exists|i: int|
        0 <= i < first.len() && (#[trigger] all[i]).result.address@ == (
        #[trigger] local[k]).address@ by {
        let ids = interned(Seq::empty(), local, true, local.len()).1;
        let id = ids[k];
        assert(all[id] == first[id]);
    }
}

/// After a collapse no digest stands twice, and the addresses that were
/// ranked are all still there: each is a kept result's own or one of its
/// replicas.
pub proof fn law_collapse_keeps_every_address<P>(
    kept: Seq<QueryResult<P>>,
    results: Seq<QueryResult<P>>,
)
    requires
        collapses(kept, results),
    ensures
        digests_stand_once(kept),
        forall|k: int|
            0 <= k < results.len() ==> finds_address(kept, (#[trigger] results[k]).address@),
{
    let history = choose|history: Seq<Seq<QueryResult<P>>>| #[trigger]
        is_collapse(history, results) && kept == history[results.len() as int];
    lemma_collapse(history, results, results.len());
}

/// Whether no digest stands twice.
pub open spec fn digests_stand_once<P>(kept: Seq<QueryResult<P>>) -> bool {
    forall|i: int, j: int|
        0 <= i < j < kept.len() && (#[trigger] kept[i]).content_digest is Some ==> source::text_view(
            kept[i].content_digest,
        ) != source::text_view((#[trigger] kept[j]).content_digest)
}

/// Whether some result stands for an address.
pub open spec fn finds_address<P>(kept: Seq<QueryResult<P>>, address: AddressView) -> bool {
    exists|i: int| 0 <= i < kept.len() && #[trigger] stands_for(kept[i], address)
}

proof fn lemma_collapse<P>(
    history: Seq<Seq<QueryResult<P>>>,
    results: Seq<QueryResult<P>>,
    n: nat,
)
    requires
        is_collapse(history, results),
        n <= results.len(),
    ensures
        digests_stand_once(history[n as int]),
        forall|k: int|
            0 <= k < n ==> finds_address(history[n as int], (#[trigger] results[k]).address@),
    decreases n,
{
    if n > 0 {
        lemma_collapse(history, results, (n - 1) as nat);
        let result = results[n - 1];
        let before = history[n - 1];
        let kept = history[n as int];
        assert(takes(history[n - 1 + 1], history[n - 1], results[n - 1]));
        let folded: Option<int> = match result.content_digest {
            Some(digest) => kept_with(before, digest@),
            None => None,
        };
        if result.content_digest is Some {
            lemma_kept_with(before, result.content_digest->0@);
        }
        assert forall|i: int| 0 <= i < before.len() implies (
        #[trigger] kept[i]).content_digest == before[i].content_digest by {}
        assert forall|i: int, j: int|
            0 <= i < j < kept.len() && (#[trigger] kept[i]).content_digest
                is Some implies source::text_view(kept[i].content_digest) != source::text_view(
            (#[trigger] kept[j]).content_digest,
        ) by {
            assert(kept[i].content_digest == before[i].content_digest);
            if j < before.len() {
                assert(kept[j].content_digest == before[j].content_digest);
            }
        }
        assert forall|k: int| 0 <= k < n implies finds_address(
            kept,
            (#[trigger] results[k]).address@,
        ) by {
            if k < n - 1 {
                assert(finds_address(before, results[k].address@));
                let i = choose|i: int|
                    0 <= i < before.len() && #[trigger] stands_for(before[i], results[k].address@);
                if folded == Some(i) {
                    lemma_joined_keeps(
                        before[i].address@,
                        before[i].replicas@,
                        brought(result),
                        brought(result).len(),
                        results[k].address@,
                    );
                }
                assert(stands_for(kept[i], results[k].address@));
            } else {
                match folded {
                    Some(at) => {
                        lemma_joined_adds(
                            before[at].address@,
                            before[at].replicas@,
                            brought(result),
                            brought(result).len(),
                        );
                        assert(brought(result)[0] == result.address);
                        assert(stands_for(kept[at], result.address@));
                    },
                    None => {
                        assert(stands_for(kept[before.len() as int], result.address@));
                    },
                }
            }
        }
    }
}

/// Whether a result is at an address, or has it among its replicas.
pub open spec fn stands_for<P>(result: QueryResult<P>, address: AddressView) -> bool {
    result.address@ == address || holds_address(result.replicas@, address)
}

proof fn lemma_joined_keeps(
    kept: AddressView,
    replicas: Seq<Address>,
    incoming: Seq<Address>,
    n: nat,
    address: AddressView,
)
    requires
        n <= incoming.len(),
    ensures
        holds_address(replicas, address) ==> holds_address(
            joined(kept, replicas, incoming, n),
            address,
        ),
    decreases n,
{
    if n > 0 {
        lemma_joined_keeps(kept, replicas, incoming, (n - 1) as nat, address);
        let before = joined(kept, replicas, incoming, (n - 1) as nat);
        let after = joined(kept, replicas, incoming, n);
        if holds_address(before, address) {
            let i = choose|i: int| 0 <= i < before.len() && (#[trigger] before[i])@ == address;
            assert(after[i] == before[i]);
        }
    }
}

proof fn lemma_joined_adds(
    kept: AddressView,
    replicas: Seq<Address>,
    incoming: Seq<Address>,
    n: nat,
)
    requires
        n <= incoming.len(),
    ensures
        forall|k: int|
            0 <= k < n ==> (#[trigger] incoming[k])@ == kept || holds_address(
                joined(kept, replicas, incoming, n),
                incoming[k]@,
            ),
    decreases n,
{
    if n > 0 {
        lemma_joined_adds(kept, replicas, incoming, (n - 1) as nat);
        let before = joined(kept, replicas, incoming, (n - 1) as nat);
        let after = joined(kept, replicas, incoming, n);
        assert forall|k: int| 0 <= k < n implies (#[trigger] incoming[k])@ == kept
            || holds_address(after, incoming[k]@) by {
            if k < n - 1 {
                if holds_address(before, incoming[k]@) {
                    let i = choose|i: int|
                        0 <= i < before.len() && (#[trigger] before[i])@ == incoming[k]@;
                    assert(after[i] == before[i]);
                }
            } else if incoming[k]@ != kept && !holds_address(before, incoming[k]@) {
                assert(after[before.len() as int] == incoming[k]);
            }
        }
    }
}

/// Whether the `k`th result of reply `i` is among the replies before `n` and
/// the first `m` results of reply `n`, as far as replies are read.
pub open spec fn was_read<P>(replies: Seq<FanOutReply<P>>, n: int, m: int, i: int, k: int) -> bool {
    &&& 0 <= i < replies.len()
    &&& 0 <= k < replies[i].results@.len()
    &&& k < QUERY_LIMIT_MAX
    &&& i < n || i == n && k < m
}

/// Whether a candidate is a result of the local list: the first there at its
/// address, as it is.
pub open spec fn is_local_copy<P>(candidate: Candidate<P>, local: Seq<QueryResult<P>>) -> bool {
    candidate.rank < local.len() && local[candidate.rank as int] == candidate.result && forall|
        k: int,
    |
        0 <= k < candidate.rank ==> (#[trigger] local[k]).address@ != candidate.result.address@
}

/// Whether a candidate is the best remote copy of an address this node does
/// not have, marked with the node it came from: of the copies read, none
/// stands higher in its list, and none as high in an earlier one.
pub open spec fn is_best_copy<P>(
    candidate: Candidate<P>,
    local: Seq<QueryResult<P>>,
    replies: Seq<FanOutReply<P>>,
    n: int,
    m: int,
    from: int,
) -> bool {
    &&& was_read(replies, n, m, from, candidate.rank as int)
    &&& candidate.result == (QueryResult {
        via: Some(replies[from].node),
        ..replies[from].results@[candidate.rank as int]
    })
    &&& forall|k: int|
        0 <= k < local.len() ==> (#[trigger] local[k]).address@ != candidate.result.address@
    &&& forall|i: int, k: int| #[trigger]
        was_read(replies, n, m, i, k) && replies[i].results@[k].address@
            == candidate.result.address@ ==> candidate.rank < k || candidate.rank == k && from <= i
}

/// Whether a candidate stands rightly for its address.
pub open spec fn stands_rightly<P>(
    candidate: Candidate<P>,
    local: Seq<QueryResult<P>>,
    replies: Seq<FanOutReply<P>>,
    n: int,
    m: int,
) -> bool {
    if candidate.is_local {
        is_local_copy(candidate, local)
    } else {
        exists|from: int| #[trigger] is_best_copy(candidate, local, replies, n, m, from)
    }
}

/// Whether an address has a candidate.
pub open spec fn has_candidate<P>(candidates: Seq<Candidate<P>>, address: AddressView) -> bool {
    exists|c: int| 0 <= c < candidates.len() && (#[trigger] candidates[c]).result.address@ == address
}

spec fn pool_rightly<P>(
    candidates: Seq<Candidate<P>>,
    local: Seq<QueryResult<P>>,
    replies: Seq<FanOutReply<P>>,
    n: int,
    m: int,
) -> bool {
    &&& distinct(candidates)
    &&& forall|c: int|
        0 <= c < candidates.len() ==> stands_rightly(
            #[trigger] candidates[c],
            local,
            replies,
            n,
            m,
        )
    &&& forall|k: int|
        0 <= k < local.len() ==> has_candidate(candidates, (#[trigger] local[k]).address@)
    &&& forall|i: int, k: int| #[trigger]
        was_read(replies, n, m, i, k) ==> has_candidate(
            candidates,
            replies[i].results@[k].address@,
        )
}

proof fn lemma_local_copies<P>(local: Seq<QueryResult<P>>, n: nat)
    requires
        n <= local.len() <= usize::MAX,
    ensures
        ({
            let candidates = interned(Seq::empty(), local, true, n).0;
            &&& distinct(candidates)
            &&& forall|c: int|
                0 <= c < candidates.len() ==> (#[trigger] candidates[c]).is_local && is_local_copy(
                    candidates[c],
                    local,
                ) && candidates[c].rank < n
            &&& forall|k: int|
                0 <= k < n ==> has_candidate(candidates, (#[trigger] local[k]).address@)
        }),
    decreases n,
{
    lemma_interned(Seq::<Candidate<P>>::empty(), local, true, n);
    let candidates = interned(Seq::empty(), local, true, n).0;
    if n > 0 {
        lemma_local_copies(local, (n - 1) as nat);
        let before = interned(Seq::empty(), local, true, (n - 1) as nat).0;
        let result = local[n - 1];
        lemma_id_of(before, result.address@);
        assert forall|c: int| 0 <= c < candidates.len() implies (#[trigger] candidates[c]).is_local
            && is_local_copy(candidates[c], local) && candidates[c].rank < n by {
            if c < before.len() {
                assert(before[c].is_local);
                assert(candidates[c] == before[c]);
            } else {
                assert forall|k: int| 0 <= k < n - 1 implies (#[trigger] local[k]).address@
                    != result.address@ by {
                    assert(has_candidate(before, local[k].address@));
                }
            }
        }
        assert forall|k: int| 0 <= k < n implies has_candidate(
            candidates,
            (#[trigger] local[k]).address@,
        ) by {
            let ids = interned(Seq::empty(), local, true, n).1;
            assert(candidates[ids[k]].result.address@ == local[k].address@);
        }
    }
}

proof fn lemma_read_step<P>(
    candidates: Seq<Candidate<P>>,
    local: Seq<QueryResult<P>>,
    replies: Seq<FanOutReply<P>>,
    n: int,
    m: int,
)
    requires
        pool_rightly(candidates, local, replies, n, m),
        0 <= n < replies.len(),
        0 <= m < stamped(replies[n]).len(),
    ensures
        pool_rightly(
            seated(candidates, stamped(replies[n])[m], m as usize, false).0,
            local,
            replies,
            n,
            m + 1,
        ),
{
    let result = stamped(replies[n])[m];
    let (after, id) = seated(candidates, result, m as usize, false);
    lemma_seated(candidates, result, m as usize, false);
    lemma_id_of(candidates, result.address@);
    assert(was_read(replies, n, m + 1, n, m));
    assert forall|i: int, k: int| #[trigger] was_read(replies, n, m + 1, i, k) && !(i == n && k
        == m) implies was_read(replies, n, m, i, k) by {}
    assert forall|c: int| 0 <= c < after.len() implies stands_rightly(
        #[trigger] after[c],
        local,
        replies,
        n,
        m + 1,
    ) by {
        if c < candidates.len() && after[c] == candidates[c] {
            assert(stands_rightly(candidates[c], local, replies, n, m));
            if !candidates[c].is_local {
                let from = choose|from: int| #[trigger]
                    is_best_copy(candidates[c], local, replies, n, m, from);
                assert forall|i: int, k: int| #[trigger]
                    was_read(replies, n, m + 1, i, k) && replies[i].results@[k].address@
                        == after[c].result.address@ implies after[c].rank < k || after[c].rank == k
                    && from <= i by {
                    if i == n && k == m {
                        assert(replies[n].results@[m].address@ == result.address@);
                        assert(c == id);
                        assert(was_read(replies, n, m, from, candidates[c].rank as int));
                    } else {
                        assert(was_read(replies, n, m, i, k));
                    }
                }
                assert(is_best_copy(after[c], local, replies, n, m + 1, from));
            }
        } else {
            assert(c == id);
            assert(after[c].result == result);
            assert forall|k: int| 0 <= k < local.len() implies (#[trigger] local[k]).address@
                != result.address@ by {
                if local[k].address@ == result.address@ {
                    assert(has_candidate(candidates, local[k].address@));
                    let at = choose|at: int|
                        0 <= at < candidates.len() && (#[trigger] candidates[at]).result.address@
                            == local[k].address@;
                    assert(at == id);
                    assert(stands_rightly(candidates[at], local, replies, n, m));
                    let from = choose|from: int| #[trigger]
                        is_best_copy(candidates[at], local, replies, n, m, from);
                    assert(local[k].address@ != candidates[at].result.address@);
                }
            }
            assert forall|i: int, k: int| #[trigger]
                was_read(replies, n, m + 1, i, k) && replies[i].results@[k].address@
                    == result.address@ implies m < k || m == k && n <= i by {
                if !(i == n && k == m) {
                    assert(was_read(replies, n, m, i, k));
                    assert(has_candidate(candidates, result.address@));
                    let at = choose|at: int|
                        0 <= at < candidates.len() && (#[trigger] candidates[at]).result.address@
                            == result.address@;
                    assert(at == id);
                    assert(stands_rightly(candidates[at], local, replies, n, m));
                    let from = choose|from: int| #[trigger]
                        is_best_copy(candidates[at], local, replies, n, m, from);
                    assert(candidates[at].rank <= k);
                    assert(m < candidates[at].rank);
                }
            }
            assert(is_best_copy(after[c], local, replies, n, m + 1, n));
        }
    }
    assert forall|address: AddressView| has_candidate(
        candidates,
        address,
    ) implies #[trigger] has_candidate(after, address) by {
        let c = choose|c: int|
            0 <= c < candidates.len() && (#[trigger] candidates[c]).result.address@ == address;
        assert(after[c].result.address@ == address);
    }
    assert forall|i: int, k: int| #[trigger] was_read(replies, n, m + 1, i, k) implies has_candidate(
        after,
        replies[i].results@[k].address@,
    ) by {
        if i == n && k == m {
            assert(after[id].result.address@ == result.address@);
        } else {
            assert(was_read(replies, n, m, i, k));
        }
    }
}

proof fn lemma_reply_read<P>(
    candidates: Seq<Candidate<P>>,
    local: Seq<QueryResult<P>>,
    replies: Seq<FanOutReply<P>>,
    n: int,
    m: nat,
)
    requires
        pool_rightly(candidates, local, replies, n, 0),
        0 <= n < replies.len(),
        m <= stamped(replies[n]).len(),
    ensures
        pool_rightly(
            interned(candidates, stamped(replies[n]), false, m).0,
            local,
            replies,
            n,
            m as int,
        ),
    decreases m,
{
    if m > 0 {
        lemma_reply_read(candidates, local, replies, n, (m - 1) as nat);
        lemma_read_step(
            interned(candidates, stamped(replies[n]), false, (m - 1) as nat).0,
            local,
            replies,
            n,
            m - 1,
        );
    }
}

proof fn lemma_pool_rightly<P>(local: Seq<QueryResult<P>>, replies: Seq<FanOutReply<P>>, n: nat)
    requires
        n <= replies.len(),
        local.len() <= usize::MAX,
    ensures
        pool_rightly(pooled(local, replies, n).0, local, replies, n as int, 0),
    decreases n,
{
    if n == 0 {
        lemma_local_copies(local, local.len());
        let candidates = pooled(local, replies, 0).0;
        assert forall|c: int| 0 <= c < candidates.len() implies stands_rightly(
            #[trigger] candidates[c],
            local,
            replies,
            0,
            0,
        ) by {
            assert(candidates[c].is_local);
        }
    } else {
        let at = n - 1;
        let before = pooled(local, replies, (n - 1) as nat).0;
        lemma_pool_rightly(local, replies, (n - 1) as nat);
        let m = stamped(replies[at]).len();
        lemma_reply_read(before, local, replies, at, m);
        let after = pooled(local, replies, n).0;
        assert forall|i: int, k: int| #[trigger] was_read(replies, n as int, 0, i, k) <==> was_read(
            replies,
            at,
            m as int,
            i,
            k,
        ) by {}
        assert forall|c: int| 0 <= c < after.len() implies stands_rightly(
            #[trigger] after[c],
            local,
            replies,
            n as int,
            0,
        ) by {
            assert(stands_rightly(after[c], local, replies, at, m as int));
            if !after[c].is_local {
                let from = choose|from: int| #[trigger]
                    is_best_copy(after[c], local, replies, at, m as int, from);
                assert(was_read(replies, n as int, 0, from, after[c].rank as int));
                assert forall|i: int, k: int| #[trigger]
                    was_read(replies, n as int, 0, i, k) && replies[i].results@[k].address@
                        == after[c].result.address@ implies after[c].rank < k || after[c].rank == k
                    && from <= i by {
                    assert(was_read(replies, at, m as int, i, k));
                }
                assert(is_best_copy(after[c], local, replies, n as int, 0, from));
            }
        }
        assert forall|i: int, k: int| #[trigger]
            was_read(replies, n as int, 0, i, k) implies has_candidate(
            after,
            replies[i].results@[k].address@,
        ) by {
            assert(was_read(replies, at, m as int, i, k));
        }
    }
}

/// A pool has one candidate for every address the local list or a reply
/// brings, and none besides: the local copy where this node has one, as it
/// is, else the remote copy that stands highest in its list, the earlier
/// node's of equals, marked with its node.
pub proof fn law_a_pool_holds_the_best_copies<P>(
    local: Seq<QueryResult<P>>,
    replies: Seq<FanOutReply<P>>,
)
    requires
        local.len() <= usize::MAX,
    ensures
        ({
            let candidates = pooled(local, replies, replies.len()).0;
            let n = replies.len() as int;
            &&& forall|c: int, d: int|
                0 <= c < d < candidates.len() ==> (#[trigger] candidates[c]).result.address@ != (
                #[trigger] candidates[d]).result.address@
            &&& forall|c: int|
                0 <= c < candidates.len() ==> stands_rightly(
                    #[trigger] candidates[c],
                    local,
                    replies,
                    n,
                    0,
                )
            &&& forall|k: int|
                0 <= k < local.len() ==> has_candidate(candidates, (#[trigger] local[k]).address@)
            &&& forall|i: int, k: int| #[trigger]
                was_read(replies, n, 0, i, k) ==> has_candidate(
                    candidates,
                    replies[i].results@[k].address@,
                )
        }),
{
    lemma_pool_rightly(local, replies, replies.len());
}

proof fn lemma_lists<P>(local: Seq<QueryResult<P>>, replies: Seq<FanOutReply<P>>, n: nat)
    requires
        n <= replies.len(),
    ensures
        ({
            let (candidates, lists) = pooled(local, replies, n);
            &&& distinct(candidates)
            &&& lists.len() == n + 1
            &&& lists[0].len() == local.len()
            &&& forall|k: int|
                0 <= k < local.len() ==> 0 <= lists[0][k] < candidates.len()
                    && candidates[lists[0][k]].result.address@ == (#[trigger] local[k]).address@
            &&& forall|i: int|
                0 <= i < n ==> (#[trigger] lists[i + 1]).len() == stamped(replies[i]).len()
            &&& forall|i: int, k: int|
                0 <= i < n && 0 <= k < stamped(replies[i]).len() ==> 0
                    <= #[trigger] lists[i + 1][k] < candidates.len()
                    && candidates[lists[i + 1][k]].result.address@
                    == replies[i].results@[k].address@
        }),
    decreases n,
{
    if n == 0 {
        lemma_interned(Seq::<Candidate<P>>::empty(), local, true, local.len());
    } else {
        lemma_lists(local, replies, (n - 1) as nat);
        let (before, earlier) = pooled(local, replies, (n - 1) as nat);
        let (candidates, lists) = pooled(local, replies, n);
        let read = stamped(replies[n - 1]);
        lemma_interned(before, read, false, read.len());
        assert(lists[0] == earlier[0]);
        assert forall|k: int| 0 <= k < local.len() implies 0 <= lists[0][k] < candidates.len()
            && candidates[lists[0][k]].result.address@ == (#[trigger] local[k]).address@ by {
            let id = earlier[0][k];
            assert(candidates[id].result.address@ == before[id].result.address@);
        }
        assert forall|i: int| 0 <= i < n implies (#[trigger] lists[i + 1]).len() == stamped(
            replies[i],
        ).len() by {
            if i < n - 1 {
                assert(lists[i + 1] == earlier[i + 1]);
            }
        }
        assert forall|i: int, k: int|
            0 <= i < n && 0 <= k < stamped(replies[i]).len() implies 0 <= #[trigger] lists[i + 1][k]
            < candidates.len() && candidates[lists[i + 1][k]].result.address@
            == replies[i].results@[k].address@ by {
            if i < n - 1 {
                assert(lists[i + 1] == earlier[i + 1]);
                let id = earlier[i + 1][k];
                assert(candidates[id].result.address@ == before[id].result.address@);
            } else {
                assert(lists[i + 1][k] == interned(before, read, false, read.len()).1[k]);
                assert(read[k].address == replies[i].results@[k].address);
            }
        }
    }
}

/// What is fused is what came: the local list first, then each reply's in
/// order, each held to the bound a query serves, naming for every place the
/// candidate of the address that stood there.
pub proof fn law_every_list_is_fused<P>(local: Seq<QueryResult<P>>, replies: Seq<FanOutReply<P>>)
    ensures
        ({
            let (candidates, lists) = pooled(local, replies, replies.len());
            &&& lists.len() == replies.len() + 1
            &&& lists[0].len() == local.len()
            &&& forall|k: int|
                0 <= k < local.len() ==> 0 <= lists[0][k] < candidates.len()
                    && candidates[lists[0][k]].result.address@ == (#[trigger] local[k]).address@
            &&& forall|i: int|
                0 <= i < replies.len() ==> (#[trigger] lists[i + 1]).len() == if replies[i].results@.len()
                    <= QUERY_LIMIT_MAX {
                    replies[i].results@.len()
                } else {
                    QUERY_LIMIT_MAX as nat
                }
            &&& forall|i: int, k: int|
                0 <= i < replies.len() && 0 <= k < lists[i + 1].len() ==> 0
                    <= #[trigger] lists[i + 1][k] < candidates.len()
                    && candidates[lists[i + 1][k]].result.address@
                    == replies[i].results@[k].address@
        }),
{
    lemma_lists(local, replies, replies.len());
}

/// The best come first: every candidate is ranked once, with its own score
/// shown, and of two, the one with the greater score stands first, the one
/// that was pooled first of equals.
pub proof fn law_the_best_come_first<P>(
    results: Seq<QueryResult<P>>,
    candidates: Seq<Candidate<P>>,
    scores: Seq<FusedScore>,
)
    requires
        is_ranking(results, candidates, scores),
        scores.len() == candidates.len() <= usize::MAX,
        distinct(candidates),
    ensures
        results.len() == candidates.len(),
        forall|i: int|
            0 <= i < results.len() ==> exists|c: int|
                0 <= c < candidates.len() && #[trigger] results[i] == (QueryResult {
                    score: scores[c].shown,
                    ..(#[trigger] candidates[c]).result
                }),
        forall|i: int, j: int, c: int, d: int|
            0 <= i < j < results.len() && 0 <= c < candidates.len() && 0 <= d < candidates.len()
                && (#[trigger] results[i]).address == (#[trigger] candidates[c]).result.address && (
            #[trigger] results[j]).address == (#[trigger] candidates[d]).result.address
                ==> scores[c].key > scores[d].key || scores[c].key == scores[d].key && c < d,
{
    let order = choose|order: Seq<RankKey>| #[trigger]
        order::is_sorting_of(order, rank_keys(scores)) && results.len() == order.len() && forall|
            i: int,
        |
            0 <= i < results.len() ==> #[trigger] results[i] == (QueryResult {
                score: scores[order[i].id as int].shown,
                ..candidates[order[i].id as int].result
            });
    lemma_rank_order(order, scores);
    assert forall|i: int| 0 <= i < results.len() implies exists|c: int|
        0 <= c < candidates.len() && #[trigger] results[i] == (QueryResult {
            score: scores[c].shown,
            ..(#[trigger] candidates[c]).result
        }) by {
        let c = order[i].id as int;
        assert(results[i] == (QueryResult { score: scores[c].shown, ..candidates[c].result }));
    }
    assert forall|i: int, j: int, c: int, d: int|
        0 <= i < j < results.len() && 0 <= c < candidates.len() && 0 <= d < candidates.len() && (
        #[trigger] results[i]).address == (#[trigger] candidates[c]).result.address && (
        #[trigger] results[j]).address == (
        #[trigger] candidates[d]).result.address implies scores[c].key > scores[d].key
        || scores[c].key == scores[d].key && c < d by {
        let a = order[i].id as int;
        let b = order[j].id as int;
        assert(candidates[a].result.address@ == candidates[c].result.address@);
        assert(candidates[b].result.address@ == candidates[d].result.address@);
        assert(a == c && b == d);
        assert(order[i].ranks_before(&order[j]));
    }
}

/// Whether two results are one content.
pub open spec fn same_content<P>(a: QueryResult<P>, b: QueryResult<P>) -> bool {
    a.content_digest is Some && b.content_digest is Some && a.content_digest->0@
        == b.content_digest->0@
}

/// Whether a result is the first of its content, or has no digest to say so.
pub open spec fn is_first_copy<P>(results: Seq<QueryResult<P>>, k: int) -> bool {
    forall|j: int| 0 <= j < k ==> !same_content(#[trigger] results[j], results[k])
}

/// Whether `kept` are the first copies among the first `n` results, at the
/// places `origins` names, everything but their replicas as it was; each
/// result's address is with the kept one of its content.
pub open spec fn keeps_first_copies<P>(
    kept: Seq<QueryResult<P>>,
    results: Seq<QueryResult<P>>,
    n: int,
    origins: Seq<int>,
) -> bool {
    &&& origins.len() == kept.len()
    &&& forall|i: int|
        0 <= i < kept.len() ==> 0 <= (#[trigger] origins[i]) < n && is_first_copy(
            results,
            origins[i],
        ) && kept[i] == (QueryResult { replicas: kept[i].replicas, ..results[origins[i]] })
    &&& forall|i: int, j: int|
        0 <= i < j < kept.len() ==> (#[trigger] origins[i]) < (#[trigger] origins[j])
    &&& forall|k: int| 0 <= k < n && #[trigger] is_first_copy(results, k) ==> origins.contains(k)
    &&& forall|i: int, k: int|
        0 <= i < kept.len() && 0 <= k < n && (origins[i] == k || same_content(
            results[origins[i]],
            results[k],
        )) ==> #[trigger] stands_for(kept[i], (#[trigger] results[k]).address@)
    &&& forall|i: int, r: int|
        0 <= i < kept.len() && 0 <= r < kept[i].replicas@.len() ==> content_brings(
            results,
            n,
            origins[i],
            (#[trigger] kept[i].replicas@[r])@,
        )
}

/// Whether a result at `origin`, or one of the first `n` of its content,
/// brings an address.
pub open spec fn content_brings<P>(
    results: Seq<QueryResult<P>>,
    n: int,
    origin: int,
    address: AddressView,
) -> bool {
    exists|k: int|
        0 <= k < n && (origin == k || same_content(results[origin], results[k]))
            && #[trigger] brings(results[k], address)
}

proof fn lemma_content_brings<P>(
    results: Seq<QueryResult<P>>,
    n: int,
    later: int,
    origin: int,
    address: AddressView,
)
    requires
        n <= later,
        content_brings(results, n, origin, address),
    ensures
        content_brings(results, later, origin, address),
{
    let k = choose|k: int|
        0 <= k < n && (origin == k || same_content(results[origin], results[k]))
            && #[trigger] brings(results[k], address);
    assert(brings(results[k], address));
}

/// Whether a result brings an address: its own, or one of its replicas.
pub open spec fn brings<P>(result: QueryResult<P>, address: AddressView) -> bool {
    result.address@ == address || holds_address(result.replicas@, address)
}

proof fn lemma_joined_from(
    kept: AddressView,
    replicas: Seq<Address>,
    incoming: Seq<Address>,
    n: nat,
)
    requires
        n <= incoming.len(),
    ensures
        forall|r: int|
            0 <= r < joined(kept, replicas, incoming, n).len() ==> replicas.contains(
                #[trigger] joined(kept, replicas, incoming, n)[r],
            ) || incoming.contains(joined(kept, replicas, incoming, n)[r]),
    decreases n,
{
    if n > 0 {
        lemma_joined_from(kept, replicas, incoming, (n - 1) as nat);
        let before = joined(kept, replicas, incoming, (n - 1) as nat);
        let after = joined(kept, replicas, incoming, n);
        assert forall|r: int| 0 <= r < after.len() implies replicas.contains(#[trigger] after[r])
            || incoming.contains(after[r]) by {
            if r < before.len() {
                assert(after[r] == before[r]);
            } else {
                assert(incoming[n - 1] == after[r]);
            }
        }
    }
}

proof fn lemma_first_copies<P>(
    history: Seq<Seq<QueryResult<P>>>,
    results: Seq<QueryResult<P>>,
    n: nat,
) -> (origins: Seq<int>)
    requires
        is_collapse(history, results),
        n <= results.len(),
    ensures
        keeps_first_copies(history[n as int], results, n as int, origins),
    decreases n,
{
    if n == 0 {
        Seq::empty()
    } else {
        let m = n - 1;
        let earlier = lemma_first_copies(history, results, (n - 1) as nat);
        let before = history[m];
        let kept = history[n as int];
        let result = results[m];
        assert(takes(history[m + 1], history[m], results[m]));
        let folded: Option<int> = match result.content_digest {
            Some(digest) => kept_with(before, digest@),
            None => None,
        };
        if result.content_digest is Some {
            lemma_kept_with(before, result.content_digest->0@);
        }
        match folded {
            Some(at) => {
                assert(same_content(results[earlier[at]], result));
                assert(!is_first_copy(results, m));
                lemma_joined_adds(
                    before[at].address@,
                    before[at].replicas@,
                    brought(result),
                    brought(result).len(),
                );
                lemma_joined_from(
                    before[at].address@,
                    before[at].replicas@,
                    brought(result),
                    brought(result).len(),
                );
                assert(brought(result)[0] == result.address);
                assert forall|i: int| 0 <= i < kept.len() implies 0 <= (#[trigger] earlier[i]) < n
                    && is_first_copy(results, earlier[i]) && kept[i] == (QueryResult {
                    replicas: kept[i].replicas,
                    ..results[earlier[i]]
                }) by {
                    assert(before[i] == (QueryResult {
                        replicas: before[i].replicas,
                        ..results[earlier[i]]
                    }));
                }
                assert forall|i: int, k: int|
                    0 <= i < kept.len() && 0 <= k < n && (earlier[i] == k || same_content(
                        results[earlier[i]],
                        results[k],
                    )) implies #[trigger] stands_for(kept[i], (#[trigger] results[k]).address@) by {
                    if k < m {
                        assert(stands_for(before[i], results[k].address@));
                        if i == at {
                            lemma_joined_keeps(
                                before[i].address@,
                                before[i].replicas@,
                                brought(result),
                                brought(result).len(),
                                results[k].address@,
                            );
                        }
                    } else {
                        assert(before[i].content_digest == results[earlier[i]].content_digest);
                        if i != at {
                            assert(before[at].content_digest
                                == results[earlier[at]].content_digest);
                            if i < at {
                                assert(is_first_copy(results, earlier[at]));
                                assert(!same_content(results[earlier[i]], results[earlier[at]]));
                            } else {
                                assert(is_first_copy(results, earlier[i]));
                                assert(!same_content(results[earlier[at]], results[earlier[i]]));
                            }
                        }
                    }
                }
                assert forall|i: int, r: int|
                    0 <= i < kept.len() && 0 <= r < kept[i].replicas@.len() implies content_brings(
                    results,
                    n as int,
                    earlier[i],
                    (#[trigger] kept[i].replicas@[r])@,
                ) by {
                    let address = kept[i].replicas@[r];
                    if before[i].replicas@.contains(address) {
                        let q = before[i].replicas@.index_of(address);
                        assert(before[i].replicas@[q] == address);
                        lemma_content_brings(results, m, n as int, earlier[i], address@);
                    } else {
                        assert(i == at);
                        assert(brought(result).contains(address));
                        let q = brought(result).index_of(address);
                        if q > 0 {
                            assert(result.replicas@[q - 1] == address);
                        }
                        assert(brings(results[m], address@));
                    }
                }
                assert forall|k: int| 0 <= k < n && #[trigger] is_first_copy(
                    results,
                    k,
                ) implies earlier.contains(k) by {
                    assert(k < m);
                }
                assert(keeps_first_copies(kept, results, n as int, earlier));
                earlier
            },
            None => {
                let origins = earlier.push(m);
                assert(kept == before.push(result));
                assert(is_first_copy(results, m)) by {
                    assert forall|j: int| 0 <= j < m implies !same_content(
                        #[trigger] results[j],
                        results[m],
                    ) by {
                        if same_content(results[j], results[m]) {
                            let first = lemma_first_of_content(results, j);
                            assert(is_first_copy(results, first));
                            assert(earlier.contains(first));
                            let i = earlier.index_of(first);
                            assert(before[i].content_digest == results[first].content_digest);
                        }
                    }
                }
                assert forall|i: int| 0 <= i < kept.len() implies 0 <= (#[trigger] origins[i]) < n
                    && is_first_copy(results, origins[i]) && kept[i] == (QueryResult {
                    replicas: kept[i].replicas,
                    ..results[origins[i]]
                }) by {
                    if i < before.len() {
                        assert(origins[i] == earlier[i]);
                        assert(kept[i] == before[i]);
                    }
                }
                assert forall|i: int, j: int| 0 <= i < j < kept.len() implies (
                #[trigger] origins[i]) < (#[trigger] origins[j]) by {
                    assert(origins[i] == earlier[i]);
                    if j < before.len() {
                        assert(origins[j] == earlier[j]);
                    }
                }
                assert forall|k: int| 0 <= k < n && #[trigger] is_first_copy(
                    results,
                    k,
                ) implies origins.contains(k) by {
                    if k < m {
                        let i = earlier.index_of(k);
                        assert(earlier.contains(k));
                        assert(origins[i] == k);
                    } else {
                        assert(origins[before.len() as int] == k);
                    }
                }
                assert forall|i: int, k: int|
                    0 <= i < kept.len() && 0 <= k < n && (origins[i] == k || same_content(
                        results[origins[i]],
                        results[k],
                    )) implies #[trigger] stands_for(kept[i], (#[trigger] results[k]).address@) by {
                    if i < before.len() {
                        assert(origins[i] == earlier[i]);
                        assert(kept[i] == before[i]);
                        if k == m {
                            assert(!same_content(results[origins[i]], results[m]));
                        } else {
                            assert(stands_for(before[i], results[k].address@));
                        }
                    } else if k < m {
                        assert(same_content(results[k], results[m]));
                    }
                }
                assert forall|i: int, r: int|
                    0 <= i < kept.len() && 0 <= r < kept[i].replicas@.len() implies content_brings(
                    results,
                    n as int,
                    origins[i],
                    (#[trigger] kept[i].replicas@[r])@,
                ) by {
                    if i < before.len() {
                        assert(origins[i] == earlier[i]);
                        assert(before[i].replicas@[r] == kept[i].replicas@[r]);
                        lemma_content_brings(
                            results,
                            m,
                            n as int,
                            earlier[i],
                            kept[i].replicas@[r]@,
                        );
                    } else {
                        assert(brings(results[m], kept[i].replicas@[r]@));
                    }
                }
                assert(keeps_first_copies(kept, results, n as int, origins));
                origins
            },
        }
    }
}

proof fn lemma_first_of_content<P>(results: Seq<QueryResult<P>>, k: int) -> (first: int)
    requires
        0 <= k < results.len(),
        results[k].content_digest is Some,
    ensures
        0 <= first <= k,
        same_content(results[first], results[k]),
        is_first_copy(results, first),
    decreases k,
{
    if is_first_copy(results, k) {
        k
    } else {
        let j = choose|j: int| 0 <= j < k && same_content(#[trigger] results[j], results[k]);
        lemma_first_of_content(results, j)
    }
}

/// A collapse keeps the best copy of every content, in order: the first
/// result of each digest and every result without one stay as they were but
/// for their replicas, every other result's address is with the kept one of
/// its own content, and a kept one has no replica but those its content's
/// results bring.
pub proof fn law_a_collapse_keeps_the_best_copies<P>(
    kept: Seq<QueryResult<P>>,
    results: Seq<QueryResult<P>>,
)
    requires
        collapses(kept, results),
    ensures
        exists|origins: Seq<int>| #[trigger]
            keeps_first_copies(kept, results, results.len() as int, origins),
{
    let history = choose|history: Seq<Seq<QueryResult<P>>>| #[trigger]
        is_collapse(history, results) && kept == history[results.len() as int];
    let origins = lemma_first_copies(history, results, results.len());
    assert(keeps_first_copies(kept, results, results.len() as int, origins));
}
} // verus!
