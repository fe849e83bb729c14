//! The vocabulary as the node holds it: which clusters a page shows and in
//! what order, and what hangs off one row.

use vstd::prelude::*;
use crate::order;
use crate::order::Ranked;

verus! {

/// Most anchored sources one `show` lists.
pub const SHOWN_SOURCES_MAX: u32 = 50;

/// Most member spellings a cluster view carries.
pub const CLUSTER_MEMBERS_SHOWN_MAX: usize = 24;

/// A cluster, as a listing ranks it.
#[derive(Debug, Clone, Copy, PartialEq, Eq)]
pub struct ClusterRank {
    pub id: i64,
    pub document_frequency: u32,
}

/// The most frequent first, then by id.
impl Ranked for ClusterRank {
    open spec fn ranks_before(&self, other: &Self) -> bool {
        self.document_frequency > other.document_frequency || (self.document_frequency
            == other.document_frequency && self.id <= other.id)
    }

    proof fn ranks_total(a: &Self, b: &Self) {
    }

    proof fn ranks_transitive(a: &Self, b: &Self, c: &Self) {
    }

    fn before(&self, other: &Self) -> (r: bool) {
        self.document_frequency > other.document_frequency || (self.document_frequency
            == other.document_frequency && self.id <= other.id)
    }
}

/// The part of a list past `offset`, at most `limit` of it.
pub open spec fn page_of<T>(list: Seq<T>, offset: nat, limit: nat) -> Seq<T> {
    if offset >= list.len() {
        Seq::empty()
    } else if list.len() - offset <= limit {
        list.skip(offset as int)
    } else {
        list.subrange(offset as int, (offset + limit) as int)
    }
}

/// One page of the clusters, the most frequent first.
pub fn cluster_page(clusters: Vec<ClusterRank>, offset: u32, limit: u32) -> (r: Vec<ClusterRank>)
    ensures
        exists|sorted: Seq<ClusterRank>| #[trigger]
            order::is_sorting_of(sorted, clusters@) && r@ == page_of(
                sorted,
                offset as nat,
                limit as nat,
            ),
        r@.len() <= limit,
{
    let ghost given = clusters@;
    let mut sorted = order::sorted(clusters);
    let ghost all = sorted@;
    proof {
        assert(order::is_sorting_of(all, given));
    }
    if offset as usize >= sorted.len() {
        proof {
            assert(page_of(all, offset as nat, limit as nat) =~= Seq::empty());
        }
        return Vec::new();
    }
    let mut page = sorted.split_off(offset as usize);
    proof {
        assert(page@ =~= all.skip(offset as int));
    }
    if page.len() > limit as usize {
        page.truncate(limit as usize);
    }
    proof {
        assert(page@ =~= page_of(all, offset as nat, limit as nat));
    }
    page
}

/// The first occurrences of a list, in order.
pub open spec fn firsts(ids: Seq<i64>) -> Seq<i64>
    decreases ids.len(),
{
    if ids.len() == 0 {
        Seq::empty()
    } else if firsts(ids.drop_last()).contains(ids.last()) {
        firsts(ids.drop_last())
    } else {
        firsts(ids.drop_last()).push(ids.last())
    }
}

/// The sources to show, each once, in the order they came.
pub fn distinct_sources(sources: &Vec<i64>) -> (r: Vec<i64>)
    ensures
        r@ == firsts(sources@),
{
    let mut out: Vec<i64> = Vec::new();
    let mut i: usize = 0;
    proof {
        assert(sources@.take(0) =~= Seq::empty());
    }
    while i < sources.len()
        invariant
            i <= sources@.len(),
            out@ == firsts(sources@.take(i as int)),
        decreases sources@.len() - i,
    {
        proof {
            assert(sources@.take(i as int + 1).drop_last() =~= sources@.take(i as int));
            assert(sources@.take(i as int + 1).last() == sources@[i as int]);
        }
        let id: i64 = sources[i];
        let mut held = false;
        let mut k: usize = 0;
        while k < out.len()
            invariant
                k <= out@.len(),
                held == exists|j: int| 0 <= j < k && out@[j] == id,
            decreases out@.len() - k,
        {
            if out[k] == id {
                held = true;
            }
            k = k + 1;
        }
        proof {
            assert(held == out@.contains(id));
        }
        if !held {
            out.push(id);
        }
        i = i + 1;
    }
    proof {
        assert(sources@.take(sources@.len() as int) =~= sources@);
    }
    out
}

/// A relation that touches a row.
#[derive(Debug, Clone, Copy, PartialEq, Eq)]
pub struct TouchingRelation {
    /// Whether the relation says one spelling is another's alias.
    pub aliases: bool,
    pub from: i64,
    pub to: i64,
}

/// The fragments that are aliases of `row`, in order.
pub open spec fn aliases_among(relations: Seq<TouchingRelation>, row: i64) -> Seq<i64>
    decreases relations.len(),
{
    if relations.len() == 0 {
        Seq::empty()
    } else if relations.last().aliases && relations.last().to == row {
        aliases_among(relations.drop_last(), row).push(relations.last().from)
    } else {
        aliases_among(relations.drop_last(), row)
    }
}

/// The fragments that are aliases of `row`.
pub fn alias_ids(relations: &Vec<TouchingRelation>, row: i64) -> (r: Vec<i64>)
    ensures
        r@ == aliases_among(relations@, row),
{
    let mut out: Vec<i64> = Vec::new();
    let mut i: usize = 0;
    proof {
        assert(relations@.take(0) =~= Seq::empty());
    }
    while i < relations.len()
        invariant
            i <= relations@.len(),
            out@ == aliases_among(relations@.take(i as int), row),
        decreases relations@.len() - i,
    {
        proof {
            assert(relations@.take(i as int + 1).drop_last() =~= relations@.take(i as int));
            assert(relations@.take(i as int + 1).last() == relations@[i as int]);
        }
        if relations[i].aliases && relations[i].to == row {
            out.push(relations[i].from);
        }
        i = i + 1;
    }
    proof {
        assert(relations@.take(relations@.len() as int) =~= relations@);
    }
    out
}

/// The member spellings a cluster view carries: the first of them.
pub fn shown_members(members: Vec<String>) -> (r: Vec<String>)
    ensures
        r@ == (if members@.len() <= CLUSTER_MEMBERS_SHOWN_MAX {
            members@
        } else {
            members@.take(CLUSTER_MEMBERS_SHOWN_MAX as int)
        }),
{
    let mut out = members;
    if out.len() > CLUSTER_MEMBERS_SHOWN_MAX {
        out.truncate(CLUSTER_MEMBERS_SHOWN_MAX);
    }
    out
}

/// What a vocabulary request asks for.
#[derive(Debug, Clone, Copy, PartialEq, Eq)]
pub enum VocabularyAnswer {
    /// One row by its spelling.
    Show,
    /// The clusters.
    Clusters,
    /// Rows by frequency.
    Rows,
}

/// What a vocabulary request is answered with: the row it names, else the
/// clusters when it asks for them, else rows.
pub fn answer_for(shows_a_row: bool, clusters: bool) -> (r: VocabularyAnswer)
    ensures
        r == (if shows_a_row {
            VocabularyAnswer::Show
        } else if clusters {
            VocabularyAnswer::Clusters
        } else {
            VocabularyAnswer::Rows
        }),
{
    if shows_a_row {
        VocabularyAnswer::Show
    } else if clusters {
        VocabularyAnswer::Clusters
    } else {
        VocabularyAnswer::Rows
    }
}


/// Pages follow one another: a page and the next make up the page of both
/// lengths, and one page that is long enough holds the whole list.
pub proof fn law_pages_make_up_the_list<T>(list: Seq<T>, offset: nat, first: nat, second: nat)
    ensures
        page_of(list, offset, first) + page_of(list, offset + first, second) == page_of(
            list,
            offset,
            first + second,
        ),
        first >= list.len() ==> page_of(list, 0, first) == list,
        page_of(list, offset, first).len() <= first,
        page_of(list, offset, first).len() == first || offset + first > list.len(),
        forall|i: int|
            0 <= i < page_of(list, offset, first).len() ==> #[trigger] page_of(
                list,
                offset,
                first,
            )[i] == list[offset + i],
{
    assert(page_of(list, offset, first) + page_of(list, offset + first, second) =~= page_of(
        list,
        offset,
        first + second,
    ));
    if first >= list.len() {
        assert(page_of(list, 0, first) =~= list);
    }
}

/// Every source is shown once, where it first came: the list shown holds
/// just the ids there are, none twice, and a list that goes on begins with
/// what its beginning shows.
pub proof fn law_every_source_is_shown_once(ids: Seq<i64>)
    ensures
        firsts(ids).no_duplicates(),
        forall|id: i64| #[trigger] firsts(ids).contains(id) <==> ids.contains(id),
        ids.len() > 0 ==> firsts(ids.drop_last()).is_prefix_of(firsts(ids)),
        ids.no_duplicates() ==> firsts(ids) == ids,
    decreases ids.len(),
{
    if ids.len() > 0 {
        let front = ids.drop_last();
        law_every_source_is_shown_once(front);
        let before = firsts(front);
        let all = firsts(ids);
        assert forall|id: i64| #[trigger] all.contains(id) <==> ids.contains(id) by {
            if all.contains(id) {
                let i = all.index_of(id);
                if i < before.len() {
                    assert(before[i] == id);
                    assert(before.contains(id));
                    let k = front.index_of(id);
                    assert(ids[k] == id);
                } else {
                    assert(ids[ids.len() - 1] == id);
                }
            }
            if ids.contains(id) {
                let k = ids.index_of(id);
                if k < front.len() {
                    assert(front[k] == id);
                    assert(before.contains(id));
                }
                if before.contains(id) {
                    let i = before.index_of(id);
                    assert(all[i] == id);
                } else {
                    assert(all[before.len() as int] == id);
                }
            }
        }
        if ids.no_duplicates() {
            assert(front.no_duplicates());
            assert(!front.contains(ids.last())) by {
                if front.contains(ids.last()) {
                    let k = front.index_of(ids.last());
                    assert(ids[k] == ids[ids.len() - 1]);
                }
            }
            assert(all =~= ids);
        }
    } else {
        assert(firsts(ids) =~= ids);
    }
}

/// The aliases of a row are the spellings that a relation says are its
/// aliases, every one, in order; a relation of another kind, or from the row
/// to another, makes none.
pub proof fn law_every_alias_is_listed(relations: Seq<TouchingRelation>, row: i64)
    ensures
        aliases_among(relations, row) == relations.filter(
            |relation: TouchingRelation| relation.aliases && relation.to == row,
        ).map_values(|relation: TouchingRelation| relation.from),
    decreases relations.len(),
{
    reveal(Seq::filter);
    if relations.len() > 0 {
        law_every_alias_is_listed(relations.drop_last(), row);
    }
    assert(aliases_among(relations, row) =~= relations.filter(
        |relation: TouchingRelation| relation.aliases && relation.to == row,
    ).map_values(|relation: TouchingRelation| relation.from));
}

/// Clusters are listed the most frequent first, and by id among equals.
pub proof fn law_the_most_frequent_clusters_come_first(
    clusters: Seq<ClusterRank>,
    sorted: Seq<ClusterRank>,
)
    requires
        order::is_sorting_of(sorted, clusters),
    ensures
        sorted.len() == clusters.len(),
        forall|i: int, j: int|
            0 <= i < j < sorted.len() ==> (#[trigger] sorted[i]).document_frequency >= (
            #[trigger] sorted[j]).document_frequency && (sorted[i].document_frequency
                == sorted[j].document_frequency ==> sorted[i].id <= sorted[j].id),
{
    order::lemma_sorting_len(sorted, clusters);
    assert forall|i: int, j: int| 0 <= i < j < sorted.len() implies (
    #[trigger] sorted[i]).document_frequency >= (#[trigger] sorted[j]).document_frequency && (
    sorted[i].document_frequency == sorted[j].document_frequency ==> sorted[i].id <= sorted[j].id) by {
        assert(sorted[i].ranks_before(&sorted[j]));
    }
}
} // verus!
