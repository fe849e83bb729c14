//! What the pass writes once the walk is done: the candidates it confirmed,
//! every known row's frequency, and the clusters the rows take.

use vstd::prelude::*;
use crate::order::{sorted, Ranked};
use crate::text;
use super::cluster::{ClusterSize, Clustering, FoundedCluster, Homes, Joining};
use super::config::VocabularyConfig;
use super::matching::CLUSTER_SOURCES_MAX;
use super::mine::Shape;
use super::rows::{NewRowView, NewVocabularyRow, PlantResult, VocabularyKind, VocabularyOrigin};
use super::table::{MatchedRow, MatchedView};

verus! {

/// Rows planted, frequencies written, or clusters founded per transaction.
pub const WRITE_BATCH: usize = 2_000;

/// Whether the walk confirmed a candidate to plant: in the band, and not a
/// row the store has.
pub open spec fn plants(row: MatchedView, df_min: u32, df_max: u32) -> bool {
    row.existing is None && row.candidate && df_min <= row.documents <= df_max
}

/// The indexes of the rows below `n` to plant, in order.
pub open spec fn planted_below(
    rows: Seq<MatchedView>,
    df_min: u32,
    df_max: u32,
    n: int,
) -> Seq<usize>
    decreases n,
{
    if n <= 0 {
        Seq::empty()
    } else {
        let before = planted_below(rows, df_min, df_max, n - 1);
        if plants(rows[n - 1], df_min, df_max) {
            before.push((n - 1) as usize)
        } else {
            before
        }
    }
}

/// The candidates the walk confirmed in the band: a phrase counts only
/// there, and a seen-filter false positive is a singleton the walk finds
/// out.
pub fn rows_to_plant(rows: &Vec<MatchedRow>, df_min: u32, df_max: u32) -> (r: Vec<usize>)
    ensures
        r@ == planted_below(
            super::table::row_views(rows@),
            df_min,
            df_max,
            rows@.len() as int,
        ),
        forall|i: int|
            0 <= i < r@.len() ==> (#[trigger] r@[i]) < rows@.len() && plants(
                rows@[r@[i] as int]@,
                df_min,
                df_max,
            ),
{
    let ghost views = super::table::row_views(rows@);
    let mut out: Vec<usize> = Vec::new();
    let mut i: usize = 0;
    proof {
        assert(out@ =~= Seq::empty());
    }
    while i < rows.len()
        invariant
            i <= rows@.len(),
            views == super::table::row_views(rows@),
            out@ == planted_below(views, df_min, df_max, i as int),
            forall|k: int|
                0 <= k < out@.len() ==> (#[trigger] out@[k]) < rows@.len() && plants(
                    rows@[out@[k] as int]@,
                    df_min,
                    df_max,
                ),
        decreases rows.len() - i,
    {
        let row = &rows[i];
        proof {
            assert(views[i as int] == row@);
        }
        if row.existing.is_none() && row.candidate && row.documents >= df_min && row.documents
            <= df_max {
            out.push(i);
        }
        i = i + 1;
    }
    out
}

/// A mined candidate as a row: identifiers under `identifier:`, terms under
/// `term:`.
pub open spec fn mined_view(row: MatchedView) -> NewRowView {
    let identifier = row.shape == Shape::Identifier;
    NewRowView {
        key: (if identifier {
            "identifier:"@
        } else {
            "term:"@
        }) + row.normalized,
        mimetype: if identifier {
            "text/x-inseam-identifier"@
        } else {
            "text/x-inseam-term"@
        },
        parameter: None,
        text: row.spelling,
        kind: if identifier {
            VocabularyKind::Identifier
        } else {
            VocabularyKind::Term
        },
        origin: VocabularyOrigin::Mined,
        normalized: row.normalized,
        document_frequency: row.documents,
    }
}

/// A mined candidate as a row: identifiers under `identifier:`, terms under
/// `term:`, the namespaces the hints transform already uses, so a term it
/// extracted and a term the pass mined are one keyed fragment.
pub fn mined_row(row: &MatchedRow) -> (r: NewVocabularyRow)
    requires
        row.existing is None,
    ensures
        r@ == mined_view(row@),
{
    let identifier = row.shape == Shape::Identifier;
    let mut key = if identifier {
        "identifier:".to_owned()
    } else {
        "term:".to_owned()
    };
    key.append(row.normalized.as_str());
    NewVocabularyRow {
        key,
        mimetype: if identifier {
            "text/x-inseam-identifier".to_owned()
        } else {
            "text/x-inseam-term".to_owned()
        },
        parameter: None,
        text: row.spelling.clone(),
        kind: if identifier {
            VocabularyKind::Identifier
        } else {
            VocabularyKind::Term
        },
        origin: VocabularyOrigin::Mined,
        normalized: row.normalized.clone(),
        document_frequency: row.documents,
    }
}

/// An alias as a row, under `alias:`.
pub open spec fn alias_view(alias: Seq<char>, normalized: Seq<char>) -> NewRowView {
    NewRowView {
        key: "alias:"@ + normalized,
        mimetype: "text/x-inseam-alias"@,
        parameter: None,
        text: alias,
        kind: VocabularyKind::Alias,
        origin: VocabularyOrigin::Grounded,
        normalized,
        document_frequency: 0,
    }
}

/// An alias as a row; `normalized` is its normalized spelling.
pub fn alias_row(alias: &str, normalized: &str) -> (r: NewVocabularyRow)
    ensures
        r@ == alias_view(alias@, normalized@),
{
    let mut key = "alias:".to_owned();
    key.append(normalized);
    NewVocabularyRow {
        key,
        mimetype: "text/x-inseam-alias".to_owned(),
        parameter: None,
        text: alias.to_owned(),
        kind: VocabularyKind::Alias,
        origin: VocabularyOrigin::Grounded,
        normalized: normalized.to_owned(),
        document_frequency: 0,
    }
}

/// The rows once the planted ones among them know their fragment.
pub open spec fn with_fragments(
    rows: Seq<MatchedView>,
    batch: Seq<usize>,
    results: Seq<PlantResult>,
) -> Seq<MatchedView>
    decreases batch.len(),
{
    if batch.len() == 0 {
        rows
    } else {
        let before = with_fragments(rows, batch.drop_last(), results);
        let at = batch.last() as int;
        before.update(
            at,
            MatchedView { fragment: Some(results[batch.len() - 1].fragment), ..before[at] },
        )
    }
}

/// Note the fragments a batch of planted rows got.
pub fn note_planted(rows: &mut Vec<MatchedRow>, batch: &Vec<usize>, results: &Vec<PlantResult>)
    requires
        batch@.len() == results@.len(),
        forall|i: int| 0 <= i < batch@.len() ==> (#[trigger] batch@[i]) < old(rows)@.len(),
    ensures
        final(rows)@.len() == old(rows)@.len(),
        super::table::row_views(final(rows)@) == with_fragments(
            super::table::row_views(old(rows)@),
            batch@,
            results@,
        ),
{
    let ghost start = super::table::row_views(rows@);
    let mut i: usize = 0;
    proof {
        assert(batch@.take(0) =~= Seq::empty());
    }
    while i < batch.len()
        invariant
            i <= batch@.len(),
            batch@.len() == results@.len(),
            rows@.len() == old(rows)@.len(),
            forall|k: int| 0 <= k < batch@.len() ==> (#[trigger] batch@[k]) < rows@.len(),
            super::table::row_views(rows@) == with_fragments(start, batch@.take(i as int), results@),
        decreases batch.len() - i,
    {
        let ghost before = super::table::row_views(rows@);
        proof {
            assert(batch@.take(i as int + 1).drop_last() =~= batch@.take(i as int));
            assert(batch@.take(i as int + 1).last() == batch@[i as int]);
        }
        let held = &rows[batch[i]];
        let sources = held.sources.clone();
        proof {
            assert(sources@ =~= held.sources@);
        }
        let next = MatchedRow {
            normalized: held.normalized.clone(),
            spelling: held.spelling.clone(),
            shape: held.shape,
            existing: held.existing,
            candidate: held.candidate,
            documents: held.documents,
            sources,
            fragment: Some(results[i].fragment),
        };
        rows.set(batch[i], next);
        proof {
            assert(super::table::row_views(rows@) =~= before.update(batch@[i as int] as int, next@));
            assert(before[batch@[i as int] as int] == held@);
        }
        i = i + 1;
    }
    proof {
        assert(batch@.take(batch@.len() as int) =~= batch@);
    }
}

/// The known rows among the first `n` and how many documents each has now.
pub open spec fn frequencies_below(rows: Seq<MatchedView>, n: int) -> Seq<(i64, u32)>
    decreases n,
{
    if n <= 0 {
        Seq::empty()
    } else {
        let before = frequencies_below(rows, n - 1);
        let row = rows[n - 1];
        if row.existing is Some && row.fragment is Some {
            before.push((row.fragment->0, row.documents))
        } else {
            before
        }
    }
}

/// Every known row's frequency, to be recorded.
pub fn known_frequencies(rows: &Vec<MatchedRow>) -> (r: Vec<(i64, u32)>)
    ensures
        r@ == frequencies_below(super::table::row_views(rows@), rows@.len() as int),
{
    let ghost views = super::table::row_views(rows@);
    let mut out: Vec<(i64, u32)> = Vec::new();
    let mut i: usize = 0;
    proof {
        assert(out@ =~= Seq::empty());
    }
    while i < rows.len()
        invariant
            i <= rows@.len(),
            views == super::table::row_views(rows@),
            out@ == frequencies_below(views, i as int),
        decreases rows.len() - i,
    {
        proof {
            assert(views[i as int] == rows@[i as int]@);
        }
        if rows[i].existing.is_some() {
            if let Some(fragment) = rows[i].fragment {
                out.push((fragment, rows[i].documents));
            }
        }
        i = i + 1;
    }
    out
}

// --- Clusters ---

/// Whether a row takes part in clustering: known to the store, and of a
/// kind that is clustered.
pub open spec fn clusters_row(row: MatchedView) -> bool {
    row.fragment is Some && row.clusterable()
}

/// The cluster the store has a row in.
pub open spec fn stored_cluster(row: MatchedView) -> Option<i64> {
    match row.existing {
        Some(existing) => existing.cluster,
        None => None,
    }
}

/// Whether `order` lists every row that takes part once, more documents
/// first, then by normalized spelling.
pub open spec fn is_cluster_order(rows: Seq<MatchedView>, order: Seq<usize>) -> bool {
    &&& order.no_duplicates()
    &&& forall|i: usize| #[trigger]
        order.contains(i) <==> i < rows.len() && clusters_row(rows[i as int])
    &&& forall|a: int, b: int|
        0 <= a < b < order.len() ==> {
            let x = rows[#[trigger] order[a] as int];
            let y = rows[#[trigger] order[b] as int];
            x.documents > y.documents || x.documents == y.documents && !text::precedes(
                y.normalized,
                x.normalized,
            )
        }
}

/// The sizes of the store's clusters recorded, in order.
pub open spec fn with_sizes(homes: Homes, stored: Seq<ClusterSize>) -> Homes
    decreases stored.len(),
{
    if stored.len() == 0 {
        homes
    } else {
        let before = with_sizes(homes, stored.drop_last());
        Homes {
            stored: before.stored.insert(stored.last().id, stored.last().members),
            ..before
        }
    }
}

/// The rows the store has in a cluster placed there, in order.
pub open spec fn with_placed(homes: Homes, rows: Seq<MatchedView>, order: Seq<usize>) -> Homes
    decreases order.len(),
{
    if order.len() == 0 {
        homes
    } else {
        let before = with_placed(homes, rows, order.drop_last());
        let row = rows[order.last() as int];
        match stored_cluster(row) {
            Some(id) => before.marked(super::cluster::Home::Stored(id), row.sources),
            None => before,
        }
    }
}

/// What a cluster a row founds is called: its spelling, or its normalized
/// spelling when it has none.
pub open spec fn label_of(row: MatchedView) -> Seq<char> {
    if row.spelling.len() == 0 {
        row.normalized
    } else {
        row.spelling
    }
}

/// The rows without a cluster, the first `limit` of an order.
pub open spec fn unclustered(rows: Seq<MatchedView>, order: Seq<usize>, limit: nat) -> Seq<usize>
    decreases order.len(),
{
    if order.len() == 0 {
        Seq::empty()
    } else {
        let before = unclustered(rows, order.drop_last(), limit);
        if stored_cluster(rows[order.last() as int]) is None && before.len() < limit {
            before.push(order.last())
        } else {
            before
        }
    }
}

/// The rows of `chosen` given a home each, in order. `floors` holds, for a
/// number of sources, how many of them a cluster must share.
pub open spec fn with_assigned(
    homes: Homes,
    rows: Seq<MatchedView>,
    chosen: Seq<usize>,
    floors: Seq<u32>,
    members_max: u32,
    clusters_max: nat,
) -> Homes
    decreases chosen.len(),
{
    if chosen.len() == 0 {
        homes
    } else {
        let before = with_assigned(
            homes,
            rows,
            chosen.drop_last(),
            floors,
            members_max,
            clusters_max,
        );
        let row = rows[chosen.last() as int];
        before.assigned(
            chosen.last(),
            label_of(row),
            row.sources,
            floors[row.sources.len() as int],
            members_max,
            clusters_max,
        )
    }
}

/// A clustering of nothing.
pub open spec fn no_homes() -> Homes {
    Homes {
        present: Map::empty(),
        stored: Map::empty(),
        founded: Seq::empty(),
        joins: Map::empty(),
        joined: 0,
    }
}

/// Every unclustered row's home, decided in an order of the rows.
pub open spec fn clustered(
    rows: Seq<MatchedView>,
    order: Seq<usize>,
    stored: Seq<ClusterSize>,
    config: VocabularyConfig,
    floors: Seq<u32>,
) -> Homes {
    with_assigned(
        with_placed(with_sizes(no_homes(), stored), rows, order),
        rows,
        unclustered(rows, order, config.cluster_assignments_per_sweep_max as nat),
        floors,
        config.cluster_terms_max,
        super::config::greater(config.clusters_max as nat, stored.len()),
    )
}

/// A row's place in the order of clustering.
struct OrderedRow {
    index: usize,
    documents: u32,
    normalized: String,
}

impl Ranked for OrderedRow {
    closed spec fn ranks_before(&self, other: &Self) -> bool {
        ||| self.documents > other.documents
        ||| self.documents == other.documents && !text::precedes(
            other.normalized@,
            self.normalized@,
        )
    }

    proof fn ranks_total(a: &Self, b: &Self) {
        if text::precedes(a.normalized@, b.normalized@) && text::precedes(
            b.normalized@,
            a.normalized@,
        ) {
            text::lemma_precedes_transitive(a.normalized@, b.normalized@, a.normalized@);
            text::lemma_precedes_irreflexive(a.normalized@);
        }
    }

    proof fn ranks_transitive(a: &Self, b: &Self, c: &Self) {
        text::lemma_precedes_total(a.normalized@, b.normalized@);
        text::lemma_precedes_total(b.normalized@, c.normalized@);
        if text::precedes(c.normalized@, a.normalized@) && a.normalized@ != b.normalized@
            && b.normalized@ != c.normalized@ && text::precedes(b.normalized@, c.normalized@) {
            text::lemma_precedes_transitive(b.normalized@, c.normalized@, a.normalized@);
        }
    }

    fn before(&self, other: &Self) -> (r: bool) {
        if self.documents != other.documents {
            self.documents > other.documents
        } else {
            !text::comes_before(other.normalized.as_str(), self.normalized.as_str())
        }
    }
}

fn cluster_order(rows: &Vec<MatchedRow>) -> (r: Vec<usize>)
    ensures
        is_cluster_order(super::table::row_views(rows@), r@),
{
    let ghost views = super::table::row_views(rows@);
    let mut listed: Vec<OrderedRow> = Vec::new();
    let mut i: usize = 0;
    while i < rows.len()
        invariant
            i <= rows@.len(),
            views == super::table::row_views(rows@),
            forall|k: int|
                0 <= k < listed@.len() ==> (#[trigger] listed@[k]).index < i && clusters_row(
                    views[listed@[k].index as int],
                ) && listed@[k].documents == views[listed@[k].index as int].documents
                    && listed@[k].normalized@ == views[listed@[k].index as int].normalized,
            forall|a: int, b: int|
                0 <= a < b < listed@.len() ==> (#[trigger] listed@[a]).index != (
                #[trigger] listed@[b]).index,
            forall|j: int|
                0 <= j < i && clusters_row(#[trigger] views[j]) ==> exists|k: int|
                    0 <= k < listed@.len() && (#[trigger] listed@[k]).index == j,
        decreases rows.len() - i,
    {
        let ghost before = listed@;
        proof {
            assert(views[i as int] == rows@[i as int]@);
        }
        if rows[i].fragment.is_some() && rows[i].clusterable() {
            listed.push(
                OrderedRow {
                    index: i,
                    documents: rows[i].documents,
                    normalized: rows[i].normalized.clone(),
                },
            );
        }
        proof {
            assert forall|j: int| 0 <= j < i + 1 && clusters_row(#[trigger] views[j]) implies exists|
                k: int,
            |
                0 <= k < listed@.len() && (#[trigger] listed@[k]).index == j by {
                if j < i {
                    let k = choose|k: int| 0 <= k < before.len() && (#[trigger] before[k]).index == j;
                    assert(listed@[k] == before[k]);
                } else {
                    assert(listed@[listed@.len() - 1].index == i);
                }
            }
        }
        i = i + 1;
    }
    let ghost input = listed@;
    let ordered = sorted(listed);
    let mut out: Vec<usize> = Vec::new();
    let mut k: usize = 0;
    while k < ordered.len()
        invariant
            k <= ordered@.len(),
            out@.len() == k,
            forall|j: int| 0 <= j < k ==> (#[trigger] out@[j]) == ordered@[j].index,
        decreases ordered.len() - k,
    {
        out.push(ordered[k].index);
        k = k + 1;
    }
    proof {
        assert(input.no_duplicates());
        crate::order::lemma_sorting_distinct(ordered@, input);
        assert forall|j: int| 0 <= j < ordered@.len() implies input.contains(#[trigger] ordered@[j]) by {
            crate::order::lemma_sorting_contains(ordered@, input, ordered@[j]);
            assert(ordered@.contains(ordered@[j]));
        }
        assert forall|a: int, b: int| 0 <= a < out@.len() && 0 <= b < out@.len() && a != b implies out@[a]
            != out@[b] by {
            assert(input.contains(ordered@[a]) && input.contains(ordered@[b]));
            let x = choose|x: int| 0 <= x < input.len() && input[x] == ordered@[a];
            let y = choose|y: int| 0 <= y < input.len() && input[y] == ordered@[b];
            if x < y {
                assert(input[x].index != input[y].index);
            } else if y < x {
                assert(input[y].index != input[x].index);
            } else {
                assert(ordered@[a] == ordered@[b]);
            }
            assert(out@[a] == ordered@[a].index && out@[b] == ordered@[b].index);
        }
        assert forall|j: usize| #[trigger]
            out@.contains(j) <==> j < views.len() && clusters_row(views[j as int]) by {
            if out@.contains(j) {
                let a = choose|a: int| 0 <= a < out@.len() && out@[a] == j;
                assert(out@[a] == ordered@[a].index);
                assert(input.contains(ordered@[a]));
            }
            if j < views.len() && clusters_row(views[j as int]) {
                let x = choose|x: int|
                    0 <= x < input.len() && (#[trigger] input[x]).index == j as int;
                assert(input.contains(input[x]));
                crate::order::lemma_sorting_contains(ordered@, input, input[x]);
                let a = choose|a: int| 0 <= a < ordered@.len() && ordered@[a] == input[x];
                assert(out@[a] == ordered@[a].index);
            }
        }
        assert forall|a: int, b: int| 0 <= a < b < out@.len() implies {
            let x = views[#[trigger] out@[a] as int];
            let y = views[#[trigger] out@[b] as int];
            x.documents > y.documents || x.documents == y.documents && !text::precedes(
                y.normalized,
                x.normalized,
            )
        } by {
            assert(ordered@[a].ranks_before(&ordered@[b]));
            assert(input.contains(ordered@[a]) && input.contains(ordered@[b]));
            assert(out@[a] == ordered@[a].index && out@[b] == ordered@[b].index);
        }
    }
    out
}

proof fn lemma_clusters_grow(
    homes: Homes,
    row: usize,
    label: Seq<char>,
    sources: Seq<i64>,
    at_least: u32,
    members_max: u32,
    clusters_max: nat,
)
    requires
        homes.stored.dom().finite(),
    ensures
        ({
            let after = homes.assigned(row, label, sources, at_least, members_max, clusters_max);
            &&& after.stored.dom().finite()
            &&& after.clusters() <= homes.clusters() + 1
            &&& after.joined <= homes.joined + 1
        }),
{
    if sources.len() > 0 {
        match homes.home_for(sources, at_least, members_max) {
            Some(home) => {
                assert(homes.admits(sources, at_least, members_max, home));
                let grown = homes.with_join(row, home, Seq::empty());
                lemma_marked_keeps(grown, home, sources);
                lemma_join_is_marked(homes, row, home, sources);
            },
            None => {
                if homes.clusters() < clusters_max {
                    let grown = Homes {
                        founded: homes.founded.push(
                            super::cluster::FoundedView { label, members: seq![row] },
                        ),
                        ..homes
                    };
                    lemma_marked_keeps(
                        grown,
                        super::cluster::Home::Founded(homes.founded.len() as usize),
                        sources,
                    );
                }
            },
        }
    }
}

proof fn lemma_join_is_marked(homes: Homes, row: usize, home: super::cluster::Home, sources: Seq<i64>)
    ensures
        homes.with_join(row, home, sources) == homes.with_join(row, home, Seq::empty()).marked(
            home,
            sources,
        ),
{
}

/// Marking sources changes neither sizes nor founded clusters nor joins.
proof fn lemma_marked_keeps(homes: Homes, home: super::cluster::Home, sources: Seq<i64>)
    ensures
        homes.marked(home, sources).stored == homes.stored,
        homes.marked(home, sources).founded == homes.founded,
        homes.marked(home, sources).joins == homes.joins,
        homes.marked(home, sources).joined == homes.joined,
    decreases sources.len(),
{
    if sources.len() > 0 {
        lemma_marked_keeps(homes, home, sources.drop_last());
    }
}

/// Decide every unclustered row's home, most frequent first: the rows the
/// store has in a cluster are placed there, then the others join or found
/// one, as many as a pass assigns. `stored` lists the store's clusters, and
/// `floors` says, for a number of sources, how many of them a cluster must
/// share for a row to join it.
pub fn cluster_rows(
    rows: &Vec<MatchedRow>,
    stored: &Vec<ClusterSize>,
    config: &VocabularyConfig,
    floors: &Vec<u32>,
) -> (r: Clustering)
    requires
        floors@.len() == CLUSTER_SOURCES_MAX + 1,
        forall|i: int|
            0 <= i < rows@.len() ==> (#[trigger] rows@[i]).sources@.len() <= CLUSTER_SOURCES_MAX,
        stored@.len() + rows@.len() < usize::MAX,
    ensures
        r.wf(),
        exists|order: Seq<usize>| #[trigger]
            is_cluster_order(super::table::row_views(rows@), order) && r@ == clustered(
                super::table::row_views(rows@),
                order,
                stored@,
                *config,
                floors@,
            ),
{
    let ghost views = super::table::row_views(rows@);
    let mut clustering = Clustering::new();
    let mut i: usize = 0;
    proof {
        assert(stored@.take(0) =~= Seq::empty());
    }
    while i < stored.len()
        invariant
            i <= stored@.len(),
            clustering.wf(),
            clustering@ == with_sizes(no_homes(), stored@.take(i as int)),
            clustering@.stored.dom().finite(),
            clustering@.clusters() <= i,
            clustering@.joined == 0,
        decreases stored.len() - i,
    {
        proof {
            assert(stored@.take(i as int + 1).drop_last() =~= stored@.take(i as int));
            assert(stored@.take(i as int + 1).last() == stored@[i as int]);
        }
        clustering.size(stored[i].id, stored[i].members);
        i = i + 1;
    }
    proof {
        assert(stored@.take(stored@.len() as int) =~= stored@);
    }
    let order = cluster_order(rows);
    proof {
        assert forall|k: int| 0 <= k < order@.len() implies (#[trigger] order@[k]) < rows@.len() by {
            assert(order@.contains(order@[k]));
        }
        super::matching::lemma_few_below(order@, rows@.len());
    }
    place_rows(&mut clustering, rows, &order);
    let limit: usize = config.cluster_assignments_per_sweep_max as usize;
    let configured: usize = config.clusters_max as usize;
    let clusters_max: usize = if configured >= stored.len() {
        configured
    } else {
        stored.len()
    };
    let chosen = choose_unclustered(rows, &order, limit);
    assign_rows(&mut clustering, rows, &chosen, floors, config.cluster_terms_max, clusters_max);
    clustering
}

fn place_rows(clustering: &mut Clustering, rows: &Vec<MatchedRow>, order: &Vec<usize>)
    requires
        old(clustering).wf(),
        forall|k: int| 0 <= k < order@.len() ==> (#[trigger] order@[k]) < rows@.len(),
    ensures
        final(clustering).wf(),
        final(clustering)@ == with_placed(
            old(clustering)@,
            super::table::row_views(rows@),
            order@,
        ),
        final(clustering)@.stored == old(clustering)@.stored,
        final(clustering)@.founded == old(clustering)@.founded,
        final(clustering)@.joined == old(clustering)@.joined,
{
    let ghost views = super::table::row_views(rows@);
    let mut i: usize = 0;
    proof {
        assert(order@.take(0) =~= Seq::empty());
    }
    while i < order.len()
        invariant
            i <= order@.len(),
            views == super::table::row_views(rows@),
            clustering.wf(),
            forall|k: int| 0 <= k < order@.len() ==> (#[trigger] order@[k]) < rows@.len(),
            clustering@ == with_placed(old(clustering)@, views, order@.take(i as int)),
            clustering@.stored == old(clustering)@.stored,
            clustering@.founded == old(clustering)@.founded,
            clustering@.joined == old(clustering)@.joined,
        decreases order.len() - i,
    {
        let row = &rows[order[i]];
        proof {
            assert(order@.take(i as int + 1).drop_last() =~= order@.take(i as int));
            assert(order@.take(i as int + 1).last() == order@[i as int]);
            assert(views[order@[i as int] as int] == row@);
        }
        let cluster: Option<i64> = match row.existing {
            Some(existing) => existing.cluster,
            None => None,
        };
        if let Some(id) = cluster {
            proof {
                lemma_marked_keeps(clustering@, super::cluster::Home::Stored(id), row.sources@);
            }
            clustering.place(id, &row.sources);
        }
        i = i + 1;
    }
    proof {
        assert(order@.take(order@.len() as int) =~= order@);
    }
}

fn choose_unclustered(rows: &Vec<MatchedRow>, order: &Vec<usize>, limit: usize) -> (r: Vec<usize>)
    requires
        forall|k: int| 0 <= k < order@.len() ==> (#[trigger] order@[k]) < rows@.len(),
    ensures
        r@ == unclustered(super::table::row_views(rows@), order@, limit as nat),
        r@.len() <= order@.len(),
        forall|k: int| 0 <= k < r@.len() ==> (#[trigger] r@[k]) < rows@.len(),
{
    let ghost views = super::table::row_views(rows@);
    let mut out: Vec<usize> = Vec::new();
    let mut i: usize = 0;
    proof {
        assert(order@.take(0) =~= Seq::empty());
        assert(out@ =~= Seq::empty());
    }
    while i < order.len()
        invariant
            i <= order@.len(),
            views == super::table::row_views(rows@),
            forall|k: int| 0 <= k < order@.len() ==> (#[trigger] order@[k]) < rows@.len(),
            out@ == unclustered(views, order@.take(i as int), limit as nat),
            out@.len() <= i,
            forall|k: int| 0 <= k < out@.len() ==> (#[trigger] out@[k]) < rows@.len(),
        decreases order.len() - i,
    {
        let row = &rows[order[i]];
        proof {
            assert(order@.take(i as int + 1).drop_last() =~= order@.take(i as int));
            assert(order@.take(i as int + 1).last() == order@[i as int]);
            assert(views[order@[i as int] as int] == row@);
        }
        let free: bool = match row.existing {
            Some(existing) => existing.cluster.is_none(),
            None => true,
        };
        if free && out.len() < limit {
            out.push(order[i]);
        }
        i = i + 1;
    }
    proof {
        assert(order@.take(order@.len() as int) =~= order@);
    }
    out
}

fn assign_rows(
    clustering: &mut Clustering,
    rows: &Vec<MatchedRow>,
    chosen: &Vec<usize>,
    floors: &Vec<u32>,
    members_max: u32,
    clusters_max: usize,
)
    requires
        old(clustering).wf(),
        floors@.len() == CLUSTER_SOURCES_MAX + 1,
        forall|i: int|
            0 <= i < rows@.len() ==> (#[trigger] rows@[i]).sources@.len() <= CLUSTER_SOURCES_MAX,
        forall|k: int| 0 <= k < chosen@.len() ==> (#[trigger] chosen@[k]) < rows@.len(),
        old(clustering)@.stored.dom().finite(),
        old(clustering)@.clusters() + chosen@.len() <= usize::MAX,
        old(clustering)@.joined + chosen@.len() < usize::MAX,
    ensures
        final(clustering).wf(),
        final(clustering)@ == with_assigned(
            old(clustering)@,
            super::table::row_views(rows@),
            chosen@,
            floors@,
            members_max,
            clusters_max as nat,
        ),
{
    let ghost views = super::table::row_views(rows@);
    let mut i: usize = 0;
    proof {
        assert(chosen@.take(0) =~= Seq::empty());
    }
    while i < chosen.len()
        invariant
            i <= chosen@.len(),
            views == super::table::row_views(rows@),
            clustering.wf(),
            floors@.len() == CLUSTER_SOURCES_MAX + 1,
            forall|k: int|
                0 <= k < rows@.len() ==> (#[trigger] rows@[k]).sources@.len()
                    <= CLUSTER_SOURCES_MAX,
            forall|k: int| 0 <= k < chosen@.len() ==> (#[trigger] chosen@[k]) < rows@.len(),
            clustering@ == with_assigned(
                old(clustering)@,
                views,
                chosen@.take(i as int),
                floors@,
                members_max,
                clusters_max as nat,
            ),
            clustering@.stored.dom().finite(),
            clustering@.clusters() <= old(clustering)@.clusters() + i,
            clustering@.joined <= old(clustering)@.joined + i,
            old(clustering)@.clusters() + chosen@.len() <= usize::MAX,
            old(clustering)@.joined + chosen@.len() < usize::MAX,
        decreases chosen.len() - i,
    {
        let index: usize = chosen[i];
        let row = &rows[index];
        proof {
            assert(chosen@.take(i as int + 1).drop_last() =~= chosen@.take(i as int));
            assert(chosen@.take(i as int + 1).last() == index);
            assert(views[index as int] == row@);
            lemma_clusters_grow(
                clustering@,
                index,
                label_of(row@),
                row.sources@,
                floors@[row.sources@.len() as int],
                members_max,
                clusters_max as nat,
            );
        }
        let label: &str = if row.spelling.as_str().is_empty() {
            row.normalized.as_str()
        } else {
            row.spelling.as_str()
        };
        clustering.assign(
            index,
            label,
            &row.sources,
            floors[row.sources.len()],
            members_max,
            clusters_max,
        );
        i = i + 1;
    }
    proof {
        assert(chosen@.take(chosen@.len() as int) =~= chosen@);
    }
}

/// The fragments of the members a cluster has, those that have one.
pub open spec fn member_fragments(rows: Seq<MatchedView>, members: Seq<usize>) -> Seq<i64>
    decreases members.len(),
{
    if members.len() == 0 {
        Seq::empty()
    } else {
        let before = member_fragments(rows, members.drop_last());
        match rows[members.last() as int].fragment {
            Some(fragment) => before.push(fragment),
            None => before,
        }
    }
}

/// Whether every member is a row there is.
pub open spec fn members_in(members: Seq<usize>, n: nat) -> bool {
    forall|i: int| 0 <= i < members.len() ==> (#[trigger] members[i]) < n
}

fn fragments_of(rows: &Vec<MatchedRow>, members: &Vec<usize>) -> (r: Vec<i64>)
    requires
        members_in(members@, rows@.len()),
    ensures
        r@ == member_fragments(super::table::row_views(rows@), members@),
{
    let ghost views = super::table::row_views(rows@);
    let mut out: Vec<i64> = Vec::new();
    let mut i: usize = 0;
    proof {
        assert(members@.take(0) =~= Seq::empty());
        assert(out@ =~= Seq::empty());
    }
    while i < members.len()
        invariant
            i <= members@.len(),
            views == super::table::row_views(rows@),
            members_in(members@, rows@.len()),
            out@ == member_fragments(views, members@.take(i as int)),
        decreases members.len() - i,
    {
        proof {
            assert(members@.take(i as int + 1).drop_last() =~= members@.take(i as int));
            assert(members@.take(i as int + 1).last() == members@[i as int]);
            assert(views[members@[i as int] as int] == rows@[members@[i as int] as int]@);
        }
        if let Some(fragment) = rows[members[i]].fragment {
            out.push(fragment);
        }
        i = i + 1;
    }
    proof {
        assert(members@.take(members@.len() as int) =~= members@);
    }
    out
}

/// A cluster to write: its label and the fragments of its members.
#[derive(Debug, PartialEq, Eq)]
pub struct ClusterToFound {
    pub label: String,
    pub members: Vec<i64>,
}

/// What a cluster to write says.
pub open spec fn found_view(cluster: ClusterToFound) -> (Seq<char>, Seq<i64>) {
    (cluster.label@, cluster.members@)
}

/// The founded clusters with a member the store knows, in founding order.
pub open spec fn founded_to_write(
    rows: Seq<MatchedView>,
    founded: Seq<FoundedCluster>,
) -> Seq<(Seq<char>, Seq<i64>)>
    decreases founded.len(),
{
    if founded.len() == 0 {
        Seq::empty()
    } else {
        let before = founded_to_write(rows, founded.drop_last());
        let members = member_fragments(rows, founded.last().members@);
        if members.len() == 0 {
            before
        } else {
            before.push((founded.last().label@, members))
        }
    }
}

/// The founded clusters to write: each with its members' fragments, those
/// without any left out.
pub fn clusters_to_found(rows: &Vec<MatchedRow>, founded: &Vec<FoundedCluster>) -> (r: Vec<
    ClusterToFound,
>)
    requires
        forall|i: int|
            0 <= i < founded@.len() ==> members_in((#[trigger] founded@[i]).members@, rows@.len()),
    ensures
        Seq::new(r@.len(), |i: int| found_view(r@[i])) == founded_to_write(
            super::table::row_views(rows@),
            founded@,
        ),
{
    let ghost views = super::table::row_views(rows@);
    let mut out: Vec<ClusterToFound> = Vec::new();
    let mut i: usize = 0;
    proof {
        assert(founded@.take(0) =~= Seq::empty());
        assert(Seq::new(out@.len(), |i: int| found_view(out@[i])) =~= Seq::empty());
    }
    while i < founded.len()
        invariant
            i <= founded@.len(),
            views == super::table::row_views(rows@),
            forall|k: int|
                0 <= k < founded@.len() ==> members_in(
                    (#[trigger] founded@[k]).members@,
                    rows@.len(),
                ),
            Seq::new(out@.len(), |k: int| found_view(out@[k])) == founded_to_write(
                views,
                founded@.take(i as int),
            ),
        decreases founded.len() - i,
    {
        let ghost before = Seq::new(out@.len(), |k: int| found_view(out@[k]));
        proof {
            assert(founded@.take(i as int + 1).drop_last() =~= founded@.take(i as int));
            assert(founded@.take(i as int + 1).last() == founded@[i as int]);
        }
        let members = fragments_of(rows, &founded[i].members);
        if members.len() > 0 {
            let next = ClusterToFound { label: founded[i].label.clone(), members };
            out.push(next);
            proof {
                assert(Seq::new(out@.len(), |k: int| found_view(out@[k])) =~= before.push(
                    found_view(next),
                ));
            }
        }
        i = i + 1;
    }
    proof {
        assert(founded@.take(founded@.len() as int) =~= founded@);
    }
    out
}

/// The fragments joining a cluster the store holds.
pub fn fragments_joining(rows: &Vec<MatchedRow>, joining: &Joining) -> (r: Vec<i64>)
    requires
        members_in(joining.members@, rows@.len()),
    ensures
        r@ == member_fragments(super::table::row_views(rows@), joining.members@),
{
    fragments_of(rows, &joining.members)
}

/// The largest batch a transaction takes of what is left after `from`.
pub fn batch_end(len: usize, from: usize) -> (r: usize)
    requires
        from <= len,
    ensures
        r == if len - from > WRITE_BATCH {
            from + WRITE_BATCH
        } else {
            len as int
        },
        from <= r <= len,
{
    if len - from > WRITE_BATCH {
        from + WRITE_BATCH
    } else {
        len
    }
}


/// The rows to plant are those the walk confirmed, each once, in order: a
/// candidate the store does not have, found in as many documents as a row
/// may be.
pub proof fn law_every_confirmed_candidate_is_planted(
    rows: Seq<MatchedView>,
    df_min: u32,
    df_max: u32,
    n: int,
)
    requires
        0 <= n <= rows.len() <= usize::MAX,
    ensures
        forall|at: usize| #[trigger]
            planted_below(rows, df_min, df_max, n).contains(at) <==> at < n && rows[at as int].candidate
                && rows[at as int].existing is None && df_min <= rows[at as int].documents
                && rows[at as int].documents <= df_max,
        forall|i: int, j: int|
            0 <= i < j < planted_below(rows, df_min, df_max, n).len() ==> #[trigger] planted_below(
                rows,
                df_min,
                df_max,
                n,
            )[i] < #[trigger] planted_below(rows, df_min, df_max, n)[j],
    decreases n,
{
    if n > 0 {
        law_every_confirmed_candidate_is_planted(rows, df_min, df_max, n - 1);
        let before = planted_below(rows, df_min, df_max, n - 1);
        let all = planted_below(rows, df_min, df_max, n);
        let last = (n - 1) as usize;
        assert forall|i: int| 0 <= i < before.len() implies (#[trigger] before[i]) < n - 1 by {
            assert(before.contains(before[i]));
        }
        assert forall|at: usize| #[trigger] all.contains(at) <==> at < n && rows[at as int].candidate
            && rows[at as int].existing is None && df_min <= rows[at as int].documents
            && rows[at as int].documents <= df_max by {
            if before.contains(at) {
                let i = before.index_of(at);
                assert(all[i] == at);
            }
            if all.contains(at) {
                let i = all.index_of(at);
                if i < before.len() {
                    assert(before[i] == at);
                } else {
                    assert(at == last);
                }
            }
            if at == last && plants(rows[n - 1], df_min, df_max) {
                assert(all[before.len() as int] == last);
            }
        }
    }
}

/// A planted row knows the fragment its planting came to; nothing else of it
/// changes, and nothing of a row that was not planted.
pub proof fn law_planted_rows_know_their_fragments(
    rows: Seq<MatchedView>,
    batch: Seq<usize>,
    results: Seq<PlantResult>,
)
    requires
        batch.no_duplicates(),
        batch.len() <= results.len(),
        forall|i: int| 0 <= i < batch.len() ==> (#[trigger] batch[i]) < rows.len(),
    ensures
        ({
            let after = with_fragments(rows, batch, results);
            &&& after.len() == rows.len()
            &&& forall|i: int|
                0 <= i < batch.len() ==> (after[#[trigger] batch[i] as int]).fragment == Some(
                    results[i].fragment,
                )
            &&& forall|at: int|
                0 <= at < rows.len() ==> {
                    &&& (#[trigger] after[at]).normalized == rows[at].normalized
                    &&& after[at].spelling == rows[at].spelling
                    &&& after[at].shape == rows[at].shape
                    &&& after[at].existing == rows[at].existing
                    &&& after[at].candidate == rows[at].candidate
                    &&& after[at].documents == rows[at].documents
                    &&& after[at].sources == rows[at].sources
                    &&& !batch.contains(at as usize) ==> after[at].fragment == rows[at].fragment
                }
        }),
    decreases batch.len(),
{
    let after = with_fragments(rows, batch, results);
    if batch.len() > 0 {
        let front = batch.drop_last();
        let last = batch.len() - 1;
        law_planted_rows_know_their_fragments(rows, front, results);
        let before = with_fragments(rows, front, results);
        assert forall|i: int| 0 <= i < batch.len() implies (after[#[trigger] batch[i] as int]).fragment
            == Some(results[i].fragment) by {
            if i < last {
                assert(front[i] == batch[i]);
                assert(batch[i] != batch[last]);
            }
        }
        assert forall|at: int| 0 <= at < rows.len() implies {
            &&& (#[trigger] after[at]).normalized == rows[at].normalized
            &&& after[at].spelling == rows[at].spelling
            &&& after[at].shape == rows[at].shape
            &&& after[at].existing == rows[at].existing
            &&& after[at].candidate == rows[at].candidate
            &&& after[at].documents == rows[at].documents
            &&& after[at].sources == rows[at].sources
            &&& !batch.contains(at as usize) ==> after[at].fragment == rows[at].fragment
        } by {
            assert(before[at].normalized == rows[at].normalized);
            if !batch.contains(at as usize) {
                assert(!front.contains(at as usize)) by {
                    if front.contains(at as usize) {
                        let i = front.index_of(at as usize);
                        assert(batch[i] == at as usize);
                    }
                }
                assert(batch[last] != at as usize);
            }
        }
    }
}

/// Every row the store knows has the number of documents it was found in
/// recorded under its fragment, in order; a row that was not there when the
/// pass began is planted with its number.
pub proof fn law_every_known_row_is_measured(rows: Seq<MatchedView>)
    ensures
        frequencies_below(rows, rows.len() as int) == rows.filter(
            |row: MatchedView| row.existing is Some && row.fragment is Some,
        ).map_values(|row: MatchedView| (row.fragment->0, row.documents)),
    decreases rows.len(),
{
    reveal(Seq::filter);
    if rows.len() > 0 {
        law_every_known_row_is_measured(rows.drop_last());
        lemma_frequencies_front(rows, rows.drop_last(), rows.len() - 1);
    }
    assert(frequencies_below(rows, rows.len() as int) =~= rows.filter(
        |row: MatchedView| row.existing is Some && row.fragment is Some,
    ).map_values(|row: MatchedView| (row.fragment->0, row.documents)));
}

proof fn lemma_frequencies_front(rows: Seq<MatchedView>, front: Seq<MatchedView>, n: int)
    requires
        n <= front.len() <= rows.len(),
        front.is_prefix_of(rows),
    ensures
        frequencies_below(rows, n) == frequencies_below(front, n),
    decreases n,
{
    if n > 0 {
        lemma_frequencies_front(rows, front, n - 1);
        assert(rows[n - 1] == front[n - 1]);
    }
}

/// The rows that are given a home are those the store has in no cluster,
/// the first in the order, as many as a pass assigns.
pub proof fn law_the_first_rows_without_a_cluster_are_assigned(
    rows: Seq<MatchedView>,
    order: Seq<usize>,
    limit: nat,
)
    ensures
        ({
            let chosen = unclustered(rows, order, limit);
            let free = order.filter(
                |at: usize|
                    rows[at as int].existing is None || rows[at as int].existing->0.cluster is None,
            );
            chosen.is_prefix_of(free) && (chosen.len() == limit || chosen.len() == free.len())
                && chosen.len() <= limit
        }),
    decreases order.len(),
{
    reveal(Seq::filter);
    if order.len() > 0 {
        law_the_first_rows_without_a_cluster_are_assigned(rows, order.drop_last(), limit);
    }
}

/// The sizes recorded are the store's: each cluster listed once has the
/// members it is listed with, and nothing else is touched.
pub proof fn law_stored_clusters_have_their_sizes(homes: Homes, stored: Seq<ClusterSize>)
    requires
        forall|i: int, j: int|
            0 <= i < j < stored.len() ==> (#[trigger] stored[i]).id != (#[trigger] stored[j]).id,
    ensures
        ({
            let after = with_sizes(homes, stored);
            &&& forall|i: int|
                0 <= i < stored.len() ==> after.stored.contains_key((#[trigger] stored[i]).id)
                    && after.stored[stored[i].id] == stored[i].members
            &&& forall|id: i64|
                (forall|i: int| 0 <= i < stored.len() ==> (#[trigger] stored[i]).id != id) ==> (
                #[trigger] after.stored.contains_key(id) <==> homes.stored.contains_key(id)) && (
                homes.stored.contains_key(id) ==> after.stored[id] == homes.stored[id])
            &&& after.present == homes.present
            &&& after.founded == homes.founded
            &&& after.joins == homes.joins
            &&& after.joined == homes.joined
        }),
    decreases stored.len(),
{
    if stored.len() > 0 {
        let front = stored.drop_last();
        let last = stored.len() - 1;
        law_stored_clusters_have_their_sizes(homes, front);
        let before = with_sizes(homes, front);
        let after = with_sizes(homes, stored);
        assert forall|i: int| 0 <= i < stored.len() implies after.stored.contains_key(
            (#[trigger] stored[i]).id,
        ) && after.stored[stored[i].id] == stored[i].members by {
            if i < last {
                assert(front[i] == stored[i]);
                assert(stored[i].id != stored[last].id);
            }
        }
        assert forall|id: i64|
            (forall|i: int| 0 <= i < stored.len() ==> (#[trigger] stored[i]).id != id) implies (
        #[trigger] after.stored.contains_key(id) <==> homes.stored.contains_key(id)) && (
        homes.stored.contains_key(id) ==> after.stored[id] == homes.stored[id]) by {
            assert forall|i: int| 0 <= i < front.len() implies (#[trigger] front[i]).id != id by {
                assert(stored[i].id != id);
            }
            assert(stored[last].id != id);
            assert(before.stored.contains_key(id) <==> homes.stored.contains_key(id));
        }
    }
}

proof fn lemma_marks_stay(homes: Homes, home: super::cluster::Home, sources: Seq<i64>, source: i64)
    ensures
        homes.homes_of(source).is_prefix_of(homes.marked(home, sources).homes_of(source)),
    decreases sources.len(),
{
    if sources.len() > 0 {
        lemma_marks_stay(homes, home, sources.drop_last(), source);
        let before = homes.marked(home, sources.drop_last());
        let after = homes.marked(home, sources);
        assert(before.homes_of(source).is_prefix_of(after.homes_of(source)));
    }
}

proof fn lemma_placed_stay(
    homes: Homes,
    rows: Seq<MatchedView>,
    order: Seq<usize>,
    source: i64,
)
    ensures
        homes.homes_of(source).is_prefix_of(with_placed(homes, rows, order).homes_of(source)),
    decreases order.len(),
{
    if order.len() > 0 {
        let before = with_placed(homes, rows, order.drop_last());
        let row = rows[order.last() as int];
        lemma_placed_stay(homes, rows, order.drop_last(), source);
        if let Some(id) = stored_cluster(row) {
            lemma_marks_stay(before, super::cluster::Home::Stored(id), row.sources, source);
        }
    }
}

/// Every row the store has in a cluster brings that cluster to each of its
/// sources, as long as the source has room; placing rows changes the size of
/// no cluster, founds none and lets nobody join.
pub proof fn law_stored_rows_bring_their_clusters(
    homes: Homes,
    rows: Seq<MatchedView>,
    order: Seq<usize>,
    k: int,
    s: int,
)
    requires
        0 <= k < order.len(),
        rows[order[k] as int].existing is Some,
        rows[order[k] as int].existing->0.cluster is Some,
        0 <= s < rows[order[k] as int].sources.len(),
    ensures
        ({
            let after = with_placed(homes, rows, order);
            let row = rows[order[k] as int];
            let id = row.existing->0.cluster->0;
            &&& after.homes_of(row.sources[s]).contains(super::cluster::Home::Stored(id))
                || after.homes_of(row.sources[s]).len() >= super::cluster::CLUSTERS_PER_SOURCE_MAX
            &&& after.stored == homes.stored
            &&& after.founded == homes.founded
            &&& after.joins == homes.joins
            &&& after.joined == homes.joined
        }),
    decreases order.len(),
{
    let after = with_placed(homes, rows, order);
    let row = rows[order[k] as int];
    let id = row.existing->0.cluster->0;
    let home = super::cluster::Home::Stored(id);
    let source = row.sources[s];
    let before = with_placed(homes, rows, order.drop_last());
    lemma_placed_keeps(homes, rows, order);
    if k < order.len() - 1 {
        assert(order.drop_last()[k] == order[k]);
        law_stored_rows_bring_their_clusters(homes, rows, order.drop_last(), k, s);
        if let Some(other) = stored_cluster(rows[order.last() as int]) {
            lemma_marks_stay(
                before,
                super::cluster::Home::Stored(other),
                rows[order.last() as int].sources,
                source,
            );
        }
        let held = before.homes_of(source);
        if held.contains(home) {
            let i = held.index_of(home);
            assert(after.homes_of(source)[i] == home);
        }
    } else {
        super::cluster::law_a_placed_cluster_is_present(before, home, row.sources);
        lemma_marks_stay(before, home, row.sources, source);
        assert(after == before.marked(home, row.sources));
        assert(row.sources[s] == source);
    }
}

proof fn lemma_placed_keeps(homes: Homes, rows: Seq<MatchedView>, order: Seq<usize>)
    ensures
        with_placed(homes, rows, order).stored == homes.stored,
        with_placed(homes, rows, order).founded == homes.founded,
        with_placed(homes, rows, order).joins == homes.joins,
        with_placed(homes, rows, order).joined == homes.joined,
    decreases order.len(),
{
    if order.len() > 0 {
        lemma_placed_keeps(homes, rows, order.drop_last());
        let row = rows[order.last() as int];
        if let Some(id) = stored_cluster(row) {
            lemma_marked_keeps(
                with_placed(homes, rows, order.drop_last()),
                super::cluster::Home::Stored(id),
                row.sources,
            );
        }
    }
}

/// A cluster is written with the fragment of every member that has one, in
/// order, and only a cluster with such a member is written, under its label.
pub proof fn law_clusters_are_written_with_their_members(
    rows: Seq<MatchedView>,
    members: Seq<usize>,
    founded: Seq<FoundedCluster>,
)
    ensures
        member_fragments(rows, members) == members.filter(
            |at: usize| rows[at as int].fragment is Some,
        ).map_values(|at: usize| rows[at as int].fragment->0),
        founded_to_write(rows, founded) == founded.filter(
            |cluster: FoundedCluster| member_fragments(rows, cluster.members@).len() > 0,
        ).map_values(
            |cluster: FoundedCluster|
                (cluster.label@, member_fragments(rows, cluster.members@)),
        ),
    decreases members.len(), founded.len(),
{
    reveal(Seq::filter);
    if members.len() > 0 {
        law_clusters_are_written_with_their_members(rows, members.drop_last(), founded);
    } else if founded.len() > 0 {
        law_clusters_are_written_with_their_members(rows, members, founded.drop_last());
    }
    assert(member_fragments(rows, members) =~= members.filter(
        |at: usize| rows[at as int].fragment is Some,
    ).map_values(|at: usize| rows[at as int].fragment->0));
    if members.len() == 0 {
        assert(founded_to_write(rows, founded) =~= founded.filter(
            |cluster: FoundedCluster| member_fragments(rows, cluster.members@).len() > 0,
        ).map_values(
            |cluster: FoundedCluster|
                (cluster.label@, member_fragments(rows, cluster.members@)),
        ));
    }
}

/// Two mined candidates, or a candidate and an alias, are planted under one
/// key only if they are of one namespace and one normalized spelling, and a
/// candidate is planted as the kind it was counted as.
pub proof fn law_keys_tell_rows_apart(row: MatchedView, other: MatchedView, alias: Seq<char>)
    requires
        row.existing is None,
    ensures
        mined_view(row).key == mined_view(other).key <==> row.normalized == other.normalized && (
        row.shape == Shape::Identifier) == (other.shape == Shape::Identifier),
        mined_view(row).key != alias_view(alias, other.normalized).key,
        alias_view(alias, row.normalized).key == alias_view(alias, other.normalized).key
            <==> row.normalized == other.normalized,
        mined_view(row).kind == row.kind(),
        mined_view(row).normalized == row.normalized,
        mined_view(row).text == row.spelling,
        mined_view(row).document_frequency == row.documents,
        mined_view(row).origin != alias_view(alias, other.normalized).origin,
{
    reveal_strlit("identifier:");
    reveal_strlit("term:");
    reveal_strlit("alias:");
    lemma_keyed_apart("identifier:"@, row.normalized, other.normalized);
    lemma_keyed_apart("term:"@, row.normalized, other.normalized);
    lemma_keyed_apart("alias:"@, row.normalized, other.normalized);
    assert(mined_view(row).key[0] == if row.shape == Shape::Identifier {
        'i'
    } else {
        't'
    });
    assert(mined_view(other).key[0] == if other.shape == Shape::Identifier {
        'i'
    } else {
        't'
    });
    assert(alias_view(alias, other.normalized).key[0] == 'a');
}

proof fn lemma_keyed_apart(space: Seq<char>, a: Seq<char>, b: Seq<char>)
    ensures
        space + a == space + b <==> a == b,
{
    if space + a == space + b {
        assert((space + a).skip(space.len() as int) =~= a);
        assert((space + b).skip(space.len() as int) =~= b);
    }
}

/// Clusters are made of the words the store knows, terms, identifiers and
/// entities, never of facets or aliases; each takes part once, those in more
/// documents first, by normalized spelling among equals.
pub proof fn law_words_are_clustered_the_most_frequent_first(
    rows: Seq<MatchedView>,
    order: Seq<usize>,
    i: usize,
)
    requires
        is_cluster_order(rows, order),
        i < rows.len(),
    ensures
        ({
            let row = rows[i as int];
            let kind = match row.existing {
                Some(existing) => existing.kind,
                None => if row.shape == Shape::Identifier {
                    VocabularyKind::Identifier
                } else {
                    VocabularyKind::Term
                },
            };
            order.contains(i) <==> row.fragment is Some && kind != VocabularyKind::Facet && kind
                != VocabularyKind::Alias
        }),
        order.no_duplicates(),
        forall|a: int, b: int|
            0 <= a < b < order.len() ==> {
                let x = rows[#[trigger] order[a] as int];
                let y = rows[#[trigger] order[b] as int];
                x.documents >= y.documents && (x.documents == y.documents ==> !text::precedes(
                    y.normalized,
                    x.normalized,
                ))
            },
{
}

/// What a cluster a row founds is called reads as the row does: its own
/// spelling, and only for want of one its normalized spelling.
pub proof fn law_a_cluster_is_called_by_its_founder(row: MatchedView)
    ensures
        row.spelling.len() > 0 ==> label_of(row) == row.spelling,
        row.spelling.len() == 0 ==> label_of(row) == row.normalized,
{
}
} // verus!
