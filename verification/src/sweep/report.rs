//! What a run reports: the counts it ends with, and the progress it shows
//! on the way.

use vstd::prelude::*;
use crate::text;
use super::embed::{EmbedTotals, PendingRow};
use super::plan::{PlannedFragment, PlannedKeyed, Planned};

verus! {

/// Where a run stands.
#[derive(Debug, Clone, Copy, PartialEq, Eq)]
pub enum IndexPhase {
    Preparing,
    Enumerating,
    Cataloging,
    Indexing,
    Finalizing,
    Complete,
}

/// One run's counts.
#[derive(Debug, Clone, Copy, PartialEq, Eq)]
pub struct IndexReport {
    pub sources_seen: usize,
    pub ignored: usize,
    pub indexed: usize,
    pub unchanged: usize,
    pub catalog_only: usize,
    pub skipped_cutoff: usize,
    pub removed: usize,
    pub fragments: usize,
    pub relations: usize,
    pub keyed_anchored: usize,
    pub llm_summaries: usize,
    pub extractive_summaries: usize,
    pub envelope_summaries: usize,
    pub transforms_reused: usize,
    pub embedded: usize,
    pub embeddings_reused: usize,
    pub stopped: bool,
}

/// A snapshot of a run in flight.
#[derive(Debug, Clone, Copy, PartialEq, Eq)]
pub struct IndexProgress {
    pub phase: IndexPhase,
    pub sources_complete: usize,
    pub sources_total: usize,
    pub indexed: usize,
    pub unchanged: usize,
    pub catalog_only: usize,
    pub ignored: usize,
    pub stopped: bool,
}

/// A keyed fragment as the store resolved it.
#[derive(Debug, Clone, Copy, PartialEq, Eq)]
pub enum KeyedFragment {
    Created(i64),
    Existing(i64),
}

/// What landing a plan wrote.
#[derive(Debug, PartialEq, Eq)]
pub struct SubtreeWritten {
    pub source: i64,
    /// The ids of the planned fragments, in plan order.
    pub fragments: Vec<i64>,
    /// The keyed fragments, in plan order.
    pub keyed: Vec<KeyedFragment>,
}

/// How many keyed fragments were created.
pub open spec fn created(keyed: Seq<KeyedFragment>) -> nat
    decreases keyed.len(),
{
    if keyed.len() == 0 {
        0
    } else {
        created(keyed.drop_last()) + if keyed.last() is Created {
            1nat
        } else {
            0
        }
    }
}

/// How many anchors a list of keyed fragments has.
pub open spec fn anchors(keyed: Seq<PlannedKeyed>) -> nat
    decreases keyed.len(),
{
    if keyed.len() == 0 {
        0
    } else {
        anchors(keyed.drop_last()) + keyed.last().anchors@.len()
    }
}

/// The sources a report accounts for.
pub open spec fn accounted(report: IndexReport) -> nat {
    (report.indexed + report.unchanged + report.catalog_only + report.skipped_cutoff
        + report.ignored) as nat
}

impl IndexReport {
    /// A report of nothing.
    pub fn new() -> (r: IndexReport)
        ensures
            accounted(r) == 0,
            r.sources_seen == 0,
            r.removed == 0,
            r.fragments == 0,
            r.relations == 0,
            r.keyed_anchored == 0,
            r.llm_summaries == 0,
            r.extractive_summaries == 0,
            r.envelope_summaries == 0,
            r.transforms_reused == 0,
            r.embedded == 0,
            r.embeddings_reused == 0,
            !r.stopped,
    {
        IndexReport {
            sources_seen: 0,
            ignored: 0,
            indexed: 0,
            unchanged: 0,
            catalog_only: 0,
            skipped_cutoff: 0,
            removed: 0,
            fragments: 0,
            relations: 0,
            keyed_anchored: 0,
            llm_summaries: 0,
            extractive_summaries: 0,
            envelope_summaries: 0,
            transforms_reused: 0,
            embedded: 0,
            embeddings_reused: 0,
            stopped: false,
        }
    }

    /// The progress to show: the sources accounted for, never more than were
    /// seen.
    pub fn progress(&self, phase: IndexPhase) -> (r: IndexProgress)
        ensures
            r == (IndexProgress {
                phase,
                sources_complete: (if accounted(*self) <= self.sources_seen {
                    accounted(*self) as usize
                } else {
                    self.sources_seen
                }),
                sources_total: self.sources_seen,
                indexed: self.indexed,
                unchanged: self.unchanged,
                catalog_only: self.catalog_only,
                ignored: self.ignored,
                stopped: self.stopped,
            }),
            r.sources_complete <= r.sources_total,
    {
        let counted: usize = self.indexed.saturating_add(self.unchanged).saturating_add(
            self.catalog_only,
        ).saturating_add(self.skipped_cutoff).saturating_add(self.ignored);
        IndexProgress {
            phase,
            sources_complete: if counted <= self.sources_seen {
                counted
            } else {
                self.sources_seen
            },
            sources_total: self.sources_seen,
            indexed: self.indexed,
            unchanged: self.unchanged,
            catalog_only: self.catalog_only,
            ignored: self.ignored,
            stopped: self.stopped,
        }
    }

    /// Whether there is room to count one landed plan.
    pub open spec fn has_room(self, planned: Planned, written: SubtreeWritten) -> bool {
        &&& self.indexed < usize::MAX
        &&& self.fragments + 1 + planned.plan.fragments@.len() + written.keyed@.len() <= usize::MAX
        &&& self.relations + planned.plan.fragments@.len() + anchors(planned.plan.keyed@)
            <= usize::MAX
        &&& self.keyed_anchored + planned.plan.keyed@.len() <= usize::MAX
        &&& self.llm_summaries + planned.stats.llm_summaries <= usize::MAX
        &&& self.extractive_summaries + planned.stats.extractive_summaries <= usize::MAX
        &&& self.envelope_summaries + planned.stats.envelope_summaries <= usize::MAX
        &&& self.transforms_reused + planned.stats.transforms_reused <= usize::MAX
    }

    /// The report with one landed plan: one more source indexed, its root and
    /// fragments and the keyed fragments it created, and a relation for each
    /// fragment and each anchor.
    pub open spec fn tallied(self, planned: Planned, written: SubtreeWritten) -> IndexReport {
        IndexReport {
            indexed: (self.indexed + 1) as usize,
            fragments: (self.fragments + 1 + planned.plan.fragments@.len() + created(
                written.keyed@,
            )) as usize,
            relations: (self.relations + planned.plan.fragments@.len() + anchors(
                planned.plan.keyed@,
            )) as usize,
            keyed_anchored: (self.keyed_anchored + planned.plan.keyed@.len()) as usize,
            llm_summaries: (self.llm_summaries + planned.stats.llm_summaries) as usize,
            extractive_summaries: (self.extractive_summaries
                + planned.stats.extractive_summaries) as usize,
            envelope_summaries: (self.envelope_summaries
                + planned.stats.envelope_summaries) as usize,
            transforms_reused: (self.transforms_reused + planned.stats.transforms_reused) as usize,
            ..self
        }
    }

    /// Fold one landed plan into the run report.
    pub fn tally(&mut self, planned: &Planned, written: &SubtreeWritten)
        requires
            old(self).has_room(*planned, *written),
        ensures
            *final(self) == old(self).tallied(*planned, *written),
    {
        let created_keyed: usize = count_created(&written.keyed);
        let anchor_count: usize = count_anchors(&planned.plan.keyed);
        self.indexed = self.indexed + 1;
        self.fragments = self.fragments + 1 + planned.plan.fragments.len() + created_keyed;
        self.relations = self.relations + planned.plan.fragments.len() + anchor_count;
        self.keyed_anchored = self.keyed_anchored + planned.plan.keyed.len();
        self.llm_summaries = self.llm_summaries + planned.stats.llm_summaries;
        self.extractive_summaries = self.extractive_summaries
            + planned.stats.extractive_summaries;
        self.envelope_summaries = self.envelope_summaries + planned.stats.envelope_summaries;
        self.transforms_reused = self.transforms_reused + planned.stats.transforms_reused;
    }

    /// The report with an embedding stage's totals.
    pub fn with_vectors(self, totals: EmbedTotals) -> (r: IndexReport)
        requires
            self.embedded + totals.embedded <= usize::MAX,
            self.embeddings_reused + totals.reused <= usize::MAX,
        ensures
            r == (IndexReport {
                embedded: (self.embedded + totals.embedded) as usize,
                embeddings_reused: (self.embeddings_reused + totals.reused) as usize,
                ..self
            }),
    {
        let mut out = self;
        out.embedded = out.embedded + totals.embedded;
        out.embeddings_reused = out.embeddings_reused + totals.reused;
        out
    }
}

fn count_created(keyed: &Vec<KeyedFragment>) -> (r: usize)
    ensures
        r == created(keyed@),
        r <= keyed@.len(),
{
    let mut count: usize = 0;
    let mut i: usize = 0;
    proof {
        assert(keyed@.take(0) =~= Seq::empty());
    }
    while i < keyed.len()
        invariant
            i <= keyed@.len(),
            count <= i,
            count == created(keyed@.take(i as int)),
        decreases keyed@.len() - i,
    {
        proof {
            assert(keyed@.take(i as int + 1).drop_last() =~= keyed@.take(i as int));
            assert(keyed@.take(i as int + 1).last() == keyed@[i as int]);
        }
        match keyed[i] {
            KeyedFragment::Created(_) => count = count + 1,
            KeyedFragment::Existing(_) => {},
        }
        i = i + 1;
    }
    proof {
        assert(keyed@.take(keyed@.len() as int) =~= keyed@);
    }
    count
}

proof fn lemma_anchors_of_prefix(keyed: Seq<PlannedKeyed>, n: int)
    requires
        0 <= n <= keyed.len(),
    ensures
        anchors(keyed.take(n)) <= anchors(keyed),
    decreases keyed.len() - n,
{
    if n < keyed.len() {
        lemma_anchors_of_prefix(keyed, n + 1);
        assert(keyed.take(n + 1).drop_last() =~= keyed.take(n));
    } else {
        assert(keyed.take(n) =~= keyed);
    }
}

fn count_anchors(keyed: &Vec<PlannedKeyed>) -> (r: usize)
    requires
        anchors(keyed@) <= usize::MAX,
    ensures
        r == anchors(keyed@),
{
    let mut count: usize = 0;
    let mut i: usize = 0;
    proof {
        assert(keyed@.take(0) =~= Seq::empty());
    }
    while i < keyed.len()
        invariant
            i <= keyed@.len(),
            anchors(keyed@) <= usize::MAX,
            count == anchors(keyed@.take(i as int)),
        decreases keyed@.len() - i,
    {
        proof {
            assert(keyed@.take(i as int + 1).drop_last() =~= keyed@.take(i as int));
            assert(keyed@.take(i as int + 1).last() == keyed@[i as int]);
            lemma_anchors_of_prefix(keyed@, i as int + 1);
        }
        count = count + keyed[i].anchors.len();
        i = i + 1;
    }
    proof {
        assert(keyed@.take(keyed@.len() as int) =~= keyed@);
    }
    count
}

// --- The search rows of a landed plan ---

/// Whether an optional text says something.
pub open spec fn says_something(held: Option<String>) -> bool {
    held is Some && text::trimmed(held->0@).len() > 0
}

fn is_said(held: &Option<String>) -> (r: bool)
    ensures
        r == says_something(*held),
{
    match held {
        Some(held) => text::trim(held.as_str()).as_str().unicode_len() > 0,
        None => false,
    }
}

/// The rows of the first `n` planned fragments: one for each with text.
pub open spec fn fragment_rows(
    fragments: Seq<PlannedFragment>,
    ids: Seq<i64>,
    source: i64,
    n: nat,
) -> Seq<PendingRow>
    decreases n,
{
    if n == 0 {
        Seq::empty()
    } else {
        let before = fragment_rows(fragments, ids, source, (n - 1) as nat);
        let fragment = fragments[n - 1].fragment;
        if says_something(fragment.text) {
            before.push(
                PendingRow {
                    fragment: ids[n - 1],
                    source: Some(source),
                    text: fragment.text->0,
                    is_summary: fragment.mimetype.summary,
                },
            )
        } else {
            before
        }
    }
}

/// The rows of the first `n` keyed fragments: one for each that was created
/// and has text; an existing one already has its row.
pub open spec fn keyed_rows(
    keyed: Seq<PlannedKeyed>,
    resolved: Seq<KeyedFragment>,
    n: nat,
) -> Seq<PendingRow>
    decreases n,
{
    if n == 0 {
        Seq::empty()
    } else {
        let before = keyed_rows(keyed, resolved, (n - 1) as nat);
        let fragment = keyed[n - 1].fragment;
        match resolved[n - 1] {
            KeyedFragment::Created(id) => if says_something(fragment.text) {
                before.push(
                    PendingRow {
                        fragment: id,
                        source: None,
                        text: fragment.text->0,
                        is_summary: fragment.mimetype.summary,
                    },
                )
            } else {
                before
            },
            KeyedFragment::Existing(_) => before,
        }
    }
}

/// How many pairs two lists make.
pub open spec fn pairs(a: nat, b: nat) -> nat {
    if a <= b {
        a
    } else {
        b
    }
}

/// The rows a landed plan contributes.
pub open spec fn rows_of_plan(planned: Planned, written: SubtreeWritten) -> Seq<PendingRow> {
    fragment_rows(
        planned.plan.fragments@,
        written.fragments@,
        written.source,
        pairs(planned.plan.fragments@.len(), written.fragments@.len()),
    ) + keyed_rows(
        planned.plan.keyed@,
        written.keyed@,
        pairs(planned.plan.keyed@.len(), written.keyed@.len()),
    )
}

/// The search rows a landed plan contributes: every text-bearing planned
/// fragment, plus the keyed fragments this plan created (an existing keyed
/// fragment already has its row).
pub fn search_rows_of(planned: &Planned, written: &SubtreeWritten) -> (r: Vec<PendingRow>)
    ensures
        r@ == rows_of_plan(*planned, *written),
{
    let mut rows: Vec<PendingRow> = Vec::new();
    let mut i: usize = 0;
    while i < planned.plan.fragments.len() && i < written.fragments.len()
        invariant
            i <= planned.plan.fragments@.len(),
            i <= written.fragments@.len(),
            rows@ == fragment_rows(
                planned.plan.fragments@,
                written.fragments@,
                written.source,
                i as nat,
            ),
        decreases planned.plan.fragments@.len() - i,
    {
        if is_said(&planned.plan.fragments[i].fragment.text) {
            if let Some(held) = &planned.plan.fragments[i].fragment.text {
                rows.push(
                    PendingRow {
                        fragment: written.fragments[i],
                        source: Some(written.source),
                        text: held.clone(),
                        is_summary: planned.plan.fragments[i].fragment.mimetype.summary,
                    },
                );
            }
        }
        i = i + 1;
    }
    let ghost first = rows@;
    let mut k: usize = 0;
    proof {
        assert(rows@ =~= first + keyed_rows(planned.plan.keyed@, written.keyed@, 0));
    }
    while k < planned.plan.keyed.len() && k < written.keyed.len()
        invariant
            k <= planned.plan.keyed@.len(),
            k <= written.keyed@.len(),
            rows@ == first + keyed_rows(planned.plan.keyed@, written.keyed@, k as nat),
        decreases planned.plan.keyed@.len() - k,
    {
        let ghost before = rows@;
        if let KeyedFragment::Created(id) = written.keyed[k] {
            if is_said(&planned.plan.keyed[k].fragment.text) {
                if let Some(held) = &planned.plan.keyed[k].fragment.text {
                    rows.push(
                        PendingRow {
                            fragment: id,
                            source: None,
                            text: held.clone(),
                            is_summary: planned.plan.keyed[k].fragment.mimetype.summary,
                        },
                    );
                }
            }
        }
        proof {
            assert(rows@ =~= first + keyed_rows(
                planned.plan.keyed@,
                written.keyed@,
                (k + 1) as nat,
            ));
        }
        k = k + 1;
    }
    rows
}


/// A report counts what landed: one source, its root, its fragments and the
/// keyed fragments that were not there, a relation for each fragment and each
/// anchor, and the plan's own counts. What a plan does not bear on stays.
pub proof fn law_a_report_counts_what_landed(
    report: IndexReport,
    planned: Planned,
    written: SubtreeWritten,
)
    requires
        report.has_room(planned, written),
    ensures
        ({
            let after = report.tallied(planned, written);
            let made = written.keyed@.filter(|keyed: KeyedFragment| keyed is Created).len();
            let anchored = planned.plan.keyed@.map_values(
                |keyed: PlannedKeyed| keyed.anchors@,
            ).flatten().len();
            &&& after.indexed - report.indexed == 1
            &&& after.fragments - report.fragments == 1 + planned.plan.fragments@.len() + made
            &&& after.relations - report.relations == planned.plan.fragments@.len() + anchored
            &&& after.keyed_anchored - report.keyed_anchored == planned.plan.keyed@.len()
            &&& after.llm_summaries - report.llm_summaries == planned.stats.llm_summaries
            &&& after.extractive_summaries - report.extractive_summaries
                == planned.stats.extractive_summaries
            &&& after.envelope_summaries - report.envelope_summaries
                == planned.stats.envelope_summaries
            &&& after.transforms_reused - report.transforms_reused
                == planned.stats.transforms_reused
            &&& after.sources_seen == report.sources_seen
            &&& after.ignored == report.ignored
            &&& after.unchanged == report.unchanged
            &&& after.catalog_only == report.catalog_only
            &&& after.skipped_cutoff == report.skipped_cutoff
            &&& after.removed == report.removed
            &&& after.embedded == report.embedded
            &&& after.embeddings_reused == report.embeddings_reused
            &&& after.stopped == report.stopped
        }),
{
    lemma_created_is_filtered(written.keyed@);
    lemma_anchors_are_flattened(planned.plan.keyed@);
}

proof fn lemma_created_is_filtered(keyed: Seq<KeyedFragment>)
    ensures
        created(keyed) == keyed.filter(|keyed: KeyedFragment| keyed is Created).len(),
        created(keyed) <= keyed.len(),
    decreases keyed.len(),
{
    reveal(Seq::filter);
    if keyed.len() > 0 {
        lemma_created_is_filtered(keyed.drop_last());
    }
}

proof fn lemma_anchors_are_flattened(keyed: Seq<PlannedKeyed>)
    ensures
        anchors(keyed) == keyed.map_values(
            |keyed: PlannedKeyed| keyed.anchors@,
        ).flatten().len(),
    decreases keyed.len(),
{
    let read = |keyed: PlannedKeyed| keyed.anchors@;
    if keyed.len() > 0 {
        let front = keyed.drop_last();
        lemma_anchors_are_flattened(front);
        assert(keyed.map_values(read) =~= front.map_values(read).push(keyed.last().anchors@));
        front.map_values(read).lemma_flatten_push(keyed.last().anchors@);
    } else {
        assert(keyed.map_values(read) =~= Seq::empty());
    }
}

/// The numbers below `n`, in order.
pub open spec fn upto(n: nat) -> Seq<int> {
    Seq::new(n, |i: int| i)
}

/// Every planned fragment that says something has a search row of its own
/// source, under the id it was given, with its whole text, in plan order.
pub proof fn law_every_text_of_a_plan_can_be_searched(
    fragments: Seq<PlannedFragment>,
    ids: Seq<i64>,
    source: i64,
    n: nat,
)
    ensures
        fragment_rows(fragments, ids, source, n) == upto(n).filter(
            |i: int|
                fragments[i].fragment.text is Some && text::trimmed(
                    fragments[i].fragment.text->0@,
                ).len() > 0,
        ).map_values(
            |i: int|
                PendingRow {
                    fragment: ids[i],
                    source: Some(source),
                    text: fragments[i].fragment.text->0,
                    is_summary: fragments[i].fragment.mimetype.summary,
                },
        ),
    decreases n,
{
    reveal(Seq::filter);
    if n > 0 {
        law_every_text_of_a_plan_can_be_searched(fragments, ids, source, (n - 1) as nat);
        assert(upto(n).drop_last() =~= upto((n - 1) as nat));
        assert(upto(n).last() == n - 1);
    }
    assert(fragment_rows(fragments, ids, source, n) =~= upto(n).filter(
        |i: int|
            fragments[i].fragment.text is Some && text::trimmed(
                fragments[i].fragment.text->0@,
            ).len() > 0,
    ).map_values(
        |i: int|
            PendingRow {
                fragment: ids[i],
                source: Some(source),
                text: fragments[i].fragment.text->0,
                is_summary: fragments[i].fragment.mimetype.summary,
            },
    ));
}

/// Every keyed fragment a plan made that says something has a search row, of
/// no one source; one that was there has its row already.
pub proof fn law_every_keyed_text_made_can_be_searched(
    keyed: Seq<PlannedKeyed>,
    resolved: Seq<KeyedFragment>,
    n: nat,
)
    ensures
        keyed_rows(keyed, resolved, n) == upto(n).filter(
            |i: int|
                resolved[i] is Created && keyed[i].fragment.text is Some && text::trimmed(
                    keyed[i].fragment.text->0@,
                ).len() > 0,
        ).map_values(
            |i: int|
                PendingRow {
                    fragment: resolved[i]->Created_0,
                    source: None,
                    text: keyed[i].fragment.text->0,
                    is_summary: keyed[i].fragment.mimetype.summary,
                },
        ),
    decreases n,
{
    reveal(Seq::filter);
    if n > 0 {
        law_every_keyed_text_made_can_be_searched(keyed, resolved, (n - 1) as nat);
        assert(upto(n).drop_last() =~= upto((n - 1) as nat));
        assert(upto(n).last() == n - 1);
    }
    assert(keyed_rows(keyed, resolved, n) =~= upto(n).filter(
        |i: int|
            resolved[i] is Created && keyed[i].fragment.text is Some && text::trimmed(
                keyed[i].fragment.text->0@,
            ).len() > 0,
    ).map_values(
        |i: int|
            PendingRow {
                fragment: resolved[i]->Created_0,
                source: None,
                text: keyed[i].fragment.text->0,
                is_summary: keyed[i].fragment.mimetype.summary,
            },
    ));
}

/// What landed together is searched together: the rows of a plan whose
/// fragments and keyed fragments all landed are those of its fragments, then
/// those of the keyed ones.
pub proof fn law_a_landed_plan_is_searched_whole(planned: Planned, written: SubtreeWritten)
    requires
        planned.plan.fragments@.len() == written.fragments@.len(),
        planned.plan.keyed@.len() == written.keyed@.len(),
    ensures
        rows_of_plan(planned, written) == fragment_rows(
            planned.plan.fragments@,
            written.fragments@,
            written.source,
            planned.plan.fragments@.len(),
        ) + keyed_rows(planned.plan.keyed@, written.keyed@, planned.plan.keyed@.len()),
{
}
} // verus!
