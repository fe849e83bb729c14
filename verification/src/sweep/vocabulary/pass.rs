//! One vocabulary pass over the store, step by step: what is done next,
//! which clusters a step concerns, and what the pass reports of its
//! grounding.

use vstd::prelude::*;
use super::ground::GroundingPlan;
use super::rows::PlantResult;

verus! {

/// The generation a pass writes under: one past the recorded one.
pub fn next_generation(recorded: u64) -> (r: u64)
    ensures
        r == (if recorded == u64::MAX {
            u64::MAX
        } else {
            (recorded + 1) as u64
        }),
{
    recorded.saturating_add(1)
}

/// What a pass does next.
#[derive(Debug, Clone, Copy, PartialEq, Eq, Structural)]
pub enum PassStep {
    /// Drop the stored anchors of mined rows.
    DropMinedAnchors,
    /// Adopt the keyed fragments the transforms planted.
    AdoptKeyed,
    /// Scan the keyword rows and the content for candidates.
    Mine,
    /// Join the band with the rows the store holds, and retract.
    Tabulate,
    /// Walk the content again and count every row.
    Match,
    /// Plant the confirmed candidates and record the frequencies.
    Plant,
    /// Plant the envelopes' facets.
    PlantFacets,
    /// Count the envelopes' rows again.
    RecountEnvelopes,
    /// Give every unclustered row a home.
    Cluster,
    /// Embed the clusters whose text moved.
    EmbedClusters,
    /// Fold clusters whose vectors say they are one topic.
    MergeClusters,
    /// Count the merged clusters again.
    RecountMerged,
    /// Embed what the merges changed.
    EmbedMerged,
    /// Ask the model about the changed clusters.
    Ground,
    /// Count the grounded clusters again.
    RecountGrounded,
    /// Embed what the grounding changed.
    EmbedGrounded,
    /// Move the generation on.
    BumpGeneration,
    /// Record the dials the pass ran under.
    RecordDigest,
    /// Name the most frequent rows.
    ListHubs,
    /// The pass is over.
    Finish,
}

impl PassStep {
    /// How far a step is from the end.
    pub open spec fn distance(self) -> nat {
        match self {
            PassStep::DropMinedAnchors => 19,
            PassStep::AdoptKeyed => 18,
            PassStep::Mine => 17,
            PassStep::Tabulate => 16,
            PassStep::Match => 15,
            PassStep::Plant => 14,
            PassStep::PlantFacets => 13,
            PassStep::RecountEnvelopes => 12,
            PassStep::Cluster => 11,
            PassStep::EmbedClusters => 10,
            PassStep::MergeClusters => 9,
            PassStep::RecountMerged => 8,
            PassStep::EmbedMerged => 7,
            PassStep::Ground => 6,
            PassStep::RecountGrounded => 5,
            PassStep::EmbedGrounded => 4,
            PassStep::BumpGeneration => 3,
            PassStep::RecordDigest => 2,
            PassStep::ListHubs => 1,
            PassStep::Finish => 0,
        }
    }

    /// The step after this one, of a pass that has merged `merged` clusters.
    pub open spec fn after(self, merged: nat) -> PassStep {
        match self {
            PassStep::DropMinedAnchors => PassStep::AdoptKeyed,
            PassStep::AdoptKeyed => PassStep::Mine,
            PassStep::Mine => PassStep::Tabulate,
            PassStep::Tabulate => PassStep::Match,
            PassStep::Match => PassStep::Plant,
            PassStep::Plant => PassStep::PlantFacets,
            PassStep::PlantFacets => PassStep::RecountEnvelopes,
            PassStep::RecountEnvelopes => PassStep::Cluster,
            PassStep::Cluster => PassStep::EmbedClusters,
            PassStep::EmbedClusters => PassStep::MergeClusters,
            PassStep::MergeClusters => if merged > 0 {
                PassStep::RecountMerged
            } else {
                PassStep::Ground
            },
            PassStep::RecountMerged => PassStep::EmbedMerged,
            PassStep::EmbedMerged => PassStep::Ground,
            PassStep::Ground => PassStep::RecountGrounded,
            PassStep::RecountGrounded => PassStep::EmbedGrounded,
            PassStep::EmbedGrounded => PassStep::BumpGeneration,
            PassStep::BumpGeneration => PassStep::RecordDigest,
            PassStep::RecordDigest => PassStep::ListHubs,
            PassStep::ListHubs => PassStep::Finish,
            PassStep::Finish => PassStep::Finish,
        }
    }

    /// The first step of a pass, or none of it when there is a reason to skip
    /// the pass.
    pub fn first(skipped: &Option<String>) -> (r: PassStep)
        ensures
            r == (if skipped is Some {
                PassStep::Finish
            } else {
                PassStep::DropMinedAnchors
            }),
    {
        match skipped {
            Some(_) => PassStep::Finish,
            None => PassStep::DropMinedAnchors,
        }
    }

    /// The step after this one, of a pass that has merged `merged` clusters.
    pub fn next(self, merged: usize) -> (r: PassStep)
        ensures
            r == self.after(merged as nat),
    {
        match self {
            PassStep::DropMinedAnchors => PassStep::AdoptKeyed,
            PassStep::AdoptKeyed => PassStep::Mine,
            PassStep::Mine => PassStep::Tabulate,
            PassStep::Tabulate => PassStep::Match,
            PassStep::Match => PassStep::Plant,
            PassStep::Plant => PassStep::PlantFacets,
            PassStep::PlantFacets => PassStep::RecountEnvelopes,
            PassStep::RecountEnvelopes => PassStep::Cluster,
            PassStep::Cluster => PassStep::EmbedClusters,
            PassStep::EmbedClusters => PassStep::MergeClusters,
            PassStep::MergeClusters => if merged > 0 {
                PassStep::RecountMerged
            } else {
                PassStep::Ground
            },
            PassStep::RecountMerged => PassStep::EmbedMerged,
            PassStep::EmbedMerged => PassStep::Ground,
            PassStep::Ground => PassStep::RecountGrounded,
            PassStep::RecountGrounded => PassStep::EmbedGrounded,
            PassStep::EmbedGrounded => PassStep::BumpGeneration,
            PassStep::BumpGeneration => PassStep::RecordDigest,
            PassStep::RecordDigest => PassStep::ListHubs,
            PassStep::ListHubs => PassStep::Finish,
            PassStep::Finish => PassStep::Finish,
        }
    }
}

/// A pass ends, and records its dials only once everything is written: from
/// the step that does so on, nothing is left but to name the hubs, so a pass
/// that fails before it runs again in full.
pub proof fn law_the_dials_are_recorded_last(step: PassStep, merged: nat)
    ensures
        step != PassStep::Finish ==> step.after(merged).distance() < step.distance(),
        step.after(merged) == PassStep::RecordDigest <==> step == PassStep::BumpGeneration,
        step.after(merged) == PassStep::BumpGeneration <==> step == PassStep::EmbedGrounded,
        step.distance() <= PassStep::RecordDigest.distance() ==> (step == PassStep::RecordDigest
            || step == PassStep::ListHubs || step == PassStep::Finish),
{
}

/// A cluster and the generation that last changed it.
#[derive(Debug, Clone, Copy, PartialEq, Eq)]
pub struct ClusterChange {
    pub id: i64,
    pub changed_sweep: u64,
}

/// The places of the clusters changed under `generation` or later, among the
/// first `n`.
pub open spec fn changed_below(clusters: Seq<ClusterChange>, generation: u64, n: nat) -> Seq<int>
    decreases n,
{
    if n == 0 {
        Seq::empty()
    } else if clusters[n - 1].changed_sweep >= generation {
        changed_below(clusters, generation, (n - 1) as nat).push(n - 1)
    } else {
        changed_below(clusters, generation, (n - 1) as nat)
    }
}

/// The places of the clusters this pass changed, in order.
pub fn changed_clusters(clusters: &Vec<ClusterChange>, generation: u64) -> (r: Vec<usize>)
    ensures
        crate::sweep::embed::place_views(r@) == changed_below(
            clusters@,
            generation,
            clusters@.len(),
        ),
{
    let mut out: Vec<usize> = Vec::new();
    let mut i: usize = 0;
    proof {
        assert(crate::sweep::embed::place_views(out@) =~= Seq::empty());
    }
    while i < clusters.len()
        invariant
            i <= clusters@.len(),
            crate::sweep::embed::place_views(out@) == changed_below(
                clusters@,
                generation,
                i as nat,
            ),
        decreases clusters@.len() - i,
    {
        let ghost before = out@;
        if clusters[i].changed_sweep >= generation {
            out.push(i);
            proof {
                assert(crate::sweep::embed::place_views(out@)
                    =~= crate::sweep::embed::place_views(before).push(i as int));
            }
        }
        i = i + 1;
    }
    out
}

/// A relation between two fragments.
#[derive(Debug, Clone, Copy, PartialEq, Eq)]
pub struct Edge {
    pub from: i64,
    pub to: i64,
}

/// The first fragment related into `row`, from place `at` on.
pub open spec fn first_into(relations: Seq<Edge>, row: i64, at: int) -> Option<i64>
    decreases relations.len() - at,
{
    if at < 0 || at >= relations.len() {
        None
    } else if relations[at].to == row {
        Some(relations[at].from)
    } else {
        first_into(relations, row, at + 1)
    }
}

/// The fragment a word's excerpt is read from: one that spells it, or, when
/// the text index knows none, one related into its row.
pub fn excerpt_anchor(spelling: &Vec<i64>, relations: &Vec<Edge>, row: i64) -> (r: Option<i64>)
    ensures
        r == (if spelling@.len() > 0 {
            Some(spelling@[0])
        } else {
            first_into(relations@, row, 0)
        }),
{
    if spelling.len() > 0 {
        return Some(spelling[0]);
    }
    let mut i: usize = 0;
    while i < relations.len()
        invariant
            i <= relations@.len(),
            spelling@.len() == 0,
            first_into(relations@, row, 0) == first_into(relations@, row, i as int),
        decreases relations@.len() - i,
    {
        if relations[i].to == row {
            return Some(relations[i].from);
        }
        i = i + 1;
    }
    None
}

/// What grounding one cluster wrote.
#[derive(Debug, Clone, Copy, PartialEq, Eq)]
pub struct GroundingTally {
    pub rows_merged: usize,
    pub glosses_written: usize,
    pub anchors_added: usize,
    pub aliases_planted: usize,
}

/// How many rows a batch planted that were not there.
pub open spec fn created(results: Seq<PlantResult>) -> nat
    decreases results.len(),
{
    if results.len() == 0 {
        0
    } else {
        created(results.drop_last()) + if results.last().created {
            1nat
        } else {
            0nat
        }
    }
}

fn count_created(results: &Vec<PlantResult>) -> (r: usize)
    ensures
        r == created(results@),
        r <= results@.len(),
{
    let mut count: usize = 0;
    let mut i: usize = 0;
    proof {
        assert(results@.take(0) =~= Seq::empty());
    }
    while i < results.len()
        invariant
            i <= results@.len(),
            count <= i,
            count == created(results@.take(i as int)),
        decreases results@.len() - i,
    {
        proof {
            assert(results@.take(i as int + 1).drop_last() =~= results@.take(i as int));
            assert(results@.take(i as int + 1).last() == results@[i as int]);
        }
        if results[i].created {
            count = count + 1;
        }
        i = i + 1;
    }
    proof {
        assert(results@.take(results@.len() as int) =~= results@);
    }
    count
}

/// The rows the first `n` batches of aliases planted, old and new.
pub open spec fn planted_below(batches: Seq<Vec<PlantResult>>, n: nat) -> nat
    decreases n,
{
    if n == 0 {
        0
    } else {
        planted_below(batches, (n - 1) as nat) + batches[n - 1]@.len()
    }
}

/// The rows the first `n` batches of aliases planted that were not there.
pub open spec fn created_below(batches: Seq<Vec<PlantResult>>, n: nat) -> nat
    decreases n,
{
    if n == 0 {
        0
    } else {
        created_below(batches, (n - 1) as nat) + created(batches[n - 1]@)
    }
}

proof fn lemma_planted_grows(batches: Seq<Vec<PlantResult>>, n: nat, m: nat)
    requires
        n <= m,
    ensures
        planted_below(batches, n) <= planted_below(batches, m),
    decreases m - n,
{
    if n < m {
        lemma_planted_grows(batches, n, (m - 1) as nat);
    }
}

/// What grounding one cluster wrote, given what planting each row's aliases
/// came to: every merge leaves one alias relation behind, and every alias is
/// anchored to its word whether or not it was there.
pub fn tally_grounding(plan: &GroundingPlan, planted: &Vec<Vec<PlantResult>>) -> (r: GroundingTally)
    requires
        plan.merges@.len() + planted_below(planted@, planted@.len()) <= usize::MAX,
    ensures
        r.rows_merged == plan.merges@.len(),
        r.glosses_written == plan.glosses@.len(),
        r.anchors_added == plan.merges@.len() + planted_below(planted@, planted@.len()),
        r.aliases_planted == created_below(planted@, planted@.len()),
{
    let merged: usize = plan.merges.len();
    let mut anchors: usize = merged;
    let mut fresh: usize = 0;
    let mut i: usize = 0;
    while i < planted.len()
        invariant
            i <= planted@.len(),
            merged + planted_below(planted@, planted@.len()) <= usize::MAX,
            anchors == merged + planted_below(planted@, i as nat),
            fresh == created_below(planted@, i as nat),
            fresh <= planted_below(planted@, i as nat),
        decreases planted@.len() - i,
    {
        proof {
            lemma_planted_grows(planted@, (i + 1) as nat, planted@.len());
        }
        anchors = anchors + planted[i].len();
        fresh = fresh + count_created(&planted[i]);
        i = i + 1;
    }
    GroundingTally {
        rows_merged: merged,
        glosses_written: plan.glosses.len(),
        anchors_added: anchors,
        aliases_planted: fresh,
    }
}


/// The clusters a pass concerns are those changed under its generation or
/// later, each once, in order.
pub proof fn law_every_changed_cluster_is_concerned(
    clusters: Seq<ClusterChange>,
    generation: u64,
    n: nat,
)
    requires
        n <= clusters.len(),
    ensures
        forall|at: int| #[trigger]
            changed_below(clusters, generation, n).contains(at) <==> 0 <= at < n
                && clusters[at].changed_sweep >= generation,
        forall|i: int, j: int|
            0 <= i < j < changed_below(clusters, generation, n).len() ==> #[trigger] changed_below(
                clusters,
                generation,
                n,
            )[i] < #[trigger] changed_below(clusters, generation, n)[j],
    decreases n,
{
    if n > 0 {
        law_every_changed_cluster_is_concerned(clusters, generation, (n - 1) as nat);
        let before = changed_below(clusters, generation, (n - 1) as nat);
        let all = changed_below(clusters, generation, n);
        assert forall|i: int| 0 <= i < before.len() implies (#[trigger] before[i]) < n - 1 by {
            assert(before.contains(before[i]));
        }
        assert forall|at: int| #[trigger] all.contains(at) <==> 0 <= at < n
            && clusters[at].changed_sweep >= generation by {
            if before.contains(at) {
                let i = before.index_of(at);
                assert(all[i] == at);
            }
            if all.contains(at) {
                let i = all.index_of(at);
                if i < before.len() {
                    assert(before[i] == at);
                }
            }
            if at == n - 1 && clusters[at].changed_sweep >= generation {
                assert(all[before.len() as int] == at);
            }
        }
    }
}

/// The first relation into a row gives its excerpt, and there is none only
/// where nothing is related into it.
pub proof fn law_the_first_relation_gives_the_excerpt(relations: Seq<Edge>, row: i64, at: int)
    requires
        0 <= at,
    ensures
        match first_into(relations, row, at) {
            Some(from) => exists|i: int|
                at <= i < relations.len() && (#[trigger] relations[i]).to == row
                    && relations[i].from == from && forall|j: int|
                    at <= j < i ==> (#[trigger] relations[j]).to != row,
            None => forall|i: int|
                at <= i < relations.len() ==> (#[trigger] relations[i]).to != row,
        },
    decreases relations.len() - at,
{
    if at < relations.len() {
        if relations[at].to != row {
            law_the_first_relation_gives_the_excerpt(relations, row, at + 1);
            if let Some(from) = first_into(relations, row, at + 1) {
                let i = choose|i: int|
                    at + 1 <= i < relations.len() && (#[trigger] relations[i]).to == row
                        && relations[i].from == from && forall|j: int|
                        at + 1 <= j < i ==> (#[trigger] relations[j]).to != row;
                assert forall|j: int| at <= j < i implies (#[trigger] relations[j]).to != row by {}
                assert(relations[i].to == row);
            } else {
                assert forall|i: int| at <= i < relations.len() implies (
                #[trigger] relations[i]).to != row by {}
            }
        }
    }
}

/// What a tally counts is what was planted: every row of every batch, and
/// among them those that were not there.
pub proof fn law_a_tally_counts_every_batch(
    results: Seq<PlantResult>,
    batches: Seq<Vec<PlantResult>>,
    n: nat,
)
    requires
        n <= batches.len(),
    ensures
        created(results) == results.filter(|result: PlantResult| result.created).len(),
        planted_below(batches, n) == batches.take(n as int).map_values(
            |batch: Vec<PlantResult>| batch@,
        ).flatten().len(),
        created_below(batches, n) == batches.take(n as int).map_values(
            |batch: Vec<PlantResult>| batch@,
        ).flatten().filter(|result: PlantResult| result.created).len(),
    decreases n, results.len(),
{
    reveal(Seq::filter);
    if results.len() > 0 {
        law_a_tally_counts_every_batch(results.drop_last(), batches, n);
    }
    let read = |batch: Vec<PlantResult>| batch@;
    let fresh = |result: PlantResult| result.created;
    let all = batches.take(n as int).map_values(read);
    if n > 0 {
        let front = batches.take(n - 1).map_values(read);
        law_a_tally_counts_every_batch(batches[n - 1]@, batches, (n - 1) as nat);
        assert(all =~= front.push(batches[n - 1]@));
        front.lemma_flatten_push(batches[n - 1]@);
        Seq::filter_distributes_over_add(front.flatten(), batches[n - 1]@, fresh);
    } else {
        assert(all =~= Seq::empty());
    }
}

/// A pass takes every step in turn; the only steps passed over are those
/// that count and embed again what merging changed, when it merged nothing.
pub proof fn law_a_pass_takes_every_step(step: PassStep, merged: nat)
    ensures
        step == PassStep::MergeClusters && merged == 0 ==> step.after(merged) == PassStep::Ground,
        step != PassStep::Finish && !(step == PassStep::MergeClusters && merged == 0) ==> step.after(
            merged,
        ).distance() == step.distance() - 1,
        step.after(merged).distance() == step.distance() ==> step == PassStep::Finish,
{
}
} // verus!
