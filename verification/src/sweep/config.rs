//! The sweep's dials: those that bound a run, and those that shape what a
//! subtree looks like.

use vstd::prelude::*;
use crate::seam::PluginError;
use crate::text;
use super::ignore::IgnoreRule;
use super::vocabulary::config::VocabularyConfig;

verus! {

/// How many sources a run may deep-index; the rest are cataloged.
#[derive(Debug, Clone, Copy, PartialEq, Eq)]
pub enum DeepBudget {
    Unlimited,
    Sources(u32),
}

impl DeepBudget {
    /// Whether one more source may be deep-indexed after `count`.
    pub open spec fn allows_view(self, count: nat) -> bool {
        match self {
            DeepBudget::Unlimited => true,
            DeepBudget::Sources(limit) => count < limit,
        }
    }

    /// Whether one more source may be deep-indexed after `count`.
    pub fn allows(self, count: u32) -> (r: bool)
        ensures
            r == self.allows_view(count as nat),
    {
        match self {
            DeepBudget::Unlimited => true,
            DeepBudget::Sources(limit) => count < limit,
        }
    }
}

/// The sweep's decomposition dials, as the planner enforces them over every
/// transform's output.
#[derive(Debug, Clone, Copy, PartialEq, Eq)]
pub struct PlanLimits {
    pub max_depth: usize,
    pub max_fragments_per_source: usize,
    pub max_content_bytes: u64,
    /// Content references followed in a chain from the source before the
    /// planner stops applying transforms to them.
    pub max_reference_hops: u32,
}

#[derive(Debug, PartialEq, Eq)]
pub struct SweepConfig {
    /// Sources to deep-index per run; the rest still enter the catalog.
    /// 0 means unlimited.
    pub max_sources: u32,
    /// Sources planned at once; at least one.
    pub concurrency: usize,
    /// Sources planned at once when transform LLM calls ride the batch
    /// lane; at least one.
    pub batch_concurrency: usize,
    /// Source content reads allowed at once; at least one.
    pub source_reads_in_flight_max: usize,
    /// Fragment cap per source.
    pub max_fragments_per_source: usize,
    /// Decomposition depth cap.
    pub max_depth: usize,
    /// Sources larger than this are cataloged but not content-indexed.
    pub max_content_bytes: u64,
    /// How many content references a chain may follow away from a source.
    pub max_reference_hops: u32,
    /// `YYYY-MM-DD`; sources last modified before this are cataloged but not
    /// indexed.
    pub modified_after: Option<String>,
    /// Host-agnostic ignore rules over addresses and envelopes.
    pub ignore: Vec<IgnoreRule>,
    /// The vocabulary pass.
    pub vocabulary: VocabularyConfig,
}

impl Default for SweepConfig {
    fn default() -> (r: SweepConfig)
        ensures
            r.wf(),
            r.max_sources == 0,
            r.concurrency == 8,
            r.batch_concurrency == 4_096,
            r.source_reads_in_flight_max == 128,
            r.max_fragments_per_source == 400,
            r.max_depth == 6,
            r.max_content_bytes == 2_000_000,
            r.max_reference_hops == 1,
            r.modified_after is None,
            r.ignore@.len() == 0,
            r.vocabulary == VocabularyConfig::defaults(),
    {
        SweepConfig {
            max_sources: 0,
            concurrency: 8,
            batch_concurrency: 4_096,
            source_reads_in_flight_max: 128,
            max_fragments_per_source: 400,
            max_depth: 6,
            max_content_bytes: 2_000_000,
            max_reference_hops: 1,
            modified_after: None,
            ignore: Vec::new(),
            vocabulary: VocabularyConfig::default(),
        }
    }
}

/// The sweep's own part of a shape stamp.
pub open spec fn fingerprint(depth: nat, fragments: nat, content_bytes: nat, hops: nat) -> Seq<
    char,
> {
    "sweep-v1|depth="@ + (text::decimal(depth) + ("|fragments="@ + (text::decimal(fragments) + (
    "|content_bytes="@ + (text::decimal(content_bytes) + ("|hops="@ + text::decimal(hops)))))))
}

impl SweepConfig {
    /// What a composition's config keeps: the dials that count work done at
    /// once are not zero.
    pub open spec fn wf(self) -> bool {
        &&& self.concurrency >= 1
        &&& self.batch_concurrency >= 1
        &&& self.source_reads_in_flight_max >= 1
    }

    /// The composition's deep budget: `0` is unlimited, anything else a
    /// per-run cap.
    pub fn deep_budget(&self) -> (r: DeepBudget)
        ensures
            r == if self.max_sources == 0 {
                DeepBudget::Unlimited
            } else {
                DeepBudget::Sources(self.max_sources)
            },
    {
        if self.max_sources == 0 {
            DeepBudget::Unlimited
        } else {
            DeepBudget::Sources(self.max_sources)
        }
    }

    /// What the fingerprint says.
    pub open spec fn fingerprint_view(self) -> Seq<char> {
        fingerprint(
            self.max_depth as nat,
            self.max_fragments_per_source as nat,
            self.max_content_bytes as nat,
            self.max_reference_hops as nat,
        )
    }

    /// The sweep's own contribution to every shape stamp: the decomposition
    /// dials that change what a subtree looks like. Run-metering fields stay
    /// out so tuning them never re-indexes.
    pub fn shape_fingerprint(&self) -> (r: String)
        ensures
            r@ == self.fingerprint_view(),
    {
        let mut out = "sweep-v1|depth=".to_owned();
        out.append(text::number(self.max_depth as u64).as_str());
        out.append("|fragments=");
        out.append(text::number(self.max_fragments_per_source as u64).as_str());
        out.append("|content_bytes=");
        out.append(text::number(self.max_content_bytes).as_str());
        out.append("|hops=");
        out.append(text::number(self.max_reference_hops as u64).as_str());
        proof {
            assert(out@ =~= self.fingerprint_view());
        }
        out
    }

    /// The decomposition dials.
    pub fn limits(&self) -> (r: PlanLimits)
        ensures
            r.max_depth == self.max_depth,
            r.max_fragments_per_source == self.max_fragments_per_source,
            r.max_content_bytes == self.max_content_bytes,
            r.max_reference_hops == self.max_reference_hops,
    {
        PlanLimits {
            max_depth: self.max_depth,
            max_fragments_per_source: self.max_fragments_per_source,
            max_content_bytes: self.max_content_bytes,
            max_reference_hops: self.max_reference_hops,
        }
    }

    /// The date a cutoff has to be parsed from: an empty one is none.
    pub fn cutoff_date(&self) -> (r: Option<&String>)
        ensures
            r is Some <==> (self.modified_after is Some && self.modified_after->0@.len() > 0),
            r matches Some(date) ==> *date == self.modified_after->0,
    {
        match &self.modified_after {
            Some(date) => if date.as_str().unicode_len() > 0 {
                Some(date)
            } else {
                None
            },
            None => None,
        }
    }

    /// How many sources a run plans at once: the batch dial when granted
    /// calls ride the batch lane, the interactive one otherwise.
    pub fn planning_concurrency(&self, on_batch_lane: bool) -> (r: usize)
        requires
            self.wf(),
        ensures
            r >= 1,
            r == if on_batch_lane {
                self.batch_concurrency
            } else {
                self.concurrency
            },
    {
        if on_batch_lane {
            self.batch_concurrency
        } else {
            self.concurrency
        }
    }
}

/// The cutoff a parsed date stands for, in epoch seconds; a date that does
/// not parse is refused.
pub fn cutoff(parsed: Option<Result<i64, String>>) -> (r: Result<Option<i64>, PluginError>)
    ensures
        match parsed {
            None => r == Ok::<Option<i64>, PluginError>(None),
            Some(Ok(seconds)) => r == Ok::<Option<i64>, PluginError>(Some(seconds)),
            Some(Err(reason)) => r matches Err(e) && e.message@ == "modified_after: "@ + reason@,
        },
{
    match parsed {
        None => Ok(None),
        Some(Ok(seconds)) => Ok(Some(seconds)),
        Some(Err(reason)) => {
            let mut message = "modified_after: ".to_owned();
            message.append(reason.as_str());
            Err(PluginError { message })
        },
    }
}

/// Only the decomposition dials re-index: two configs have one fingerprint
/// exactly when those dials agree, whatever their run-metering dials say.
pub proof fn law_fingerprint_is_the_shape(a: SweepConfig, b: SweepConfig)
    ensures
        a.fingerprint_view() == b.fingerprint_view() <==> (a.max_depth == b.max_depth
            && a.max_fragments_per_source == b.max_fragments_per_source && a.max_content_bytes
            == b.max_content_bytes && a.max_reference_hops == b.max_reference_hops),
{
    if a.fingerprint_view() == b.fingerprint_view() {
        reveal_strlit("|fragments=");
        reveal_strlit("|content_bytes=");
        reveal_strlit("|hops=");
        let a3 = "|hops="@ + text::decimal(a.max_reference_hops as nat);
        let b3 = "|hops="@ + text::decimal(b.max_reference_hops as nat);
        let a2 = "|content_bytes="@ + (text::decimal(a.max_content_bytes as nat) + a3);
        let b2 = "|content_bytes="@ + (text::decimal(b.max_content_bytes as nat) + b3);
        let a1 = "|fragments="@ + (text::decimal(a.max_fragments_per_source as nat) + a2);
        let b1 = "|fragments="@ + (text::decimal(b.max_fragments_per_source as nat) + b2);
        text::lemma_after_prefix(
            "sweep-v1|depth="@,
            text::decimal(a.max_depth as nat) + a1,
            text::decimal(b.max_depth as nat) + b1,
        );
        text::lemma_number_before_bar(a.max_depth as nat, b.max_depth as nat, a1, b1);
        text::lemma_after_prefix(
            "|fragments="@,
            text::decimal(a.max_fragments_per_source as nat) + a2,
            text::decimal(b.max_fragments_per_source as nat) + b2,
        );
        text::lemma_number_before_bar(
            a.max_fragments_per_source as nat,
            b.max_fragments_per_source as nat,
            a2,
            b2,
        );
        text::lemma_after_prefix(
            "|content_bytes="@,
            text::decimal(a.max_content_bytes as nat) + a3,
            text::decimal(b.max_content_bytes as nat) + b3,
        );
        text::lemma_number_before_bar(
            a.max_content_bytes as nat,
            b.max_content_bytes as nat,
            a3,
            b3,
        );
        text::lemma_after_prefix(
            "|hops="@,
            text::decimal(a.max_reference_hops as nat),
            text::decimal(b.max_reference_hops as nat),
        );
        text::lemma_decimal_injective(a.max_reference_hops as nat, b.max_reference_hops as nat);
    }
}

#[derive(Debug, PartialEq, Eq)]
pub struct SweepPlugin {
    pub config: SweepConfig,
}

#[derive(Debug, PartialEq, Eq)]
pub struct SweepFactory;

impl SweepFactory {
    /// The entry kind a composition names the plugin by.
    pub fn name(&self) -> (r: &'static str)
        ensures
            r@ == "sweep"@,
    {
        "sweep"
    }
}

} // verus!
