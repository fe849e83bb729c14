//! The vocabulary pass's dials.

use vstd::prelude::*;
use crate::text;
use super::mine::PHRASE_TOKENS_MAX;

verus! {

/// Which queue a model call waits in.
#[derive(Debug, Clone, Copy, PartialEq, Eq, Structural)]
pub enum LlmLane {
    Interactive,
    Batch,
}

/// The pass's dials. The mining dials ride the pass's own digest: changing
/// one re-runs the pass in full, never a per-source transform. The two
/// dials that are fractions (how much of a row's sources a cluster must
/// share, and the similarity at which two clusters merge) are applied where
/// the fractions are taken.
#[derive(Debug, Clone, Copy, PartialEq, Eq, Structural)]
pub struct VocabularyConfig {
    pub enabled: bool,
    /// A candidate must recur in at least this many sources.
    pub term_df_min: u32,
    /// ... and in at most this percentage of the content sources.
    pub term_df_max_percent: u32,
    /// The percentage is never taken below this count, so a small corpus
    /// still has a band.
    pub term_df_max_floor: u32,
    /// Distinct candidate spellings the mining table keeps (tokens that
    /// recurred with a shape mark, and derived phrases).
    pub candidates_max: u32,
    /// Distinct recurring tokens the mining table counts, marked or not.
    pub recurring_tokens_max: u32,
    pub clusters_max: u32,
    pub cluster_terms_max: u32,
    /// Rows assigned to clusters per pass; the rest wait.
    pub cluster_assignments_per_sweep_max: u32,
    /// Grounding calls per run; `0` grounds nothing.
    pub cluster_llm_budget: usize,
    pub llm_lane: LlmLane,
    pub aliases_per_row_max: u32,
}

impl VocabularyConfig {
    /// The dials a composition that says nothing gets.
    pub open spec fn defaults() -> VocabularyConfig {
        VocabularyConfig {
            enabled: true,
            term_df_min: 2,
            term_df_max_percent: 2,
            term_df_max_floor: 50,
            candidates_max: 200_000,
            recurring_tokens_max: 8_000_000,
            clusters_max: 10_000,
            cluster_terms_max: 64,
            cluster_assignments_per_sweep_max: 200_000,
            cluster_llm_budget: 500,
            llm_lane: LlmLane::Interactive,
            aliases_per_row_max: 4,
        }
    }
}

impl Default for VocabularyConfig {
    fn default() -> (r: Self)
        ensures
            r == VocabularyConfig::defaults(),
    {
        VocabularyConfig {
            enabled: true,
            term_df_min: 2,
            term_df_max_percent: 2,
            term_df_max_floor: 50,
            candidates_max: 200_000,
            recurring_tokens_max: 8_000_000,
            clusters_max: 10_000,
            cluster_terms_max: 64,
            cluster_assignments_per_sweep_max: 200_000,
            cluster_llm_budget: 500,
            llm_lane: LlmLane::Interactive,
            aliases_per_row_max: 4,
        }
    }
}

/// The digest of the mining dials.
pub open spec fn digest_text(
    df_min: nat,
    df_max_percent: nat,
    df_max_floor: nat,
    candidates: nat,
    recurring: nat,
) -> Seq<char> {
    "vocabulary-v2|df_min="@ + (text::decimal(df_min) + ("|df_max_percent="@ + (text::decimal(
        df_max_percent,
    ) + ("|df_max_floor="@ + (text::decimal(df_max_floor) + ("|candidates="@ + (text::decimal(
        candidates,
    ) + ("|recurring="@ + (text::decimal(recurring) + ("|phrase_tokens="@ + text::decimal(
        PHRASE_TOKENS_MAX as nat,
    )))))))))))
}

/// The percentage of a number of sources, held to what can be counted
/// before and after the division.
pub open spec fn percent_of(sources: u64, percent: u32) -> nat {
    let product = sources * percent;
    let held = if product > u64::MAX {
        u64::MAX as int
    } else {
        product
    };
    if held / 100 > u32::MAX {
        u32::MAX as nat
    } else {
        (held / 100) as nat
    }
}

/// The greater of two numbers.
pub open spec fn greater(a: nat, b: nat) -> nat {
    if a >= b {
        a
    } else {
        b
    }
}

impl VocabularyConfig {
    /// What the digest says.
    pub open spec fn digest_view(self) -> Seq<char> {
        digest_text(
            self.term_df_min as nat,
            self.term_df_max_percent as nat,
            self.term_df_max_floor as nat,
            self.candidates_max as nat,
            self.recurring_tokens_max as nat,
        )
    }

    /// The dials whose change re-runs the pass in full. The version prefix
    /// moves when the pass's own shape does, so an index built by an
    /// earlier pass is re-mined on its next sweep.
    pub fn digest(&self) -> (r: String)
        ensures
            r@ == self.digest_view(),
    {
        let mut out = "vocabulary-v2|df_min=".to_owned();
        out.append(text::number(self.term_df_min as u64).as_str());
        out.append("|df_max_percent=");
        out.append(text::number(self.term_df_max_percent as u64).as_str());
        out.append("|df_max_floor=");
        out.append(text::number(self.term_df_max_floor as u64).as_str());
        out.append("|candidates=");
        out.append(text::number(self.candidates_max as u64).as_str());
        out.append("|recurring=");
        out.append(text::number(self.recurring_tokens_max as u64).as_str());
        out.append("|phrase_tokens=");
        out.append(text::number(PHRASE_TOKENS_MAX as u64).as_str());
        proof {
            assert(out@ =~= self.digest_view());
        }
        out
    }

    /// The top of the band for a corpus of `sources` content sources.
    pub open spec fn band_top(self, sources: u64) -> nat {
        greater(
            greater(
                percent_of(sources, self.term_df_max_percent),
                self.term_df_max_floor as nat,
            ),
            self.term_df_min as nat,
        )
    }

    /// The top of the band for a corpus of `sources` content sources; never
    /// below its bottom.
    pub fn df_max(&self, sources: u64) -> (r: u32)
        ensures
            r == self.band_top(sources),
            r >= self.term_df_min,
            r >= self.term_df_max_floor,
    {
        let product: u64 = match sources.checked_mul(self.term_df_max_percent as u64) {
            Some(product) => product,
            None => u64::MAX,
        };
        let share: u64 = product / 100;
        let percent: u32 = if share > u32::MAX as u64 {
            u32::MAX
        } else {
            share as u32
        };
        let floored: u32 = if percent >= self.term_df_max_floor {
            percent
        } else {
            self.term_df_max_floor
        };
        if floored >= self.term_df_min {
            floored
        } else {
            self.term_df_min
        }
    }
}

/// The digest names the mining dials and nothing else: two configurations
/// have one digest exactly when they agree on every mining dial.
pub proof fn law_digest_names_the_mining_dials(a: VocabularyConfig, b: VocabularyConfig)
    ensures
        a.digest_view() == b.digest_view() <==> {
            &&& a.term_df_min == b.term_df_min
            &&& a.term_df_max_percent == b.term_df_max_percent
            &&& a.term_df_max_floor == b.term_df_max_floor
            &&& a.candidates_max == b.candidates_max
            &&& a.recurring_tokens_max == b.recurring_tokens_max
        },
{
    if a.digest_view() == b.digest_view() {
        let end = "|phrase_tokens="@ + text::decimal(PHRASE_TOKENS_MAX as nat);
        let a5 = "|recurring="@ + (text::decimal(a.recurring_tokens_max as nat) + end);
        let b5 = "|recurring="@ + (text::decimal(b.recurring_tokens_max as nat) + end);
        let a4 = "|candidates="@ + (text::decimal(a.candidates_max as nat) + a5);
        let b4 = "|candidates="@ + (text::decimal(b.candidates_max as nat) + b5);
        let a3 = "|df_max_floor="@ + (text::decimal(a.term_df_max_floor as nat) + a4);
        let b3 = "|df_max_floor="@ + (text::decimal(b.term_df_max_floor as nat) + b4);
        let a2 = "|df_max_percent="@ + (text::decimal(a.term_df_max_percent as nat) + a3);
        let b2 = "|df_max_percent="@ + (text::decimal(b.term_df_max_percent as nat) + b3);
        reveal_strlit("|df_max_percent=");
        reveal_strlit("|df_max_floor=");
        reveal_strlit("|candidates=");
        reveal_strlit("|recurring=");
        reveal_strlit("|phrase_tokens=");
        text::lemma_after_prefix(
            "vocabulary-v2|df_min="@,
            text::decimal(a.term_df_min as nat) + a2,
            text::decimal(b.term_df_min as nat) + b2,
        );
        text::lemma_number_before_bar(a.term_df_min as nat, b.term_df_min as nat, a2, b2);
        text::lemma_after_prefix(
            "|df_max_percent="@,
            text::decimal(a.term_df_max_percent as nat) + a3,
            text::decimal(b.term_df_max_percent as nat) + b3,
        );
        text::lemma_number_before_bar(a.term_df_max_percent as nat, b.term_df_max_percent as nat, a3, b3);
        text::lemma_after_prefix(
            "|df_max_floor="@,
            text::decimal(a.term_df_max_floor as nat) + a4,
            text::decimal(b.term_df_max_floor as nat) + b4,
        );
        text::lemma_number_before_bar(a.term_df_max_floor as nat, b.term_df_max_floor as nat, a4, b4);
        text::lemma_after_prefix(
            "|candidates="@,
            text::decimal(a.candidates_max as nat) + a5,
            text::decimal(b.candidates_max as nat) + b5,
        );
        text::lemma_number_before_bar(a.candidates_max as nat, b.candidates_max as nat, a5, b5);
        text::lemma_after_prefix(
            "|recurring="@,
            text::decimal(a.recurring_tokens_max as nat) + end,
            text::decimal(b.recurring_tokens_max as nat) + end,
        );
        text::lemma_number_before_bar(a.recurring_tokens_max as nat, b.recurring_tokens_max as nat, end, end);
    }
}


/// A percentage of the sources is what it says, rounded down, as far as it
/// can be counted, and the top of a band is the greatest of that, the floor
/// and the bottom.
pub proof fn law_the_band_top_is_a_share_of_the_sources(config: VocabularyConfig, sources: u64)
    ensures
        ({
            let share = percent_of(sources, config.term_df_max_percent);
            let top = config.band_top(sources);
            &&& sources * config.term_df_max_percent <= u64::MAX && sources
                * config.term_df_max_percent < 100 * u32::MAX ==> share * 100 <= sources
                * config.term_df_max_percent < (share + 1) * 100
            &&& top >= share && top >= config.term_df_max_floor && top >= config.term_df_min
            &&& top == share || top == config.term_df_max_floor || top == config.term_df_min
        }),
{
    assert(sources * config.term_df_max_percent >= 0) by (nonlinear_arith);
}
} // verus!
