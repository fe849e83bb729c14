//! What a run does with each source: the dirtiness pass over files and
//! folders, what enumeration admits, and which cataloged sources vanished.

use vstd::prelude::*;
use vstd::hash_map::StringHashMap;
use crate::seam::{ErrorView, SeamError};
use crate::text;
use super::config::DeepBudget;
use super::folders;
use super::ignore;
use super::ignore::IgnoreSet;
use super::source;
use super::source::{EnumeratedSource, SourceIndexMeta};

verus! {

/// Catalog-only rows per transaction.
pub const CATALOG_CHUNK: usize = 1_000;

/// Deep-index sources this run, as a percentage of the sources already
/// indexed, at or above which the vector index is dropped before landing and
/// rebuilt once at the end.
pub const VECTOR_INDEX_DEFER_PERCENT: u64 = 50;

// --- Models and shapes ---

/// The model without the batch lane's suffix; a model that is nothing but
/// the suffix keeps it.
pub open spec fn base_model(model: Seq<char>) -> Seq<char> {
    if text::ends(model, ":batch"@) && model.len() > ":batch"@.len() {
        model.take(model.len() - ":batch"@.len())
    } else {
        model
    }
}

/// The model a shape stamp names for a configured transform model: the
/// `:batch` variant is the same model on the batch lane, so the suffix is
/// dropped, and an index built through either lane has one stamp.
pub fn lane_independent_model(transform_model: &str) -> (r: String)
    ensures
        r@ == base_model(transform_model@),
{
    proof {
        reveal_strlit(":batch");
    }
    let chars = text::chars_of(transform_model);
    let n: usize = chars.len();
    if n > 6 {
        let suffix = text::text_between(&chars, n - 6, n);
        proof {
            assert(suffix@ =~= transform_model@.skip(n as int - 6));
        }
        if text::same(suffix.as_str(), ":batch") {
            let base = text::text_between(&chars, 0, n - 6);
            proof {
                assert(base@ =~= transform_model@.take(n as int - 6));
            }
            return base;
        }
    }
    transform_model.to_owned()
}

/// A registration's fingerprint with the model that shapes its output.
pub open spec fn stamped(fingerprint: Seq<char>, budget: usize, model: Seq<char>) -> Seq<char> {
    if budget == 0 || base_model(model).len() == 0 {
        fingerprint
    } else {
        fingerprint + "|model="@ + base_model(model)
    }
}

/// A registration's fingerprint with the model that shapes its output: only
/// LLM-hungry registrations have one. The stamp names the model, never the
/// lane.
pub fn stamped_fingerprint(fingerprint: &str, llm_call_budget: usize, transform_model: &str) -> (r:
    String)
    ensures
        r@ == stamped(fingerprint@, llm_call_budget, transform_model@),
{
    let model = lane_independent_model(transform_model);
    let mut out = fingerprint.to_owned();
    if llm_call_budget == 0 || model.as_str().unicode_len() == 0 {
        return out;
    }
    out.append("|model=");
    out.append(model.as_str());
    out
}

/// A product held at the greatest number there is room for.
pub open spec fn held(product: int) -> int {
    if product > u64::MAX {
        u64::MAX as int
    } else {
        product
    }
}

fn saturating_product(a: u64, b: u64) -> (r: u64)
    ensures
        r == held(a * b),
{
    match a.checked_mul(b) {
        Some(product) => product,
        None => u64::MAX,
    }
}

/// Whether this run lands enough of the table that dropping the vector index
/// first and rebuilding it once is faster than inserting through it.
pub fn defers_vector_index(deep_sources: usize, indexed_before: u64) -> (r: bool)
    ensures
        r == (deep_sources > 0 && held(deep_sources * 100) >= held(
            indexed_before * VECTOR_INDEX_DEFER_PERCENT,
        )),
{
    if deep_sources == 0 {
        return false;
    }
    saturating_product(deep_sources as u64, 100) >= saturating_product(
        indexed_before,
        VECTOR_INDEX_DEFER_PERCENT,
    )
}

// --- Stewards and admission ---

/// What a sweep is told of a host whose connection cannot enumerate.
pub open spec fn cannot_enumerate(host: Seq<char>, entry: Seq<char>) -> Seq<char> {
    "the connection to host `"@ + host + "` (entry `"@ + entry
        + "`) cannot enumerate sources, so it cannot be swept"@
}

/// The connection stewarding a host.
#[derive(Debug, PartialEq, Eq)]
pub struct Steward {
    pub entry: String,
    pub enumerates: bool,
}

/// Whether `host` can be swept at all: a fetch-only edge has nothing to
/// enumerate and is refused by name.
pub fn check_steward(host: &str, steward: &Option<Steward>) -> (r: Result<(), SeamError>)
    ensures
        match *steward {
            None => r matches Err(e) && e@ == ErrorView::UnknownHost(host@),
            Some(s) => if s.enumerates {
                r is Ok
            } else {
                r matches Err(e) && e@ == ErrorView::Unavailable(
                    cannot_enumerate(host@, s.entry@),
                )
            },
        },
{
    match steward {
        None => Err(SeamError::UnknownHost(host.to_owned())),
        Some(s) => {
            if s.enumerates {
                return Ok(());
            }
            let mut message = "the connection to host `".to_owned();
            message.append(host);
            message.append("` (entry `");
            message.append(s.entry.as_str());
            message.append("`) cannot enumerate sources, so it cannot be swept");
            Err(SeamError::Unavailable(message))
        },
    }
}

/// What enumeration admitted.
#[derive(Debug, PartialEq, Eq)]
pub struct EnumeratedRun {
    pub files: Vec<EnumeratedSource>,
    pub folders: Vec<EnumeratedSource>,
    pub sources_seen: usize,
    pub ignored: usize,
}

/// The sources no rule ignores that are folders, or that are not, in order.
pub open spec fn admitted(
    sources: Seq<EnumeratedSource>,
    rules: Seq<ignore::IgnoreRule>,
    directories: bool,
) -> Seq<EnumeratedSource>
    decreases sources.len(),
{
    if sources.len() == 0 {
        Seq::empty()
    } else {
        let before = admitted(sources.drop_last(), rules, directories);
        let last = sources.last();
        if !ignore::any_ignores(rules, last.address, last.envelope)
            && last.envelope.content_type.directory == directories {
            before.push(last)
        } else {
            before
        }
    }
}

proof fn lemma_admitted_fit(sources: Seq<EnumeratedSource>, rules: Seq<ignore::IgnoreRule>)
    ensures
        admitted(sources, rules, true).len() + admitted(sources, rules, false).len()
            <= sources.len(),
    decreases sources.len(),
{
    if sources.len() > 0 {
        lemma_admitted_fit(sources.drop_last(), rules);
    }
}

proof fn lemma_holding_fit(dirs: Seq<EnumeratedSource>, files: Seq<EnumeratedSource>)
    ensures
        folders::holding(dirs, files).len() <= dirs.len(),
    decreases dirs.len(),
{
    if dirs.len() > 0 {
        lemma_holding_fit(dirs.drop_last(), files);
    }
}

/// The sources a run works on: those no rule ignores, folders only where an
/// admitted file stands below them. What is left out counts as ignored.
pub fn admit_enumerated(enumerated: Vec<EnumeratedSource>, rules: &IgnoreSet) -> (r: EnumeratedRun)
    requires
        rules.wf(),
        forall|i: int|
            0 <= i < admitted(enumerated@, rules@, false).len() ==> folders::slashes(
                (#[trigger] admitted(enumerated@, rules@, false)[i]).address.locator@,
            ) <= folders::LEVELS_MAX,
    ensures
        r.files@ == admitted(enumerated@, rules@, false),
        r.folders@ == folders::holding(admitted(enumerated@, rules@, true), r.files@),
        r.sources_seen == enumerated@.len(),
        r.ignored + r.files@.len() + r.folders@.len() == r.sources_seen,
{
    let sources_seen: usize = enumerated.len();
    let mut files: Vec<EnumeratedSource> = Vec::new();
    let mut found: Vec<EnumeratedSource> = Vec::new();
    let ghost all = enumerated@;
    proof {
        assert(all.take(0) =~= Seq::empty());
    }
    for source in it: enumerated
        invariant
            rules.wf(),
            it.seq() == all,
            files@ == admitted(all.take(it.index()), rules@, false),
            found@ == admitted(all.take(it.index()), rules@, true),
    {
        proof {
            assert(all.take(it.index() + 1).drop_last() =~= all.take(it.index()));
            assert(all.take(it.index() + 1).last() == source);
            assert(all[it.index()] == source);
        }
        if !rules.matches(&source.address, &source.envelope) {
            if folders::is_folder(&source) {
                found.push(source);
            } else {
                files.push(source);
            }
        }
    }
    proof {
        assert(all.take(all.len() as int) =~= all);
        lemma_admitted_fit(all, rules@);
        lemma_holding_fit(found@, files@);
    }
    let folders = folders::retain_holding(found, &files);
    let ignored: usize = sources_seen - files.len() - folders.len();
    EnumeratedRun { files, folders, sources_seen, ignored }
}

// --- The dirtiness pass ---

/// The per-run dials a request sets.
#[derive(Debug, Clone, Copy, PartialEq, Eq)]
pub struct RunDials {
    /// Re-index sources even when unchanged.
    pub rebuild: bool,
    /// How many sources this run may deep-index; the rest are cataloged.
    pub deep_budget: DeepBudget,
}

/// The dials of a run: the request's own budget, or the composition's.
pub fn run_dials(rebuild: bool, asked: Option<DeepBudget>, composed: DeepBudget) -> (r: RunDials)
    ensures
        r.rebuild == rebuild,
        r.deep_budget == (match asked {
            Some(budget) => budget,
            None => composed,
        }),
{
    let deep_budget = match asked {
        Some(budget) => budget,
        None => composed,
    };
    RunDials { rebuild, deep_budget }
}

/// How a source enters the catalog without a subtree.
#[derive(Debug, Clone, Copy, PartialEq, Eq)]
pub enum CatalogMark {
    /// Seen, and left as it was.
    Seen,
    /// Wanted, and past this run's budget.
    CatalogOnly,
}

/// One catalog row to write: the source's place in the list, and its mark.
#[derive(Debug, Clone, Copy, PartialEq, Eq)]
pub struct CatalogEntry {
    pub source: usize,
    pub mark: CatalogMark,
}

/// What the dirtiness pass decided: rows that enter the catalog without a
/// subtree, and the sources to deep-index this run, both in enumeration
/// order.
#[derive(Debug, PartialEq, Eq)]
pub struct Decisions {
    pub catalog: Vec<CatalogEntry>,
    pub deep: Vec<usize>,
    pub skipped_cutoff: usize,
    pub unchanged: usize,
    pub catalog_only: usize,
}

/// What a pass decided so far.
#[verifier::ext_equal]
pub struct Pass {
    pub catalog: Seq<CatalogEntry>,
    pub deep: Seq<usize>,
    pub skipped_cutoff: nat,
    pub unchanged: nat,
    pub catalog_only: nat,
    /// A source was reached when more were chosen than can be counted.
    pub overflowed: bool,
}

impl View for Decisions {
    type V = Pass;

    open spec fn view(&self) -> Pass {
        Pass {
            catalog: self.catalog@,
            deep: self.deep@,
            skipped_cutoff: self.skipped_cutoff as nat,
            unchanged: self.unchanged as nat,
            catalog_only: self.catalog_only as nat,
            overflowed: false,
        }
    }
}

/// What a source asks for.
pub enum Ask {
    /// Nothing: it is past the cutoff.
    PastCutoff,
    /// Nothing: it is as it was indexed.
    Unchanged,
    /// A subtree.
    Deep,
}

/// Whether a file must be planned anew: never indexed, interrupted, changed
/// in time or size, or shape-stale.
pub open spec fn file_dirty(
    source: EnumeratedSource,
    meta: Option<SourceIndexMeta>,
    sweep_shape: Seq<char>,
) -> bool {
    match meta {
        None => true,
        Some(m) => !m.indexed || m.modified != source.envelope.modified || m.raw_bytes
            != source.raw_bytes || m.shape_stale(sweep_shape),
    }
}

/// Whether a source was last modified before the cutoff.
pub open spec fn past_cutoff(source: EnumeratedSource, cutoff: Option<i64>) -> bool {
    match (cutoff, source.envelope.modified) {
        (Some(cutoff), Some(modified)) => modified < cutoff,
        _ => false,
    }
}

/// What a source asks for.
pub open spec fn ask(
    source: EnumeratedSource,
    meta: Option<SourceIndexMeta>,
    cutoff: Option<i64>,
    sweep_shape: Seq<char>,
    rebuild: bool,
) -> Ask {
    if past_cutoff(source, cutoff) {
        Ask::PastCutoff
    } else if file_dirty(source, meta, sweep_shape) || rebuild {
        Ask::Deep
    } else {
        Ask::Unchanged
    }
}

impl Pass {
    /// A pass that has decided nothing.
    pub open spec fn start() -> Pass {
        Pass {
            catalog: Seq::empty(),
            deep: Seq::empty(),
            skipped_cutoff: 0,
            unchanged: 0,
            catalog_only: 0,
            overflowed: false,
        }
    }

    /// The pass after one more source: one past the cutoff is cataloged when
    /// it was never seen and left alone otherwise; an unchanged one is
    /// passed over; of those that ask for a subtree, the budget's worth get
    /// one and the rest are cataloged.
    pub open spec fn decided(self, at: usize, ask: Ask, known: bool, budget: DeepBudget) -> Pass {
        match ask {
            Ask::PastCutoff => Pass {
                catalog: if known {
                    self.catalog
                } else {
                    self.catalog.push(CatalogEntry { source: at, mark: CatalogMark::Seen })
                },
                skipped_cutoff: self.skipped_cutoff + 1,
                ..self
            },
            Ask::Unchanged => Pass { unchanged: self.unchanged + 1, ..self },
            Ask::Deep => if self.deep.len() > u32::MAX {
                Pass { overflowed: true, ..self }
            } else if budget.allows_view(self.deep.len()) {
                Pass { deep: self.deep.push(at), ..self }
            } else {
                Pass {
                    catalog: self.catalog.push(
                        CatalogEntry { source: at, mark: CatalogMark::CatalogOnly },
                    ),
                    catalog_only: self.catalog_only + 1,
                    ..self
                }
            },
        }
    }
}

/// The pass over the first `n` sources.
pub open spec fn pass_over(
    sources: Seq<EnumeratedSource>,
    metas: Seq<Option<SourceIndexMeta>>,
    cutoff: Option<i64>,
    sweep_shape: Seq<char>,
    dials: RunDials,
    n: nat,
) -> Pass
    decreases n,
{
    if n == 0 {
        Pass::start()
    } else {
        let before = pass_over(sources, metas, cutoff, sweep_shape, dials, (n - 1) as nat);
        if before.overflowed {
            before
        } else {
            before.decided(
                (n - 1) as usize,
                ask(sources[n - 1], metas[n - 1], cutoff, sweep_shape, dials.rebuild),
                metas[n - 1] is Some,
                dials.deep_budget,
            )
        }
    }
}

/// What a run that chose too many sources is told.
pub open spec fn too_many() -> Seq<char> {
    "more than u32::MAX sources chosen for deep indexing"@
}

fn is_file_dirty(source: &EnumeratedSource, meta: &Option<SourceIndexMeta>, sweep_shape: &str) -> (r:
    bool)
    ensures
        r == file_dirty(*source, *meta, sweep_shape@),
{
    match meta {
        None => true,
        Some(m) => {
            let content_changed = !source::same_time(m.modified, source.envelope.modified)
                || m.raw_bytes != source.raw_bytes;
            !m.indexed || content_changed || m.is_shape_stale(sweep_shape)
        },
    }
}

fn is_past_cutoff(source: &EnumeratedSource, cutoff: Option<i64>) -> (r: bool)
    ensures
        r == past_cutoff(*source, cutoff),
{
    match (cutoff, source.envelope.modified) {
        (Some(cutoff), Some(modified)) => modified < cutoff,
        _ => false,
    }
}

/// The dirtiness pass: per source, is it past the cutoff, unchanged, past
/// this run's deep budget, or to be rebuilt? Decides only; the writes are
/// batched by the caller.
pub fn decide(
    sources: &Vec<EnumeratedSource>,
    metas: &Vec<Option<SourceIndexMeta>>,
    cutoff: Option<i64>,
    sweep_shape: &str,
    dials: RunDials,
) -> (r: Result<Decisions, SeamError>)
    requires
        metas@.len() == sources@.len(),
    ensures
        ({
            let pass = pass_over(
                sources@,
                metas@,
                cutoff,
                sweep_shape@,
                dials,
                sources@.len(),
            );
            &&& r is Ok <==> !pass.overflowed
            &&& r matches Ok(decisions) ==> decisions@ == pass
            &&& r matches Err(e) ==> e@ == ErrorView::Failed(too_many())
        }),
{
    let mut decisions = Decisions {
        catalog: Vec::new(),
        deep: Vec::new(),
        skipped_cutoff: 0,
        unchanged: 0,
        catalog_only: 0,
    };
    let mut i: usize = 0;
    proof {
        assert(decisions@ =~= Pass::start());
    }
    while i < sources.len()
        invariant
            i <= sources@.len(),
            metas@.len() == sources@.len(),
            decisions@ == pass_over(sources@, metas@, cutoff, sweep_shape@, dials, i as nat),
            decisions.skipped_cutoff <= i,
            decisions.unchanged <= i,
            decisions.catalog_only <= i,
        decreases sources@.len() - i,
    {
        let ghost before = decisions@;
        let ghost now = pass_over(sources@, metas@, cutoff, sweep_shape@, dials, (i + 1) as nat);
        if is_past_cutoff(&sources[i], cutoff) {
            if metas[i].is_none() {
                decisions.catalog.push(CatalogEntry { source: i, mark: CatalogMark::Seen });
            }
            decisions.skipped_cutoff = decisions.skipped_cutoff + 1;
        } else if !is_file_dirty(&sources[i], &metas[i], sweep_shape) && !dials.rebuild {
            decisions.unchanged = decisions.unchanged + 1;
        } else {
            if decisions.deep.len() > u32::MAX as usize {
                proof {
                    lemma_overflow_stays(
                        sources@,
                        metas@,
                        cutoff,
                        sweep_shape@,
                        dials,
                        (i + 1) as nat,
                        sources@.len(),
                    );
                }
                return Err(
                    SeamError::Failed(
                        "more than u32::MAX sources chosen for deep indexing".to_owned(),
                    ),
                );
            }
            if dials.deep_budget.allows(decisions.deep.len() as u32) {
                decisions.deep.push(i);
            } else {
                decisions.catalog.push(
                    CatalogEntry { source: i, mark: CatalogMark::CatalogOnly },
                );
                decisions.catalog_only = decisions.catalog_only + 1;
            }
        }
        proof {
            assert(decisions@ =~= now);
        }
        i = i + 1;
    }
    Ok(decisions)
}

proof fn lemma_overflow_stays(
    sources: Seq<EnumeratedSource>,
    metas: Seq<Option<SourceIndexMeta>>,
    cutoff: Option<i64>,
    sweep_shape: Seq<char>,
    dials: RunDials,
    n: nat,
    m: nat,
)
    requires
        n <= m,
        pass_over(sources, metas, cutoff, sweep_shape, dials, n).overflowed,
    ensures
        pass_over(sources, metas, cutoff, sweep_shape, dials, m).overflowed,
    decreases m - n,
{
    if n < m {
        lemma_overflow_stays(sources, metas, cutoff, sweep_shape, dials, n, (m - 1) as nat);
    }
}

/// Every source is decided exactly once: it is past the cutoff, unchanged,
/// cataloged for want of budget, or chosen.
pub proof fn law_every_source_is_decided_once(
    sources: Seq<EnumeratedSource>,
    metas: Seq<Option<SourceIndexMeta>>,
    cutoff: Option<i64>,
    sweep_shape: Seq<char>,
    dials: RunDials,
    n: nat,
)
    requires
        n <= sources.len(),
        metas.len() == sources.len(),
        !pass_over(sources, metas, cutoff, sweep_shape, dials, n).overflowed,
    ensures
        ({
            let pass = pass_over(sources, metas, cutoff, sweep_shape, dials, n);
            pass.skipped_cutoff + pass.unchanged + pass.catalog_only + pass.deep.len() == n
        }),
    decreases n,
{
    if n > 0 {
        if pass_over(sources, metas, cutoff, sweep_shape, dials, (n - 1) as nat).overflowed {
            lemma_overflow_stays(sources, metas, cutoff, sweep_shape, dials, (n - 1) as nat, n);
        }
        law_every_source_is_decided_once(
            sources,
            metas,
            cutoff,
            sweep_shape,
            dials,
            (n - 1) as nat,
        );
    }
}

/// Whether a source is recorded just as it is enumerated: indexed to its end
/// with the same time and the same size, under the stamp it would get now.
pub open spec fn recorded_as_is(
    source: EnumeratedSource,
    meta: Option<SourceIndexMeta>,
    sweep_shape: Seq<char>,
) -> bool {
    meta matches Some(m) && m.indexed && m.modified == source.envelope.modified && m.raw_bytes
        == source.raw_bytes && m.shape_stamp is Some && m.shape_stamp->0@ == m.participants@ + "+"@
        + sweep_shape
}

/// Whether a source lies before the horizon: both times are known, and it
/// was modified before the cutoff.
pub open spec fn before_horizon(source: EnumeratedSource, cutoff: Option<i64>) -> bool {
    cutoff is Some && source.envelope.modified is Some && source.envelope.modified->0 < cutoff->0
}

/// What became of the source at `at`: chosen, cataloged for want of budget,
/// or cataloged as seen.
pub open spec fn is_chosen(pass: Pass, at: int) -> bool {
    pass.deep.contains(at as usize)
}

/// Whether a source is cataloged with a mark.
pub open spec fn is_cataloged(pass: Pass, at: int, mark: CatalogMark) -> bool {
    pass.catalog.contains(CatalogEntry { source: at as usize, mark })
}

proof fn lemma_fates(
    sources: Seq<EnumeratedSource>,
    metas: Seq<Option<SourceIndexMeta>>,
    cutoff: Option<i64>,
    sweep_shape: Seq<char>,
    dials: RunDials,
    n: nat,
    at: int,
)
    requires
        0 <= at,
        n <= sources.len() <= usize::MAX,
        metas.len() == sources.len(),
        !pass_over(sources, metas, cutoff, sweep_shape, dials, n).overflowed,
    ensures
        ({
            let pass = pass_over(sources, metas, cutoff, sweep_shape, dials, n);
            let late = before_horizon(sources[at], cutoff);
            let asks = !late && (dials.rebuild || !recorded_as_is(
                sources[at],
                metas[at],
                sweep_shape,
            ));
            &&& at < n ==> (asks <==> is_chosen(pass, at) || is_cataloged(
                pass,
                at,
                CatalogMark::CatalogOnly,
            ))
            &&& at < n ==> !(is_chosen(pass, at) && is_cataloged(pass, at, CatalogMark::CatalogOnly))
            &&& at < n ==> (late && metas[at] is None <==> is_cataloged(
                pass,
                at,
                CatalogMark::Seen,
            ))
            &&& n <= at < sources.len() ==> !is_chosen(pass, at) && !is_cataloged(
                pass,
                at,
                CatalogMark::CatalogOnly,
            ) && !is_cataloged(pass, at, CatalogMark::Seen)
        }),
    decreases n,
{
    let pass = pass_over(sources, metas, cutoff, sweep_shape, dials, n);
    if n > 0 && at < sources.len() {
        let before = pass_over(sources, metas, cutoff, sweep_shape, dials, (n - 1) as nat);
        assert(!before.overflowed);
        lemma_fates(sources, metas, cutoff, sweep_shape, dials, (n - 1) as nat, at);
        let here = (n - 1) as usize;
        assert forall|mark: CatalogMark| #[trigger] is_cataloged(pass, at, mark) implies is_cataloged(
            before,
            at,
            mark,
        ) || pass.catalog == before.catalog.push(CatalogEntry { source: here, mark }) && here
            == at by {
            let entry = CatalogEntry { source: at as usize, mark };
            let k = choose|k: int| 0 <= k < pass.catalog.len() && pass.catalog[k] == entry;
            if k < before.catalog.len() {
                assert(before.catalog[k] == entry);
            }
        }
        assert forall|mark: CatalogMark| is_cataloged(before, at, mark) implies #[trigger] is_cataloged(
            pass,
            at,
            mark,
        ) by {
            let entry = CatalogEntry { source: at as usize, mark };
            let k = choose|k: int| 0 <= k < before.catalog.len() && before.catalog[k] == entry;
            assert(pass.catalog[k] == entry);
        }
        if is_chosen(pass, at) && !is_chosen(before, at) {
            let k = choose|k: int| 0 <= k < pass.deep.len() && pass.deep[k] == at as usize;
            if k < before.deep.len() {
                assert(before.deep[k] == at as usize);
            }
        }
        if is_chosen(before, at) {
            let k = choose|k: int| 0 <= k < before.deep.len() && before.deep[k] == at as usize;
            assert(pass.deep[k] == at as usize);
        }
        if at == n - 1 {
            if pass.deep.len() > before.deep.len() {
                assert(pass.deep[before.deep.len() as int] == at as usize);
            }
            if pass.catalog.len() > before.catalog.len() {
                let entry = pass.catalog[before.catalog.len() as int];
                assert(pass.catalog.contains(entry));
            }
        }
    }
}

/// A source is passed over as unchanged only where it is recorded just as it
/// is enumerated: one that was never indexed, was interrupted, or differs in
/// its time, its size or its stamp, asks for a subtree, as every source does
/// in a run that rebuilds, unless it lies before the horizon; and it gets
/// the subtree or is cataloged for want of budget. A source before the
/// horizon is cataloged as seen where the store never saw it. Nothing else
/// is chosen or cataloged.
pub proof fn law_only_what_is_recorded_as_is_is_unchanged(
    sources: Seq<EnumeratedSource>,
    metas: Seq<Option<SourceIndexMeta>>,
    cutoff: Option<i64>,
    sweep_shape: Seq<char>,
    dials: RunDials,
    at: int,
)
    requires
        0 <= at < sources.len() <= usize::MAX,
        metas.len() == sources.len(),
        !pass_over(sources, metas, cutoff, sweep_shape, dials, sources.len()).overflowed,
    ensures
        ({
            let pass = pass_over(sources, metas, cutoff, sweep_shape, dials, sources.len());
            let late = before_horizon(sources[at], cutoff);
            let asks = !late && (dials.rebuild || !recorded_as_is(
                sources[at],
                metas[at],
                sweep_shape,
            ));
            &&& is_chosen(pass, at) || is_cataloged(pass, at, CatalogMark::CatalogOnly) <==> asks
            &&& !(is_chosen(pass, at) && is_cataloged(pass, at, CatalogMark::CatalogOnly))
            &&& is_cataloged(pass, at, CatalogMark::Seen) <==> late && metas[at] is None
        }),
{
    lemma_fates(sources, metas, cutoff, sweep_shape, dials, sources.len(), at);
}

/// How many of the first `n` sources lie before the horizon.
pub open spec fn late_count(sources: Seq<EnumeratedSource>, cutoff: Option<i64>, n: nat) -> nat
    decreases n,
{
    if n == 0 {
        0
    } else {
        late_count(sources, cutoff, (n - 1) as nat) + if before_horizon(sources[n - 1], cutoff) {
            1nat
        } else {
            0nat
        }
    }
}

/// What is reported is what was decided: the sources before the horizon are
/// those counted as skipped, the catalog-only marks those counted as
/// cataloged, and with the chosen ones the rest is unchanged.
pub proof fn law_the_report_counts_what_was_decided(
    sources: Seq<EnumeratedSource>,
    metas: Seq<Option<SourceIndexMeta>>,
    cutoff: Option<i64>,
    sweep_shape: Seq<char>,
    dials: RunDials,
    n: nat,
)
    requires
        n <= sources.len() <= usize::MAX,
        metas.len() == sources.len(),
        !pass_over(sources, metas, cutoff, sweep_shape, dials, n).overflowed,
    ensures
        ({
            let pass = pass_over(sources, metas, cutoff, sweep_shape, dials, n);
            &&& pass.skipped_cutoff == late_count(sources, cutoff, n)
            &&& pass.unchanged == n - pass.deep.len() - pass.catalog_only - late_count(
                sources,
                cutoff,
                n,
            )
        }),
    decreases n,
{
    if n > 0 {
        let before = pass_over(sources, metas, cutoff, sweep_shape, dials, (n - 1) as nat);
        assert(!before.overflowed);
        law_the_report_counts_what_was_decided(
            sources,
            metas,
            cutoff,
            sweep_shape,
            dials,
            (n - 1) as nat,
        );
    }
    law_every_source_is_decided_once(sources, metas, cutoff, sweep_shape, dials, n);
}

/// A run never deep-indexes more sources than its budget, and turns a source
/// away only once the budget is spent.
pub proof fn law_the_deep_budget_holds(
    sources: Seq<EnumeratedSource>,
    metas: Seq<Option<SourceIndexMeta>>,
    cutoff: Option<i64>,
    sweep_shape: Seq<char>,
    dials: RunDials,
    n: nat,
)
    requires
        n <= sources.len(),
        metas.len() == sources.len(),
    ensures
        ({
            let pass = pass_over(sources, metas, cutoff, sweep_shape, dials, n);
            match dials.deep_budget {
                DeepBudget::Unlimited => pass.catalog_only == 0,
                DeepBudget::Sources(limit) => pass.deep.len() <= limit && (pass.catalog_only > 0
                    ==> pass.deep.len() == limit),
            }
        }),
    decreases n,
{
    if n > 0 {
        law_the_deep_budget_holds(sources, metas, cutoff, sweep_shape, dials, (n - 1) as nat);
    }
}

/// Tightening the cutoff never evicts what a looser one built: a source past
/// it is written to the catalog only when the store never saw it, and then
/// only as seen, so a known one keeps its row, its stamp and its subtree.
pub proof fn law_tightening_never_evicts(
    sources: Seq<EnumeratedSource>,
    metas: Seq<Option<SourceIndexMeta>>,
    cutoff: Option<i64>,
    sweep_shape: Seq<char>,
    dials: RunDials,
    n: nat,
)
    requires
        n <= sources.len() <= usize::MAX,
        metas.len() == sources.len(),
    ensures
        ({
            let catalog = pass_over(sources, metas, cutoff, sweep_shape, dials, n).catalog;
            forall|k: int|
                0 <= k < catalog.len() ==> (#[trigger] catalog[k]).source < n && (past_cutoff(
                    sources[catalog[k].source as int],
                    cutoff,
                ) ==> metas[catalog[k].source as int] is None && catalog[k].mark
                    == CatalogMark::Seen)
        }),
    decreases n,
{
    if n > 0 {
        law_tightening_never_evicts(sources, metas, cutoff, sweep_shape, dials, (n - 1) as nat);
        let before = pass_over(sources, metas, cutoff, sweep_shape, dials, (n - 1) as nat).catalog;
        let catalog = pass_over(sources, metas, cutoff, sweep_shape, dials, n).catalog;
        assert forall|k: int| 0 <= k < catalog.len() implies (#[trigger] catalog[k]).source < n && (
        past_cutoff(sources[catalog[k].source as int], cutoff)
            ==> metas[catalog[k].source as int] is None && catalog[k].mark == CatalogMark::Seen) by {
            if k < before.len() {
                assert(catalog[k] == before[k]);
            }
        }
    }
}

/// What is chosen asked for it: every source to deep-index stands in the
/// list, once and in order, is not past the cutoff, and is dirty unless the
/// run rebuilds.
pub proof fn law_chosen_sources_asked(
    sources: Seq<EnumeratedSource>,
    metas: Seq<Option<SourceIndexMeta>>,
    cutoff: Option<i64>,
    sweep_shape: Seq<char>,
    dials: RunDials,
    n: nat,
)
    requires
        n <= sources.len() <= usize::MAX,
        metas.len() == sources.len(),
    ensures
        ({
            let deep = pass_over(sources, metas, cutoff, sweep_shape, dials, n).deep;
            &&& forall|k: int|
                0 <= k < deep.len() ==> (#[trigger] deep[k]) < n && !past_cutoff(
                    sources[deep[k] as int],
                    cutoff,
                ) && (dials.rebuild || file_dirty(
                    sources[deep[k] as int],
                    metas[deep[k] as int],
                    sweep_shape,
                ))
            &&& forall|k: int, l: int| 0 <= k < l < deep.len() ==> #[trigger] deep[k] < #[trigger] deep[l]
        }),
    decreases n,
{
    if n > 0 {
        law_chosen_sources_asked(sources, metas, cutoff, sweep_shape, dials, (n - 1) as nat);
        let before = pass_over(sources, metas, cutoff, sweep_shape, dials, (n - 1) as nat).deep;
        let deep = pass_over(sources, metas, cutoff, sweep_shape, dials, n).deep;
        assert(deep == before || deep == before.push((n - 1) as usize));
        assert forall|k: int| 0 <= k < deep.len() implies (#[trigger] deep[k]) < n && !past_cutoff(
            sources[deep[k] as int],
            cutoff,
        ) && (dials.rebuild || file_dirty(
            sources[deep[k] as int],
            metas[deep[k] as int],
            sweep_shape,
        )) by {
            if k < before.len() {
                assert(deep[k] == before[k]);
            }
        }
        assert forall|k: int, l: int| 0 <= k < l < deep.len() implies #[trigger] deep[k]
            < #[trigger] deep[l] by {
            assert(deep[k] == before[k]);
            if l < before.len() {
                assert(deep[l] == before[l]);
            }
        }
    }
}

// --- Folders ---

/// What is known of a folder when its level is decided.
#[derive(Debug, PartialEq, Eq)]
pub struct FolderState {
    pub meta: Option<SourceIndexMeta>,
    /// The digest of the listing composed from its children.
    pub digest: String,
    /// Listed children that are deep-indexed.
    pub indexed_children: usize,
}

/// What the folder pass decided at one level.
#[derive(Debug, PartialEq, Eq)]
pub struct FolderDecisions {
    /// Folders to catalog without a subtree.
    pub catalog: Vec<usize>,
    /// Folders to plan.
    pub deep: Vec<usize>,
    pub unchanged: usize,
    pub catalog_only: usize,
    /// Sources the run has chosen to deep-index, these folders among them.
    pub deep_count: u32,
}

/// What the folder pass decided so far.
#[verifier::ext_equal]
pub struct FolderPass {
    pub catalog: Seq<usize>,
    pub deep: Seq<usize>,
    pub unchanged: nat,
    pub catalog_only: nat,
    pub deep_count: nat,
    /// A folder was chosen when no more could be counted.
    pub overflowed: bool,
}

impl View for FolderDecisions {
    type V = FolderPass;

    open spec fn view(&self) -> FolderPass {
        FolderPass {
            catalog: self.catalog@,
            deep: self.deep@,
            unchanged: self.unchanged as nat,
            catalog_only: self.catalog_only as nat,
            deep_count: self.deep_count as nat,
            overflowed: false,
        }
    }
}

/// The folder pass over the first `n` folders of a level. Folders have no
/// cutoff of their own; a folder none of whose children is deep-indexed yet
/// stays catalog-only, and folders count against the same budget as files.
pub open spec fn folders_over(
    level: Seq<FolderState>,
    sweep_shape: Seq<char>,
    dials: RunDials,
    deep_before: nat,
    n: nat,
) -> FolderPass
    decreases n,
{
    if n == 0 {
        FolderPass {
            catalog: Seq::empty(),
            deep: Seq::empty(),
            unchanged: 0,
            catalog_only: 0,
            deep_count: deep_before,
            overflowed: false,
        }
    } else {
        let before = folders_over(level, sweep_shape, dials, deep_before, (n - 1) as nat);
        let folder = level[n - 1];
        if before.overflowed {
            before
        } else if !folders::folder_dirty(folder.meta, folder.digest@, sweep_shape)
            && !dials.rebuild {
            FolderPass { unchanged: before.unchanged + 1, ..before }
        } else if folder.indexed_children == 0 || !dials.deep_budget.allows_view(
            before.deep_count,
        ) {
            FolderPass {
                catalog: before.catalog.push((n - 1) as usize),
                catalog_only: before.catalog_only + 1,
                ..before
            }
        } else if before.deep_count == u32::MAX {
            FolderPass { overflowed: true, ..before }
        } else {
            FolderPass {
                deep: before.deep.push((n - 1) as usize),
                deep_count: before.deep_count + 1,
                ..before
            }
        }
    }
}

proof fn lemma_folder_overflow_stays(
    level: Seq<FolderState>,
    sweep_shape: Seq<char>,
    dials: RunDials,
    deep_before: nat,
    n: nat,
    m: nat,
)
    requires
        n <= m,
        folders_over(level, sweep_shape, dials, deep_before, n).overflowed,
    ensures
        folders_over(level, sweep_shape, dials, deep_before, m).overflowed,
    decreases m - n,
{
    if n < m {
        lemma_folder_overflow_stays(level, sweep_shape, dials, deep_before, n, (m - 1) as nat);
    }
}

/// The folder dirtiness pass for one level: spend the run's deep budget on
/// the dirty folders that list an indexed child.
pub fn decide_folders(
    level: &Vec<FolderState>,
    sweep_shape: &str,
    dials: RunDials,
    deep_count: u32,
) -> (r: Result<FolderDecisions, SeamError>)
    ensures
        ({
            let pass = folders_over(level@, sweep_shape@, dials, deep_count as nat, level@.len());
            &&& r is Ok <==> !pass.overflowed
            &&& r matches Ok(decisions) ==> decisions@ == pass
            &&& r matches Err(e) ==> e@ == ErrorView::Failed(too_many())
        }),
{
    let mut decisions = FolderDecisions {
        catalog: Vec::new(),
        deep: Vec::new(),
        unchanged: 0,
        catalog_only: 0,
        deep_count,
    };
    let mut i: usize = 0;
    proof {
        assert(decisions@ =~= folders_over(level@, sweep_shape@, dials, deep_count as nat, 0));
    }
    while i < level.len()
        invariant
            i <= level@.len(),
            decisions@ == folders_over(level@, sweep_shape@, dials, deep_count as nat, i as nat),
            decisions.unchanged <= i,
            decisions.catalog_only <= i,
        decreases level@.len() - i,
    {
        let ghost now = folders_over(
            level@,
            sweep_shape@,
            dials,
            deep_count as nat,
            (i + 1) as nat,
        );
        let dirty = folders::is_dirty(&level[i].meta, level[i].digest.as_str(), sweep_shape);
        if !dirty && !dials.rebuild {
            decisions.unchanged = decisions.unchanged + 1;
        } else if level[i].indexed_children == 0 || !dials.deep_budget.allows(
            decisions.deep_count,
        ) {
            decisions.catalog.push(i);
            decisions.catalog_only = decisions.catalog_only + 1;
        } else if decisions.deep_count == u32::MAX {
            proof {
                lemma_folder_overflow_stays(
                    level@,
                    sweep_shape@,
                    dials,
                    deep_count as nat,
                    (i + 1) as nat,
                    level@.len(),
                );
            }
            return Err(
                SeamError::Failed("more than u32::MAX sources chosen for deep indexing".to_owned()),
            );
        } else {
            decisions.deep_count = decisions.deep_count + 1;
            decisions.deep.push(i);
        }
        proof {
            assert(decisions@ =~= now);
        }
        i = i + 1;
    }
    Ok(decisions)
}

/// Every folder of a level is decided exactly once: it is unchanged,
/// cataloged for want of an indexed child or of budget, or chosen.
pub proof fn law_every_folder_is_decided_once(
    level: Seq<FolderState>,
    sweep_shape: Seq<char>,
    dials: RunDials,
    deep_before: nat,
    n: nat,
)
    requires
        n <= level.len(),
        !folders_over(level, sweep_shape, dials, deep_before, n).overflowed,
    ensures
        ({
            let pass = folders_over(level, sweep_shape, dials, deep_before, n);
            &&& pass.unchanged + pass.catalog_only + pass.deep.len() == n
            &&& pass.catalog.len() == pass.catalog_only
        }),
    decreases n,
{
    if n > 0 {
        if folders_over(level, sweep_shape, dials, deep_before, (n - 1) as nat).overflowed {
            lemma_folder_overflow_stays(
                level,
                sweep_shape,
                dials,
                deep_before,
                (n - 1) as nat,
                n,
            );
        }
        law_every_folder_is_decided_once(level, sweep_shape, dials, deep_before, (n - 1) as nat);
    }
}

/// Whether a folder is recorded just as it stands: indexed to its end from
/// the listing it has now, under the stamp it would get now.
pub open spec fn folder_recorded_as_is(folder: FolderState, sweep_shape: Seq<char>) -> bool {
    folder.meta matches Some(m) && m.indexed && m.content_digest is Some && m.content_digest->0@
        == folder.digest@ && m.shape_stamp is Some && m.shape_stamp->0@ == m.participants@ + "+"@
        + sweep_shape
}

/// A folder is passed over only where it is recorded just as it stands and
/// the run does not rebuild: any other is chosen, or cataloged, and one that
/// lists no indexed child is never chosen. What is cataloged for another
/// reason found the budget spent.
pub proof fn law_only_folders_recorded_as_is_are_unchanged(
    level: Seq<FolderState>,
    sweep_shape: Seq<char>,
    dials: RunDials,
    deep_before: nat,
    n: nat,
    at: int,
)
    requires
        0 <= at < level.len() <= usize::MAX,
        n <= level.len(),
        !folders_over(level, sweep_shape, dials, deep_before, n).overflowed,
    ensures
        ({
            let pass = folders_over(level, sweep_shape, dials, deep_before, n);
            let asks = dials.rebuild || !folder_recorded_as_is(level[at], sweep_shape);
            &&& at < n ==> (asks <==> pass.deep.contains(at as usize) || pass.catalog.contains(
                at as usize,
            ))
            &&& at < n ==> !(pass.deep.contains(at as usize) && pass.catalog.contains(at as usize))
            &&& at < n && level[at].indexed_children == 0 ==> !pass.deep.contains(at as usize)
            &&& at < n && level[at].indexed_children > 0 && pass.catalog.contains(at as usize) ==> (
            dials.deep_budget matches DeepBudget::Sources(limit) && pass.deep_count >= limit)
            &&& at >= n ==> !pass.deep.contains(at as usize) && !pass.catalog.contains(at as usize)
        }),
    decreases n,
{
    let pass = folders_over(level, sweep_shape, dials, deep_before, n);
    if n > 0 {
        let before = folders_over(level, sweep_shape, dials, deep_before, (n - 1) as nat);
        assert(!before.overflowed);
        law_only_folders_recorded_as_is_are_unchanged(
            level,
            sweep_shape,
            dials,
            deep_before,
            (n - 1) as nat,
            at,
        );
        let here = (n - 1) as usize;
        lemma_pushed_or_not(before.deep, pass.deep, here, at as usize);
        lemma_pushed_or_not(before.catalog, pass.catalog, here, at as usize);
    }
}

proof fn lemma_pushed_or_not(before: Seq<usize>, after: Seq<usize>, here: usize, at: usize)
    requires
        after == before || after == before.push(here),
    ensures
        after.contains(at) <==> before.contains(at) || after.len() > before.len() && at == here,
{
    if before.contains(at) {
        let k = choose|k: int| 0 <= k < before.len() && before[k] == at;
        assert(after[k] == at);
    }
    if after.contains(at) {
        let k = choose|k: int| 0 <= k < after.len() && after[k] == at;
        if k < before.len() {
            assert(before[k] == at);
        }
    }
    if after.len() > before.len() {
        assert(after[before.len() as int] == here);
    }
}

/// What the folder passes over several levels decided together.
pub struct LevelsPass {
    pub unchanged: nat,
    pub catalog_only: nat,
    pub deep: nat,
    pub deep_count: nat,
    pub overflowed: bool,
}

/// The folder passes over the first `n` levels, each with the sources chosen
/// before it counted against the budget.
pub open spec fn levels_over(
    levels: Seq<Seq<FolderState>>,
    sweep_shape: Seq<char>,
    dials: RunDials,
    deep_before: nat,
    n: nat,
) -> LevelsPass
    decreases n,
{
    if n == 0 {
        LevelsPass {
            unchanged: 0,
            catalog_only: 0,
            deep: 0,
            deep_count: deep_before,
            overflowed: false,
        }
    } else {
        let before = levels_over(levels, sweep_shape, dials, deep_before, (n - 1) as nat);
        let level = levels[n - 1];
        let pass = folders_over(level, sweep_shape, dials, before.deep_count, level.len());
        LevelsPass {
            unchanged: before.unchanged + pass.unchanged,
            catalog_only: before.catalog_only + pass.catalog_only,
            deep: before.deep + pass.deep.len(),
            deep_count: pass.deep_count,
            overflowed: before.overflowed || pass.overflowed,
        }
    }
}

proof fn lemma_levels_are_decided(
    levels: Seq<Vec<EnumeratedSource>>,
    states: Seq<Seq<FolderState>>,
    sweep_shape: Seq<char>,
    dials: RunDials,
    deep_before: nat,
    n: nat,
)
    requires
        n <= levels.len(),
        states.len() == levels.len(),
        forall|i: int| 0 <= i < levels.len() ==> (#[trigger] states[i]).len() == levels[i]@.len(),
        !levels_over(states, sweep_shape, dials, deep_before, n).overflowed,
    ensures
        ({
            let pass = levels_over(states, sweep_shape, dials, deep_before, n);
            pass.unchanged + pass.catalog_only + pass.deep == folders::flat(
                levels.take(n as int),
            ).len()
        }),
    decreases n,
{
    if n > 0 {
        let before = levels_over(states, sweep_shape, dials, deep_before, (n - 1) as nat);
        lemma_levels_are_decided(levels, states, sweep_shape, dials, deep_before, (n - 1) as nat);
        law_every_folder_is_decided_once(
            states[n - 1],
            sweep_shape,
            dials,
            before.deep_count,
            states[n - 1].len(),
        );
        assert(levels.take(n as int).drop_last() =~= levels.take(n - 1));
        assert(levels.take(n as int).last() == levels[n - 1]);
    }
}

/// A run accounts for every source that was enumerated: it is ignored, past
/// the cutoff, unchanged, cataloged or chosen, and only one of these.
pub proof fn law_a_run_accounts_for_every_source(
    run: EnumeratedRun,
    levels: Seq<Vec<EnumeratedSource>>,
    metas: Seq<Option<SourceIndexMeta>>,
    states: Seq<Seq<FolderState>>,
    cutoff: Option<i64>,
    sweep_shape: Seq<char>,
    dials: RunDials,
)
    requires
        run.ignored + run.files@.len() + run.folders@.len() == run.sources_seen,
        crate::order::is_sorting_of(folders::flat(levels), run.folders@),
        metas.len() == run.files@.len(),
        states.len() == levels.len(),
        forall|i: int| 0 <= i < levels.len() ==> (#[trigger] states[i]).len() == levels[i]@.len(),
        ({
            let files = pass_over(
                run.files@,
                metas,
                cutoff,
                sweep_shape,
                dials,
                run.files@.len(),
            );
            !files.overflowed && !levels_over(
                states,
                sweep_shape,
                dials,
                files.deep.len(),
                levels.len(),
            ).overflowed
        }),
    ensures
        ({
            let files = pass_over(
                run.files@,
                metas,
                cutoff,
                sweep_shape,
                dials,
                run.files@.len(),
            );
            let dirs = levels_over(states, sweep_shape, dials, files.deep.len(), levels.len());
            run.ignored + files.skipped_cutoff + (files.unchanged + dirs.unchanged) + (
            files.catalog_only + dirs.catalog_only) + (files.deep.len() + dirs.deep)
                == run.sources_seen
        }),
{
    let n = run.files@.len();
    let files = pass_over(run.files@, metas, cutoff, sweep_shape, dials, n);
    law_every_source_is_decided_once(run.files@, metas, cutoff, sweep_shape, dials, n);
    lemma_levels_are_decided(
        levels,
        states,
        sweep_shape,
        dials,
        files.deep.len(),
        levels.len(),
    );
    assert(levels.take(levels.len() as int) =~= levels);
    crate::order::lemma_sorting_len(folders::flat(levels), run.folders@);
}

/// Folders share the files' budget: with the sources the run had already
/// chosen, no level takes a run past it.
pub proof fn law_folders_share_the_budget(
    level: Seq<FolderState>,
    sweep_shape: Seq<char>,
    dials: RunDials,
    deep_before: nat,
    n: nat,
)
    requires
        n <= level.len(),
        dials.deep_budget matches DeepBudget::Sources(limit) ==> deep_before <= limit,
    ensures
        ({
            let pass = folders_over(level, sweep_shape, dials, deep_before, n);
            &&& pass.deep_count == deep_before + pass.deep.len()
            &&& dials.deep_budget matches DeepBudget::Sources(limit) ==> pass.deep_count <= limit
        }),
    decreases n,
{
    if n > 0 {
        law_folders_share_the_budget(level, sweep_shape, dials, deep_before, (n - 1) as nat);
    }
}

// --- What vanished ---

/// Whether a scope's prefix covers a locator: the prefix itself, anything
/// under it, and everything for the empty prefix.
pub open spec fn covers(prefix: Seq<char>, locator: Seq<char>) -> bool {
    prefix.len() == 0 || locator == prefix || folders::is_below(prefix, locator)
}

/// Whether a swept scope's locator prefix covers a cataloged locator.
pub fn scope_covers(prefix: &str, locator: &str) -> (r: bool)
    ensures
        r == covers(prefix@, locator@),
{
    if prefix.unicode_len() == 0 {
        return true;
    }
    if text::same(locator, prefix) {
        return true;
    }
    if !text::starts_with(locator, prefix) {
        return false;
    }
    let chars = text::chars_of(locator);
    let at: usize = prefix.unicode_len();
    at < chars.len() && chars[at] == '/'
}

/// A cataloged source of the swept host.
#[derive(Debug, PartialEq, Eq)]
pub struct CatalogedSource {
    pub id: i64,
    pub locator: String,
}

/// Whether a list of sources holds a locator.
pub open spec fn sees(sources: Seq<EnumeratedSource>, locator: Seq<char>) -> bool {
    exists|i: int| 0 <= i < sources.len() && (#[trigger] sources[i]).address.locator@ == locator
}

/// The cataloged sources under the scope that enumeration no longer sees, in
/// catalog order.
pub open spec fn gone(
    cataloged: Seq<CatalogedSource>,
    prefix: Seq<char>,
    files: Seq<EnumeratedSource>,
    dirs: Seq<EnumeratedSource>,
) -> Seq<i64>
    decreases cataloged.len(),
{
    if cataloged.len() == 0 {
        Seq::empty()
    } else {
        let before = gone(cataloged.drop_last(), prefix, files, dirs);
        let last = cataloged.last();
        if covers(prefix, last.locator@) && !sees(files, last.locator@) && !sees(
            dirs,
            last.locator@,
        ) {
            before.push(last.id)
        } else {
            before
        }
    }
}

fn note_seen(seen: &mut StringHashMap<bool>, sources: &Vec<EnumeratedSource>)
    ensures
        forall|k: Seq<char>| #[trigger]
            final(seen)@.contains_key(k) <==> (old(seen)@.contains_key(k) || sees(sources@, k)),
{
    let mut i: usize = 0;
    while i < sources.len()
        invariant
            i <= sources@.len(),
            forall|k: Seq<char>| #[trigger]
                seen@.contains_key(k) <==> (old(seen)@.contains_key(k) || sees(
                    sources@.take(i as int),
                    k,
                )),
        decreases sources@.len() - i,
    {
        let ghost before = seen@;
        let ghost then_ = sources@.take(i as int);
        let ghost now = sources@.take(i as int + 1);
        seen.insert(sources[i].address.locator.clone(), true);
        proof {
            assert forall|k: Seq<char>| #[trigger] seen@.contains_key(k) <==> (old(
                seen,
            )@.contains_key(k) || sees(now, k)) by {
                assert(before.contains_key(k) <==> (old(seen)@.contains_key(k) || sees(then_, k)));
                if sees(then_, k) {
                    let j = choose|j: int|
                        0 <= j < then_.len() && (#[trigger] then_[j]).address.locator@ == k;
                    assert(now[j] == then_[j]);
                }
                if sources@[i as int].address.locator@ == k {
                    assert(now[i as int].address.locator@ == k);
                }
                if sees(now, k) {
                    let j = choose|j: int|
                        0 <= j < now.len() && (#[trigger] now[j]).address.locator@ == k;
                    if j < i {
                        assert(then_[j] == now[j]);
                    }
                }
            }
        }
        i = i + 1;
    }
    proof {
        assert(sources@.take(sources@.len() as int) =~= sources@);
    }
}

/// The cataloged sources to remove: those under the swept scope that
/// enumeration no longer sees. A scope with no stable locator prefix
/// reconciles nothing rather than guessing.
pub fn vanished(
    cataloged: &Vec<CatalogedSource>,
    prefix: &Option<String>,
    files: &Vec<EnumeratedSource>,
    dirs: &Vec<EnumeratedSource>,
) -> (r: Vec<i64>)
    ensures
        r@ == (match *prefix {
            None => Seq::empty(),
            Some(prefix) => gone(cataloged@, prefix@, files@, dirs@),
        }),
{
    let mut out: Vec<i64> = Vec::new();
    let prefix = match prefix {
        None => return out,
        Some(prefix) => prefix,
    };
    let mut seen: StringHashMap<bool> = StringHashMap::new();
    note_seen(&mut seen, files);
    note_seen(&mut seen, dirs);
    let mut i: usize = 0;
    proof {
        assert(cataloged@.take(0) =~= Seq::empty());
    }
    while i < cataloged.len()
        invariant
            i <= cataloged@.len(),
            forall|k: Seq<char>| #[trigger]
                seen@.contains_key(k) <==> (sees(files@, k) || sees(dirs@, k)),
            out@ == gone(cataloged@.take(i as int), prefix@, files@, dirs@),
        decreases cataloged@.len() - i,
    {
        proof {
            assert(cataloged@.take(i as int + 1).drop_last() =~= cataloged@.take(i as int));
            assert(cataloged@.take(i as int + 1).last() == cataloged@[i as int]);
        }
        if scope_covers(prefix.as_str(), cataloged[i].locator.as_str()) && !seen.contains_key(
            cataloged[i].locator.as_str(),
        ) {
            out.push(cataloged[i].id);
        }
        i = i + 1;
    }
    proof {
        assert(cataloged@.take(cataloged@.len() as int) =~= cataloged@);
    }
    out
}

/// Only what the scope covers and enumeration does not see is removed: every
/// row to remove is such a row, and every such row is removed.
pub proof fn law_only_unseen_sources_vanish(
    cataloged: Seq<CatalogedSource>,
    prefix: Seq<char>,
    files: Seq<EnumeratedSource>,
    dirs: Seq<EnumeratedSource>,
    id: i64,
)
    ensures
        gone(cataloged, prefix, files, dirs).contains(id) <==> exists|k: int|
            0 <= k < cataloged.len() && (#[trigger] cataloged[k]).id == id && covers(
                prefix,
                cataloged[k].locator@,
            ) && !sees(files, cataloged[k].locator@) && !sees(dirs, cataloged[k].locator@),
    decreases cataloged.len(),
{
    if cataloged.len() > 0 {
        let front = cataloged.drop_last();
        let last = cataloged.last();
        let before = gone(front, prefix, files, dirs);
        let now = gone(cataloged, prefix, files, dirs);
        law_only_unseen_sources_vanish(front, prefix, files, dirs, id);
        if now.contains(id) {
            let i = choose|i: int| 0 <= i < now.len() && now[i] == id;
            if i < before.len() {
                assert(before[i] == id);
                let k = choose|k: int|
                    0 <= k < front.len() && (#[trigger] front[k]).id == id && covers(
                        prefix,
                        front[k].locator@,
                    ) && !sees(files, front[k].locator@) && !sees(dirs, front[k].locator@);
                assert(cataloged[k] == front[k]);
            } else {
                assert(cataloged[cataloged.len() - 1] == last);
            }
        }
        if exists|k: int|
            0 <= k < cataloged.len() && (#[trigger] cataloged[k]).id == id && covers(
                prefix,
                cataloged[k].locator@,
            ) && !sees(files, cataloged[k].locator@) && !sees(dirs, cataloged[k].locator@) {
            let k = choose|k: int|
                0 <= k < cataloged.len() && (#[trigger] cataloged[k]).id == id && covers(
                    prefix,
                    cataloged[k].locator@,
                ) && !sees(files, cataloged[k].locator@) && !sees(dirs, cataloged[k].locator@);
            if k < front.len() {
                assert(front[k] == cataloged[k]);
                assert(before.contains(id));
                let i = choose|i: int| 0 <= i < before.len() && before[i] == id;
                assert(now[i] == id);
            } else {
                assert(now[now.len() - 1] == id);
            }
        }
    } else {
        assert(!gone(cataloged, prefix, files, dirs).contains(id));
    }
}

/// Ignoring is membership: an indexed source that a rule now covers is not
/// among the files a run admits, so its cataloged row is removed like a
/// vanished one's.
pub proof fn law_ignored_sources_vanish(
    enumerated: Seq<EnumeratedSource>,
    rules: Seq<ignore::IgnoreRule>,
    directories: bool,
    locator: Seq<char>,
)
    requires
        forall|i: int|
            0 <= i < enumerated.len() && (#[trigger] enumerated[i]).address.locator@ == locator
                ==> ignore::any_ignores(rules, enumerated[i].address, enumerated[i].envelope),
    ensures
        !sees(admitted(enumerated, rules, directories), locator),
    decreases enumerated.len(),
{
    if enumerated.len() > 0 {
        let front = enumerated.drop_last();
        assert forall|i: int|
            0 <= i < front.len() && (#[trigger] front[i]).address.locator@
                == locator implies ignore::any_ignores(
            rules,
            front[i].address,
            front[i].envelope,
        ) by {
            assert(enumerated[i] == front[i]);
        }
        law_ignored_sources_vanish(front, rules, directories, locator);
        let kept = admitted(enumerated, rules, directories);
        let before = admitted(front, rules, directories);
        if sees(kept, locator) {
            let i = choose|i: int|
                0 <= i < kept.len() && (#[trigger] kept[i]).address.locator@ == locator;
            if i < before.len() {
                assert(before[i] == kept[i]);
            } else {
                assert(kept[i] == enumerated[enumerated.len() - 1]);
            }
        }
    }
}


/// A run admits every source that no rule ignores, as a folder or as a file,
/// in the order enumerated, and no other.
pub proof fn law_every_source_no_rule_ignores_is_admitted(
    sources: Seq<EnumeratedSource>,
    rules: Seq<ignore::IgnoreRule>,
)
    ensures
        admitted(sources, rules, true) == sources.filter(
            |source: EnumeratedSource|
                source.envelope.content_type.directory && !ignore::any_ignores(
                    rules,
                    source.address,
                    source.envelope,
                ),
        ),
        admitted(sources, rules, false) == sources.filter(
            |source: EnumeratedSource|
                !source.envelope.content_type.directory && !ignore::any_ignores(
                    rules,
                    source.address,
                    source.envelope,
                ),
        ),
    decreases sources.len(),
{
    reveal(Seq::filter);
    if sources.len() > 0 {
        law_every_source_no_rule_ignores_is_admitted(sources.drop_last(), rules);
    }
}

/// A scope covers what stands under it and nothing beside it: a locator is
/// covered exactly when it is the prefix or goes on from it with a slash, and
/// every locator is when there is no prefix.
pub proof fn law_a_scope_covers_what_is_under_it(prefix: Seq<char>, rest: Seq<char>, c: char)
    ensures
        covers(Seq::empty(), rest),
        covers(prefix, prefix),
        covers(prefix, prefix + seq!['/'] + rest),
        prefix.len() > 0 && c != '/' ==> !covers(prefix, prefix + seq![c] + rest),
        rest.len() < prefix.len() ==> !covers(prefix, rest),
{
    let below = prefix + seq!['/'] + rest;
    assert(below.take(prefix.len() as int) =~= prefix);
    let beside = prefix + seq![c] + rest;
    assert(beside[prefix.len() as int] == c);
    assert(beside.len() > prefix.len());
}

/// The batch lane is the same model: with the lane's suffix or without it, a
/// model has one base and one stamp, and only that suffix comes off.
pub proof fn law_lanes_share_a_stamp(
    fingerprint: Seq<char>,
    budget: usize,
    model: Seq<char>,
)
    requires
        model.len() > 0,
        !text::ends(model, ":batch"@),
    ensures
        base_model(model + ":batch"@) == model,
        base_model(model) == model,
        stamped(fingerprint, budget, model + ":batch"@) == stamped(fingerprint, budget, model),
        budget == 0 ==> stamped(fingerprint, budget, model) == fingerprint,
        budget > 0 ==> stamped(fingerprint, budget, model) == fingerprint + "|model="@ + model,
{
    let lane = model + ":batch"@;
    let n = lane.len() - ":batch"@.len();
    assert(lane.skip(n) =~= ":batch"@);
    assert(lane.take(n) =~= model);
}

/// All the levels of folders share the files' budget: each level starts from
/// what was chosen before it, so that with the files no run is taken past it.
pub proof fn law_all_levels_share_the_budget(
    levels: Seq<Seq<FolderState>>,
    sweep_shape: Seq<char>,
    dials: RunDials,
    deep_before: nat,
    n: nat,
)
    requires
        n <= levels.len(),
        dials.deep_budget matches DeepBudget::Sources(limit) ==> deep_before <= limit,
    ensures
        ({
            let pass = levels_over(levels, sweep_shape, dials, deep_before, n);
            &&& pass.deep_count == deep_before + pass.deep
            &&& dials.deep_budget matches DeepBudget::Sources(limit) ==> deep_before + pass.deep
                <= limit
        }),
    decreases n,
{
    if n > 0 {
        law_all_levels_share_the_budget(
            levels,
            sweep_shape,
            dials,
            deep_before,
            (n - 1) as nat,
        );
        let before = levels_over(levels, sweep_shape, dials, deep_before, (n - 1) as nat);
        law_folders_share_the_budget(
            levels[n - 1],
            sweep_shape,
            dials,
            before.deep_count,
            levels[n - 1].len(),
        );
    }
}

} // verus!
