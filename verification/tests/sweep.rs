use inseam_plugins::seam::{Address, SeamError};
use inseam_plugins::sweep::cache::{caches_output, key_material, ObservedCalls};
use inseam_plugins::sweep::config::{cutoff, DeepBudget, PlanLimits, SweepConfig, SweepFactory};
use inseam_plugins::sweep::decide::{
    admit_enumerated, check_steward, decide, decide_folders, defers_vector_index,
    lane_independent_model, run_dials, scope_covers, stamped_fingerprint, vanished, CatalogEntry,
    CatalogMark, CatalogedSource, FolderState, RunDials, Steward,
};
use inseam_plugins::sweep::embed::{
    count_present, embedded_batch, misses, place, vectored, wanted_rows, Batch, EmbedTotals,
    EmbeddedBatch, PendingRow, RowBuffer, SourceCompletion, VectorScope, FLUSH_AT,
};
use inseam_plugins::sweep::entities::{wire_entities, ExtractedEntity};
use inseam_plugins::sweep::folders::{
    depth_of, folder_listing, is_dirty, is_folder, last_segment, levels, retain_holding,
    FolderChild,
};
use inseam_plugins::sweep::grant::{Allowance, RunMeter, RunMeters};
use inseam_plugins::sweep::ignore::{
    is_small_glob, IgnoreError, IgnoreRule, IgnoreSet, GLOB_BRACES_MAX, GLOB_CHARS_MAX,
    IGNORE_RULES_MAX,
};
use inseam_plugins::sweep::plan::PlanNode;
use inseam_plugins::sweep::run::{
    Checkpoint, CheckpointStep, IndexControl, Outcome, Run, Step, PAUSE_POLLS_MAX,
};
use inseam_plugins::sweep::report::IndexPhase;
use inseam_plugins::sweep::source::{
    expected_stamp, root_extent, ContentLength, EnumeratedSource, Envelope, Extent, Mimetype,
    Property, SourceIndexMeta,
};

fn address(full: &str) -> Address {
    let rest = full.strip_prefix("inseam://").expect("an address");
    let (host, locator) = rest.split_once('/').expect("a locator");
    Address { host: host.to_string(), locator: locator.to_string() }
}

fn mimetype(essence: &str) -> Mimetype {
    Mimetype {
        essence: essence.to_string(),
        inseam_defined: false,
        summary: false,
        directory: false,
        via: None,
    }
}

fn directory_type() -> Mimetype {
    Mimetype { inseam_defined: true, directory: true, ..mimetype("inode/directory") }
}

fn folder(full: &str) -> EnumeratedSource {
    EnumeratedSource {
        address: address(full),
        envelope: Envelope {
            source_type: "directory".into(),
            content_type: directory_type(),
            length: ContentLength::Bytes(0),
            modified: None,
            properties: Vec::new(),
            hint: None,
            content_digest: None,
        },
        raw_bytes: 0,
    }
}

fn locators(level: &[EnumeratedSource]) -> Vec<&str> {
    level.iter().map(|s| s.address.locator.as_str()).collect()
}

fn file(full: &str, essence: &str, hint: &str) -> (Address, Envelope) {
    let envelope = Envelope {
        source_type: "file".into(),
        content_type: mimetype(essence),
        length: ContentLength::Bytes(10),
        modified: None,
        properties: Vec::new(),
        hint: Some(hint.into()),
        content_digest: None,
    };
    (address(full), envelope)
}

fn email(full: &str, from: &str, subject: &str) -> (Address, Envelope) {
    let (address, mut envelope) = file(full, "message/rfc822", subject);
    envelope.source_type = "email".into();
    envelope.properties.push(Property { key: "email".into(), value: from.into() });
    (address, envelope)
}

fn set(rules: &[IgnoreRule]) -> IgnoreSet {
    IgnoreSet::compile(rules).ok().expect("test rules compile")
}

fn refusal(rules: &[IgnoreRule]) -> IgnoreError {
    IgnoreSet::compile(rules).err().expect("refused")
}

// --- The sweep as a whole ---

#[test]
fn source_reads_have_a_separate_fixed_bound() {
    let config = SweepConfig::default();

    assert_eq!(config.source_reads_in_flight_max, 128);
    assert!(config.source_reads_in_flight_max < config.batch_concurrency);
}

#[test]
fn the_stamp_model_drops_the_batch_lane_suffix() {
    assert_eq!(
        lane_independent_model("google/gemini-2.5-flash-lite:batch"),
        "google/gemini-2.5-flash-lite"
    );
    assert_eq!(
        lane_independent_model("google/gemini-2.5-flash-lite"),
        "google/gemini-2.5-flash-lite"
    );
    assert_eq!(lane_independent_model(":batch"), ":batch");
    assert_eq!(lane_independent_model(""), "");
}

#[test]
fn scope_covers_the_prefix_its_children_and_everything_for_the_empty_prefix() {
    assert!(scope_covers("Users/greg/Notes", "Users/greg/Notes"));
    assert!(scope_covers("Users/greg/Notes", "Users/greg/Notes/a.md"));
    assert!(!scope_covers("Users/greg/Notes", "Users/greg/Notes-old/a.md"));
    assert!(!scope_covers("Users/greg/Notes", "Users/greg"));
    assert!(scope_covers("", "any/locator/at/all"));
    assert!(scope_covers("", "1a2b3c"));
}

#[test]
fn defers_only_when_the_run_lands_a_large_share() {
    // (deep sources this run, sources indexed before, defers?)
    let cases: &[(usize, u64, bool)] = &[
        (0, 0, false),
        (0, 1_000, false),
        (1, 0, true),
        (1, 1_000, false),
        (499, 1_000, false),
        (500, 1_000, true),
        (1_000, 1_000, true),
        (usize::MAX, u64::MAX, true),
    ];
    for (deep, indexed, expected) in cases {
        assert_eq!(
            defers_vector_index(*deep, *indexed),
            *expected,
            "deep={deep} indexed={indexed}"
        );
    }
}

// --- Grants ---

#[test]
fn meter_charges_exactly_to_budget() {
    let mut meter = RunMeter::new(3);
    assert!(meter.has_budget());
    assert!(meter.charge().is_ok());
    assert!(meter.charge().is_ok());
    assert!(meter.charge().is_ok());
    assert!(!meter.has_budget());
    assert!(meter.charge().is_err());
    assert_eq!(meter.calls(), 3);
}

#[test]
fn zero_budget_never_grants() {
    let mut meter = RunMeter::new(0);
    assert!(!meter.has_budget());
    assert!(meter.charge().is_err());
    assert_eq!(meter.calls(), 0);
}

#[test]
fn a_run_meters_each_entry_on_its_own() {
    let mut meters = RunMeters::for_registrations(&vec![
        Allowance { entry: "summarizer".into(), budget: 1 },
        Allowance { entry: "markdown".into(), budget: 0 },
    ])
    .with_meter("vocabulary", 2);
    assert!(meters.grants("summarizer", true));
    assert!(!meters.grants("summarizer", false), "no model is mounted");
    assert!(!meters.grants("markdown", true));
    assert!(meters.charge("summarizer").is_ok());
    assert!(meters.charge("summarizer").is_err());
    assert!(meters.charge_guarded("vocabulary", Some("not today".into())).is_err());
    assert!(meters.charge_guarded("vocabulary", None).is_ok());
    let calls = meters.calls_by_entry();
    assert!(calls.contains(&("summarizer".to_string(), 1)));
}

// --- Folders ---

#[test]
fn levels_run_deepest_first_in_locator_order() {
    let ranked = levels(vec![
        folder("inseam://fs/a"),
        folder("inseam://fs/a/b/c"),
        folder("inseam://fs/a/z"),
        folder("inseam://fs/a/b"),
        folder("inseam://fs/a/a"),
    ]);
    assert_eq!(ranked.len(), 3);
    assert_eq!(locators(&ranked[0]), vec!["a/b/c"]);
    assert_eq!(locators(&ranked[1]), vec!["a/a", "a/b", "a/z"]);
    assert_eq!(locators(&ranked[2]), vec!["a"]);
    assert!(levels(Vec::new()).is_empty());
}

#[test]
fn only_folders_holding_an_admitted_file_are_retained() {
    let files = vec![folder("inseam://fs/a/b/kept.md")];
    let kept = retain_holding(
        vec![
            folder("inseam://fs/a"),
            folder("inseam://fs/a/b"),
            folder("inseam://fs/a/c"),
            folder("inseam://fs/a/b/kept.md/x"),
        ],
        &files,
    );
    assert_eq!(locators(&kept), vec!["a", "a/b"]);
    assert!(retain_holding(vec![folder("inseam://fs/a")], &Vec::new()).is_empty());
}

#[test]
fn a_folder_is_dirty_until_its_recorded_digest_matches() {
    let digest = "listing";
    let meta = |indexed: bool, stamp: Option<String>| {
        Some(SourceIndexMeta {
            modified: None,
            raw_bytes: 0,
            content_digest: Some(digest.to_string()),
            indexed,
            shape_stamp: stamp,
            participants: String::new(),
        })
    };
    let stamped = || Some(expected_stamp("", "shape"));
    assert!(is_dirty(&None, digest, "shape"));
    assert!(!is_dirty(&meta(true, stamped()), digest, "shape"));
    assert!(is_dirty(&meta(true, stamped()), "other", "shape"));
    assert!(is_dirty(&meta(false, stamped()), digest, "shape"));
    assert!(is_dirty(&meta(true, None), digest, "shape"));
    assert!(is_dirty(&meta(true, stamped()), digest, "another shape"));
}

#[test]
fn a_folder_knows_its_name_and_depth() {
    assert_eq!(last_segment("a/b/c"), "c");
    assert_eq!(last_segment("a"), "a");
    assert_eq!(depth_of(&folder("inseam://fs/a")), 0);
    assert_eq!(depth_of(&folder("inseam://fs/a/b/c")), 2);
    assert!(is_folder(&folder("inseam://fs/a")));
}

fn child(name: &str, summary: Option<&str>) -> FolderChild {
    FolderChild {
        name: name.to_string(),
        content_type: "text/markdown".to_string(),
        summary: summary.map(str::to_string),
    }
}

#[test]
fn a_listing_is_cut_at_its_bound() {
    let at = folder("inseam://fs/docs/notes");
    let short = folder_listing(&at, vec![child("a.md", Some("first")), child("b.md", None)], 2);
    assert_eq!(short.name, "notes");
    assert_eq!(short.entries.len(), 2);
    assert!(!short.truncated);
    let long = folder_listing(&at, vec![child("a.md", None), child("b.md", None)], 1);
    assert_eq!(long.entries.len(), 1);
    assert!(long.truncated);
}

// --- Rows and batches ---

fn row(n: i64) -> PendingRow {
    PendingRow {
        fragment: n,
        source: Some(1),
        text: format!("row {n}"),
        is_summary: n % 2 == 0,
    }
}

fn rows(range: std::ops::Range<i64>) -> Vec<PendingRow> {
    range.map(row).collect()
}

fn completion(n: i64) -> SourceCompletion {
    SourceCompletion { source: n, stamp: "s".into(), inventory: Vec::new() }
}

#[test]
fn completions_wait_until_their_rows_are_dispatched() {
    let mut buffer = RowBuffer::new();
    buffer.push_rows(rows(0..FLUSH_AT as i64 + 3));
    buffer.push_completion(completion(1));
    let ready = buffer.drain_ready();
    assert_eq!(ready.len(), 1);
    assert_eq!(ready[0].rows.len(), FLUSH_AT);
    assert!(
        ready[0].completed.is_empty(),
        "3 rows still buffered behind the completion"
    );
    let rest = buffer.drain_all();
    assert_eq!(rest.len(), 1);
    assert_eq!(rest[0].rows.len(), 3);
    assert_eq!(rest[0].completed.len(), 1);
}

#[test]
fn completions_ride_the_batch_that_empties_the_buffer() {
    let mut buffer = RowBuffer::new();
    buffer.push_rows(rows(0..FLUSH_AT as i64 * 2));
    buffer.push_completion(completion(1));
    let ready = buffer.drain_ready();
    assert_eq!(ready.len(), 2);
    assert!(ready[0].completed.is_empty());
    assert_eq!(ready[1].completed.len(), 1);
    assert!(buffer.drain_all().is_empty());
}

#[test]
fn earlier_source_completes_while_later_source_rows_remain() {
    let mut buffer = RowBuffer::new();
    buffer.push_rows(rows(0..10));
    buffer.push_completion(completion(1));
    buffer.push_rows(rows(10..FLUSH_AT as i64 + 10));
    buffer.push_completion(completion(2));

    let ready = buffer.drain_ready();
    assert_eq!(ready.len(), 1);
    assert_eq!(ready[0].rows.len(), FLUSH_AT);
    assert_eq!(ready[0].completed.len(), 1);
    assert_eq!(ready[0].completed[0].source, 1);

    let rest = buffer.drain_all();
    assert_eq!(rest.len(), 1);
    assert_eq!(rest[0].rows.len(), 10);
    assert_eq!(rest[0].completed.len(), 1);
    assert_eq!(rest[0].completed[0].source, 2);
}

#[test]
fn a_rowless_source_still_completes() {
    let mut buffer = RowBuffer::new();
    buffer.push_completion(completion(7));
    assert!(buffer.drain_ready().is_empty());
    let all = buffer.drain_all();
    assert_eq!(all.len(), 1);
    assert!(all[0].rows.is_empty());
    assert_eq!(all[0].completed[0].source, 7);
}

#[test]
fn the_batches_are_the_rows_in_order() {
    let mut buffer = RowBuffer::new();
    buffer.push_rows(rows(0..600));
    let mut seen: Vec<i64> = Vec::new();
    for batch in buffer.drain_ready().into_iter().chain(buffer.drain_all()) {
        seen.extend(batch.rows.iter().map(|r| r.fragment));
    }
    assert_eq!(seen, (0..600).collect::<Vec<i64>>());
}

#[test]
fn pushing_and_draining_in_turn_loses_nothing() {
    let mut buffer = RowBuffer::new();
    let flush = FLUSH_AT as i64;
    let mut batches = Vec::new();
    buffer.push_rows(rows(0..flush));
    batches.extend(buffer.drain_ready());
    buffer.push_completion(completion(1));
    batches.extend(buffer.drain_ready());
    buffer.push_rows(rows(flush..flush + 5));
    buffer.push_completion(completion(2));
    batches.extend(buffer.drain_ready());
    buffer.push_rows(rows(flush + 5..3 * flush));
    buffer.push_completion(completion(3));
    batches.extend(buffer.drain_ready());
    buffer.push_completion(completion(4));
    batches.extend(buffer.drain_all());

    let seen: Vec<i64> =
        batches.iter().flat_map(|b| b.rows.iter().map(|r| r.fragment)).collect();
    assert_eq!(seen, (0..3 * flush).collect::<Vec<i64>>());
    let completed: Vec<Vec<i64>> =
        batches.iter().map(|b| b.completed.iter().map(|c| c.source).collect()).collect();
    assert_eq!(completed, vec![vec![], vec![1, 2], vec![3], vec![4]]);
    let sizes: Vec<usize> = batches.iter().map(|b| b.rows.len()).collect();
    assert_eq!(sizes, vec![FLUSH_AT, FLUSH_AT, FLUSH_AT, 0]);
    assert!(buffer.drain_all().is_empty());
}

/// One batch through a cache that holds `held` and an embedder that answers
/// every text, or none.
fn embed(
    pending: Vec<PendingRow>,
    scope: VectorScope,
    held: &[&str],
    answers: bool,
) -> EmbeddedBatch<u8> {
    let wanted = wanted_rows(&pending, true, scope);
    let cached: Vec<Option<u8>> = wanted
        .iter()
        .map(|at| held.contains(&pending[*at].text.as_str()).then_some(1))
        .collect();
    let asked = misses(&cached).len();
    assert_eq!(count_present(&cached) + asked, wanted.len());
    let found = vectored(cached, answers.then_some(vec![2; asked]));
    embedded_batch(Batch { rows: pending, completed: vec![completion(9)] }, &wanted, found)
}

#[test]
fn summaries_scope_embeds_only_summary_rows_and_keeps_the_rest_text_only() {
    let embedded = embed(rows(0..6), VectorScope::Summaries, &[], true);
    assert_eq!(embedded.totals.embedded, 3);
    assert_eq!(embedded.totals.reused, 0);
    assert_eq!(embedded.rows.len(), 6);
    for (i, r) in embedded.rows.iter().enumerate() {
        assert_eq!(r.vector.is_some(), i % 2 == 0, "row {i}");
        assert_eq!(r.text, format!("row {i}"));
    }
    assert_eq!(embedded.completed[0].source, 9);
}

#[test]
fn all_scope_embeds_every_row() {
    let embedded = embed(rows(0..6), VectorScope::All, &[], true);
    assert_eq!(embedded.totals.embedded, 6);
    assert!(embedded.rows.iter().all(|r| r.vector.is_some()));
}

#[test]
fn text_already_embedded_under_this_model_is_reused_not_re_embedded() {
    let first = embed(rows(0..4), VectorScope::All, &[], true);
    assert_eq!(first.totals.embedded, 4);

    // Rows 2..4 repeat texts the store has landed; 4..6 are new.
    let landed = ["row 0", "row 1", "row 2", "row 3"];
    let second = embed(rows(2..6), VectorScope::All, &landed, true);
    assert_eq!(second.totals.reused, 2);
    assert_eq!(second.totals.embedded, 2);
    assert!(second.rows.iter().all(|r| r.vector.is_some()));
    assert_eq!(second.rows[0].vector, Some(1), "from the cache");
    assert_eq!(second.rows[2].vector, Some(2), "from the embedder");
    assert_eq!(first.totals.plus(second.totals), EmbedTotals { embedded: 6, reused: 2 });
}

#[test]
fn a_failed_embedder_leaves_rows_searchable_by_text() {
    let embedded = embed(rows(0..4), VectorScope::All, &["row 1"], false);
    assert_eq!(embedded.totals, EmbedTotals { embedded: 0, reused: 1 });
    assert_eq!(embedded.rows.len(), 4);
    assert_eq!(embedded.rows[1].vector, Some(1));
    assert_eq!(embedded.rows[0].vector, None);
}

#[test]
fn answers_land_where_they_were_asked_for() {
    let mut vectors = vec![None, Some(7u8), None, None];
    place(&mut vectors, &vec![0, 3], vec![Some(1), Some(2)]);
    assert_eq!(vectors, vec![Some(1), Some(7), None, Some(2)]);
}

#[test]
fn without_an_embedder_no_row_wants_a_vector() {
    assert!(wanted_rows(&rows(0..6), false, VectorScope::All).is_empty());
}

// --- Cached outputs ---

#[test]
fn only_llm_hungry_transforms_cache() {
    assert!(caches_output(500));
    assert!(!caches_output(0));
}

#[test]
fn the_key_changes_with_every_ingredient_and_nothing_else() {
    let fingerprint = "summarizer-v1|target_chars=400|model=m";
    let key = key_material("content", "text/markdown", true, "summarizer", fingerprint);

    assert_eq!(key, key_material("content", "text/markdown", true, "summarizer", fingerprint));
    assert_ne!(key, key_material("other", "text/markdown", true, "summarizer", fingerprint));
    assert_ne!(key, key_material("content", "text/plain", true, "summarizer", fingerprint));
    assert_ne!(key, key_material("content", "text/markdown", false, "summarizer", fingerprint));
    assert_ne!(key, key_material("content", "text/markdown", true, "other", fingerprint));
    assert_ne!(
        key,
        key_material(
            "content",
            "text/markdown",
            true,
            "summarizer",
            "summarizer-v1|target_chars=200|model=m"
        )
    );
}

#[test]
fn an_output_is_the_models_only_after_answered_calls_with_no_failure() {
    let untouched = ObservedCalls::new();
    assert!(!untouched.output_is_the_models());

    let mut answered = ObservedCalls::new();
    answered.record(true);
    assert!(answered.output_is_the_models());

    let mut failed = ObservedCalls::new();
    failed.record(true);
    failed.record(false);
    assert!(!failed.output_is_the_models());
}

// --- Ignore rules ---

#[test]
fn locator_globs_are_path_wise() {
    let rules = set(&[IgnoreRule {
        locator: Some("Users/*/Library/**".into()),
        ..IgnoreRule::default()
    }]);
    let (a, e) = file(
        "inseam://fs-mba/Users/greg/Library/Caches/x.db",
        "application/octet-stream",
        "x.db",
    );
    assert!(rules.matches(&a, &e));
    let (a, e) = file(
        "inseam://fs-mba/Users/greg/Data/Library/x.md",
        "text/markdown",
        "x.md",
    );
    assert!(!rules.matches(&a, &e), "`*` must not cross `/`");
}

#[test]
fn double_star_spans_segments() {
    let rules = set(&[IgnoreRule {
        locator: Some("**/node_modules/**".into()),
        ..IgnoreRule::default()
    }]);
    let (a, e) = file(
        "inseam://fs-mba/w/app/node_modules/left-pad/index.js",
        "text/javascript",
        "index.js",
    );
    assert!(rules.matches(&a, &e));
    let (a, e) = file("inseam://fs-mba/w/app/src/index.js", "text/javascript", "index.js");
    assert!(!rules.matches(&a, &e));
}

#[test]
fn address_glob_covers_host_and_locator_together() {
    let rules = set(&[IgnoreRule {
        address: Some("inseam://fs-*/tmp/**".into()),
        ..IgnoreRule::default()
    }]);
    let (a, e) = file("inseam://fs-mba/tmp/scratch.txt", "text/plain", "scratch.txt");
    assert!(rules.matches(&a, &e));
    let (a, e) = file("inseam://gmail-greg/tmp/scratch.txt", "text/plain", "scratch.txt");
    assert!(!rules.matches(&a, &e));
}

#[test]
fn fields_within_a_rule_are_anded() {
    let rules = set(&[IgnoreRule {
        host: Some("gmail-*".into()),
        property: Some("email:*@newsletters.example".into()),
        ..IgnoreRule::default()
    }]);
    let (a, e) = email("inseam://gmail-greg/msg-1", "weekly@newsletters.example", "This week");
    assert!(rules.matches(&a, &e));
    let (a, e) = email("inseam://gmail-greg/msg-2", "friend@example.com", "Hi");
    assert!(!rules.matches(&a, &e), "property does not match");
    let (a, e) = email("inseam://imap-work/msg-3", "weekly@newsletters.example", "This week");
    assert!(!rules.matches(&a, &e), "host does not match");
}

#[test]
fn rules_within_a_set_are_ored() {
    let rules = set(&[
        IgnoreRule { content_type: Some("image/*".into()), ..IgnoreRule::default() },
        IgnoreRule { hint: Some("*.log".into()), ..IgnoreRule::default() },
    ]);
    let (a, e) = file("inseam://fs-mba/p/photo.jpeg", "image/jpeg", "photo.jpeg");
    assert!(rules.matches(&a, &e));
    let (a, e) = file("inseam://fs-mba/p/server.log", "text/plain", "server.log");
    assert!(rules.matches(&a, &e));
    let (a, e) = file("inseam://fs-mba/p/notes.md", "text/markdown", "notes.md");
    assert!(!rules.matches(&a, &e));
}

#[test]
fn source_type_glob_matches_plainly() {
    let rules = set(&[IgnoreRule {
        source_type: Some("email".into()),
        ..IgnoreRule::default()
    }]);
    let (a, e) = email("inseam://gmail-greg/msg-1", "a@b.c", "x");
    assert!(rules.matches(&a, &e));
    let (a, e) = file("inseam://fs-mba/p/notes.md", "text/markdown", "notes.md");
    assert!(!rules.matches(&a, &e));
}

#[test]
fn hint_rule_never_matches_a_source_without_a_hint() {
    let rules = set(&[IgnoreRule { hint: Some("*".into()), ..IgnoreRule::default() }]);
    let (a, mut e) = file("inseam://fs-mba/p/notes.md", "text/markdown", "notes.md");
    assert!(rules.matches(&a, &e));
    e.hint = None;
    assert!(!rules.matches(&a, &e));
}

#[test]
fn empty_set_ignores_nothing() {
    let rules = set(&[]);
    assert!(rules.is_empty());
    let (a, e) = file("inseam://fs-mba/p/notes.md", "text/markdown", "notes.md");
    assert!(!rules.matches(&a, &e));
}

#[test]
fn rejects_a_rule_with_no_field() {
    let err = refusal(&[IgnoreRule::default()]);
    assert_eq!(err, IgnoreError::EmptyRule { index: 0 });
}

#[test]
fn rejects_a_malformed_glob_naming_rule_and_field() {
    let rule = IgnoreRule { locator: Some("docs/[".into()), ..IgnoreRule::default() };
    let err = refusal(&[
        IgnoreRule { host: Some("*".into()), ..IgnoreRule::default() },
        rule,
    ]);
    assert!(matches!(
        err,
        IgnoreError::InvalidGlob { index: 1, field: "locator", .. }
    ));
}

#[test]
fn rejects_more_rules_than_the_limit() {
    let rule = IgnoreRule { host: Some("x".into()), ..IgnoreRule::default() };
    let rules = vec![rule; usize::try_from(IGNORE_RULES_MAX + 1).expect("fits")];
    assert!(matches!(
        IgnoreSet::compile(&rules),
        Err(IgnoreError::TooManyRules { .. })
    ));
}

#[test]
fn ignore_errors_say_which_rule_is_bad() {
    assert!(refusal(&[IgnoreRule::default()]).message().contains("0"));
    let bad = IgnoreRule { hint: Some("a{b".into()), ..IgnoreRule::default() };
    let message = refusal(&[bad]).message();
    assert!(message.contains("hint") && message.contains("a{b"), "{message}");
}

#[test]
fn adding_a_rule_never_admits_more() {
    let images = IgnoreRule { content_type: Some("image/*".into()), ..IgnoreRule::default() };
    let logs = IgnoreRule { hint: Some("*.log".into()), ..IgnoreRule::default() };
    let one = set(&[images.clone()]);
    let two = set(&[images, logs]);
    assert_eq!(one.len(), 1);
    assert_eq!(two.len(), 2);
    for (a, e) in [
        file("inseam://fs-mba/p/photo.jpeg", "image/jpeg", "photo.jpeg"),
        file("inseam://fs-mba/p/server.log", "text/plain", "server.log"),
        file("inseam://fs-mba/p/notes.md", "text/markdown", "notes.md"),
    ] {
        assert!(!one.matches(&a, &e) || two.matches(&a, &e));
    }
}

// --- Config ---

#[test]
fn a_deep_budget_of_zero_sources_is_no_budget() {
    assert!(DeepBudget::Unlimited.allows(u32::MAX));
    assert!(DeepBudget::Sources(2).allows(1));
    assert!(!DeepBudget::Sources(2).allows(2));
    assert!(!DeepBudget::Sources(0).allows(0));
}

#[test]
fn the_config_turns_into_limits_and_a_fingerprint() {
    let config = SweepConfig::default();
    let limits: PlanLimits = config.limits();
    assert_eq!(limits.max_depth, config.max_depth);
    assert_eq!(limits.max_content_bytes, config.max_content_bytes);
    let deeper = SweepConfig { max_depth: config.max_depth + 1, ..SweepConfig::default() };
    assert_ne!(config.shape_fingerprint(), deeper.shape_fingerprint());
    let busier = SweepConfig { concurrency: config.concurrency + 1, ..SweepConfig::default() };
    assert_eq!(config.shape_fingerprint(), busier.shape_fingerprint());
    assert!(config.planning_concurrency(true) >= config.planning_concurrency(false));
    assert_eq!(SweepFactory.name(), "sweep");
}

#[test]
fn a_bad_cutoff_is_refused_and_none_is_none() {
    assert_eq!(cutoff(None).expect("none"), None);
    assert_eq!(cutoff(Some(Ok(86_400))).expect("a date"), Some(86_400));
    assert!(cutoff(Some(Err("not a date".into()))).is_err());
}

// --- Deciding ---

fn source(locator: &str, modified: Option<i64>, raw_bytes: u64) -> EnumeratedSource {
    let (at, mut envelope) = file(&format!("inseam://fs/{locator}"), "text/markdown", locator);
    envelope.modified = modified;
    EnumeratedSource { address: at, envelope, raw_bytes }
}

fn indexed(modified: Option<i64>, raw_bytes: u64, shape: &str) -> Option<SourceIndexMeta> {
    Some(SourceIndexMeta {
        modified,
        raw_bytes,
        content_digest: None,
        indexed: true,
        shape_stamp: Some(expected_stamp("", shape)),
        participants: String::new(),
    })
}

#[test]
fn every_source_is_decided_once() {
    let sources = vec![
        source("old.md", Some(10), 5),
        source("same.md", Some(200), 5),
        source("grown.md", Some(200), 6),
        source("new.md", Some(300), 5),
        source("later.md", Some(300), 5),
    ];
    let metas = vec![
        None,
        indexed(Some(200), 5, "shape"),
        indexed(Some(200), 5, "shape"),
        None,
        None,
    ];
    let dials = RunDials { rebuild: false, deep_budget: DeepBudget::Sources(2) };
    let decided = decide(&sources, &metas, Some(100), "shape", dials).expect("decides");
    assert_eq!(decided.skipped_cutoff, 1);
    assert_eq!(decided.unchanged, 1);
    assert_eq!(decided.deep, vec![2, 3]);
    assert_eq!(decided.catalog_only, 1);
    assert!(decided.catalog.contains(&CatalogEntry { source: 4, mark: CatalogMark::CatalogOnly }));
    assert!(decided.catalog.iter().all(|entry| entry.source != 1), "an unchanged source stands");
    let rebuilt = decide(
        &sources,
        &metas,
        None,
        "shape",
        RunDials { rebuild: true, deep_budget: DeepBudget::Unlimited },
    )
    .expect("decides");
    assert_eq!(rebuilt.deep, vec![0, 1, 2, 3, 4]);
}

#[test]
fn a_tighter_cutoff_leaves_known_sources_alone() {
    let sources = vec![source("known.md", Some(10), 9), source("fresh.md", Some(10), 9)];
    let metas = vec![indexed(Some(5), 1, "other shape"), None];
    let dials = RunDials { rebuild: true, deep_budget: DeepBudget::Unlimited };
    let decided = decide(&sources, &metas, Some(100), "shape", dials).expect("decides");
    assert!(decided.deep.is_empty());
    assert_eq!(
        decided.catalog,
        vec![CatalogEntry { source: 1, mark: CatalogMark::Seen }],
        "the known one keeps its row"
    );
    assert_eq!(decided.skipped_cutoff, 2);
}

#[test]
fn folders_draw_on_what_is_left_of_the_budget() {
    let level = |digest: &str| FolderState {
        meta: None,
        digest: digest.to_string(),
        indexed_children: 1,
    };
    let dials = RunDials { rebuild: false, deep_budget: DeepBudget::Sources(2) };
    let decided = decide_folders(&vec![level("a"), level("b")], "shape", dials, 1).expect("decides");
    assert_eq!(decided.deep, vec![0]);
    assert_eq!(decided.catalog_only, 1);
    assert_eq!(decided.deep_count, 2);
}

#[test]
fn a_run_may_ask_for_its_own_budget() {
    let composed = DeepBudget::Sources(7);
    assert_eq!(run_dials(true, None, composed).deep_budget, composed);
    assert_eq!(
        run_dials(true, Some(DeepBudget::Unlimited), composed).deep_budget,
        DeepBudget::Unlimited
    );
    assert!(run_dials(true, None, composed).rebuild);
}

#[test]
fn only_an_enumerating_steward_is_swept() {
    let steward = |enumerates: bool| Some(Steward { entry: "fs".into(), enumerates });
    assert!(check_steward("fs-mba", &steward(true)).is_ok());
    assert!(check_steward("fs-mba", &steward(false)).is_err());
    assert!(check_steward("fs-mba", &None).is_err());
}

#[test]
fn ignored_sources_and_their_empty_folders_are_left_out() {
    let rules = set(&[IgnoreRule { locator: Some("tmp/**".into()), ..IgnoreRule::default() }]);
    let run = admit_enumerated(
        vec![
            source("docs/a.md", None, 1),
            source("tmp/b.md", None, 1),
            folder("inseam://fs/docs"),
            folder("inseam://fs/tmp"),
        ],
        &rules,
    );
    assert_eq!(locators(&run.files), vec!["docs/a.md"]);
    assert_eq!(locators(&run.folders), vec!["docs"]);
    assert_eq!(run.sources_seen, 4);
    assert_eq!(run.ignored, 2, "the file, and the folder left without one");
}

#[test]
fn a_source_the_run_did_not_see_has_vanished_within_its_scope() {
    let cataloged = vec![
        CatalogedSource { id: 1, locator: "docs/a.md".into() },
        CatalogedSource { id: 2, locator: "docs/gone.md".into() },
        CatalogedSource { id: 3, locator: "docs".into() },
        CatalogedSource { id: 4, locator: "other/x.md".into() },
    ];
    let files = vec![source("docs/a.md", None, 1)];
    let dirs = vec![folder("inseam://fs/docs")];
    assert_eq!(vanished(&cataloged, &Some("docs".into()), &files, &dirs), vec![2]);
    assert_eq!(vanished(&cataloged, &Some(String::new()), &files, &dirs), vec![2, 4]);
    assert!(
        vanished(&cataloged, &None, &files, &dirs).is_empty(),
        "a scope with no stable prefix reconciles nothing"
    );
}

#[test]
fn a_hungry_transforms_stamp_names_the_model() {
    assert_eq!(stamped_fingerprint("f", 0, "m:batch"), "f");
    let stamped = stamped_fingerprint("f", 5, "m:batch");
    assert_eq!(stamped, stamped_fingerprint("f", 5, "m"));
    assert_ne!(stamped, "f");
}

#[test]
fn a_root_spans_its_whole_content() {
    assert!(matches!(root_extent(ContentLength::Lines(4)), Extent::Lines { start: 1, end: 4 }));
    assert!(matches!(root_extent(ContentLength::Bytes(9)), Extent::Bytes { start: 0, end: 9 }));
}

// --- Entities ---

#[test]
fn a_key_is_created_once_and_mentioned_where_it_stands() {
    let entity = |key: &str, name: &str| ExtractedEntity {
        key: key.into(),
        kind: "person".into(),
        name: name.into(),
    };
    let texted = vec![
        (PlanNode::Root, "a note".to_string()),
        (PlanNode::Fragment(0), "Dana wrote this".to_string()),
    ];
    let wired = wire_entities(
        &vec![entity("person:dana", "dana"), entity("person:kim", "Kim")],
        &vec!["person:kim".to_string()],
        &texted,
        PlanNode::Root,
    );
    assert!(wired[0].created);
    assert_eq!(wired[0].mentions, vec![PlanNode::Fragment(0)]);
    assert!(!wired[1].created, "the store holds it already");
    assert_eq!(wired[1].mentions, vec![PlanNode::Root], "named nowhere, anchored at the root");
}

// --- Runs ---

#[test]
fn a_pause_ends_by_itself() {
    let mut checkpoint = Checkpoint::new();
    assert_eq!(checkpoint.answered(IndexControl::Continue), CheckpointStep::Go);
    assert_eq!(checkpoint.answered(IndexControl::Stop), CheckpointStep::Halt);
    let mut polls: u32 = 0;
    let mut paused = Checkpoint::new();
    while paused.answered(IndexControl::Pause) == CheckpointStep::Wait {
        polls += 1;
        assert!(polls < PAUSE_POLLS_MAX);
    }
    assert_eq!(polls, PAUSE_POLLS_MAX - 1);
}

#[test]
fn a_run_stopped_before_it_enumerates_touches_no_source() {
    let mut run = Run::new(false, true);
    let mut seen: Vec<Step> = Vec::new();
    for _ in 0..32 {
        let step = run.step();
        seen.push(step);
        if step == Step::Finish {
            break;
        }
        let outcome = match step {
            Step::Checkpoint(_) => Outcome::Stop(true),
            _ => Outcome::Went,
        };
        run.advance(outcome);
    }
    assert_eq!(seen.last(), Some(&Step::Finish));
    assert!(run.stopped);
    assert!(!seen.contains(&Step::Enumerate));
    assert!(!seen.contains(&Step::IndexFiles));
}

#[test]
fn a_run_indexes_files_then_folder_levels_then_settles() {
    let mut run = Run::new(false, true);
    let mut seen: Vec<Step> = Vec::new();
    for _ in 0..64 {
        let step = run.step();
        seen.push(step);
        if step == Step::Finish {
            break;
        }
        let outcome = match step {
            Step::Checkpoint(_) => Outcome::Stop(false),
            Step::Enumerate => Outcome::Levels(2),
            Step::Decide => Outcome::Chosen { deep: 3, indexed_before: 0 },
            Step::IndexFiles => Outcome::Files { indexed: 3, stopped: false },
            Step::IndexLevel(_) => Outcome::Stop(false),
            Step::ReconcileVanished => Outcome::Removed(0),
            _ => Outcome::Went,
        };
        run.advance(outcome);
    }
    let at = |step: Step| seen.iter().position(|s| *s == step).unwrap_or_else(|| panic!("{step:?} among {seen:?}"));
    assert!(at(Step::Checkpoint(IndexPhase::Preparing)) < at(Step::Enumerate));
    assert!(at(Step::DeferVectorIndex) < at(Step::IndexFiles));
    assert!(at(Step::IndexFiles) < at(Step::IndexLevel(0)));
    assert!(at(Step::IndexLevel(0)) < at(Step::IndexLevel(1)));
    assert!(at(Step::IndexLevel(1)) < at(Step::Settle));
    assert_eq!(seen.last(), Some(&Step::Finish));
}

#[test]
fn metering_refuses_by_name() {
    let mut meters =
        RunMeters::for_registrations(&vec![Allowance { entry: "x".into(), budget: 0 }]);
    match meters.charge("x") {
        Err(SeamError::Refused(_)) => {}
        other => panic!("{other:?}"),
    }
}

#[test]
fn a_call_budget_is_no_ingredient_of_the_key() {
    let key = |budget: usize| {
        let fingerprint = stamped_fingerprint("summarizer-v1|target_chars=400", budget, "m");
        key_material("content", "text/markdown", true, "summarizer", &fingerprint)
    };
    assert_eq!(key(500), key(1));
    assert_eq!(
        key(1),
        key_material(
            "content",
            "text/markdown",
            true,
            "summarizer",
            "summarizer-v1|target_chars=400|model=m"
        )
    );
}

#[test]
fn a_glob_of_a_last_component_matches_two_dots_too() {
    let rules = set(&[IgnoreRule { hint: Some("**/..".into()), ..IgnoreRule::default() }]);
    let (a, mut e) = file("inseam://fs-mba/a/b", "text/plain", "a/..");
    assert!(rules.matches(&a, &e));
    e.hint = Some("..".into());
    assert!(rules.matches(&a, &e));
    e.hint = Some("a/...".into());
    assert!(!rules.matches(&a, &e));
    let dotted = set(&[IgnoreRule { hint: Some("a/*.".into()), ..IgnoreRule::default() }]);
    e.hint = Some("a/..".into());
    assert!(dotted.matches(&a, &e));
}

#[test]
fn small_globs_are_known_to_compile() {
    assert!(is_small_glob("Users/*/Library/**"));
    assert!(is_small_glob(&"é".repeat(GLOB_CHARS_MAX)));
    assert!(!is_small_glob(&"x".repeat(GLOB_CHARS_MAX + 1)));
    let nested = |depth: usize| format!("{}x{}", "{".repeat(depth), "}".repeat(depth));
    assert!(is_small_glob(&nested(GLOB_BRACES_MAX)));
    assert!(!is_small_glob(&nested(GLOB_BRACES_MAX + 1)));
    let rule = |glob: String| IgnoreRule { locator: Some(glob), ..IgnoreRule::default() };
    let widest = "?".repeat(GLOB_CHARS_MAX - 2 * GLOB_BRACES_MAX - 1) + &nested(GLOB_BRACES_MAX);
    assert_eq!(widest.chars().count(), GLOB_CHARS_MAX);
    let rules = [rule(widest), rule("**/*".repeat(GLOB_CHARS_MAX / 4))];
    assert!(IgnoreSet::compile_small(&rules).expect("small").is_ok());
    assert!(IgnoreSet::compile_small(&[rule(nested(GLOB_BRACES_MAX + 1))]).is_none());
    assert!(matches!(
        IgnoreSet::compile_small(&[IgnoreRule::default()]),
        Some(Err(IgnoreError::EmptyRule { index: 0 }))
    ));
    let many = vec![rule("x".into()); usize::try_from(IGNORE_RULES_MAX + 1).expect("fits")];
    assert!(matches!(
        IgnoreSet::compile_small(&many),
        Some(Err(IgnoreError::TooManyRules { .. }))
    ));
}

#[test]
fn every_folder_is_decided_once() {
    let folder = |meta: Option<SourceIndexMeta>, indexed_children: usize| FolderState {
        meta,
        digest: "listing".to_string(),
        indexed_children,
    };
    let kept = || {
        indexed(None, 0, "shape")
            .map(|meta| SourceIndexMeta { content_digest: Some("listing".into()), ..meta })
    };
    let level = vec![folder(kept(), 1), folder(None, 0), folder(None, 2), folder(None, 3)];
    let dials = RunDials { rebuild: false, deep_budget: DeepBudget::Sources(4) };
    let decided = decide_folders(&level, "shape", dials, 3).expect("decides");
    assert_eq!(decided.unchanged, 1);
    assert_eq!(decided.catalog, vec![1, 3], "no indexed child, then no budget");
    assert_eq!(decided.deep, vec![2]);
    assert_eq!(decided.unchanged + decided.catalog_only + decided.deep.len(), level.len());
    assert_eq!(decided.deep_count, 4);
    let full = RunDials { rebuild: true, deep_budget: DeepBudget::Unlimited };
    assert!(decide_folders(&level, "shape", full, u32::MAX).is_err(), "no more can be counted");
}
