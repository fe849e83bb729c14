use inseam_plugins::roster::config::RosterConfig;
use inseam_plugins::routing::config::RoutingConfig;
use inseam_plugins::settings::{
    check_running, is_environment_name, resolved_entry, validate_finder, validate_models,
    validate_source, validate_sweep, validate_transforms, Configurable, DocumentFields,
    FinderFields, KindWeight, ModelFields, NetworkFields, NumberClass, SettingsDocument,
    SourceFields, Toggle, WriteMode,
};
use inseam_plugins::sweep::config::SweepConfig;
use inseam_plugins::sweep::ignore::IgnoreRule;
use inseam_plugins::sync::config::SyncConfig;

const CHARS_MAX: usize = 64;

fn on(config: &str) -> Configurable<String> {
    Configurable { enabled: true, config: config.to_string() }
}

fn document() -> SettingsDocument<String> {
    let toggle = Toggle { enabled: true };
    SettingsDocument {
        connections: toggle,
        fs: on("fs"),
        oauth: on("oauth"),
        google: on("google"),
        llm: on("llm"),
        embedder: on("embedder"),
        transforms: toggle,
        markdown: toggle,
        chunker: on("chunker"),
        summarizer: on("summarizer"),
        entities: on("entities"),
        finder: on("finder"),
        sweep: on("sweep"),
        operations: toggle,
        node: on("node"),
        transport: on("transport"),
        roster: on("roster"),
        sync: on("sync"),
        routing: on("routing"),
    }
}

fn source() -> SourceFields {
    SourceFields { machine_id: None, walk: Ok(()), roots: Ok(()) }
}

fn models() -> ModelFields {
    ModelFields {
        base_url: "https://models.example".to_string(),
        api_key_env: String::new(),
        embeds: true,
        dimensions: None,
    }
}

fn finder() -> FinderFields {
    FinderFields {
        bounds: Ok(()),
        rrf_k: NumberClass::AboveOne,
        damping: NumberClass::UpToOne,
        epsilon: NumberClass::UpToOne,
        max_vector_distance: NumberClass::AboveOne,
        default_weight: NumberClass::UpToOne,
        weights: Vec::new(),
    }
}

fn fields() -> DocumentFields {
    DocumentFields {
        source: source(),
        oauth: Ok(()),
        google: Ok(()),
        models: models(),
        chunker_chars: 1_600,
        summarizer_chars: 400,
        entities_max: 16,
        finder: finder(),
        sweep: SweepConfig::default(),
        sweep_date: Ok(()),
        network: NetworkFields {
            node: Ok(()),
            transport: Ok(()),
            roster: RosterConfig::default(),
            sync: SyncConfig::standard(16),
            routing: RoutingConfig::default(),
        },
    }
}

#[test]
fn toggle_patches_carry_no_config() {
    let patches = document().into_patches(WriteMode::PreserveEmbedder);
    let transforms = patches.iter().find(|patch| patch.id == "transforms").expect("patched");
    assert!(transforms.config.is_none());
    assert!(!transforms.disabled);
    assert!(patches.iter().all(|patch| patch.id != "embedder"));
    assert!(patches.iter().any(|patch| patch.id == "sweep"));
}

/// One entry of a composition: its switch and its config.
type Entries = Vec<(String, bool, toml::Table)>;

const IDS: [&str; 19] = [
    "connections",
    "fs",
    "oauth",
    "google",
    "llm",
    "embedder",
    "transforms",
    "markdown",
    "chunker",
    "summarizer",
    "entities",
    "finder",
    "sweep",
    "operations",
    "node",
    "transport",
    "roster",
    "sync",
    "routing",
];

fn base() -> Entries {
    IDS.iter().map(|id| (id.to_string(), false, toml::Table::new())).collect()
}

/// Later layers win: a patch with a config replaces the entry's, one without
/// leaves it.
fn layered(mut entries: Entries, document: SettingsDocument<toml::Table>) -> Entries {
    for patch in document.into_patches(WriteMode::All) {
        let entry = entries.iter_mut().find(|e| e.0 == patch.id).expect("an entry");
        entry.1 = patch.disabled;
        if let Some(config) = patch.config {
            entry.2 = config;
        }
    }
    entries
}

fn read(entries: &Entries) -> SettingsDocument<toml::Table> {
    let ids: Vec<String> = entries.iter().map(|e| e.0.clone()).collect();
    let at = |id: &str| &entries[resolved_entry(&ids, id).expect("an entry")];
    let toggle = |id: &str| Toggle { enabled: !at(id).1 };
    let config = |id: &str| Configurable { enabled: !at(id).1, config: at(id).2.clone() };
    SettingsDocument {
        connections: toggle("connections"),
        fs: config("fs"),
        oauth: config("oauth"),
        google: config("google"),
        llm: config("llm"),
        embedder: config("embedder"),
        transforms: toggle("transforms"),
        markdown: toggle("markdown"),
        chunker: config("chunker"),
        summarizer: config("summarizer"),
        entities: config("entities"),
        finder: config("finder"),
        sweep: config("sweep"),
        operations: toggle("operations"),
        node: config("node"),
        transport: config("transport"),
        roster: config("roster"),
        sync: config("sync"),
        routing: config("routing"),
    }
}

#[test]
fn a_document_round_trips_through_patches() {
    let mut document = read(&base());
    document.fs.config.insert("skip_hidden".to_string(), toml::Value::Boolean(false));
    document.embedder.enabled = false;
    document.sweep.config.insert("max_depth".to_string(), toml::Value::Integer(9));
    let reread = read(&layered(base(), document));
    assert_eq!(reread.fs.config.get("skip_hidden"), Some(&toml::Value::Boolean(false)));
    assert!(!reread.embedder.enabled);
    assert_eq!(reread.sweep.config.get("max_depth"), Some(&toml::Value::Integer(9)));
}

#[test]
fn a_document_is_patched_whole_and_in_order() {
    let mut edited = document();
    edited.embedder.enabled = false;
    edited.sweep.config = "deeper".to_string();
    let patches = edited.into_patches(WriteMode::All);
    let ids: Vec<&str> = patches.iter().map(|patch| patch.id).collect();
    assert_eq!(
        ids,
        vec![
            "connections",
            "fs",
            "oauth",
            "google",
            "llm",
            "embedder",
            "transforms",
            "markdown",
            "chunker",
            "summarizer",
            "entities",
            "finder",
            "sweep",
            "operations",
            "node",
            "transport",
            "roster",
            "sync",
            "routing"
        ]
    );
    assert!(patches[5].disabled);
    assert_eq!(patches[12].config.as_deref(), Some("deeper"));
}

#[test]
fn invalid_fields_are_refused_by_name() {
    assert!(fields().validate(CHARS_MAX).is_ok());
    let mut edited = fields();
    edited.sweep.max_depth = 0;
    let error = edited.validate(CHARS_MAX).expect_err("refused").message;
    assert!(error.contains("sweep.max_depth"), "{error}");
    let mut edited = fields();
    edited.google = Err("no service is enabled".to_string());
    assert!(edited.validate(CHARS_MAX).is_err());
    let mut edited = fields();
    edited.source.roots = Err("`notes` is not absolute".to_string());
    let error = edited.validate(CHARS_MAX).expect_err("refused").message;
    assert!(error.contains("fs.roots"), "{error}");
}

#[test]
fn invalid_network_fields_are_refused_by_entry() {
    let refused = |entry: &str, edited: DocumentFields| {
        let error = edited.validate(CHARS_MAX).expect_err("refused").message;
        assert!(error.starts_with(&format!("{entry}:")), "{entry}: {error}");
    };
    let mut edited = fields();
    edited.network.node = Err("display_name may not be blank".to_string());
    refused("node", edited);
    let mut edited = fields();
    edited.network.transport = Err("relay is not a url".to_string());
    refused("transport", edited);
    let mut edited = fields();
    edited.network.roster.endpoint_poll_secs = 0;
    refused("roster", edited);
    let mut edited = fields();
    edited.network.sync.interval_secs = 0;
    refused("sync", edited);
    let mut edited = fields();
    edited.network.sync.peers_per_round_max = 0;
    refused("sync", edited);
    let mut edited = fields();
    edited.network.routing.fan_out_timeout_ms = 0;
    refused("routing", edited);
}

#[test]
fn network_entries_have_their_defaults() {
    let standard = fields();
    assert_eq!(standard.network.roster.endpoint_poll_secs, 30);
    assert_eq!(standard.network.sync.interval_secs, 60);
    assert!(standard.network.routing.fan_out);
}

#[test]
fn a_machine_id_is_there_and_not_too_long() {
    let id = |id: &str| SourceFields { machine_id: Some(id.to_string()), ..source() };
    assert!(validate_source(&id("mba"), CHARS_MAX).is_ok());
    assert!(validate_source(&id(&"é".repeat(CHARS_MAX)), CHARS_MAX).is_ok());
    assert_eq!(
        validate_source(&id("  \u{2003}"), CHARS_MAX).expect_err("blank").message,
        "fs.machine_id: may not be empty; leave it unset to use this machine's own id"
    );
    assert_eq!(
        validate_source(&id(&"x".repeat(CHARS_MAX + 1)), CHARS_MAX).expect_err("long").message,
        "fs.machine_id: longer than 64 characters"
    );
    let walk = SourceFields { walk: Err("bad glob".to_string()), ..source() };
    assert_eq!(
        validate_source(&walk, CHARS_MAX).expect_err("ignore").message,
        "fs.ignore: bad glob"
    );
}

#[test]
fn model_fields_are_refused_by_name() {
    assert!(validate_models(&models()).is_ok());
    let keyed = ModelFields { api_key_env: " MODEL_KEY ".to_string(), ..models() };
    assert!(validate_models(&keyed).is_ok());
    let blank = ModelFields { base_url: " ".to_string(), ..models() };
    assert_eq!(
        validate_models(&blank).expect_err("blank").message,
        "llm.base_url must not be empty"
    );
    let bad = ModelFields { api_key_env: "1KEY".to_string(), ..models() };
    assert_eq!(
        validate_models(&bad).expect_err("bad").message,
        "llm.api_key_env `1KEY` is not a valid name"
    );
    let flat = ModelFields { dimensions: Some(0), ..models() };
    assert!(validate_models(&flat).is_err());
    let unembedded = ModelFields { embeds: false, dimensions: Some(0), ..models() };
    assert!(validate_models(&unembedded).is_ok());
}

#[test]
fn environment_names_are_letters_digits_and_underscores() {
    for good in ["KEY", "_key", "a1", "_"] {
        assert!(is_environment_name(good), "{good}");
    }
    for bad in ["", "1a", "a-b", "é", "a b"] {
        assert!(!is_environment_name(bad), "{bad}");
    }
}

#[test]
fn transform_targets_are_refused_in_order() {
    assert!(validate_transforms(1, 1, 1).is_ok());
    let message = |a: usize, b: usize, c: usize| {
        validate_transforms(a, b, c).expect_err("refused").message
    };
    assert_eq!(message(0, 0, 0), "chunker.target_chars must be greater than zero");
    assert_eq!(message(1, 0, 0), "summarizer.target_chars must be greater than zero");
    assert_eq!(message(1, 1, 0), "entities.max_per_source must be greater than zero");
}

#[test]
fn finder_dials_are_refused_by_name() {
    assert!(validate_finder(&finder()).is_ok());
    let message = |fields: FinderFields| validate_finder(&fields).expect_err("refused").message;
    assert_eq!(
        message(FinderFields { rrf_k: NumberClass::Zero, ..finder() }),
        "finder.rrf_k must be a finite number greater than zero"
    );
    assert_eq!(
        message(FinderFields { damping: NumberClass::Negative, ..finder() }),
        "finder.damping must be a finite nonnegative number"
    );
    assert_eq!(
        message(FinderFields { damping: NumberClass::AboveOne, ..finder() }),
        "finder.damping must not exceed one"
    );
    assert_eq!(
        message(FinderFields { epsilon: NumberClass::NotFinite, ..finder() }),
        "finder.epsilon must be a finite number greater than zero"
    );
    let weight = |weight: NumberClass| KindWeight { kind: "mentions".to_string(), weight };
    assert_eq!(
        message(FinderFields {
            weights: vec![weight(NumberClass::Zero), weight(NumberClass::Negative)],
            ..finder()
        }),
        "finder.weights.by_kind.mentions must be a finite nonnegative number"
    );
    assert_eq!(
        message(FinderFields { bounds: Err("finder: bad bounds".to_string()), ..finder() }),
        "finder: bad bounds"
    );
}

#[test]
fn sweep_rules_and_dates_are_refused_by_name() {
    let dated = validate_sweep(&SweepConfig::default(), &Err("not a date".to_string()));
    assert_eq!(dated.expect_err("date").message, "sweep.modified_after: not a date");
    let config = SweepConfig { ignore: vec![IgnoreRule::default()], ..SweepConfig::default() };
    let error = validate_sweep(&config, &Ok(())).expect_err("rule").message;
    assert!(error.starts_with("sweep.ignore: "), "{error}");
}

#[test]
fn a_running_node_keeps_its_operations() {
    assert!(check_running(Toggle { enabled: true }).is_ok());
    assert_eq!(
        check_running(Toggle { enabled: false }).expect_err("refused").message,
        "the operations entry cannot be disabled from a running node"
    );
}

#[test]
fn an_entry_the_distribution_lacks_is_named() {
    let entries = vec!["fs".to_string(), "sweep".to_string(), "sweep".to_string()];
    assert_eq!(resolved_entry(&entries, "sweep").expect("there"), 1);
    assert_eq!(
        resolved_entry(&entries, "node").expect_err("missing").message,
        "the distribution has no `node` entry"
    );
}

#[test]
fn a_document_with_small_globs_is_checked_whole() {
    assert!(fields().validate_small(CHARS_MAX).expect("small globs").is_ok());
    let with_glob = |glob: String| {
        let mut edited = fields();
        edited.sweep.ignore = vec![IgnoreRule { locator: Some(glob), ..IgnoreRule::default() }];
        edited
    };
    let error = with_glob("a{b".into())
        .validate_small(CHARS_MAX)
        .expect("small globs")
        .expect_err("refused")
        .message;
    assert!(error.starts_with("sweep.ignore: "), "{error}");
    assert_eq!(with_glob("a{b".into()).validate(CHARS_MAX).expect_err("refused").message, error);
    assert!(with_glob("x".repeat(5_000)).validate_small(CHARS_MAX).is_none());
    assert!(with_glob("x".repeat(5_000)).validate(CHARS_MAX).is_ok());
}
