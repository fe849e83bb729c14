use inseam_plugins::operations::install::{confined_path, plan, PluginFile};
use inseam_plugins::operations::ladder::{
    byte_len, check_bytes_bound, check_bytes_read, check_line_range, check_text_fetch,
    clamp_query_limit, clamp_scan_end, content_at, known_bytes, lines_total, neighbor_addresses,
    owners_to_read, scan_from, scan_stand_in, scan_stand_in_response, scan_text_response,
    scan_window, served_end, serves_text, source_at, KnownAddress, KnownContent, ScanWindow,
    StandIn, StoredFragment, QUERY_LIMIT_MAX,
};
use inseam_plugins::operations::merge::{
    finish, gather, stamp, summary_of, Candidate, FanOutReply, FusedScore, Gathered, Merged,
    QueryResult,
};
use inseam_plugins::operations::network::{
    check_invitation, check_view, network_view, unavailable, HostStewards, InvitationTerms,
    LogCount, Mounted, PeerSyncView,
};
use inseam_plugins::operations::service::{
    check_grant, check_install, clamp_catalog_limit, edit_error, expand_from, fetch_bytes_from,
    fetch_from, guard, host_for_index, mounted_at, reader_for, EditFailure, ExpandFrom,
    FetchedSource, MountedHost, OperationsFactory, ReaderFrom, CATALOG_LIMIT_MAX,
};
use inseam_plugins::operations::vocabulary::{
    alias_ids, answer_for, cluster_page, distinct_sources, shown_members, ClusterRank,
    TouchingRelation, VocabularyAnswer, CLUSTER_MEMBERS_SHOWN_MAX,
};
use inseam_plugins::seam::{Address, NodeId, SeamError};
use inseam_plugins::sweep::source::ContentLength;

const SCAN_LINES_MAX: u64 = 200;
const FILES_MAX: usize = 256;
const UPLOAD_BYTES_MAX: u64 = 1 << 20;

fn node(byte: u8) -> NodeId {
    NodeId { bytes: [byte; 32] }
}

fn address(full: &str) -> Address {
    let rest = full.strip_prefix("inseam://").expect("an address");
    let (host, locator) = rest.split_once('/').expect("a locator");
    Address { host: host.to_string(), locator: locator.to_string() }
}

// --- Installs ---

fn file(path: &str, bytes: &[u8]) -> PluginFile {
    PluginFile { path: path.to_string(), bytes: bytes.to_vec() }
}

#[test]
fn a_registry_shaped_directory_plans() {
    let planned = plan(
        vec![
            file("demo.wasm", b"\0asm"),
            file("demo.manifest.toml", b"name = \"demo\""),
            file("demo.checks.toml", b""),
            file("fixtures/pixel.png", b"png"),
        ],
        FILES_MAX,
        UPLOAD_BYTES_MAX,
    )
    .expect("plans");
    assert_eq!(planned.files[planned.artifact].relative, "demo.wasm");
    assert_eq!(planned.files.len(), 4);
    assert_eq!(planned.files[3].relative, "fixtures/pixel.png");
    assert_eq!(planned.files[3].segments, vec!["fixtures", "pixel.png"]);
    assert_eq!(planned.files[0].bytes, b"\0asm");
}

#[test]
fn refuses_malformed_uploads() {
    let cases: Vec<(&str, Vec<PluginFile>)> = vec![
        ("no files", Vec::new()),
        ("no artifact", vec![file("demo.manifest.toml", b"")]),
        (
            "two artifacts",
            vec![
                file("a.wasm", b""),
                file("a.manifest.toml", b""),
                file("b.wasm", b""),
            ],
        ),
        ("no manifest", vec![file("demo.wasm", b"")]),
        (
            "absolute path",
            vec![
                file("/etc/demo.wasm", b""),
                file("/etc/demo.manifest.toml", b""),
            ],
        ),
        (
            "parent escape",
            vec![
                file("demo.wasm", b""),
                file("demo.manifest.toml", b""),
                file("../outside.txt", b""),
            ],
        ),
        (
            "duplicate path",
            vec![
                file("demo.wasm", b""),
                file("demo.manifest.toml", b""),
                file("demo.manifest.toml", b""),
            ],
        ),
        (
            "empty path",
            vec![
                file("demo.wasm", b""),
                file("demo.manifest.toml", b""),
                file("", b""),
            ],
        ),
    ];
    for (name, files) in cases {
        let outcome = plan(files, FILES_MAX, UPLOAD_BYTES_MAX);
        assert!(
            matches!(outcome, Err(SeamError::Refused(_))),
            "{name} should be refused, got {outcome:?}"
        );
    }
}

#[test]
fn refuses_more_files_or_bytes_than_the_bounds() {
    let mut many = vec![file("demo.wasm", b""), file("demo.manifest.toml", b"")];
    for index in 0..FILES_MAX {
        many.push(file(&format!("fixtures/{index}"), b""));
    }
    assert!(matches!(
        plan(many, FILES_MAX, UPLOAD_BYTES_MAX),
        Err(SeamError::Refused(_))
    ));

    let big = vec![0u8; usize::try_from(UPLOAD_BYTES_MAX + 1).expect("fits")];
    let oversized = vec![file("demo.wasm", &big), file("demo.manifest.toml", b"")];
    assert!(matches!(
        plan(oversized, FILES_MAX, UPLOAD_BYTES_MAX),
        Err(SeamError::Refused(_))
    ));
}

#[test]
fn paths_stay_inside_the_directory() {
    assert_eq!(confined_path("a/b.txt").expect("confined"), vec!["a", "b.txt"]);
    assert_eq!(confined_path("a//./b.txt").expect("confined"), vec!["a", "b.txt"]);
    for bad in ["", "/a", "a/../b", "..", "./a"] {
        assert!(confined_path(bad).is_err(), "{bad}");
    }
}

// --- The reading ladder ---

#[test]
fn scan_end_is_held_to_the_span_bound() {
    let clamp = |start: u64, end: u64| clamp_scan_end(start, end, SCAN_LINES_MAX);
    assert_eq!(clamp(1, 1), 1);
    assert_eq!(clamp(5, 9), 9);
    assert_eq!(clamp(1, SCAN_LINES_MAX), SCAN_LINES_MAX);
    assert_eq!(clamp(1, SCAN_LINES_MAX + 1), SCAN_LINES_MAX);
    assert_eq!(clamp(10, u64::MAX), 10 + SCAN_LINES_MAX - 1);
    assert_eq!(clamp(u64::MAX, u64::MAX), u64::MAX);
}

#[test]
fn scan_window_refuses_bad_ranges_before_clamping() {
    assert!(matches!(
        scan_window(0, 5, SCAN_LINES_MAX),
        Err(SeamError::ScanRange { start: 0, end: 5 })
    ));
    assert!(matches!(
        scan_window(6, 5, SCAN_LINES_MAX),
        Err(SeamError::ScanRange { start: 6, end: 5 })
    ));
    let window = scan_window(3, u64::MAX, SCAN_LINES_MAX).expect("valid");
    assert_eq!(window, ScanWindow { start: 3, end: 3 + SCAN_LINES_MAX - 1 });
}

#[test]
fn query_limit_is_clamped_to_one_through_the_max() {
    assert_eq!(clamp_query_limit(0), 1);
    assert_eq!(clamp_query_limit(7), 7);
    assert_eq!(clamp_query_limit(QUERY_LIMIT_MAX + 1), QUERY_LIMIT_MAX);
}

#[test]
fn a_scan_stand_in_is_the_largest_text_fragment_that_is_source_content() {
    let fragment = |id: i64, indexable_text: bool, inseam_defined: bool, text: &str| StoredFragment {
        id,
        indexable_text,
        inseam_defined,
        text: Some(text.to_string()),
    };
    let fragments = vec![
        fragment(1, true, true, "a very long summary of the video"),
        fragment(2, true, false, "short"),
        fragment(3, true, false, "the transcript, longest"),
        fragment(4, true, false, "{\"structured\": \"text counts too\"}"),
        fragment(5, false, false, "not text however long this reference text is"),
    ];
    let chosen = scan_stand_in(&fragments).expect("a stand-in");
    assert_eq!(fragments[chosen].id, 4);
    assert_eq!(fragments[chosen].text.as_deref(), Some("{\"structured\": \"text counts too\"}"));
    let summaries = vec![fragment(1, true, true, "a very long summary of the video")];
    assert!(scan_stand_in(&summaries).is_none(), "summaries never stand in");
}

#[test]
fn bytes_are_counted_as_utf8() {
    assert_eq!(byte_len("aé€𝄞"), 10);
    assert_eq!(byte_len(""), 0);
}

#[test]
fn a_window_is_cut_at_the_end_of_its_content() {
    let window = ScanWindow { start: 3, end: 9 };
    assert_eq!(served_end(window, Some(7)), 7);
    assert_eq!(served_end(window, Some(20)), 9);
    assert_eq!(served_end(window, None), 9);
    assert_eq!(lines_total(ContentLength::Lines(4)), Some(4));
    assert_eq!(lines_total(ContentLength::Bytes(4)), None);
    assert_eq!(known_bytes(ContentLength::Bytes(4)), Some(4));
    assert_eq!(known_bytes(ContentLength::Lines(4)), None);
}

#[test]
fn fetches_are_refused_by_kind_and_by_size() {
    let at = address("inseam://fs-a/photo.png");
    assert!(check_line_range(1, 1).is_ok());
    assert!(check_line_range(2, 1).is_err());
    assert!(serves_text(true, false));
    assert!(serves_text(false, true));
    assert!(!serves_text(false, false));
    assert!(check_text_fetch(&at, "text/plain", true).is_ok());
    assert!(matches!(
        check_text_fetch(&at, "image/png", false),
        Err(SeamError::BinaryFetch(_, kind)) if kind == "image/png"
    ));
    assert!(check_bytes_bound(&at, Some(10), 10).is_ok());
    assert!(check_bytes_bound(&at, None, 10).is_ok());
    assert!(matches!(
        check_bytes_bound(&at, Some(11), 10),
        Err(SeamError::FetchTooLarge { bytes: 11, limit: 10, .. })
    ));
    assert!(check_bytes_read(&at, 10, 10).is_ok());
    assert!(matches!(
        check_bytes_read(&at, 11, 10),
        Err(SeamError::FetchTooLarge { bytes: 11, limit: 10, .. })
    ));
}

#[test]
fn a_scan_says_where_its_lines_came_from() {
    let window = ScanWindow { start: 2, end: 9 };
    let at = || address("inseam://fs-a/talk.mp4");
    let text = scan_text_response(
        at(),
        "text/plain".to_string(),
        ContentLength::Lines(4),
        window,
        "two\nthree\nfour".to_string(),
    );
    assert_eq!((text.start, text.end, text.lines_total), (2, 4, Some(4)));
    assert_eq!(text.served_from_fragment, None);
    let stand_in = StandIn {
        fragment: 7,
        mimetype: "text/vtt".to_string(),
        lines_total: 30,
        sliced: Ok("lines".to_string()),
    };
    let served = scan_stand_in_response(at(), window, Some(stand_in)).expect("a stand-in");
    assert_eq!((served.start, served.end, served.lines_total), (2, 9, Some(30)));
    assert_eq!(served.served_from_fragment, Some(7));
    assert_eq!(served.text, "lines");
    assert!(matches!(
        scan_stand_in_response(at(), window, None),
        Err(SeamError::NothingToScan(a)) if a == at()
    ));
    let beyond = StandIn {
        fragment: 7,
        mimetype: "text/vtt".to_string(),
        lines_total: 1,
        sliced: Err(SeamError::ScanBeyondEnd { message: "past".to_string() }),
    };
    assert!(matches!(
        scan_stand_in_response(at(), window, Some(beyond)),
        Err(SeamError::ScanBeyondEnd { .. })
    ));
}

#[test]
fn only_a_text_scan_needs_a_path_to_its_host() {
    let unreachable = || Err::<u8, SeamError>(SeamError::UnknownHost("fs-a".to_string()));
    assert_eq!(scan_from(false, unreachable()).expect("a stand-in"), None);
    assert!(scan_from(true, unreachable()).is_err());
    assert_eq!(scan_from(true, Ok::<u8, SeamError>(3)).expect("read"), Some(3));
}

#[test]
fn content_is_what_the_catalog_or_a_reference_knows() {
    let at = address("inseam://fs-a/photo.png");
    let known = |length: ContentLength| {
        Some(KnownContent { content_type: "image/png".to_string(), length })
    };
    assert_eq!(
        content_at(&at, known(ContentLength::Bytes(9)), None).expect("cataloged"),
        ("image/png".to_string(), Some(9))
    );
    assert_eq!(
        content_at(&at, None, Some("image/gif".to_string())).expect("referenced"),
        ("image/gif".to_string(), None)
    );
    assert!(matches!(content_at(&at, None, None), Err(SeamError::UnknownSource(_))));
    assert_eq!(source_at(&at, Some(4)).expect("found"), 4);
    assert!(matches!(
        source_at::<u8>(&at, None),
        Err(SeamError::UnknownSource(a)) if a == at
    ));
}

#[test]
fn neighbors_are_addressed_by_one_lookup_per_source() {
    let owners = vec![Some(3), None, Some(4), Some(3)];
    assert_eq!(owners_to_read(&owners), vec![3, 4]);
    let known = vec![KnownAddress { source: 3, address: address("inseam://fs-a/x") }];
    let found = neighbor_addresses(&owners, &known);
    let shown: Vec<Option<String>> = found.iter().map(|a| a.as_ref().map(|a| a.full())).collect();
    assert_eq!(
        shown,
        vec![
            Some("inseam://fs-a/x".to_string()),
            None,
            None,
            Some("inseam://fs-a/x".to_string())
        ]
    );
}

#[test]
fn a_fetch_is_refused_in_order() {
    let at = address("inseam://fs-a/notes.md");
    let source = |served_as_text: bool| {
        Some(FetchedSource { content_type: "text/markdown".to_string(), served_as_text })
    };
    assert!(matches!(
        fetch_from(&at, None, false, false),
        Err(SeamError::UnknownSource(_))
    ));
    assert!(matches!(
        fetch_from(&at, source(false), false, false),
        Err(SeamError::BinaryFetch(_, _))
    ));
    assert!(matches!(
        fetch_from(&at, source(true), false, false),
        Err(SeamError::UnknownHost(_))
    ));
    assert_eq!(fetch_from(&at, source(true), false, true).expect("routed"), ReaderFrom::Routing);
    let sized = || {
        Some(KnownContent {
            content_type: "image/png".to_string(),
            length: ContentLength::Bytes(11),
        })
    };
    assert!(matches!(
        fetch_bytes_from(&at, sized(), None, 10, true, false),
        Err(SeamError::FetchTooLarge { .. })
    ));
    assert_eq!(
        fetch_bytes_from(&at, sized(), None, 11, true, false).expect("fits"),
        (ReaderFrom::Connection, "image/png".to_string())
    );
}

#[test]
fn a_grant_is_named_when_it_is_missing() {
    assert!(check_grant("mail", true, true).is_ok());
    assert!(matches!(
        check_grant("mail", true, false),
        Err(SeamError::Unavailable(m)) if m == "no grant `mail` is configured on this node"
    ));
    assert!(matches!(
        check_grant("mail", false, false),
        Err(SeamError::Unavailable(m)) if m == "the oauth entry is not active on this node"
    ));
}

// --- Merging ---

type Shown = Option<String>;

const RRF_K: f64 = 60.0;

fn result(full: &str, digest: Option<&str>) -> QueryResult<Shown> {
    QueryResult {
        address: address(full),
        score: 1.0f64.to_bits(),
        content_digest: digest.map(str::to_string),
        replicas: Vec::new(),
        via: None,
        shown: None,
    }
}

fn reply(byte: u8, results: Vec<QueryResult<Shown>>, error: Option<&str>) -> FanOutReply<Shown> {
    FanOutReply {
        node: node(byte),
        results,
        elapsed_ms: 5,
        error: error.map(str::to_string),
    }
}

fn addresses(results: &[QueryResult<Shown>]) -> Vec<String> {
    results.iter().map(|r| r.address.full()).collect()
}

/// Reciprocal rank fusion over the lists, renormalized to the best score.
fn scores(candidates: &[Candidate<Shown>], lists: &[Vec<usize>]) -> Vec<FusedScore> {
    let mut fused = vec![0.0f64; candidates.len()];
    for list in lists {
        for (rank, id) in list.iter().enumerate() {
            fused[*id] += 1.0 / (RRF_K + rank as f64 + 1.0);
        }
    }
    let top = fused.iter().cloned().fold(0.0f64, f64::max);
    fused
        .iter()
        .map(|score| FusedScore {
            key: score.to_bits(),
            shown: ((score / top * 1000.0).round() / 1000.0).to_bits(),
        })
        .collect()
}

fn merge(
    local: Vec<QueryResult<Shown>>,
    replies: Vec<FanOutReply<Shown>>,
    limit: usize,
) -> Merged<Shown> {
    let (gathered, remote) = gather(local, replies, limit);
    let results = match gathered {
        Gathered::Local(results) => results,
        Gathered::Pooled(pool) => {
            let fused = scores(&pool.candidates, &pool.lists);
            finish(pool, &fused, limit)
        }
    };
    Merged { results, remote }
}

fn score_of(result: &QueryResult<Shown>) -> f64 {
    f64::from_bits(result.score)
}

#[test]
fn without_remote_results_the_local_list_stands_untouched() {
    let mut local = vec![
        result("inseam://fs-a/one", None),
        result("inseam://fs-a/two", None),
    ];
    local[1].score = 0.4f64.to_bits();
    let merged = merge(local, vec![reply(2, Vec::new(), Some("timed out"))], 8);
    assert_eq!(addresses(&merged.results), ["inseam://fs-a/one", "inseam://fs-a/two"]);
    assert_eq!(score_of(&merged.results[1]), 0.4, "no fusion rescored the local list");
    assert_eq!(merged.remote.len(), 1);
    assert_eq!(merged.remote[0].error.as_deref(), Some("timed out"));
    assert_eq!(merged.remote[0].results, 0);
}

#[test]
fn rank_fusion_rewards_an_address_both_lists_rank() {
    let local = vec![
        result("inseam://fs-a/only-local", None),
        result("inseam://fs-a/shared", None),
    ];
    let remote = vec![
        result("inseam://fs-a/shared", None),
        result("inseam://fs-b/only-remote", None),
    ];
    let merged = merge(local, vec![reply(2, remote, None)], 8);
    assert_eq!(
        addresses(&merged.results),
        [
            "inseam://fs-a/shared",
            "inseam://fs-a/only-local",
            "inseam://fs-b/only-remote"
        ],
        "rank 2 + rank 1 beats a lone rank 1, and the local lone rank 1 beats the remote one by id"
    );
    assert_eq!(score_of(&merged.results[0]), 1.0, "the top result is renormalized to 1.0");
    assert!(score_of(&merged.results[1]) < 1.0);
    assert_eq!(merged.remote[0].results, 2);
}

#[test]
fn a_shared_address_keeps_its_local_copy() {
    let mut local = vec![result("inseam://fs-a/shared", None)];
    local[0].shown = Some("local summary".to_string());
    let mut remote = vec![result("inseam://fs-a/shared", None)];
    remote[0].shown = Some("remote summary".to_string());
    let merged = merge(local, vec![reply(2, remote, None)], 8);
    assert_eq!(merged.results.len(), 1);
    assert_eq!(merged.results[0].shown.as_deref(), Some("local summary"));
    assert_eq!(merged.results[0].via, None);
}

#[test]
fn an_address_only_remotes_hold_keeps_its_best_ranked_copy() {
    let local = Vec::new();
    let mut second_place = result("inseam://fs-b/doc", None);
    second_place.shown = Some("ranked second on node 2".to_string());
    let mut first_place = result("inseam://fs-b/doc", None);
    first_place.shown = Some("ranked first on node 3".to_string());
    let merged = merge(
        local,
        vec![
            reply(2, vec![result("inseam://fs-b/other", None), second_place], None),
            reply(3, vec![first_place], None),
        ],
        8,
    );
    let doc = merged
        .results
        .iter()
        .find(|r| r.address.full() == "inseam://fs-b/doc")
        .expect("merged");
    assert_eq!(doc.shown.as_deref(), Some("ranked first on node 3"));
    assert_eq!(doc.via, Some(node(3)));
}

#[test]
fn digest_equal_copies_collapse_into_replicas_across_nodes() {
    let local = vec![result("inseam://fs-a/notes.md", Some("same bytes"))];
    let remote = vec![
        result("inseam://drive-x/notes.md", Some("same bytes")),
        result("inseam://drive-x/other.md", Some("different")),
    ];
    let merged = merge(local, vec![reply(2, remote, None)], 8);
    assert_eq!(
        addresses(&merged.results),
        ["inseam://fs-a/notes.md", "inseam://drive-x/other.md"]
    );
    assert_eq!(
        merged.results[0].replicas.iter().map(|a| a.full()).collect::<Vec<_>>(),
        ["inseam://drive-x/notes.md"]
    );
    assert!(merged.results[1].replicas.is_empty());
}

#[test]
fn results_without_a_digest_never_collapse() {
    let local = vec![result("inseam://fs-a/a", None)];
    let remote = vec![result("inseam://fs-b/b", None)];
    let merged = merge(local, vec![reply(2, remote, None)], 8);
    assert_eq!(merged.results.len(), 2);
}

#[test]
fn a_failed_node_is_summarized_while_the_rest_merge() {
    let local = vec![result("inseam://fs-a/a", None)];
    let merged = merge(
        local,
        vec![
            reply(2, Vec::new(), Some("timed out after 3000 ms")),
            reply(3, vec![result("inseam://fs-c/c", None)], None),
        ],
        8,
    );
    assert_eq!(merged.results.len(), 2);
    assert_eq!(merged.remote.len(), 2);
    assert_eq!(merged.remote[0].node, node(2));
    assert_eq!(merged.remote[0].error.as_deref(), Some("timed out after 3000 ms"));
    assert_eq!(merged.remote[1].results, 1);
    assert_eq!(merged.remote[1].error, None);
}

#[test]
fn the_merge_is_truncated_to_the_limit() {
    let local = vec![result("inseam://fs-a/a", None), result("inseam://fs-a/b", None)];
    let remote = vec![result("inseam://fs-b/c", None), result("inseam://fs-b/d", None)];
    let merged = merge(local, vec![reply(2, remote, None)], 3);
    assert_eq!(merged.results.len(), 3);
}

#[test]
fn a_peers_list_is_held_to_the_query_bound() {
    let many: Vec<QueryResult<Shown>> =
        (0..QUERY_LIMIT_MAX + 5).map(|i| result(&format!("inseam://fs-b/{i}"), None)).collect();
    let stamped = stamp(reply(2, many, None));
    assert_eq!(stamped.len(), QUERY_LIMIT_MAX);
    assert!(stamped.iter().all(|r| r.via == Some(node(2))));
    assert_eq!(summary_of(&reply(2, Vec::new(), None)).elapsed_ms, 5);
}

// --- The service ---

#[test]
fn a_host_is_read_here_or_through_the_network() {
    assert_eq!(reader_for("fs-a", true, false).expect("here"), ReaderFrom::Connection);
    assert_eq!(reader_for("fs-a", false, true).expect("there"), ReaderFrom::Routing);
    assert!(matches!(
        reader_for("fs-a", false, false),
        Err(SeamError::UnknownHost(host)) if host == "fs-a"
    ));
    assert_eq!(expand_from("fs-a", true, false, false).expect("here"), ExpandFrom::Index);
    assert_eq!(expand_from("fs-a", false, false, true).expect("there"), ExpandFrom::Routing);
}

#[test]
fn only_an_enumerating_host_is_indexed() {
    let host = |enumerates: bool| Some(MountedHost { id: "fs-a".into(), enumerates });
    assert_eq!(host_for_index("fs-a", host(true)).expect("indexes"), "fs-a");
    assert!(host_for_index("fs-a", host(false)).is_err());
    assert!(host_for_index("fs-a", None).is_err());
}

#[test]
fn a_denied_operation_is_refused_with_its_reason() {
    assert!(guard(None).is_ok());
    assert!(matches!(guard(Some("no".into())), Err(SeamError::Refused(m)) if m.contains("no")));
}

#[test]
fn edits_fail_as_what_went_wrong() {
    for failure in [
        EditFailure::EntryExists,
        EditFailure::MountFailed,
        EditFailure::ConfigureFailed,
        EditFailure::EditsUnserviced,
        EditFailure::EditQueueFull,
        EditFailure::Other,
    ] {
        let error = edit_error(failure, "why".into());
        assert!(format!("{error:?}").contains("why"), "{error:?}");
    }
}

#[test]
fn a_plugin_installs_once() {
    let running = vec!["fs".to_string()];
    assert!(check_install("demo", &running, "plugins/demo", false).is_ok());
    assert!(check_install("fs", &running, "plugins/fs", false).is_err());
    assert!(check_install("demo", &running, "plugins/demo", true).is_err());
    assert_eq!(mounted_at("fs", &running).expect("mounted"), 0);
    assert!(mounted_at("demo", &running).is_err());
}

#[test]
fn catalog_pages_are_bounded() {
    assert_eq!(clamp_catalog_limit(0), 1);
    assert_eq!(clamp_catalog_limit(u32::MAX), CATALOG_LIMIT_MAX);
    assert_eq!(OperationsFactory.name(), "operations");
}

// --- The network ---

#[test]
fn every_network_operation_names_the_missing_entry_without_a_network() {
    for (entry, mounted) in [
        ("roster", Mounted { roster: false, sync: true, node: true }),
        ("sync", Mounted { roster: true, sync: false, node: true }),
        ("node", Mounted { roster: true, sync: true, node: false }),
    ] {
        match check_view(mounted) {
            Err(SeamError::Unavailable(message)) => assert!(message.contains(entry), "{message}"),
            other => panic!("{entry}: {other:?}"),
        }
    }
    assert!(check_view(Mounted { roster: true, sync: true, node: true }).is_ok());
    assert!(matches!(unavailable("roster"), SeamError::Unavailable(m) if m.contains("roster")));
}

#[test]
fn the_network_view_joins_roster_facts_with_session_knowledge() {
    let peers = vec![PeerSyncView {
        node: node(2),
        live: true,
        last_success: Some(40),
        last_error: None,
    }];
    let hosts = vec![HostStewards { host: "fs-b".into(), stewards: vec![node(2)] }];
    let view = network_view(
        node(1),
        &vec![node(1), node(2), node(3)],
        hosts,
        &peers,
        &vec![LogCount { entries: 4 }, LogCount { entries: 5 }],
    );
    assert_eq!(view.nodes.len(), 3);
    assert!(view.nodes[0].is_local && view.nodes[0].live);
    assert!(view.nodes[1].live);
    assert_eq!(view.nodes[1].last_sync, Some(40));
    assert_eq!(view.nodes[1].hosts, vec!["fs-b"]);
    assert!(!view.nodes[2].live);
    assert!(view.nodes[2].hosts.is_empty());
    assert_eq!(view.log.entries, 9);
    assert_eq!(view.log.origins, 2);
}

#[test]
fn join_refuses_an_expired_or_malformed_invitation_by_name() {
    let terms = || InvitationTerms { node: node(2), expires: 100, expires_on: "later".into() };
    assert_eq!(check_invitation(Ok(terms()), 99).expect("open").node, node(2));
    assert!(check_invitation(Ok(terms()), 100).is_err());
    assert!(check_invitation(Err("not an invitation".into()), 0).is_err());
}

// --- The vocabulary's answers ---

#[test]
fn clusters_page_by_frequency() {
    let rank = |id: i64, document_frequency: u32| ClusterRank { id, document_frequency };
    let page = cluster_page(vec![rank(1, 2), rank(2, 9), rank(3, 5)], 1, 1);
    assert_eq!(page, vec![rank(3, 5)]);
    assert!(cluster_page(vec![rank(1, 2)], 5, 5).is_empty());
}

#[test]
fn sources_and_aliases_are_listed_once() {
    assert_eq!(distinct_sources(&vec![3, 3, 4, 3]), vec![3, 4]);
    let relation = |aliases: bool, from: i64, to: i64| TouchingRelation { aliases, from, to };
    let ids = alias_ids(
        &vec![relation(true, 9, 1), relation(false, 8, 1), relation(true, 1, 7)],
        1,
    );
    assert!(ids.contains(&9));
    assert!(!ids.contains(&8));
    let members: Vec<String> = (0..CLUSTER_MEMBERS_SHOWN_MAX + 3).map(|i| i.to_string()).collect();
    assert_eq!(shown_members(members).len(), CLUSTER_MEMBERS_SHOWN_MAX);
    assert_eq!(answer_for(true, true), VocabularyAnswer::Show);
    assert_eq!(answer_for(false, true), VocabularyAnswer::Clusters);
    assert_eq!(answer_for(false, false), VocabularyAnswer::Rows);
}

#[test]
fn the_network_view_tells_a_silent_peer_from_this_node() {
    let peers = vec![PeerSyncView {
        node: node(2),
        live: false,
        last_success: Some(1_420_070_400),
        last_error: Some("dial failed".into()),
    }];
    let hosts = vec![HostStewards { host: "fs-two".into(), stewards: vec![node(2)] }];
    let view = network_view(node(1), &vec![node(1), node(2)], hosts, &peers, &Vec::new());
    assert_eq!(view.nodes.len(), 2);
    let me = &view.nodes[0];
    assert!(me.is_local);
    assert!(me.live, "a node is live to itself");
    assert!(me.hosts.is_empty());
    let peer = &view.nodes[1];
    assert!(!peer.is_local);
    assert!(!peer.live);
    assert_eq!(peer.last_sync, Some(1_420_070_400));
    assert_eq!(peer.last_error.as_deref(), Some("dial failed"));
    assert_eq!(peer.hosts, vec!["fs-two"]);
    assert_eq!(view.hosts.len(), 1);
    assert_eq!(view.hosts[0].stewards, vec![node(2)]);
    assert_eq!(view.log.entries, 0, "an empty store holds no log");
    assert_eq!(view.log.origins, 0);
}
