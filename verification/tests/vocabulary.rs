use inseam_plugins::seam::SeamError;
use inseam_plugins::sweep::vocabulary::candidates::Tally;
use inseam_plugins::sweep::vocabulary::cluster::{
    embed_text, merges, ClusterSize, Clustering, EmbedMember, FoundedCluster, Home, Joining,
    EMBED_GLOSS_CHARS_MAX,
};
use inseam_plugins::sweep::vocabulary::config::VocabularyConfig;
use inseam_plugins::sweep::vocabulary::facets::{
    anchor_batch, facet_batch, facet_key, facet_row, FacetedSource, Planted, ReadFacet, AUTHOR_KEY,
};
use inseam_plugins::sweep::vocabulary::ground::{
    after_answer, alias_anchors, clean_aliases, needs_embedding, parse, plan_grounding,
    reply_object, system_prompt, user_prompt, AfterAnswer, Alias, Answer, Grounding, Reply,
    ReplyAliases, ReplyGloss, ReplyMerge, EXCERPT_CHARS_MAX,
};
use inseam_plugins::sweep::vocabulary::matching::Matching;
use inseam_plugins::sweep::vocabulary::mine::{Lexicon, Shape};
use inseam_plugins::sweep::vocabulary::mining::{millis, skip_reason, ContentText, Mining};
use inseam_plugins::sweep::vocabulary::pass::{
    changed_clusters, excerpt_anchor, next_generation, tally_grounding, ClusterChange, Edge,
    GroundingTally, PassStep,
};
use inseam_plugins::sweep::vocabulary::planting::{
    alias_row, batch_end, cluster_rows, clusters_to_found, fragments_joining, known_frequencies,
    mined_row, note_planted, rows_to_plant, WRITE_BATCH,
};
use inseam_plugins::sweep::vocabulary::rows::{
    lexical_rows, PlantResult, VocabularyKind, VocabularyOrigin, VocabularyRow,
};
use inseam_plugins::sweep::vocabulary::scan::{OffsetScan, Scan, PAGES_MAX};
use inseam_plugins::sweep::vocabulary::LLM_CONSUMER;
use inseam_plugins::sweep::vocabulary::table::{
    table, ExistingEntry, ExistingRow, ExistingRows, MatchedRow,
};

fn collapsed(text: &str) -> String {
    text.split_whitespace().collect::<Vec<_>>().join(" ")
}

fn normalized(spelling: &str) -> String {
    collapsed(spelling).to_lowercase()
}

/// How many of `sources` must be shared for a share of at least `floor`.
fn at_least(floor: f64, sources: usize) -> u32 {
    (floor * sources as f64).ceil() as u32
}

fn embed_member(spelling: &str, frequency: u32, gloss: Option<&str>) -> EmbedMember {
    EmbedMember {
        spelling: spelling.to_string(),
        normalized: spelling.to_lowercase(),
        document_frequency: frequency,
        gloss: gloss.map(str::to_string),
    }
}

fn member(spelling: &str) -> VocabularyRow {
    VocabularyRow {
        fragment: 1,
        kind: VocabularyKind::Term,
        origin: VocabularyOrigin::Mined,
        spelling: spelling.to_string(),
        normalized: normalized(spelling),
        document_frequency: 3,
        cluster: None,
    }
}

fn matched(normalized: &str, spelling: &str, shape: Shape, documents: u32) -> MatchedRow {
    MatchedRow {
        normalized: normalized.into(),
        spelling: spelling.into(),
        shape,
        existing: None,
        candidate: true,
        documents,
        sources: Vec::new(),
        fragment: None,
    }
}

fn assign(
    clustering: &mut Clustering,
    row: usize,
    label: &str,
    sources: &[i64],
    floor: f64,
    members_max: u32,
    clusters_max: usize,
) -> Option<Home> {
    let bound = at_least(floor, sources.len());
    clustering.assign(row, label, &sources.to_vec(), bound, members_max, clusters_max)
}

#[test]
fn rows_join_the_cluster_sharing_most_of_their_sources() {
    let mut clustering = Clustering::new();
    clustering.size(7, 2);
    clustering.size(9, 2);
    clustering.place(7, &vec![1, 2]);
    clustering.place(9, &vec![2, 3]);
    assert_eq!(
        assign(&mut clustering, 0, "a", &[1, 2, 4], 0.5, 64, 100),
        Some(Home::Stored(7))
    );
    let joined: Vec<&Joining> = clustering.joins.iter().filter(|j| j.cluster == 7).collect();
    assert_eq!(joined.len(), 1);
    assert_eq!(joined[0].members, vec![0]);
    assert_eq!(
        assign(&mut clustering, 1, "b", &[4, 5, 6], 0.9, 64, 100),
        Some(Home::Founded(0)),
        "under the join floor a row founds"
    );
    assert_eq!(clustering.founded[0].label, "b");
    assert_eq!(clustering.founded[0].members, vec![1]);
    assert_eq!(
        assign(&mut clustering, 2, "c", &[5, 6], 0.5, 64, 100),
        Some(Home::Founded(0)),
        "a cluster founded this pass is a home for the next row"
    );
    assert_eq!(clustering.founded[0].members, vec![1, 2]);
    assert_eq!(assign(&mut clustering, 3, "d", &[], 0.5, 64, 100), None);
    assert_eq!(clustering.joined, 2);
}

#[test]
fn full_clusters_and_the_cluster_cap_hold() {
    let mut clustering = Clustering::new();
    clustering.size(7, 2);
    clustering.place(7, &vec![1, 2]);
    assert_eq!(
        assign(&mut clustering, 0, "a", &[1, 2], 0.5, 2, 100),
        Some(Home::Founded(0)),
        "a full cluster takes nobody"
    );
    assert_eq!(
        assign(&mut clustering, 1, "b", &[9], 0.5, 64, 2),
        None,
        "the stored cluster and the founded one fill the cap"
    );
}

#[test]
fn embed_text_is_stable_and_frequency_ordered() {
    let members = vec![
        embed_member("beta", 2, None),
        embed_member("Alpha", 5, Some("the first")),
        embed_member("gamma", 2, None),
    ];
    assert_eq!(embed_text(&members), "Alpha: the first; beta; gamma");
}

#[test]
fn embed_text_does_not_depend_on_the_order_members_come_in() {
    let listed = |order: [usize; 3]| {
        let member = |at: usize| match at {
            0 => embed_member("beta", 2, None),
            1 => embed_member("Alpha", 5, Some("the first")),
            _ => embed_member("gamma", 2, None),
        };
        embed_text(&order.iter().map(|at| member(*at)).collect())
    };
    let text = listed([0, 1, 2]);
    for order in [[0, 2, 1], [1, 0, 2], [1, 2, 0], [2, 0, 1], [2, 1, 0]] {
        assert_eq!(listed(order), text);
    }
}

/// Ranks of the clusters that clear a cosine bound, for each changed one.
fn near(changed: &[Vec<f64>], all: &[Vec<f64>], bound: f64) -> Vec<Vec<Option<u64>>> {
    let cosine = |a: &Vec<f64>, b: &Vec<f64>| {
        let dot: f64 = a.iter().zip(b).map(|(x, y)| x * y).sum();
        let norm = |v: &Vec<f64>| v.iter().map(|x| x * x).sum::<f64>().sqrt();
        dot / (norm(a) * norm(b))
    };
    changed
        .iter()
        .map(|a| {
            all.iter()
                .map(|b| {
                    let similarity = cosine(a, b);
                    if similarity >= bound {
                        Some(similarity.to_bits())
                    } else {
                        None
                    }
                })
                .collect()
        })
        .collect()
}

#[test]
fn merges_pair_each_changed_cluster_once_smaller_into_larger() {
    let all = vec![
        ClusterSize { id: 1, members: 3 },
        ClusterSize { id: 2, members: 5 },
        ClusterSize { id: 3, members: 1 },
    ];
    let vectors = vec![vec![1.0, 0.0], vec![0.99, 0.1], vec![0.0, 1.0]];
    let pairs = merges(&all[..1].to_vec(), &all, &near(&vectors[..1], &vectors, 0.9));
    assert_eq!(pairs, vec![(2, 1)]);
    assert!(merges(&all[2..].to_vec(), &all, &near(&vectors[2..], &vectors, 0.9)).is_empty());
    let both = merges(&all[..2].to_vec(), &all, &near(&vectors[..2], &vectors, 0.9));
    assert_eq!(both.len(), 1, "a cluster merges at most once per pass");
}

#[test]
fn authors_land_on_the_entity_row_and_facets_on_their_own() {
    let author = facet_row("author", "Dana Reyes", &normalized("Dana Reyes"), true).expect("a row");
    assert!(author.is_author);
    assert_eq!(author.row.key, "entity:person:dana reyes");
    assert_eq!(author.row.kind, VocabularyKind::Entity);
    assert_eq!(author.row.normalized, "dana reyes");
    let label = facet_row("label", "INBOX", &normalized("INBOX"), true).expect("a row");
    assert!(!label.is_author);
    assert_eq!(label.row.key, "facet:label:inbox");
    assert_eq!(label.row.kind, VocabularyKind::Facet);
    assert_eq!(label.row.normalized, "label:inbox");
    assert_eq!(label.row.parameter, Some(("key".to_string(), "label".to_string())));
    assert!(facet_row("label", "  ", &normalized("  "), true).is_none());
}

fn text_of(value: &serde_json::Value, field: &str) -> String {
    value.get(field).and_then(|v| v.as_str()).unwrap_or("").to_string()
}

fn items(value: &serde_json::Value, field: &str) -> Vec<serde_json::Value> {
    value.get(field).and_then(|v| v.as_array()).cloned().unwrap_or_default()
}

/// The model's answer as the pass reads it.
fn reply(raw: &str) -> Option<Reply> {
    let object = reply_object(raw)?;
    let value: serde_json::Value = serde_json::from_str(&object).ok()?;
    Some(Reply {
        merges: items(&value, "merges")
            .iter()
            .map(|merge| ReplyMerge {
                keep: normalized(&text_of(merge, "keep")),
                drop: normalized(&text_of(merge, "drop")),
            })
            .collect(),
        glosses: items(&value, "glosses")
            .iter()
            .map(|gloss| ReplyGloss {
                term: normalized(&text_of(gloss, "term")),
                gloss: collapsed(&text_of(gloss, "gloss")),
            })
            .collect(),
        aliases: items(&value, "aliases")
            .iter()
            .map(|aliases| ReplyAliases {
                term: normalized(&text_of(aliases, "term")),
                aliases: items(aliases, "aliases")
                    .iter()
                    .map(|alias| {
                        let text = collapsed(alias.as_str().unwrap_or(""));
                        Alias { normalized: normalized(&text), text }
                    })
                    .collect(),
            })
            .collect(),
    })
}

#[test]
fn parse_keeps_only_members_and_bounds_everything() {
    let members: Vec<String> =
        [member("H200"), member("h200-80"), member("Redwood")].iter().map(|m| m.normalized.clone()).collect();
    let raw = r#"Sure: {"merges": [{"keep": "H200", "drop": "h200-80"}, {"keep": "H200", "drop": "unknown"}],
            "glosses": [{"term": "h200", "gloss": " the 80 GB accelerator "}, {"term": "h200-80", "gloss": "dropped"}, {"term": "zzz", "gloss": "x"}],
            "aliases": [{"term": "Redwood", "aliases": ["the inference product", "redwood", "the inference product", "ab", "x y z", "fourth", "fifth"]}]}"#;
    let grounding = parse(&reply(raw), &members, 4);
    assert_eq!(grounding.merges, vec![("h200".to_string(), "h200-80".to_string())]);
    assert_eq!(
        grounding.glosses,
        vec![("h200".to_string(), "the 80 GB accelerator".to_string())]
    );
    assert_eq!(grounding.aliases.len(), 1);
    let kept: Vec<&str> = grounding.aliases[0].1.iter().map(|a| a.text.as_str()).collect();
    assert_eq!(kept, vec!["the inference product", "x y z", "fourth", "fifth"]);
    assert_eq!(parse(&reply("no json here"), &members, 4), Grounding::default());
}

#[test]
fn prompts_name_every_member_and_excerpt() {
    let members = vec![member("H200")];
    let prompt = user_prompt(&members, &vec![collapsed("  spaced   excerpt ")]);
    assert!(prompt.contains("- H200 (3 documents, term)"));
    assert!(prompt.contains("- spaced excerpt"));
    assert!(system_prompt(4).contains("up to 4 short phrases"));
}

#[test]
fn the_band_top_is_a_percentage_with_a_floor() {
    let config = VocabularyConfig::default();
    assert_eq!(config.df_max(40), 50, "the floor holds on a small corpus");
    assert_eq!(config.df_max(25_000), 500);
    assert_eq!(config.df_max(512_000), 10_240);
    let strict = VocabularyConfig {
        term_df_max_floor: 1,
        term_df_min: 3,
        ..VocabularyConfig::default()
    };
    assert_eq!(strict.df_max(10), 3, "never below the band's bottom");
}

#[test]
fn the_digest_names_only_the_mining_dials() {
    let a = VocabularyConfig::default().digest();
    let b = VocabularyConfig { cluster_llm_budget: 1, ..VocabularyConfig::default() }.digest();
    let c = VocabularyConfig { term_df_min: 3, ..VocabularyConfig::default() }.digest();
    assert_eq!(a, b, "a budget change never re-mines");
    assert_ne!(a, c);
}

#[test]
fn mined_rows_take_the_extractors_namespaces() {
    let identifier = mined_row(&matched("sup-100432", "SUP-100432", Shape::Identifier, 3));
    assert_eq!(identifier.key, "identifier:sup-100432");
    assert_eq!(identifier.kind, VocabularyKind::Identifier);
    assert_eq!(identifier.document_frequency, 3);
    let term = mined_row(&matched("residency stamp", "residency stamp", Shape::Term, 3));
    assert_eq!(term.key, "term:residency stamp");
    assert_eq!(
        alias_row("The 80GB accelerator", &normalized("The 80GB accelerator")).key,
        "alias:the 80gb accelerator"
    );
}

fn lexicon() -> Lexicon {
    Lexicon::new(&vec!["the".to_string(), "a".to_string()], "")
}

fn content(fragment: i64, source: i64, text: &str) -> ContentText {
    ContentText { fragment, source, text: text.to_string() }
}

#[test]
fn pages_may_be_cut_anywhere() {
    let texts = [
        (1, 1, "Redwood rollout"),
        (2, 1, "Redwood again"),
        (3, 2, "Redwood elsewhere"),
    ];
    let config = VocabularyConfig::default();
    let mut whole = Mining::new(&config, lexicon());
    whole.read_texts(&texts.iter().map(|t| content(t.0, t.1, t.2)).collect());
    let mut parted = Mining::new(&config, lexicon());
    parted.read_texts(&texts[..1].iter().map(|t| content(t.0, t.1, t.2)).collect());
    parted.read_texts(&texts[1..].iter().map(|t| content(t.0, t.1, t.2)).collect());
    assert_eq!(whole.sources_walked(), 2);
    assert_eq!(parted.sources_walked(), 2);
    let a = whole.into_candidates().in_band(1, 10);
    let b = parted.into_candidates().in_band(1, 10);
    assert_eq!(a, b);
    assert_eq!(a.len(), 1, "the other words are singletons");
    assert_eq!(a[0].0, "redwood");
    assert_eq!(a[0].1.documents, 2);
}

#[test]
fn keyword_rows_propose_phrases() {
    let mut mining = Mining::new(&VocabularyConfig::default(), lexicon());
    mining.read_keywords(&vec!["residency stamp, eu tenant".to_string()]);
    mining.read_texts(&vec![content(1, 1, "the residency stamp")]);
    let band = mining.into_candidates().in_band(1, 1);
    assert_eq!(band.len(), 1);
    assert_eq!(band[0].0, "residency stamp");
    assert!(band[0].1.derived);
}

#[test]
fn an_unchanged_corpus_is_skipped_only_under_the_same_dials() {
    let config = VocabularyConfig::default();
    let same = Some(config.digest());
    let other = Some(VocabularyConfig { term_df_min: 9, ..config }.digest());
    assert_eq!(skip_reason(false, 1, &same, &config), Some("unchanged".to_string()));
    assert_eq!(skip_reason(true, 1, &same, &config), None);
    assert_eq!(skip_reason(false, 1, &other, &config), None);
    assert_eq!(skip_reason(false, 1, &None, &config), None);
}

#[test]
fn elapsed_milliseconds_are_held_to_what_counts() {
    assert_eq!(millis(12), 12);
    assert_eq!(millis(u128::MAX), u64::MAX);
}

#[test]
fn matches_count_once_per_source() {
    let mut rows = vec![
        matched("h200", "H200", Shape::Identifier, 0),
        matched("residency stamp", "residency stamp", Shape::Term, 0),
    ];
    let mut matching = Matching::new(&rows);
    assert!(!matching.is_empty());
    matching.read_text(&mut rows, &content(1, 1, "H200 H200 and a residency stamp"));
    matching.read_text(&mut rows, &content(2, 1, "H200 once more"));
    matching.read_text(&mut rows, &content(3, 2, "H200 elsewhere"));
    assert_eq!(rows[0].documents, 2);
    assert_eq!(rows[0].sources, vec![1, 2]);
    assert_eq!(rows[1].documents, 1);
    assert_eq!(matching.matches_counted(), 3);
    assert!(Matching::new(&Vec::new()).is_empty());
}

fn tally(spelling: &str, shape: Shape, documents: u32, derived: bool) -> Tally {
    Tally { shape, spelling: spelling.to_string(), documents, derived }
}

#[test]
fn the_table_joins_the_band_and_the_rows_the_store_holds() {
    let mut existing = ExistingRows::new();
    existing.add_page(&vec![
        VocabularyRow { fragment: 10, cluster: Some(4), ..member("Redwood") },
        VocabularyRow { fragment: 11, ..member("gone") },
        VocabularyRow {
            fragment: 12,
            origin: VocabularyOrigin::Extracted,
            ..member("kept")
        },
    ]);
    let entries: Vec<ExistingEntry> = existing.into_entries();
    assert_eq!(entries.len(), 3);
    let band = vec![
        ("redwood".to_string(), tally("Redwood", Shape::Term, 3, false)),
        ("residency stamp".to_string(), tally("residency stamp", Shape::Term, 0, true)),
    ];
    let joined = table(&band, &entries);
    assert_eq!(joined.retract, vec![11], "a mined row that fell out of the band");
    assert_eq!(joined.candidates_kept, 2);
    assert_eq!(joined.candidates_derived, 1);
    let names: Vec<&str> = joined.rows.iter().map(|r| r.normalized.as_str()).collect();
    assert!(names.contains(&"redwood"));
    assert!(names.contains(&"residency stamp"));
    assert!(names.contains(&"kept"));
    assert!(!names.contains(&"gone"));
}

#[test]
fn only_confirmed_candidates_are_planted() {
    let mut rows = vec![
        matched("alpha", "Alpha", Shape::Term, 1),
        matched("bravo", "Bravo", Shape::Term, 3),
        matched("charlie", "Charlie", Shape::Term, 9),
    ];
    assert_eq!(rows_to_plant(&rows, 2, 5), vec![1]);
    note_planted(&mut rows, &vec![1], &vec![PlantResult { fragment: 40, created: true }]);
    assert_eq!(rows[1].fragment, Some(40));
    assert!(known_frequencies(&rows).is_empty());
    rows[2].existing = Some(ExistingRow {
        fragment: 41,
        kind: VocabularyKind::Term,
        origin: VocabularyOrigin::Mined,
        cluster: None,
    });
    rows[2].fragment = Some(41);
    assert_eq!(known_frequencies(&rows), vec![(41, 9)]);
}

#[test]
fn a_pass_clusters_the_most_frequent_rows_first() {
    let mut rows = vec![
        matched("alpha", "Alpha", Shape::Term, 2),
        matched("bravo", "Bravo", Shape::Term, 3),
    ];
    for (at, row) in rows.iter_mut().enumerate() {
        row.sources = vec![1, 2];
        row.fragment = Some(20 + at as i64);
    }
    let floors: Vec<u32> = (0..=256).map(|n| at_least(0.5, n)).collect();
    let clustering = cluster_rows(&rows, &Vec::new(), &VocabularyConfig::default(), &floors);
    assert_eq!(clustering.founded.len(), 1);
    assert_eq!(clustering.founded[0].label, "Bravo");
    assert_eq!(clustering.founded[0].members, vec![1, 0]);
    let founding = clusters_to_found(&rows, &clustering.founded);
    assert_eq!(founding.len(), 1);
    assert_eq!(founding[0].members, vec![21, 20]);
    let joining = Joining { cluster: 9, members: vec![0] };
    assert_eq!(fragments_joining(&rows, &joining), vec![20]);
    let unplanted = vec![matched("alpha", "Alpha", Shape::Term, 2)];
    let founded = vec![FoundedCluster { label: "x".to_string(), members: vec![0] }];
    assert!(clusters_to_found(&unplanted, &founded).is_empty());
}

#[test]
fn writes_go_in_bounded_batches() {
    assert_eq!(batch_end(10, 0), 10);
    assert_eq!(batch_end(5_000, 0), WRITE_BATCH);
    assert_eq!(batch_end(5_000, 4_000), 5_000);
    assert_eq!(batch_end(0, 0), 0);
}

#[test]
fn a_scan_follows_full_pages_and_ends_on_a_short_one() {
    let mut scan = Scan::new();
    assert!(scan.wants_page());
    assert_eq!(scan.after, 0);
    scan.turn(5, 5, Some(17));
    assert!(scan.wants_page());
    assert_eq!(scan.after, 17);
    scan.turn(2, 5, Some(19));
    assert!(!scan.wants_page());
}

#[test]
fn new_rows_alone_become_searchable() {
    let rows = vec![
        alias_row("the accelerator", "the accelerator"),
        alias_row("a chip", "a chip"),
    ];
    let results = vec![
        PlantResult { fragment: 1, created: true },
        PlantResult { fragment: 2, created: false },
    ];
    let lexical = lexical_rows(&rows, &results);
    assert_eq!(lexical.len(), 1);
    assert_eq!(lexical[0].fragment, 1);
    assert_eq!(lexical[0].text, "the accelerator");
}

#[test]
fn facets_anchor_to_their_sources() {
    let anchors = anchor_batch(
        &vec![5, 6],
        &vec![true, false],
        &vec![
            PlantResult { fragment: 50, created: true },
            PlantResult { fragment: 60, created: false },
        ],
    );
    assert_eq!(anchors.authored.len(), 1);
    assert_eq!(anchors.faceted.len(), 1);
    assert_eq!(anchors.planted, Planted { rows_created: 1, anchors_written: 2 });
    let twice = anchors.planted.plus(anchors.planted);
    assert_eq!(twice, Planted { rows_created: 2, anchors_written: 4 });
}

fn alias(text: &str) -> Alias {
    Alias { text: text.to_string(), normalized: normalized(text) }
}

#[test]
fn aliases_are_bounded_by_length_and_count() {
    let long = "x".repeat(81);
    let edge = "y".repeat(80);
    let raw = vec![alias("ab"), alias(&long), alias(&edge), alias("abc"), alias("abc"), alias("term")];
    let kept = clean_aliases("term", &raw, 8);
    let texts: Vec<&str> = kept.iter().map(|a| a.text.as_str()).collect();
    assert_eq!(texts, vec![edge.as_str(), "abc"]);
    assert_eq!(clean_aliases("term", &raw, 1).len(), 1);
    assert!(clean_aliases("term", &raw, 0).is_empty(), "none is asked for");
}

#[test]
fn a_grounding_becomes_what_the_store_writes() {
    let members = vec![
        VocabularyRow { fragment: 5, cluster: Some(2), ..member("H200") },
        VocabularyRow { fragment: 6, cluster: Some(2), ..member("h200-80") },
    ];
    let grounding = Grounding {
        merges: vec![("h200".to_string(), "h200-80".to_string())],
        glosses: vec![("h200".to_string(), "an accelerator".to_string())],
        aliases: vec![("h200".to_string(), vec![alias("the big chip")])],
    };
    let plan = plan_grounding(&members, &grounding);
    assert_eq!(plan.merges, vec![(5, 6)]);
    assert_eq!(plan.glosses.len(), 1);
    assert_eq!(plan.glosses[0].fragment, 5);
    assert_eq!(plan.glosses[0].gloss, "an accelerator");
    assert_eq!(plan.aliases.len(), 1);
    assert_eq!(plan.aliases[0].fragment, 5);
    assert_eq!(plan.aliases[0].rows[0].key, "alias:the big chip");
    assert_eq!(plan.cluster, Some(2));
    let results = vec![PlantResult { fragment: 9, created: true }];
    assert_eq!(alias_anchors(&results, 5).len(), 1);
}

#[test]
fn a_failed_call_stops_the_grounding_and_an_empty_cluster_is_skipped() {
    assert_eq!(after_answer(&Answer::NoMembers), AfterAnswer::Skip);
    assert_eq!(after_answer(&Answer::Grounded(Grounding::default())), AfterAnswer::Apply);
    assert_eq!(
        after_answer(&Answer::Failed(SeamError::Refused("spent".to_string()))),
        AfterAnswer::Stop
    );
}

#[test]
fn a_cluster_is_embedded_again_when_its_text_changes() {
    assert!(needs_embedding(2, "new", "old", true));
    assert!(needs_embedding(2, "same", "same", false));
    assert!(!needs_embedding(2, "same", "same", true));
    assert!(!needs_embedding(0, "new", "old", true));
}

#[test]
fn the_outermost_braces_hold_the_answer() {
    assert_eq!(reply_object("Sure: {\"a\": {}} done"), Some("{\"a\": {}}".to_string()));
    assert_eq!(reply_object("none"), None);
    assert_eq!(reply_object("} backwards {"), None);
}

fn steps(skipped: Option<String>, merged: usize) -> Vec<PassStep> {
    let mut taken = vec![PassStep::first(&skipped)];
    while taken[taken.len() - 1] != PassStep::Finish {
        assert!(taken.len() < 40, "{taken:?}");
        taken.push(taken[taken.len() - 1].next(merged));
    }
    taken
}

#[test]
fn a_pass_records_its_dials_last_and_a_skipped_one_does_nothing() {
    assert_eq!(steps(Some("unchanged".to_string()), 0), vec![PassStep::Finish]);
    let plain = steps(None, 0);
    assert_eq!(plain[0], PassStep::DropMinedAnchors);
    assert!(!plain.contains(&PassStep::RecountMerged));
    let at = |taken: &[PassStep], step: PassStep| {
        taken.iter().position(|s| *s == step).unwrap_or_else(|| panic!("{step:?}"))
    };
    assert!(at(&plain, PassStep::Mine) < at(&plain, PassStep::Match));
    assert!(at(&plain, PassStep::Ground) < at(&plain, PassStep::BumpGeneration));
    assert_eq!(at(&plain, PassStep::RecordDigest), plain.len() - 3);
    let merged = steps(None, 2);
    assert_eq!(merged.len(), plain.len() + 2);
    assert!(at(&merged, PassStep::MergeClusters) < at(&merged, PassStep::EmbedMerged));
}

#[test]
fn the_clusters_of_this_pass_are_those_it_changed() {
    let change = |id: i64, changed_sweep: u64| ClusterChange { id, changed_sweep };
    assert_eq!(changed_clusters(&vec![change(1, 3), change(2, 5), change(3, 4)], 4), vec![1, 2]);
    assert_eq!(next_generation(3), 4);
    assert_eq!(next_generation(u64::MAX), u64::MAX);
}

#[test]
fn an_excerpt_comes_from_the_text_index_or_a_relation() {
    let edges = vec![Edge { from: 8, to: 2 }, Edge { from: 9, to: 1 }, Edge { from: 7, to: 1 }];
    assert_eq!(excerpt_anchor(&vec![5, 6], &edges, 1), Some(5));
    assert_eq!(excerpt_anchor(&Vec::new(), &edges, 1), Some(9));
    assert_eq!(excerpt_anchor(&Vec::new(), &edges, 3), None);
}

#[test]
fn grounding_is_tallied_as_it_was_written() {
    let members = vec![
        VocabularyRow { fragment: 5, ..member("H200") },
        VocabularyRow { fragment: 6, ..member("h200-80") },
    ];
    let grounding = Grounding {
        merges: vec![("h200".to_string(), "h200-80".to_string())],
        glosses: vec![("h200".to_string(), "an accelerator".to_string())],
        aliases: vec![("h200".to_string(), vec![alias("the big chip"), alias("the chip")])],
    };
    let plan = plan_grounding(&members, &grounding);
    let planted = vec![vec![
        PlantResult { fragment: 9, created: true },
        PlantResult { fragment: 10, created: false },
    ]];
    assert_eq!(
        tally_grounding(&plan, &planted),
        GroundingTally { rows_merged: 1, glosses_written: 1, anchors_added: 3, aliases_planted: 1 }
    );
}

#[test]
fn a_facet_without_a_key_of_its_own_plants_nothing() {
    assert_eq!(AUTHOR_KEY, "author");
    assert_eq!(facet_key(AUTHOR_KEY, "dana reyes"), "entity:person:dana reyes");
    assert_eq!(facet_key("label", "inbox"), "facet:label:inbox");
    assert!(facet_row("label", "INBOX", "inbox", false).is_none());
    assert!(facet_row(AUTHOR_KEY, "Dana", "dana", false).is_none());
}

#[test]
fn excerpts_and_glosses_are_cut_to_length() {
    let long = "é".repeat(500);
    let prompt = user_prompt(&vec![member("H200")], &vec![long.clone()]);
    assert!(prompt.ends_with(&format!("\nExcerpts:\n- {}\n", "é".repeat(EXCERPT_CHARS_MAX))));
    let text = embed_text(&vec![embed_member("Alpha", 5, Some(&long))]);
    assert_eq!(text, format!("Alpha: {}", "é".repeat(EMBED_GLOSS_CHARS_MAX)));
    assert_eq!((EXCERPT_CHARS_MAX, EMBED_GLOSS_CHARS_MAX), (400, 120));
    assert_eq!(LLM_CONSUMER, "vocabulary");
}

#[test]
fn a_clustering_shows_what_it_founded_and_joined() {
    let mut clustering = Clustering::new();
    clustering.size(7, 1);
    clustering.place(7, &vec![1, 2]);
    assert_eq!(assign(&mut clustering, 0, "a", &[1, 2], 0.5, 64, 100), Some(Home::Stored(7)));
    assert_eq!(assign(&mut clustering, 1, "b", &[9], 0.5, 64, 100), Some(Home::Founded(0)));
    assert_eq!(clustering.joins().len(), 1);
    assert_eq!(clustering.joins()[0].cluster, 7);
    assert_eq!(clustering.joins()[0].members, vec![0]);
    assert_eq!(clustering.founded().len(), 1);
    assert_eq!(clustering.founded()[0].label, "b");
    assert_eq!(clustering.joined(), clustering.joined);
}

#[test]
fn an_offset_scan_goes_page_by_page_and_ends_on_a_short_one() {
    let mut scan = OffsetScan::new();
    for page in 0..3 {
        assert!(scan.wants_page());
        assert_eq!(scan.offset, page * 500);
        assert_eq!(scan.pages_left, PAGES_MAX - page);
        scan.turn(500, 500);
    }
    scan.turn(499, 500);
    assert!(!scan.wants_page());
    let mut far = OffsetScan { offset: u32::MAX - 1, pages_left: 2 };
    far.turn(500, 500);
    assert_eq!(far, OffsetScan { offset: u32::MAX, pages_left: 1 });
    far.turn(500, 500);
    assert!(!far.wants_page(), "a walk ends after its last page");
}

#[test]
fn a_page_of_sources_plants_every_facet() {
    let facet = |key: &str, value: &str, addressable: bool| ReadFacet {
        key: key.to_string(),
        value: value.to_string(),
        normalized: normalized(value),
        addressable,
    };
    let page = vec![
        FacetedSource {
            source: 1,
            root: 10,
            facets: vec![facet("author", "Dana", true), facet("label", "INBOX", true)],
        },
        FacetedSource { source: 2, root: 20, facets: Vec::new() },
        FacetedSource {
            source: 3,
            root: 30,
            facets: vec![
                facet("label", " ", true),
                facet("", "x", true),
                facet("label", "no place", false),
                facet("label", "Sent", true),
            ],
        },
    ];
    let batch = facet_batch(&page);
    assert_eq!(batch.roots, vec![10, 10, 30]);
    assert_eq!(batch.authors, vec![true, false, false]);
    let keys: Vec<&str> = batch.rows.iter().map(|row| row.key.as_str()).collect();
    assert_eq!(keys, vec!["entity:person:dana", "facet:label:inbox", "facet:label:sent"]);
}
