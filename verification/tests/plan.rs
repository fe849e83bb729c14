use inseam_plugins::seam::Address;
use inseam_plugins::sweep::cache::ObservedCalls;
use inseam_plugins::sweep::config::PlanLimits;
use inseam_plugins::sweep::embed::EmbedTotals;
use inseam_plugins::sweep::plan::{
    anchors_for, bytes_from, claimants, composed_envelope, filed, item_digest, lookup_cached,
    read_content, read_envelope, read_plan, reference_fits, reference_hops_left, Anchor, BytesFrom, CacheLookup,
    Claimant, KeyedSprout, NewFragment, PlanNode, Planned, Presented, Provenance, ReadPlan, Sprout,
    SubtreeBuild, WorkItem,
};
use inseam_plugins::sweep::report::{
    search_rows_of, IndexPhase, IndexReport, KeyedFragment, SubtreeWritten,
};
use inseam_plugins::sweep::source::{ContentLength, Envelope, Mimetype};

fn mimetype(essence: &str) -> Mimetype {
    Mimetype {
        essence: essence.to_string(),
        inseam_defined: false,
        summary: false,
        directory: false,
        via: None,
    }
}

fn summary(via: &str) -> Mimetype {
    Mimetype {
        inseam_defined: true,
        summary: true,
        via: Some(via.to_string()),
        ..mimetype("text/x-inseam-summary")
    }
}

fn fragment(mimetype: Mimetype, text: Option<&str>) -> NewFragment {
    NewFragment {
        mimetype,
        text: text.map(str::to_string),
        extent: None,
        content_address: None,
    }
}

fn leaf(fragment: NewFragment) -> Sprout {
    Sprout { fragment, relation: "contains".to_string(), children: Vec::new() }
}

fn limits() -> PlanLimits {
    PlanLimits {
        max_depth: 2,
        max_fragments_per_source: 4,
        max_content_bytes: 100,
        max_reference_hops: 1,
    }
}

fn address() -> Address {
    Address { host: "fs-a".to_string(), locator: "notes/a.md".to_string() }
}

fn envelope(directory: bool) -> Envelope {
    Envelope {
        source_type: "file".into(),
        content_type: Mimetype { directory, ..mimetype("text/markdown") },
        length: ContentLength::Bytes(10),
        modified: Some(5),
        properties: Vec::new(),
        hint: None,
        content_digest: None,
    }
}

#[test]
fn text_anchors_fall_back_to_the_input() {
    let texted = vec![
        (PlanNode::Fragment(0), "Greg went home".to_string()),
        (PlanNode::Fragment(1), "nothing here".to_string()),
    ];
    let hits = anchors_for(
        &Anchor::TextContaining("greg".into()),
        PlanNode::Root,
        &texted,
    );
    assert_eq!(hits, vec![PlanNode::Fragment(0)]);
    let none = anchors_for(
        &Anchor::TextContaining("zed".into()),
        PlanNode::Root,
        &texted,
    );
    assert_eq!(none, vec![PlanNode::Root]);
    assert_eq!(
        anchors_for(&Anchor::Input, PlanNode::Fragment(1), &texted),
        vec![PlanNode::Fragment(1)]
    );
}

/// A source whose root sprouts two fragments, one of them a summary.
fn planned() -> Planned {
    let mut build =
        SubtreeBuild::new(&mimetype("text/markdown"), &Some("# A title".to_string()), limits());
    let root = build.next().expect("the root is served first");
    assert_eq!(root.node, PlanNode::Root);
    assert!(root.is_root);
    assert_eq!(root.depth, 0);
    let sprouts = vec![
        leaf(fragment(mimetype("text/markdown"), Some("Dana wrote this"))),
        leaf(fragment(summary("llm"), Some("a summary"))),
    ];
    build.tally_summaries(&sprouts);
    assert_eq!(build.inventory().len(), 1, "only the root so far");
    assert_eq!(build.inventory()[0].mimetype, "text/markdown");
    let keyed = vec![KeyedSprout {
        key: "entity:person:dana".to_string(),
        fragment: fragment(mimetype("text/x-inseam-entity"), Some("Dana")),
        relation: "mentions".to_string(),
        anchor: Anchor::TextContaining("dana".to_string()),
    }];
    build.absorb(
        &root,
        sprouts,
        keyed,
        Provenance::Applied(Some(("key".to_string(), "encoded".to_string()))),
    );
    while let Some(item) = build.next() {
        assert!(item.depth <= 2);
        assert!(!item.is_root);
    }
    build.finish(address(), envelope(false), 10, "stamp".to_string())
}

#[test]
fn a_build_follows_the_root_and_its_fragments() {
    let done = planned();
    assert_eq!(done.plan.fragments.len(), 2);
    assert!(done.plan.fragments.iter().all(|f| f.parent == PlanNode::Root));
    assert_eq!(done.plan.keyed.len(), 1);
    assert_eq!(done.plan.keyed[0].anchors, vec![PlanNode::Fragment(0)]);
    assert_eq!(done.stats.llm_summaries, 1);
    assert_eq!(done.stats.transforms_reused, 0);
    assert_eq!(done.cache_entries, vec![("key".to_string(), "encoded".to_string())]);
    assert_eq!(done.plan.stamp, "stamp");
    assert_eq!(done.plan.inventory.len(), 3);
    assert!(done.plan.inventory[0].is_root);
}

#[test]
fn a_build_counts_what_the_cache_gave() {
    let mut build = SubtreeBuild::new(&mimetype("text/markdown"), &None, limits());
    let root = build.next().expect("the root");
    build.absorb(&root, Vec::new(), Vec::new(), Provenance::Reused);
    assert!(build.next().is_none());
    let done = build.finish(address(), envelope(false), 10, "stamp".to_string());
    assert_eq!(done.stats.transforms_reused, 1);
    assert!(done.cache_entries.is_empty());
}

#[test]
fn a_decomposition_is_offered_what_is_left() {
    let mut build =
        SubtreeBuild::new(&mimetype("text/markdown"), &Some("text".to_string()), limits());
    let root = build.next().expect("the root");
    let offered = build.decompose_budget(&root);
    assert_eq!(offered.max_fragments, 4);
    assert_eq!(offered.max_depth, 2);
    build.absorb(
        &root,
        vec![leaf(fragment(mimetype("text/plain"), Some("one")))],
        Vec::new(),
        Provenance::Applied(None),
    );
    let next = build.next().expect("the fragment");
    let left = build.decompose_budget(&next);
    assert_eq!(left.max_fragments, 3);
    assert_eq!(left.max_depth, 1);
}

#[test]
fn content_past_the_bound_is_not_read() {
    let small = read_plan(true, true, 100, limits());
    assert_eq!(small, ReadPlan { raw: true, text: true, bytes: true });
    let large = read_plan(true, true, 101, limits());
    assert_eq!(large, ReadPlan { raw: false, text: false, bytes: false });
    assert!(!read_plan(false, false, 5, limits()).text);
}

#[test]
fn an_envelope_takes_what_reading_found() {
    let read = read_envelope(envelope(false), Some("digest".to_string()), Some(3));
    assert_eq!(read.content_digest.as_deref(), Some("digest"));
    assert_eq!(read.length, ContentLength::Lines(3));
    let unread = read_envelope(envelope(false), None, None);
    assert_eq!(unread.length, ContentLength::Bytes(10));
    let composed = composed_envelope(envelope(true), "listing".to_string(), 4);
    assert_eq!(composed.content_digest.as_deref(), Some("listing"));
    assert_eq!(composed.length, ContentLength::Lines(4));
}

fn item(is_root: bool, text: Option<&str>, content_address: Option<Address>) -> WorkItem {
    WorkItem {
        node: if is_root { PlanNode::Root } else { PlanNode::Fragment(0) },
        mimetype: mimetype("text/plain"),
        is_root,
        text: text.map(str::to_string),
        content_address,
        depth: 0,
        reference_hops: 0,
    }
}

#[test]
fn what_a_transform_sees_is_what_its_cache_key_names() {
    assert_eq!(item_digest(&item(true, Some("t"), None), false), Presented::Text);
    assert_eq!(item_digest(&item(true, None, None), true), Presented::Bytes);
    assert_eq!(item_digest(&item(true, None, None), false), Presented::Nothing);
}

#[test]
fn bytes_are_fetched_only_for_a_claimant_that_wants_them() {
    let claims = |claims: bool, wants_bytes: bool| Claimant { claims, wants_bytes };
    assert_eq!(claimants(&vec![claims(false, true), claims(true, false)]), vec![1]);
    let wanting = vec![claims(true, true)];
    let plain = vec![claims(true, false)];
    assert_eq!(bytes_from(&item(true, None, None), &wanting), BytesFrom::SourceRead);
    assert_eq!(
        bytes_from(&item(false, None, Some(address())), &wanting),
        BytesFrom::Reference
    );
    assert_eq!(bytes_from(&item(false, None, Some(address())), &plain), BytesFrom::Nowhere);
    assert_eq!(bytes_from(&item(false, None, None), &wanting), BytesFrom::Nowhere);
    assert!(reference_fits(100, limits()));
    assert!(!reference_fits(101, limits()));
    assert_eq!(reference_hops_left(&item(true, None, None), limits()), 1);
}

#[test]
fn only_the_models_own_output_is_filed() {
    let mut answered = ObservedCalls::new();
    answered.record(true);
    let key = || Some("k".to_string());
    let encoded = || Some("e".to_string());
    assert_eq!(
        filed(key(), Some(answered), encoded()),
        Some(("k".to_string(), "e".to_string()))
    );
    assert_eq!(filed(key(), Some(ObservedCalls::new()), encoded()), None);
    assert_eq!(filed(None, Some(answered), encoded()), None);
    let looked = lookup_cached(
        &vec![key(), Some("other".to_string()), None],
        &vec!["k".to_string()],
    );
    assert!(matches!(&looked[0], CacheLookup::Hit(k) if k == "k"));
    assert!(matches!(&looked[1], CacheLookup::Miss(Some(k)) if k == "other"));
    assert!(matches!(&looked[2], CacheLookup::Miss(None)));
}

#[test]
fn a_report_tallies_what_was_written() {
    let done = planned();
    let written = SubtreeWritten {
        source: 9,
        fragments: vec![20, 21],
        keyed: vec![KeyedFragment::Created(30)],
    };
    let mut report = IndexReport::new();
    report.tally(&done, &written);
    assert_eq!(report.indexed, 1);
    assert_eq!(report.llm_summaries, 1);
    let finished = report.with_vectors(EmbedTotals { embedded: 4, reused: 1 });
    assert_eq!(finished.embedded, 4);
    assert_eq!(finished.embeddings_reused, 1);
    let progress = finished.progress(IndexPhase::Complete);
    assert_eq!(progress.indexed, 1);
    assert_eq!(progress.phase, IndexPhase::Complete);
    let rows = search_rows_of(&done, &written);
    let texts: Vec<&str> = rows.iter().map(|r| r.text.as_str()).collect();
    assert!(texts.contains(&"Dana wrote this"));
    assert!(texts.contains(&"a summary"));
    assert!(rows.iter().any(|r| r.is_summary));
}

#[test]
fn content_is_handed_on_as_it_was_asked_for() {
    let raw = || Some(b"a\xC3\xA9\xFFb".to_vec());
    let both = read_content(raw(), ReadPlan { raw: true, text: true, bytes: true });
    assert_eq!(both.text.as_deref(), Some("aé\u{FFFD}b"), "what is not UTF-8 is replaced");
    assert_eq!(both.bytes, raw());
    let text = read_content(raw(), ReadPlan { raw: true, text: true, bytes: false });
    assert_eq!((text.text.is_some(), text.bytes), (true, None));
    let bytes = read_content(raw(), ReadPlan { raw: true, text: false, bytes: true });
    assert_eq!((bytes.text, bytes.bytes), (None, raw()));
    let none = read_content(None, ReadPlan { raw: false, text: true, bytes: true });
    assert_eq!((none.text, none.bytes), (None, None));
}
