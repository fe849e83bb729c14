use inseam_plugins::seam::Address;
use inseam_plugins::sweep::plan::Sprout;
use inseam_plugins::sweep::source::{Extent, Mimetype};
use inseam_plugins::transforms::chunker;
use inseam_plugins::transforms::chunker::{
    chunk, chunk_with_target, ChunkerConfig, ChunkerFactory, ChunkerPlugin,
};
use inseam_plugins::transforms::directory;
use inseam_plugins::transforms::directory::{
    entry_sprouts, DirectoryConfig, DirectoryFactory, DirectoryPlugin, ListingEntry,
};

fn mimetype(essence: &str) -> Mimetype {
    Mimetype {
        essence: essence.to_string(),
        inseam_defined: false,
        summary: false,
        directory: false,
        via: None,
    }
}

fn directory_type() -> Mimetype {
    Mimetype { directory: true, ..mimetype("inode/directory") }
}

fn entry_type() -> Mimetype {
    Mimetype { inseam_defined: true, ..mimetype("text/x-inseam-directory-entry") }
}

fn extents(sprouts: &[Sprout]) -> Vec<(u64, u64)> {
    sprouts
        .iter()
        .map(|s| match s.fragment.extent {
            Some(Extent::Lines { start, end }) => (start, end),
            other => panic!("chunk without line extent: {other:?}"),
        })
        .collect()
}

#[test]
fn small_text_is_one_chunk() {
    let out = chunk(&mimetype("text/plain"), "one line\nand another\n");
    assert_eq!(out.len(), 1);
    assert_eq!(extents(&out), vec![(1, 2)]);
    assert_eq!(out[0].fragment.text.as_deref(), Some("one line\nand another"));
}

#[test]
fn splits_at_paragraph_boundaries_past_target() {
    let para = "words ".repeat(30); // ~180 chars
    let text = format!("{para}\n\n{para}\n\n{para}\n");
    let out = chunk_with_target(&mimetype("text/plain"), &text, 200);
    assert!(out.len() >= 2, "got {} chunks", out.len());
    // Chunks are ordered and non-overlapping.
    let ex = extents(&out);
    for pair in ex.windows(2) {
        assert!(pair[0].1 < pair[1].0);
    }
}

#[test]
fn hard_breaks_giant_paragraphs() {
    let line = "x".repeat(80);
    let text = format!("{}\n", vec![line; 30].join("\n")); // one 2400-char paragraph
    let out = chunk_with_target(&mimetype("text/plain"), &text, 500);
    assert!(out.len() >= 2);
}

#[test]
fn keeps_parent_mimetype() {
    let m = mimetype("text/x-rust");
    let out = chunk(&m, "fn main() {}\n");
    assert_eq!(out[0].fragment.mimetype, m);
}

#[test]
fn blank_only_text_yields_nothing() {
    assert!(chunk(&mimetype("text/plain"), "\n\n  \n").is_empty());
}

#[test]
fn every_line_of_text_stands_in_one_chunk() {
    let text = "first\n\nsecond\nthird\n\n\nfourth é\n";
    let out = chunk_with_target(&mimetype("text/plain"), text, 6);
    let lines: Vec<&str> = text.lines().collect();
    for (number, line) in lines.iter().enumerate() {
        let at = number as u64 + 1;
        let holding = extents(&out).iter().filter(|(start, end)| *start <= at && at <= *end).count();
        if line.trim().is_empty() {
            assert!(holding <= 1);
        } else {
            assert_eq!(holding, 1, "line {at}");
        }
    }
    for (sprout, (start, end)) in out.iter().zip(extents(&out)) {
        let held = lines[start as usize - 1..end as usize].join("\n");
        assert_eq!(sprout.fragment.text.as_deref(), Some(held.as_str()));
    }
}

#[test]
fn the_chunker_claims_plain_text_roots() {
    let plain = mimetype("text/plain");
    assert!(chunker::claims(&plain, true, false, true));
    assert!(!chunker::claims(&plain, false, false, true));
    assert!(!chunker::claims(&plain, true, true, true), "markdown has its own transform");
    assert!(!chunker::claims(&plain, true, false, false));
    assert!(!chunker::claims(&entry_type(), true, false, true));
    assert_eq!(ChunkerFactory.name(), "transform-chunker");
    let plugin = ChunkerPlugin { config: ChunkerConfig::default() };
    let other = ChunkerPlugin { config: ChunkerConfig { target_chars: 10 } };
    assert_ne!(plugin.shape_fingerprint(), other.shape_fingerprint());
    assert!(plugin.shape_fingerprint().contains("1600"));
}

#[test]
fn claims_directory_roots_only() {
    assert!(directory::claims(&directory_type(), true));
    assert!(!directory::claims(&directory_type(), false));
    assert!(!directory::claims(&mimetype("text/markdown"), true));
    assert!(!directory::claims(&entry_type(), true));
}

fn folder() -> Address {
    Address { host: "fs-test".to_string(), locator: "Users/greg/notes".to_string() }
}

fn listed(name: &str, shown: &str, addressable: bool) -> ListingEntry {
    ListingEntry { name: name.to_string(), shown: shown.to_string(), addressable }
}

#[test]
fn plants_one_referencing_entry_per_listed_child() {
    let entries = vec![
        listed("photos", "photos (inode/directory)", true),
        listed("reno.md", "reno.md (text/markdown)", true),
    ];
    let out = entry_sprouts(&folder(), &entry_type(), &entries, 100);
    assert_eq!(out.len(), 2);
    let entry = &out[1];
    assert_eq!(entry.relation, "contains");
    assert_eq!(entry.fragment.mimetype, entry_type());
    assert_eq!(entry.fragment.text.as_deref(), Some("reno.md (text/markdown)"));
    assert_eq!(
        entry.fragment.content_address.as_ref().map(|a| a.full()).as_deref(),
        Some("inseam://fs-test/Users/greg/notes/reno.md")
    );
    assert_eq!(entry.fragment.extent, Some(Extent::Lines { start: 3, end: 3 }));
}

#[test]
fn withheld_or_unlisting_text_plants_nothing() {
    assert!(entry_sprouts(&folder(), &entry_type(), &Vec::new(), 100).is_empty());
}

#[test]
fn a_name_the_address_grammar_refuses_plants_nothing() {
    let entries = vec![listed("bad\u{0}name", "x", false), listed("good", "good", true)];
    let out = entry_sprouts(&folder(), &entry_type(), &entries, 100);
    assert_eq!(extents(&out), vec![(3, 3)]);
    assert!(entry_sprouts(&folder(), &entry_type(), &entries, 1).is_empty());
    assert_eq!(DirectoryFactory.name(), "transform-directory");
    let plugin = DirectoryPlugin { config: DirectoryConfig {} };
    assert!(!plugin.shape_fingerprint().is_empty());
}

#[test]
fn a_chunk_is_measured_in_characters() {
    let out = chunk_with_target(&mimetype("text/plain"), "éé\n\nb", 5);
    assert_eq!(extents(&out), vec![(1, 3)]);
    assert_eq!(out[0].fragment.text.as_deref(), Some("éé\n\nb"));
    let ascii = chunk_with_target(&mimetype("text/plain"), "eeee\n\nb", 5);
    assert_eq!(extents(&ascii), vec![(1, 1), (3, 3)]);
}
