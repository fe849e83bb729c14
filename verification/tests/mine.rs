use inseam_plugins::sweep::vocabulary::candidates::{Candidates, Tally};
use inseam_plugins::sweep::vocabulary::matcher::Matcher;
use inseam_plugins::sweep::vocabulary::mine::{
    is_common_word, is_separator, join_normalized, keyword_phrases, shape_of, tokenize, Lexicon, SeenFilter,
    Shape, Token,
};

fn lexicon() -> Lexicon {
    let stopwords: Vec<String> = ["the", "for", "with", "about", "a", "and", "in", "once", "more"]
        .iter()
        .map(|word| word.to_string())
        .collect();
    Lexicon::new(&stopwords, "expensive\nreflect\nthird\ntime\n")
}

fn spellings(tokens: &[Token]) -> Vec<&str> {
    tokens.iter().map(|t| t.spelling.as_str()).collect()
}

#[test]
fn tokens_keep_identifiers_whole_and_trim_punctuation() {
    let tokens =
        tokenize("Route eu-central-1 (H200) via stream.timebox_finalized; see SUP-100432, v2.3!");
    assert_eq!(
        spellings(&tokens),
        vec![
            "Route",
            "eu-central-1",
            "H200",
            "via",
            "stream.timebox_finalized",
            "see",
            "SUP-100432",
            "v2.3"
        ]
    );
    assert!(tokenize("   ").is_empty());
    assert!(tokenize(&"x".repeat(65)).is_empty());
}

#[test]
fn shapes_follow_the_marks_of_internal_naming() {
    let words = lexicon();
    assert_eq!(shape_of(&words, "SUP-100432"), Shape::Identifier);
    assert_eq!(shape_of(&words, "H200"), Shape::Identifier);
    assert_eq!(shape_of(&words, "stream.timebox_finalized"), Shape::Identifier);
    assert_eq!(shape_of(&words, "eu-central"), Shape::Term);
    assert_eq!(shape_of(&words, "KVCache"), Shape::Term);
    assert_eq!(shape_of(&words, "Redwood"), Shape::Term);
    assert_eq!(shape_of(&words, "the"), Shape::Plain);
    assert_eq!(shape_of(&words, "about"), Shape::Plain);
    assert_eq!(shape_of(&words, "expensive"), Shape::Plain, "everyday English");
    assert_eq!(shape_of(&words, "Reflect"), Shape::Plain);
    assert_eq!(shape_of(&words, "reranking"), Shape::Term, "jargon is not on the list");
    assert_eq!(shape_of(&words, "H100"), Shape::Identifier, "marks never consult the list");
    assert_eq!(shape_of(&words, "2026"), Shape::Plain);
    assert_eq!(shape_of(&words, "ok"), Shape::Plain);
}

#[test]
fn a_function_word_in_capitals_is_still_a_function_word() {
    let words = lexicon();
    assert_eq!(shape_of(&words, "THE"), Shape::Plain);
    assert_eq!(shape_of(&words, "FOR"), Shape::Plain);
    assert_eq!(shape_of(&words, "With"), Shape::Plain);
    assert_eq!(shape_of(&words, "AI"), Shape::Term, "a short acronym still counts");
}

#[test]
fn candidates_count_once_per_source_and_band_by_frequency() {
    let mut candidates = Candidates::new(100, 100, 2, lexicon());
    for _ in 0..3 {
        candidates.begin_source();
        candidates.count(&tokenize("Redwood Redwood rollout eu-central-1"));
    }
    candidates.begin_source();
    candidates.count(&tokenize("Redwood only"));
    let band = candidates.in_band(2, 3);
    let names: Vec<&str> = band.iter().map(|(n, _)| n.as_str()).collect();
    assert_eq!(names, vec!["eu-central-1", "rollout"]);
    assert_eq!(
        candidates.in_band(4, 4)[0],
        (
            "redwood".to_string(),
            Tally {
                shape: Shape::Term,
                spelling: "Redwood".into(),
                documents: 4,
                derived: false
            }
        )
    );
    assert_eq!(candidates.len(), 3, "every recurring token is counted; a singleton is a bit");
}

#[test]
fn capitalization_is_one_candidate_counted_everywhere_it_appears() {
    let mut candidates = Candidates::new(100, 100, 2, lexicon());
    candidates.begin_source();
    candidates.count(&tokenize("FOR THE nov gearbox"));
    candidates.begin_source();
    candidates.count(&tokenize("NOV once more for the gearbox"));
    candidates.begin_source();
    candidates.count(&tokenize("NOV a third time"));
    let band = candidates.in_band(1, 10);
    let names: Vec<&str> = band.iter().map(|(n, _)| n.as_str()).collect();
    assert_eq!(names, vec!["nov", "gearbox"], "{band:?}");
    let nov = band.iter().find(|(n, _)| n == "nov").expect("kept");
    assert_eq!(nov.1.documents, 3, "every casing counts");
    assert_eq!(nov.1.spelling, "NOV", "the marked spelling is shown");
}

#[test]
fn derived_phrases_count_through_matching() {
    let mut candidates = Candidates::new(100, 100, 2, lexicon());
    candidates.propose_phrase("residency stamp");
    candidates.propose_phrase("the");
    candidates.propose_phrase("a b c d e");
    assert_eq!(candidates.len(), 1);
    candidates.begin_source();
    candidates.count_phrases(&tokenize("a stale residency stamp after heartbeat lag"));
    candidates.begin_source();
    candidates.count_phrases(&tokenize("nothing here"));
    assert_eq!(candidates.in_band(1, 1)[0].0, "residency stamp");
}

#[test]
fn the_caps_turn_tokens_away_and_count_them() {
    let mut candidates = Candidates::new(2, 100, 2, lexicon());
    candidates.begin_source();
    candidates.count(&tokenize("alpha bravo charlie delta"));
    candidates.begin_source();
    candidates.count(&tokenize("alpha bravo charlie delta"));
    assert_eq!(candidates.len(), 2);
    assert_eq!(candidates.dropped_at_cap, 2);
    let mut spellings = Candidates::new(100, 1, 2, lexicon());
    for _ in 0..2 {
        spellings.begin_source();
        spellings.count(&tokenize("SUP-1 SUP-2"));
    }
    assert_eq!(spellings.in_band(1, 10).len(), 1);
    assert_eq!(spellings.dropped_at_cap, 1);
}

#[test]
fn the_seen_filter_reports_first_sight_once() {
    let mut filter = SeenFilter::new(1_000);
    assert!(filter.insert(7));
    assert!(!filter.insert(7));
    assert!(filter.insert(8));
    let mut fresh = 0;
    for hash in 100..1_100_u64 {
        if filter.insert(hash.wrapping_mul(0x9E37_79B9_7F4A_7C15)) {
            fresh += 1;
        }
    }
    assert!(fresh >= 950, "under a few percent false positives: {fresh}");
}

#[test]
fn the_matcher_finds_tokens_and_phrases_on_word_boundaries() {
    let rows: Vec<(String, u32)> = vec![
        ("h200".to_string(), 1),
        ("residency stamp".to_string(), 2),
        ("eu-central-1".to_string(), 3),
    ];
    let matcher = Matcher::new(rows);
    let found = matcher.matches(&tokenize(
        "The H2000 and the H200 share a residency stamp in eu-central-1.",
    ));
    assert_eq!(found, vec![1, 2, 3]);
    assert!(matcher.matches(&tokenize("nothing")).is_empty());
    assert!(matcher.matches(&tokenize("residency without the stamp")).is_empty());
    assert!(Matcher::<u32>::new(Vec::new()).matches(&tokenize("H200")).is_empty());
}

#[test]
fn keyword_rows_split_on_commas() {
    let phrases = keyword_phrases("residency stamp, EU tenant,, heartbeat lag\n");
    assert_eq!(phrases, vec!["residency stamp", "EU tenant", "heartbeat lag"]);
}

#[test]
fn tokens_are_lowered_beyond_ascii() {
    let tokens = tokenize("Straße ÉCOLE İx");
    let lowered: Vec<&str> = tokens.iter().map(|t| t.normalized.as_str()).collect();
    assert_eq!(lowered, vec!["straße", "école", "i̇x"]);
    assert_eq!(spellings(&tokens), vec!["Straße", "ÉCOLE", "İx"]);
}

#[test]
fn a_token_of_the_longest_length_stays() {
    let longest = "x".repeat(64);
    assert_eq!(spellings(&tokenize(&longest)), vec![longest.as_str()]);
}

#[test]
fn unicode_spaces_part_tokens_and_marks_are_trimmed() {
    let tokens = tokenize("eins\u{2003}zwei(drei)4「fünf」");
    assert_eq!(spellings(&tokens), vec!["eins", "zwei", "drei", "4", "fünf"]);
}

#[test]
fn normalized_tokens_join_with_single_spaces() {
    assert_eq!(join_normalized(&tokenize("  Residency,  STAMP ")), "residency stamp");
    assert_eq!(join_normalized(&[]), "");
}

#[test]
fn common_words_are_the_listed_lines() {
    let words = lexicon();
    assert!(is_common_word(&words, "expensive"));
    assert!(!is_common_word(&words, "reranking"));
    assert!(words.is_stopword("the"));
    assert!(!words.is_stopword("redwood"));
}

#[test]
fn a_longer_phrase_and_its_parts_all_match_once() {
    let matcher = Matcher::new(vec![
        ("residency".to_string(), 1u32),
        ("residency stamp".to_string(), 2),
    ]);
    let found = matcher.matches(&tokenize("residency stamp, residency stamp"));
    assert_eq!(found.len(), 2);
    assert!(found.contains(&1) && found.contains(&2));
}

#[test]
fn an_empty_matcher_says_so() {
    assert!(Matcher::<u32>::new(Vec::new()).is_empty());
    assert!(!Matcher::new(vec![("x".to_string(), 1u32)]).is_empty());
}

#[test]
fn any_mark_outside_the_inner_ones_parts_tokens() {
    assert_eq!(spellings(&tokenize("foo—bar")), vec!["foo", "bar"]);
    assert_eq!(spellings(&tokenize("a…b“c”d")), vec!["a", "b", "c", "d"]);
    assert_eq!(
        spellings(&tokenize("eu-central-1 stream.timebox_finalized v2.3.1 a/b it's")),
        vec!["eu-central-1", "stream.timebox_finalized", "v2.3.1", "a/b", "it's"]
    );
    assert!(is_separator('—') && is_separator(',') && is_separator('…'));
    assert!(!is_separator('-') && !is_separator('x') && !is_separator('\''));
}

#[test]
fn a_row_shows_the_spelling_first_seen_with_a_mark() {
    let mut candidates = Candidates::new(100, 100, 3, lexicon());
    for text in ["nov", "NOV", "nov"] {
        candidates.begin_source();
        candidates.count(&tokenize(text));
    }
    let band = candidates.in_band(1, 10);
    assert_eq!(
        band,
        vec![(
            "nov".to_string(),
            Tally { shape: Shape::Term, spelling: "NOV".into(), documents: 3, derived: false }
        )]
    );
    candidates.begin_source();
    candidates.count(&tokenize("Nov"));
    assert_eq!(candidates.in_band(4, 4)[0].1.spelling, "NOV", "the first one stays");
}

#[test]
fn a_phrase_counts_once_per_source() {
    let mut candidates = Candidates::new(100, 100, 2, lexicon());
    candidates.propose_phrase("residency stamp");
    candidates.begin_source();
    candidates.count_phrases(&tokenize("a residency stamp"));
    candidates.count_phrases(&tokenize("the residency stamp again"));
    assert_eq!(
        candidates.in_band(1, 9),
        vec![(
            "residency stamp".to_string(),
            Tally {
                shape: Shape::Term,
                spelling: "residency stamp".into(),
                documents: 1,
                derived: true
            }
        )]
    );
    candidates.begin_source();
    candidates.count_phrases(&tokenize("one more residency stamp"));
    assert_eq!(candidates.in_band(1, 9)[0].1.documents, 2);
}

#[test]
fn a_band_names_nothing_twice_and_splits_at_any_count() {
    let mut candidates = Candidates::new(100, 100, 2, lexicon());
    candidates.propose_phrase("Redwood rollout");
    for text in ["Redwood SUP-1 NOV", "REDWOOD SUP-1 nov", "redwood rollout NOV", "Redwood"] {
        candidates.begin_source();
        candidates.count(&tokenize(text));
        candidates.count_phrases(&tokenize(text));
    }
    let whole = candidates.in_band(1, 9);
    for (at, (name, _)) in whole.iter().enumerate() {
        assert!(whole[at + 1..].iter().all(|(other, _)| other != name), "{name} stands twice");
    }
    for pair in whole.windows(2) {
        let more = pair[0].1.documents > pair[1].1.documents;
        assert!(more || pair[0].1.documents == pair[1].1.documents && pair[0].0 < pair[1].0);
    }
    for at in 1..9 {
        let mut parts = candidates.in_band(at + 1, 9);
        parts.extend(candidates.in_band(1, at));
        assert_eq!(parts, whole);
    }
    assert_eq!(candidates.dropped_at_cap(), candidates.dropped_at_cap);
}

#[test]
fn a_run_leaves_the_words_that_recur_with_a_mark() {
    let mut candidates = Candidates::new(100, 100, 2, lexicon());
    for text in ["NOV gearbox SUP-1", "nov gearbox once", "42 nov SUP-1 sup-1", "AI"] {
        candidates.begin_source();
        candidates.count(&tokenize(text));
    }
    let named: Vec<(String, u32)> = candidates
        .in_band(1, 10)
        .into_iter()
        .map(|(name, tally)| (name, tally.documents))
        .collect();
    // `nov` has its mark only where it first stood; `42` has no letter; the
    // others stand in one source.
    assert_eq!(named, vec![("gearbox".to_string(), 2), ("sup-1".to_string(), 2)]);
}

#[test]
fn a_text_joined_at_a_break_has_the_tokens_of_both_parts() {
    for mark in [' ', '\u{2003}', '\n', '—', ',', '('] {
        let (a, b) = ("Route eu-central-1 -", "'H200 v2.3.1");
        let joined = tokenize(&format!("{a}{mark}{b}"));
        let mut parts = tokenize(a);
        parts.extend(tokenize(b));
        assert_eq!(joined, parts, "{mark:?}");
    }
    for token in tokenize("Route eu-central-1 (H200) it's") {
        assert_eq!(tokenize(&token.spelling), vec![token]);
    }
}

#[test]
fn a_token_made_by_hand_counts_under_its_normalized_spelling() {
    let by_hand = Token { normalized: "alpha".into(), spelling: "Bravo-1".into() };
    let mut candidates = Candidates::new(100, 100, 2, lexicon());
    for _ in 0..2 {
        candidates.begin_source();
        candidates.count(&[by_hand.clone()]);
    }
    let band = candidates.in_band(1, 9);
    assert_eq!(
        band,
        vec![(
            "bravo-1".to_string(),
            Tally {
                shape: Shape::Identifier,
                spelling: "Bravo-1".into(),
                documents: 2,
                derived: false
            }
        )]
    );
    let spaced = Token { normalized: "residency stamp".into(), spelling: "Residency Stamp".into() };
    candidates.propose_phrase("residency stamp");
    for _ in 0..2 {
        candidates.begin_source();
        candidates.count(&[spaced.clone()]);
        candidates.count_phrases(&tokenize("a residency stamp"));
    }
    let names: Vec<String> = candidates.in_band(2, 2).into_iter().map(|(name, _)| name).collect();
    assert_eq!(names, vec!["bravo-1", "residency stamp", "residency stamp"]);
}
