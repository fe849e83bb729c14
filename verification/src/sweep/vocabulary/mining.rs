//! The mining walk: derived keyword rows propose phrases, content fragments
//! are counted once per source.

use vstd::prelude::*;
use super::candidates::{Candidates, Table};
use super::config::VocabularyConfig;
use super::mine::{keyword_phrases, tokenize, Lexicon};

verus! {

/// A content fragment as the walk reads it.
#[derive(Debug, PartialEq, Eq)]
pub struct ContentText {
    pub fragment: i64,
    pub source: i64,
    pub text: String,
}

/// What a content fragment says.
pub struct ContentView {
    pub source: i64,
    pub text: Seq<char>,
}

impl View for ContentText {
    type V = ContentView;

    open spec fn view(&self) -> ContentView {
        ContentView { source: self.source, text: self.text@ }
    }
}

/// The texts of a page.
pub open spec fn page_views(page: Seq<ContentText>) -> Seq<ContentView> {
    Seq::new(page.len(), |i: int| page[i]@)
}

/// The mining walk so far.
pub struct Mining {
    candidates: Candidates,
    current: Option<i64>,
    sources_walked: usize,
}

/// What the mining walk holds.
pub struct MiningView {
    pub table: Table,
    /// The source whose fragments are being read.
    pub current: Option<i64>,
    pub sources_walked: nat,
}

impl MiningView {
    /// The walk once it stands in `source`: a source it did not stand in
    /// counts its tokens anew.
    pub open spec fn in_source(self, source: i64) -> MiningView {
        if self.current == Some(source) {
            self
        } else {
            MiningView {
                table: self.table.begun(),
                current: Some(source),
                sources_walked: self.sources_walked + 1,
            }
        }
    }

    /// The walk once a fragment was read: its tokens counted, then the
    /// phrases they spell.
    pub open spec fn with_text(self, fragment: ContentView) -> MiningView {
        let here = self.in_source(fragment.source);
        let tokens = super::mine::tokens_of(fragment.text);
        MiningView { table: here.table.with_tokens(tokens).with_phrase_matches(tokens), ..here }
    }

    /// The walk once a page of fragments was read.
    pub open spec fn with_texts(self, page: Seq<ContentView>) -> MiningView
        decreases page.len(),
    {
        if page.len() == 0 {
            self
        } else {
            self.with_texts(page.drop_last()).with_text(page.last())
        }
    }
}

/// The table once a list of phrases was proposed.
pub open spec fn with_phrases(table: Table, phrases: Seq<Seq<char>>) -> Table
    decreases phrases.len(),
{
    if phrases.len() == 0 {
        table
    } else {
        with_phrases(table, phrases.drop_last()).with_phrase(phrases.last())
    }
}

/// The phrases of a keywords row.
pub open spec fn phrases_of(row: Seq<char>) -> Seq<Seq<char>> {
    super::mine::phrases_among(
        crate::text::pieces(row, |c: char| super::mine::keyword_break(c)),
    )
}

/// The table once a page of keywords rows was read.
pub open spec fn with_keyword_rows(table: Table, rows: Seq<Seq<char>>) -> Table
    decreases rows.len(),
{
    if rows.len() == 0 {
        table
    } else {
        with_phrases(with_keyword_rows(table, rows.drop_last()), phrases_of(rows.last()))
    }
}

impl View for Mining {
    type V = MiningView;

    closed spec fn view(&self) -> MiningView {
        MiningView {
            table: self.candidates@,
            current: self.current,
            sources_walked: self.sources_walked as nat,
        }
    }
}

impl Mining {
    /// The candidate table is well formed, its rows well named.
    pub closed spec fn wf(&self) -> bool {
        self.candidates.wf() && self.candidates@.well_named()
    }

    /// A walk that has read nothing, under the pass's bounds.
    pub fn new(config: &VocabularyConfig, lexicon: Lexicon) -> (r: Self)
        requires
            config.term_df_min >= 1,
        ensures
            r.wf(),
            r@.current is None,
            r@.sources_walked == 0,
            r@.table == (Table {
                stopwords: lexicon.stopwords(),
                common: lexicon.common(),
                seen: Set::empty(),
                seen_bits: super::mine::filter_bits(super::mine::SEEN_TOKENS_CAPACITY) as u64,
                counts: Map::empty(),
                marked: Map::empty(),
                spellings: Map::empty(),
                phrases: Map::empty(),
                counts_max: config.recurring_tokens_max as nat,
                spellings_max: config.candidates_max as nat,
                df_min: config.term_df_min,
                in_source: Set::empty(),
                phrases_in_source: Set::empty(),
                dropped: 0,
            }),
    {
        Mining {
            candidates: Candidates::new(
                config.recurring_tokens_max as usize,
                config.candidates_max as usize,
                config.term_df_min,
                lexicon,
            ),
            current: None,
            sources_walked: 0,
        }
    }

    fn propose_all(&mut self, phrases: &Vec<String>)
        requires
            old(self).wf(),
        ensures
            final(self).wf(),
            final(self)@ == (MiningView {
                table: with_phrases(old(self)@.table, crate::text::views(phrases@)),
                ..old(self)@
            }),
    {
        let ghost views = crate::text::views(phrases@);
        let mut i: usize = 0;
        proof {
            assert(views.take(0) =~= Seq::empty());
        }
        while i < phrases.len()
            invariant
                i <= phrases@.len(),
                views == crate::text::views(phrases@),
                self.wf(),
                self@ == (MiningView {
                    table: with_phrases(old(self)@.table, views.take(i as int)),
                    ..old(self)@
                }),
            decreases phrases.len() - i,
        {
            proof {
                assert(views.take(i as int + 1).drop_last() =~= views.take(i as int));
                assert(views.take(i as int + 1).last() == phrases@[i as int]@);
            }
            self.candidates.propose_phrase(phrases[i].as_str());
            i = i + 1;
        }
        proof {
            assert(views.take(phrases@.len() as int) =~= views);
        }
    }

    /// Read a page of derived keywords rows for phrase candidates.
    pub fn read_keywords(&mut self, rows: &Vec<String>)
        requires
            old(self).wf(),
        ensures
            final(self).wf(),
            final(self)@ == (MiningView {
                table: with_keyword_rows(old(self)@.table, crate::text::views(rows@)),
                ..old(self)@
            }),
    {
        let ghost views = crate::text::views(rows@);
        let mut i: usize = 0;
        proof {
            assert(views.take(0) =~= Seq::empty());
        }
        while i < rows.len()
            invariant
                i <= rows@.len(),
                views == crate::text::views(rows@),
                self.wf(),
                self@ == (MiningView {
                    table: with_keyword_rows(old(self)@.table, views.take(i as int)),
                    ..old(self)@
                }),
            decreases rows.len() - i,
        {
            proof {
                assert(views.take(i as int + 1).drop_last() =~= views.take(i as int));
                assert(views.take(i as int + 1).last() == rows@[i as int]@);
            }
            let phrases = keyword_phrases(rows[i].as_str());
            self.propose_all(&phrases);
            i = i + 1;
        }
        proof {
            assert(views.take(rows@.len() as int) =~= views);
        }
    }

    fn read_text(&mut self, fragment: &ContentText)
        requires
            old(self).wf(),
            old(self)@.sources_walked < usize::MAX,
        ensures
            final(self).wf(),
            final(self)@ == old(self)@.with_text(fragment@),
            final(self)@.sources_walked <= old(self)@.sources_walked + 1,
    {
        let here = match self.current {
            Some(source) => source == fragment.source,
            None => false,
        };
        if !here {
            self.current = Some(fragment.source);
            self.sources_walked = self.sources_walked + 1;
            self.candidates.begin_source();
        }
        let tokens = tokenize(fragment.text.as_str());
        self.candidates.count(tokens.as_slice());
        self.candidates.count_phrases(tokens.as_slice());
    }

    /// Read a page of content fragments. A source's fragments follow one
    /// another, so a fragment of another source begins a new one.
    pub fn read_texts(&mut self, page: &Vec<ContentText>)
        requires
            old(self).wf(),
            old(self)@.sources_walked + page@.len() <= usize::MAX,
        ensures
            final(self).wf(),
            final(self)@ == old(self)@.with_texts(page_views(page@)),
            final(self)@.sources_walked <= old(self)@.sources_walked + page@.len(),
    {
        let ghost views = page_views(page@);
        let mut i: usize = 0;
        proof {
            assert(views.take(0) =~= Seq::empty());
        }
        while i < page.len()
            invariant
                i <= page@.len(),
                views == page_views(page@),
                self.wf(),
                self@ == old(self)@.with_texts(views.take(i as int)),
                self@.sources_walked <= old(self)@.sources_walked + i,
                old(self)@.sources_walked + page@.len() <= usize::MAX,
            decreases page.len() - i,
        {
            proof {
                assert(views.take(i as int + 1).drop_last() =~= views.take(i as int));
                assert(views.take(i as int + 1).last() == page@[i as int]@);
            }
            self.read_text(&page[i]);
            i = i + 1;
        }
        proof {
            assert(views.take(page@.len() as int) =~= views);
        }
    }

    /// Sources whose fragments were read.
    pub fn sources_walked(&self) -> (r: usize)
        ensures
            r == self@.sources_walked,
    {
        self.sources_walked
    }

    /// The candidates counted.
    pub fn into_candidates(self) -> (r: Candidates)
        requires
            self.wf(),
        ensures
            r.wf(),
            r@ == self@.table,
            r@.well_named(),
    {
        self.candidates
    }
}

/// Page boundaries do not matter: fragments read in one page or in two
/// leave the same walk.
pub proof fn law_pages_do_not_matter(
    mining: MiningView,
    first: Seq<ContentView>,
    second: Seq<ContentView>,
)
    ensures
        mining.with_texts(first + second) == mining.with_texts(first).with_texts(second),
    decreases second.len(),
{
    if second.len() == 0 {
        assert(first + second =~= first);
    } else {
        law_pages_do_not_matter(mining, first, second.drop_last());
        assert((first + second).drop_last() =~= first + second.drop_last());
        assert((first + second).last() == second.last());
    }
}

/// Why a pass need not run, if so: nothing changed, the pass has run
/// before, and it ran under the dials of now.
pub fn skip_reason(
    changed: bool,
    generation: u64,
    recorded: &Option<String>,
    config: &VocabularyConfig,
) -> (r: Option<String>)
    ensures
        r is Some <==> !changed && generation > 0 && (recorded matches Some(digest) && digest@
            == config.digest_view()),
        r matches Some(reason) ==> reason@ == "unchanged"@,
{
    if changed || generation == 0 {
        return None;
    }
    match recorded {
        Some(digest) => {
            if crate::text::same(digest.as_str(), config.digest().as_str()) {
                Some("unchanged".to_owned())
            } else {
                None
            }
        },
        None => None,
    }
}

/// Whole milliseconds, up to the most that can be counted.
pub fn millis(elapsed_ms: u128) -> (r: u64)
    ensures
        r == if elapsed_ms > u64::MAX {
            u64::MAX as int
        } else {
            elapsed_ms as int
        },
{
    if elapsed_ms > u64::MAX as u128 {
        u64::MAX
    } else {
        elapsed_ms as u64
    }
}


/// Keyword rows are read one after the other, phrase by phrase: two pages of
/// them leave the table that one page of both leaves, and so do two lists of
/// phrases.
pub proof fn law_keyword_pages_do_not_matter(
    table: Table,
    first: Seq<Seq<char>>,
    second: Seq<Seq<char>>,
)
    ensures
        with_keyword_rows(table, first + second) == with_keyword_rows(
            with_keyword_rows(table, first),
            second,
        ),
        with_phrases(table, first + second) == with_phrases(with_phrases(table, first), second),
    decreases second.len(),
{
    if second.len() == 0 {
        assert(first + second =~= first);
    } else {
        law_keyword_pages_do_not_matter(table, first, second.drop_last());
        assert((first + second).drop_last() =~= first + second.drop_last());
        assert((first + second).last() == second.last());
    }
}

/// A source is walked once however many of its fragments follow one another:
/// a fragment of the source the walk stands in starts nothing anew, and one
/// of another source starts the source's own counts from nothing and no
/// others.
pub proof fn law_a_source_is_walked_once(mining: MiningView, fragment: ContentView)
    ensures
        ({
            let after = mining.with_text(fragment);
            &&& after.current == Some(fragment.source)
            &&& after.in_source(fragment.source) == after
            &&& mining.current == Some(fragment.source) ==> after.sources_walked
                == mining.sources_walked && mining.in_source(fragment.source) == mining
            &&& mining.current != Some(fragment.source) ==> after.sources_walked
                == mining.sources_walked + 1 && mining.in_source(
                fragment.source,
            ).table.in_source.is_empty() && mining.in_source(
                fragment.source,
            ).table.phrases_in_source.is_empty()
            &&& mining.in_source(fragment.source).table.counts == mining.table.counts
            &&& mining.in_source(fragment.source).table.spellings == mining.table.spellings
            &&& mining.in_source(fragment.source).table.phrases == mining.table.phrases
        }),
{
    if mining.current != Some(fragment.source) {
        assert(mining.in_source(fragment.source).table.in_source =~= Set::empty());
        assert(mining.in_source(fragment.source).table.phrases_in_source =~= Set::empty());
    }
}
} // verus!
