//! The bounded candidate table: which tokens recur, how often, and under
//! which spelling.

use std::collections::{HashMap, HashSet};
use std::hash::{DefaultHasher, Hasher};
use vstd::prelude::*;
use vstd::hash_map::StringHashMap;
use vstd::std_specs::hash::DefaultHasherAdditionalSpecFns;
use crate::order::{sorted, Ranked};
use crate::text;
use super::mine::{
    join_normalized, shape_of, tokenize, Lexicon, SeenFilter, Shape, Token, TokenView,
    PHRASE_TOKENS_MAX, SEEN_TOKENS_CAPACITY,
};

verus! {

/// One candidate's tally across the texts walked so far.
#[derive(Debug, Clone, PartialEq, Eq)]
pub struct Tally {
    pub shape: Shape,
    /// The spelling first seen with a shape mark: what the row will show.
    pub spelling: String,
    pub documents: u32,
    /// Whether this candidate was proposed by derived text (a keyword
    /// phrase) rather than mined from a token.
    pub derived: bool,
}

/// What a tally says.
pub struct TallyView {
    pub shape: Shape,
    pub spelling: Seq<char>,
    pub documents: u32,
    pub derived: bool,
}

impl View for Tally {
    type V = TallyView;

    open spec fn view(&self) -> TallyView {
        TallyView {
            shape: self.shape,
            spelling: self.spelling@,
            documents: self.documents,
            derived: self.derived,
        }
    }
}

impl Tally {
    fn copy(&self) -> (r: Tally)
        ensures
            r == *self,
    {
        Tally {
            shape: self.shape,
            spelling: self.spelling.clone(),
            documents: self.documents,
            derived: self.derived,
        }
    }
}

/// A recurring token's count and the best shape any of its spellings had.
#[derive(Debug, Clone, Copy, PartialEq, Eq, Structural)]
pub struct Counted {
    pub documents: u32,
    pub shape: Shape,
}

/// A phrase proposed by derived text, under its normalized spelling.
struct Phrase {
    normalized: String,
    tally: Tally,
}

/// The bounded candidate table. Every token with a letter is counted by
/// the hash of its normalized spelling (a bit in the seen-filter on first
/// sight, a count from the second) and the spelling itself is kept only
/// once a token has recurred with a shape mark, up to `spellings_max` of
/// them; until then the first spelling with a mark is remembered beside the
/// count. Derived phrases enter the spelling table directly and are counted
/// by [`Self::count_phrases`].
pub struct Candidates {
    lexicon: Lexicon,
    seen: SeenFilter,
    counts: HashMap<u64, Counted>,
    spellings: HashMap<u64, Tally>,
    phrases: Vec<Phrase>,
    phrase_slots: StringHashMap<usize>,
    /// The spelling a recurring token was first seen with a shape mark in.
    marked: HashMap<u64, String>,
    counts_max: usize,
    spellings_max: usize,
    df_min: u32,
    /// The source whose tokens are being counted; a token counts once per
    /// source.
    seen_in_source: HashSet<u64>,
    /// The slots of the phrases already counted for that source.
    phrases_in_source: HashSet<usize>,
    /// Tokens or spellings a full table turned away.
    pub dropped_at_cap: u64,
}

/// What a candidate table holds.
pub struct Table {
    pub stopwords: Set<Seq<char>>,
    pub common: Set<Seq<char>>,
    pub seen: Set<u64>,
    pub seen_bits: u64,
    pub counts: Map<u64, Counted>,
    /// The first spelling with a shape mark a recurring token was counted
    /// in.
    pub marked: Map<u64, Seq<char>>,
    pub spellings: Map<u64, TallyView>,
    pub phrases: Map<Seq<char>, TallyView>,
    pub counts_max: nat,
    pub spellings_max: nat,
    pub df_min: u32,
    /// The tokens the current source was counted for.
    pub in_source: Set<u64>,
    /// The phrases the current source was counted for.
    pub phrases_in_source: Set<Seq<char>>,
    pub dropped: u64,
}

/// The hash a token is counted by: std's default hasher over the UTF-8
/// bytes of its normalized spelling.
pub open spec fn token_hash(normalized: Seq<char>) -> u64 {
    DefaultHasher::spec_finish(seq![vstd::utf8::encode_utf8(normalized)])
}

/// One more, up to the largest count there is.
pub open spec fn one_more(n: u32) -> u32 {
    if n == u32::MAX {
        n
    } else {
        (n + 1) as u32
    }
}

impl Table {
    /// The shape of a spelling under the table's word lists.
    pub open spec fn shape(self, spelling: Seq<char>) -> Shape {
        super::mine::shape_among(self.stopwords, self.common, spelling)
    }

    /// Whether the tables are within their bounds, and every kept spelling
    /// is that of a recurring token.
    pub open spec fn within_bounds(self) -> bool {
        &&& self.counts.dom().finite()
        &&& self.spellings.dom().finite()
        &&& self.phrases.dom().finite()
        &&& self.counts.len() <= self.counts_max
        &&& self.spellings.len() + self.phrases.len() <= self.spellings_max
        &&& self.spellings.dom().subset_of(self.counts.dom())
    }

    /// Whether the table that keeps spellings is full.
    pub open spec fn spellings_full(self) -> bool {
        self.spellings.len() + self.phrases.len() >= self.spellings_max
    }

    /// The table with one more token or spelling turned away.
    pub open spec fn with_drop(self) -> Table {
        Table {
            dropped: if self.dropped == u64::MAX {
                self.dropped
            } else {
                (self.dropped + 1) as u64
            },
            ..self
        }
    }

    /// Every row's spelling has a shape mark, and so has every spelling
    /// remembered for a row; only recurring tokens have one.
    pub open spec fn rows_marked(self) -> bool {
        &&& forall|hash: u64| #[trigger]
            self.spellings.contains_key(hash) ==> self.shape(self.spellings[hash].spelling)
                != Shape::Plain
        &&& forall|hash: u64| #[trigger]
            self.marked.contains_key(hash) ==> self.shape(self.marked[hash]) != Shape::Plain
        &&& self.marked.dom().subset_of(self.counts.dom())
    }

    /// Every row stands under the hash of its name, the lowercase of its
    /// spelling, and its spelling is a token's; so with every spelling
    /// remembered for a row. It holds of a table that has counted only
    /// tokens as the tokenizer makes them.
    pub open spec fn well_named(self) -> bool {
        &&& forall|hash: u64| #[trigger]
            self.spellings.contains_key(hash) ==> names(self.spellings[hash].spelling, hash)
        &&& forall|hash: u64| #[trigger]
            self.marked.contains_key(hash) ==> names(self.marked[hash], hash)
    }

    /// The table when a source begins: nothing of it has counted yet.
    pub open spec fn begun(self) -> Table {
        Table { in_source: Set::empty(), phrases_in_source: Set::empty(), ..self }
    }

    /// The table once a recurring token was met in a spelling: the first
    /// one with a shape mark is remembered.
    pub open spec fn with_mark(self, hash: u64, shape: Shape, spelling: Seq<char>) -> Table {
        if shape == Shape::Plain || self.marked.contains_key(hash) {
            self
        } else {
            Table { marked: self.marked.insert(hash, spelling), ..self }
        }
    }

    /// The table once a counted token's row was considered: kept from
    /// `df_min` documents on and with a shape mark, unless the table is
    /// full; a row shows the spelling first seen with a mark.
    pub open spec fn with_spelling(self, hash: u64, counted: Counted) -> Table {
        if !self.marked.contains_key(hash) || counted.documents < self.df_min {
            self
        } else if self.spellings.contains_key(hash) {
            Table {
                spellings: self.spellings.insert(
                    hash,
                    TallyView {
                        shape: counted.shape,
                        documents: counted.documents,
                        ..self.spellings[hash]
                    },
                ),
                ..self
            }
        } else if self.spellings_full() {
            self.with_drop()
        } else {
            Table {
                spellings: self.spellings.insert(
                    hash,
                    TallyView {
                        shape: counted.shape,
                        spelling: self.marked[hash],
                        documents: counted.documents,
                        derived: false,
                    },
                ),
                ..self
            }
        }
    }

    /// The table once a token was counted for a source: first sight sets a
    /// bit, the second starts a count at two, later ones add to it.
    pub open spec fn with_one(self, hash: u64, shape: Shape, spelling: Seq<char>) -> Table {
        if self.counts.contains_key(hash) {
            let held = self.counts[hash];
            let counted = Counted {
                documents: one_more(held.documents),
                shape: held.shape.stronger(shape),
            };
            Table { counts: self.counts.insert(hash, counted), ..self }.with_mark(
                hash,
                shape,
                spelling,
            ).with_spelling(hash, counted)
        } else {
            let sighted = Table {
                seen: self.seen.union(super::mine::probes(hash, self.seen_bits)),
                ..self
            };
            if super::mine::is_first_sight(self.seen, hash, self.seen_bits) {
                sighted
            } else if self.counts.len() >= self.counts_max {
                sighted.with_drop()
            } else {
                let counted = Counted { documents: 2, shape };
                Table { counts: self.counts.insert(hash, counted), ..sighted }.with_mark(
                    hash,
                    shape,
                    spelling,
                ).with_spelling(hash, counted)
            }
        }
    }

    /// The table once a token of the current source was read: a token
    /// without a letter, or one the source already had, changes nothing.
    pub open spec fn with_token(self, token: TokenView) -> Table {
        let hash = token_hash(token.normalized);
        if !super::mine::has_letter(token.spelling) || self.in_source.contains(hash) {
            self
        } else {
            Table { in_source: self.in_source.insert(hash), ..self }.with_one(
                hash,
                self.shape(token.spelling),
                token.spelling,
            )
        }
    }

    /// The table once a run of tokens of the current source was read.
    pub open spec fn with_tokens(self, tokens: Seq<TokenView>) -> Table
        decreases tokens.len(),
    {
        if tokens.len() == 0 {
            self
        } else {
            self.with_tokens(tokens.drop_last()).with_token(tokens.last())
        }
    }

    /// The table once a phrase was proposed: two to [`PHRASE_TOKENS_MAX`]
    /// tokens, one of them with a shape mark, registered once and at zero
    /// documents while there is room.
    pub open spec fn with_phrase(self, phrase: Seq<char>) -> Table {
        let tokens = super::mine::tokens_of(phrase);
        if tokens.len() < 2 || tokens.len() > PHRASE_TOKENS_MAX {
            self
        } else if forall|i: int|
            0 <= i < tokens.len() ==> self.shape((#[trigger] tokens[i]).spelling) == Shape::Plain {
            self
        } else if self.spellings_full() {
            self.with_drop()
        } else if self.phrases.contains_key(super::mine::gram_of(tokens)) {
            self
        } else {
            Table {
                phrases: self.phrases.insert(
                    super::mine::gram_of(tokens),
                    TallyView {
                        shape: Shape::Term,
                        spelling: text::joined(spellings_of(tokens), " "@),
                        documents: 0,
                        derived: true,
                    },
                ),
                ..self
            }
        }
    }

    /// The table once phrases were met in the current source: each counts
    /// one document more, unless the source already counted for it.
    pub open spec fn with_phrases_counted(self, held: Set<Seq<char>>) -> Table {
        Table {
            phrases: Map::new(
                |phrase: Seq<char>| self.phrases.contains_key(phrase),
                |phrase: Seq<char>|
                    {
                        let tally = self.phrases[phrase];
                        if held.contains(phrase) && !self.phrases_in_source.contains(phrase) {
                            TallyView { documents: one_more(tally.documents), ..tally }
                        } else {
                            tally
                        }
                    },
            ),
            phrases_in_source: self.phrases_in_source.union(
                held.intersect(self.phrases.dom()),
            ),
            ..self
        }
    }

    /// The table once the phrase matches of a text of the current source
    /// were counted: a phrase whose tokens stand in the text in order
    /// counts once for the source.
    pub open spec fn with_phrase_matches(self, tokens: Seq<TokenView>) -> Table {
        self.with_phrases_counted(Set::new(|phrase: Seq<char>| holds_phrase(tokens, phrase)))
    }
}

/// Where a candidate stands in a table: a token under its hash, or a
/// phrase.
pub enum CandidateKey {
    Token(u64),
    Phrase(Seq<char>),
}

impl Table {
    /// Whether a token's row has the name of a phrase. A phrase is two
    /// tokens or more, so that could only be by a lowercase that holds more
    /// than one token where the spelling is one.
    pub open spec fn named_as_phrase(self, hash: u64) -> bool {
        let spelling = self.spellings[hash].spelling;
        self.phrases.contains_key(text::lowercase(spelling)) && super::mine::is_token(
            token_of_spelling(spelling),
        )
    }

    /// Whether `key` is a candidate whose documents lie in `[min, max]`. A
    /// token with the name of a phrase is listed as the phrase.
    pub open spec fn in_range(self, key: CandidateKey, min: u32, max: u32) -> bool {
        match key {
            CandidateKey::Token(hash) => self.spellings.contains_key(hash) && min
                <= self.spellings[hash].documents <= max && !self.named_as_phrase(hash),
            CandidateKey::Phrase(phrase) => self.phrases.contains_key(phrase) && min
                <= self.phrases[phrase].documents <= max,
        }
    }

    /// What the band lists a candidate as.
    pub open spec fn entry(self, key: CandidateKey) -> (Seq<char>, TallyView) {
        match key {
            CandidateKey::Token(hash) => (
                text::lowercase(self.spellings[hash].spelling),
                self.spellings[hash],
            ),
            CandidateKey::Phrase(phrase) => (phrase, self.phrases[phrase]),
        }
    }

    /// Whether `keys` names every candidate of the band once.
    pub open spec fn enumerates_band(self, min: u32, max: u32, keys: Seq<CandidateKey>) -> bool {
        &&& keys.no_duplicates()
        &&& forall|key: CandidateKey| #[trigger]
            keys.contains(key) <==> self.in_range(key, min, max)
    }

    /// Whether `band` lists the candidates whose documents lie in
    /// `[min, max]`: each once, in the order of the band.
    pub open spec fn lists_band(
        self,
        min: u32,
        max: u32,
        band: Seq<(Seq<char>, TallyView)>,
    ) -> bool {
        &&& exists|keys: Seq<CandidateKey>| #[trigger]
            self.enumerates_band(min, max, keys) && band == Seq::new(
                keys.len(),
                |i: int| self.entry(keys[i]),
            )
        &&& forall|i: int, j: int|
            0 <= i < j < band.len() ==> band_order(#[trigger] band[i], #[trigger] band[j])
    }
}

/// The token a spelling stands for.
pub open spec fn token_of_spelling(spelling: Seq<char>) -> TokenView {
    TokenView { normalized: text::lowercase(spelling), spelling }
}

/// Whether a spelling is a token's, and `hash` that token's hash.
pub open spec fn names(spelling: Seq<char>, hash: u64) -> bool {
    super::mine::is_token(token_of_spelling(spelling)) && token_hash(text::lowercase(spelling))
        == hash
}

/// Whether each entry comes before every later one: more documents first,
/// then by name.
pub open spec fn strictly_banded(band: Seq<(Seq<char>, TallyView)>) -> bool {
    forall|i: int, j: int|
        0 <= i < j < band.len() ==> band_before(#[trigger] band[i], #[trigger] band[j])
}

/// Whether `a` comes before `b` in a band.
pub open spec fn band_before(a: (Seq<char>, TallyView), b: (Seq<char>, TallyView)) -> bool {
    ||| a.1.documents > b.1.documents
    ||| a.1.documents == b.1.documents && text::precedes(a.0, b.0)
}

/// Whether `a` may stand before `b` in a band: more documents first, then by
/// name.
pub open spec fn band_order(a: (Seq<char>, TallyView), b: (Seq<char>, TallyView)) -> bool {
    ||| a.1.documents > b.1.documents
    ||| a.1.documents == b.1.documents && !text::precedes(b.0, a.0)
}

/// What a band says.
pub open spec fn band_views(band: Seq<(String, Tally)>) -> Seq<(Seq<char>, TallyView)> {
    Seq::new(band.len(), |i: int| (band[i].0@, band[i].1@))
}

/// The spellings of a run of tokens.
pub open spec fn spellings_of(tokens: Seq<TokenView>) -> Seq<Seq<char>> {
    Seq::new(tokens.len(), |i: int| tokens[i].spelling)
}

/// Whether the `n` tokens at `at` spell `phrase`.
pub open spec fn phrase_at(tokens: Seq<TokenView>, phrase: Seq<char>, at: int, n: int) -> bool {
    &&& 0 <= at
    &&& at + n <= tokens.len()
    &&& phrase == super::mine::gram_of(tokens.subrange(at, at + n))
}

/// Whether a run of two to [`PHRASE_TOKENS_MAX`] tokens spells `phrase`.
pub open spec fn holds_phrase(tokens: Seq<TokenView>, phrase: Seq<char>) -> bool {
    exists|at: int, n: int|
        2 <= n <= PHRASE_TOKENS_MAX && #[trigger] phrase_at(tokens, phrase, at, n)
}

/// The phrases a run of `n` tokens before `to` spells.
spec fn grams_before(tokens: Seq<TokenView>, n: int, to: int) -> Set<Seq<char>> {
    Set::new(
        |phrase: Seq<char>| exists|at: int| at < to && #[trigger] phrase_at(tokens, phrase, at, n),
    )
}

/// The phrases a run of two tokens or more, but fewer than `n`, spells.
spec fn phrases_shorter(tokens: Seq<TokenView>, n: int) -> Set<Seq<char>> {
    Set::new(
        |phrase: Seq<char>|
            exists|at: int, m: int| 2 <= m < n && #[trigger] phrase_at(tokens, phrase, at, m),
    )
}

proof fn lemma_nothing_counted(table: Table, held: Set<Seq<char>>)
    requires
        forall|phrase: Seq<char>| !(#[trigger] held.contains(phrase)),
    ensures
        table.with_phrases_counted(held) == table,
{
    assert(table.with_phrases_counted(held).phrases =~= table.phrases);
    assert(table.with_phrases_counted(held).phrases_in_source =~= table.phrases_in_source);
}

/// Phrases met in two steps count as if met in one.
proof fn lemma_counted_again(table: Table, first: Set<Seq<char>>, again: Set<Seq<char>>)
    ensures
        table.with_phrases_counted(first).with_phrases_counted(again)
            == table.with_phrases_counted(first.union(again)),
{
    let once = table.with_phrases_counted(first);
    let twice = once.with_phrases_counted(again);
    let whole = table.with_phrases_counted(first.union(again));
    assert(once.phrases.dom() =~= table.phrases.dom());
    assert(twice.phrases =~= whole.phrases);
    assert(twice.phrases_in_source =~= whole.phrases_in_source);
}

fn hash_of(normalized: &str) -> (r: u64)
    ensures
        r == token_hash(normalized@),
{
    let mut hasher = DefaultHasher::new();
    hasher.write(normalized.as_bytes());
    proof {
        assert(hasher@ =~= seq![vstd::utf8::encode_utf8(normalized@)]);
    }
    hasher.finish()
}

impl View for Candidates {
    type V = Table;

    closed spec fn view(&self) -> Table {
        Table {
            stopwords: self.lexicon.stopwords(),
            common: self.lexicon.common(),
            seen: self.seen.set_bits(),
            seen_bits: self.seen.bit_count(),
            counts: self.counts@,
            marked: self.marked@.map_values(|spelling: String| spelling@),
            spellings: self.spellings@.map_values(|tally: Tally| tally@),
            phrases: self.phrase_map(),
            counts_max: self.counts_max as nat,
            spellings_max: self.spellings_max as nat,
            df_min: self.df_min,
            in_source: self.seen_in_source@,
            phrases_in_source: self.counted_phrases(),
            dropped: self.dropped_at_cap,
        }
    }
}

impl Candidates {
    closed spec fn phrase_map(&self) -> Map<Seq<char>, TallyView> {
        Map::new(
            |phrase: Seq<char>| self.phrase_slots@.contains_key(phrase),
            |phrase: Seq<char>| self.phrases@[self.phrase_slots@[phrase] as int].tally@,
        )
    }

    closed spec fn counted_phrases(&self) -> Set<Seq<char>> {
        Set::new(
            |phrase: Seq<char>|
                self.phrase_slots@.contains_key(phrase) && self.phrases_in_source@.contains(
                    self.phrase_slots@[phrase],
                ),
        )
    }

    /// The phrase list and its index agree.
    closed spec fn slots_agree(&self) -> bool {
        &&& forall|slot: usize| #[trigger]
            self.phrases_in_source@.contains(slot) ==> slot < self.phrases@.len()
        &&& self.phrase_slots@.dom().finite()
        &&& self.phrase_slots@.dom().len() == self.phrases@.len()
        &&& forall|phrase: Seq<char>| #[trigger]
            self.phrase_slots@.contains_key(phrase) ==> self.phrase_slots@[phrase]
                < self.phrases@.len() && self.phrases@[self.phrase_slots@[phrase] as int].normalized@
                == phrase
        &&& forall|i: int|
            0 <= i < self.phrases@.len() ==> self.phrase_slots@.contains_key(
                (#[trigger] self.phrases@[i]).normalized@,
            ) && self.phrase_slots@[self.phrases@[i].normalized@] == i
    }

    /// The table is well formed: within its bounds, its parts in agreement.
    pub closed spec fn wf(&self) -> bool {
        &&& self.seen.wf()
        &&& self.slots_agree()
        &&& self@.within_bounds()
        &&& self@.rows_marked()
    }

    /// What the table holds of phrases rests on three fields.
    proof fn lemma_same_phrases(a: Candidates, b: Candidates)
        requires
            a.phrases == b.phrases,
            a.phrase_slots == b.phrase_slots,
            a.phrases_in_source == b.phrases_in_source,
        ensures
            a.phrase_map() == b.phrase_map(),
            a.counted_phrases() == b.counted_phrases(),
    {
        assert(a.phrase_map() =~= b.phrase_map());
        assert(a.counted_phrases() =~= b.counted_phrases());
    }

    proof fn lemma_sizes(&self)
        requires
            self.slots_agree(),
        ensures
            self@.phrases.len() == self.phrases@.len(),
            self@.phrases.dom() == self.phrase_slots@.dom(),
            self@.spellings.dom() == self.spellings@.dom(),
            self@.spellings.len() == self.spellings@.len(),
    {
        assert(self@.phrases.dom() =~= self.phrase_slots@.dom());
        assert(self@.spellings.dom() =~= self.spellings@.dom());
    }

    /// An empty table. `counts_max` bounds the recurring-token table,
    /// `spellings_max` the candidates that keep a spelling, `df_min` is the
    /// recurrence a spelling is kept from.
    pub fn new(counts_max: usize, spellings_max: usize, df_min: u32, lexicon: Lexicon) -> (r: Self)
        requires
            df_min >= 1,
        ensures
            r.wf(),
            r@ == (Table {
                stopwords: lexicon.stopwords(),
                common: lexicon.common(),
                seen: Set::empty(),
                seen_bits: super::mine::filter_bits(SEEN_TOKENS_CAPACITY) as u64,
                counts: Map::empty(),
                marked: Map::empty(),
                spellings: Map::empty(),
                phrases: Map::empty(),
                counts_max: counts_max as nat,
                spellings_max: spellings_max as nat,
                df_min,
                in_source: Set::empty(),
                phrases_in_source: Set::empty(),
                dropped: 0,
            }),
    {
        let r = Candidates {
            lexicon,
            seen: SeenFilter::new(SEEN_TOKENS_CAPACITY),
            counts: HashMap::new(),
            spellings: HashMap::new(),
            phrases: Vec::new(),
            phrase_slots: StringHashMap::new(),
            marked: HashMap::new(),
            counts_max,
            spellings_max,
            df_min,
            seen_in_source: HashSet::new(),
            phrases_in_source: HashSet::new(),
            dropped_at_cap: 0,
        };
        proof {
            assert(r@.spellings =~= Map::<u64, TallyView>::empty());
            assert(r@.phrases =~= Map::<Seq<char>, TallyView>::empty());
            assert(r@.marked =~= Map::<u64, Seq<char>>::empty());
            assert(r@.phrases_in_source =~= Set::<Seq<char>>::empty());
        }
        r
    }

    /// Start counting a new source: every token and every phrase counts
    /// once per source.
    pub fn begin_source(&mut self)
        requires
            old(self).wf(),
        ensures
            final(self).wf(),
            final(self)@ == old(self)@.begun(),
    {
        self.seen_in_source.clear();
        self.phrases_in_source.clear();
        proof {
            assert(self.phrase_map() =~= old(self).phrase_map());
            assert(self.counted_phrases() =~= Set::<Seq<char>>::empty());
        }
    }

    fn drop_one(&mut self)
        requires
            old(self).wf(),
        ensures
            final(self).wf(),
            final(self)@ == old(self)@.with_drop(),
            final(self).lexicon == old(self).lexicon,
    {
        self.dropped_at_cap = self.dropped_at_cap.saturating_add(1);
        proof {
            Self::lemma_same_phrases(*self, *old(self));
        }
    }

    /// Remember the first spelling with a shape mark of a counted token.
    fn remember_mark(&mut self, hash: u64, shape: Shape, token: &Token)
        requires
            old(self).wf(),
            old(self)@.counts.contains_key(hash),
            shape == old(self)@.shape(token@.spelling),
        ensures
            final(self).wf(),
            final(self)@ == old(self)@.with_mark(hash, shape, token@.spelling),
    {
        if shape == Shape::Plain || self.marked.contains_key(&hash) {
            return;
        }
        self.marked.insert(hash, token.spelling.clone());
        proof {
            Self::lemma_same_phrases(*self, *old(self));
            assert(self@.marked =~= old(self)@.marked.insert(hash, token@.spelling));
        }
    }

    /// Keep a counted token's row once it has recurred with a mark.
    fn keep_spelling(&mut self, hash: u64, counted: Counted)
        requires
            old(self).wf(),
            old(self)@.counts.contains_key(hash),
        ensures
            final(self).wf(),
            final(self)@ == old(self)@.with_spelling(hash, counted),
    {
        let marked: Option<String> = match self.marked.get(&hash) {
            Some(spelling) => Some(spelling.clone()),
            None => None,
        };
        let first = match marked {
            Some(spelling) => spelling,
            None => {
                return;
            },
        };
        if counted.documents < self.df_min {
            return;
        }
        proof {
            self.lemma_sizes();
        }
        let held: Option<Tally> = match self.spellings.get(&hash) {
            Some(tally) => Some(tally.copy()),
            None => None,
        };
        match held {
            Some(tally) => {
                let next = Tally {
                    shape: counted.shape,
                    spelling: tally.spelling,
                    documents: counted.documents,
                    derived: tally.derived,
                };
                self.spellings.insert(hash, next);
                proof {
                    Self::lemma_same_phrases(*self, *old(self));
                    assert(old(self)@.spellings.contains_key(hash));
                    assert(self@.spellings =~= old(self)@.spellings.insert(hash, next@));
                    assert(old(self).spellings@.dom().insert(hash) =~= old(self).spellings@.dom());
                }
            },
            None => {
                if self.spellings.len() + self.phrases.len() >= self.spellings_max {
                    self.drop_one();
                    return;
                }
                let next = Tally {
                    shape: counted.shape,
                    spelling: first,
                    documents: counted.documents,
                    derived: false,
                };
                self.spellings.insert(hash, next);
                proof {
                    Self::lemma_same_phrases(*self, *old(self));
                    assert(old(self)@.marked.contains_key(hash));
                    assert(self@.spellings =~= old(self)@.spellings.insert(hash, next@));
                }
            },
        }
    }

    /// First sight sets a bit; the second starts a count; a count that
    /// reaches `df_min` with a shape mark keeps the spelling.
    fn count_one(&mut self, hash: u64, shape: Shape, token: &Token)
        requires
            old(self).wf(),
            shape == old(self)@.shape(token@.spelling),
        ensures
            final(self).wf(),
            final(self)@ == old(self)@.with_one(hash, shape, token@.spelling),
    {
        let held: Option<Counted> = match self.counts.get(&hash) {
            Some(counted) => Some(*counted),
            None => None,
        };
        match held {
            Some(before) => {
                let counted = Counted {
                    documents: before.documents.saturating_add(1),
                    shape: if shape.weight() >= before.shape.weight() {
                        shape
                    } else {
                        before.shape
                    },
                };
                self.counts.insert(hash, counted);
                proof {
                    Self::lemma_same_phrases(*self, *old(self));
                    assert(old(self).counts@.dom().insert(hash) =~= old(self).counts@.dom());
                }
                self.remember_mark(hash, shape, token);
                self.keep_spelling(hash, counted);
            },
            None => {
                let first_sight = self.seen.insert(hash);
                proof {
                    Self::lemma_same_phrases(*self, *old(self));
                }
                if first_sight {
                    return;
                }
                if self.counts.len() >= self.counts_max {
                    self.drop_one();
                    return;
                }
                let counted = Counted { documents: 2, shape };
                self.counts.insert(hash, counted);
                proof {
                    Self::lemma_same_phrases(*self, *old(self));
                }
                self.remember_mark(hash, shape, token);
                self.keep_spelling(hash, counted);
            },
        }
    }

    /// Count one source's tokens.
    pub fn count(&mut self, tokens: &[Token])
        requires
            old(self).wf(),
        ensures
            final(self).wf(),
            final(self)@ == old(self)@.with_tokens(super::mine::token_views(tokens@)),
            old(self)@.well_named() && (forall|i: int|
                0 <= i < tokens@.len() ==> super::mine::is_token((#[trigger] tokens@[i])@))
                ==> final(self)@.well_named(),
    {
        let ghost views = super::mine::token_views(tokens@);
        let mut i: usize = 0;
        proof {
            assert(views.take(0) =~= Seq::empty());
        }
        while i < tokens.len()
            invariant
                i <= tokens@.len(),
                views == super::mine::token_views(tokens@),
                self.wf(),
                self@ == old(self)@.with_tokens(views.take(i as int)),
            decreases tokens.len() - i,
        {
            let token = &tokens[i];
            proof {
                assert(views.take(i as int + 1).drop_last() =~= views.take(i as int));
                assert(views.take(i as int + 1).last() == token@);
            }
            self.count_token(token);
            i = i + 1;
        }
        proof {
            assert(views.take(tokens@.len() as int) =~= views);
            if old(self)@.well_named() && forall|i: int|
                0 <= i < tokens@.len() ==> super::mine::is_token((#[trigger] tokens@[i])@) {
                assert forall|i: int| 0 <= i < views.len() implies super::mine::is_token(
                    #[trigger] views[i],
                ) by {
                    assert(views[i] == tokens@[i]@);
                }
                law_tokens_keep_rows_named(old(self)@, views);
            }
        }
    }

    fn count_token(&mut self, token: &Token)
        requires
            old(self).wf(),
        ensures
            final(self).wf(),
            final(self)@ == old(self)@.with_token(token@),
    {
        if !super::mine::holds_letter(&text::chars_of(token.spelling.as_str())) {
            return;
        }
        let hash = hash_of(token.normalized.as_str());
        if self.seen_in_source.contains(&hash) {
            return;
        }
        self.seen_in_source.insert(hash);
        proof {
            Self::lemma_same_phrases(*self, *old(self));
        }
        let shape = shape_of(&self.lexicon, token.spelling.as_str());
        self.count_one(hash, shape, token);
    }

    /// Register a phrase proposed by derived text. Phrases count documents
    /// only through matching, so they start at zero.
    pub fn propose_phrase(&mut self, phrase: &str)
        requires
            old(self).wf(),
        ensures
            final(self).wf(),
            final(self)@ == old(self)@.with_phrase(phrase@),
    {
        let tokens = tokenize(phrase);
        let ghost views = super::mine::token_views(tokens@);
        if tokens.len() < 2 || tokens.len() > PHRASE_TOKENS_MAX {
            return;
        }
        let mut marked = false;
        let mut words: Vec<String> = Vec::new();
        let mut i: usize = 0;
        while i < tokens.len()
            invariant
                i <= tokens@.len(),
                views == super::mine::token_views(tokens@),
                self == old(self),
                words@.len() == i,
                forall|j: int| 0 <= j < i ==> (#[trigger] words@[j])@ == views[j].spelling,
                !marked <==> forall|j: int|
                    0 <= j < i ==> old(self)@.shape((#[trigger] views[j]).spelling) == Shape::Plain,
            decreases tokens.len() - i,
        {
            let shape = shape_of(&self.lexicon, tokens[i].spelling.as_str());
            proof {
                assert(views[i as int] == tokens@[i as int]@);
                assert(shape == old(self)@.shape(views[i as int].spelling));
            }
            if shape != Shape::Plain {
                marked = true;
            }
            words.push(tokens[i].spelling.clone());
            i = i + 1;
        }
        if !marked {
            return;
        }
        proof {
            self.lemma_sizes();
            assert(text::views(words@) =~= spellings_of(views));
        }
        let normalized = join_normalized(tokens.as_slice());
        if self.phrases.len() + self.spellings.len() >= self.spellings_max {
            self.drop_one();
            return;
        }
        if self.phrase_slots.contains_key(normalized.as_str()) {
            return;
        }
        let slot: usize = self.phrases.len();
        let tally = Tally {
            shape: Shape::Term,
            spelling: text::join(&words, " "),
            documents: 0,
            derived: true,
        };
        let ghost before = *self;
        self.phrase_slots.insert(normalized.clone(), slot);
        self.phrases.push(Phrase { normalized, tally });
        proof {
            assert(before.phrase_slots@.dom().insert(normalized@).len()
                == before.phrase_slots@.dom().len() + 1);
            assert(self.phrase_slots@.dom() =~= before.phrase_slots@.dom().insert(normalized@));
            assert forall|phrase: Seq<char>| #[trigger]
                self.phrase_slots@.contains_key(phrase) implies self.phrase_slots@[phrase]
                < self.phrases@.len() && self.phrases@[self.phrase_slots@[phrase] as int].normalized@
                == phrase by {
                if phrase != normalized@ {
                    assert(before.phrase_slots@.contains_key(phrase));
                }
            }
            assert forall|i: int| 0 <= i < self.phrases@.len() implies self.phrase_slots@.contains_key(
                (#[trigger] self.phrases@[i]).normalized@,
            ) && self.phrase_slots@[self.phrases@[i].normalized@] == i by {
                if i < slot {
                    assert(self.phrases@[i] == before.phrases@[i]);
                }
            }
            assert(self.phrase_map() =~= before.phrase_map().insert(normalized@, tally@)) by {
                assert forall|phrase: Seq<char>| #[trigger]
                    self.phrase_map().contains_key(phrase) && phrase
                        != normalized@ implies self.phrase_map()[phrase]
                    == before.phrase_map()[phrase] by {
                    assert(before.phrase_slots@.contains_key(phrase));
                    assert(self.phrases@[before.phrase_slots@[phrase] as int]
                        == before.phrases@[before.phrase_slots@[phrase] as int]);
                }
            }
            assert(self.counted_phrases() =~= before.counted_phrases()) by {
                assert forall|phrase: Seq<char>| #[trigger]
                    self.counted_phrases().contains(phrase) <==> before.counted_phrases().contains(
                        phrase,
                    ) by {
                    if phrase != normalized@ {
                        assert(self.phrase_slots@.contains_key(phrase)
                            <==> before.phrase_slots@.contains_key(phrase));
                    }
                }
            }
            self.lemma_sizes();
        }
    }

    /// Count one phrase for the current source, where it is one and the
    /// source has not counted for it yet.
    fn count_gram(&mut self, gram: &str)
        requires
            old(self).wf(),
        ensures
            final(self).wf(),
            final(self)@ == old(self)@.with_phrases_counted(set![gram@]),
    {
        let ghost after = old(self)@.with_phrases_counted(set![gram@]);
        let found: Option<usize> = match self.phrase_slots.get(gram) {
            Some(slot) => Some(*slot),
            None => None,
        };
        if let Some(slot) = found {
            if !self.phrases_in_source.contains(&slot) {
                let held = &self.phrases[slot];
                let tally = Tally {
                    shape: held.tally.shape,
                    spelling: held.tally.spelling.clone(),
                    documents: held.tally.documents.saturating_add(1),
                    derived: held.tally.derived,
                };
                let normalized = held.normalized.clone();
                self.phrases.set(slot, Phrase { normalized, tally });
                self.phrases_in_source.insert(slot);
            }
        }
        proof {
            let before = *old(self);
            assert(self.phrase_slots == before.phrase_slots);
            assert forall|i: int| 0 <= i < self.phrases@.len() implies (#[trigger] self.phrases@[i]).normalized@
                == before.phrases@[i].normalized@ by {
                assert(before.phrase_slots@.contains_key(before.phrases@[i].normalized@));
            }
            assert(self.slots_agree()) by {
                assert forall|phrase: Seq<char>| #[trigger]
                    self.phrase_slots@.contains_key(phrase) implies self.phrase_slots@[phrase]
                    < self.phrases@.len() && self.phrases@[self.phrase_slots@[phrase] as int].normalized@
                    == phrase by {
                    assert(before.phrase_slots@.contains_key(phrase));
                }
                assert forall|i: int|
                    0 <= i < self.phrases@.len() implies self.phrase_slots@.contains_key(
                    (#[trigger] self.phrases@[i]).normalized@,
                ) && self.phrase_slots@[self.phrases@[i].normalized@] == i by {
                    assert(before.phrase_slots@.contains_key(before.phrases@[i].normalized@));
                }
            }
            assert forall|phrase: Seq<char>| #[trigger]
                before.phrase_slots@.contains_key(phrase) && phrase
                    != gram@ implies before.phrase_slots@.contains_key(gram@)
                ==> before.phrase_slots@[phrase] != before.phrase_slots@[gram@] by {
                assert(before.phrases@[before.phrase_slots@[phrase] as int].normalized@ == phrase);
                if before.phrase_slots@.contains_key(gram@) {
                    assert(before.phrases@[before.phrase_slots@[gram@] as int].normalized@ == gram@);
                }
            }
            assert(self.phrase_map() =~= after.phrases) by {
                assert forall|phrase: Seq<char>| #[trigger]
                    self.phrase_map().contains_key(phrase) implies self.phrase_map()[phrase]
                    == after.phrases[phrase] by {
                    assert(before.phrase_slots@.contains_key(phrase));
                }
            }
            assert(self.counted_phrases() =~= after.phrases_in_source) by {
                assert forall|phrase: Seq<char>| #[trigger]
                    self.counted_phrases().contains(phrase) <==> after.phrases_in_source.contains(
                        phrase,
                    ) by {
                    if before.phrase_slots@.contains_key(phrase) {
                        assert(before@.phrases.dom().contains(phrase));
                    }
                }
            }
            self.lemma_sizes();
            before.lemma_sizes();
        }
    }

    /// Count the phrases that runs of `n` tokens spell.
    fn count_grams(&mut self, tokens: &[Token], n: usize)
        requires
            old(self).wf(),
            2 <= n <= tokens@.len(),
        ensures
            final(self).wf(),
            final(self)@ == old(self)@.with_phrases_counted(
                grams_before(super::mine::token_views(tokens@), n as int, tokens@.len() as int),
            ),
    {
        let ghost views = super::mine::token_views(tokens@);
        let mut at: usize = 0;
        proof {
            lemma_nothing_counted(self@, grams_before(views, n as int, 0));
        }
        while at <= tokens.len() - n
            invariant
                2 <= n <= tokens@.len(),
                at + n <= tokens@.len() + 1,
                views == super::mine::token_views(tokens@),
                self.wf(),
                self@ == old(self)@.with_phrases_counted(grams_before(views, n as int, at as int)),
            decreases tokens.len() + 1 - at,
        {
            let window = vstd::slice::slice_subrange(tokens, at, at + n);
            let gram = join_normalized(window);
            self.count_gram(gram.as_str());
            proof {
                assert(super::mine::token_views(window@) =~= views.subrange(at as int, at + n));
                lemma_counted_again(
                    old(self)@,
                    grams_before(views, n as int, at as int),
                    set![gram@],
                );
                assert(grams_before(views, n as int, at as int).union(set![gram@])
                    =~= grams_before(views, n as int, at + 1)) by {
                    assert forall|phrase: Seq<char>|
                        grams_before(views, n as int, at + 1).contains(phrase) implies grams_before(
                        views,
                        n as int,
                        at as int,
                    ).union(set![gram@]).contains(phrase) by {
                        let k = choose|k: int|
                            k < at + 1 && #[trigger] phrase_at(views, phrase, k, n as int);
                        assert(k < at || k == at);
                    }
                    assert(phrase_at(views, gram@, at as int, n as int));
                }
            }
            at = at + 1;
        }
        proof {
            assert(grams_before(views, n as int, at as int) =~= grams_before(
                views,
                n as int,
                tokens@.len() as int,
            )) by {
                assert forall|phrase: Seq<char>, k: int| #[trigger]
                    phrase_at(views, phrase, k, n as int) implies k < at && k < tokens@.len() by {}
            }
        }
    }

    /// Count a source's phrase matches: each derived phrase whose tokens
    /// appear in order counts once for the source.
    pub fn count_phrases(&mut self, tokens: &[Token])
        requires
            old(self).wf(),
        ensures
            final(self).wf(),
            final(self)@ == old(self)@.with_phrase_matches(super::mine::token_views(tokens@)),
    {
        let ghost views = super::mine::token_views(tokens@);
        let mut n: usize = 2;
        proof {
            assert forall|phrase: Seq<char>| !(#[trigger] phrases_shorter(views, 2).contains(phrase)) by {}
            lemma_nothing_counted(self@, phrases_shorter(views, 2));
        }
        while n <= PHRASE_TOKENS_MAX && n <= tokens.len()
            invariant
                2 <= n <= PHRASE_TOKENS_MAX + 1,
                views == super::mine::token_views(tokens@),
                self.wf(),
                self@ == old(self)@.with_phrases_counted(phrases_shorter(views, n as int)),
            decreases PHRASE_TOKENS_MAX + 1 - n,
        {
            self.count_grams(tokens, n);
            proof {
                let longer = grams_before(views, n as int, tokens@.len() as int);
                lemma_counted_again(old(self)@, phrases_shorter(views, n as int), longer);
                assert(phrases_shorter(views, n as int).union(longer) =~= phrases_shorter(
                    views,
                    n + 1,
                )) by {
                    assert forall|phrase: Seq<char>|
                        phrases_shorter(views, n + 1).contains(phrase) implies phrases_shorter(
                        views,
                        n as int,
                    ).union(longer).contains(phrase) by {
                        let (at, m) = choose|at: int, m: int|
                            2 <= m < n + 1 && #[trigger] phrase_at(views, phrase, at, m);
                        assert(m < n || m == n);
                    }
                }
            }
            n = n + 1;
        }
        proof {
            let held = Set::new(|phrase: Seq<char>| holds_phrase(views, phrase));
            assert(phrases_shorter(views, n as int) =~= held) by {
                assert forall|phrase: Seq<char>| held.contains(phrase) implies phrases_shorter(
                    views,
                    n as int,
                ).contains(phrase) by {
                    let (at, m) = choose|at: int, m: int|
                        2 <= m <= PHRASE_TOKENS_MAX && #[trigger] phrase_at(views, phrase, at, m);
                    assert(m < n);
                }
            }
        }
    }

    /// Tokens or spellings a full table turned away.
    pub fn dropped_at_cap(&self) -> (r: u64)
        ensures
            r == self@.dropped,
    {
        self.dropped_at_cap
    }

    /// Distinct recurring tokens counted, phrases included.
    pub fn len(&self) -> (r: usize)
        requires
            self.wf(),
            self@.counts.len() + self@.phrases.len() <= usize::MAX,
        ensures
            r == self@.counts.len() + self@.phrases.len(),
    {
        proof {
            self.lemma_sizes();
        }
        self.counts.len() + self.phrases.len()
    }

    /// The candidates whose document frequency lies in `[min, max]`, most
    /// frequent first: `(normalized, tally)`. A single token's normalized
    /// spelling is its lowercase spelling.
    pub fn in_band(&self, min: u32, max: u32) -> (r: Vec<(String, Tally)>)
        requires
            self.wf(),
            min <= max,
        ensures
            self@.lists_band(min, max, band_views(r@)),
            self@.well_named() ==> forall|i: int, j: int|
                0 <= i < j < r@.len() ==> (#[trigger] r@[i]).0@ != (#[trigger] r@[j]).0@,
            self@.well_named() ==> strictly_banded(band_views(r@)),
            forall|i: int| 0 <= i < r@.len() ==> min <= (#[trigger] r@[i]).1.documents <= max,
    {
        let mut kept: Vec<Banded> = Vec::new();
        for pair in it: self.spellings.iter()
            invariant
                self.wf(),
                it.seq().no_duplicates(),
                it.seq().len() == self.spellings@.dom().len(),
                forall|i: int|
                    0 <= i < it.seq().len() ==> self.spellings@.contains_key(*(#[trigger] it.seq()[i]).0)
                        && self.spellings@[*it.seq()[i].0] == *it.seq()[i].1,
                forall|k: u64| #[trigger]
                    self.spellings@.contains_key(k) ==> it.seq().contains((&k, &self.spellings@[k])),
                distinct_keys(kept@),
                forall|i: int|
                    0 <= i < kept@.len() ==> (#[trigger] kept@[i]).holds(self@) && self@.in_range(
                        kept@[i].key@,
                        min,
                        max,
                    ) && kept@[i].key@ is Token && exists|j: int|
                        0 <= j < it.index() && *(#[trigger] it.seq()[j]).0 == kept@[i].key@->Token_0,
                forall|j: int|
                    0 <= j < it.index() && self@.in_range(
                        CandidateKey::Token(*(#[trigger] it.seq()[j]).0),
                        min,
                        max,
                    ) ==> has_key(kept@, CandidateKey::Token(*it.seq()[j].0)),
        {
            let (hash, tally) = pair;
            let ghost before = kept@;
            let ghost key = CandidateKey::Token(*hash);
            proof {
                assert(*hash == *it.seq()[it.index()].0);
                assert(self@.spellings[*hash] == tally@);
            }
            let name = tally.spelling.as_str().to_lowercase();
            if tally.documents >= min && tally.documents <= max && !self.is_named_as_phrase(
                *hash,
                name.as_str(),
                tally.spelling.as_str(),
            ) {
                kept.push(
                    Banded {
                        name,
                        tally: tally.copy(),
                        key: Ghost(key),
                    },
                );
            }
            proof {
                assert forall|i: int| 0 <= i < before.len() implies (#[trigger] before[i]).key@ != key by {
                    if before[i].key@ == key {
                        let j = choose|j: int|
                            0 <= j < it.index() && *(#[trigger] it.seq()[j]).0
                                == before[i].key@->Token_0;
                        assert(it.seq()[j] == it.seq()[it.index()]);
                    }
                }
                assert forall|j: int| 0 <= j < it.index() + 1 && self@.in_range(
                    CandidateKey::Token(*(#[trigger] it.seq()[j]).0),
                    min,
                    max,
                ) implies has_key(kept@, CandidateKey::Token(*it.seq()[j].0)) by {
                    if j < it.index() {
                        assert(has_key(before, CandidateKey::Token(*it.seq()[j].0)));
                        let i = choose|i: int|
                            0 <= i < before.len() && (#[trigger] before[i]).key@
                                == CandidateKey::Token(*it.seq()[j].0);
                        assert(kept@[i] == before[i]);
                    } else {
                        assert(kept@[kept@.len() - 1].key@ == key);
                    }
                }
            }
        }
        proof {
            assert forall|key: CandidateKey| key is Token && self@.in_range(key, min, max) implies has_key(
                kept@,
                key,
            ) by {
                let hash = key->Token_0;
                assert(self.spellings@.contains_key(hash));
            }
        }
        self.add_phrases(&mut kept, min, max);
        let ghost listed = kept@;
        let ordered = sorted(kept);
        let mut out: Vec<(String, Tally)> = Vec::new();
        let mut i: usize = 0;
        while i < ordered.len()
            invariant
                i <= ordered@.len(),
                out@.len() == i,
                forall|j: int|
                    0 <= j < i ==> ((#[trigger] out@[j]).0@, out@[j].1@) == ordered@[j].pair(),
            decreases ordered.len() - i,
        {
            out.push((ordered[i].name.clone(), ordered[i].tally.copy()));
            i = i + 1;
        }
        proof {
            lemma_band(self@, min, max, listed, ordered@);
            let keys = Seq::new(ordered@.len(), |i: int| ordered@[i].key@);
            assert(band_views(out@) =~= Seq::new(keys.len(), |i: int| self@.entry(keys[i]))) by {
                assert forall|i: int| 0 <= i < ordered@.len() implies band_views(out@)[i]
                    == self@.entry(keys[i]) by {
                    assert(ordered@[i].holds(self@));
                    assert((out@[i].0@, out@[i].1@) == ordered@[i].pair());
                }
            }
            assert forall|i: int, j: int| 0 <= i < j < out@.len() implies band_order(
                #[trigger] band_views(out@)[i],
                #[trigger] band_views(out@)[j],
            ) by {
                assert(ordered@[i].ranks_before(&ordered@[j]));
                assert((out@[i].0@, out@[i].1@) == ordered@[i].pair());
                assert((out@[j].0@, out@[j].1@) == ordered@[j].pair());
            }
            if self@.well_named() {
                law_a_band_names_nothing_twice(self@, min, max, band_views(out@));
                assert forall|i: int, j: int| 0 <= i < j < out@.len() implies (
                #[trigger] out@[i]).0@ != (#[trigger] out@[j]).0@ by {
                    assert(band_views(out@)[i].0 != band_views(out@)[j].0);
                }
            }
            assert forall|i: int| 0 <= i < out@.len() implies min <= (
            #[trigger] out@[i]).1.documents <= max by {
                assert(band_views(out@)[i] == self@.entry(keys[i]));
                assert(keys.contains(keys[i]));
            }
        }
        out
    }

    /// Whether the row under `hash` has the name of a phrase.
    fn is_named_as_phrase(&self, hash: u64, name: &str, spelling: &str) -> (r: bool)
        requires
            self.wf(),
            name@ == text::lowercase(spelling@),
            self@.spellings[hash].spelling == spelling@,
        ensures
            r == self@.named_as_phrase(hash),
    {
        if !self.phrase_slots.contains_key(name) {
            return false;
        }
        let tokens = tokenize(spelling);
        proof {
            if tokens@.len() == 1 {
                assert(super::mine::token_views(tokens@)[0] == tokens@[0]@);
                assert(super::mine::tokens_of(spelling@) =~= seq![tokens@[0]@]);
            } else {
                assert(super::mine::token_views(tokens@).len() == tokens@.len());
            }
        }
        tokens.len() == 1 && text::same(tokens[0].spelling.as_str(), spelling)
    }

    /// Add the phrases of the band to the tokens of the band.
    fn add_phrases(&self, kept: &mut Vec<Banded>, min: u32, max: u32)
        requires
            self.wf(),
            distinct_keys(old(kept)@),
            forall|i: int|
                0 <= i < old(kept)@.len() ==> (#[trigger] old(kept)@[i]).holds(self@)
                    && self@.in_range(old(kept)@[i].key@, min, max) && old(kept)@[i].key@ is Token,
            forall|key: CandidateKey|
                key is Token && self@.in_range(key, min, max) ==> #[trigger] has_key(
                    old(kept)@,
                    key,
                ),
        ensures
            distinct_keys(final(kept)@),
            forall|i: int|
                0 <= i < final(kept)@.len() ==> (#[trigger] final(kept)@[i]).holds(self@)
                    && self@.in_range(final(kept)@[i].key@, min, max),
            forall|key: CandidateKey|
                self@.in_range(key, min, max) ==> #[trigger] has_key(final(kept)@, key),
    {
        let mut i: usize = 0;
        while i < self.phrases.len()
            invariant
                i <= self.phrases@.len(),
                self.wf(),
                distinct_keys(kept@),
                forall|j: int|
                    0 <= j < kept@.len() ==> (#[trigger] kept@[j]).holds(self@) && self@.in_range(
                        kept@[j].key@,
                        min,
                        max,
                    ) && (kept@[j].key@ is Phrase ==> exists|k: int|
                        0 <= k < i && (#[trigger] self.phrases@[k]).normalized@
                            == kept@[j].key@->Phrase_0),
                forall|key: CandidateKey|
                    key is Token && self@.in_range(key, min, max) ==> #[trigger] has_key(
                        kept@,
                        key,
                    ),
                forall|k: int|
                    0 <= k < i && self@.in_range(
                        CandidateKey::Phrase((#[trigger] self.phrases@[k]).normalized@),
                        min,
                        max,
                    ) ==> has_key(kept@, CandidateKey::Phrase(self.phrases@[k].normalized@)),
            decreases self.phrases.len() - i,
        {
            let phrase = &self.phrases[i];
            let ghost before = kept@;
            let ghost key = CandidateKey::Phrase(phrase.normalized@);
            proof {
                assert(self.phrase_slots@.contains_key(self.phrases@[i as int].normalized@));
                assert(self@.phrases[phrase.normalized@] == phrase.tally@);
                assert forall|j: int| 0 <= j < before.len() implies (#[trigger] before[j]).key@ != key by {
                    if before[j].key@ == key {
                        let k = choose|k: int|
                            0 <= k < i && (#[trigger] self.phrases@[k]).normalized@
                                == before[j].key@->Phrase_0;
                        assert(self.phrase_slots@[self.phrases@[k].normalized@] == k);
                        assert(self.phrase_slots@[self.phrases@[i as int].normalized@] == i);
                    }
                }
            }
            if phrase.tally.documents >= min && phrase.tally.documents <= max {
                kept.push(
                    Banded {
                        name: phrase.normalized.clone(),
                        tally: phrase.tally.copy(),
                        key: Ghost(key),
                    },
                );
            }
            proof {
                assert forall|other: CandidateKey| has_key(before, other) implies #[trigger] has_key(
                    kept@,
                    other,
                ) by {
                    let j = choose|j: int|
                        0 <= j < before.len() && (#[trigger] before[j]).key@ == other;
                    assert(kept@[j] == before[j]);
                }
                if self@.in_range(key, min, max) {
                    assert(kept@[kept@.len() - 1].key@ == key);
                    assert(has_key(kept@, key));
                }
            }
            i = i + 1;
        }
        proof {
            assert forall|key: CandidateKey| self@.in_range(key, min, max) implies #[trigger] has_key(
                kept@,
                key,
            ) by {
                match key {
                    CandidateKey::Token(hash) => {},
                    CandidateKey::Phrase(phrase) => {
                        assert(self.phrase_slots@.contains_key(phrase));
                        let k = self.phrase_slots@[phrase] as int;
                        assert(self.phrases@[k].normalized@ == phrase);
                    },
                }
            }
        }
    }
}

/// Two candidates of a band have two names.
proof fn lemma_names_differ(table: Table, min: u32, max: u32, a: CandidateKey, b: CandidateKey)
    requires
        table.well_named(),
        table.in_range(a, min, max),
        table.in_range(b, min, max),
        a != b,
    ensures
        table.entry(a).0 != table.entry(b).0,
{
}

/// A band names nothing twice, so that its order leaves nothing open: where
/// the table has counted only tokens as the tokenizer makes them.
pub proof fn law_a_band_names_nothing_twice(
    table: Table,
    min: u32,
    max: u32,
    band: Seq<(Seq<char>, TallyView)>,
)
    requires
        table.well_named(),
        table.lists_band(min, max, band),
    ensures
        forall|i: int, j: int|
            0 <= i < j < band.len() ==> (#[trigger] band[i]).0 != (#[trigger] band[j]).0,
        strictly_banded(band),
{
    let keys = choose|keys: Seq<CandidateKey>| #[trigger]
        table.enumerates_band(min, max, keys) && band == Seq::new(
            keys.len(),
            |i: int| table.entry(keys[i]),
        );
    assert forall|i: int, j: int| 0 <= i < j < band.len() implies (#[trigger] band[i]).0 != (
    #[trigger] band[j]).0 by {
        assert(keys.contains(keys[i]) && keys.contains(keys[j]));
        lemma_names_differ(table, min, max, keys[i], keys[j]);
    }
    assert forall|i: int, j: int| 0 <= i < j < band.len() implies band_before(
        #[trigger] band[i],
        #[trigger] band[j],
    ) by {
        assert(band_order(band[i], band[j]));
        text::lemma_precedes_total(band[i].0, band[j].0);
    }
}

/// A table whose rows are well named stays so while it counts tokens as the
/// tokenizer makes them.
pub proof fn law_tokens_keep_rows_named(table: Table, tokens: Seq<TokenView>)
    requires
        table.well_named(),
        forall|i: int| 0 <= i < tokens.len() ==> super::mine::is_token(#[trigger] tokens[i]),
    ensures
        table.with_tokens(tokens).well_named(),
    decreases tokens.len(),
{
    if tokens.len() > 0 {
        let front = tokens.drop_last();
        assert forall|i: int| 0 <= i < front.len() implies super::mine::is_token(
            #[trigger] front[i],
        ) by {
            assert(front[i] == tokens[i]);
        }
        law_tokens_keep_rows_named(table, front);
        let last = tokens.last();
        assert(super::mine::is_token(tokens[tokens.len() - 1]));
        assert(token_of_spelling(last.spelling) == last);
        assert(names(last.spelling, token_hash(last.normalized)));
    }
}

/// The keys of a sorted band name every candidate of it once.
proof fn lemma_band(table: Table, min: u32, max: u32, listed: Seq<Banded>, ordered: Seq<Banded>)
    requires
        distinct_keys(listed),
        forall|i: int|
            0 <= i < listed.len() ==> (#[trigger] listed[i]).holds(table) && table.in_range(
                listed[i].key@,
                min,
                max,
            ),
        forall|key: CandidateKey|
            table.in_range(key, min, max) ==> #[trigger] has_key(listed, key),
        crate::order::is_sorting_of(ordered, listed),
    ensures
        table.enumerates_band(
            min,
            max,
            Seq::new(ordered.len(), |i: int| ordered[i].key@),
        ),
        forall|i: int| 0 <= i < ordered.len() ==> (#[trigger] ordered[i]).holds(table),
{
    let keys = Seq::new(ordered.len(), |i: int| ordered[i].key@);
    assert(listed.no_duplicates());
    crate::order::lemma_sorting_distinct(ordered, listed);
    assert forall|i: int| 0 <= i < ordered.len() implies listed.contains(#[trigger] ordered[i]) by {
        crate::order::lemma_sorting_contains(ordered, listed, ordered[i]);
        assert(ordered.contains(ordered[i]));
    }
    assert forall|i: int, j: int| 0 <= i < j < keys.len() implies keys[i] != keys[j] by {
        if keys[i] == keys[j] {
            assert(listed.contains(ordered[i]) && listed.contains(ordered[j]));
            let a = choose|a: int| 0 <= a < listed.len() && listed[a] == ordered[i];
            let b = choose|b: int| 0 <= b < listed.len() && listed[b] == ordered[j];
            assert(listed[a].key@ == listed[b].key@);
            assert(a == b);
        }
    }
    assert forall|key: CandidateKey| #[trigger]
        keys.contains(key) <==> table.in_range(key, min, max) by {
        if keys.contains(key) {
            let i = choose|i: int| 0 <= i < keys.len() && keys[i] == key;
            assert(listed.contains(ordered[i]));
        }
        if table.in_range(key, min, max) {
            assert(has_key(listed, key));
            let a = choose|a: int| 0 <= a < listed.len() && (#[trigger] listed[a]).key@ == key;
            assert(listed.contains(listed[a]));
            crate::order::lemma_sorting_contains(ordered, listed, listed[a]);
            let i = choose|i: int| 0 <= i < ordered.len() && ordered[i] == listed[a];
            assert(keys[i] == key);
        }
    }
}

/// A candidate in the band, with the place it was found at.
struct Banded {
    name: String,
    tally: Tally,
    key: Ghost<CandidateKey>,
}

impl Banded {
    spec fn pair(self) -> (Seq<char>, TallyView) {
        (self.name@, self.tally@)
    }

    spec fn holds(self, table: Table) -> bool {
        self.pair() == table.entry(self.key@)
    }
}

spec fn distinct_keys(kept: Seq<Banded>) -> bool {
    forall|i: int, j: int|
        0 <= i < j < kept.len() ==> (#[trigger] kept[i]).key@ != (#[trigger] kept[j]).key@
}

spec fn has_key(kept: Seq<Banded>, key: CandidateKey) -> bool {
    exists|i: int| 0 <= i < kept.len() && (#[trigger] kept[i]).key@ == key
}

impl Ranked for Banded {
    closed spec fn ranks_before(&self, other: &Self) -> bool {
        band_order(self.pair(), other.pair())
    }

    proof fn ranks_total(a: &Self, b: &Self) {
        text::lemma_precedes_total(a.name@, b.name@);
        if text::precedes(a.name@, b.name@) && text::precedes(b.name@, a.name@) {
            text::lemma_precedes_transitive(a.name@, b.name@, a.name@);
            text::lemma_precedes_irreflexive(a.name@);
        }
    }

    proof fn ranks_transitive(a: &Self, b: &Self, c: &Self) {
        text::lemma_precedes_total(a.name@, b.name@);
        text::lemma_precedes_total(b.name@, c.name@);
        if a.tally.documents == b.tally.documents && b.tally.documents == c.tally.documents {
            if text::precedes(c.name@, a.name@) {
                if b.name@ == c.name@ {
                } else if a.name@ == b.name@ {
                } else {
                    text::lemma_precedes_transitive(b.name@, c.name@, a.name@);
                }
            }
        }
    }

    fn before(&self, other: &Self) -> (r: bool) {
        if self.tally.documents != other.tally.documents {
            self.tally.documents > other.tally.documents
        } else {
            !text::comes_before(other.name.as_str(), self.name.as_str())
        }
    }
}

/// A table's bounds hold: it never counts more recurring tokens than
/// `counts_max`, keeps no more spellings and phrases than `spellings_max`,
/// and keeps the spelling of no token it does not count.
pub proof fn law_bounds_hold(candidates: &Candidates)
    requires
        candidates.wf(),
    ensures
        candidates@.within_bounds(),
{
}

/// A token counts once per source: reading it again before the next source
/// begins changes nothing, however it is capitalized.
pub proof fn law_counts_once_per_source(table: Table, first: TokenView, again: TokenView)
    requires
        first.normalized == again.normalized,
        super::mine::has_letter(first.spelling),
    ensures
        table.with_token(first).with_token(again) == table.with_token(first),
{
}

/// A first sight costs no table entry: only the filter's bits and the
/// source's own set change.
pub proof fn law_first_sight_is_a_bit(table: Table, token: TokenView)
    requires
        !table.counts.contains_key(token_hash(token.normalized)),
        super::mine::is_first_sight(table.seen, token_hash(token.normalized), table.seen_bits),
    ensures
        table.with_token(token).counts == table.counts,
        table.with_token(token).spellings == table.spellings,
        table.with_token(token).phrases == table.phrases,
        table.with_token(token).dropped == table.dropped,
{
}

/// A proposed phrase counts documents only through matching: a source that
/// holds it adds one, the first time it does.
pub proof fn law_phrases_count_through_matching(
    table: Table,
    phrase: Seq<char>,
    tokens: Seq<TokenView>,
)
    requires
        table.phrases.contains_key(phrase),
    ensures
        table.with_phrase_matches(tokens).phrases[phrase].documents == if holds_phrase(
            tokens,
            phrase,
        ) && !table.phrases_in_source.contains(phrase) {
            one_more(table.phrases[phrase].documents)
        } else {
            table.phrases[phrase].documents
        },
        table.with_phrase_matches(tokens).counts == table.counts,
        table.with_phrase_matches(tokens).spellings == table.spellings,
{
}

/// A phrase counts once per source: once a text of the source held it, no
/// later text before the next source begins adds to it, and counting the
/// same text again changes nothing.
pub proof fn law_phrases_count_once_per_source(
    table: Table,
    tokens: Seq<TokenView>,
    again: Seq<TokenView>,
)
    ensures
        forall|phrase: Seq<char>| #[trigger]
            table.phrases.contains_key(phrase) && holds_phrase(tokens, phrase)
                ==> table.with_phrase_matches(tokens).with_phrase_matches(again).phrases[phrase]
                == table.with_phrase_matches(tokens).phrases[phrase],
        table.with_phrase_matches(tokens).with_phrase_matches(tokens)
            == table.with_phrase_matches(tokens),
{
    let held = Set::new(|phrase: Seq<char>| holds_phrase(tokens, phrase));
    lemma_counted_again(table, held, held);
    assert(held.union(held) =~= held);
    assert forall|phrase: Seq<char>| #[trigger]
        table.phrases.contains_key(phrase) && holds_phrase(
            tokens,
            phrase,
        ) implies table.with_phrase_matches(tokens).with_phrase_matches(again).phrases[phrase]
        == table.with_phrase_matches(tokens).phrases[phrase] by {
        assert(held.contains(phrase));
        assert(table.phrases.dom().contains(phrase));
        assert(table.with_phrase_matches(tokens).phrases_in_source.contains(phrase));
    }
}

/// A row shows a spelling with a shape mark.
pub proof fn law_rows_show_a_marked_spelling(candidates: &Candidates, hash: u64)
    requires
        candidates.wf(),
        candidates@.spellings.contains_key(hash),
    ensures
        candidates@.shape(candidates@.spellings[hash].spelling) != Shape::Plain,
{
}

/// The row a token keeps shows the spelling first seen with a shape mark:
/// once remembered, no later spelling takes its place.
pub proof fn law_first_marked_spelling_stays(table: Table, token: TokenView, hash: u64)
    requires
        table.marked.contains_key(hash),
    ensures
        table.with_token(token).marked.contains_key(hash),
        table.with_token(token).marked[hash] == table.marked[hash],
        table.spellings.contains_key(hash) ==> table.with_token(token).spellings.contains_key(hash)
            && table.with_token(token).spellings[hash].spelling == table.spellings[hash].spelling,
        !table.spellings.contains_key(hash) && table.with_token(token).spellings.contains_key(hash)
            ==> table.with_token(token).spellings[hash].spelling == table.marked[hash],
{
}


/// A phrase of as many tokens as one may have, with a shape mark among them,
/// is registered at no document while there is room, and shows its tokens as
/// they were spelled; no proposal changes a phrase that is there, or any
/// token.
pub proof fn law_a_proposed_phrase_is_registered(table: Table, phrase: Seq<char>)
    ensures
        ({
            let after = table.with_phrase(phrase);
            let tokens = super::mine::tokens_of(phrase);
            let words = Seq::new(tokens.len(), |i: int| tokens[i].normalized);
            let name = text::joined(words, " "@);
            let fits = 2 <= tokens.len() <= PHRASE_TOKENS_MAX && exists|i: int|
                0 <= i < tokens.len() && table.shape((#[trigger] tokens[i]).spelling)
                    != Shape::Plain;
            let room = table.spellings.len() + table.phrases.len() < table.spellings_max;
            &&& after.counts == table.counts
            &&& after.spellings == table.spellings
            &&& after.marked == table.marked
            &&& after.seen == table.seen
            &&& forall|other: Seq<char>| #[trigger]
                table.phrases.contains_key(other) ==> after.phrases.contains_key(other)
                    && after.phrases[other] == table.phrases[other]
            &&& forall|other: Seq<char>| #[trigger]
                after.phrases.contains_key(other) && !table.phrases.contains_key(other) ==> fits
                    && room && other == name
            &&& fits && room ==> after.phrases.contains_key(name)
            &&& fits && room && !table.phrases.contains_key(name) ==> {
                &&& after.phrases[name].documents == 0
                &&& after.phrases[name].derived
                &&& after.phrases[name].shape == Shape::Term
                &&& after.phrases[name].spelling == text::joined(
                    Seq::new(tokens.len(), |i: int| tokens[i].spelling),
                    " "@,
                )
            }
            &&& after.dropped == table.dropped + if fits && !room && table.dropped < u64::MAX {
                1int
            } else {
                0int
            }
        }),
{
    let tokens = super::mine::tokens_of(phrase);
    assert(super::mine::normalized_of(tokens) =~= Seq::new(
        tokens.len(),
        |i: int| tokens[i].normalized,
    ));
    assert(spellings_of(tokens) =~= Seq::new(tokens.len(), |i: int| tokens[i].spelling));
}

/// A token new to a source counts one document more where it is counted, and
/// begins at two where it was sighted before; with no room for another count
/// it is turned away, and that is all that is noted of it. No other token's
/// count changes.
pub proof fn law_a_token_counts_one_document(table: Table, token: TokenView)
    requires
        super::mine::has_letter(token.spelling),
        !table.in_source.contains(token_hash(token.normalized)),
    ensures
        ({
            let hash = token_hash(token.normalized);
            let after = table.with_token(token);
            let sighted = !super::mine::is_first_sight(table.seen, hash, table.seen_bits);
            &&& after.in_source == table.in_source.insert(hash)
            &&& table.counts.contains_key(hash) ==> after.counts.contains_key(hash) && (
            table.counts[hash].documents < u32::MAX ==> after.counts[hash].documents
                == table.counts[hash].documents + 1)
            &&& !table.counts.contains_key(hash) && sighted && table.counts.len()
                < table.counts_max ==> after.counts.contains_key(hash)
                && after.counts[hash].documents == 2
            &&& !table.counts.contains_key(hash) && sighted && table.counts.len()
                >= table.counts_max ==> after.counts == table.counts && after.spellings
                == table.spellings && (table.dropped < u64::MAX ==> after.dropped == table.dropped
                + 1)
            &&& forall|other: u64|
                other != hash ==> (#[trigger] after.counts.contains_key(other)
                    <==> table.counts.contains_key(other)) && (table.counts.contains_key(other)
                    ==> after.counts[other] == table.counts[other])
            &&& forall|other: u64|
                other != hash ==> (#[trigger] after.spellings.contains_key(other)
                    <==> table.spellings.contains_key(other)) && (table.spellings.contains_key(
                    other,
                ) ==> after.spellings[other] == table.spellings[other])
            &&& after.phrases == table.phrases
        }),
{
}
} // verus!
