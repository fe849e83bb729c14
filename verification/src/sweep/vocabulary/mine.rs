//! Mining and matching: the corpus's own words are the tokens rare in
//! general language that recur in a few of its documents, and they carry
//! the marks of internal naming: capitals inside a word, digits, hyphens,
//! dots, underscores. Everything here is a function of text: the
//! tokenizer, the shape rule, the bounded candidate counter, and the
//! n-gram matcher that runs over every source-content fragment.
//!
//! Counting is by the normalized spelling, so the frequency the band reads
//! is the frequency matching will find: `FOR` in a heading and `for` in a
//! sentence are one candidate, and a function word is never a candidate
//! however it is capitalized. The counter keeps a bit per token seen and a
//! count only for tokens seen twice, so memory follows the recurring
//! tokens, not the singletons. Both are keyed by a 64-bit hash of the
//! spelling: a collision merges two tokens' counts.

use vstd::prelude::*;
use vstd::hash_map::StringHashMap;
use crate::text;

verus! {

/// Longest token kept; anything longer is a blob, not a name.
pub const TOKEN_CHARS_MAX: usize = 64;

/// Shortest plain word that may be a candidate without a shape mark.
pub const PLAIN_WORD_CHARS_MIN: usize = 4;

/// Longest phrase a derived candidate may be, in tokens.
pub const PHRASE_TOKENS_MAX: usize = 4;

/// Distinct tokens the seen-filter is sized for. Past it the filter's
/// false-positive rate climbs, which only admits more singletons to the
/// counter, never loses a term.
pub const SEEN_TOKENS_CAPACITY: u64 = 32_000_000;

/// Bits per token in the seen-filter.
pub const SEEN_BITS_PER_TOKEN: u64 = 10;

/// Hashes per token in the seen-filter.
pub const SEEN_HASHES: u64 = 7;

// --- Words that are never names ---

/// The words a plain token is refused for: function words, which are never
/// candidates, and everyday words, which need a mark of internal naming to
/// be one.
pub struct Lexicon {
    stopwords: StringHashMap<bool>,
    common: StringHashMap<bool>,
}

/// The words of a list with one word per line, blank lines skipped.
pub open spec fn listed_words(list: Seq<char>) -> Set<Seq<char>> {
    Set::new(
        |word: Seq<char>|
            word.len() > 0 && exists|i: int|
                0 <= i < text::lines_of(list).len() && word == text::trimmed(
                    #[trigger] text::lines_of(list)[i],
                ),
    )
}

impl Lexicon {
    /// The function words.
    pub closed spec fn stopwords(&self) -> Set<Seq<char>> {
        self.stopwords@.dom()
    }

    /// The everyday words.
    pub closed spec fn common(&self) -> Set<Seq<char>> {
        self.common@.dom()
    }

    /// A lexicon of `stopwords` and of the words `common` lists, one word
    /// per line.
    pub fn new(stopwords: &Vec<String>, common: &str) -> (r: Self)
        ensures
            forall|word: Seq<char>|
                r.stopwords().contains(word) <==> text::views(stopwords@).contains(word),
            r.common() == listed_words(common@),
    {
        let mut stops: StringHashMap<bool> = StringHashMap::new();
        let mut i: usize = 0;
        while i < stopwords.len()
            invariant
                i <= stopwords@.len(),
                forall|word: Seq<char>|
                    stops@.dom().contains(word) <==> exists|j: int|
                        0 <= j < i && #[trigger] text::views(stopwords@)[j] == word,
            decreases stopwords.len() - i,
        {
            let ghost before = stops@;
            stops.insert(stopwords[i].clone(), true);
            proof {
                assert(text::views(stopwords@)[i as int] == stopwords@[i as int]@);
            }
            i = i + 1;
        }
        let lines = text::lines(common);
        let mut words: StringHashMap<bool> = StringHashMap::new();
        let mut k: usize = 0;
        while k < lines.len()
            invariant
                k <= lines@.len(),
                text::views(lines@) == text::lines_of(common@),
                forall|word: Seq<char>|
                    words@.dom().contains(word) <==> word.len() > 0 && exists|j: int|
                        0 <= j < k && word == text::trimmed(
                            #[trigger] text::lines_of(common@)[j],
                        ),
            decreases lines.len() - k,
        {
            let word = text::trim(lines[k].as_str());
            proof {
                assert(text::lines_of(common@)[k as int] == lines@[k as int]@);
            }
            if !word.as_str().is_empty() {
                words.insert(word, true);
            }
            k = k + 1;
        }
        let r = Lexicon { stopwords: stops, common: words };
        proof {
            assert forall|word: Seq<char>|
                r.stopwords().contains(word) <==> text::views(stopwords@).contains(word) by {
                if text::views(stopwords@).contains(word) {
                    let j = choose|j: int|
                        0 <= j < text::views(stopwords@).len() && text::views(stopwords@)[j]
                            == word;
                    assert(text::views(stopwords@)[j] == word);
                }
            }
            assert(r.common() =~= listed_words(common@));
        }
        r
    }

    /// Whether a lowercase word is a function word.
    pub fn is_stopword(&self, word: &str) -> (r: bool)
        ensures
            r == self.stopwords().contains(word@),
    {
        self.stopwords.contains_key(word)
    }
}

/// Whether a lowercase plain word is everyday language.
pub fn is_common_word(lexicon: &Lexicon, word: &str) -> (r: bool)
    ensures
        r == lexicon.common().contains(word@),
{
    lexicon.common.contains_key(word)
}

// --- Tokens ---

/// A token as the matcher sees it: normalized (lowercase) with the
/// original spelling kept for the row's text.
#[derive(Debug, Clone, PartialEq, Eq)]
pub struct Token {
    pub normalized: String,
    pub spelling: String,
}

/// The texts of a token.
pub struct TokenView {
    pub normalized: Seq<char>,
    pub spelling: Seq<char>,
}

impl View for Token {
    type V = TokenView;

    open spec fn view(&self) -> TokenView {
        TokenView { normalized: self.normalized@, spelling: self.spelling@ }
    }
}

/// The texts of a run of tokens.
pub open spec fn token_views(tokens: Seq<Token>) -> Seq<TokenView> {
    Seq::new(tokens.len(), |i: int| tokens[i]@)
}

/// The characters that end a token even inside a word: all but the
/// alphanumeric ones and `-`, `_`, `.`, `/` and `'`.
pub open spec fn separates(c: char) -> bool {
    !text::alphanumeric(c) && c != '-' && c != '_' && c != '.' && c != '/' && c != '\''
}

/// Where a text is cut into raw tokens.
pub open spec fn token_break(c: char) -> bool {
    text::whitespace(c) || separates(c)
}

/// Characters that end a token even inside a word.
pub fn is_separator(c: char) -> (r: bool)
    ensures
        r == separates(c),
{
    !c.is_alphanumeric() && c != '-' && c != '_' && c != '.' && c != '/' && c != '\''
}

/// A raw token without the punctuation at its edges.
pub open spec fn token_core(raw: Seq<char>) -> Seq<char> {
    text::trimmed_where(raw, |c: char| !text::alphanumeric(c))
}

/// The token a raw piece of text holds, if any: its core, unless nothing
/// is left of it or it is longer than a name can be.
pub open spec fn token_of(raw: Seq<char>) -> Option<TokenView> {
    let core = token_core(raw);
    if core.len() == 0 || core.len() > TOKEN_CHARS_MAX {
        None
    } else {
        Some(TokenView { normalized: text::lowercase(core), spelling: core })
    }
}

/// The tokens of a row of raw pieces, in order.
pub open spec fn tokens_among(raws: Seq<Seq<char>>) -> Seq<TokenView>
    decreases raws.len(),
{
    if raws.len() == 0 {
        Seq::empty()
    } else {
        let before = tokens_among(raws.drop_last());
        match token_of(raws.last()) {
            Some(token) => before.push(token),
            None => before,
        }
    }
}

/// The tokens of a text.
pub open spec fn tokens_of(s: Seq<char>) -> Seq<TokenView> {
    tokens_among(text::pieces(s, |c: char| token_break(c)))
}

/// Whether a token is as the tokenizer makes them: its spelling, read as a
/// text, is that one token.
pub open spec fn is_token(token: TokenView) -> bool {
    &&& token.normalized == text::lowercase(token.spelling)
    &&& tokens_of(token.spelling) == seq![token]
}

proof fn lemma_tokens_joined(a: Seq<Seq<char>>, b: Seq<Seq<char>>)
    ensures
        tokens_among(a + b) == tokens_among(a) + tokens_among(b),
    decreases b.len(),
{
    if b.len() == 0 {
        assert(a + b =~= a);
        assert(tokens_among(a) + tokens_among(b) =~= tokens_among(a));
    } else {
        lemma_tokens_joined(a, b.drop_last());
        assert((a + b).drop_last() =~= a + b.drop_last());
        assert((a + b).last() == b.last());
        assert(tokens_among(a + b) =~= tokens_among(a) + tokens_among(b));
    }
}

/// A text joined at a break has the tokens of both parts: those of the one,
/// then those of the other.
pub proof fn law_a_break_parts_tokens(a: Seq<char>, w: char, b: Seq<char>)
    requires
        token_break(w),
    ensures
        tokens_of(a + seq![w] + b) == tokens_of(a) + tokens_of(b),
{
    let at = |c: char| token_break(c);
    text::lemma_pieces_joined(a, w, b, at);
    lemma_tokens_joined(text::pieces(a, at), text::pieces(b, at));
}

/// Whitespace is a break: what stands on either side of it is read on its
/// own.
pub proof fn law_whitespace_parts_tokens(a: Seq<char>, w: char, b: Seq<char>)
    requires
        text::whitespace(w),
    ensures
        tokens_of(a + seq![w] + b) == tokens_of(a) + tokens_of(b),
{
    law_a_break_parts_tokens(a, w, b);
}

/// The token of an unbroken piece is one.
proof fn lemma_piece_token(raw: Seq<char>)
    requires
        forall|i: int| 0 <= i < raw.len() ==> !token_break(#[trigger] raw[i]),
    ensures
        token_of(raw) matches Some(token) ==> is_token(token),
{
    if let Some(token) = token_of(raw) {
        let off = |c: char| !text::alphanumeric(c);
        let at = |c: char| token_break(c);
        let core = token_core(raw);
        text::lemma_trimmed_where(raw, off);
        assert forall|i: int| 0 <= i < core.len() implies !at(#[trigger] core[i]) by {
            assert(raw.contains(core[i]));
            let j = choose|j: int| 0 <= j < raw.len() && raw[j] == core[i];
            assert(!token_break(raw[j]));
        }
        text::lemma_one_piece(core, at);
        assert(token_core(core) == core);
        assert(seq![core].drop_last() =~= Seq::<Seq<char>>::empty());
        assert(tokens_among(seq![core].drop_last()) =~= Seq::<TokenView>::empty());
        assert(tokens_of(core) =~= seq![token]);
    }
}

proof fn lemma_piece_tokens(raws: Seq<Seq<char>>)
    requires
        forall|i: int, j: int|
            0 <= i < raws.len() && 0 <= j < raws[i].len() ==> !token_break(#[trigger] raws[i][j]),
    ensures
        forall|k: int|
            0 <= k < tokens_among(raws).len() ==> is_token(#[trigger] tokens_among(raws)[k]),
    decreases raws.len(),
{
    if raws.len() > 0 {
        let front = raws.drop_last();
        assert forall|i: int, j: int| 0 <= i < front.len() && 0 <= j < front[i].len() implies !token_break(
            #[trigger] front[i][j],
        ) by {
            assert(raws[i][j] == front[i][j]);
        }
        lemma_piece_tokens(front);
        let last = raws.last();
        assert forall|i: int| 0 <= i < last.len() implies !token_break(#[trigger] last[i]) by {
            assert(raws[raws.len() - 1][i] == last[i]);
        }
        lemma_piece_token(last);
        assert forall|k: int| 0 <= k < tokens_among(raws).len() implies is_token(
            #[trigger] tokens_among(raws)[k],
        ) by {
            if k < tokens_among(front).len() {
                assert(tokens_among(raws)[k] == tokens_among(front)[k]);
            }
        }
    }
}

/// Every token of a text is one that stands for itself: reading its spelling
/// gives it back.
pub proof fn law_tokens_read_back(s: Seq<char>)
    ensures
        forall|k: int| 0 <= k < tokens_of(s).len() ==> is_token(#[trigger] tokens_of(s)[k]),
{
    let at = |c: char| token_break(c);
    let raws = text::pieces(s, at);
    text::lemma_pieces_unmarked(s, at);
    assert forall|i: int, j: int| 0 <= i < raws.len() && 0 <= j < raws[i].len() implies !token_break(
        #[trigger] raws[i][j],
    ) by {
        assert(!at(raws[i][j]));
    }
    lemma_piece_tokens(raws);
}

fn core_of(raw: &str) -> (r: String)
    ensures
        r@ == token_core(raw@),
{
    let chars = text::chars_of(raw);
    let mut marks: Vec<bool> = Vec::new();
    let mut i: usize = 0;
    while i < chars.len()
        invariant
            i <= chars@.len(),
            marks@.len() == i,
            forall|j: int| 0 <= j < i ==> marks@[j] == !text::alphanumeric(chars@[j]),
        decreases chars.len() - i,
    {
        marks.push(!chars[i].is_alphanumeric());
        i = i + 1;
    }
    text::trim_where(&chars, &marks, Ghost(|c: char| !text::alphanumeric(c)))
}

/// Split text into tokens: runs of alphanumerics with inner `-`, `_`, `.`,
/// `/`, `'` kept (so `eu-central-1`, `stream.timebox_finalized`, and
/// `v2.3.1` survive), edge punctuation trimmed, at most
/// [`TOKEN_CHARS_MAX`] long. Tokens without a letter (bare numbers) are
/// kept as breaks for phrases but never as candidates.
pub fn tokenize(s: &str) -> (r: Vec<Token>)
    ensures
        token_views(r@) == tokens_of(s@),
        forall|i: int| 0 <= i < r@.len() ==> is_token((#[trigger] r@[i])@),
{
    let chars = text::chars_of(s);
    let mut marks: Vec<bool> = Vec::new();
    let mut i: usize = 0;
    while i < chars.len()
        invariant
            i <= chars@.len(),
            marks@.len() == i,
            forall|j: int| 0 <= j < i ==> marks@[j] == token_break(chars@[j]),
        decreases chars.len() - i,
    {
        let c = chars[i];
        marks.push(c.is_whitespace() || is_separator(c));
        i = i + 1;
    }
    let raws = text::cut(&chars, &marks, Ghost(|c: char| token_break(c)));
    let ghost pieces = text::views(raws@);
    let mut out: Vec<Token> = Vec::new();
    let mut k: usize = 0;
    proof {
        assert(token_views(out@) =~= tokens_among(pieces.take(0)));
    }
    while k < raws.len()
        invariant
            k <= raws@.len(),
            pieces == text::views(raws@),
            token_views(out@) == tokens_among(pieces.take(k as int)),
        decreases raws.len() - k,
    {
        let core = core_of(raws[k].as_str());
        let ghost before = token_views(out@);
        proof {
            assert(pieces.take(k as int + 1).drop_last() =~= pieces.take(k as int));
            assert(pieces.take(k as int + 1).last() == raws@[k as int]@);
        }
        let length: usize = core.as_str().unicode_len();
        if length > 0 && length <= TOKEN_CHARS_MAX {
            let normalized = core.as_str().to_lowercase();
            out.push(Token { normalized, spelling: core });
        }
        proof {
            assert(token_views(out@) =~= tokens_among(pieces.take(k as int + 1)));
        }
        k = k + 1;
    }
    proof {
        assert(pieces.take(raws@.len() as int) =~= pieces);
        law_tokens_read_back(s@);
        assert forall|i: int| 0 <= i < out@.len() implies is_token((#[trigger] out@[i])@) by {
            assert(tokens_of(s@)[i] == token_views(out@)[i]);
        }
    }
    out
}

/// The normalized spellings of a run of tokens.
pub open spec fn normalized_of(tokens: Seq<TokenView>) -> Seq<Seq<char>> {
    Seq::new(tokens.len(), |i: int| tokens[i].normalized)
}

/// A run of tokens as one phrase.
pub open spec fn gram_of(tokens: Seq<TokenView>) -> Seq<char> {
    text::joined(normalized_of(tokens), " "@)
}

/// The normalized spellings of `tokens`, one space between neighbours.
pub fn join_normalized(tokens: &[Token]) -> (r: String)
    ensures
        r@ == gram_of(token_views(tokens@)),
{
    let mut words: Vec<String> = Vec::new();
    let mut i: usize = 0;
    while i < tokens.len()
        invariant
            i <= tokens@.len(),
            words@.len() == i,
            forall|j: int| 0 <= j < i ==> (#[trigger] words@[j])@ == tokens@[j]@.normalized,
        decreases tokens.len() - i,
    {
        words.push(tokens[i].normalized.clone());
        i = i + 1;
    }
    proof {
        assert(text::views(words@) =~= normalized_of(token_views(tokens@)));
    }
    text::join(&words, " ")
}

// --- Shapes ---

/// The shape of a token: what kind of vocabulary row it could be.
#[derive(Debug, Clone, Copy, PartialEq, Eq, PartialOrd, Ord, Structural)]
pub enum Shape {
    /// A function word, a number, a short plain word: no candidate.
    Plain,
    /// Inner capitals, hyphens, dots, or a long plain word: a term.
    Term,
    /// Digits, or the code marks (`_`, `/`, a ticket-like `ABC-123`): an
    /// exact identifier.
    Identifier,
}

impl Shape {
    /// How strong a mark is: none, a term, an identifier.
    pub open spec fn strength(self) -> nat {
        match self {
            Shape::Plain => 0,
            Shape::Term => 1,
            Shape::Identifier => 2,
        }
    }

    pub(crate) fn weight(self) -> (r: u8)
        ensures
            r == self.strength(),
    {
        match self {
            Shape::Plain => 0,
            Shape::Term => 1,
            Shape::Identifier => 2,
        }
    }

    /// The stronger of two marks.
    pub open spec fn stronger(self, other: Shape) -> Shape {
        if other.strength() >= self.strength() {
            other
        } else {
            self
        }
    }
}

/// Whether some character of `s` satisfies `p`.
pub open spec fn some_char(s: Seq<char>, p: spec_fn(char) -> bool) -> bool {
    exists|i: int| 0 <= i < s.len() && p(#[trigger] s[i])
}

/// Whether a token holds a letter.
pub open spec fn has_letter(s: Seq<char>) -> bool {
    some_char(s, |c: char| text::alphabetic(c))
}

/// Whether a token carries the marks of an exact identifier: an ASCII
/// digit, an underscore or a slash.
pub open spec fn has_code_mark(s: Seq<char>) -> bool {
    some_char(s, |c: char| ('0' <= c && c <= '9') || c == '_' || c == '/')
}

/// Whether a token carries the marks of an internal name: a capital after
/// its first character, a hyphen or a dot.
pub open spec fn has_word_mark(s: Seq<char>) -> bool {
    ||| exists|i: int| 0 < i < s.len() && text::uppercase(#[trigger] s[i])
    ||| some_char(s, |c: char| c == '-' || c == '.')
}

/// The shape of a spelling among `stopwords` and `common` words: none
/// without a letter and for a function word; an identifier for a code
/// mark; a term for a word mark or for a plain word that is long enough
/// and not everyday language.
pub open spec fn shape_among(
    stopwords: Set<Seq<char>>,
    common: Set<Seq<char>>,
    spelling: Seq<char>,
) -> Shape {
    let lower = text::lowercase(spelling);
    if !has_letter(spelling) || stopwords.contains(lower) {
        Shape::Plain
    } else if has_code_mark(spelling) {
        Shape::Identifier
    } else if has_word_mark(spelling) {
        Shape::Term
    } else if lower.len() >= PLAIN_WORD_CHARS_MIN && !common.contains(lower) {
        Shape::Term
    } else {
        Shape::Plain
    }
}

pub(crate) fn holds_letter(chars: &Vec<char>) -> (r: bool)
    ensures
        r == has_letter(chars@),
{
    let ghost p = |c: char| text::alphabetic(c);
    let mut i: usize = 0;
    while i < chars.len()
        invariant
            i <= chars@.len(),
            p == |c: char| text::alphabetic(c),
            forall|j: int| 0 <= j < i ==> !text::alphabetic(chars@[j]),
        decreases chars.len() - i,
    {
        if chars[i].is_alphabetic() {
            proof {
                assert(p(chars@[i as int]));
            }
            return true;
        }
        i = i + 1;
    }
    false
}

fn holds_code_mark(chars: &Vec<char>) -> (r: bool)
    ensures
        r == has_code_mark(chars@),
{
    let ghost p = |c: char| ('0' <= c && c <= '9') || c == '_' || c == '/';
    let mut i: usize = 0;
    while i < chars.len()
        invariant
            i <= chars@.len(),
            p == |c: char| ('0' <= c && c <= '9') || c == '_' || c == '/',
            forall|j: int| 0 <= j < i ==> !p(#[trigger] chars@[j]),
        decreases chars.len() - i,
    {
        let c = chars[i];
        if ('0' <= c && c <= '9') || c == '_' || c == '/' {
            proof {
                assert(p(chars@[i as int]));
            }
            return true;
        }
        i = i + 1;
    }
    false
}

fn holds_word_mark(chars: &Vec<char>) -> (r: bool)
    ensures
        r == has_word_mark(chars@),
{
    let ghost mark = |c: char| c == '-' || c == '.';
    let mut i: usize = 0;
    while i < chars.len()
        invariant
            i <= chars@.len(),
            mark == |c: char| c == '-' || c == '.',
            forall|j: int| 0 < j < i ==> !text::uppercase(#[trigger] chars@[j]),
            forall|j: int| 0 <= j < i ==> !mark(#[trigger] chars@[j]),
        decreases chars.len() - i,
    {
        let c = chars[i];
        if c == '-' || c == '.' {
            proof {
                assert(mark(chars@[i as int]));
            }
            return true;
        }
        if i > 0 && c.is_uppercase() {
            proof {
                assert(text::uppercase(chars@[i as int]));
            }
            return true;
        }
        i = i + 1;
    }
    false
}

/// Classify a token. The marks are read from the spelling; the function
/// word test from the normalized form, so `THE` is no more a candidate
/// than `the`. Plain words qualify only when long enough and not everyday
/// language ([`is_common_word`]); the document-frequency band then thins
/// what is left.
pub fn shape_of(lexicon: &Lexicon, spelling: &str) -> (r: Shape)
    ensures
        r == shape_among(lexicon.stopwords(), lexicon.common(), spelling@),
{
    let chars = text::chars_of(spelling);
    if !holds_letter(&chars) {
        return Shape::Plain;
    }
    let lower = spelling.to_lowercase();
    if lexicon.is_stopword(lower.as_str()) {
        return Shape::Plain;
    }
    if holds_code_mark(&chars) {
        return Shape::Identifier;
    }
    if holds_word_mark(&chars) {
        return Shape::Term;
    }
    if lower.as_str().unicode_len() >= PLAIN_WORD_CHARS_MIN && !is_common_word(lexicon, lower.as_str()) {
        return Shape::Term;
    }
    Shape::Plain
}

// --- Keyword rows ---

/// Where a keywords row is cut.
pub open spec fn keyword_break(c: char) -> bool {
    c == ',' || c == '\n' || c == ';'
}

/// The phrases among a row's raw pieces: each trimmed, empty ones dropped.
pub open spec fn phrases_among(raws: Seq<Seq<char>>) -> Seq<Seq<char>>
    decreases raws.len(),
{
    if raws.len() == 0 {
        Seq::empty()
    } else {
        let before = phrases_among(raws.drop_last());
        let phrase = text::trimmed(raws.last());
        if phrase.len() == 0 {
            before
        } else {
            before.push(phrase)
        }
    }
}

/// Split a keywords row (`a, b, c`) into its phrases.
pub fn keyword_phrases(s: &str) -> (r: Vec<String>)
    ensures
        text::views(r@) == phrases_among(text::pieces(s@, |c: char| keyword_break(c))),
{
    let chars = text::chars_of(s);
    let mut marks: Vec<bool> = Vec::new();
    let mut i: usize = 0;
    while i < chars.len()
        invariant
            i <= chars@.len(),
            marks@.len() == i,
            forall|j: int| 0 <= j < i ==> marks@[j] == keyword_break(chars@[j]),
        decreases chars.len() - i,
    {
        let c = chars[i];
        marks.push(c == ',' || c == '\n' || c == ';');
        i = i + 1;
    }
    let raws = text::cut(&chars, &marks, Ghost(|c: char| keyword_break(c)));
    let ghost pieces = text::views(raws@);
    let mut out: Vec<String> = Vec::new();
    let mut k: usize = 0;
    proof {
        assert(text::views(out@) =~= phrases_among(pieces.take(0)));
    }
    while k < raws.len()
        invariant
            k <= raws@.len(),
            pieces == text::views(raws@),
            text::views(out@) == phrases_among(pieces.take(k as int)),
        decreases raws.len() - k,
    {
        let phrase = text::trim(raws[k].as_str());
        proof {
            assert(pieces.take(k as int + 1).drop_last() =~= pieces.take(k as int));
            assert(pieces.take(k as int + 1).last() == raws@[k as int]@);
        }
        if !phrase.as_str().is_empty() {
            out.push(phrase);
        }
        proof {
            assert(text::views(out@) =~= phrases_among(pieces.take(k as int + 1)));
        }
        k = k + 1;
    }
    proof {
        assert(pieces.take(raws@.len() as int) =~= pieces);
    }
    out
}

// --- The seen-filter ---

/// A bit per token seen: a Bloom filter over token hashes, so a token's
/// first sighting costs one bit and only its second a table entry. The
/// hashes are the Kirsch-Mitzenmacher combination of the token's hash and
/// a second one derived from it.
pub struct SeenFilter {
    bits: Vec<u64>,
    bit_count: u64,
}

/// Whether bit `i` of `word` is set.
pub open spec fn bit_of(word: u64, i: u64) -> bool {
    word & (1u64 << i) != 0
}

/// The bits a filter of `capacity` tokens has: ten a token, at least one
/// word, and no more than can be counted.
pub open spec fn filter_bits(capacity: u64) -> int {
    let wanted = capacity * SEEN_BITS_PER_TOKEN;
    if wanted > u64::MAX {
        u64::MAX as int
    } else if wanted < 64 {
        64
    } else {
        wanted
    }
}

/// The second hash of a token: the first with its halves swapped, times an
/// odd constant, plus one, all modulo 2^64.
pub open spec fn second_hash(hash: u64) -> u64 {
    let swapped = (hash << 32u64) | (hash >> 32u64);
    swapped.wrapping_mul(0x9E37_79B9_7F4A_7C15u64).wrapping_add(1u64)
}

/// The `i`th bit a token is recorded in.
pub open spec fn probe(hash: u64, i: u64, bit_count: u64) -> u64 {
    (hash.wrapping_add(i.wrapping_mul(second_hash(hash))) % bit_count) as u64
}

/// The first `n` bits a token is recorded in.
pub open spec fn first_probes(hash: u64, n: nat, bit_count: u64) -> Set<u64>
    decreases n,
{
    if n == 0 {
        Set::empty()
    } else {
        first_probes(hash, (n - 1) as nat, bit_count).insert(
            probe(hash, (n - 1) as u64, bit_count),
        )
    }
}

/// The bits a token is recorded in.
pub open spec fn probes(hash: u64, bit_count: u64) -> Set<u64> {
    first_probes(hash, SEEN_HASHES as nat, bit_count)
}

/// Whether a filter with `set_bits` set has not recorded the token.
pub open spec fn is_first_sight(set_bits: Set<u64>, hash: u64, bit_count: u64) -> bool {
    !probes(hash, bit_count).subset_of(set_bits)
}

proof fn lemma_set_bit(word: u64, i: u64, j: u64)
    requires
        i < 64,
        j < 64,
    ensures
        bit_of(word | (1u64 << i), j) == (bit_of(word, j) || i == j),
{
    assert((word | (1u64 << i)) & (1u64 << j) != 0 <==> (word & (1u64 << j) != 0 || i == j))
        by (bit_vector)
        requires
            i < 64,
            j < 64,
    ;
}

impl SeenFilter {
    /// The bits set.
    #[verifier::opaque]
    pub closed spec fn set_bits(&self) -> Set<u64> {
        Set::new(
            |b: u64| b < self.bit_count && bit_of(self.bits@[b as int / 64], (b % 64) as u64),
        )
    }

    /// The bits there are.
    pub closed spec fn bit_count(&self) -> u64 {
        self.bit_count
    }

    /// A filter has a bit, and a word for every bit.
    pub closed spec fn wf(&self) -> bool {
        &&& self.bit_count >= 64
        &&& self.bits@.len() * 64 >= self.bit_count
    }

    /// Setting one bit adds exactly that bit.
    proof fn lemma_marked(self, next: SeenFilter, bit: u64)
        requires
            self.wf(),
            bit < self.bit_count,
            next.bit_count == self.bit_count,
            next.bits@ == self.bits@.update(
                bit as int / 64,
                self.bits@[bit as int / 64] | (1u64 << (bit % 64) as u64),
            ),
            !bit_of(self.bits@[bit as int / 64], (bit % 64) as u64),
        ensures
            !self.set_bits().contains(bit),
            next.set_bits() == self.set_bits().insert(bit),
    {
        reveal(SeenFilter::set_bits);
        assert forall|b: u64| #[trigger]
            next.set_bits().contains(b) <==> self.set_bits().insert(bit).contains(b) by {
            if b < self.bit_count {
                lemma_set_bit(
                    self.bits@[bit as int / 64],
                    (bit % 64) as u64,
                    (b % 64) as u64,
                );
                if b as int / 64 != bit as int / 64 {
                    assert(next.bits@[b as int / 64] == self.bits@[b as int / 64]);
                } else {
                    assert(b == 64 * (b as int / 64) + b % 64);
                    assert(bit == 64 * (bit as int / 64) + bit % 64);
                }
            }
        }
        assert(next.set_bits() =~= self.set_bits().insert(bit));
    }

    /// An empty filter with room for `capacity` tokens.
    pub fn new(capacity: u64) -> (r: Self)
        requires
            capacity >= 1,
            filter_bits(capacity) / 64 < usize::MAX,
        ensures
            r.wf(),
            r.bit_count() == filter_bits(capacity),
            r.set_bits() == Set::<u64>::empty(),
    {
        let wanted: u64 = if capacity > u64::MAX / SEEN_BITS_PER_TOKEN {
            u64::MAX
        } else {
            capacity * SEEN_BITS_PER_TOKEN
        };
        let bit_count: u64 = if wanted < 64 {
            64
        } else {
            wanted
        };
        let words: u64 = if bit_count % 64 == 0 {
            bit_count / 64
        } else {
            bit_count / 64 + 1
        };
        let bits: Vec<u64> = vec![0u64;words as usize];
        let r = SeenFilter { bits, bit_count };
        proof {
            reveal(SeenFilter::set_bits);
            assert(forall|i: int| 0 <= i < bits@.len() ==> bits@[i] == 0u64);
            assert forall|b: u64| !r.set_bits().contains(b) by {
                if b < bit_count {
                    let w = bits@[b as int / 64];
                    let j = (b % 64) as u64;
                    assert(0u64 & (1u64 << j) == 0) by (bit_vector);
                }
            }
            assert(r.set_bits() =~= Set::<u64>::empty());
        }
        r
    }

    /// Set one bit; `true` when it was clear.
    fn mark(&mut self, bit: u64) -> (clear: bool)
        requires
            old(self).wf(),
            bit < old(self).bit_count,
        ensures
            final(self).wf(),
            final(self).bit_count == old(self).bit_count,
            clear == !old(self).set_bits().contains(bit),
            final(self).set_bits() == old(self).set_bits().insert(bit),
    {
        let words: usize = self.bits.len();
        proof {
            reveal(SeenFilter::set_bits);
            assert(bit / 64 < words);
        }
        let word: usize = (bit / 64) as usize;
        let place: u64 = bit % 64;
        let mask: u64 = 1u64 << place;
        let held: u64 = self.bits[word];
        proof {
            assert(word == bit as int / 64);
            assert(place == (bit % 64) as u64);
            assert(bit_of(held, place) == (held & mask != 0));
        }
        if held & mask == 0 {
            self.bits.set(word, held | mask);
            proof {
                old(self).lemma_marked(*self, bit);
            }
            true
        } else {
            proof {
                assert(self.set_bits().contains(bit));
                assert(self.set_bits() =~= self.set_bits().insert(bit));
            }
            false
        }
    }

    /// Mark a token seen; `true` when it was not seen before (as far as
    /// the filter can tell).
    pub fn insert(&mut self, hash: u64) -> (fresh: bool)
        requires
            old(self).wf(),
        ensures
            final(self).wf(),
            final(self).bit_count() == old(self).bit_count(),
            fresh == is_first_sight(old(self).set_bits(), hash, old(self).bit_count()),
            final(self).set_bits() == old(self).set_bits().union(
                probes(hash, old(self).bit_count()),
            ),
    {
        let swapped: u64 = (hash << 32u64) | (hash >> 32u64);
        let second: u64 = swapped.wrapping_mul(0x9E37_79B9_7F4A_7C15u64).wrapping_add(1u64);
        let mut fresh = false;
        let mut i: u64 = 0;
        let ghost start = self.set_bits();
        proof {
            assert(start.union(Set::<u64>::empty()) =~= start);
        }
        while i < SEEN_HASHES
            invariant
                i <= SEEN_HASHES,
                self.wf(),
                self.bit_count == old(self).bit_count,
                start == old(self).set_bits(),
                second == second_hash(hash),
                self.set_bits() == start.union(first_probes(hash, i as nat, self.bit_count)),
                fresh == !first_probes(hash, i as nat, self.bit_count).subset_of(start),
            decreases SEEN_HASHES - i,
        {
            let bit: u64 = hash.wrapping_add(i.wrapping_mul(second)) % self.bit_count;
            let ghost before = first_probes(hash, i as nat, self.bit_count);
            let ghost after = first_probes(hash, i as nat + 1, self.bit_count);
            proof {
                assert(bit == probe(hash, i, self.bit_count));
                assert(after == before.insert(bit));
                assert(start.union(before).insert(bit) =~= start.union(after));
                assert(before.subset_of(start) ==> start.union(before) =~= start);
                assert(after.contains(bit));
                if !before.subset_of(start) {
                    let b = choose|b: u64| before.contains(b) && !start.contains(b);
                    assert(after.contains(b));
                }
            }
            let clear = self.mark(bit);
            if clear {
                fresh = true;
            }
            i = i + 1;
        }
        fresh
    }
}

/// The bits set once every token of `hashes` was inserted.
pub open spec fn marked(set_bits: Set<u64>, hashes: Seq<u64>, bit_count: u64) -> Set<u64>
    decreases hashes.len(),
{
    if hashes.len() == 0 {
        set_bits
    } else {
        marked(set_bits, hashes.drop_last(), bit_count).union(probes(hashes.last(), bit_count))
    }
}

proof fn lemma_marks_stay(set_bits: Set<u64>, hashes: Seq<u64>, bit_count: u64)
    ensures
        set_bits.subset_of(marked(set_bits, hashes, bit_count)),
    decreases hashes.len(),
{
    if hashes.len() > 0 {
        lemma_marks_stay(set_bits, hashes.drop_last(), bit_count);
    }
}

/// A token is reported as a first sight at most once: whatever is inserted
/// after it, inserting it again is not fresh.
pub proof fn law_first_sight_once(
    set_bits: Set<u64>,
    hash: u64,
    later: Seq<u64>,
    bit_count: u64,
)
    ensures
        !is_first_sight(
            marked(set_bits.union(probes(hash, bit_count)), later, bit_count),
            hash,
            bit_count,
        ),
{
    let once = set_bits.union(probes(hash, bit_count));
    lemma_marks_stay(once, later, bit_count);
    assert forall|b: u64| probes(hash, bit_count).contains(b) implies marked(
        once,
        later,
        bit_count,
    ).contains(b) by {
        assert(once.contains(b));
    }
}

/// A filter never takes a token it has not seen for seen by losing it: an
/// empty filter reports every token as a first sight.
pub proof fn law_empty_filter_has_seen_nothing(hash: u64, bit_count: u64)
    ensures
        is_first_sight(Set::empty(), hash, bit_count),
{
    reveal_with_fuel(first_probes, 2);
    let b = probe(hash, (SEEN_HASHES - 1) as u64, bit_count);
    assert(probes(hash, bit_count).contains(b));
}


/// The phrases of a keywords row are its pieces, each without the whitespace
/// around it, in order, those that say nothing left out.
pub proof fn law_every_keyword_is_a_phrase(raws: Seq<Seq<char>>)
    ensures
        phrases_among(raws) == raws.map_values(|raw: Seq<char>| text::trimmed(raw)).filter(
            |phrase: Seq<char>| phrase.len() > 0,
        ),
    decreases raws.len(),
{
    reveal(Seq::filter);
    let trim = |raw: Seq<char>| text::trimmed(raw);
    if raws.len() > 0 {
        law_every_keyword_is_a_phrase(raws.drop_last());
        assert(raws.map_values(trim).drop_last() =~= raws.drop_last().map_values(trim));
    } else {
        assert(raws.map_values(trim) =~= Seq::empty());
    }
}

/// The stronger of two shapes is one of them and no weaker than either, and
/// an identifier is stronger than a term, a term than a plain word.
pub proof fn law_the_stronger_shape_stands(a: Shape, b: Shape)
    ensures
        a.stronger(b) == a || a.stronger(b) == b,
        a.stronger(b) == b.stronger(a),
        a.stronger(a) == a,
        a == Shape::Identifier ==> a.stronger(b) == a,
        a == Shape::Plain ==> a.stronger(b) == b,
{
}

/// What a spelling's shape is: without a letter, and for a function word,
/// plain; else an identifier exactly when it carries a code mark, whatever
/// else it carries.
pub proof fn law_code_marks_make_identifiers(
    stopwords: Set<Seq<char>>,
    common: Set<Seq<char>>,
    spelling: Seq<char>,
)
    ensures
        shape_among(stopwords, common, spelling) == Shape::Identifier <==> (!stopwords.contains(
            text::lowercase(spelling),
        ) && (exists|i: int| 0 <= i < spelling.len() && text::alphabetic(#[trigger] spelling[i]))
            && (exists|i: int|
            0 <= i < spelling.len() && (('0' <= #[trigger] spelling[i] && spelling[i] <= '9')
                || spelling[i] == '_' || spelling[i] == '/'))),
        stopwords.contains(text::lowercase(spelling)) ==> shape_among(stopwords, common, spelling)
            == Shape::Plain,
        (forall|i: int| 0 <= i < spelling.len() ==> !text::alphabetic(#[trigger] spelling[i]))
            ==> shape_among(stopwords, common, spelling) == Shape::Plain,
{
    let letter = |c: char| text::alphabetic(c);
    let mark = |c: char| ('0' <= c && c <= '9') || c == '_' || c == '/';
    assert(has_letter(spelling) <==> exists|i: int|
        0 <= i < spelling.len() && text::alphabetic(#[trigger] spelling[i])) by {
        if exists|i: int| 0 <= i < spelling.len() && text::alphabetic(#[trigger] spelling[i]) {
            let i = choose|i: int|
                0 <= i < spelling.len() && text::alphabetic(#[trigger] spelling[i]);
            assert(letter(spelling[i]));
        }
    }
    assert(has_code_mark(spelling) <==> exists|i: int|
        0 <= i < spelling.len() && (('0' <= #[trigger] spelling[i] && spelling[i] <= '9')
            || spelling[i] == '_' || spelling[i] == '/')) by {
        if exists|i: int|
            0 <= i < spelling.len() && (('0' <= #[trigger] spelling[i] && spelling[i] <= '9')
                || spelling[i] == '_' || spelling[i] == '/') {
            let i = choose|i: int|
                0 <= i < spelling.len() && (('0' <= #[trigger] spelling[i] && spelling[i] <= '9')
                    || spelling[i] == '_' || spelling[i] == '/');
            assert(mark(spelling[i]));
        }
    }
}

/// A word is read as a token: what stands between two breaks, without the
/// punctuation at its edges, is one token in its own spelling and in
/// lowercase, unless nothing is left of it or it is longer than a name can
/// be.
pub proof fn law_a_word_is_one_token(before: Seq<char>, core: Seq<char>, after: Seq<char>)
    requires
        core.len() > 0,
        text::alphanumeric(core[0]),
        text::alphanumeric(core.last()),
        forall|i: int| 0 <= i < core.len() ==> !token_break(#[trigger] core[i]),
        forall|i: int|
            0 <= i < before.len() ==> !token_break(#[trigger] before[i]) && !text::alphanumeric(
                before[i],
            ),
        forall|i: int|
            0 <= i < after.len() ==> !token_break(#[trigger] after[i]) && !text::alphanumeric(
                after[i],
            ),
    ensures
        core.len() <= TOKEN_CHARS_MAX ==> tokens_of(before + core + after) == seq![
            TokenView { normalized: text::lowercase(core), spelling: core },
        ],
        core.len() > TOKEN_CHARS_MAX ==> tokens_of(before + core + after).len() == 0,
        tokens_of(before).len() == 0,
{
    let whole = before + core + after;
    let off = |c: char| !text::alphanumeric(c);
    let at = |c: char| token_break(c);
    assert forall|i: int| 0 <= i < whole.len() implies !at(#[trigger] whole[i]) by {
        if i < before.len() {
            assert(whole[i] == before[i]);
        } else if i < before.len() + core.len() {
            assert(whole[i] == core[i - before.len()]);
        } else {
            assert(whole[i] == after[i - before.len() - core.len()]);
        }
    }
    text::lemma_one_piece(whole, at);
    let cut = text::law_trimming_takes_only_the_edges(whole, off);
    let from = before.len() as int;
    let to = from + core.len();
    assert(whole[from] == core[0]);
    assert(whole[to - 1] == core[core.len() - 1]);
    assert(cut.0 <= from) by {
        if cut.0 > from {
            assert(off(whole[from]));
        }
    }
    assert(cut.1 >= to) by {
        if cut.1 < to {
            assert(off(whole[to - 1]));
        }
    }
    assert(cut.0 == from) by {
        if cut.0 < from {
            assert(whole[cut.0] == before[cut.0]);
        }
    }
    assert(cut.1 == to) by {
        if cut.1 > to {
            assert(whole[cut.1 - 1] == after[cut.1 - 1 - to]);
        }
    }
    assert(whole.subrange(from, to) =~= core);
    let raws = seq![whole];
    assert(raws.drop_last() =~= Seq::empty());
    assert(tokens_among(raws.drop_last()) =~= Seq::empty());
    assert(raws.last() == whole);
    assert(core.len() <= TOKEN_CHARS_MAX ==> tokens_among(raws) =~= seq![
        TokenView { normalized: text::lowercase(core), spelling: core },
    ]);
    assert forall|i: int| 0 <= i < before.len() implies !at(#[trigger] before[i]) by {}
    text::lemma_one_piece(before, at);
    let bare = text::law_trimming_takes_only_the_edges(before, off);
    assert(bare.0 == bare.1) by {
        if bare.0 < bare.1 {
            assert(!off(before[bare.0]));
        }
    }
    assert(seq![before].drop_last() =~= Seq::empty());
    assert(seq![before].last() == before);
}

/// A token is recorded in as many probes as the filter makes, each of them a
/// bit the filter has.
pub proof fn law_a_token_is_recorded_in_its_probes(hash: u64, n: nat, bit_count: u64, bit: u64)
    requires
        bit_count > 0,
        n <= u64::MAX,
    ensures
        first_probes(hash, n, bit_count).contains(bit) <==> exists|i: u64|
            i < n && bit == #[trigger] probe(hash, i, bit_count),
        first_probes(hash, n, bit_count).contains(bit) ==> bit < bit_count,
    decreases n,
{
    if n > 0 {
        law_a_token_is_recorded_in_its_probes(hash, (n - 1) as nat, bit_count, bit);
        if bit == probe(hash, (n - 1) as u64, bit_count) {
            assert(((n - 1) as u64) < n);
        }
        if exists|i: u64| i < n && bit == #[trigger] probe(hash, i, bit_count) {
            let i = choose|i: u64| i < n && bit == #[trigger] probe(hash, i, bit_count);
            if i < n - 1 {
                assert(first_probes(hash, (n - 1) as nat, bit_count).contains(bit));
            } else {
                assert(i == (n - 1) as u64);
            }
        }
    }
}
} // verus!
