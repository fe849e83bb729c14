//! What a whole run of sources leaves in the candidate table, and how the
//! bands of one table fit together.

use vstd::prelude::*;
use crate::text;
use super::candidates::{CandidateKey, Table, TallyView};
use super::mine::{Shape, TokenView};

verus! {

// --- Bands ---

/// Two strictly ordered bands with the same entries are one band.
proof fn lemma_one_band(a: Seq<(Seq<char>, TallyView)>, b: Seq<(Seq<char>, TallyView)>)
    requires
        super::candidates::strictly_banded(a),
        super::candidates::strictly_banded(b),
        forall|entry: (Seq<char>, TallyView)| #[trigger] a.contains(entry) <==> b.contains(entry),
    ensures
        a == b,
    decreases a.len(),
{
    if a.len() == 0 {
        if b.len() > 0 {
            assert(b.contains(b[0]));
            assert(!a.contains(b[0]));
        }
        assert(a =~= b);
    } else {
        assert(a.contains(a.last()));
        assert(b.len() > 0);
        assert(b.contains(b.last()));
        assert(a.contains(b.last()));
        let i = choose|i: int| 0 <= i < b.len() && b[i] == a.last();
        let j = choose|j: int| 0 <= j < a.len() && a[j] == b.last();
        if a.last() != b.last() {
            assert(super::candidates::band_before(b[i], b[b.len() - 1]));
            assert(super::candidates::band_before(a[j], a[a.len() - 1]));
            lemma_band_one_way(a.last(), b.last());
        }
        assert forall|entry: (Seq<char>, TallyView)| #[trigger]
            a.drop_last().contains(entry) <==> b.drop_last().contains(entry) by {
            lemma_all_but_last(a, entry);
            lemma_all_but_last(b, entry);
            assert(a.contains(entry) <==> b.contains(entry));
        }
        lemma_one_band(a.drop_last(), b.drop_last());
        assert(a =~= a.drop_last().push(a.last()));
        assert(b =~= b.drop_last().push(b.last()));
    }
}

proof fn lemma_band_one_way(a: (Seq<char>, TallyView), b: (Seq<char>, TallyView))
    ensures
        !(super::candidates::band_before(a, b) && super::candidates::band_before(b, a)),
{
    if text::precedes(a.0, b.0) && text::precedes(b.0, a.0) {
        text::lemma_precedes_transitive(a.0, b.0, a.0);
        text::lemma_precedes_irreflexive(a.0);
    }
}

proof fn lemma_all_but_last(band: Seq<(Seq<char>, TallyView)>, entry: (Seq<char>, TallyView))
    requires
        super::candidates::strictly_banded(band),
        band.len() > 0,
    ensures
        band.drop_last().contains(entry) <==> band.contains(entry) && entry != band.last(),
{
    if band.drop_last().contains(entry) {
        let i = choose|i: int| 0 <= i < band.drop_last().len() && band.drop_last()[i] == entry;
        assert(band[i] == entry);
        assert(super::candidates::band_before(band[i], band[band.len() - 1]));
        lemma_band_one_way(entry, entry);
    }
    if band.contains(entry) && entry != band.last() {
        let i = choose|i: int| 0 <= i < band.len() && band[i] == entry;
        assert(band.drop_last()[i] == entry);
    }
}

/// A band lists what its candidates are listed as, and nothing else.
proof fn lemma_band_entries(
    table: Table,
    min: u32,
    max: u32,
    band: Seq<(Seq<char>, TallyView)>,
    entry: (Seq<char>, TallyView),
)
    requires
        table.lists_band(min, max, band),
    ensures
        band.contains(entry) <==> exists|key: CandidateKey| #[trigger]
            table.in_range(key, min, max) && table.entry(key) == entry,
        band.contains(entry) ==> min <= entry.1.documents <= max,
{
    let keys = choose|keys: Seq<CandidateKey>| #[trigger]
        table.enumerates_band(min, max, keys) && band == Seq::new(
            keys.len(),
            |i: int| table.entry(keys[i]),
        );
    if band.contains(entry) {
        let i = choose|i: int| 0 <= i < band.len() && band[i] == entry;
        assert(keys.contains(keys[i]));
        assert(table.in_range(keys[i], min, max) && table.entry(keys[i]) == entry);
    }
    if exists|key: CandidateKey| #[trigger]
        table.in_range(key, min, max) && table.entry(key) == entry {
        let key = choose|key: CandidateKey| #[trigger]
            table.in_range(key, min, max) && table.entry(key) == entry;
        assert(keys.contains(key));
        let i = choose|i: int| 0 <= i < keys.len() && keys[i] == key;
        assert(band[i] == entry);
    }
}

/// A table that has counted only tokens as the tokenizer makes them has one
/// band for any bounds: the same bounds list the same candidates in the same
/// order.
pub proof fn law_a_band_is_one(
    table: Table,
    min: u32,
    max: u32,
    a: Seq<(Seq<char>, TallyView)>,
    b: Seq<(Seq<char>, TallyView)>,
)
    requires
        table.well_named(),
        table.lists_band(min, max, a),
        table.lists_band(min, max, b),
    ensures
        a == b,
{
    super::candidates::law_a_band_names_nothing_twice(table, min, max, a);
    super::candidates::law_a_band_names_nothing_twice(table, min, max, b);
    assert forall|entry: (Seq<char>, TallyView)| #[trigger] a.contains(entry) <==> b.contains(
        entry,
    ) by {
        lemma_band_entries(table, min, max, a, entry);
        lemma_band_entries(table, min, max, b, entry);
    }
    lemma_one_band(a, b);
}

/// A band splits at any count inside it: the candidates above the count,
/// then those up to it. The table has counted only tokens as the tokenizer
/// makes them; with others, two rows may share a name and a count, and
/// nothing says which comes first.
pub proof fn law_a_band_splits(
    table: Table,
    min: u32,
    at: u32,
    max: u32,
    whole: Seq<(Seq<char>, TallyView)>,
    above: Seq<(Seq<char>, TallyView)>,
    below: Seq<(Seq<char>, TallyView)>,
)
    requires
        min <= at < max,
        table.well_named(),
        table.lists_band(min, max, whole),
        table.lists_band((at + 1) as u32, max, above),
        table.lists_band(min, at, below),
    ensures
        whole == above + below,
{
    let both = above + below;
    super::candidates::law_a_band_names_nothing_twice(table, min, max, whole);
    super::candidates::law_a_band_names_nothing_twice(table, (at + 1) as u32, max, above);
    super::candidates::law_a_band_names_nothing_twice(table, min, at, below);
    assert forall|i: int, j: int| 0 <= i < j < both.len() implies super::candidates::band_before(
        #[trigger] both[i],
        #[trigger] both[j],
    ) by {
        if i < above.len() && j >= above.len() {
            assert(above.contains(above[i]));
            assert(below.contains(below[j - above.len()]));
            lemma_band_entries(table, (at + 1) as u32, max, above, above[i]);
            lemma_band_entries(table, min, at, below, below[j - above.len()]);
        } else if j < above.len() {
            assert(super::candidates::band_before(above[i], above[j]));
        } else {
            assert(super::candidates::band_before(
                below[i - above.len()],
                below[j - above.len()],
            ));
        }
    }
    assert forall|entry: (Seq<char>, TallyView)| #[trigger] whole.contains(entry) <==> both.contains(
        entry,
    ) by {
        lemma_band_entries(table, min, max, whole, entry);
        lemma_band_entries(table, (at + 1) as u32, max, above, entry);
        lemma_band_entries(table, min, at, below, entry);
        if whole.contains(entry) {
            let key = choose|key: CandidateKey| #[trigger]
                table.in_range(key, min, max) && table.entry(key) == entry;
            if entry.1.documents > at {
                assert(table.in_range(key, (at + 1) as u32, max));
                let i = choose|i: int| 0 <= i < above.len() && above[i] == entry;
                assert(both[i] == entry);
            } else {
                assert(table.in_range(key, min, at));
                let i = choose|i: int| 0 <= i < below.len() && below[i] == entry;
                assert(both[above.len() + i] == entry);
            }
        }
        if both.contains(entry) {
            let i = choose|i: int| 0 <= i < both.len() && both[i] == entry;
            if i < above.len() {
                assert(above.contains(above[i]));
                let key = choose|key: CandidateKey| #[trigger]
                    table.in_range(key, (at + 1) as u32, max) && table.entry(key) == entry;
                assert(table.in_range(key, min, max));
            } else {
                assert(below.contains(below[i - above.len()]));
                let key = choose|key: CandidateKey| #[trigger]
                    table.in_range(key, min, at) && table.entry(key) == entry;
                assert(table.in_range(key, min, max));
            }
        }
    }
    lemma_one_band(whole, both);
}

// --- Runs ---

/// Whether a token is the word: its normalized spelling, with a letter.
pub open spec fn speaks(token: TokenView, word: Seq<char>) -> bool {
    token.normalized == word && super::mine::has_letter(token.spelling)
}

/// The spelling a source first has a word in.
pub open spec fn spelled_in(tokens: Seq<TokenView>, word: Seq<char>) -> Option<Seq<char>>
    decreases tokens.len(),
{
    if tokens.len() == 0 {
        None
    } else {
        match spelled_in(tokens.drop_last(), word) {
            Some(spelling) => Some(spelling),
            None => if speaks(tokens.last(), word) {
                Some(tokens.last().spelling)
            } else {
                None
            },
        }
    }
}

/// How many sources of a run hold a word, in any casing.
pub open spec fn holders(run: Seq<Seq<TokenView>>, word: Seq<char>) -> nat
    decreases run.len(),
{
    if run.len() == 0 {
        0
    } else if spelled_in(run.last(), word) is Some {
        holders(run.drop_last(), word) + 1
    } else {
        holders(run.drop_last(), word)
    }
}

/// Whether source `at` of a run is one after the first that holds a word,
/// and first has it in a spelling with a shape mark.
pub open spec fn marks_at(
    table: Table,
    run: Seq<Seq<TokenView>>,
    word: Seq<char>,
    at: int,
) -> bool {
    &&& 0 <= at < run.len()
    &&& holders(run.take(at), word) >= 1
    &&& spelled_in(run[at], word) is Some
    &&& table.shape(spelled_in(run[at], word)->0) != Shape::Plain
}

/// The spelling a word was first seen with a shape mark in, after the first
/// source that holds it.
pub open spec fn marked_in(
    table: Table,
    run: Seq<Seq<TokenView>>,
    word: Seq<char>,
) -> Option<Seq<char>>
    decreases run.len(),
{
    if run.len() == 0 {
        None
    } else {
        match marked_in(table, run.drop_last(), word) {
            Some(spelling) => Some(spelling),
            None => match spelled_in(run.last(), word) {
                Some(spelling) => if holders(run.drop_last(), word) >= 1 && table.shape(spelling)
                    != Shape::Plain {
                    Some(spelling)
                } else {
                    None
                },
                None => None,
            },
        }
    }
}

/// The distinct words of a source.
pub open spec fn words_in(tokens: Seq<TokenView>) -> Set<Seq<char>>
    decreases tokens.len(),
{
    if tokens.len() == 0 {
        Set::empty()
    } else if super::mine::has_letter(tokens.last().spelling) {
        words_in(tokens.drop_last()).insert(tokens.last().normalized)
    } else {
        words_in(tokens.drop_last())
    }
}

/// The distinct words of a run.
pub open spec fn words_of(run: Seq<Seq<TokenView>>) -> Set<Seq<char>>
    decreases run.len(),
{
    if run.len() == 0 {
        Set::empty()
    } else {
        words_of(run.drop_last()).union(words_in(run.last()))
    }
}

/// The tokens of every text of a run.
pub open spec fn run_of(texts: Seq<Seq<char>>) -> Seq<Seq<TokenView>> {
    Seq::new(texts.len(), |i: int| super::mine::tokens_of(texts[i]))
}

/// The table once every source of a run was begun and counted.
pub open spec fn run_table(table: Table, run: Seq<Seq<TokenView>>) -> Table
    decreases run.len(),
{
    if run.len() == 0 {
        table
    } else {
        run_table(table, run.drop_last()).begun().with_tokens(run.last())
    }
}

/// Whether a table has counted nothing and no phrase was proposed to it.
pub open spec fn is_fresh(table: Table) -> bool {
    &&& table.counts == Map::<u64, super::candidates::Counted>::empty()
    &&& table.marked == Map::<u64, Seq<char>>::empty()
    &&& table.spellings == Map::<u64, TallyView>::empty()
    &&& table.phrases == Map::<Seq<char>, TallyView>::empty()
    &&& table.in_source == Set::<u64>::empty()
}

/// Whether no two words of a set share a hash.
pub open spec fn hashes_differ(words: Set<Seq<char>>) -> bool {
    forall|a: Seq<char>, b: Seq<char>| #[trigger]
        words.contains(a) && #[trigger] words.contains(b) && super::candidates::token_hash(a)
            == super::candidates::token_hash(b) ==> a == b
}

/// A run up to token `at` of source `source`.
pub open spec fn run_up_to(run: Seq<Seq<TokenView>>, source: int, at: int) -> Seq<Seq<TokenView>> {
    run.take(source).push(run[source].take(at))
}

/// Whether the filter takes token `at` of source `source` for new where it
/// is: where no token before it was the same word.
pub open spec fn sighted_rightly(
    table: Table,
    run: Seq<Seq<TokenView>>,
    source: int,
    at: int,
) -> bool {
    let token = run[source][at];
    super::mine::has_letter(token.spelling) && holders(
        run_up_to(run, source, at),
        token.normalized,
    ) == 0 ==> super::mine::is_first_sight(
        run_table(table, run_up_to(run, source, at)).seen,
        super::candidates::token_hash(token.normalized),
        table.seen_bits,
    )
}

/// Whether the filter takes no new token of a run for one it has seen.
pub open spec fn no_false_sight(table: Table, run: Seq<Seq<TokenView>>) -> bool {
    forall|source: int, at: int|
        0 <= source < run.len() && 0 <= at < run[source].len() ==> #[trigger] sighted_rightly(
            table,
            run,
            source,
            at,
        )
}

/// Whether every token's normalized spelling is its lowercase spelling.
spec fn run_is_lower(run: Seq<Seq<TokenView>>) -> bool {
    forall|k: int, j: int|
        0 <= k < run.len() && 0 <= j < run[k].len() ==> (#[trigger] run[k][j]).normalized
            == text::lowercase(run[k][j].spelling)
}

proof fn lemma_tokens_lower(raws: Seq<Seq<char>>)
    ensures
        forall|j: int|
            0 <= j < super::mine::tokens_among(raws).len() ==> (
            #[trigger] super::mine::tokens_among(raws)[j]).normalized == text::lowercase(
                super::mine::tokens_among(raws)[j].spelling,
            ),
    decreases raws.len(),
{
    if raws.len() > 0 {
        lemma_tokens_lower(raws.drop_last());
        let before = super::mine::tokens_among(raws.drop_last());
        let all = super::mine::tokens_among(raws);
        assert forall|j: int| 0 <= j < all.len() implies (#[trigger] all[j]).normalized
            == text::lowercase(all[j].spelling) by {
            if j < before.len() {
                assert(all[j] == before[j]);
            }
        }
    }
}

/// What a table says of one word agrees with the run.
spec fn fits_word(start: Table, now: Table, run: Seq<Seq<TokenView>>, word: Seq<char>) -> bool {
    let hash = super::candidates::token_hash(word);
    let n = holders(run, word);
    let mark = marked_in(start, run, word);
    &&& now.in_source.contains(hash) <==> run.len() > 0 && spelled_in(run.last(), word) is Some
    &&& n >= 1 ==> super::mine::probes(hash, start.seen_bits).subset_of(now.seen)
    &&& now.counts.contains_key(hash) <==> n >= 2
    &&& n >= 2 ==> now.counts[hash].documents == n
    &&& now.marked.contains_key(hash) <==> mark is Some
    &&& mark is Some ==> now.marked[hash] == mark->0 && n >= 2
    &&& now.spellings.contains_key(hash) <==> n >= start.df_min && mark is Some
    &&& now.spellings.contains_key(hash) ==> now.spellings[hash].documents == n
        && !now.spellings[hash].derived && now.spellings[hash].spelling == mark->0
}

/// A table agrees with the run it read.
spec fn fits(start: Table, now: Table, run: Seq<Seq<TokenView>>, words: Set<Seq<char>>) -> bool {
    &&& now.stopwords == start.stopwords
    &&& now.common == start.common
    &&& now.seen_bits == start.seen_bits
    &&& now.counts_max == start.counts_max
    &&& now.spellings_max == start.spellings_max
    &&& now.df_min == start.df_min
    &&& now.phrases == Map::<Seq<char>, TallyView>::empty()
    &&& now.counts.dom().finite()
    &&& now.spellings.dom().finite()
    &&& now.spellings.dom().subset_of(now.counts.dom())
    &&& forall|hash: u64| #[trigger] now.counts.contains_key(hash) ==> is_hash_of(words, hash)
    &&& forall|word: Seq<char>| #[trigger] words.contains(word) ==> fits_word(start, now, run, word)
}

spec fn is_hash_of(words: Set<Seq<char>>, hash: u64) -> bool {
    exists|word: Seq<char>| #[trigger] words.contains(word) && super::candidates::token_hash(word)
        == hash
}

/// A set of words' hashes that lacks one of them is smaller than the set.
proof fn lemma_room(words: Set<Seq<char>>, hashes: Set<u64>, word: Seq<char>)
    requires
        words.finite(),
        words.contains(word),
        hashes.finite(),
        !hashes.contains(super::candidates::token_hash(word)),
        forall|hash: u64| #[trigger] hashes.contains(hash) ==> is_hash_of(words, hash),
    ensures
        hashes.len() < words.len(),
{
    let f = |w: Seq<char>| super::candidates::token_hash(w);
    let all = words.map(f);
    vstd::set_lib::lemma_map_size_bound(words, all, f);
    let more = hashes.insert(super::candidates::token_hash(word));
    assert forall|hash: u64| more.contains(hash) implies all.contains(hash) by {
        if hashes.contains(hash) {
            let w = choose|w: Seq<char>| #[trigger]
                words.contains(w) && super::candidates::token_hash(w) == hash;
            assert(f(w) == hash);
        } else {
            assert(f(word) == hash);
        }
    }
    vstd::set_lib::lemma_len_subset(more, all);
}

/// A new source begins: the run has one more, empty so far.
proof fn lemma_fits_begun(
    start: Table,
    now: Table,
    run: Seq<Seq<TokenView>>,
    words: Set<Seq<char>>,
)
    requires
        fits(start, now, run, words),
    ensures
        fits(start, now.begun(), run.push(Seq::empty()), words),
{
    let next = run.push(Seq::<TokenView>::empty());
    assert(next.drop_last() =~= run);
    assert forall|word: Seq<char>| #[trigger] words.contains(word) implies fits_word(
        start,
        now.begun(),
        next,
        word,
    ) by {
        assert(fits_word(start, now, run, word));
        assert(spelled_in(next.last(), word) is None);
        assert(holders(next, word) == holders(run, word));
        assert(marked_in(start, next, word) == marked_in(start, run, word));
    }
}

/// The current source has one more token.
#[verifier::rlimit(60)]
#[verifier::spinoff_prover]
proof fn lemma_fits_token(
    start: Table,
    now: Table,
    done: Seq<Seq<TokenView>>,
    part: Seq<TokenView>,
    token: TokenView,
    words: Set<Seq<char>>,
)
    requires
        fits(start, now, done.push(part), words),
        words.finite(),
        words.len() <= start.counts_max,
        words.len() <= start.spellings_max,
        hashes_differ(words),
        token.normalized == text::lowercase(token.spelling),
        super::mine::has_letter(token.spelling) ==> words.contains(token.normalized),
        super::mine::has_letter(token.spelling) && holders(done.push(part), token.normalized) == 0
            ==> super::mine::is_first_sight(
            now.seen,
            super::candidates::token_hash(token.normalized),
            start.seen_bits,
        ),
        holders(done, token.normalized) < u32::MAX,
    ensures
        fits(start, now.with_token(token), done.push(part.push(token)), words),
{
    let next = now.with_token(token);
    let before = done.push(part);
    let after = done.push(part.push(token));
    let hash = super::candidates::token_hash(token.normalized);
    assert(before.drop_last() =~= done);
    assert(after.drop_last() =~= done);
    assert(part.push(token).drop_last() =~= part);
    let counts = super::mine::has_letter(token.spelling) && !now.in_source.contains(hash);
    if super::mine::has_letter(token.spelling) {
        assert(fits_word(start, now, before, token.normalized));
        if !now.counts.contains_key(hash) {
            lemma_room(words, now.counts.dom(), token.normalized);
            vstd::set_lib::lemma_len_subset(now.spellings.dom(), now.counts.dom());
        }
        if !now.spellings.contains_key(hash) {
            assert forall|h: u64| #[trigger] now.spellings.dom().contains(h) implies is_hash_of(
                words,
                h,
            ) by {
                assert(now.counts.contains_key(h));
            }
            lemma_room(words, now.spellings.dom(), token.normalized);
        }
        assert(now.phrases.len() == 0);
    }
    assert forall|word: Seq<char>| #[trigger] words.contains(word) implies fits_word(
        start,
        next,
        after,
        word,
    ) by {
        assert(fits_word(start, now, before, word));
        if word != token.normalized || !super::mine::has_letter(token.spelling) {
            assert(spelled_in(after.last(), word) == spelled_in(before.last(), word));
            assert(holders(after, word) == holders(before, word));
            assert(marked_in(start, after, word) == marked_in(start, before, word));
            if counts {
                assert(super::candidates::token_hash(word) != hash);
            }
        } else if !counts {
            assert(spelled_in(part, word) is Some);
            assert(holders(after, word) == holders(before, word));
            assert(marked_in(start, after, word) == marked_in(start, before, word));
        } else {
            assert(spelled_in(part, word) is None);
            assert(spelled_in(after.last(), word) == Some(token.spelling));
            assert(holders(before, word) == holders(done, word));
            assert(holders(after, word) == holders(done, word) + 1);
            assert(marked_in(start, before, word) == marked_in(start, done, word));
            assert(now.shape(token.spelling) == start.shape(token.spelling));
        }
    }
    assert forall|h: u64| #[trigger] next.counts.contains_key(h) implies is_hash_of(words, h) by {
        if h == hash && !now.counts.contains_key(h) {
            assert(words.contains(token.normalized));
        }
    }
}

proof fn lemma_holders_bounded(run: Seq<Seq<TokenView>>, word: Seq<char>)
    ensures
        holders(run, word) <= run.len(),
    decreases run.len(),
{
    if run.len() > 0 {
        lemma_holders_bounded(run.drop_last(), word);
    }
}

proof fn lemma_words_in(tokens: Seq<TokenView>)
    ensures
        words_in(tokens).finite(),
        forall|word: Seq<char>| #[trigger]
            words_in(tokens).contains(word) <==> spelled_in(tokens, word) is Some,
        forall|j: int|
            0 <= j < tokens.len() && super::mine::has_letter((#[trigger] tokens[j]).spelling)
                ==> words_in(tokens).contains(tokens[j].normalized),
    decreases tokens.len(),
{
    if tokens.len() > 0 {
        let front = tokens.drop_last();
        lemma_words_in(front);
        assert forall|j: int|
            0 <= j < tokens.len() && super::mine::has_letter(
                (#[trigger] tokens[j]).spelling,
            ) implies words_in(tokens).contains(tokens[j].normalized) by {
            if j < front.len() {
                assert(front[j] == tokens[j]);
            }
        }
    }
}

proof fn lemma_words_of(run: Seq<Seq<TokenView>>)
    ensures
        words_of(run).finite(),
        forall|word: Seq<char>| #[trigger]
            words_of(run).contains(word) <==> holders(run, word) > 0,
        forall|k: int, j: int|
            0 <= k < run.len() && 0 <= j < run[k].len() && super::mine::has_letter(
                (#[trigger] run[k][j]).spelling,
            ) ==> words_of(run).contains(run[k][j].normalized),
    decreases run.len(),
{
    if run.len() > 0 {
        let front = run.drop_last();
        lemma_words_of(front);
        lemma_words_in(run.last());
        assert forall|k: int, j: int|
            0 <= k < run.len() && 0 <= j < run[k].len() && super::mine::has_letter(
                (#[trigger] run[k][j]).spelling,
            ) implies words_of(run).contains(run[k][j].normalized) by {
            if k < front.len() {
                assert(front[k][j] == run[k][j]);
            } else {
                assert(run.last()[j] == run[k][j]);
            }
        }
    }
}

/// A run whose words fit the table, can be told apart by their hashes, and
/// are told apart by the filter.
spec fn is_plain_run(start: Table, run: Seq<Seq<TokenView>>) -> bool {
    &&& is_fresh(start)
    &&& run.len() <= u32::MAX
    &&& run_is_lower(run)
    &&& words_of(run).len() <= start.counts_max
    &&& words_of(run).len() <= start.spellings_max
    &&& hashes_differ(words_of(run))
    &&& no_false_sight(start, run)
}

proof fn lemma_fits_part(start: Table, run: Seq<Seq<TokenView>>, source: int, at: int)
    requires
        is_plain_run(start, run),
        0 <= source < run.len(),
        0 <= at <= run[source].len(),
        fits(start, run_table(start, run.take(source)), run.take(source), words_of(run)),
    ensures
        fits(
            start,
            run_table(start, run_up_to(run, source, at)),
            run_up_to(run, source, at),
            words_of(run),
        ),
    decreases at,
{
    let done = run.take(source);
    let words = words_of(run);
    let here = run_up_to(run, source, at);
    assert(here.drop_last() =~= done);
    if at == 0 {
        lemma_fits_begun(start, run_table(start, done), done, words);
        assert(run[source].take(0) =~= Seq::empty());
        assert(run_table(start, here) == run_table(start, done).begun().with_tokens(here.last()));
    } else {
        let part = run[source].take(at - 1);
        let token = run[source][at - 1];
        lemma_fits_part(start, run, source, at - 1);
        lemma_words_of(run);
        lemma_holders_bounded(done, token.normalized);
        assert(sighted_rightly(start, run, source, at - 1));
        assert(run_up_to(run, source, at - 1).drop_last() =~= done);
        assert(run[source].take(at) =~= part.push(token));
        assert(part.push(token).drop_last() =~= part);
        lemma_fits_token(
            start,
            run_table(start, run_up_to(run, source, at - 1)),
            done,
            part,
            token,
            words,
        );
    }
}

proof fn lemma_fits_run(start: Table, run: Seq<Seq<TokenView>>, sources: int)
    requires
        is_plain_run(start, run),
        0 <= sources <= run.len(),
    ensures
        fits(start, run_table(start, run.take(sources)), run.take(sources), words_of(run)),
    decreases sources,
{
    if sources == 0 {
        assert(run.take(0) =~= Seq::empty());
        assert(start.counts.dom() =~= Set::empty());
        assert(start.spellings.dom() =~= Set::empty());
    } else {
        lemma_fits_run(start, run, sources - 1);
        lemma_fits_part(start, run, sources - 1, run[sources - 1].len() as int);
        assert(run[sources - 1].take(run[sources - 1].len() as int) =~= run[sources - 1]);
        assert(run_up_to(run, sources - 1, run[sources - 1].len() as int) =~= run.take(sources));
    }
}

proof fn lemma_spelled_lower(tokens: Seq<TokenView>, word: Seq<char>)
    requires
        forall|j: int|
            0 <= j < tokens.len() ==> (#[trigger] tokens[j]).normalized == text::lowercase(
                tokens[j].spelling,
            ),
    ensures
        spelled_in(tokens, word) matches Some(spelling) ==> text::lowercase(spelling) == word,
    decreases tokens.len(),
{
    if tokens.len() > 0 {
        let front = tokens.drop_last();
        assert forall|j: int| 0 <= j < front.len() implies (#[trigger] front[j]).normalized
            == text::lowercase(front[j].spelling) by {
            assert(tokens[j] == front[j]);
        }
        lemma_spelled_lower(front, word);
    }
}

/// The remembered spelling is there exactly where a later source marks the
/// word, and its lowercase is the word.
proof fn lemma_marked_in(start: Table, run: Seq<Seq<TokenView>>, word: Seq<char>)
    requires
        run_is_lower(run),
    ensures
        marked_in(start, run, word) is Some <==> exists|at: int| #[trigger]
            marks_at(start, run, word, at),
        marked_in(start, run, word) matches Some(spelling) ==> text::lowercase(spelling) == word,
    decreases run.len(),
{
    if run.len() > 0 {
        let front = run.drop_last();
        let last = run.len() - 1;
        assert forall|k: int, j: int| 0 <= k < front.len() && 0 <= j < front[k].len() implies (
        #[trigger] front[k][j]).normalized == text::lowercase(front[k][j].spelling) by {
            assert(run[k][j] == front[k][j]);
        }
        lemma_marked_in(start, front, word);
        assert forall|j: int| 0 <= j < run.last().len() implies (
        #[trigger] run.last()[j]).normalized == text::lowercase(run.last()[j].spelling) by {
            assert(run[last][j] == run.last()[j]);
        }
        lemma_spelled_lower(run.last(), word);
        assert(run.take(last) =~= front);
        assert forall|at: int| 0 <= at < last implies (#[trigger] marks_at(start, front, word, at)
            <==> marks_at(start, run, word, at)) by {
            assert(front.take(at) =~= run.take(at));
        }
        if marked_in(start, front, word) is Some {
            let at = choose|at: int| #[trigger] marks_at(start, front, word, at);
            assert(marks_at(start, run, word, at));
        }
        if exists|at: int| #[trigger] marks_at(start, run, word, at) {
            let at = choose|at: int| #[trigger] marks_at(start, run, word, at);
            if at < last {
                assert(marks_at(start, front, word, at));
            }
        }
        if marked_in(start, front, word) is None && marked_in(start, run, word) is Some {
            assert(marks_at(start, run, word, last));
        }
    }
}

/// Whether a run leaves a word in a band: enough of its sources hold it,
/// in any casing, and one after the first has it with a shape mark.
pub open spec fn is_left(
    table: Table,
    run: Seq<Seq<TokenView>>,
    word: Seq<char>,
    min: u32,
    max: u32,
) -> bool {
    &&& holders(run, word) >= 2
    &&& holders(run, word) >= table.df_min
    &&& min <= holders(run, word) <= max
    &&& exists|at: int| #[trigger] marks_at(table, run, word, at)
}

/// What a whole run leaves in a band. A fresh table reads the sources of a
/// run one after another; its words are no more than either cap, no two
/// share a hash, the filter takes no new word for one it has seen, and no
/// phrase is proposed. Then the band lists exactly the words that at least
/// two sources and at least `df_min` hold, as many as the band asks for,
/// and that a source after the first first has in a spelling with a shape
/// mark; each with the number of its sources and the first such spelling.
pub proof fn law_a_run_leaves_its_marked_recurring_words(
    start: Table,
    texts: Seq<Seq<char>>,
    min: u32,
    max: u32,
    band: Seq<(Seq<char>, TallyView)>,
    word: Seq<char>,
)
    requires
        is_fresh(start),
        texts.len() <= u32::MAX,
        words_of(run_of(texts)).len() <= start.counts_max,
        words_of(run_of(texts)).len() <= start.spellings_max,
        hashes_differ(words_of(run_of(texts))),
        no_false_sight(start, run_of(texts)),
        run_table(start, run_of(texts)).lists_band(min, max, band),
    ensures
        (exists|i: int| 0 <= i < band.len() && (#[trigger] band[i]).0 == word) <==> is_left(
            start,
            run_of(texts),
            word,
            min,
            max,
        ),
        forall|i: int|
            0 <= i < band.len() && (#[trigger] band[i]).0 == word ==> {
                &&& band[i].1.documents == holders(run_of(texts), word)
                &&& !band[i].1.derived
                &&& Some(band[i].1.spelling) == marked_in(start, run_of(texts), word)
                &&& text::lowercase(band[i].1.spelling) == word
            },
{
    let run = run_of(texts);
    let words = words_of(run);
    let after = run_table(start, run);
    assert(run_is_lower(run)) by {
        assert forall|k: int, j: int| 0 <= k < run.len() && 0 <= j < run[k].len() implies (
        #[trigger] run[k][j]).normalized == text::lowercase(run[k][j].spelling) by {
            lemma_tokens_lower(
                text::pieces(texts[k], |c: char| super::mine::token_break(c)),
            );
        }
    }
    lemma_fits_run(start, run, run.len() as int);
    assert(run.take(run.len() as int) =~= run);
    lemma_words_of(run);
    lemma_marked_in(start, run, word);
    let keys = choose|keys: Seq<CandidateKey>| #[trigger]
        after.enumerates_band(min, max, keys) && band == Seq::new(
            keys.len(),
            |i: int| after.entry(keys[i]),
        );
    assert forall|i: int| 0 <= i < band.len() && (#[trigger] band[i]).0 == word implies is_left(
        start,
        run,
        word,
        min,
        max,
    ) && band[i].1.documents == holders(run, word) && !band[i].1.derived && Some(
        band[i].1.spelling,
    ) == marked_in(start, run, word) by {
        assert(keys.contains(keys[i]));
        assert(after.in_range(keys[i], min, max));
        assert(keys[i] is Token);
        let hash = keys[i]->Token_0;
        assert(after.spellings.dom().contains(hash));
        assert(after.counts.contains_key(hash));
        let found = choose|w: Seq<char>| #[trigger]
            words.contains(w) && super::candidates::token_hash(w) == hash;
        assert(fits_word(start, after, run, found));
        lemma_marked_in(start, run, found);
        assert(found == word);
    }
    if is_left(start, run, word, min, max) {
        assert(words.contains(word));
        assert(fits_word(start, after, run, word));
        let key = CandidateKey::Token(super::candidates::token_hash(word));
        assert(after.in_range(key, min, max));
        assert(keys.contains(key));
        let i = choose|i: int| 0 <= i < keys.len() && keys[i] == key;
        assert(band[i].0 == word);
    }
}


/// A band lists every candidate whose documents lie in its bounds and no
/// other, the most frequent first and by name among equals: every phrase
/// under its own name, and every kept token under the lowercase of its
/// spelling unless it has a phrase's name.
pub proof fn law_a_band_lists_every_candidate_in_bounds(
    table: Table,
    min: u32,
    max: u32,
    band: Seq<(Seq<char>, TallyView)>,
)
    requires
        table.lists_band(min, max, band),
    ensures
        forall|i: int|
            0 <= i < band.len() ==> min <= (#[trigger] band[i]).1.documents && band[i].1.documents
                <= max,
        forall|i: int, j: int|
            0 <= i < j < band.len() ==> (#[trigger] band[i]).1.documents >= (
            #[trigger] band[j]).1.documents && (band[i].1.documents == band[j].1.documents
                ==> !text::precedes(band[j].0, band[i].0)),
        forall|phrase: Seq<char>| #[trigger]
            table.phrases.contains_key(phrase) && min <= table.phrases[phrase].documents
                && table.phrases[phrase].documents <= max ==> band.contains(
                (phrase, table.phrases[phrase]),
            ),
        forall|hash: u64| #[trigger]
            table.spellings.contains_key(hash) && min <= table.spellings[hash].documents
                && table.spellings[hash].documents <= max && !table.phrases.contains_key(
                text::lowercase(table.spellings[hash].spelling),
            ) ==> band.contains(
                (text::lowercase(table.spellings[hash].spelling), table.spellings[hash]),
            ),
{
    assert forall|i: int| 0 <= i < band.len() implies min <= (#[trigger] band[i]).1.documents
        && band[i].1.documents <= max by {
        lemma_band_entries(table, min, max, band, band[i]);
        assert(band.contains(band[i]));
    }
    assert forall|phrase: Seq<char>| #[trigger]
        table.phrases.contains_key(phrase) && min <= table.phrases[phrase].documents
            && table.phrases[phrase].documents <= max implies band.contains(
        (phrase, table.phrases[phrase]),
    ) by {
        let key = CandidateKey::Phrase(phrase);
        assert(table.in_range(key, min, max));
        lemma_band_entries(table, min, max, band, table.entry(key));
    }
    assert forall|hash: u64| #[trigger]
        table.spellings.contains_key(hash) && min <= table.spellings[hash].documents
            && table.spellings[hash].documents <= max && !table.phrases.contains_key(
            text::lowercase(table.spellings[hash].spelling),
        ) implies band.contains(
        (text::lowercase(table.spellings[hash].spelling), table.spellings[hash]),
    ) by {
        let key = CandidateKey::Token(hash);
        assert(table.in_range(key, min, max));
        lemma_band_entries(table, min, max, band, table.entry(key));
    }
}
} // verus!
