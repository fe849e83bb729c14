//! The n-gram matcher: which rows a text names.

use vstd::prelude::*;
use vstd::hash_map::StringHashMap;
use vstd::laws_eq::obeys_concrete_eq;
use crate::text;
use super::mine::{join_normalized, Token, TokenView, PHRASE_TOKENS_MAX};

verus! {

/// The rows of a list: the last row of a spelling stands.
pub open spec fn rows_of<Id>(rows: Seq<(String, Id)>) -> Map<Seq<char>, Id>
    decreases rows.len(),
{
    if rows.len() == 0 {
        Map::empty()
    } else {
        rows_of(rows.drop_last()).insert(rows.last().0@, rows.last().1)
    }
}

/// The words of a spelling: what stands between its spaces.
pub open spec fn words_of(spelling: Seq<char>) -> Seq<Seq<char>> {
    text::pieces(spelling, |c: char| c == ' ')
}

/// Whether some row is a phrase that starts with `word`.
pub open spec fn starts_phrase<Id>(rows: Map<Seq<char>, Id>, word: Seq<char>) -> bool {
    exists|spelling: Seq<char>| #[trigger]
        rows.contains_key(spelling) && words_of(spelling).len() > 1 && words_of(spelling)[0]
            == word
}

/// The words of a spelling that matching looks at.
pub open spec fn reach_of(spelling: Seq<char>) -> int {
    if words_of(spelling).len() < PHRASE_TOKENS_MAX {
        words_of(spelling).len() as int
    } else {
        PHRASE_TOKENS_MAX as int
    }
}

/// Whether `longest` is how many tokens the longest row spans, held to
/// [`PHRASE_TOKENS_MAX`] and at least one.
pub open spec fn is_longest<Id>(rows: Map<Seq<char>, Id>, longest: int) -> bool {
    &&& 1 <= longest <= PHRASE_TOKENS_MAX
    &&& forall|spelling: Seq<char>| #[trigger]
        rows.contains_key(spelling) ==> reach_of(spelling) <= longest
    &&& longest == 1 || exists|spelling: Seq<char>| #[trigger]
        rows.contains_key(spelling) && reach_of(spelling) == longest
}

/// The row the `n` tokens at `at` spell, if any.
pub open spec fn hit<Id>(
    rows: Map<Seq<char>, Id>,
    tokens: Seq<TokenView>,
    at: int,
    n: int,
) -> Seq<Id> {
    let gram = super::mine::gram_of(tokens.subrange(at, at + n));
    if at + n <= tokens.len() && rows.contains_key(gram) {
        seq![rows[gram]]
    } else {
        Seq::empty()
    }
}

/// The rows the runs of one to `n` tokens at `at` spell; longer runs are
/// only read where a phrase starts.
pub open spec fn hits_at<Id>(
    rows: Map<Seq<char>, Id>,
    tokens: Seq<TokenView>,
    at: int,
    n: int,
) -> Seq<Id>
    decreases n,
{
    if n <= 1 {
        if rows.contains_key(tokens[at].normalized) {
            seq![rows[tokens[at].normalized]]
        } else {
            Seq::empty()
        }
    } else {
        hits_at(rows, tokens, at, n - 1) + hit(rows, tokens, at, n)
    }
}

/// The rows found at one token.
pub open spec fn found_at<Id>(
    rows: Map<Seq<char>, Id>,
    tokens: Seq<TokenView>,
    at: int,
    longest: int,
) -> Seq<Id> {
    if starts_phrase(rows, tokens[at].normalized) {
        hits_at(rows, tokens, at, longest)
    } else {
        hits_at(rows, tokens, at, 1)
    }
}

/// The rows found at the first `n` tokens, in the order found.
pub open spec fn found_before<Id>(
    rows: Map<Seq<char>, Id>,
    tokens: Seq<TokenView>,
    n: int,
    longest: int,
) -> Seq<Id>
    decreases n,
{
    if n <= 0 {
        Seq::empty()
    } else {
        found_before(rows, tokens, n - 1, longest) + found_at(rows, tokens, n - 1, longest)
    }
}

/// `ids` with only the first of equal ones kept.
pub open spec fn distinct<Id>(ids: Seq<Id>) -> Seq<Id>
    decreases ids.len(),
{
    if ids.len() == 0 {
        ids
    } else {
        let before = distinct(ids.drop_last());
        if before.contains(ids.last()) {
            before
        } else {
            before.push(ids.last())
        }
    }
}

/// What is distinct holds what it was taken from.
pub proof fn lemma_distinct_contains<Id>(ids: Seq<Id>, id: Id)
    ensures
        distinct(ids).contains(id) == ids.contains(id),
    decreases ids.len(),
{
    if ids.len() > 0 {
        lemma_distinct_contains(ids.drop_last(), id);
        let before = distinct(ids.drop_last());
        assert(ids =~= ids.drop_last().push(ids.last()));
        if ids.drop_last().contains(id) {
            let i = choose|i: int| 0 <= i < ids.drop_last().len() && ids.drop_last()[i] == id;
            assert(ids[i] == id);
        }
        if before.contains(id) {
            let i = choose|i: int| 0 <= i < before.len() && before[i] == id;
            assert(before.push(ids.last())[i] == id);
        }
        if id == ids.last() {
            assert(before.push(ids.last())[before.len() as int] == id);
            assert(ids[ids.len() - 1] == id);
        }
        if ids.contains(id) && !ids.drop_last().contains(id) {
            let i = choose|i: int| 0 <= i < ids.len() && ids[i] == id;
            if i < ids.len() - 1 {
                assert(ids.drop_last()[i] == id);
            }
        }
        if distinct(ids).contains(id) && !before.contains(id) {
            assert(id == ids.last());
        }
    }
}

/// Nothing occurs twice in what is distinct.
pub proof fn lemma_distinct_no_duplicates<Id>(ids: Seq<Id>)
    ensures
        distinct(ids).no_duplicates(),
    decreases ids.len(),
{
    if ids.len() > 0 {
        lemma_distinct_no_duplicates(ids.drop_last());
    }
}

/// The matcher: normalized spellings (single tokens and phrases up to
/// [`PHRASE_TOKENS_MAX`] tokens) to the row to count. Matching is by n-gram
/// lookup over a fragment's tokens, exact on word boundaries, so `H200`
/// never matches inside `H2000`. Single tokens are probed without joining;
/// a phrase is joined only where its first token starts one.
#[verifier::reject_recursive_types(Id)]
pub struct Matcher<Id: Copy> {
    rows: StringHashMap<Id>,
    phrase_starts: StringHashMap<bool>,
    longest: usize,
}

impl<Id: Copy> Matcher<Id> {
    /// The rows by their normalized spelling.
    pub closed spec fn rows(&self) -> Map<Seq<char>, Id> {
        self.rows@
    }

    /// How many tokens the longest row spans.
    pub closed spec fn longest(&self) -> int {
        self.longest as int
    }

    /// What the matcher remembers of its rows agrees with them.
    pub closed spec fn wf(&self) -> bool {
        &&& is_longest(self.rows@, self.longest as int)
        &&& forall|word: Seq<char>| #[trigger]
            self.phrase_starts@.contains_key(word) <==> starts_phrase(self.rows@, word)
    }

    /// A matcher's reach is that of its rows.
    pub proof fn lemma_longest(&self)
        requires
            self.wf(),
        ensures
            is_longest(self.rows(), self.longest()),
    {
    }

    /// A matcher of `rows`, each a normalized spelling and the row it
    /// names; where a spelling is listed twice the last row stands.
    pub fn new(rows: Vec<(String, Id)>) -> (r: Self)
        ensures
            r.wf(),
            r.rows() == rows_of(rows@),
    {
        let mut held: StringHashMap<Id> = StringHashMap::new();
        let mut starts: StringHashMap<bool> = StringHashMap::new();
        let mut longest: usize = 1;
        let mut i: usize = 0;
        proof {
            assert(rows@.take(0) =~= Seq::empty());
        }
        while i < rows.len()
            invariant
                i <= rows@.len(),
                held@ == rows_of(rows@.take(i as int)),
                is_longest(held@, longest as int),
                forall|word: Seq<char>| #[trigger]
                    starts@.contains_key(word) <==> starts_phrase(held@, word),
            decreases rows.len() - i,
        {
            let ghost before = held@;
            let ghost starts_before = starts@;
            let spelling = rows[i].0.clone();
            let words = split_words(spelling.as_str());
            proof {
                text::lemma_pieces_nonempty(spelling@, |c: char| c == ' ');
                assert(words@.len() == words_of(spelling@).len());
                assert(rows@.take(i as int + 1).drop_last() =~= rows@.take(i as int));
                assert(rows@.take(i as int + 1).last() == rows@[i as int]);
            }
            if words.len() > 1 {
                let first = words[0].clone();
                proof {
                    assert(first@ == words_of(spelling@)[0]);
                }
                starts.insert(first, true);
                if words.len() > longest {
                    longest = if words.len() < PHRASE_TOKENS_MAX {
                        words.len()
                    } else {
                        PHRASE_TOKENS_MAX
                    };
                }
            }
            held.insert(spelling, rows[i].1);
            proof {
                assert(held@ == before.insert(spelling@, rows@[i as int].1));
                assert forall|s: Seq<char>| #[trigger] held@.contains_key(s) implies reach_of(s)
                    <= longest by {
                    if s != spelling@ {
                        assert(before.contains_key(s));
                    }
                }
                if longest > 1 {
                    if exists|s: Seq<char>| #[trigger]
                        before.contains_key(s) && reach_of(s) == longest {
                        let s = choose|s: Seq<char>| #[trigger]
                            before.contains_key(s) && reach_of(s) == longest;
                        assert(held@.contains_key(s));
                    } else {
                        assert(held@.contains_key(spelling@));
                    }
                }
                assert forall|word: Seq<char>| #[trigger]
                    starts@.contains_key(word) <==> starts_phrase(held@, word) by {
                    assert(starts_before.contains_key(word) <==> starts_phrase(before, word));
                    if starts_phrase(before, word) {
                        let s = choose|s: Seq<char>| #[trigger]
                            before.contains_key(s) && words_of(s).len() > 1 && words_of(s)[0]
                                == word;
                        assert(held@.contains_key(s));
                    }
                    if starts_phrase(held@, word) {
                        let s = choose|s: Seq<char>| #[trigger]
                            held@.contains_key(s) && words_of(s).len() > 1 && words_of(s)[0]
                                == word;
                        if s != spelling@ {
                            assert(before.contains_key(s));
                        }
                    }
                    if words@.len() > 1 && word == words_of(spelling@)[0] {
                        assert(held@.contains_key(spelling@));
                    }
                }
            }
            i = i + 1;
        }
        proof {
            assert(rows@.take(rows@.len() as int) =~= rows@);
        }
        Matcher { rows: held, phrase_starts: starts, longest }
    }

    /// Whether there is no row to match.
    pub fn is_empty(&self) -> (r: bool)
        ensures
            r == self.rows().is_empty(),
    {
        self.rows.is_empty()
    }
}

fn split_words(spelling: &str) -> (r: Vec<String>)
    ensures
        text::views(r@) == words_of(spelling@),
{
    let chars = text::chars_of(spelling);
    let mut marks: Vec<bool> = Vec::new();
    let mut i: usize = 0;
    while i < chars.len()
        invariant
            i <= chars@.len(),
            marks@.len() == i,
            forall|j: int| 0 <= j < i ==> marks@[j] == (chars@[j] == ' '),
        decreases chars.len() - i,
    {
        marks.push(chars[i] == ' ');
        i = i + 1;
    }
    text::cut(&chars, &marks, Ghost(|c: char| c == ' '))
}

fn note<Id: Copy + PartialEq>(found: &mut Vec<Id>, id: Id, all: Ghost<Seq<Id>>)
    requires
        obeys_concrete_eq::<Id>(),
        old(found)@ == distinct(all@),
    ensures
        final(found)@ == distinct(all@.push(id)),
{
    proof {
        assert(all@.push(id).drop_last() =~= all@);
        reveal(obeys_concrete_eq);
    }
    let mut i: usize = 0;
    while i < found.len()
        invariant
            i <= found@.len(),
            found@ == old(found)@,
            obeys_concrete_eq::<Id>(),
            forall|j: int| 0 <= j < i ==> found@[j] != id,
            old(found)@ == distinct(all@),
            all@.push(id).drop_last() == all@,
        decreases found.len() - i,
    {
        proof {
            reveal(obeys_concrete_eq);
        }
        if found[i] == id {
            proof {
                assert(found@.contains(id));
            }
            return;
        }
        i = i + 1;
    }
    found.push(id);
}

impl<Id: Copy + PartialEq> Matcher<Id> {
    /// The distinct rows a text names.
    pub fn matches(&self, tokens: &[Token]) -> (r: Vec<Id>)
        requires
            self.wf(),
            obeys_concrete_eq::<Id>(),
        ensures
            r@ == distinct(
                found_before(
                    self.rows(),
                    super::mine::token_views(tokens@),
                    tokens@.len() as int,
                    self.longest(),
                ),
            ),
    {
        let ghost views = super::mine::token_views(tokens@);
        let ghost rows = self.rows@;
        let mut found: Vec<Id> = Vec::new();
        let mut at: usize = 0;
        proof {
            assert(found@ =~= distinct(Seq::<Id>::empty()));
        }
        while at < tokens.len()
            invariant
                at <= tokens@.len(),
                self.wf(),
                obeys_concrete_eq::<Id>(),
                views == super::mine::token_views(tokens@),
                rows == self.rows@,
                found@ == distinct(found_before(rows, views, at as int, self.longest as int)),
            decreases tokens.len() - at,
        {
            let ghost before = found_before(rows, views, at as int, self.longest as int);
            let single: Option<Id> = match self.rows.get(tokens[at].normalized.as_str()) {
                Some(id) => Some(*id),
                None => None,
            };
            if let Some(id) = single {
                note(&mut found, id, Ghost(before));
                proof {
                    assert(before.push(id) =~= before + hits_at(rows, views, at as int, 1));
                }
            } else {
                proof {
                    assert(before =~= before + hits_at(rows, views, at as int, 1));
                }
            }
            if self.phrase_starts.contains_key(tokens[at].normalized.as_str()) {
                let mut n: usize = 2;
                while n <= self.longest
                    invariant
                        at < tokens@.len(),
                        2 <= n <= self.longest + 1,
                        self.wf(),
                        obeys_concrete_eq::<Id>(),
                        views == super::mine::token_views(tokens@),
                        rows == self.rows@,
                        found@ == distinct(before + hits_at(rows, views, at as int, n - 1)),
                    decreases self.longest + 1 - n,
                {
                    let ghost so_far = before + hits_at(rows, views, at as int, n - 1);
                    if n <= tokens.len() - at {
                        let window = vstd::slice::slice_subrange(tokens, at, at + n);
                        let gram = join_normalized(window);
                        proof {
                            assert(super::mine::token_views(window@) =~= views.subrange(
                                at as int,
                                at + n,
                            ));
                        }
                        let row: Option<Id> = match self.rows.get(gram.as_str()) {
                            Some(id) => Some(*id),
                            None => None,
                        };
                        if let Some(id) = row {
                            note(&mut found, id, Ghost(so_far));
                            proof {
                                assert(so_far.push(id) =~= before + hits_at(
                                    rows,
                                    views,
                                    at as int,
                                    n as int,
                                ));
                            }
                        } else {
                            proof {
                                assert(so_far =~= before + hits_at(rows, views, at as int, n as int));
                            }
                        }
                    } else {
                        proof {
                            assert(so_far =~= before + hits_at(rows, views, at as int, n as int));
                        }
                    }
                    n = n + 1;
                }
            }
            at = at + 1;
        }
        found
    }
}

/// Whether no token's normalized spelling holds a space.
pub open spec fn space_free(tokens: Seq<TokenView>) -> bool {
    forall|i: int, j: int|
        0 <= i < tokens.len() && 0 <= j < tokens[i].normalized.len()
            ==> #[trigger] tokens[i].normalized[j] != ' '
}

proof fn lemma_words_of_plain(word: Seq<char>)
    requires
        forall|j: int| 0 <= j < word.len() ==> word[j] != ' ',
    ensures
        words_of(word) == seq![word],
    decreases word.len(),
{
    if word.len() > 0 {
        lemma_words_of_plain(word.drop_last());
        assert(word =~= word.drop_last().push(word.last()));
        assert(words_of(word) =~= seq![word]);
    } else {
        assert(word =~= Seq::empty());
        assert(words_of(word) =~= seq![word]);
    }
}

proof fn lemma_words_of_sum(front: Seq<char>, word: Seq<char>)
    requires
        forall|j: int| 0 <= j < word.len() ==> word[j] != ' ',
    ensures
        words_of(front + seq![' '] + word) == words_of(front).push(word),
    decreases word.len(),
{
    let whole = front + seq![' '] + word;
    if word.len() > 0 {
        lemma_words_of_sum(front, word.drop_last());
        assert(whole.drop_last() =~= front + seq![' '] + word.drop_last());
        assert(whole.last() == word.last());
        let before = words_of(front).push(word.drop_last());
        assert(before.drop_last() =~= words_of(front));
        assert(word =~= word.drop_last().push(word.last()));
    } else {
        assert(whole.drop_last() =~= front);
        assert(whole.last() == ' ');
        assert(word =~= Seq::empty());
    }
}

/// A phrase of words without spaces divides into those words.
pub proof fn lemma_words_of_joined(words: Seq<Seq<char>>)
    requires
        words.len() > 0,
        forall|i: int, j: int|
            0 <= i < words.len() && 0 <= j < words[i].len() ==> #[trigger] words[i][j] != ' ',
    ensures
        words_of(text::joined(words, " "@)) == words,
    decreases words.len(),
{
    reveal_strlit(" ");
    if words.len() == 1 {
        lemma_words_of_plain(words[0]);
        assert(words =~= seq![words[0]]);
    } else {
        let front = words.drop_last();
        assert forall|i: int, j: int|
            0 <= i < front.len() && 0 <= j < front[i].len() implies #[trigger] front[i][j] != ' ' by {
            assert(words[i][j] != ' ');
        }
        lemma_words_of_joined(front);
        assert(" "@ =~= seq![' ']);
        lemma_words_of_sum(text::joined(front, " "@), words.last());
        assert(words =~= front.push(words.last()));
    }
}

/// Whether a run of `n` tokens at `at` spells the row `id`.
pub open spec fn names_row<Id>(
    rows: Map<Seq<char>, Id>,
    tokens: Seq<TokenView>,
    at: int,
    n: int,
    id: Id,
) -> bool {
    let gram = super::mine::gram_of(tokens.subrange(at, at + n));
    &&& 0 <= at
    &&& 1 <= n <= PHRASE_TOKENS_MAX
    &&& at + n <= tokens.len()
    &&& rows.contains_key(gram)
    &&& rows[gram] == id
}

proof fn lemma_single_gram(tokens: Seq<TokenView>, at: int)
    requires
        0 <= at < tokens.len(),
    ensures
        super::mine::gram_of(tokens.subrange(at, at + 1)) == tokens[at].normalized,
{
    assert(super::mine::normalized_of(tokens.subrange(at, at + 1)) =~= seq![tokens[at].normalized]);
}

proof fn lemma_hits_at<Id>(
    rows: Map<Seq<char>, Id>,
    tokens: Seq<TokenView>,
    at: int,
    n: int,
    id: Id,
)
    requires
        0 <= at < tokens.len(),
        1 <= n <= PHRASE_TOKENS_MAX,
    ensures
        hits_at(rows, tokens, at, n).contains(id) <==> exists|m: int|
            m <= n && #[trigger] names_row(rows, tokens, at, m, id),
    decreases n,
{
    lemma_single_gram(tokens, at);
    if n == 1 {
        if names_row(rows, tokens, at, 1, id) {
            assert(hits_at(rows, tokens, at, 1)[0] == id);
        }
        if hits_at(rows, tokens, at, 1).contains(id) {
            assert(names_row(rows, tokens, at, 1, id));
        }
    } else {
        lemma_hits_at(rows, tokens, at, n - 1, id);
        let front = hits_at(rows, tokens, at, n - 1);
        let last = hit(rows, tokens, at, n);
        let all = hits_at(rows, tokens, at, n);
        assert(all == front + last);
        if front.contains(id) {
            let i = choose|i: int| 0 <= i < front.len() && front[i] == id;
            assert(all[i] == id);
        }
        if names_row(rows, tokens, at, n, id) {
            assert(last[0] == id);
            assert(all[front.len() as int] == id);
        }
        if all.contains(id) && !front.contains(id) {
            let i = choose|i: int| 0 <= i < all.len() && all[i] == id;
            assert(i >= front.len()) by {
                if i < front.len() {
                    assert(front[i] == id);
                }
            }
            assert(names_row(rows, tokens, at, n, id));
        }
    }
}

/// Where a run of two or more space-free tokens names a row, its first
/// token starts a phrase and the run is within the matcher's reach.
proof fn lemma_run_is_read<Id>(
    rows: Map<Seq<char>, Id>,
    tokens: Seq<TokenView>,
    longest: int,
    at: int,
    n: int,
    id: Id,
)
    requires
        space_free(tokens),
        is_longest(rows, longest),
        names_row(rows, tokens, at, n, id),
        n >= 2,
    ensures
        starts_phrase(rows, tokens[at].normalized),
        n <= longest,
{
    let run = tokens.subrange(at, at + n);
    let words = super::mine::normalized_of(run);
    assert forall|i: int, j: int|
        0 <= i < words.len() && 0 <= j < words[i].len() implies #[trigger] words[i][j] != ' ' by {
        assert(tokens[at + i].normalized[j] != ' ');
    }
    lemma_words_of_joined(words);
    let gram = super::mine::gram_of(run);
    assert(words_of(gram) == words);
    assert(words[0] == tokens[at].normalized);
    assert(rows.contains_key(gram));
}

proof fn lemma_found_at<Id>(
    rows: Map<Seq<char>, Id>,
    tokens: Seq<TokenView>,
    longest: int,
    at: int,
    id: Id,
)
    requires
        space_free(tokens),
        is_longest(rows, longest),
        0 <= at < tokens.len(),
    ensures
        found_at(rows, tokens, at, longest).contains(id) <==> exists|n: int| #[trigger]
            names_row(rows, tokens, at, n, id),
{
    let reach = if starts_phrase(rows, tokens[at].normalized) {
        longest
    } else {
        1
    };
    lemma_hits_at(rows, tokens, at, reach, id);
    if exists|n: int| #[trigger] names_row(rows, tokens, at, n, id) {
        let n = choose|n: int| #[trigger] names_row(rows, tokens, at, n, id);
        if n >= 2 {
            lemma_run_is_read(rows, tokens, longest, at, n, id);
        }
        assert(n <= reach);
    }
}

proof fn lemma_found_before<Id>(
    rows: Map<Seq<char>, Id>,
    tokens: Seq<TokenView>,
    longest: int,
    k: int,
    id: Id,
)
    requires
        space_free(tokens),
        is_longest(rows, longest),
        0 <= k <= tokens.len(),
    ensures
        found_before(rows, tokens, k, longest).contains(id) <==> exists|at: int, n: int|
            at < k && #[trigger] names_row(rows, tokens, at, n, id),
    decreases k,
{
    if k > 0 {
        lemma_found_before(rows, tokens, longest, k - 1, id);
        lemma_found_at(rows, tokens, longest, k - 1, id);
        let front = found_before(rows, tokens, k - 1, longest);
        let last = found_at(rows, tokens, k - 1, longest);
        let all = found_before(rows, tokens, k, longest);
        assert(all == front + last);
        if front.contains(id) {
            let i = choose|i: int| 0 <= i < front.len() && front[i] == id;
            assert(all[i] == id);
            let (at, n) = choose|at: int, n: int|
                at < k - 1 && #[trigger] names_row(rows, tokens, at, n, id);
            assert(names_row(rows, tokens, at, n, id));
        }
        if last.contains(id) {
            let i = choose|i: int| 0 <= i < last.len() && last[i] == id;
            assert(all[front.len() + i] == id);
            let n = choose|n: int| #[trigger] names_row(rows, tokens, k - 1, n, id);
            assert(names_row(rows, tokens, k - 1, n, id));
        }
        if all.contains(id) {
            let i = choose|i: int| 0 <= i < all.len() && all[i] == id;
            if i < front.len() {
                assert(front[i] == id);
            } else {
                assert(last[i - front.len()] == id);
            }
        }
        if exists|at: int, n: int| at < k && #[trigger] names_row(rows, tokens, at, n, id) {
            let (at, n) = choose|at: int, n: int|
                at < k && #[trigger] names_row(rows, tokens, at, n, id);
            if at < k - 1 {
                assert(front.contains(id));
            } else {
                assert(last.contains(id));
            }
        }
    }
}

/// Matching is exact on word boundaries: a row is found exactly when some
/// run of one to [`PHRASE_TOKENS_MAX`] whole tokens spells it, and each row
/// once, however often it is spelled.
pub proof fn law_matches_are_whole_runs<Id>(
    rows: Map<Seq<char>, Id>,
    tokens: Seq<TokenView>,
    longest: int,
)
    requires
        space_free(tokens),
        is_longest(rows, longest),
    ensures
        ({
            let found = distinct(found_before(rows, tokens, tokens.len() as int, longest));
            &&& found.no_duplicates()
            &&& forall|id: Id| #[trigger]
                found.contains(id) <==> exists|at: int, n: int| #[trigger]
                    names_row(rows, tokens, at, n, id)
        }),
{
    let all = found_before(rows, tokens, tokens.len() as int, longest);
    lemma_distinct_no_duplicates(all);
    assert forall|id: Id| #[trigger] distinct(all).contains(id) <==> exists|at: int, n: int| #[trigger]
        names_row(rows, tokens, at, n, id) by {
        lemma_distinct_contains(all, id);
        lemma_found_before(rows, tokens, longest, tokens.len() as int, id);
        if exists|at: int, n: int| #[trigger] names_row(rows, tokens, at, n, id) {
            let (at, n) = choose|at: int, n: int| #[trigger] names_row(rows, tokens, at, n, id);
            assert(at < tokens.len());
        }
    }
}

} // verus!
