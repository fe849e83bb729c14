//! Grounding a cluster with the model: once per changed cluster, the model
//! reads the cluster's rows with excerpts of where they appear and answers
//! three things statistics cannot: which rows are the same thing, what each
//! means in plain words, and what a searcher would say instead. With no
//! model or no budget the pass still mines, matches, anchors, and clusters,
//! and only glosses and aliases wait.

use vstd::prelude::*;
use crate::seam::SeamError;
use crate::text;
use super::planting::alias_row;
use super::rows::{NewVocabularyRow, PlantResult, VocabularyRow};

verus! {

/// Longest gloss kept.
pub const GLOSS_CHARS_MAX: usize = 160;

/// Longest alias kept.
pub const ALIAS_CHARS_MAX: usize = 80;

/// Shortest alias kept.
pub const ALIAS_CHARS_MIN: usize = 3;

/// Most rows one call reads.
pub const ROWS_PER_CALL_MAX: usize = 48;

/// Longest excerpt handed to the model.
pub const EXCERPT_CHARS_MAX: usize = 400;

/// Excerpts handed to the model per cluster, one per member.
pub const EXCERPT_MEMBERS: usize = 3;

/// An alias and its normalized spelling.
#[derive(Debug, Clone, PartialEq, Eq)]
pub struct Alias {
    pub text: String,
    pub normalized: String,
}

/// What an alias says.
pub struct AliasView {
    pub text: Seq<char>,
    pub normalized: Seq<char>,
}

impl View for Alias {
    type V = AliasView;

    open spec fn view(&self) -> AliasView {
        AliasView { text: self.text@, normalized: self.normalized@ }
    }
}

impl Alias {
    fn copy(&self) -> (r: Alias)
        ensures
            r == *self,
    {
        Alias { text: self.text.clone(), normalized: self.normalized.clone() }
    }
}

/// The aliases of a list.
pub open spec fn alias_views(aliases: Seq<Alias>) -> Seq<AliasView> {
    Seq::new(aliases.len(), |i: int| aliases[i]@)
}

/// What the model settled about one cluster, cleaned and bounded.
#[derive(Debug, Clone, PartialEq, Eq)]
pub struct Grounding {
    /// `(survivor, loser)` by normalized spelling, both members.
    pub merges: Vec<(String, String)>,
    /// `(member, gloss)`.
    pub glosses: Vec<(String, String)>,
    /// `(member, aliases)`.
    pub aliases: Vec<(String, Vec<Alias>)>,
}

/// What a grounding says.
#[verifier::ext_equal]
pub struct GroundingView {
    pub merges: Seq<(Seq<char>, Seq<char>)>,
    pub glosses: Seq<(Seq<char>, Seq<char>)>,
    pub aliases: Seq<(Seq<char>, Seq<AliasView>)>,
}

/// The pairs of a list.
pub open spec fn pair_views(pairs: Seq<(String, String)>) -> Seq<(Seq<char>, Seq<char>)> {
    Seq::new(pairs.len(), |i: int| (pairs[i].0@, pairs[i].1@))
}

/// The terms and aliases of a list.
pub open spec fn aliases_views(entries: Seq<(String, Vec<Alias>)>) -> Seq<
    (Seq<char>, Seq<AliasView>),
> {
    Seq::new(entries.len(), |i: int| (entries[i].0@, alias_views(entries[i].1@)))
}

impl View for Grounding {
    type V = GroundingView;

    open spec fn view(&self) -> GroundingView {
        GroundingView {
            merges: pair_views(self.merges@),
            glosses: pair_views(self.glosses@),
            aliases: aliases_views(self.aliases@),
        }
    }
}

/// Grounding of nothing.
pub open spec fn nothing_grounded() -> GroundingView {
    GroundingView { merges: Seq::empty(), glosses: Seq::empty(), aliases: Seq::empty() }
}

impl Default for Grounding {
    fn default() -> (r: Self)
        ensures
            r@ == nothing_grounded(),
    {
        let r = Grounding { merges: Vec::new(), glosses: Vec::new(), aliases: Vec::new() };
        proof {
            assert(r@ =~= nothing_grounded());
        }
        r
    }
}

/// What the model is told to do, up to the number of aliases it may give.
pub const PROMPT_HEAD: &'static str =
    "You curate the private vocabulary of one organization's documents: product and \
         project names, codenames, region and cluster codes, ticket and metric names, \
         customers, people, and the jargon a team uses. You are given the words of one \
         topic cluster with how many documents use each, and short excerpts where they \
         appear. Reply with JSON only, no prose and no markdown, shaped \
         {\"merges\": [{\"keep\": string, \"drop\": string}], \
         \"glosses\": [{\"term\": string, \"gloss\": string}], \
         \"aliases\": [{\"term\": string, \"aliases\": [string]}]}. \
         merges: pairs of listed words that name the same thing (a spelling variant, \
         an abbreviation and its expansion, a name with and without a surname); keep the \
         fuller spelling. Only list pairs you are sure of. \
         glosses: for each listed word, one plain sentence saying what it refers to in \
         these documents, at most twenty words; skip words you cannot tell. \
         aliases: for each listed word, up to ";

/// What follows the number of aliases.
pub const PROMPT_TAIL: &'static str = " short phrases a colleague might \
         type when looking for it without knowing the word — plain descriptions \
         (\"the 80GB accelerator\"), expansions, common misspellings — never the word \
         itself and never generic phrases that fit any topic.";

/// What the model is told to do.
pub fn system_prompt(aliases_per_row_max: usize) -> (r: String)
    ensures
        r@ == PROMPT_HEAD@ + text::decimal(aliases_per_row_max as nat) + PROMPT_TAIL@,
{
    let mut out = PROMPT_HEAD.to_owned();
    out.append(text::number(aliases_per_row_max as u64).as_str());
    out.append(PROMPT_TAIL);
    out
}

/// The line that names a row to the model.
pub open spec fn row_line(row: VocabularyRow) -> Seq<char> {
    "- "@ + row.spelling@ + " ("@ + text::decimal(row.document_frequency as nat) + " documents, "@
        + row.kind.name_view() + ")\n"@
}

/// The lines that name the first `n` rows.
pub open spec fn row_lines(rows: Seq<VocabularyRow>, n: int) -> Seq<char>
    decreases n,
{
    if n <= 0 {
        Seq::empty()
    } else {
        row_lines(rows, n - 1) + row_line(rows[n - 1])
    }
}

/// The lines that quote excerpts, each cut to length.
pub open spec fn excerpt_lines(excerpts: Seq<Seq<char>>) -> Seq<char>
    decreases excerpts.len(),
{
    if excerpts.len() == 0 {
        Seq::empty()
    } else {
        excerpt_lines(excerpts.drop_last()) + ("- "@ + cut_to(
            excerpts.last(),
            EXCERPT_CHARS_MAX as nat,
        ) + "\n"@)
    }
}

/// The smaller of two numbers.
pub open spec fn lesser(a: nat, b: nat) -> nat {
    if a <= b {
        a
    } else {
        b
    }
}

/// What the model is shown: the words, then the excerpts when there are
/// any.
pub open spec fn prompt_view(rows: Seq<VocabularyRow>, excerpts: Seq<Seq<char>>) -> Seq<char> {
    let words = "Words:\n"@ + row_lines(
        rows,
        lesser(rows.len(), ROWS_PER_CALL_MAX as nat) as int,
    );
    if excerpts.len() == 0 {
        words
    } else {
        words + ("\nExcerpts:\n"@ + excerpt_lines(excerpts))
    }
}

/// What the model is shown; `excerpts` are the passages to quote, their
/// whitespace collapsed.
pub fn user_prompt(members: &Vec<VocabularyRow>, excerpts: &Vec<String>) -> (r: String)
    ensures
        r@ == prompt_view(members@, text::views(excerpts@)),
{
    let mut out = "Words:\n".to_owned();
    let ghost head = out@;
    let mut i: usize = 0;
    proof {
        assert(head + row_lines(members@, 0) =~= head);
    }
    while i < members.len() && i < ROWS_PER_CALL_MAX
        invariant
            i <= members@.len(),
            i <= ROWS_PER_CALL_MAX,
            head == "Words:\n"@,
            out@ == head + row_lines(members@, i as int),
        decreases members.len() - i,
    {
        let ghost before = out@;
        let row = &members[i];
        out.append("- ");
        out.append(row.spelling.as_str());
        out.append(" (");
        out.append(text::number(row.document_frequency as u64).as_str());
        out.append(" documents, ");
        out.append(row.kind.name());
        out.append(")\n");
        proof {
            assert(out@ =~= before + row_line(members@[i as int]));
            assert(out@ =~= head + row_lines(members@, i as int + 1));
        }
        i = i + 1;
    }
    if excerpts.len() > 0 {
        let ghost words = out@;
        out.append("\nExcerpts:\n");
        let ghost quoted = text::views(excerpts@);
        let mut k: usize = 0;
        proof {
            assert(quoted.take(0) =~= Seq::empty());
            assert(out@ =~= words + ("\nExcerpts:\n"@ + excerpt_lines(quoted.take(0))));
        }
        while k < excerpts.len()
            invariant
                k <= excerpts@.len(),
                quoted == text::views(excerpts@),
                out@ == words + ("\nExcerpts:\n"@ + excerpt_lines(quoted.take(k as int))),
            decreases excerpts.len() - k,
        {
            let ghost before = excerpt_lines(quoted.take(k as int));
            out.append("- ");
            let quote = cut_text(excerpts[k].as_str(), EXCERPT_CHARS_MAX);
            out.append(quote.as_str());
            out.append("\n");
            proof {
                assert(quoted.take(k as int + 1).drop_last() =~= quoted.take(k as int));
                assert(quoted.take(k as int + 1).last() == excerpts@[k as int]@);
                assert(out@ =~= words + ("\nExcerpts:\n"@ + excerpt_lines(
                    quoted.take(k as int + 1),
                )));
            }
            k = k + 1;
        }
        proof {
            assert(quoted.take(excerpts@.len() as int) =~= quoted);
        }
    }
    out
}

// --- Reading the answer ---

/// The first place of a character, or the length.
pub open spec fn first_of(s: Seq<char>, c: char) -> int
    decreases s.len(),
{
    if s.len() == 0 {
        0
    } else if s[0] == c {
        0
    } else {
        1 + first_of(s.drop_first(), c)
    }
}

/// The last place of a character, or one before the start.
pub open spec fn last_of(s: Seq<char>, c: char) -> int
    decreases s.len(),
{
    if s.len() == 0 {
        -1
    } else if s.last() == c {
        s.len() - 1
    } else {
        last_of(s.drop_last(), c)
    }
}

/// The object an answer holds: from its first opening brace to its last
/// closing one, when they stand in that order.
pub open spec fn object_in(raw: Seq<char>) -> Option<Seq<char>> {
    let open = first_of(raw, '{');
    let close = last_of(raw, '}');
    if open < raw.len() && open < close {
        Some(raw.subrange(open, close + 1))
    } else {
        None
    }
}

proof fn lemma_first_of(s: Seq<char>, c: char, i: int)
    requires
        0 <= i <= s.len(),
        forall|j: int| 0 <= j < i ==> s[j] != c,
        i < s.len() ==> s[i] == c,
    ensures
        first_of(s, c) == i,
    decreases i,
{
    if i > 0 {
        let rest = s.drop_first();
        assert(forall|j: int| 0 <= j < i - 1 ==> rest[j] == s[j + 1]);
        lemma_first_of(rest, c, i - 1);
    }
}

proof fn lemma_last_of(s: Seq<char>, c: char, n: int)
    requires
        0 <= n <= s.len(),
        forall|j: int| n <= j < s.len() ==> s[j] != c,
        n > 0 ==> s[n - 1] == c,
    ensures
        last_of(s, c) == n - 1,
    decreases s.len(),
{
    if s.len() > n {
        let rest = s.drop_last();
        assert(forall|j: int| 0 <= j < rest.len() ==> rest[j] == s[j]);
        lemma_last_of(rest, c, n);
    }
}

/// The object the model's answer holds, tolerating fences and prose around
/// it.
pub fn reply_object(raw: &str) -> (r: Option<String>)
    ensures
        match r {
            Some(object) => object_in(raw@) == Some(object@),
            None => object_in(raw@) is None,
        },
{
    let chars = text::chars_of(raw);
    let mut open: usize = 0;
    while open < chars.len() && chars[open] != '{'
        invariant
            open <= chars@.len(),
            forall|j: int| 0 <= j < open ==> chars@[j] != '{',
        decreases chars.len() - open,
    {
        open = open + 1;
    }
    let mut end: usize = chars.len();
    while end > 0 && chars[end - 1] != '}'
        invariant
            end <= chars@.len(),
            forall|j: int| end <= j < chars@.len() ==> chars@[j] != '}',
        decreases end,
    {
        end = end - 1;
    }
    proof {
        lemma_first_of(chars@, '{', open as int);
        lemma_last_of(chars@, '}', end as int);
    }
    if open < chars.len() && end > 0 && open < end - 1 {
        Some(text::text_between(&chars, open, end))
    } else {
        None
    }
}

/// Two words the model says are one, by normalized spelling.
#[derive(Debug, PartialEq, Eq)]
pub struct ReplyMerge {
    pub keep: String,
    pub drop: String,
}

/// A word's meaning as the model says it: the term's normalized spelling,
/// and the gloss trimmed with its whitespace collapsed.
#[derive(Debug, PartialEq, Eq)]
pub struct ReplyGloss {
    pub term: String,
    pub gloss: String,
}

/// A word's aliases as the model says them: the term's normalized spelling,
/// and each alias trimmed with its whitespace collapsed.
#[derive(Debug, PartialEq, Eq)]
pub struct ReplyAliases {
    pub term: String,
    pub aliases: Vec<Alias>,
}

/// The model's answer.
#[derive(Debug, PartialEq, Eq)]
pub struct Reply {
    pub merges: Vec<ReplyMerge>,
    pub glosses: Vec<ReplyGloss>,
    pub aliases: Vec<ReplyAliases>,
}

/// The merges kept of an answer: two different members, each dropped once.
pub open spec fn merges_kept(members: Seq<Seq<char>>, merges: Seq<ReplyMerge>) -> Seq<
    (Seq<char>, Seq<char>),
>
    decreases merges.len(),
{
    if merges.len() == 0 {
        Seq::empty()
    } else {
        let before = merges_kept(members, merges.drop_last());
        let keep = merges.last().keep@;
        let drop = merges.last().drop@;
        if keep == drop || !members.contains(keep) || !members.contains(drop) || drops(
            before,
            drop,
        ) {
            before
        } else {
            before.push((keep, drop))
        }
    }
}

/// Whether a merge of the list drops `term`.
pub open spec fn drops(merges: Seq<(Seq<char>, Seq<char>)>, term: Seq<char>) -> bool {
    exists|i: int| 0 <= i < merges.len() && (#[trigger] merges[i]).1 == term
}

/// A text cut to its first `n` characters.
pub open spec fn cut_to(s: Seq<char>, n: nat) -> Seq<char> {
    if s.len() <= n {
        s
    } else {
        s.take(n as int)
    }
}

/// Whether a pair of the list is of `term`.
pub open spec fn has_term<A>(pairs: Seq<(Seq<char>, A)>, term: Seq<char>) -> bool {
    exists|i: int| 0 <= i < pairs.len() && (#[trigger] pairs[i]).0 == term
}

/// The glosses kept of an answer: of members that were not dropped, cut to
/// length, the first of each.
pub open spec fn glosses_kept(
    members: Seq<Seq<char>>,
    merges: Seq<(Seq<char>, Seq<char>)>,
    glosses: Seq<ReplyGloss>,
) -> Seq<(Seq<char>, Seq<char>)>
    decreases glosses.len(),
{
    if glosses.len() == 0 {
        Seq::empty()
    } else {
        let before = glosses_kept(members, merges, glosses.drop_last());
        let term = glosses.last().term@;
        let said = cut_to(glosses.last().gloss@, GLOSS_CHARS_MAX as nat);
        if !members.contains(term) || said.len() == 0 || drops(merges, term) || has_term(
            before,
            term,
        ) {
            before
        } else {
            before.push((term, said))
        }
    }
}

/// Whether an alias of the list has the normalized spelling `normalized`.
pub open spec fn has_alias(aliases: Seq<AliasView>, normalized: Seq<char>) -> bool {
    exists|i: int| 0 <= i < aliases.len() && (#[trigger] aliases[i]).normalized == normalized
}

/// The aliases of a term that are kept: of a fitting length, not the word
/// itself, each once, no more than `max`.
pub open spec fn aliases_cleaned(term: Seq<char>, raw: Seq<AliasView>, max: nat) -> Seq<AliasView>
    decreases raw.len(),
{
    if raw.len() == 0 {
        Seq::empty()
    } else {
        let before = aliases_cleaned(term, raw.drop_last(), max);
        let alias = raw.last();
        if before.len() >= max {
            before
        } else if !(ALIAS_CHARS_MIN <= alias.text.len() <= ALIAS_CHARS_MAX) || alias.normalized
            == term || alias.normalized.len() == 0 || has_alias(before, alias.normalized) {
            before
        } else {
            before.push(alias)
        }
    }
}

/// The aliases kept of an answer: of members that were not dropped, the
/// first non-empty list of each.
pub open spec fn aliases_kept(
    members: Seq<Seq<char>>,
    merges: Seq<(Seq<char>, Seq<char>)>,
    entries: Seq<ReplyAliases>,
    max: nat,
) -> Seq<(Seq<char>, Seq<AliasView>)>
    decreases entries.len(),
{
    if entries.len() == 0 {
        Seq::empty()
    } else {
        let before = aliases_kept(members, merges, entries.drop_last(), max);
        let term = entries.last().term@;
        let cleaned = aliases_cleaned(term, alias_views(entries.last().aliases@), max);
        if !members.contains(term) || drops(merges, term) || cleaned.len() == 0 || has_term(
            before,
            term,
        ) {
            before
        } else {
            before.push((term, cleaned))
        }
    }
}

/// What an answer settles about a cluster.
pub open spec fn settled(members: Seq<Seq<char>>, reply: Reply, max: nat) -> GroundingView {
    let merges = merges_kept(members, reply.merges@);
    GroundingView {
        merges,
        glosses: glosses_kept(members, merges, reply.glosses@),
        aliases: aliases_kept(members, merges, reply.aliases@, max),
    }
}

fn is_dropped(merges: &Vec<(String, String)>, term: &str) -> (r: bool)
    ensures
        r == drops(pair_views(merges@), term@),
{
    let mut i: usize = 0;
    while i < merges.len()
        invariant
            i <= merges@.len(),
            forall|j: int| 0 <= j < i ==> (#[trigger] merges@[j]).1@ != term@,
        decreases merges.len() - i,
    {
        if text::same(merges[i].1.as_str(), term) {
            proof {
                assert(pair_views(merges@)[i as int].1 == term@);
            }
            return true;
        }
        i = i + 1;
    }
    proof {
        assert(forall|j: int|
            0 <= j < pair_views(merges@).len() ==> (#[trigger] pair_views(merges@)[j]).1 == merges@[j].1@);
    }
    false
}

fn is_glossed(pairs: &Vec<(String, String)>, term: &str) -> (r: bool)
    ensures
        r == has_term(pair_views(pairs@), term@),
{
    let mut i: usize = 0;
    while i < pairs.len()
        invariant
            i <= pairs@.len(),
            forall|j: int| 0 <= j < i ==> (#[trigger] pairs@[j]).0@ != term@,
        decreases pairs.len() - i,
    {
        if text::same(pairs[i].0.as_str(), term) {
            proof {
                assert(pair_views(pairs@)[i as int].0 == term@);
            }
            return true;
        }
        i = i + 1;
    }
    proof {
        assert(forall|j: int|
            0 <= j < pair_views(pairs@).len() ==> (#[trigger] pair_views(pairs@)[j]).0 == pairs@[j].0@);
    }
    false
}

fn is_aliased(entries: &Vec<(String, Vec<Alias>)>, term: &str) -> (r: bool)
    ensures
        r == has_term(aliases_views(entries@), term@),
{
    let mut i: usize = 0;
    while i < entries.len()
        invariant
            i <= entries@.len(),
            forall|j: int| 0 <= j < i ==> (#[trigger] entries@[j]).0@ != term@,
        decreases entries.len() - i,
    {
        if text::same(entries[i].0.as_str(), term) {
            proof {
                assert(aliases_views(entries@)[i as int].0 == term@);
            }
            return true;
        }
        i = i + 1;
    }
    proof {
        assert(forall|j: int|
            0 <= j < aliases_views(entries@).len() ==> (#[trigger] aliases_views(entries@)[j]).0
                == entries@[j].0@);
    }
    false
}

fn keep_merges(members: &Vec<String>, merges: &Vec<ReplyMerge>) -> (r: Vec<(String, String)>)
    ensures
        pair_views(r@) == merges_kept(text::views(members@), merges@),
{
    let mut out: Vec<(String, String)> = Vec::new();
    let mut i: usize = 0;
    proof {
        assert(merges@.take(0) =~= Seq::empty());
        assert(pair_views(out@) =~= Seq::empty());
    }
    while i < merges.len()
        invariant
            i <= merges@.len(),
            pair_views(out@) == merges_kept(text::views(members@), merges@.take(i as int)),
        decreases merges.len() - i,
    {
        let ghost before = pair_views(out@);
        let merge = &merges[i];
        proof {
            assert(merges@.take(i as int + 1).drop_last() =~= merges@.take(i as int));
            assert(merges@.take(i as int + 1).last() == merges@[i as int]);
        }
        if !text::same(merge.keep.as_str(), merge.drop.as_str()) && text::holds(
            members,
            merge.keep.as_str(),
        ) && text::holds(members, merge.drop.as_str()) && !is_dropped(&out, merge.drop.as_str()) {
            out.push((merge.keep.clone(), merge.drop.clone()));
            proof {
                assert(pair_views(out@) =~= before.push((merge.keep@, merge.drop@)));
            }
        }
        i = i + 1;
    }
    proof {
        assert(merges@.take(merges@.len() as int) =~= merges@);
    }
    out
}

pub(crate) fn cut_text(s: &str, n: usize) -> (r: String)
    ensures
        r@ == cut_to(s@, n as nat),
{
    let chars = text::chars_of(s);
    if chars.len() <= n {
        s.to_owned()
    } else {
        let cut = text::text_between(&chars, 0, n);
        proof {
            assert(chars@.subrange(0, n as int) =~= chars@.take(n as int));
        }
        cut
    }
}

fn keep_glosses(
    members: &Vec<String>,
    merges: &Vec<(String, String)>,
    glosses: &Vec<ReplyGloss>,
) -> (r: Vec<(String, String)>)
    ensures
        pair_views(r@) == glosses_kept(text::views(members@), pair_views(merges@), glosses@),
{
    let mut out: Vec<(String, String)> = Vec::new();
    let mut i: usize = 0;
    proof {
        assert(glosses@.take(0) =~= Seq::empty());
        assert(pair_views(out@) =~= Seq::empty());
    }
    while i < glosses.len()
        invariant
            i <= glosses@.len(),
            pair_views(out@) == glosses_kept(
                text::views(members@),
                pair_views(merges@),
                glosses@.take(i as int),
            ),
        decreases glosses.len() - i,
    {
        let ghost before = pair_views(out@);
        let gloss = &glosses[i];
        proof {
            assert(glosses@.take(i as int + 1).drop_last() =~= glosses@.take(i as int));
            assert(glosses@.take(i as int + 1).last() == glosses@[i as int]);
        }
        let said = cut_text(gloss.gloss.as_str(), GLOSS_CHARS_MAX);
        if text::holds(members, gloss.term.as_str()) && !said.as_str().is_empty() && !is_dropped(
            merges,
            gloss.term.as_str(),
        ) && !is_glossed(&out, gloss.term.as_str()) {
            let ghost words = said@;
            out.push((gloss.term.clone(), said));
            proof {
                assert(pair_views(out@) =~= before.push((gloss.term@, words)));
            }
        }
        i = i + 1;
    }
    proof {
        assert(glosses@.take(glosses@.len() as int) =~= glosses@);
    }
    out
}

fn knows_alias(aliases: &Vec<Alias>, normalized: &str) -> (r: bool)
    ensures
        r == has_alias(alias_views(aliases@), normalized@),
{
    let mut i: usize = 0;
    while i < aliases.len()
        invariant
            i <= aliases@.len(),
            forall|j: int| 0 <= j < i ==> (#[trigger] aliases@[j]).normalized@ != normalized@,
        decreases aliases.len() - i,
    {
        if text::same(aliases[i].normalized.as_str(), normalized) {
            proof {
                assert(alias_views(aliases@)[i as int].normalized == normalized@);
            }
            return true;
        }
        i = i + 1;
    }
    proof {
        assert(forall|j: int|
            0 <= j < alias_views(aliases@).len() ==> (#[trigger] alias_views(aliases@)[j]).normalized
                == aliases@[j].normalized@);
    }
    false
}

/// Bound a term's aliases, drop the word itself and duplicates, and stop at
/// `max`.
pub fn clean_aliases(term: &str, raw: &Vec<Alias>, max: usize) -> (r: Vec<Alias>)
    ensures
        alias_views(r@) == aliases_cleaned(term@, alias_views(raw@), max as nat),
{
    let ghost views = alias_views(raw@);
    let mut out: Vec<Alias> = Vec::new();
    let mut i: usize = 0;
    proof {
        assert(views.take(0) =~= Seq::empty());
        assert(alias_views(out@) =~= Seq::empty());
    }
    while i < raw.len()
        invariant
            i <= raw@.len(),
            views == alias_views(raw@),
            alias_views(out@) == aliases_cleaned(term@, views.take(i as int), max as nat),
        decreases raw.len() - i,
    {
        let ghost before = alias_views(out@);
        let alias = &raw[i];
        proof {
            assert(views.take(i as int + 1).drop_last() =~= views.take(i as int));
            assert(views.take(i as int + 1).last() == alias@);
        }
        let full = out.len() >= max;
        let length: usize = alias.text.as_str().unicode_len();
        if !full && length >= ALIAS_CHARS_MIN && length <= ALIAS_CHARS_MAX && !text::same(
            alias.normalized.as_str(),
            term,
        ) && !alias.normalized.as_str().is_empty() && !knows_alias(
            &out,
            alias.normalized.as_str(),
        ) {
            out.push(alias.copy());
            proof {
                assert(alias_views(out@) =~= before.push(alias@));
            }
        }
        i = i + 1;
    }
    proof {
        assert(views.take(raw@.len() as int) =~= views);
    }
    out
}

fn keep_aliases(
    members: &Vec<String>,
    merges: &Vec<(String, String)>,
    entries: &Vec<ReplyAliases>,
    max: usize,
) -> (r: Vec<(String, Vec<Alias>)>)
    ensures
        aliases_views(r@) == aliases_kept(
            text::views(members@),
            pair_views(merges@),
            entries@,
            max as nat,
        ),
{
    let mut out: Vec<(String, Vec<Alias>)> = Vec::new();
    let mut i: usize = 0;
    proof {
        assert(entries@.take(0) =~= Seq::empty());
        assert(aliases_views(out@) =~= Seq::empty());
    }
    while i < entries.len()
        invariant
            i <= entries@.len(),
            aliases_views(out@) == aliases_kept(
                text::views(members@),
                pair_views(merges@),
                entries@.take(i as int),
                max as nat,
            ),
        decreases entries.len() - i,
    {
        let ghost before = aliases_views(out@);
        let entry = &entries[i];
        proof {
            assert(entries@.take(i as int + 1).drop_last() =~= entries@.take(i as int));
            assert(entries@.take(i as int + 1).last() == entries@[i as int]);
        }
        let cleaned = clean_aliases(entry.term.as_str(), &entry.aliases, max);
        if text::holds(members, entry.term.as_str()) && !is_dropped(merges, entry.term.as_str())
            && cleaned.len() > 0 && !is_aliased(&out, entry.term.as_str()) {
            let ghost kept = alias_views(cleaned@);
            out.push((entry.term.clone(), cleaned));
            proof {
                assert(aliases_views(out@) =~= before.push((entry.term@, kept)));
            }
        }
        i = i + 1;
    }
    proof {
        assert(entries@.take(entries@.len() as int) =~= entries@);
    }
    out
}

/// Read the model's answer and keep only what names a listed member: merges
/// of two members, glosses and aliases of members no merge dropped. `reply`
/// is what [`reply_object`] holds, where it holds an answer; anything else
/// grounds nothing: grounding is enrichment, not a gate. `members` are the
/// normalized spellings the model was shown.
pub fn parse(reply: &Option<Reply>, members: &Vec<String>, aliases_per_row_max: usize) -> (r: Grounding)
    ensures
        r@ == match *reply {
            Some(answer) => settled(text::views(members@), answer, aliases_per_row_max as nat),
            None => nothing_grounded(),
        },
{
    match reply {
        Some(answer) => {
            let merges = keep_merges(members, &answer.merges);
            let glosses = keep_glosses(members, &merges, &answer.glosses);
            let aliases = keep_aliases(members, &merges, &answer.aliases, aliases_per_row_max);
            Grounding { merges, glosses, aliases }
        },
        None => Grounding::default(),
    }
}

proof fn lemma_merges_kept(members: Seq<Seq<char>>, merges: Seq<ReplyMerge>)
    ensures
        ({
            let kept = merges_kept(members, merges);
            &&& forall|i: int|
                0 <= i < kept.len() ==> members.contains((#[trigger] kept[i]).0)
                    && members.contains(kept[i].1) && kept[i].0 != kept[i].1
            &&& forall|i: int, j: int|
                0 <= i < j < kept.len() ==> (#[trigger] kept[i]).1 != (#[trigger] kept[j]).1
        }),
    decreases merges.len(),
{
    if merges.len() > 0 {
        lemma_merges_kept(members, merges.drop_last());
        let before = merges_kept(members, merges.drop_last());
        let kept = merges_kept(members, merges);
        assert forall|i: int, j: int| 0 <= i < j < kept.len() implies (#[trigger] kept[i]).1 != (
        #[trigger] kept[j]).1 by {
            assert(before[i] == kept[i]);
            if j < before.len() {
                assert(before[j] == kept[j]);
            }
        }
        assert forall|i: int| 0 <= i < before.len() implies kept[i] == #[trigger] before[i] by {}
    }
}

proof fn lemma_glosses_kept(
    members: Seq<Seq<char>>,
    merges: Seq<(Seq<char>, Seq<char>)>,
    glosses: Seq<ReplyGloss>,
)
    ensures
        ({
            let kept = glosses_kept(members, merges, glosses);
            &&& forall|i: int|
                0 <= i < kept.len() ==> members.contains((#[trigger] kept[i]).0) && !drops(
                    merges,
                    kept[i].0,
                ) && 0 < kept[i].1.len() <= GLOSS_CHARS_MAX
            &&& forall|i: int, j: int|
                0 <= i < j < kept.len() ==> (#[trigger] kept[i]).0 != (#[trigger] kept[j]).0
        }),
    decreases glosses.len(),
{
    if glosses.len() > 0 {
        lemma_glosses_kept(members, merges, glosses.drop_last());
        let before = glosses_kept(members, merges, glosses.drop_last());
        let kept = glosses_kept(members, merges, glosses);
        assert forall|i: int, j: int| 0 <= i < j < kept.len() implies (#[trigger] kept[i]).0 != (
        #[trigger] kept[j]).0 by {
            assert(before[i] == kept[i]);
            if j < before.len() {
                assert(before[j] == kept[j]);
            }
        }
        assert forall|i: int| 0 <= i < before.len() implies kept[i] == #[trigger] before[i] by {}
    }
}

proof fn lemma_aliases_cleaned(term: Seq<char>, raw: Seq<AliasView>, max: nat)
    ensures
        ({
            let kept = aliases_cleaned(term, raw, max);
            &&& kept.len() <= max
            &&& forall|i: int|
                0 <= i < kept.len() ==> ALIAS_CHARS_MIN <= (#[trigger] kept[i]).text.len()
                    <= ALIAS_CHARS_MAX && kept[i].normalized != term
        }),
    decreases raw.len(),
{
    if raw.len() > 0 {
        lemma_aliases_cleaned(term, raw.drop_last(), max);
    }
}

proof fn lemma_aliases_kept(
    members: Seq<Seq<char>>,
    merges: Seq<(Seq<char>, Seq<char>)>,
    entries: Seq<ReplyAliases>,
    max: nat,
)
    ensures
        ({
            let kept = aliases_kept(members, merges, entries, max);
            &&& forall|i: int|
                0 <= i < kept.len() ==> members.contains((#[trigger] kept[i]).0) && !drops(
                    merges,
                    kept[i].0,
                ) && 0 < kept[i].1.len() <= max
            &&& forall|i: int, j: int|
                0 <= i < j < kept.len() ==> (#[trigger] kept[i]).0 != (#[trigger] kept[j]).0
        }),
    decreases entries.len(),
{
    if entries.len() > 0 {
        lemma_aliases_kept(members, merges, entries.drop_last(), max);
        let before = aliases_kept(members, merges, entries.drop_last(), max);
        let kept = aliases_kept(members, merges, entries, max);
        assert forall|i: int, j: int| 0 <= i < j < kept.len() implies (#[trigger] kept[i]).0 != (
        #[trigger] kept[j]).0 by {
            assert(before[i] == kept[i]);
            if j < before.len() {
                assert(before[j] == kept[j]);
            }
        }
        assert forall|i: int| 0 <= i < before.len() implies kept[i] == #[trigger] before[i] by {}
        lemma_aliases_cleaned(entries.last().term@, alias_views(entries.last().aliases@), max);
    }
}

/// Whatever the model answers, a grounding names only members: a merge is
/// of two different ones, none is dropped twice, and a word that was
/// dropped gets neither gloss nor alias; glosses are never empty and never
/// longer than [`GLOSS_CHARS_MAX`], and no word has more aliases than asked
/// for.
pub proof fn law_grounding_is_bounded(members: Seq<Seq<char>>, reply: Reply, max: nat)
    ensures
        ({
            let g = settled(members, reply, max);
            &&& forall|i: int|
                0 <= i < g.merges.len() ==> members.contains((#[trigger] g.merges[i]).0)
                    && members.contains(g.merges[i].1) && g.merges[i].0 != g.merges[i].1
            &&& forall|i: int, j: int|
                0 <= i < j < g.merges.len() ==> (#[trigger] g.merges[i]).1 != (
                #[trigger] g.merges[j]).1
            &&& forall|i: int|
                0 <= i < g.glosses.len() ==> members.contains((#[trigger] g.glosses[i]).0)
                    && !drops(g.merges, g.glosses[i].0) && 0 < g.glosses[i].1.len()
                    <= GLOSS_CHARS_MAX
            &&& forall|i: int|
                0 <= i < g.aliases.len() ==> members.contains((#[trigger] g.aliases[i]).0)
                    && !drops(g.merges, g.aliases[i].0) && g.aliases[i].1.len() <= max
        }),
{
    let merges = merges_kept(members, reply.merges@);
    lemma_merges_kept(members, reply.merges@);
    lemma_glosses_kept(members, merges, reply.glosses@);
    lemma_aliases_kept(members, merges, reply.aliases@, max);
}

// --- Applying it ---

/// The member a spelling names: the last listed of that spelling.
pub open spec fn member_of(members: Seq<VocabularyRow>, spelling: Seq<char>) -> Option<VocabularyRow>
    decreases members.len(),
{
    if members.len() == 0 {
        None
    } else if members.last().normalized@ == spelling {
        Some(members.last())
    } else {
        member_of(members.drop_last(), spelling)
    }
}

/// The rows to merge, `(survivor, loser)` by fragment: those of the pairs
/// that are two different fragments.
pub open spec fn row_merges(
    members: Seq<VocabularyRow>,
    merges: Seq<(Seq<char>, Seq<char>)>,
) -> Seq<(i64, i64)>
    decreases merges.len(),
{
    if merges.len() == 0 {
        Seq::empty()
    } else {
        let before = row_merges(members, merges.drop_last());
        match (member_of(members, merges.last().0), member_of(members, merges.last().1)) {
            (Some(survivor), Some(loser)) => if survivor.fragment != loser.fragment {
                before.push((survivor.fragment, loser.fragment))
            } else {
                before
            },
            _ => before,
        }
    }
}

/// The glosses to write, by fragment.
pub open spec fn row_glosses(
    members: Seq<VocabularyRow>,
    glosses: Seq<(Seq<char>, Seq<char>)>,
) -> Seq<(i64, Seq<char>)>
    decreases glosses.len(),
{
    if glosses.len() == 0 {
        Seq::empty()
    } else {
        let before = row_glosses(members, glosses.drop_last());
        match member_of(members, glosses.last().0) {
            Some(row) => before.push((row.fragment, glosses.last().1)),
            None => before,
        }
    }
}

/// The rows of a list of aliases.
pub open spec fn alias_rows(aliases: Seq<AliasView>) -> Seq<super::rows::NewRowView> {
    Seq::new(
        aliases.len(),
        |i: int| super::planting::alias_view(aliases[i].text, aliases[i].normalized),
    )
}

/// The aliases to plant, by the fragment they are aliases of.
pub open spec fn row_aliases(
    members: Seq<VocabularyRow>,
    aliases: Seq<(Seq<char>, Seq<AliasView>)>,
) -> Seq<(i64, Seq<super::rows::NewRowView>)>
    decreases aliases.len(),
{
    if aliases.len() == 0 {
        Seq::empty()
    } else {
        let before = row_aliases(members, aliases.drop_last());
        match member_of(members, aliases.last().0) {
            Some(row) => before.push((row.fragment, alias_rows(aliases.last().1))),
            None => before,
        }
    }
}

/// A gloss to write.
#[derive(Debug, PartialEq, Eq)]
pub struct GlossToWrite {
    pub fragment: i64,
    pub gloss: String,
}

/// Aliases to plant for one row.
#[derive(Debug, PartialEq, Eq)]
pub struct AliasesToPlant {
    /// The row they are aliases of.
    pub fragment: i64,
    pub rows: Vec<NewVocabularyRow>,
}

/// What a grounding asks of the store, in the order it is written.
#[derive(Debug, PartialEq, Eq)]
pub struct GroundingPlan {
    /// Rows to merge, `(survivor, loser)`: the loser becomes an alias.
    pub merges: Vec<(i64, i64)>,
    pub glosses: Vec<GlossToWrite>,
    pub aliases: Vec<AliasesToPlant>,
    /// The cluster to note as touched: that of the first member.
    pub cluster: Option<i64>,
}

/// What a list of glosses to write says.
pub open spec fn gloss_views(glosses: Seq<GlossToWrite>) -> Seq<(i64, Seq<char>)> {
    Seq::new(glosses.len(), |i: int| (glosses[i].fragment, glosses[i].gloss@))
}

/// What a list of rows to plant says.
pub open spec fn new_row_views(rows: Seq<NewVocabularyRow>) -> Seq<super::rows::NewRowView> {
    Seq::new(rows.len(), |i: int| rows[i]@)
}

/// What a list of aliases to plant says.
pub open spec fn plant_views(aliases: Seq<AliasesToPlant>) -> Seq<
    (i64, Seq<super::rows::NewRowView>),
> {
    Seq::new(aliases.len(), |i: int| (aliases[i].fragment, new_row_views(aliases[i].rows@)))
}

fn find_member(members: &Vec<VocabularyRow>, spelling: &str) -> (r: Option<usize>)
    ensures
        match r {
            Some(i) => i < members@.len() && member_of(members@, spelling@) == Some(
                members@[i as int],
            ),
            None => member_of(members@, spelling@) is None,
        },
{
    let mut i: usize = members.len();
    proof {
        assert(members@.take(members@.len() as int) =~= members@);
    }
    while i > 0
        invariant
            i <= members@.len(),
            member_of(members@, spelling@) == member_of(members@.take(i as int), spelling@),
        decreases i,
    {
        proof {
            assert(members@.take(i as int).drop_last() =~= members@.take(i - 1));
            assert(members@.take(i as int).last() == members@[i - 1]);
        }
        if text::same(members[i - 1].normalized.as_str(), spelling) {
            return Some(i - 1);
        }
        i = i - 1;
    }
    None
}

fn plan_merges(members: &Vec<VocabularyRow>, merges: &Vec<(String, String)>) -> (r: Vec<(i64, i64)>)
    ensures
        r@ == row_merges(members@, pair_views(merges@)),
{
    let ghost views = pair_views(merges@);
    let mut out: Vec<(i64, i64)> = Vec::new();
    let mut i: usize = 0;
    proof {
        assert(views.take(0) =~= Seq::empty());
        assert(out@ =~= Seq::empty());
    }
    while i < merges.len()
        invariant
            i <= merges@.len(),
            views == pair_views(merges@),
            out@ == row_merges(members@, views.take(i as int)),
        decreases merges.len() - i,
    {
        proof {
            assert(views.take(i as int + 1).drop_last() =~= views.take(i as int));
            assert(views.take(i as int + 1).last() == (merges@[i as int].0@, merges@[i as int].1@));
        }
        let survivor = find_member(members, merges[i].0.as_str());
        let loser = find_member(members, merges[i].1.as_str());
        if let Some(a) = survivor {
            if let Some(b) = loser {
                if members[a].fragment != members[b].fragment {
                    out.push((members[a].fragment, members[b].fragment));
                }
            }
        }
        i = i + 1;
    }
    proof {
        assert(views.take(merges@.len() as int) =~= views);
    }
    out
}

fn plan_glosses(members: &Vec<VocabularyRow>, glosses: &Vec<(String, String)>) -> (r: Vec<GlossToWrite>)
    ensures
        gloss_views(r@) == row_glosses(members@, pair_views(glosses@)),
{
    let ghost views = pair_views(glosses@);
    let mut out: Vec<GlossToWrite> = Vec::new();
    let mut i: usize = 0;
    proof {
        assert(views.take(0) =~= Seq::empty());
        assert(gloss_views(out@) =~= Seq::empty());
    }
    while i < glosses.len()
        invariant
            i <= glosses@.len(),
            views == pair_views(glosses@),
            gloss_views(out@) == row_glosses(members@, views.take(i as int)),
        decreases glosses.len() - i,
    {
        let ghost before = gloss_views(out@);
        proof {
            assert(views.take(i as int + 1).drop_last() =~= views.take(i as int));
            assert(views.take(i as int + 1).last() == (
                glosses@[i as int].0@,
                glosses@[i as int].1@,
            ));
        }
        if let Some(k) = find_member(members, glosses[i].0.as_str()) {
            out.push(
                GlossToWrite { fragment: members[k].fragment, gloss: glosses[i].1.clone() },
            );
            proof {
                assert(gloss_views(out@) =~= before.push(
                    (members@[k as int].fragment, glosses@[i as int].1@),
                ));
            }
        }
        i = i + 1;
    }
    proof {
        assert(views.take(glosses@.len() as int) =~= views);
    }
    out
}

fn plan_alias_rows(aliases: &Vec<Alias>) -> (r: Vec<NewVocabularyRow>)
    ensures
        new_row_views(r@) == alias_rows(alias_views(aliases@)),
{
    let mut out: Vec<NewVocabularyRow> = Vec::new();
    let mut i: usize = 0;
    while i < aliases.len()
        invariant
            i <= aliases@.len(),
            out@.len() == i,
            forall|j: int|
                0 <= j < i ==> (#[trigger] out@[j])@ == super::planting::alias_view(
                    aliases@[j].text@,
                    aliases@[j].normalized@,
                ),
        decreases aliases.len() - i,
    {
        out.push(alias_row(aliases[i].text.as_str(), aliases[i].normalized.as_str()));
        i = i + 1;
    }
    proof {
        assert(new_row_views(out@) =~= alias_rows(alias_views(aliases@)));
    }
    out
}

fn plan_aliases(members: &Vec<VocabularyRow>, aliases: &Vec<(String, Vec<Alias>)>) -> (r: Vec<
    AliasesToPlant,
>)
    ensures
        plant_views(r@) == row_aliases(members@, aliases_views(aliases@)),
{
    let ghost views = aliases_views(aliases@);
    let mut out: Vec<AliasesToPlant> = Vec::new();
    let mut i: usize = 0;
    proof {
        assert(views.take(0) =~= Seq::empty());
        assert(plant_views(out@) =~= Seq::empty());
    }
    while i < aliases.len()
        invariant
            i <= aliases@.len(),
            views == aliases_views(aliases@),
            plant_views(out@) == row_aliases(members@, views.take(i as int)),
        decreases aliases.len() - i,
    {
        let ghost before = plant_views(out@);
        proof {
            assert(views.take(i as int + 1).drop_last() =~= views.take(i as int));
            assert(views.take(i as int + 1).last() == (
                aliases@[i as int].0@,
                alias_views(aliases@[i as int].1@),
            ));
        }
        if let Some(k) = find_member(members, aliases[i].0.as_str()) {
            let rows = plan_alias_rows(&aliases[i].1);
            let ghost said = new_row_views(rows@);
            out.push(AliasesToPlant { fragment: members[k].fragment, rows });
            proof {
                assert(plant_views(out@) =~= before.push((members@[k as int].fragment, said)));
            }
        }
        i = i + 1;
    }
    proof {
        assert(views.take(aliases@.len() as int) =~= views);
    }
    out
}

/// What the model settled, as writes: merges demote a row to an alias,
/// glosses are written once, aliases become rows related into their word.
pub fn plan_grounding(members: &Vec<VocabularyRow>, grounding: &Grounding) -> (r: GroundingPlan)
    ensures
        r.merges@ == row_merges(members@, grounding@.merges),
        gloss_views(r.glosses@) == row_glosses(members@, grounding@.glosses),
        plant_views(r.aliases@) == row_aliases(members@, grounding@.aliases),
        r.cluster == if members@.len() > 0 {
            members@[0].cluster
        } else {
            None
        },
{
    GroundingPlan {
        merges: plan_merges(members, &grounding.merges),
        glosses: plan_glosses(members, &grounding.glosses),
        aliases: plan_aliases(members, &grounding.aliases),
        cluster: if members.len() > 0 {
            members[0].cluster
        } else {
            None
        },
    }
}

/// The anchors of planted aliases: each from its own fragment to the row it
/// is an alias of.
pub fn alias_anchors(results: &Vec<PlantResult>, row: i64) -> (r: Vec<(i64, i64)>)
    ensures
        r@ == Seq::new(results@.len(), |i: int| (results@[i].fragment, row)),
{
    let mut out: Vec<(i64, i64)> = Vec::new();
    let mut i: usize = 0;
    while i < results.len()
        invariant
            i <= results@.len(),
            out@.len() == i,
            forall|j: int| 0 <= j < i ==> (#[trigger] out@[j]) == (results@[j].fragment, row),
        decreases results.len() - i,
    {
        out.push((results[i].fragment, row));
        i = i + 1;
    }
    proof {
        assert(out@ =~= Seq::new(results@.len(), |i: int| (results@[i].fragment, row)));
    }
    out
}

/// What one cluster's call came to.
#[derive(Debug, PartialEq, Eq)]
pub enum Answer {
    /// The cluster had no members, so no call was made.
    NoMembers,
    Grounded(Grounding),
    Failed(SeamError),
}

/// What the run does next.
#[derive(Debug, Clone, Copy, PartialEq, Eq, Structural)]
pub enum AfterAnswer {
    /// Apply the grounding and go on.
    Apply,
    /// Go on to the next answer.
    Skip,
    /// Make no further use of the model this run.
    Stop,
}

/// What follows a call: a grounding is applied, a refusal ends the run (the
/// budget is spent), and any other failure costs only its own cluster.
pub fn after_answer(answer: &Answer) -> (r: AfterAnswer)
    ensures
        r == match *answer {
            Answer::NoMembers => AfterAnswer::Skip,
            Answer::Grounded(_) => AfterAnswer::Apply,
            Answer::Failed(error) => if error is Refused {
                AfterAnswer::Stop
            } else {
                AfterAnswer::Skip
            },
        },
{
    match answer {
        Answer::NoMembers => AfterAnswer::Skip,
        Answer::Grounded(_) => AfterAnswer::Apply,
        Answer::Failed(error) => match error {
            SeamError::Refused(_) => AfterAnswer::Stop,
            _ => AfterAnswer::Skip,
        },
    }
}

/// Whether a cluster is embedded anew: it has members, and its text moved
/// or has no vector yet.
pub fn needs_embedding(members: usize, digest: &str, recorded: &str, has_vector: bool) -> (r: bool)
    ensures
        r == (members > 0 && !(digest@ == recorded@ && has_vector)),
{
    members > 0 && !(has_vector && text::same(digest, recorded))
}

/// Whether a merge of an answer can be kept: it names two different members.
pub open spec fn is_merge(members: Seq<Seq<char>>, merge: ReplyMerge) -> bool {
    members.contains(merge.keep@) && members.contains(merge.drop@) && merge.keep@ != merge.drop@
}

/// Whether the `k`th merge of an answer is the first that drops its word.
pub open spec fn drops_first(members: Seq<Seq<char>>, merges: Seq<ReplyMerge>, k: int) -> bool {
    is_merge(members, merges[k]) && forall|j: int|
        0 <= j < k && is_merge(members, #[trigger] merges[j]) ==> merges[j].drop@ != merges[k].drop@
}

/// Whether a pair is what the first merge of its word says.
pub open spec fn merges_first(
    members: Seq<Seq<char>>,
    merges: Seq<ReplyMerge>,
    pair: (Seq<char>, Seq<char>),
) -> bool {
    exists|k: int|
        0 <= k < merges.len() && #[trigger] drops_first(members, merges, k) && pair == (
            merges[k].keep@,
            merges[k].drop@,
        )
}

/// The first merge of every word that can be dropped is kept, as the model
/// gave it and in its order; nothing else is.
pub proof fn law_the_first_merge_of_a_word_is_kept(
    members: Seq<Seq<char>>,
    merges: Seq<ReplyMerge>,
)
    ensures
        ({
            let kept = merges_kept(members, merges);
            &&& forall|k: int|
                0 <= k < merges.len() && #[trigger] drops_first(members, merges, k)
                    ==> kept.contains((merges[k].keep@, merges[k].drop@))
            &&& forall|i: int|
                0 <= i < kept.len() ==> merges_first(members, merges, #[trigger] kept[i])
            &&& forall|k: int|
                0 <= k < merges.len() && is_merge(members, #[trigger] merges[k]) ==> drops(
                    kept,
                    merges[k].drop@,
                )
            &&& merges.len() > 0 ==> merges_kept(members, merges.drop_last()).is_prefix_of(kept)
        }),
    decreases merges.len(),
{
    let kept = merges_kept(members, merges);
    if merges.len() > 0 {
        let front = merges.drop_last();
        let last = merges.len() - 1;
        law_the_first_merge_of_a_word_is_kept(members, front);
        let before = merges_kept(members, front);
        assert forall|k: int| 0 <= k < last implies #[trigger] drops_first(members, merges, k)
            == drops_first(members, front, k) by {
            assert(front[k] == merges[k]);
            assert forall|j: int| 0 <= j < k implies #[trigger] merges[j] == front[j] by {}
        }
        assert(drops(before, merges[last].drop@) <==> exists|j: int|
            0 <= j < last && is_merge(members, #[trigger] merges[j]) && merges[j].drop@
                == merges[last].drop@) by {
            if drops(before, merges[last].drop@) {
                let i = choose|i: int|
                    0 <= i < before.len() && (#[trigger] before[i]).1 == merges[last].drop@;
                assert(merges_first(members, front, before[i]));
                let k = choose|k: int|
                    0 <= k < front.len() && #[trigger] drops_first(members, front, k)
                        && before[i] == (front[k].keep@, front[k].drop@);
                assert(merges[k] == front[k]);
            }
            if exists|j: int|
                0 <= j < last && is_merge(members, #[trigger] merges[j]) && merges[j].drop@
                    == merges[last].drop@ {
                let j = choose|j: int|
                    0 <= j < last && is_merge(members, #[trigger] merges[j]) && merges[j].drop@
                        == merges[last].drop@;
                assert(front[j] == merges[j]);
            }
        }
        assert forall|k: int|
            0 <= k < merges.len() && #[trigger] drops_first(members, merges, k) implies kept.contains(
            (merges[k].keep@, merges[k].drop@),
        ) by {
            if k < last {
                assert(drops_first(members, front, k));
                let pair = (front[k].keep@, front[k].drop@);
                let i = before.index_of(pair);
                assert(before.contains(pair));
                assert(kept[i] == pair);
            } else {
                assert(kept[before.len() as int] == (merges[k].keep@, merges[k].drop@));
            }
        }
        assert forall|i: int| 0 <= i < kept.len() implies merges_first(
            members,
            merges,
            #[trigger] kept[i],
        ) by {
            if i < before.len() {
                assert(merges_first(members, front, before[i]));
                let k = choose|k: int|
                    0 <= k < front.len() && #[trigger] drops_first(members, front, k)
                        && before[i] == (front[k].keep@, front[k].drop@);
                assert(drops_first(members, merges, k));
                assert(kept[i] == before[i]);
            } else {
                assert(drops_first(members, merges, last));
            }
        }
        assert forall|k: int| 0 <= k < merges.len() && is_merge(
            members,
            #[trigger] merges[k],
        ) implies drops(kept, merges[k].drop@) by {
            if k < last {
                assert(front[k] == merges[k]);
                assert(drops(before, merges[k].drop@));
            }
            if drops(before, merges[k].drop@) {
                let i = choose|i: int|
                    0 <= i < before.len() && (#[trigger] before[i]).1 == merges[k].drop@;
                assert(kept[i].1 == merges[k].drop@);
            } else {
                assert(kept[before.len() as int].1 == merges[k].drop@);
            }
        }
    }
}

/// Whether a gloss of an answer can be kept: it says something of a member
/// that no merge drops.
pub open spec fn is_gloss(
    members: Seq<Seq<char>>,
    merges: Seq<(Seq<char>, Seq<char>)>,
    gloss: ReplyGloss,
) -> bool {
    members.contains(gloss.term@) && gloss.gloss@.len() > 0 && !drops(merges, gloss.term@)
}

/// Whether the `k`th gloss of an answer is the first of its word.
pub open spec fn glosses_first(
    members: Seq<Seq<char>>,
    merges: Seq<(Seq<char>, Seq<char>)>,
    glosses: Seq<ReplyGloss>,
    k: int,
) -> bool {
    is_gloss(members, merges, glosses[k]) && forall|j: int|
        0 <= j < k && is_gloss(members, merges, #[trigger] glosses[j]) ==> glosses[j].term@
            != glosses[k].term@
}

/// Whether `said` is what is kept of a gloss: its beginning, as long as a
/// gloss may be.
pub open spec fn is_beginning(said: Seq<char>, gloss: Seq<char>) -> bool {
    said.is_prefix_of(gloss) && (said.len() == gloss.len() || said.len() == GLOSS_CHARS_MAX)
        && said.len() <= GLOSS_CHARS_MAX
}

/// Whether a pair is what the first gloss of its word begins with.
pub open spec fn glosses_rightly(
    members: Seq<Seq<char>>,
    merges: Seq<(Seq<char>, Seq<char>)>,
    glosses: Seq<ReplyGloss>,
    pair: (Seq<char>, Seq<char>),
) -> bool {
    exists|k: int|
        0 <= k < glosses.len() && #[trigger] glosses_first(members, merges, glosses, k) && pair.0
            == glosses[k].term@ && is_beginning(pair.1, glosses[k].gloss@)
}

/// The first gloss of every word that can have one is kept, its beginning as
/// the model gave it, in its order; nothing else is.
pub proof fn law_the_first_gloss_of_a_word_is_kept(
    members: Seq<Seq<char>>,
    merges: Seq<(Seq<char>, Seq<char>)>,
    glosses: Seq<ReplyGloss>,
)
    ensures
        ({
            let kept = glosses_kept(members, merges, glosses);
            &&& forall|k: int|
                0 <= k < glosses.len() && #[trigger] glosses_first(members, merges, glosses, k)
                    ==> has_term(kept, glosses[k].term@)
            &&& forall|i: int|
                0 <= i < kept.len() ==> glosses_rightly(
                    members,
                    merges,
                    glosses,
                    #[trigger] kept[i],
                )
            &&& glosses.len() > 0 ==> glosses_kept(
                members,
                merges,
                glosses.drop_last(),
            ).is_prefix_of(kept)
        }),
    decreases glosses.len(),
{
    let kept = glosses_kept(members, merges, glosses);
    if glosses.len() > 0 {
        let front = glosses.drop_last();
        let last = glosses.len() - 1;
        law_the_first_gloss_of_a_word_is_kept(members, merges, front);
        let before = glosses_kept(members, merges, front);
        let term = glosses[last].term@;
        let said = cut_to(glosses[last].gloss@, GLOSS_CHARS_MAX as nat);
        assert(said.len() == 0 <==> glosses[last].gloss@.len() == 0);
        assert forall|k: int| 0 <= k < last implies #[trigger] glosses_first(
            members,
            merges,
            glosses,
            k,
        ) == glosses_first(members, merges, front, k) by {
            assert(front[k] == glosses[k]);
            assert forall|j: int| 0 <= j < k implies #[trigger] glosses[j] == front[j] by {}
        }
        assert(has_term(before, term) <==> exists|j: int|
            0 <= j < last && is_gloss(members, merges, #[trigger] glosses[j]) && glosses[j].term@
                == term) by {
            if has_term(before, term) {
                let i = choose|i: int| 0 <= i < before.len() && (#[trigger] before[i]).0 == term;
                assert(glosses_rightly(members, merges, front, before[i]));
                let k = choose|k: int|
                    0 <= k < front.len() && #[trigger] glosses_first(members, merges, front, k)
                        && before[i].0 == front[k].term@ && is_beginning(
                        before[i].1,
                        front[k].gloss@,
                    );
                assert(glosses[k] == front[k]);
            }
            if exists|j: int|
                0 <= j < last && is_gloss(members, merges, #[trigger] glosses[j])
                    && glosses[j].term@ == term {
                let j = choose|j: int|
                    0 <= j < last && is_gloss(members, merges, #[trigger] glosses[j])
                        && glosses[j].term@ == term;
                let first = lemma_first_gloss(members, merges, front, j);
                assert(front[j] == glosses[j]);
                assert(has_term(before, front[first].term@));
            }
        }
        assert forall|k: int|
            0 <= k < glosses.len() && #[trigger] glosses_first(
                members,
                merges,
                glosses,
                k,
            ) implies has_term(kept, glosses[k].term@) by {
            if k < last {
                assert(glosses_first(members, merges, front, k));
                assert(has_term(before, front[k].term@));
                let i = choose|i: int|
                    0 <= i < before.len() && (#[trigger] before[i]).0 == glosses[k].term@;
                assert(kept[i].0 == glosses[k].term@);
            } else {
                assert(kept[before.len() as int].0 == term);
            }
        }
        assert forall|i: int| 0 <= i < kept.len() implies glosses_rightly(
            members,
            merges,
            glosses,
            #[trigger] kept[i],
        ) by {
            if i < before.len() {
                assert(glosses_rightly(members, merges, front, before[i]));
                let k = choose|k: int|
                    0 <= k < front.len() && #[trigger] glosses_first(members, merges, front, k)
                        && before[i].0 == front[k].term@ && is_beginning(
                        before[i].1,
                        front[k].gloss@,
                    );
                assert(glosses_first(members, merges, glosses, k));
                assert(kept[i] == before[i]);
            } else {
                assert(glosses_first(members, merges, glosses, last));
                assert(is_beginning(said, glosses[last].gloss@));
            }
        }
    }
}

proof fn lemma_first_gloss(
    members: Seq<Seq<char>>,
    merges: Seq<(Seq<char>, Seq<char>)>,
    glosses: Seq<ReplyGloss>,
    k: int,
) -> (first: int)
    requires
        0 <= k < glosses.len(),
        is_gloss(members, merges, glosses[k]),
    ensures
        0 <= first <= k,
        glosses[first].term@ == glosses[k].term@,
        glosses_first(members, merges, glosses, first),
    decreases k,
{
    if glosses_first(members, merges, glosses, k) {
        k
    } else {
        let j = choose|j: int|
            0 <= j < k && is_gloss(members, merges, #[trigger] glosses[j]) && glosses[j].term@
                == glosses[k].term@;
        lemma_first_gloss(members, merges, glosses, j)
    }
}

/// Whether an alias is one for a term: of a length an alias may have, with a
/// spelling of its own.
pub open spec fn is_alias(term: Seq<char>, alias: AliasView) -> bool {
    3 <= alias.text.len() <= 80 && alias.normalized.len() > 0 && alias.normalized != term
}

/// A term keeps the aliases the model gave it, in its order, each spelling
/// once, as many as are asked for: one that could be kept is left out only
/// for another of its spelling or for want of room.
pub proof fn law_aliases_are_kept_as_given(term: Seq<char>, raw: Seq<AliasView>, max: nat)
    ensures
        ({
            let kept = aliases_cleaned(term, raw, max);
            &&& kept.len() <= max
            &&& forall|i: int|
                0 <= i < kept.len() ==> raw.contains(#[trigger] kept[i]) && is_alias(term, kept[i])
            &&& forall|i: int, j: int|
                0 <= i < j < kept.len() ==> (#[trigger] kept[i]).normalized != (
                #[trigger] kept[j]).normalized
            &&& forall|k: int|
                0 <= k < raw.len() && is_alias(term, #[trigger] raw[k]) ==> has_alias(
                    kept,
                    raw[k].normalized,
                ) || kept.len() == max
            &&& raw.len() > 0 ==> aliases_cleaned(term, raw.drop_last(), max).is_prefix_of(kept)
        }),
    decreases raw.len(),
{
    let kept = aliases_cleaned(term, raw, max);
    if raw.len() > 0 {
        let front = raw.drop_last();
        law_aliases_are_kept_as_given(term, front, max);
        let before = aliases_cleaned(term, front, max);
        assert forall|i: int| 0 <= i < kept.len() implies raw.contains(#[trigger] kept[i])
            && is_alias(term, kept[i]) by {
            if i < before.len() {
                assert(kept[i] == before[i]);
                let k = front.index_of(before[i]);
                assert(raw[k] == kept[i]);
            } else {
                assert(raw[raw.len() - 1] == kept[i]);
            }
        }
        assert forall|i: int, j: int| 0 <= i < j < kept.len() implies (
        #[trigger] kept[i]).normalized != (#[trigger] kept[j]).normalized by {
            assert(kept[i] == before[i]);
            if j < before.len() {
                assert(kept[j] == before[j]);
            }
        }
        assert forall|k: int|
            0 <= k < raw.len() && is_alias(term, #[trigger] raw[k]) implies has_alias(
            kept,
            raw[k].normalized,
        ) || kept.len() == max by {
            if k < front.len() {
                assert(front[k] == raw[k]);
            }
            if has_alias(before, raw[k].normalized) {
                let i = choose|i: int|
                    0 <= i < before.len() && (#[trigger] before[i]).normalized
                        == raw[k].normalized;
                assert(kept[i].normalized == raw[k].normalized);
            } else if k == front.len() && before.len() < max {
                assert(kept[before.len() as int].normalized == raw[k].normalized);
            }
        }
    }
}

/// Whether an entry of an answer gives a member that no merge drops an alias
/// to keep.
pub open spec fn gives_aliases(
    members: Seq<Seq<char>>,
    merges: Seq<(Seq<char>, Seq<char>)>,
    entry: ReplyAliases,
    max: nat,
) -> bool {
    members.contains(entry.term@) && !drops(merges, entry.term@) && aliases_cleaned(
        entry.term@,
        alias_views(entry.aliases@),
        max,
    ).len() > 0
}

/// Whether the `k`th entry of an answer is the first that gives its word an
/// alias.
pub open spec fn gives_first(
    members: Seq<Seq<char>>,
    merges: Seq<(Seq<char>, Seq<char>)>,
    entries: Seq<ReplyAliases>,
    max: nat,
    k: int,
) -> bool {
    gives_aliases(members, merges, entries[k], max) && forall|j: int|
        0 <= j < k && gives_aliases(members, merges, #[trigger] entries[j], max)
            ==> entries[j].term@ != entries[k].term@
}

/// Whether a pair is a word and the aliases of the first entry that gives it
/// any.
pub open spec fn aliases_rightly(
    members: Seq<Seq<char>>,
    merges: Seq<(Seq<char>, Seq<char>)>,
    entries: Seq<ReplyAliases>,
    max: nat,
    pair: (Seq<char>, Seq<AliasView>),
) -> bool {
    exists|k: int|
        0 <= k < entries.len() && #[trigger] gives_first(members, merges, entries, max, k) && pair
            == (
            entries[k].term@,
            aliases_cleaned(entries[k].term@, alias_views(entries[k].aliases@), max),
        )
}

/// Every word that can have aliases and is given some keeps those of the
/// first entry that gives it any; no other word has aliases.
pub proof fn law_the_first_aliases_of_a_word_are_kept(
    members: Seq<Seq<char>>,
    merges: Seq<(Seq<char>, Seq<char>)>,
    entries: Seq<ReplyAliases>,
    max: nat,
)
    ensures
        ({
            let kept = aliases_kept(members, merges, entries, max);
            &&& forall|k: int|
                0 <= k < entries.len() && gives_aliases(
                    members,
                    merges,
                    #[trigger] entries[k],
                    max,
                ) ==> has_term(kept, entries[k].term@)
            &&& forall|i: int|
                0 <= i < kept.len() ==> aliases_rightly(
                    members,
                    merges,
                    entries,
                    max,
                    #[trigger] kept[i],
                )
            &&& entries.len() > 0 ==> aliases_kept(
                members,
                merges,
                entries.drop_last(),
                max,
            ).is_prefix_of(kept)
        }),
    decreases entries.len(),
{
    let kept = aliases_kept(members, merges, entries, max);
    if entries.len() > 0 {
        let front = entries.drop_last();
        let last = entries.len() - 1;
        law_the_first_aliases_of_a_word_are_kept(members, merges, front, max);
        let before = aliases_kept(members, merges, front, max);
        assert forall|k: int| 0 <= k < last implies #[trigger] entries[k] == front[k] by {}
        assert forall|k: int| 0 <= k < entries.len() && gives_aliases(
            members,
            merges,
            #[trigger] entries[k],
            max,
        ) implies has_term(kept, entries[k].term@) by {
            if k < last {
                assert(gives_aliases(members, merges, front[k], max));
            }
            if has_term(before, entries[k].term@) {
                let i = choose|i: int|
                    0 <= i < before.len() && (#[trigger] before[i]).0 == entries[k].term@;
                assert(kept[i].0 == entries[k].term@);
            } else {
                assert(kept[before.len() as int].0 == entries[k].term@);
            }
        }
        assert forall|i: int| 0 <= i < kept.len() implies aliases_rightly(
            members,
            merges,
            entries,
            max,
            #[trigger] kept[i],
        ) by {
            if i < before.len() {
                assert(kept[i] == before[i]);
                assert(aliases_rightly(members, merges, front, max, before[i]));
                let k = choose|k: int|
                    0 <= k < front.len() && #[trigger] gives_first(members, merges, front, max, k)
                        && before[i] == (
                        front[k].term@,
                        aliases_cleaned(front[k].term@, alias_views(front[k].aliases@), max),
                    );
                assert(entries[k] == front[k]);
                assert forall|j: int| 0 <= j < k && gives_aliases(
                    members,
                    merges,
                    #[trigger] entries[j],
                    max,
                ) implies entries[j].term@ != entries[k].term@ by {
                    assert(front[j] == entries[j]);
                }
                assert(gives_first(members, merges, entries, max, k));
            } else {
                assert forall|j: int| 0 <= j < last && gives_aliases(
                    members,
                    merges,
                    #[trigger] entries[j],
                    max,
                ) implies entries[j].term@ != entries[last].term@ by {
                    assert(front[j] == entries[j]);
                    assert(has_term(before, front[j].term@));
                }
                assert(gives_first(members, merges, entries, max, last));
            }
        }
    }
}

/// A spelling names the last member that has it, and no member where none
/// has.
pub proof fn law_a_spelling_names_its_member(members: Seq<VocabularyRow>, spelling: Seq<char>)
    ensures
        match member_of(members, spelling) {
            Some(row) => exists|i: int|
                0 <= i < members.len() && #[trigger] members[i] == row && row.normalized@
                    == spelling && forall|j: int|
                    i < j < members.len() ==> (#[trigger] members[j]).normalized@ != spelling,
            None => forall|i: int|
                0 <= i < members.len() ==> (#[trigger] members[i]).normalized@ != spelling,
        },
    decreases members.len(),
{
    if members.len() > 0 {
        let front = members.drop_last();
        let last = members.len() - 1;
        assert(members[last] == members.last());
        if members.last().normalized@ != spelling {
            law_a_spelling_names_its_member(front, spelling);
            assert forall|i: int| 0 <= i < last implies #[trigger] members[i] == front[i] by {}
            if let Some(row) = member_of(front, spelling) {
                let i = choose|i: int|
                    0 <= i < front.len() && #[trigger] front[i] == row && row.normalized@
                        == spelling && forall|j: int|
                        i < j < front.len() ==> (#[trigger] front[j]).normalized@ != spelling;
                assert(members[i] == row);
                assert forall|j: int| i < j < members.len() implies (
                #[trigger] members[j]).normalized@ != spelling by {
                    if j < last {
                        assert(front[j] == members[j]);
                    }
                }
            } else {
                assert forall|i: int| 0 <= i < members.len() implies (
                #[trigger] members[i]).normalized@ != spelling by {
                    if i < last {
                        assert(front[i] == members[i]);
                    }
                }
            }
        }
    }
}

/// Whether both words of a merge name members, which are two fragments.
pub open spec fn merges_rows(members: Seq<VocabularyRow>, pair: (Seq<char>, Seq<char>)) -> bool {
    member_of(members, pair.0) is Some && member_of(members, pair.1) is Some && member_of(
        members,
        pair.0,
    )->0.fragment != member_of(members, pair.1)->0.fragment
}

/// What a grounding settles is written to the rows its words name: each
/// merge from the dropped word's row into the kept word's, each gloss and
/// each list of aliases to its own word's row, in order; what names no row
/// is left out, and so is a merge of a row with itself.
pub proof fn law_groundings_reach_their_rows(
    members: Seq<VocabularyRow>,
    merges: Seq<(Seq<char>, Seq<char>)>,
    glosses: Seq<(Seq<char>, Seq<char>)>,
    aliases: Seq<(Seq<char>, Seq<AliasView>)>,
)
    ensures
        row_merges(members, merges) == merges.filter(
            |pair: (Seq<char>, Seq<char>)| merges_rows(members, pair),
        ).map_values(
            |pair: (Seq<char>, Seq<char>)|
                (
                    member_of(members, pair.0)->0.fragment,
                    member_of(members, pair.1)->0.fragment,
                ),
        ),
        row_glosses(members, glosses) == glosses.filter(
            |pair: (Seq<char>, Seq<char>)| member_of(members, pair.0) is Some,
        ).map_values(
            |pair: (Seq<char>, Seq<char>)| (member_of(members, pair.0)->0.fragment, pair.1),
        ),
        row_aliases(members, aliases) == aliases.filter(
            |pair: (Seq<char>, Seq<AliasView>)| member_of(members, pair.0) is Some,
        ).map_values(
            |pair: (Seq<char>, Seq<AliasView>)|
                (member_of(members, pair.0)->0.fragment, alias_rows(pair.1)),
        ),
    decreases merges.len(), glosses.len(), aliases.len(),
{
    reveal(Seq::filter);
    if merges.len() > 0 {
        law_groundings_reach_their_rows(members, merges.drop_last(), glosses, aliases);
        assert(row_merges(members, merges) =~= merges.filter(
            |pair: (Seq<char>, Seq<char>)| merges_rows(members, pair),
        ).map_values(
            |pair: (Seq<char>, Seq<char>)|
                (
                    member_of(members, pair.0)->0.fragment,
                    member_of(members, pair.1)->0.fragment,
                ),
        ));
    } else {
        assert(row_merges(members, merges) =~= merges.filter(
            |pair: (Seq<char>, Seq<char>)| merges_rows(members, pair),
        ).map_values(
            |pair: (Seq<char>, Seq<char>)|
                (
                    member_of(members, pair.0)->0.fragment,
                    member_of(members, pair.1)->0.fragment,
                ),
        ));
        if glosses.len() > 0 {
            law_groundings_reach_their_rows(members, merges, glosses.drop_last(), aliases);
        }
        assert(row_glosses(members, glosses) =~= glosses.filter(
            |pair: (Seq<char>, Seq<char>)| member_of(members, pair.0) is Some,
        ).map_values(
            |pair: (Seq<char>, Seq<char>)| (member_of(members, pair.0)->0.fragment, pair.1),
        ));
        if glosses.len() == 0 {
            if aliases.len() > 0 {
                law_groundings_reach_their_rows(members, merges, glosses, aliases.drop_last());
            }
            assert(row_aliases(members, aliases) =~= aliases.filter(
                |pair: (Seq<char>, Seq<AliasView>)| member_of(members, pair.0) is Some,
            ).map_values(
                |pair: (Seq<char>, Seq<AliasView>)|
                    (member_of(members, pair.0)->0.fragment, alias_rows(pair.1)),
            ));
        }
    }
}

/// The object an answer holds begins with its first opening brace and ends
/// with its last closing one: nothing opens before it, nothing closes after
/// it, and there is none only where no opening brace stands before a closing
/// one.
pub proof fn law_an_answer_holds_its_outermost_object(raw: Seq<char>)
    ensures
        match object_in(raw) {
            Some(object) => exists|open: int, close: int|
                #![trigger raw[open], raw[close]]
                0 <= open < close < raw.len() && raw[open] == '{' && raw[close] == '}' && object
                    == raw.subrange(open, close + 1) && (forall|i: int|
                    0 <= i < open ==> raw[i] != '{') && (forall|i: int|
                    close < i < raw.len() ==> raw[i] != '}'),
            None => forall|open: int, close: int|
                #![trigger raw[open], raw[close]]
                0 <= open < close < raw.len() ==> !(raw[open] == '{' && raw[close] == '}'),
        },
{
    lemma_first_stands(raw, '{');
    lemma_last_stands(raw, '}');
    let open = first_of(raw, '{');
    let close = last_of(raw, '}');
    if object_in(raw) is Some {
        assert(raw[open] == '{' && raw[close] == '}');
    }
}

proof fn lemma_first_stands(s: Seq<char>, c: char)
    ensures
        0 <= first_of(s, c) <= s.len(),
        first_of(s, c) < s.len() ==> s[first_of(s, c)] == c,
        forall|i: int| 0 <= i < first_of(s, c) ==> s[i] != c,
    decreases s.len(),
{
    if s.len() > 0 && s[0] != c {
        let rest = s.drop_first();
        lemma_first_stands(rest, c);
        assert forall|i: int| 0 <= i < first_of(s, c) implies s[i] != c by {
            if i > 0 {
                assert(rest[i - 1] == s[i]);
            }
        }
    }
}

proof fn lemma_last_stands(s: Seq<char>, c: char)
    ensures
        -1 <= last_of(s, c) < s.len(),
        last_of(s, c) >= 0 ==> s[last_of(s, c)] == c,
        forall|i: int| last_of(s, c) < i < s.len() ==> s[i] != c,
    decreases s.len(),
{
    if s.len() > 0 && s.last() != c {
        let rest = s.drop_last();
        lemma_last_stands(rest, c);
        assert forall|i: int| last_of(s, c) < i < s.len() implies s[i] != c by {
            if i < rest.len() {
                assert(rest[i] == s[i]);
            }
        }
    }
}

/// The model is shown every word, as many as a call takes, each on a line of
/// its own with its spelling, how many documents hold it and its kind, and
/// the beginning of every excerpt on a line of its own.
pub proof fn law_the_model_is_shown_every_word(
    rows: Seq<VocabularyRow>,
    n: int,
    excerpts: Seq<Seq<char>>,
)
    requires
        0 <= n <= rows.len(),
    ensures
        row_lines(rows, n) == rows.take(n).map_values(
            |row: VocabularyRow|
                "- "@ + row.spelling@ + " ("@ + text::decimal(row.document_frequency as nat)
                    + " documents, "@ + row.kind.name_view() + ")\n"@,
        ).flatten(),
        excerpt_lines(excerpts) == excerpts.map_values(
            |excerpt: Seq<char>| "- "@ + cut_to(excerpt, EXCERPT_CHARS_MAX as nat) + "\n"@,
        ).flatten(),
        forall|excerpt: Seq<char>| #[trigger]
            cut_to(excerpt, EXCERPT_CHARS_MAX as nat).is_prefix_of(excerpt),
{
    lemma_row_lines(rows, n);
    lemma_excerpt_lines(excerpts);
}

proof fn lemma_row_lines(rows: Seq<VocabularyRow>, n: int)
    requires
        0 <= n <= rows.len(),
    ensures
        row_lines(rows, n) == rows.take(n).map_values(
            |row: VocabularyRow|
                "- "@ + row.spelling@ + " ("@ + text::decimal(row.document_frequency as nat)
                    + " documents, "@ + row.kind.name_view() + ")\n"@,
        ).flatten(),
    decreases n,
{
    let line = |row: VocabularyRow|
        "- "@ + row.spelling@ + " ("@ + text::decimal(row.document_frequency as nat)
            + " documents, "@ + row.kind.name_view() + ")\n"@;
    let all = rows.take(n).map_values(line);
    if n > 0 {
        lemma_row_lines(rows, n - 1);
        let front = rows.take(n - 1).map_values(line);
        assert(all =~= front.push(line(rows[n - 1])));
        front.lemma_flatten_push(line(rows[n - 1]));
    } else {
        assert(all =~= Seq::empty());
    }
}

proof fn lemma_excerpt_lines(excerpts: Seq<Seq<char>>)
    ensures
        excerpt_lines(excerpts) == excerpts.map_values(
            |excerpt: Seq<char>| "- "@ + cut_to(excerpt, EXCERPT_CHARS_MAX as nat) + "\n"@,
        ).flatten(),
    decreases excerpts.len(),
{
    let line = |excerpt: Seq<char>| "- "@ + cut_to(excerpt, EXCERPT_CHARS_MAX as nat) + "\n"@;
    let all = excerpts.map_values(line);
    if excerpts.len() > 0 {
        let front = excerpts.drop_last().map_values(line);
        lemma_excerpt_lines(excerpts.drop_last());
        assert(all =~= front.push(line(excerpts.last())));
        front.lemma_flatten_push(line(excerpts.last()));
    } else {
        assert(all =~= Seq::empty());
    }
}
} // verus!
