//! The matching walk: every content fragment once more, counting for every
//! row the sources that spell it, once per source, with a bounded sample of
//! those sources kept for the cluster decision.

use std::collections::HashSet;
use vstd::prelude::*;
use super::matcher::Matcher;
use super::mine::tokenize;
use super::mining::{ContentText, ContentView};
use super::table::MatchedRow;

verus! {

/// Sources remembered per row for the cluster decision: a sample past this,
/// and a row past the hub bound says nothing about one topic anyway.
pub const CLUSTER_SOURCES_MAX: usize = 256;

/// What the walk counted for a row.
pub struct RowCount {
    pub documents: u32,
    pub sources: Seq<i64>,
}

/// The counts of a list of rows.
pub open spec fn counts_of(rows: Seq<MatchedRow>) -> Seq<RowCount> {
    Seq::new(
        rows.len(),
        |i: int| RowCount { documents: rows[i].documents, sources: rows[i].sources@ },
    )
}

/// Whether two lists of rows differ in nothing but what the walk counts.
pub open spec fn same_but_counts(a: Seq<MatchedRow>, b: Seq<MatchedRow>) -> bool {
    &&& a.len() == b.len()
    &&& forall|i: int|
        0 <= i < a.len() ==> (#[trigger] a[i])@ == (super::table::MatchedView {
            documents: a[i]@.documents,
            sources: a[i]@.sources,
            ..b[i]@
        })
}

/// The walk so far: the source it stands in, the rows that source was
/// counted for, and what was counted.
pub struct WalkView {
    pub current: Option<i64>,
    pub seen: Set<usize>,
    pub matches: nat,
    pub counts: Seq<RowCount>,
}

impl WalkView {
    /// The walk once it stands in `source`.
    pub open spec fn in_source(self, source: i64) -> WalkView {
        if self.current == Some(source) {
            self
        } else {
            WalkView { current: Some(source), seen: Set::empty(), ..self }
        }
    }

    /// The walk once a row was found in `source`: counted unless the source
    /// was counted for it already, the source sampled while there is room.
    pub open spec fn with_match(self, row: usize, source: i64) -> WalkView {
        if self.seen.contains(row) {
            self
        } else {
            let held = self.counts[row as int];
            WalkView {
                seen: self.seen.insert(row),
                matches: self.matches + 1,
                counts: self.counts.update(
                    row as int,
                    RowCount {
                        documents: super::candidates::one_more(held.documents),
                        sources: if held.sources.len() < CLUSTER_SOURCES_MAX {
                            held.sources.push(source)
                        } else {
                            held.sources
                        },
                    },
                ),
                ..self
            }
        }
    }

    /// The walk once a list of rows was found in `source`.
    pub open spec fn with_matches(self, rows: Seq<usize>, source: i64) -> WalkView
        decreases rows.len(),
    {
        if rows.len() == 0 {
            self
        } else {
            self.with_matches(rows.drop_last(), source).with_match(rows.last(), source)
        }
    }

    /// The walk once a fragment was read.
    pub open spec fn with_text(
        self,
        table: Map<Seq<char>, usize>,
        longest: int,
        fragment: ContentView,
    ) -> WalkView {
        let tokens = super::mine::tokens_of(fragment.text);
        self.in_source(fragment.source).with_matches(
            super::matcher::distinct(
                super::matcher::found_before(table, tokens, tokens.len() as int, longest),
            ),
            fragment.source,
        )
    }

    /// The walk once a page of fragments was read.
    pub open spec fn with_texts(
        self,
        table: Map<Seq<char>, usize>,
        longest: int,
        page: Seq<ContentView>,
    ) -> WalkView
        decreases page.len(),
    {
        if page.len() == 0 {
            self
        } else {
            self.with_texts(table, longest, page.drop_last()).with_text(
                table,
                longest,
                page.last(),
            )
        }
    }
}

/// The matching walk.
pub struct Matching {
    matcher: Matcher<usize>,
    current: Option<i64>,
    seen: HashSet<usize>,
    matches: usize,
}

/// The index of the rows by their normalized spelling: the last row of a
/// spelling stands.
pub open spec fn index_of(rows: Seq<MatchedRow>) -> Map<Seq<char>, usize>
    decreases rows.len(),
{
    if rows.len() == 0 {
        Map::empty()
    } else {
        index_of(rows.drop_last()).insert(
            rows.last().normalized@,
            (rows.len() - 1) as usize,
        )
    }
}

proof fn lemma_index_bounds(rows: Seq<MatchedRow>, name: Seq<char>)
    requires
        rows.len() <= usize::MAX,
        index_of(rows).contains_key(name),
    ensures
        index_of(rows)[name] < rows.len(),
    decreases rows.len(),
{
    if rows.len() > 0 && name != rows.last().normalized@ {
        lemma_index_bounds(rows.drop_last(), name);
    }
}

proof fn lemma_hits_bounded(
    table: Map<Seq<char>, usize>,
    tokens: Seq<super::mine::TokenView>,
    at: int,
    n: int,
    bound: int,
)
    requires
        forall|name: Seq<char>| #[trigger] table.contains_key(name) ==> table[name] < bound,
    ensures
        forall|i: int|
            0 <= i < super::matcher::hits_at(table, tokens, at, n).len()
                ==> (#[trigger] super::matcher::hits_at(table, tokens, at, n)[i]) < bound,
    decreases n,
{
    let all = super::matcher::hits_at(table, tokens, at, n);
    if n > 1 {
        lemma_hits_bounded(table, tokens, at, n - 1, bound);
        let front = super::matcher::hits_at(table, tokens, at, n - 1);
        let last = super::matcher::hit(table, tokens, at, n);
        assert forall|i: int| 0 <= i < all.len() implies (#[trigger] all[i]) < bound by {
            if i < front.len() {
                assert(all[i] == front[i]);
            } else {
                assert(all[i] == last[i - front.len()]);
            }
        }
    } else {
        assert forall|i: int| 0 <= i < all.len() implies (#[trigger] all[i]) < bound by {
            assert(table.contains_key(tokens[at].normalized));
        }
    }
}

proof fn lemma_found_bounded(
    table: Map<Seq<char>, usize>,
    tokens: Seq<super::mine::TokenView>,
    n: int,
    longest: int,
    bound: int,
)
    requires
        forall|name: Seq<char>| #[trigger] table.contains_key(name) ==> table[name] < bound,
    ensures
        forall|i: int|
            0 <= i < super::matcher::found_before(table, tokens, n, longest).len() ==> (
            #[trigger] super::matcher::found_before(table, tokens, n, longest)[i]) < bound,
    decreases n,
{
    if n > 0 {
        lemma_found_bounded(table, tokens, n - 1, longest, bound);
        lemma_hits_bounded(table, tokens, n - 1, longest, bound);
        lemma_hits_bounded(table, tokens, n - 1, 1, bound);
        let all = super::matcher::found_before(table, tokens, n, longest);
        let front = super::matcher::found_before(table, tokens, n - 1, longest);
        let last = super::matcher::found_at(table, tokens, n - 1, longest);
        assert forall|i: int| 0 <= i < all.len() implies (#[trigger] all[i]) < bound by {
            if i < front.len() {
                assert(all[i] == front[i]);
            } else {
                assert(all[i] == last[i - front.len()]);
            }
        }
    }
}

impl Matching {
    /// The rows the walk looks for.
    pub closed spec fn table(&self) -> Map<Seq<char>, usize> {
        self.matcher.rows()
    }

    /// How many tokens the longest of them spans.
    pub closed spec fn longest(&self) -> int {
        self.matcher.longest()
    }

    /// The walk over `rows` so far.
    pub closed spec fn walk(&self, rows: Seq<MatchedRow>) -> WalkView {
        WalkView {
            current: self.current,
            seen: self.seen@,
            matches: self.matches as nat,
            counts: counts_of(rows),
        }
    }

    /// The matcher is well formed and names only rows below `bound`.
    pub closed spec fn wf(&self, bound: int) -> bool {
        &&& self.matcher.wf()
        &&& forall|name: Seq<char>| #[trigger]
            self.table().contains_key(name) ==> self.table()[name] < bound
    }

    /// A walk that looks for `rows` and has read nothing.
    pub fn new(rows: &Vec<MatchedRow>) -> (r: Self)
        ensures
            r.wf(rows@.len() as int),
            r.table() == index_of(rows@),
            super::matcher::is_longest(r.table(), r.longest()),
            r.walk(rows@) == (WalkView {
                current: None,
                seen: Set::empty(),
                matches: 0,
                counts: counts_of(rows@),
            }),
    {
        let mut pairs: Vec<(String, usize)> = Vec::new();
        let mut i: usize = 0;
        proof {
            assert(rows@.take(0) =~= Seq::empty());
            assert(pairs@ =~= Seq::empty());
        }
        while i < rows.len()
            invariant
                i <= rows@.len(),
                super::matcher::rows_of(pairs@) == index_of(rows@.take(i as int)),
            decreases rows.len() - i,
        {
            let ghost before = pairs@;
            pairs.push((rows[i].normalized.clone(), i));
            proof {
                assert(pairs@.drop_last() =~= before);
                assert(rows@.take(i as int + 1).drop_last() =~= rows@.take(i as int));
                assert(rows@.take(i as int + 1).last() == rows@[i as int]);
            }
            i = i + 1;
        }
        proof {
            assert(rows@.take(rows@.len() as int) =~= rows@);
        }
        let matcher = Matcher::new(pairs);
        proof {
            matcher.lemma_longest();
            assert forall|name: Seq<char>| #[trigger]
                matcher.rows().contains_key(name) implies matcher.rows()[name] < rows@.len() by {
                lemma_index_bounds(rows@, name);
            }
        }
        Matching { matcher, current: None, seen: HashSet::new(), matches: 0 }
    }

    /// Whether there is no row to look for.
    pub fn is_empty(&self) -> (r: bool)
        ensures
            r == self.table().is_empty(),
    {
        self.matcher.is_empty()
    }

    fn count_match(&mut self, rows: &mut Vec<MatchedRow>, row: usize, source: i64)
        requires
            old(self).wf(old(rows)@.len() as int),
            row < old(rows)@.len(),
            old(self).walk(old(rows)@).matches < usize::MAX,
        ensures
            final(self).wf(final(rows)@.len() as int),
            final(self).table() == old(self).table(),
            final(self).longest() == old(self).longest(),
            same_but_counts(final(rows)@, old(rows)@),
            final(self).walk(final(rows)@) == old(self).walk(old(rows)@).with_match(row, source),
    {
        if self.seen.contains(&row) {
            proof {
                assert(same_but_counts(rows@, old(rows)@));
            }
            return;
        }
        self.seen.insert(row);
        self.matches = self.matches + 1;
        let held = &rows[row];
        let mut sources = held.sources.clone();
        proof {
            assert(sources@ =~= held.sources@);
        }
        if sources.len() < CLUSTER_SOURCES_MAX {
            sources.push(source);
        }
        let next = MatchedRow {
            normalized: held.normalized.clone(),
            spelling: held.spelling.clone(),
            shape: held.shape,
            existing: held.existing,
            candidate: held.candidate,
            documents: held.documents.saturating_add(1),
            sources,
            fragment: held.fragment,
        };
        rows.set(row, next);
        proof {
            let after = old(self).walk(old(rows)@).with_match(row, source);
            assert(counts_of(rows@) =~= after.counts);
            assert(self.table() == old(self).table());
            assert(self.wf(rows@.len() as int));
        }
    }

    fn count_matches(&mut self, rows: &mut Vec<MatchedRow>, found: &Vec<usize>, source: i64)
        requires
            old(self).wf(old(rows)@.len() as int),
            forall|i: int| 0 <= i < found@.len() ==> (#[trigger] found@[i]) < old(rows)@.len(),
            old(self).walk(old(rows)@).matches + found@.len() <= usize::MAX,
        ensures
            final(self).wf(final(rows)@.len() as int),
            final(self).table() == old(self).table(),
            final(self).longest() == old(self).longest(),
            same_but_counts(final(rows)@, old(rows)@),
            final(self).walk(final(rows)@) == old(self).walk(old(rows)@).with_matches(
                found@,
                source,
            ),
    {
        let mut i: usize = 0;
        proof {
            assert(found@.take(0) =~= Seq::empty());
        }
        while i < found.len()
            invariant
                i <= found@.len(),
                self.wf(rows@.len() as int),
                self.table() == old(self).table(),
                self.longest() == old(self).longest(),
                same_but_counts(rows@, old(rows)@),
                forall|k: int| 0 <= k < found@.len() ==> (#[trigger] found@[k]) < rows@.len(),
                self.walk(rows@) == old(self).walk(old(rows)@).with_matches(
                    found@.take(i as int),
                    source,
                ),
                self.walk(rows@).matches <= old(self).walk(old(rows)@).matches + i,
                old(self).walk(old(rows)@).matches + found@.len() <= usize::MAX,
            decreases found.len() - i,
        {
            proof {
                assert(found@.take(i as int + 1).drop_last() =~= found@.take(i as int));
                assert(found@.take(i as int + 1).last() == found@[i as int]);
            }
            self.count_match(rows, found[i], source);
            i = i + 1;
        }
        proof {
            assert(found@.take(found@.len() as int) =~= found@);
        }
    }

    /// Read one content fragment: every row it spells is counted for its
    /// source, once.
    pub fn read_text(&mut self, rows: &mut Vec<MatchedRow>, fragment: &ContentText)
        requires
            old(self).wf(old(rows)@.len() as int),
            old(self).walk(old(rows)@).matches + old(rows)@.len() <= usize::MAX,
        ensures
            final(self).wf(final(rows)@.len() as int),
            final(self).table() == old(self).table(),
            final(self).longest() == old(self).longest(),
            same_but_counts(final(rows)@, old(rows)@),
            final(self).walk(final(rows)@) == old(self).walk(old(rows)@).with_text(
                old(self).table(),
                old(self).longest(),
                fragment@,
            ),
    {
        broadcast use vstd::laws_eq::group_laws_eq;

        let tokens = tokenize(fragment.text.as_str());
        let found = self.matcher.matches(tokens.as_slice());
        let here = match self.current {
            Some(source) => source == fragment.source,
            None => false,
        };
        if !here {
            self.current = Some(fragment.source);
            self.seen.clear();
        }
        proof {
            let views = super::mine::tokens_of(fragment@.text);
            let all = super::matcher::found_before(
                self.table(),
                views,
                views.len() as int,
                self.longest(),
            );
            lemma_found_bounded(
                self.table(),
                views,
                views.len() as int,
                self.longest(),
                rows@.len() as int,
            );
            assert forall|i: int| 0 <= i < found@.len() implies (#[trigger] found@[i]) < rows@.len() by {
                assert(found@.contains(found@[i]));
                super::matcher::lemma_distinct_contains(all, found@[i]);
            }
            super::matcher::lemma_distinct_no_duplicates(all);
            lemma_few_below(found@, rows@.len());
        }
        self.count_matches(rows, &found, fragment.source);
    }

    /// Sources counted for a row, over all rows.
    pub fn matches_counted(&self) -> (r: usize)
        ensures
            forall|rows: Seq<MatchedRow>| r == (#[trigger] self.walk(rows)).matches,
    {
        self.matches
    }
}

/// There are no more different numbers below `n` than `n`.
pub proof fn lemma_few_below(ids: Seq<usize>, n: nat)
    requires
        ids.no_duplicates(),
        forall|i: int| 0 <= i < ids.len() ==> (#[trigger] ids[i]) < n,
    ensures
        ids.len() <= n,
    decreases n,
{
    if ids.len() > 0 {
        if n == 0 {
            assert(ids[0] < n);
        } else if exists|i: int| 0 <= i < ids.len() && #[trigger] ids[i] == n - 1 {
            let i = choose|i: int| 0 <= i < ids.len() && #[trigger] ids[i] == n - 1;
            let rest = ids.remove(i);
            assert forall|j: int| 0 <= j < rest.len() implies (#[trigger] rest[j]) < n - 1 by {
                let k = if j < i {
                    j
                } else {
                    j + 1
                };
                assert(rest[j] == ids[k]);
                assert(ids[k] != ids[i]);
            }
            assert(rest.no_duplicates()) by {
                assert forall|a: int, b: int| 0 <= a < rest.len() && 0 <= b < rest.len() && a != b implies rest[a]
                    != rest[b] by {
                    let ka = if a < i {
                        a
                    } else {
                        a + 1
                    };
                    let kb = if b < i {
                        b
                    } else {
                        b + 1
                    };
                    assert(rest[a] == ids[ka]);
                    assert(rest[b] == ids[kb]);
                }
            }
            lemma_few_below(rest, (n - 1) as nat);
        } else {
            assert forall|j: int| 0 <= j < ids.len() implies (#[trigger] ids[j]) < n - 1 by {
                assert(ids[j] < n);
            }
            lemma_few_below(ids, (n - 1) as nat);
        }
    }
}

/// A row counts once per source: finding it again before the walk leaves
/// the source changes nothing.
pub proof fn law_rows_count_once_per_source(walk: WalkView, row: usize, source: i64)
    ensures
        walk.with_match(row, source).with_match(row, source) == walk.with_match(row, source),
{
}

/// What finding rows in a source does to one row.
proof fn lemma_matches_row(walk: WalkView, rows: Seq<usize>, source: i64, row: usize)
    requires
        row < walk.counts.len(),
        forall|i: int| 0 <= i < rows.len() ==> (#[trigger] rows[i]) < walk.counts.len(),
    ensures
        ({
            let after = walk.with_matches(rows, source);
            let held = walk.counts[row as int];
            let fresh = rows.contains(row) && !walk.seen.contains(row);
            &&& after.counts.len() == walk.counts.len()
            &&& after.current == walk.current
            &&& after.seen.contains(row) <==> walk.seen.contains(row) || rows.contains(row)
            &&& after.counts[row as int].documents == if fresh && held.documents < u32::MAX {
                held.documents + 1
            } else {
                held.documents as int
            }
            &&& after.counts[row as int].sources == if fresh && held.sources.len()
                < CLUSTER_SOURCES_MAX {
                held.sources.push(source)
            } else {
                held.sources
            }
        }),
    decreases rows.len(),
{
    if rows.len() > 0 {
        let front = rows.drop_last();
        assert forall|i: int| 0 <= i < front.len() implies (#[trigger] front[i])
            < walk.counts.len() by {
            assert(front[i] == rows[i]);
        }
        lemma_matches_row(walk, front, source, row);
        let last = rows.last();
        assert(rows[rows.len() - 1] == last);
        lemma_matches_row(walk, front, source, last);
        if front.contains(row) {
            let i = front.index_of(row);
            assert(rows[i] == row);
        }
        if rows.contains(row) && row != last {
            let i = rows.index_of(row);
            assert(front[i] == row);
        }
    }
}

/// A text counts every row it names once for its source: a row named there
/// has one document more, and the source among its samples while there is
/// room, exactly where no text of the source since the walk came to it named
/// the row; every other row stays as it was. A text of another source than
/// the last is a source come to anew.
pub proof fn law_a_text_counts_the_rows_it_names(
    walk: WalkView,
    table: Map<Seq<char>, usize>,
    longest: int,
    fragment: ContentView,
    row: usize,
)
    requires
        row < walk.counts.len(),
        forall|name: Seq<char>| #[trigger]
            table.contains_key(name) ==> table[name] < walk.counts.len(),
        super::matcher::is_longest(table, longest),
        super::matcher::space_free(super::mine::tokens_of(fragment.text)),
    ensures
        ({
            let tokens = super::mine::tokens_of(fragment.text);
            let after = walk.with_text(table, longest, fragment);
            let held = walk.counts[row as int];
            let named = exists|at: int, n: int| #[trigger]
                super::matcher::names_row(table, tokens, at, n, row);
            let again = walk.current == Some(fragment.source) && walk.seen.contains(row);
            let fresh = named && !again;
            &&& after.current == Some(fragment.source)
            &&& after.seen.contains(row) <==> named || again
            &&& after.counts[row as int].documents == if fresh && held.documents < u32::MAX {
                held.documents + 1
            } else {
                held.documents as int
            }
            &&& after.counts[row as int].sources == if fresh && held.sources.len()
                < CLUSTER_SOURCES_MAX {
                held.sources.push(fragment.source)
            } else {
                held.sources
            }
        }),
{
    let tokens = super::mine::tokens_of(fragment.text);
    let all = super::matcher::found_before(table, tokens, tokens.len() as int, longest);
    let found = super::matcher::distinct(all);
    super::matcher::law_matches_are_whole_runs(table, tokens, longest);
    let here = walk.in_source(fragment.source);
    assert forall|i: int| 0 <= i < found.len() implies (#[trigger] found[i])
        < here.counts.len() by {
        assert(found.contains(found[i]));
        let (at, n) = choose|at: int, n: int| #[trigger]
            super::matcher::names_row(table, tokens, at, n, found[i]);
    }
    lemma_matches_row(here, found, fragment.source, row);
    assert(found.contains(row) <==> exists|at: int, n: int| #[trigger]
        super::matcher::names_row(table, tokens, at, n, row));
}

/// Rows are found by their spelling: every row's spelling is in the index,
/// under the last row that has it.
pub proof fn law_the_index_finds_every_row(rows: Seq<MatchedRow>, name: Seq<char>)
    requires
        rows.len() <= usize::MAX,
    ensures
        index_of(rows).contains_key(name) <==> exists|i: int|
            0 <= i < rows.len() && (#[trigger] rows[i]).normalized@ == name,
        index_of(rows).contains_key(name) ==> {
            &&& index_of(rows)[name] < rows.len()
            &&& rows[index_of(rows)[name] as int].normalized@ == name
            &&& forall|i: int|
                index_of(rows)[name] < i < rows.len() ==> (#[trigger] rows[i]).normalized@ != name
        },
    decreases rows.len(),
{
    if rows.len() > 0 {
        let front = rows.drop_last();
        law_the_index_finds_every_row(front, name);
        let last = rows.len() - 1;
        assert(rows[last] == rows.last());
        assert forall|i: int| 0 <= i < front.len() implies front[i] == #[trigger] rows[i] by {}
        if index_of(front).contains_key(name) {
            let i = index_of(front)[name] as int;
            assert(front[i] == rows[i]);
        }
        if exists|i: int| 0 <= i < rows.len() && (#[trigger] rows[i]).normalized@ == name {
            let i = choose|i: int| 0 <= i < rows.len() && (#[trigger] rows[i]).normalized@ == name;
            if i < last {
                assert(front[i].normalized@ == name);
            }
        }
    }
}
} // verus!
