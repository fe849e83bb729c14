//! The table the matching walk counts: the band's candidates plus every row
//! the store has (facets aside), with mined rows the band no longer names
//! retracted first.

use std::collections::HashSet;
use vstd::prelude::*;
use vstd::hash_map::StringHashMap;
use super::candidates::Tally;
use super::mine::Shape;
use super::rows::{VocabularyKind, VocabularyOrigin, VocabularyRow};

verus! {

/// A row the store holds, as the pass needs it before matching.
#[derive(Debug, Clone, Copy, PartialEq, Eq, Structural)]
pub struct ExistingRow {
    pub fragment: i64,
    pub kind: VocabularyKind,
    pub origin: VocabularyOrigin,
    pub cluster: Option<i64>,
}

/// A row the store holds, under its normalized spelling.
#[derive(Debug, PartialEq, Eq)]
pub struct ExistingEntry {
    pub normalized: String,
    pub row: ExistingRow,
}

/// What an existing entry says: its spelling and its row.
pub open spec fn entry_views(entries: Seq<ExistingEntry>) -> Seq<(Seq<char>, ExistingRow)> {
    Seq::new(entries.len(), |i: int| (entries[i].normalized@, entries[i].row))
}

/// Whether an entry of `entries` has the spelling `name`.
pub open spec fn has_entry(entries: Seq<(Seq<char>, ExistingRow)>, name: Seq<char>) -> bool {
    exists|i: int| 0 <= i < entries.len() && (#[trigger] entries[i]).0 == name
}

/// Whether no two entries share a spelling.
pub open spec fn distinct_entries(entries: Seq<(Seq<char>, ExistingRow)>) -> bool {
    forall|i: int, j: int|
        0 <= i < j < entries.len() ==> (#[trigger] entries[i]).0 != (#[trigger] entries[j]).0
}

/// The rows a stored row adds: none for a facet or for a spelling already
/// there.
pub open spec fn with_row(
    entries: Seq<(Seq<char>, ExistingRow)>,
    row: VocabularyRow,
) -> Seq<(Seq<char>, ExistingRow)> {
    if row.kind == VocabularyKind::Facet || has_entry(entries, row.normalized@) {
        entries
    } else {
        entries.push(
            (
                row.normalized@,
                ExistingRow {
                    fragment: row.fragment,
                    kind: row.kind,
                    origin: row.origin,
                    cluster: row.cluster,
                },
            ),
        )
    }
}

/// The rows a page of stored rows adds.
pub open spec fn with_page(
    entries: Seq<(Seq<char>, ExistingRow)>,
    page: Seq<VocabularyRow>,
) -> Seq<(Seq<char>, ExistingRow)>
    decreases page.len(),
{
    if page.len() == 0 {
        entries
    } else {
        with_row(with_page(entries, page.drop_last()), page.last())
    }
}

/// Every row the store has but facets, one per normalized spelling: the
/// first listed stands.
pub struct ExistingRows {
    entries: Vec<ExistingEntry>,
    slots: StringHashMap<usize>,
}

impl ExistingRows {
    /// The rows, in the order listed.
    pub closed spec fn rows(&self) -> Seq<(Seq<char>, ExistingRow)> {
        entry_views(self.entries@)
    }

    /// The list and its index agree.
    pub closed spec fn wf(&self) -> bool {
        &&& forall|name: Seq<char>| #[trigger]
            self.slots@.contains_key(name) ==> self.slots@[name] < self.entries@.len()
                && self.entries@[self.slots@[name] as int].normalized@ == name
        &&& forall|i: int|
            0 <= i < self.entries@.len() ==> self.slots@.contains_key(
                (#[trigger] self.entries@[i]).normalized@,
            ) && self.slots@[self.entries@[i].normalized@] == i
    }

    /// No row yet.
    pub fn new() -> (r: Self)
        ensures
            r.wf(),
            r.rows() == Seq::<(Seq<char>, ExistingRow)>::empty(),
    {
        let r = ExistingRows { entries: Vec::new(), slots: StringHashMap::new() };
        proof {
            assert(r.rows() =~= Seq::empty());
        }
        r
    }

    proof fn lemma_has(&self, name: Seq<char>)
        requires
            self.wf(),
        ensures
            self.slots@.contains_key(name) == has_entry(self.rows(), name),
    {
        if self.slots@.contains_key(name) {
            assert(self.rows()[self.slots@[name] as int].0 == name);
        }
        if has_entry(self.rows(), name) {
            let i = choose|i: int| 0 <= i < self.rows().len() && (#[trigger] self.rows()[i]).0 == name;
            assert(self.entries@[i].normalized@ == name);
        }
    }

    /// The listing holds each spelling once.
    pub proof fn lemma_distinct(&self)
        requires
            self.wf(),
        ensures
            distinct_entries(self.rows()),
    {
        assert forall|i: int, j: int| 0 <= i < j < self.rows().len() implies (
        #[trigger] self.rows()[i]).0 != (#[trigger] self.rows()[j]).0 by {
            assert(self.slots@[self.entries@[i].normalized@] == i);
            assert(self.slots@[self.entries@[j].normalized@] == j);
        }
    }

    fn add_row(&mut self, row: &VocabularyRow)
        requires
            old(self).wf(),
        ensures
            final(self).wf(),
            final(self).rows() == with_row(old(self).rows(), *row),
    {
        proof {
            self.lemma_has(row.normalized@);
        }
        if row.kind == VocabularyKind::Facet || self.slots.contains_key(row.normalized.as_str()) {
            return;
        }
        let slot: usize = self.entries.len();
        self.slots.insert(row.normalized.clone(), slot);
        self.entries.push(
            ExistingEntry {
                normalized: row.normalized.clone(),
                row: ExistingRow {
                    fragment: row.fragment,
                    kind: row.kind,
                    origin: row.origin,
                    cluster: row.cluster,
                },
            },
        );
        proof {
            assert(self.rows() =~= with_row(old(self).rows(), *row));
            assert forall|name: Seq<char>| #[trigger]
                self.slots@.contains_key(name) implies self.slots@[name] < self.entries@.len()
                && self.entries@[self.slots@[name] as int].normalized@ == name by {
                if name != row.normalized@ {
                    assert(old(self).slots@.contains_key(name));
                }
            }
        }
    }

    /// Add a page of the store's rows.
    pub fn add_page(&mut self, page: &Vec<VocabularyRow>)
        requires
            old(self).wf(),
        ensures
            final(self).wf(),
            final(self).rows() == with_page(old(self).rows(), page@),
    {
        let mut i: usize = 0;
        proof {
            assert(page@.take(0) =~= Seq::empty());
        }
        while i < page.len()
            invariant
                i <= page@.len(),
                self.wf(),
                self.rows() == with_page(old(self).rows(), page@.take(i as int)),
            decreases page.len() - i,
        {
            proof {
                assert(page@.take(i as int + 1).drop_last() =~= page@.take(i as int));
                assert(page@.take(i as int + 1).last() == page@[i as int]);
            }
            self.add_row(&page[i]);
            i = i + 1;
        }
        proof {
            assert(page@.take(page@.len() as int) =~= page@);
        }
    }

    /// The rows listed, each spelling once.
    pub fn into_entries(self) -> (r: Vec<ExistingEntry>)
        requires
            self.wf(),
        ensures
            entry_views(r@) == self.rows(),
            distinct_entries(entry_views(r@)),
    {
        proof {
            self.lemma_distinct();
        }
        self.entries
    }
}

/// One spelling the matching walk counts: a candidate to plant, or a row
/// the store has whose frequency and sources are measured again.
#[derive(Debug, PartialEq, Eq)]
pub struct MatchedRow {
    pub normalized: String,
    pub spelling: String,
    pub shape: Shape,
    pub existing: Option<ExistingRow>,
    /// Whether this spelling is a band candidate (mined or derived) rather
    /// than only an existing row of another origin.
    pub candidate: bool,
    pub documents: u32,
    pub sources: Vec<i64>,
    /// Filled once the row is planted or known.
    pub fragment: Option<i64>,
}

/// What a matched row says.
pub struct MatchedView {
    pub normalized: Seq<char>,
    pub spelling: Seq<char>,
    pub shape: Shape,
    pub existing: Option<ExistingRow>,
    pub candidate: bool,
    pub documents: u32,
    pub sources: Seq<i64>,
    pub fragment: Option<i64>,
}

impl View for MatchedRow {
    type V = MatchedView;

    open spec fn view(&self) -> MatchedView {
        MatchedView {
            normalized: self.normalized@,
            spelling: self.spelling@,
            shape: self.shape,
            existing: self.existing,
            candidate: self.candidate,
            documents: self.documents,
            sources: self.sources@,
            fragment: self.fragment,
        }
    }
}

/// What a list of matched rows says.
pub open spec fn row_views(rows: Seq<MatchedRow>) -> Seq<MatchedView> {
    Seq::new(rows.len(), |i: int| rows[i]@)
}

impl MatchedView {
    /// The kind of a matched row: the store's, or what its shape makes it.
    pub open spec fn kind(self) -> VocabularyKind {
        match self.existing {
            Some(existing) => existing.kind,
            None => match self.shape {
                Shape::Identifier => VocabularyKind::Identifier,
                _ => VocabularyKind::Term,
            },
        }
    }

    /// Whether rows of its kind are clustered.
    pub open spec fn clusterable(self) -> bool {
        self.kind() == VocabularyKind::Term || self.kind() == VocabularyKind::Identifier
            || self.kind() == VocabularyKind::Entity
    }
}

impl MatchedRow {
    /// The kind of row this is, or would be planted as.
    pub fn kind(&self) -> (r: VocabularyKind)
        ensures
            r == self@.kind(),
    {
        match self.existing {
            Some(existing) => existing.kind,
            None => match self.shape {
                Shape::Identifier => VocabularyKind::Identifier,
                Shape::Term => VocabularyKind::Term,
                Shape::Plain => VocabularyKind::Term,
            },
        }
    }

    /// Whether rows of this kind are clustered.
    pub fn clusterable(&self) -> (r: bool)
        ensures
            r == self@.clusterable(),
    {
        let kind = self.kind();
        kind == VocabularyKind::Term || kind == VocabularyKind::Identifier || kind
            == VocabularyKind::Entity
    }
}

/// The names of a band.
pub open spec fn band_names(band: Seq<(String, Tally)>) -> Seq<Seq<char>> {
    Seq::new(band.len(), |i: int| band[i].0@)
}

/// Whether a row is retracted: mined once, and no longer in the band.
pub open spec fn retracts(names: Seq<Seq<char>>, entry: (Seq<char>, ExistingRow)) -> bool {
    entry.1.origin == VocabularyOrigin::Mined && !names.contains(entry.0)
}

/// The fragments of the rows that are retracted, in the order listed.
pub open spec fn retracted(
    names: Seq<Seq<char>>,
    entries: Seq<(Seq<char>, ExistingRow)>,
) -> Seq<i64>
    decreases entries.len(),
{
    if entries.len() == 0 {
        Seq::empty()
    } else {
        let before = retracted(names, entries.drop_last());
        if retracts(names, entries.last()) {
            before.push(entries.last().1.fragment)
        } else {
            before
        }
    }
}

/// The row of a spelling that stays: listed under it, and not retracted.
pub open spec fn staying(
    entries: Seq<(Seq<char>, ExistingRow)>,
    gone: Seq<i64>,
    name: Seq<char>,
) -> Option<ExistingRow> {
    if exists|i: int|
        0 <= i < entries.len() && (#[trigger] entries[i]).0 == name && !gone.contains(
            entries[i].1.fragment,
        ) {
        let i = choose|i: int|
            0 <= i < entries.len() && (#[trigger] entries[i]).0 == name && !gone.contains(
                entries[i].1.fragment,
            );
        Some(entries[i].1)
    } else {
        None
    }
}

/// The row of a band candidate: the store's row of its spelling, taken by
/// the first candidate of that spelling.
pub open spec fn candidate_row(
    band: Seq<(String, Tally)>,
    i: int,
    entries: Seq<(Seq<char>, ExistingRow)>,
    gone: Seq<i64>,
) -> MatchedView {
    let names = band_names(band);
    let existing = if names.take(i).contains(names[i]) {
        None
    } else {
        staying(entries, gone, names[i])
    };
    MatchedView {
        normalized: names[i],
        spelling: band[i].1.spelling@,
        shape: band[i].1.shape,
        existing,
        candidate: true,
        documents: 0,
        sources: Seq::empty(),
        fragment: match existing {
            Some(row) => Some(row.fragment),
            None => None,
        },
    }
}

/// The row of a spelling only the store has.
pub open spec fn stored_row(entry: (Seq<char>, ExistingRow)) -> MatchedView {
    MatchedView {
        normalized: entry.0,
        spelling: Seq::empty(),
        shape: Shape::Plain,
        existing: Some(entry.1),
        candidate: false,
        documents: 0,
        sources: Seq::empty(),
        fragment: Some(entry.1.fragment),
    }
}

/// The rows only the store has, in the order listed: not retracted, and not
/// in the band.
pub open spec fn stored_rows(
    names: Seq<Seq<char>>,
    entries: Seq<(Seq<char>, ExistingRow)>,
    gone: Seq<i64>,
) -> Seq<MatchedView>
    decreases entries.len(),
{
    if entries.len() == 0 {
        Seq::empty()
    } else {
        let before = stored_rows(names, entries.drop_last(), gone);
        let entry = entries.last();
        if gone.contains(entry.1.fragment) || names.contains(entry.0) {
            before
        } else {
            before.push(stored_row(entry))
        }
    }
}

/// How many candidates of a band derived text proposed.
pub open spec fn derived_count(band: Seq<(String, Tally)>) -> nat
    decreases band.len(),
{
    if band.len() == 0 {
        0
    } else {
        derived_count(band.drop_last()) + if band.last().1.derived {
            1nat
        } else {
            0nat
        }
    }
}

/// What the band and the store make of the table.
#[derive(Debug, PartialEq, Eq)]
pub struct MatchTable {
    /// Fragments of the rows to retract.
    pub retract: Vec<i64>,
    pub rows: Vec<MatchedRow>,
    pub candidates_kept: usize,
    pub candidates_derived: usize,
}

proof fn lemma_staying(
    entries: Seq<(Seq<char>, ExistingRow)>,
    gone: Seq<i64>,
    k: int,
)
    requires
        distinct_entries(entries),
        0 <= k < entries.len(),
        !gone.contains(entries[k].1.fragment),
    ensures
        staying(entries, gone, entries[k].0) == Some(entries[k].1),
{
    let name = entries[k].0;
    let i = choose|i: int|
        0 <= i < entries.len() && (#[trigger] entries[i]).0 == name && !gone.contains(
            entries[i].1.fragment,
        );
    if i < k {
        assert(entries[i].0 != entries[k].0);
    }
    if k < i {
        assert(entries[k].0 != entries[i].0);
    }
}

/// The names of a band, as a set.
fn name_set(band: &Vec<(String, Tally)>) -> (r: StringHashMap<bool>)
    ensures
        forall|name: Seq<char>| #[trigger]
            r@.contains_key(name) <==> band_names(band@).contains(name),
{
    let mut names: StringHashMap<bool> = StringHashMap::new();
    let ghost all = band_names(band@);
    let mut i: usize = 0;
    while i < band.len()
        invariant
            i <= band@.len(),
            all == band_names(band@),
            forall|name: Seq<char>| #[trigger]
                names@.contains_key(name) <==> all.take(i as int).contains(name),
        decreases band.len() - i,
    {
        let ghost before = all.take(i as int);
        names.insert(band[i].0.clone(), true);
        proof {
            let next = all.take(i as int + 1);
            assert(next =~= before.push(band@[i as int].0@));
            assert forall|name: Seq<char>| #[trigger]
                names@.contains_key(name) <==> next.contains(name) by {
                lemma_push_contains(before, band@[i as int].0@, name);
            }
        }
        i = i + 1;
    }
    proof {
        assert(all.take(band@.len() as int) =~= all);
    }
    names
}

proof fn lemma_push_contains<A>(s: Seq<A>, x: A, y: A)
    ensures
        s.push(x).contains(y) <==> s.contains(y) || x == y,
{
    if s.contains(y) {
        let i = choose|i: int| 0 <= i < s.len() && s[i] == y;
        assert(s.push(x)[i] == y);
    }
    if x == y {
        assert(s.push(x)[s.len() as int] == y);
    }
    if s.push(x).contains(y) {
        let i = choose|i: int| 0 <= i < s.push(x).len() && s.push(x)[i] == y;
        if i < s.len() {
            assert(s[i] == y);
        }
    }
}

/// The fragments to retract, and the same as a set.
fn retractions(names: &StringHashMap<bool>, entries: &Vec<ExistingEntry>, all: Ghost<Seq<Seq<char>>>) -> (r: (
    Vec<i64>,
    HashSet<i64>,
))
    requires
        forall|name: Seq<char>| #[trigger] names@.contains_key(name) <==> all@.contains(name),
    ensures
        r.0@ == retracted(all@, entry_views(entries@)),
        forall|id: i64| #[trigger] r.1@.contains(id) <==> r.0@.contains(id),
{
    let mut gone: Vec<i64> = Vec::new();
    let mut set: HashSet<i64> = HashSet::new();
    let ghost views = entry_views(entries@);
    let mut i: usize = 0;
    proof {
        assert(views.take(0) =~= Seq::empty());
        assert(gone@ =~= Seq::empty());
    }
    while i < entries.len()
        invariant
            i <= entries@.len(),
            views == entry_views(entries@),
            forall|name: Seq<char>| #[trigger] names@.contains_key(name) <==> all@.contains(name),
            gone@ == retracted(all@, views.take(i as int)),
            forall|id: i64| #[trigger] set@.contains(id) <==> gone@.contains(id),
        decreases entries.len() - i,
    {
        let entry = &entries[i];
        let ghost before = gone@;
        proof {
            assert(views.take(i as int + 1).drop_last() =~= views.take(i as int));
            assert(views.take(i as int + 1).last() == (entry.normalized@, entry.row));
        }
        if entry.row.origin == VocabularyOrigin::Mined && !names.contains_key(
            entry.normalized.as_str(),
        ) {
            gone.push(entry.row.fragment);
            set.insert(entry.row.fragment);
            proof {
                assert forall|id: i64| #[trigger] set@.contains(id) <==> gone@.contains(id) by {
                    lemma_push_contains(before, entry.row.fragment, id);
                }
            }
        }
        i = i + 1;
    }
    proof {
        assert(views.take(entries@.len() as int) =~= views);
    }
    (gone, set)
}

/// The rows of the band's candidates; `open` indexes the store's rows that
/// stay, and loses those the candidates take.
fn candidate_rows(
    band: &Vec<(String, Tally)>,
    entries: &Vec<ExistingEntry>,
    open: StringHashMap<usize>,
    gone: Ghost<Seq<i64>>,
) -> (r: Vec<MatchedRow>)
    requires
        distinct_entries(entry_views(entries@)),
        forall|name: Seq<char>| #[trigger]
            open@.contains_key(name) ==> open@[name] < entries@.len()
                && entries@[open@[name] as int].normalized@ == name && !gone@.contains(
                entries@[open@[name] as int].row.fragment,
            ),
        forall|k: int|
            0 <= k < entries@.len() && !gone@.contains(entries@[k].row.fragment)
                ==> open@.contains_key((#[trigger] entries@[k]).normalized@),
    ensures
        row_views(r@) == Seq::new(
            band@.len(),
            |i: int| candidate_row(band@, i, entry_views(entries@), gone@),
        ),
{
    let ghost views = entry_views(entries@);
    let ghost names = band_names(band@);
    let ghost full = open@;
    let mut open = open;
    let mut rows: Vec<MatchedRow> = Vec::new();
    let mut i: usize = 0;
    while i < band.len()
        invariant
            i <= band@.len(),
            views == entry_views(entries@),
            names == band_names(band@),
            distinct_entries(views),
            forall|name: Seq<char>| #[trigger]
                full.contains_key(name) ==> full[name] < entries@.len()
                    && entries@[full[name] as int].normalized@ == name && !gone@.contains(
                    entries@[full[name] as int].row.fragment,
                ),
            forall|k: int|
                0 <= k < entries@.len() && !gone@.contains(entries@[k].row.fragment)
                    ==> full.contains_key((#[trigger] entries@[k]).normalized@),
            forall|name: Seq<char>| #[trigger]
                open@.contains_key(name) <==> full.contains_key(name) && !names.take(
                    i as int,
                ).contains(name),
            forall|name: Seq<char>| #[trigger]
                open@.contains_key(name) ==> open@[name] == full[name],
            rows@.len() == i,
            forall|j: int|
                0 <= j < i ==> (#[trigger] rows@[j])@ == candidate_row(band@, j, views, gone@),
        decreases band.len() - i,
    {
        let name = &band[i].0;
        let ghost text = names[i as int];
        let slot: Option<usize> = match open.get(name.as_str()) {
            Some(slot) => Some(*slot),
            None => None,
        };
        open.remove(name.as_str());
        let existing: Option<ExistingRow> = match slot {
            Some(slot) => Some(entries[slot].row),
            None => None,
        };
        proof {
            assert(names.take(i as int + 1) =~= names.take(i as int).push(text));
            assert forall|other: Seq<char>| #[trigger]
                open@.contains_key(other) <==> full.contains_key(other) && !names.take(
                    i as int + 1,
                ).contains(other) by {
                lemma_push_contains(names.take(i as int), text, other);
            }
            if slot is Some {
                let k = slot->0 as int;
                assert(views[k].0 == text);
                lemma_staying(views, gone@, k);
            } else if !names.take(i as int).contains(text) {
                assert(!full.contains_key(text));
                assert(staying(views, gone@, text) is None) by {
                    if exists|k: int|
                        0 <= k < views.len() && (#[trigger] views[k]).0 == text && !gone@.contains(
                            views[k].1.fragment,
                        ) {
                        let k = choose|k: int|
                            0 <= k < views.len() && (#[trigger] views[k]).0 == text
                                && !gone@.contains(views[k].1.fragment);
                        assert(entries@[k].normalized@ == text);
                    }
                }
            }
        }
        let row = MatchedRow {
            normalized: name.clone(),
            spelling: band[i].1.spelling.clone(),
            shape: band[i].1.shape,
            existing,
            candidate: true,
            documents: 0,
            sources: Vec::new(),
            fragment: match existing {
                Some(row) => Some(row.fragment),
                None => None,
            },
        };
        proof {
            assert(row@.sources =~= Seq::empty());
            assert(row@ == candidate_row(band@, i as int, views, gone@));
        }
        rows.push(row);
        i = i + 1;
    }
    proof {
        assert(row_views(rows@) =~= Seq::new(
            band@.len(),
            |i: int| candidate_row(band@, i, views, gone@),
        ));
    }
    rows
}

/// An index of the rows that stay.
fn index_staying(entries: &Vec<ExistingEntry>, set: &HashSet<i64>, gone: Ghost<Seq<i64>>) -> (r: StringHashMap<
    usize,
>)
    requires
        forall|id: i64| #[trigger] set@.contains(id) <==> gone@.contains(id),
    ensures
        forall|name: Seq<char>| #[trigger]
            r@.contains_key(name) ==> r@[name] < entries@.len()
                && entries@[r@[name] as int].normalized@ == name && !gone@.contains(
                entries@[r@[name] as int].row.fragment,
            ),
        forall|k: int|
            0 <= k < entries@.len() && !gone@.contains(entries@[k].row.fragment)
                ==> r@.contains_key((#[trigger] entries@[k]).normalized@),
{
    let mut open: StringHashMap<usize> = StringHashMap::new();
    let mut i: usize = 0;
    while i < entries.len()
        invariant
            i <= entries@.len(),
            forall|id: i64| #[trigger] set@.contains(id) <==> gone@.contains(id),
            forall|name: Seq<char>| #[trigger]
                open@.contains_key(name) ==> open@[name] < i
                    && entries@[open@[name] as int].normalized@ == name && !gone@.contains(
                    entries@[open@[name] as int].row.fragment,
                ),
            forall|k: int|
                0 <= k < i && !gone@.contains(entries@[k].row.fragment) ==> open@.contains_key(
                    (#[trigger] entries@[k]).normalized@,
                ),
        decreases entries.len() - i,
    {
        if !set.contains(&entries[i].row.fragment) {
            open.insert(entries[i].normalized.clone(), i);
        }
        i = i + 1;
    }
    open
}

/// Add the rows only the store has.
fn add_stored(
    rows: &mut Vec<MatchedRow>,
    names: &StringHashMap<bool>,
    entries: &Vec<ExistingEntry>,
    set: &HashSet<i64>,
    all: Ghost<Seq<Seq<char>>>,
    gone: Ghost<Seq<i64>>,
)
    requires
        forall|name: Seq<char>| #[trigger] names@.contains_key(name) <==> all@.contains(name),
        forall|id: i64| #[trigger] set@.contains(id) <==> gone@.contains(id),
    ensures
        row_views(final(rows)@) == row_views(old(rows)@) + stored_rows(
            all@,
            entry_views(entries@),
            gone@,
        ),
{
    let ghost views = entry_views(entries@);
    let ghost start = row_views(rows@);
    let mut i: usize = 0;
    proof {
        assert(views.take(0) =~= Seq::empty());
        assert(start + stored_rows(all@, views.take(0), gone@) =~= start);
    }
    while i < entries.len()
        invariant
            i <= entries@.len(),
            views == entry_views(entries@),
            forall|name: Seq<char>| #[trigger] names@.contains_key(name) <==> all@.contains(name),
            forall|id: i64| #[trigger] set@.contains(id) <==> gone@.contains(id),
            row_views(rows@) == start + stored_rows(all@, views.take(i as int), gone@),
        decreases entries.len() - i,
    {
        let entry = &entries[i];
        let ghost before = row_views(rows@);
        proof {
            assert(views.take(i as int + 1).drop_last() =~= views.take(i as int));
            assert(views.take(i as int + 1).last() == (entry.normalized@, entry.row));
        }
        if !set.contains(&entry.row.fragment) && !names.contains_key(entry.normalized.as_str()) {
            let row = MatchedRow {
                normalized: entry.normalized.clone(),
                spelling: String::new(),
                shape: Shape::Plain,
                existing: Some(entry.row),
                candidate: false,
                documents: 0,
                sources: Vec::new(),
                fragment: Some(entry.row.fragment),
            };
            proof {
                assert(row@.sources =~= Seq::empty());
                assert(row@ == stored_row((entry.normalized@, entry.row)));
            }
            rows.push(row);
            proof {
                assert(row_views(rows@) =~= before.push(row@));
            }
        }
        proof {
            assert(row_views(rows@) =~= start + stored_rows(all@, views.take(i as int + 1), gone@));
        }
        i = i + 1;
    }
    proof {
        assert(views.take(entries@.len() as int) =~= views);
    }
}

fn count_derived(band: &Vec<(String, Tally)>) -> (r: usize)
    ensures
        r == derived_count(band@),
        r <= band@.len(),
{
    let mut n: usize = 0;
    let mut i: usize = 0;
    proof {
        assert(band@.take(0) =~= Seq::empty());
    }
    while i < band.len()
        invariant
            i <= band@.len(),
            n <= i,
            n == derived_count(band@.take(i as int)),
        decreases band.len() - i,
    {
        proof {
            assert(band@.take(i as int + 1).drop_last() =~= band@.take(i as int));
            assert(band@.take(i as int + 1).last() == band@[i as int]);
        }
        if band[i].1.derived {
            n = n + 1;
        }
        i = i + 1;
    }
    proof {
        assert(band@.take(band@.len() as int) =~= band@);
    }
    n
}

/// The table the matching walk counts: the band's candidates plus every
/// row the store has (facets aside), with mined rows the band no longer
/// names retracted first.
pub fn table(band: &Vec<(String, Tally)>, existing: &Vec<ExistingEntry>) -> (r: MatchTable)
    requires
        distinct_entries(entry_views(existing@)),
    ensures
        r.retract@ == retracted(band_names(band@), entry_views(existing@)),
        row_views(r.rows@) == Seq::new(
            band@.len(),
            |i: int| candidate_row(band@, i, entry_views(existing@), r.retract@),
        ) + stored_rows(band_names(band@), entry_views(existing@), r.retract@),
        r.candidates_kept == band@.len(),
        r.candidates_derived == derived_count(band@),
{
    let names = name_set(band);
    let ghost all = band_names(band@);
    let (retract, set) = retractions(&names, existing, Ghost(all));
    let open = index_staying(existing, &set, Ghost(retract@));
    let mut rows = candidate_rows(band, existing, open, Ghost(retract@));
    add_stored(&mut rows, &names, existing, &set, Ghost(all), Ghost(retract@));
    MatchTable {
        retract,
        rows,
        candidates_kept: band.len(),
        candidates_derived: count_derived(band),
    }
}

proof fn lemma_retracted_contains(
    names: Seq<Seq<char>>,
    entries: Seq<(Seq<char>, ExistingRow)>,
    id: i64,
)
    ensures
        retracted(names, entries).contains(id) <==> exists|i: int|
            0 <= i < entries.len() && retracts(names, #[trigger] entries[i]) && entries[i].1.fragment
                == id,
    decreases entries.len(),
{
    if entries.len() > 0 {
        let front = entries.drop_last();
        lemma_retracted_contains(names, front, id);
        if retracts(names, entries.last()) {
            lemma_push_contains(retracted(names, front), entries.last().1.fragment, id);
        }
        if exists|i: int|
            0 <= i < front.len() && retracts(names, #[trigger] front[i]) && front[i].1.fragment
                == id {
            let i = choose|i: int|
                0 <= i < front.len() && retracts(names, #[trigger] front[i]) && front[i].1.fragment
                    == id;
            assert(entries[i] == front[i]);
        }
        if exists|i: int|
            0 <= i < entries.len() && retracts(names, #[trigger] entries[i]) && entries[i].1.fragment
                == id {
            let i = choose|i: int|
                0 <= i < entries.len() && retracts(names, #[trigger] entries[i])
                    && entries[i].1.fragment == id;
            if i < front.len() {
                assert(front[i] == entries[i]);
            } else {
                assert(entries[i] == entries.last());
            }
        }
    }
}

/// Only mined rows are retracted, and only those the band no longer names;
/// where no two rows share a fragment, a row of another origin stays.
pub proof fn law_only_mined_rows_are_retracted(
    names: Seq<Seq<char>>,
    entries: Seq<(Seq<char>, ExistingRow)>,
    k: int,
)
    requires
        0 <= k < entries.len(),
        forall|i: int, j: int|
            0 <= i < j < entries.len() ==> (#[trigger] entries[i]).1.fragment != (
            #[trigger] entries[j]).1.fragment,
    ensures
        retracted(names, entries).contains(entries[k].1.fragment) <==> retracts(names, entries[k]),
{
    lemma_retracted_contains(names, entries, entries[k].1.fragment);
    if retracted(names, entries).contains(entries[k].1.fragment) {
        let i = choose|i: int|
            0 <= i < entries.len() && retracts(names, #[trigger] entries[i])
                && entries[i].1.fragment == entries[k].1.fragment;
        if i < k {
            assert(entries[i].1.fragment != entries[k].1.fragment);
        }
        if k < i {
            assert(entries[k].1.fragment != entries[i].1.fragment);
        }
    }
}


/// Whether a page's row stands in a listing: under its spelling, as the
/// store has it.
pub open spec fn lists(entry: (Seq<char>, ExistingRow), row: VocabularyRow) -> bool {
    entry.0 == row.normalized@ && entry.1.fragment == row.fragment && entry.1.kind == row.kind
        && entry.1.origin == row.origin && entry.1.cluster == row.cluster
}

/// Whether the `k`th row of a page is the first of its spelling there,
/// facets aside, and the listing before it has none.
pub open spec fn is_new(
    entries: Seq<(Seq<char>, ExistingRow)>,
    page: Seq<VocabularyRow>,
    k: int,
) -> bool {
    &&& page[k].kind != VocabularyKind::Facet
    &&& forall|i: int| 0 <= i < entries.len() ==> (#[trigger] entries[i]).0 != page[k].normalized@
    &&& forall|j: int|
        0 <= j < k && (#[trigger] page[j]).kind != VocabularyKind::Facet ==> page[j].normalized@
            != page[k].normalized@
}

/// Whether an entry lists the first row of a spelling that is new.
pub open spec fn lists_new(
    entries: Seq<(Seq<char>, ExistingRow)>,
    page: Seq<VocabularyRow>,
    entry: (Seq<char>, ExistingRow),
) -> bool {
    exists|k: int|
        0 <= k < page.len() && #[trigger] is_new(entries, page, k) && lists(entry, page[k])
}

/// A page adds to a listing the first row of every spelling that is new to
/// it, as the store has it, facets aside; what was listed stays.
#[verifier::rlimit(60)]
pub proof fn law_a_page_adds_every_new_spelling(
    entries: Seq<(Seq<char>, ExistingRow)>,
    page: Seq<VocabularyRow>,
)
    ensures
        entries.is_prefix_of(with_page(entries, page)),
        forall|k: int|
            0 <= k < page.len() && #[trigger] is_new(entries, page, k) ==> exists|i: int|
                entries.len() <= i < with_page(entries, page).len() && lists(
                    #[trigger] with_page(entries, page)[i],
                    page[k],
                ),
        forall|i: int|
            entries.len() <= i < with_page(entries, page).len() ==> lists_new(
                entries,
                page,
                #[trigger] with_page(entries, page)[i],
            ),
        forall|k: int|
            0 <= k < page.len() && (#[trigger] page[k]).kind != VocabularyKind::Facet ==> has_entry(
                with_page(entries, page),
                page[k].normalized@,
            ),
    decreases page.len(),
{
    let all = with_page(entries, page);
    if page.len() > 0 {
        let front = page.drop_last();
        let last = page.len() - 1;
        law_a_page_adds_every_new_spelling(entries, front);
        let before = with_page(entries, front);
        assert(page.last() == page[last]);
        assert forall|j: int| 0 <= j < last implies #[trigger] page[j] == front[j] by {}
        assert forall|k: int| 0 <= k < last implies #[trigger] is_new(entries, page, k) == is_new(
            entries,
            front,
            k,
        ) by {
            assert(front[k] == page[k]);
            assert forall|j: int| 0 <= j < k implies #[trigger] page[j] == front[j] by {}
            assert forall|j: int| 0 <= j < k implies #[trigger] front[j] == page[j] by {}
        }
        assert(before.is_prefix_of(all));
        assert(all.take(entries.len() as int) =~= entries);
        let fresh = page[last].kind != VocabularyKind::Facet && !has_entry(
            before,
            page[last].normalized@,
        );
        assert(fresh == is_new(entries, page, last)) by {
            if fresh {
                assert forall|i: int| 0 <= i < entries.len() implies (#[trigger] entries[i]).0
                    != page[last].normalized@ by {
                    assert(before[i] == entries[i]);
                }
                assert forall|j: int|
                    0 <= j < last && (#[trigger] page[j]).kind
                        != VocabularyKind::Facet implies page[j].normalized@
                    != page[last].normalized@ by {
                    assert(front[j] == page[j]);
                    assert(has_entry(before, front[j].normalized@));
                }
            }
            if is_new(entries, page, last) && has_entry(before, page[last].normalized@) {
                let i = choose|i: int|
                    0 <= i < before.len() && (#[trigger] before[i]).0 == page[last].normalized@;
                if i < entries.len() {
                    assert(entries[i] == before[i]);
                } else {
                    assert(lists_new(entries, front, before[i]));
                    let k = choose|k: int|
                        0 <= k < front.len() && #[trigger] is_new(entries, front, k) && lists(
                            before[i],
                            front[k],
                        );
                    assert(page[k] == front[k]);
                }
            }
        }
        assert forall|k: int|
            0 <= k < page.len() && #[trigger] is_new(entries, page, k) implies exists|i: int|
            entries.len() <= i < all.len() && lists(#[trigger] all[i], page[k]) by {
            if k < last {
                assert(is_new(entries, front, k));
                let i = choose|i: int|
                    entries.len() <= i < before.len() && lists(#[trigger] before[i], front[k]);
                assert(all[i] == before[i]);
            } else {
                assert(lists(all[before.len() as int], page[k]));
            }
        }
        assert forall|i: int| entries.len() <= i < all.len() implies lists_new(
            entries,
            page,
            #[trigger] all[i],
        ) by {
            if i < before.len() {
                assert(lists_new(entries, front, before[i]));
                let k = choose|k: int|
                    0 <= k < front.len() && #[trigger] is_new(entries, front, k) && lists(
                        before[i],
                        front[k],
                    );
                assert(is_new(entries, page, k));
                assert(all[i] == before[i]);
            } else {
                assert(is_new(entries, page, last));
            }
        }
        assert forall|k: int|
            0 <= k < page.len() && (#[trigger] page[k]).kind
                != VocabularyKind::Facet implies has_entry(all, page[k].normalized@) by {
            if k < last {
                assert(front[k] == page[k]);
                assert(has_entry(before, page[k].normalized@));
            }
            if has_entry(before, page[k].normalized@) {
                let i = choose|i: int|
                    0 <= i < before.len() && (#[trigger] before[i]).0 == page[k].normalized@;
                assert(all[i].0 == page[k].normalized@);
            } else {
                assert(all[before.len() as int].0 == page[k].normalized@);
            }
        }
    }
}

proof fn lemma_retracted_is_filtered(
    names: Seq<Seq<char>>,
    entries: Seq<(Seq<char>, ExistingRow)>,
)
    ensures
        retracted(names, entries) == entries.filter(
            |entry: (Seq<char>, ExistingRow)|
                entry.1.origin == VocabularyOrigin::Mined && !names.contains(entry.0),
        ).map_values(|entry: (Seq<char>, ExistingRow)| entry.1.fragment),
    decreases entries.len(),
{
    reveal(Seq::filter);
    if entries.len() > 0 {
        lemma_retracted_is_filtered(names, entries.drop_last());
    }
    assert(retracted(names, entries) =~= entries.filter(
        |entry: (Seq<char>, ExistingRow)|
            entry.1.origin == VocabularyOrigin::Mined && !names.contains(entry.0),
    ).map_values(|entry: (Seq<char>, ExistingRow)| entry.1.fragment));
}

/// Whether a row of the table stands for a stored row that stays and that
/// the band does not name.
spec fn is_stored(
    names: Seq<Seq<char>>,
    entries: Seq<(Seq<char>, ExistingRow)>,
    gone: Seq<i64>,
    row: MatchedView,
) -> bool {
    exists|k: int|
        0 <= k < entries.len() && row == stored_row(#[trigger] entries[k]) && !gone.contains(
            entries[k].1.fragment,
        ) && !names.contains(entries[k].0)
}

proof fn lemma_stored_rows(
    names: Seq<Seq<char>>,
    entries: Seq<(Seq<char>, ExistingRow)>,
    gone: Seq<i64>,
)
    ensures
        forall|i: int|
            0 <= i < stored_rows(names, entries, gone).len() ==> is_stored(
                names,
                entries,
                gone,
                #[trigger] stored_rows(names, entries, gone)[i],
            ),
        forall|k: int|
            0 <= k < entries.len() && !gone.contains((#[trigger] entries[k]).1.fragment)
                && !names.contains(entries[k].0) ==> exists|i: int|
                0 <= i < stored_rows(names, entries, gone).len() && #[trigger] stored_rows(
                    names,
                    entries,
                    gone,
                )[i] == stored_row(entries[k]),
    decreases entries.len(),
{
    let rows = stored_rows(names, entries, gone);
    if entries.len() > 0 {
        let front = entries.drop_last();
        lemma_stored_rows(names, front, gone);
        let before = stored_rows(names, front, gone);
        assert(entries.last() == entries[entries.len() - 1]);
        assert forall|i: int| 0 <= i < rows.len() implies is_stored(
            names,
            entries,
            gone,
            #[trigger] rows[i],
        ) by {
            if i < before.len() {
                assert(is_stored(names, front, gone, before[i]));
                let k = choose|k: int|
                    0 <= k < front.len() && before[i] == stored_row(#[trigger] front[k])
                        && !gone.contains(front[k].1.fragment) && !names.contains(front[k].0);
                assert(rows[i] == before[i] && entries[k] == front[k]);
            } else {
                assert(rows[i] == stored_row(entries[entries.len() - 1]));
            }
        }
        assert forall|k: int|
            0 <= k < entries.len() && !gone.contains((#[trigger] entries[k]).1.fragment)
                && !names.contains(entries[k].0) implies exists|i: int|
            0 <= i < rows.len() && #[trigger] rows[i] == stored_row(entries[k]) by {
            if k < front.len() {
                assert(front[k] == entries[k]);
                let i = choose|i: int|
                    0 <= i < before.len() && #[trigger] before[i] == stored_row(front[k]);
                assert(rows[i] == before[i]);
            } else {
                assert(rows[before.len() as int] == stored_row(entries[k]));
            }
        }
    }
}

/// The rows of the table of a band and a store.
pub open spec fn table_rows(
    band: Seq<(String, Tally)>,
    entries: Seq<(Seq<char>, ExistingRow)>,
) -> Seq<MatchedView> {
    let gone = retracted(band_names(band), entries);
    Seq::new(band.len(), |i: int| candidate_row(band, i, entries, gone)) + stored_rows(
        band_names(band),
        entries,
        gone,
    )
}

/// Whether a table's row stands for a row of the store.
pub open spec fn stands_for(row: MatchedView, entry: (Seq<char>, ExistingRow)) -> bool {
    row.normalized == entry.0 && row.existing == Some(entry.1) && row.fragment == Some(
        entry.1.fragment,
    )
}

/// The table begins with the band, candidate by candidate, under its
/// spelling and shape; what follows is no candidate and is not in the band.
/// A row of the table that names a row of the store stands for one that
/// stays, and no row is counted before the walk.
pub proof fn law_the_table_begins_with_the_band(
    band: Seq<(String, Tally)>,
    entries: Seq<(Seq<char>, ExistingRow)>,
    i: int,
)
    requires
        0 <= i < table_rows(band, entries).len(),
    ensures
        ({
            let row = table_rows(band, entries)[i];
            let gone = retracted(band_names(band), entries);
            &&& table_rows(band, entries).len() >= band.len()
            &&& row.candidate == (i < band.len())
            &&& i < band.len() ==> row.normalized == band[i].0@ && row.spelling
                == band[i].1.spelling@ && row.shape == band[i].1.shape
            &&& i >= band.len() ==> row.existing is Some && row.spelling.len() == 0 && row.shape
                == Shape::Plain && forall|j: int|
                0 <= j < band.len() ==> (#[trigger] band[j]).0@ != row.normalized
            &&& row.documents == 0 && row.sources.len() == 0
            &&& row.existing is None ==> row.fragment is None
            &&& row.existing is Some ==> exists|k: int|
                0 <= k < entries.len() && stands_for(row, #[trigger] entries[k]) && !gone.contains(
                    entries[k].1.fragment,
                )
        }),
{
    let gone = retracted(band_names(band), entries);
    let names = band_names(band);
    lemma_stored_rows(names, entries, gone);
    let row = table_rows(band, entries)[i];
    if i < band.len() {
        if row.existing is Some {
            let k = choose|k: int|
                0 <= k < entries.len() && (#[trigger] entries[k]).0 == names[i] && !gone.contains(
                    entries[k].1.fragment,
                );
            assert(stands_for(row, entries[k]));
        }
    } else {
        assert(row == stored_rows(names, entries, gone)[i - band.len()]);
        assert(is_stored(names, entries, gone, row));
        let k = choose|k: int|
            0 <= k < entries.len() && row == stored_row(#[trigger] entries[k]) && !gone.contains(
                entries[k].1.fragment,
            ) && !names.contains(entries[k].0);
        assert(stands_for(row, entries[k]));
        assert forall|j: int| 0 <= j < band.len() implies (#[trigger] band[j]).0@
            != row.normalized by {
            assert(names[j] == band[j].0@);
            assert(names.contains(names[j]));
        }
    }
}

/// Every row of the store that stays is counted: some row of the table
/// stands for it. The rows retracted are the mined ones the band does not
/// name, in the order listed, and every candidate that derived text
/// proposed counts as derived.
pub proof fn law_every_staying_row_is_counted(
    band: Seq<(String, Tally)>,
    entries: Seq<(Seq<char>, ExistingRow)>,
)
    requires
        distinct_entries(entries),
    ensures
        forall|k: int|
            0 <= k < entries.len() && !retracted(band_names(band), entries).contains(
                (#[trigger] entries[k]).1.fragment,
            ) ==> exists|i: int|
                0 <= i < table_rows(band, entries).len() && stands_for(
                    #[trigger] table_rows(band, entries)[i],
                    entries[k],
                ),
        retracted(band_names(band), entries) == entries.filter(
            |entry: (Seq<char>, ExistingRow)|
                entry.1.origin == VocabularyOrigin::Mined && !band_names(band).contains(entry.0),
        ).map_values(|entry: (Seq<char>, ExistingRow)| entry.1.fragment),
        derived_count(band) == band.filter(|named: (String, Tally)| named.1.derived).len(),
{
    let gone = retracted(band_names(band), entries);
    let names = band_names(band);
    let rows = table_rows(band, entries);
    lemma_retracted_is_filtered(names, entries);
    lemma_derived_is_filtered(band);
    lemma_stored_rows(names, entries, gone);
    assert forall|k: int|
        0 <= k < entries.len() && !gone.contains((#[trigger] entries[k]).1.fragment) implies exists|
        i: int,
    |
        0 <= i < rows.len() && stands_for(#[trigger] rows[i], entries[k]) by {
        let name = entries[k].0;
        if names.contains(name) {
            let at = lemma_first_of(names, name);
            lemma_staying(entries, gone, k);
            assert(!names.take(at).contains(name)) by {
                if names.take(at).contains(name) {
                    let j = names.take(at).index_of(name);
                    assert(names.take(at)[j] == names[j]);
                }
            }
            assert(stands_for(rows[at], entries[k]));
        } else {
            let i = choose|i: int|
                0 <= i < stored_rows(names, entries, gone).len() && #[trigger] stored_rows(
                    names,
                    entries,
                    gone,
                )[i] == stored_row(entries[k]);
            assert(rows[band.len() + i] == stored_row(entries[k]));
            assert(stands_for(rows[band.len() + i], entries[k]));
        }
    }
}

proof fn lemma_first_of(names: Seq<Seq<char>>, name: Seq<char>) -> (at: int)
    requires
        names.contains(name),
    ensures
        0 <= at < names.len(),
        names[at] == name,
        forall|j: int| 0 <= j < at ==> #[trigger] names[j] != name,
    decreases names.len(),
{
    let front = names.drop_last();
    if front.contains(name) {
        let at = lemma_first_of(front, name);
        assert forall|j: int| 0 <= j < at implies #[trigger] names[j] != name by {
            assert(front[j] == names[j]);
        }
        at
    } else {
        let at = names.index_of(name);
        assert forall|j: int| 0 <= j < names.len() - 1 implies #[trigger] names[j] != name by {
            assert(front[j] == names[j]);
            assert(front.contains(front[j]));
        }
        at
    }
}

proof fn lemma_derived_is_filtered(band: Seq<(String, Tally)>)
    ensures
        derived_count(band) == band.filter(|named: (String, Tally)| named.1.derived).len(),
    decreases band.len(),
{
    reveal(Seq::filter);
    if band.len() > 0 {
        lemma_derived_is_filtered(band.drop_last());
    }
}
} // verus!
