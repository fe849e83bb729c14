//! Facets: what the host says about a source (its container, its author,
//! its labels) planted as vocabulary rows anchored from the source's root,
//! never from text. An author lands on the entity row, so "wrote it" and
//! "is mentioned in it" meet on one row; every other facet is its own row
//! under `facet:<key>:<value>`.

use vstd::prelude::*;
use crate::text;
use super::rows::{NewRowView, NewVocabularyRow, PlantResult, VocabularyKind, VocabularyOrigin};

verus! {

/// The facet key that names a source's author.
pub const AUTHOR_KEY: &'static str = "author";

/// Sources read per page.
pub const PAGE_SOURCES: usize = 1_000;

/// What planting produced.
#[derive(Debug, Clone, Copy, PartialEq, Eq, Structural)]
pub struct Planted {
    pub rows_created: usize,
    pub anchors_written: usize,
}

impl Planted {
    /// The two counts together.
    pub fn plus(self, other: Self) -> (r: Self)
        requires
            self.rows_created + other.rows_created <= usize::MAX,
            self.anchors_written + other.anchors_written <= usize::MAX,
        ensures
            r.rows_created == self.rows_created + other.rows_created,
            r.anchors_written == self.anchors_written + other.anchors_written,
    {
        Planted {
            rows_created: self.rows_created + other.rows_created,
            anchors_written: self.anchors_written + other.anchors_written,
        }
    }
}

/// A facet's row, and whether it names an author.
#[derive(Debug, PartialEq, Eq)]
pub struct FacetRow {
    pub row: NewVocabularyRow,
    pub is_author: bool,
}

/// The key a facet's row is planted under: an author under the person's
/// entity, anything else under its own key and value.
pub open spec fn key_view(key: Seq<char>, normalized: Seq<char>) -> Seq<char> {
    if key == AUTHOR_KEY@ {
        "entity:person:"@ + normalized
    } else {
        "facet:"@ + key + ":"@ + normalized
    }
}

/// The key a facet's row is planted under.
pub fn facet_key(key: &str, normalized: &str) -> (r: String)
    ensures
        r@ == key_view(key@, normalized@),
{
    if text::same(key, AUTHOR_KEY) {
        let mut row_key = "entity:person:".to_owned();
        row_key.append(normalized);
        row_key
    } else {
        let mut row_key = "facet:".to_owned();
        row_key.append(key);
        row_key.append(":");
        row_key.append(normalized);
        row_key
    }
}

/// The row of a facet with a normalized key and value: an author on the
/// entity row of the person, anything else on a row of its own.
pub open spec fn facet_view(key: Seq<char>, value: Seq<char>, normalized: Seq<char>) -> NewRowView {
    if key == AUTHOR_KEY@ {
        NewRowView {
            key: key_view(key, normalized),
            mimetype: "text/x-inseam-entity"@,
            parameter: Some(("kind"@, "person"@)),
            text: text::trimmed(value),
            kind: VocabularyKind::Entity,
            origin: VocabularyOrigin::Envelope,
            normalized,
            document_frequency: 0,
        }
    } else {
        NewRowView {
            key: key_view(key, normalized),
            mimetype: "text/x-inseam-facet"@,
            parameter: Some(("key"@, key)),
            text: text::trimmed(value),
            kind: VocabularyKind::Facet,
            origin: VocabularyOrigin::Envelope,
            normalized: key + ":"@ + normalized,
            document_frequency: 0,
        }
    }
}

/// A facet as a row: an author on the entity row (`entity:person:`), any
/// other key under `facet:<key>:<value>`; nothing for an empty key or
/// value, nor where [`facet_key`] is not a key a fragment can have
/// (`addressable` says whether it is). `key` and `normalized` are the
/// normalized spellings of the facet's key and of `value`. The document
/// frequency is recounted from the anchors after planting.
pub fn facet_row(key: &str, value: &str, normalized: &str, addressable: bool) -> (r: Option<
    FacetRow,
>)
    ensures
        r is None <==> key@.len() == 0 || normalized@.len() == 0 || !addressable,
        r matches Some(facet) ==> facet.row@ == facet_view(key@, value@, normalized@)
            && facet.is_author == (key@ == AUTHOR_KEY@),
{
    if normalized.is_empty() || key.is_empty() || !addressable {
        return None;
    }
    let row_key = facet_key(key, normalized);
    if text::same(key, AUTHOR_KEY) {
        let row = NewVocabularyRow {
            key: row_key,
            mimetype: "text/x-inseam-entity".to_owned(),
            parameter: Some(("kind".to_owned(), "person".to_owned())),
            text: text::trim(value),
            kind: VocabularyKind::Entity,
            origin: VocabularyOrigin::Envelope,
            normalized: normalized.to_owned(),
            document_frequency: 0,
        };
        return Some(FacetRow { row, is_author: true });
    }
    let mut shown = key.to_owned();
    shown.append(":");
    shown.append(normalized);
    let row = NewVocabularyRow {
        key: row_key,
        mimetype: "text/x-inseam-facet".to_owned(),
        parameter: Some(("key".to_owned(), key.to_owned())),
        text: text::trim(value),
        kind: VocabularyKind::Facet,
        origin: VocabularyOrigin::Envelope,
        normalized: shown,
        document_frequency: 0,
    };
    Some(FacetRow { row, is_author: false })
}

/// A facet as a page of sources holds it: its normalized key, its value,
/// the normalized value, and whether its row's key is one a fragment can
/// have.
#[derive(Debug, PartialEq, Eq)]
pub struct ReadFacet {
    pub key: String,
    pub value: String,
    pub normalized: String,
    pub addressable: bool,
}

/// A source with its facets.
#[derive(Debug, PartialEq, Eq)]
pub struct FacetedSource {
    pub source: i64,
    pub root: i64,
    pub facets: Vec<ReadFacet>,
}

/// The rows to plant for a page of sources, each with the root it is
/// anchored from and whether it names an author.
#[derive(Debug, PartialEq, Eq)]
pub struct FacetBatch {
    pub roots: Vec<i64>,
    pub authors: Vec<bool>,
    pub rows: Vec<NewVocabularyRow>,
}

/// What one facet's row is planted with.
pub struct Planting {
    pub root: i64,
    pub author: bool,
    pub row: NewRowView,
}

impl FacetBatch {
    /// Whether the batch holds the plantings, in order.
    pub open spec fn holds(self, plantings: Seq<Planting>) -> bool {
        &&& self.roots@.len() == plantings.len()
        &&& self.authors@.len() == plantings.len()
        &&& self.rows@.len() == plantings.len()
        &&& forall|i: int|
            0 <= i < plantings.len() ==> self.roots@[i] == (#[trigger] plantings[i]).root
                && self.authors@[i] == plantings[i].author && self.rows@[i]@ == plantings[i].row
    }
}

/// The plantings of the first facets of a source: none for a facet without
/// a key, a value or a place.
pub open spec fn source_plantings(root: i64, facets: Seq<ReadFacet>) -> Seq<Planting>
    decreases facets.len(),
{
    if facets.len() == 0 {
        Seq::empty()
    } else {
        let before = source_plantings(root, facets.drop_last());
        let facet = facets.last();
        if facet.key@.len() == 0 || facet.normalized@.len() == 0 || !facet.addressable {
            before
        } else {
            before.push(
                Planting {
                    root,
                    author: facet.key@ == AUTHOR_KEY@,
                    row: facet_view(facet.key@, facet.value@, facet.normalized@),
                },
            )
        }
    }
}

/// The plantings of a page of sources, source after source.
pub open spec fn page_plantings(page: Seq<FacetedSource>) -> Seq<Planting>
    decreases page.len(),
{
    if page.len() == 0 {
        Seq::empty()
    } else {
        page_plantings(page.drop_last()) + source_plantings(page.last().root, page.last().facets@)
    }
}

impl FacetBatch {
    fn add_source(&mut self, source: &FacetedSource, before: Ghost<Seq<Planting>>)
        requires
            old(self).holds(before@),
        ensures
            final(self).holds(before@ + source_plantings(source.root, source.facets@)),
    {
        let mut i: usize = 0;
        proof {
            assert(source.facets@.take(0) =~= Seq::empty());
            assert(before@ + source_plantings(source.root, source.facets@.take(0)) =~= before@);
        }
        while i < source.facets.len()
            invariant
                i <= source.facets@.len(),
                self.holds(
                    before@ + source_plantings(source.root, source.facets@.take(i as int)),
                ),
            decreases source.facets@.len() - i,
        {
            let facet = &source.facets[i];
            let ghost now = before@ + source_plantings(source.root, source.facets@.take(i as int));
            proof {
                assert(source.facets@.take(i + 1).drop_last() =~= source.facets@.take(i as int));
                assert(source.facets@.take(i + 1).last() == source.facets@[i as int]);
            }
            let made = facet_row(
                facet.key.as_str(),
                facet.value.as_str(),
                facet.normalized.as_str(),
                facet.addressable,
            );
            let ghost next = before@ + source_plantings(source.root, source.facets@.take(i + 1));
            match made {
                Some(FacetRow { row, is_author }) => {
                    let ghost planting = Planting {
                        root: source.root,
                        author: is_author,
                        row: row@,
                    };
                    self.roots.push(source.root);
                    self.authors.push(is_author);
                    self.rows.push(row);
                    proof {
                        assert(next =~= now.push(planting));
                        assert forall|k: int| 0 <= k < next.len() implies self.roots@[k] == (
                        #[trigger] next[k]).root && self.authors@[k] == next[k].author
                            && self.rows@[k]@ == next[k].row by {
                            if k < now.len() {
                                assert(next[k] == now[k]);
                            }
                        }
                    }
                },
                None => {
                    proof {
                        assert(next =~= now);
                    }
                },
            }
            i = i + 1;
        }
        proof {
            assert(source.facets@.take(source.facets@.len() as int) =~= source.facets@);
        }
    }
}

/// The rows to plant for a page of sources: every facet of every source, in
/// order.
pub fn facet_batch(page: &Vec<FacetedSource>) -> (r: FacetBatch)
    ensures
        r.holds(page_plantings(page@)),
{
    let mut batch = FacetBatch { roots: Vec::new(), authors: Vec::new(), rows: Vec::new() };
    let mut i: usize = 0;
    proof {
        assert(page@.take(0) =~= Seq::empty());
    }
    while i < page.len()
        invariant
            i <= page@.len(),
            batch.holds(page_plantings(page@.take(i as int))),
        decreases page@.len() - i,
    {
        proof {
            assert(page@.take(i + 1).drop_last() =~= page@.take(i as int));
            assert(page@.take(i + 1).last() == page@[i as int]);
        }
        batch.add_source(&page[i], Ghost(page_plantings(page@.take(i as int))));
        i = i + 1;
    }
    proof {
        assert(page@.take(page@.len() as int) =~= page@);
    }
    batch
}

/// The anchors of a batch of planted facets whose rows do or do not name an
/// author: each from its source's root to the fragment of its row.
pub open spec fn anchors_of(
    roots: Seq<i64>,
    authors: Seq<bool>,
    results: Seq<PlantResult>,
    author: bool,
) -> Seq<(i64, i64)>
    decreases results.len(),
{
    if results.len() == 0 {
        Seq::empty()
    } else {
        let n = results.len() - 1;
        let before = anchors_of(roots, authors, results.drop_last(), author);
        if authors[n] == author {
            before.push((roots[n], results[n].fragment))
        } else {
            before
        }
    }
}

/// What a batch of planted facets writes.
#[derive(Debug, PartialEq, Eq)]
pub struct FacetAnchors {
    /// Anchors of kind `faceted`.
    pub faceted: Vec<(i64, i64)>,
    /// Anchors of kind `authored`.
    pub authored: Vec<(i64, i64)>,
    pub planted: Planted,
}

/// The anchors a batch of planted facets writes, and what it came to: one
/// anchor for each, `authored` for an author and `faceted` for the rest.
pub fn anchor_batch(roots: &Vec<i64>, authors: &Vec<bool>, results: &Vec<PlantResult>) -> (r: FacetAnchors)
    requires
        roots@.len() == results@.len(),
        authors@.len() == results@.len(),
    ensures
        r.faceted@ == anchors_of(roots@, authors@, results@, false),
        r.authored@ == anchors_of(roots@, authors@, results@, true),
        r.faceted@.len() + r.authored@.len() == results@.len(),
        r.planted.rows_created == super::rows::created_count(results@),
        r.planted.anchors_written == results@.len(),
{
    let mut faceted: Vec<(i64, i64)> = Vec::new();
    let mut authored: Vec<(i64, i64)> = Vec::new();
    let mut created: usize = 0;
    let mut i: usize = 0;
    proof {
        assert(results@.take(0) =~= Seq::empty());
        assert(faceted@ =~= Seq::empty());
        assert(authored@ =~= Seq::empty());
    }
    while i < results.len()
        invariant
            i <= results@.len(),
            roots@.len() == results@.len(),
            authors@.len() == results@.len(),
            faceted@ == anchors_of(roots@, authors@, results@.take(i as int), false),
            authored@ == anchors_of(roots@, authors@, results@.take(i as int), true),
            faceted@.len() + authored@.len() == i,
            created == super::rows::created_count(results@.take(i as int)),
            created <= i,
        decreases results.len() - i,
    {
        proof {
            assert(results@.take(i as int + 1).drop_last() =~= results@.take(i as int));
            assert(results@.take(i as int + 1).last() == results@[i as int]);
        }
        if authors[i] {
            authored.push((roots[i], results[i].fragment));
        } else {
            faceted.push((roots[i], results[i].fragment));
        }
        if results[i].created {
            created = created + 1;
        }
        i = i + 1;
    }
    proof {
        assert(results@.take(results@.len() as int) =~= results@);
    }
    let planted = Planted { rows_created: created, anchors_written: results.len() };
    FacetAnchors { faceted, authored, planted }
}


/// Every facet with a key, a value and a place is planted, in order, from the
/// root of its own source, and no other facet is.
pub proof fn law_every_addressable_facet_is_planted(root: i64, facets: Seq<ReadFacet>)
    ensures
        source_plantings(root, facets) == facets.filter(
            |facet: ReadFacet|
                facet.key@.len() > 0 && facet.normalized@.len() > 0 && facet.addressable,
        ).map_values(
            |facet: ReadFacet|
                Planting {
                    root,
                    author: facet.key@ == AUTHOR_KEY@,
                    row: facet_view(facet.key@, facet.value@, facet.normalized@),
                },
        ),
    decreases facets.len(),
{
    reveal(Seq::filter);
    if facets.len() > 0 {
        law_every_addressable_facet_is_planted(root, facets.drop_last());
    }
    assert(source_plantings(root, facets) =~= facets.filter(
        |facet: ReadFacet|
            facet.key@.len() > 0 && facet.normalized@.len() > 0 && facet.addressable,
    ).map_values(
        |facet: ReadFacet|
            Planting {
                root,
                author: facet.key@ == AUTHOR_KEY@,
                row: facet_view(facet.key@, facet.value@, facet.normalized@),
            },
    ));
}

/// A page plants what each of its sources plants, source after source: two
/// pages plant what one page of both does.
pub proof fn law_pages_of_facets_adjoin(first: Seq<FacetedSource>, second: Seq<FacetedSource>)
    ensures
        page_plantings(first + second) == page_plantings(first) + page_plantings(second),
        first.len() == 1 ==> page_plantings(first) == source_plantings(
            first[0].root,
            first[0].facets@,
        ),
    decreases second.len(),
{
    if second.len() > 0 {
        law_pages_of_facets_adjoin(first, second.drop_last());
        assert((first + second).drop_last() =~= first + second.drop_last());
        assert((first + second).last() == second.last());
        assert(page_plantings(first + second) =~= page_plantings(first) + page_plantings(second));
    } else {
        assert(first + second =~= first);
        assert(page_plantings(first + second) =~= page_plantings(first) + page_plantings(second));
    }
    if first.len() == 1 {
        assert(first.drop_last() =~= Seq::empty());
        assert(page_plantings(first) =~= page_plantings(first.drop_last()) + source_plantings(
            first[0].root,
            first[0].facets@,
        ));
        assert(page_plantings(first.drop_last()) =~= Seq::empty());
    }
}

/// Whether an anchor is one of a planted facet of the kind asked for.
pub open spec fn anchors_one(
    roots: Seq<i64>,
    authors: Seq<bool>,
    results: Seq<PlantResult>,
    author: bool,
    anchor: (i64, i64),
) -> bool {
    exists|i: int|
        0 <= i < results.len() && #[trigger] authors[i] == author && anchor == (
            roots[i],
            results[i].fragment,
        )
}

/// Every planted facet is anchored once, from its source's root to its row,
/// in order: as an author's or as another's.
pub proof fn law_every_planted_facet_is_anchored(
    roots: Seq<i64>,
    authors: Seq<bool>,
    results: Seq<PlantResult>,
    author: bool,
)
    requires
        roots.len() >= results.len(),
        authors.len() >= results.len(),
    ensures
        forall|i: int|
            0 <= i < results.len() && #[trigger] authors[i] == author ==> anchors_of(
                roots,
                authors,
                results,
                author,
            ).contains((roots[i], results[i].fragment)),
        forall|k: int|
            0 <= k < anchors_of(roots, authors, results, author).len() ==> anchors_one(
                roots,
                authors,
                results,
                author,
                #[trigger] anchors_of(roots, authors, results, author)[k],
            ),
        anchors_of(roots, authors, results, author).len() == authors.take(
            results.len() as int,
        ).filter(|is_author: bool| is_author == author).len(),
    decreases results.len(),
{
    reveal(Seq::filter);
    let all = anchors_of(roots, authors, results, author);
    if results.len() > 0 {
        let n = results.len() - 1;
        let front = results.drop_last();
        let before = anchors_of(roots, authors, front, author);
        law_every_planted_facet_is_anchored(roots, authors, front, author);
        assert(authors.take(results.len() as int).drop_last() =~= authors.take(n));
        assert(authors.take(results.len() as int).last() == authors[n]);
        assert forall|i: int|
            0 <= i < results.len() && #[trigger] authors[i] == author implies all.contains(
            (roots[i], results[i].fragment),
        ) by {
            if i < n {
                let anchor = (roots[i], front[i].fragment);
                assert(before.contains(anchor));
                let k = before.index_of(anchor);
                assert(all[k] == anchor);
            } else {
                assert(all[before.len() as int] == (roots[i], results[i].fragment));
            }
        }
        assert forall|k: int| 0 <= k < all.len() implies anchors_one(
            roots,
            authors,
            results,
            author,
            #[trigger] all[k],
        ) by {
            if k < before.len() {
                assert(all[k] == before[k]);
                let i = choose|i: int|
                    0 <= i < front.len() && #[trigger] authors[i] == author && before[k] == (
                        roots[i],
                        front[i].fragment,
                    );
                assert(front[i] == results[i]);
                assert(authors[i] == author);
            } else {
                assert(authors[n] == author);
            }
        }
    }
}

} // verus!
