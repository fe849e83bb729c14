//! Vocabulary rows as the store holds them and as the pass writes them.

use vstd::prelude::*;

verus! {

/// What kind of word a row is.
#[derive(Debug, Clone, Copy, PartialEq, Eq, Structural)]
pub enum VocabularyKind {
    Term,
    Identifier,
    Entity,
    Facet,
    Alias,
}

impl VocabularyKind {
    /// The kind's name.
    pub open spec fn name_view(self) -> Seq<char> {
        match self {
            VocabularyKind::Term => "term"@,
            VocabularyKind::Identifier => "identifier"@,
            VocabularyKind::Entity => "entity"@,
            VocabularyKind::Facet => "facet"@,
            VocabularyKind::Alias => "alias"@,
        }
    }

    /// The kind's name.
    pub fn name(self) -> (r: &'static str)
        ensures
            r@ == self.name_view(),
    {
        match self {
            VocabularyKind::Term => "term",
            VocabularyKind::Identifier => "identifier",
            VocabularyKind::Entity => "entity",
            VocabularyKind::Facet => "facet",
            VocabularyKind::Alias => "alias",
        }
    }
}

/// Where a row came from.
#[derive(Debug, Clone, Copy, PartialEq, Eq, Structural)]
pub enum VocabularyOrigin {
    /// A per-source transform extracted it.
    Extracted,
    /// The pass mined it.
    Mined,
    /// A source's envelope says it.
    Envelope,
    /// The model settled it.
    Grounded,
}

/// A row as the store lists it.
#[derive(Debug, PartialEq, Eq)]
pub struct VocabularyRow {
    pub fragment: i64,
    pub kind: VocabularyKind,
    pub origin: VocabularyOrigin,
    pub spelling: String,
    pub normalized: String,
    pub document_frequency: u32,
    pub cluster: Option<i64>,
}

/// A row to plant: the key and fragment it is held under, and what it says.
#[derive(Debug, PartialEq, Eq)]
pub struct NewVocabularyRow {
    pub key: String,
    pub mimetype: String,
    /// A parameter of the mimetype, as name and value.
    pub parameter: Option<(String, String)>,
    pub text: String,
    pub kind: VocabularyKind,
    pub origin: VocabularyOrigin,
    pub normalized: String,
    pub document_frequency: u32,
}

/// What a row to plant says.
pub struct NewRowView {
    pub key: Seq<char>,
    pub mimetype: Seq<char>,
    pub parameter: Option<(Seq<char>, Seq<char>)>,
    pub text: Seq<char>,
    pub kind: VocabularyKind,
    pub origin: VocabularyOrigin,
    pub normalized: Seq<char>,
    pub document_frequency: u32,
}

impl View for NewVocabularyRow {
    type V = NewRowView;

    open spec fn view(&self) -> NewRowView {
        NewRowView {
            key: self.key@,
            mimetype: self.mimetype@,
            parameter: match self.parameter {
                Some(pair) => Some((pair.0@, pair.1@)),
                None => None,
            },
            text: self.text@,
            kind: self.kind,
            origin: self.origin,
            normalized: self.normalized@,
            document_frequency: self.document_frequency,
        }
    }
}

/// What the store answers for a planted row: the fragment that holds it,
/// and whether planting created it.
#[derive(Debug, Clone, Copy, PartialEq, Eq, Structural)]
pub struct PlantResult {
    pub fragment: i64,
    pub created: bool,
}

/// A created row's text for the full-text index.
#[derive(Debug, PartialEq, Eq)]
pub struct LexicalRow {
    pub fragment: i64,
    pub text: String,
}

/// What a lexical row says.
pub struct LexicalView {
    pub fragment: i64,
    pub text: Seq<char>,
}

impl View for LexicalRow {
    type V = LexicalView;

    open spec fn view(&self) -> LexicalView {
        LexicalView { fragment: self.fragment, text: self.text@ }
    }
}

/// The lexical rows of a list.
pub open spec fn lexical_views(rows: Seq<LexicalRow>) -> Seq<LexicalView> {
    Seq::new(rows.len(), |i: int| rows[i]@)
}

/// The lexical rows of the planted rows that were created, in order.
pub open spec fn created_lexical(texts: Seq<Seq<char>>, results: Seq<PlantResult>) -> Seq<LexicalView>
    decreases results.len(),
{
    if results.len() == 0 {
        Seq::empty()
    } else {
        let before = created_lexical(texts.take(results.len() - 1), results.drop_last());
        if results.last().created {
            before.push(
                LexicalView { fragment: results.last().fragment, text: texts[results.len() - 1] },
            )
        } else {
            before
        }
    }
}

/// How many planted rows were created.
pub open spec fn created_count(results: Seq<PlantResult>) -> nat
    decreases results.len(),
{
    if results.len() == 0 {
        0
    } else {
        created_count(results.drop_last()) + if results.last().created {
            1nat
        } else {
            0nat
        }
    }
}

/// The texts of rows to plant.
pub open spec fn new_texts(rows: Seq<NewVocabularyRow>) -> Seq<Seq<char>> {
    Seq::new(rows.len(), |i: int| rows[i].text@)
}

/// The lexical rows of the planted rows that were created, in order; there
/// are as many as were created.
pub fn lexical_rows(rows: &Vec<NewVocabularyRow>, results: &Vec<PlantResult>) -> (r: Vec<LexicalRow>)
    requires
        rows@.len() == results@.len(),
    ensures
        lexical_views(r@) == created_lexical(new_texts(rows@), results@),
        r@.len() == created_count(results@),
{
    let mut out: Vec<LexicalRow> = Vec::new();
    let mut i: usize = 0;
    proof {
        assert(lexical_views(out@) =~= created_lexical(new_texts(rows@).take(0), results@.take(0)));
        assert(results@.take(0) =~= Seq::empty());
    }
    while i < results.len()
        invariant
            i <= results@.len(),
            rows@.len() == results@.len(),
            lexical_views(out@) == created_lexical(
                new_texts(rows@).take(i as int),
                results@.take(i as int),
            ),
            out@.len() == created_count(results@.take(i as int)),
        decreases results.len() - i,
    {
        let ghost before = lexical_views(out@);
        proof {
            let texts = new_texts(rows@).take(i as int + 1);
            let next = results@.take(i as int + 1);
            assert(next.drop_last() =~= results@.take(i as int));
            assert(next.last() == results@[i as int]);
            assert(texts.take(next.len() - 1) =~= new_texts(rows@).take(i as int));
            assert(texts[i as int] == rows@[i as int].text@);
        }
        if results[i].created {
            out.push(LexicalRow { fragment: results[i].fragment, text: rows[i].text.clone() });
        }
        proof {
            assert(lexical_views(out@) =~= created_lexical(
                new_texts(rows@).take(i as int + 1),
                results@.take(i as int + 1),
            ));
        }
        i = i + 1;
    }
    proof {
        assert(new_texts(rows@).take(results@.len() as int) =~= new_texts(rows@));
        assert(results@.take(results@.len() as int) =~= results@);
    }
    out
}


/// The numbers below `n`, in order.
pub open spec fn upto(n: nat) -> Seq<int> {
    Seq::new(n, |i: int| i)
}

/// Every planted row that was created has a lexical row, under the fragment
/// it was given and with its own text, in order, and no other row has; as
/// many are counted as were created.
pub proof fn law_every_created_row_is_lexical(texts: Seq<Seq<char>>, results: Seq<PlantResult>)
    requires
        texts.len() == results.len(),
    ensures
        created_lexical(texts, results) == upto(results.len()).filter(
            |i: int| results[i].created,
        ).map_values(
            |i: int| LexicalView { fragment: results[i].fragment, text: texts[i] },
        ),
        created_count(results) == results.filter(|result: PlantResult| result.created).len(),
{
    lemma_created_is_filtered(results);
    lemma_lexical_upto(texts, results, results.len());
    assert(texts.take(results.len() as int) =~= texts);
    assert(results.take(results.len() as int) =~= results);
}

proof fn lemma_created_is_filtered(results: Seq<PlantResult>)
    ensures
        created_count(results) == results.filter(|result: PlantResult| result.created).len(),
    decreases results.len(),
{
    reveal(Seq::filter);
    if results.len() > 0 {
        lemma_created_is_filtered(results.drop_last());
    }
}

proof fn lemma_lexical_upto(texts: Seq<Seq<char>>, results: Seq<PlantResult>, n: nat)
    requires
        texts.len() == results.len(),
        n <= results.len(),
    ensures
        created_lexical(texts.take(n as int), results.take(n as int)) == upto(n).filter(
            |i: int| results[i].created,
        ).map_values(
            |i: int| LexicalView { fragment: results[i].fragment, text: texts[i] },
        ),
    decreases n,
{
    reveal(Seq::filter);
    if n > 0 {
        lemma_lexical_upto(texts, results, (n - 1) as nat);
        assert(upto(n).drop_last() =~= upto((n - 1) as nat));
        assert(upto(n).last() == n - 1);
        assert(results.take(n as int).drop_last() =~= results.take(n - 1));
        assert(texts.take(n as int).take(n - 1) =~= texts.take(n - 1));
    }
    assert(created_lexical(texts.take(n as int), results.take(n as int)) =~= upto(n).filter(
        |i: int| results[i].created,
    ).map_values(|i: int| LexicalView { fragment: results[i].fragment, text: texts[i] }));
}

} // verus!
