//! Entities extracted from a source: shared through the index-wide registry
//! by key, and related to the fragments whose text mentions them.

use vstd::prelude::*;
use crate::text;
use super::plan;
use super::plan::{Anchor, PlanNode};

verus! {

/// One entity a transform found in a source.
#[derive(Debug, PartialEq, Eq)]
pub struct ExtractedEntity {
    pub key: String,
    pub kind: String,
    pub name: String,
}

/// How one entity is wired.
#[derive(Debug, PartialEq, Eq)]
pub struct Wiring {
    /// Whether the registry gets a fragment for it.
    pub created: bool,
    /// The fragments that mention it.
    pub mentions: Vec<PlanNode>,
}

/// Whether an entity has to be created: the registry does not hold its key,
/// and no earlier entity of the source brought it.
pub open spec fn is_new(entities: Seq<ExtractedEntity>, known: Seq<Seq<char>>, i: int) -> bool {
    !known.contains(entities[i].key@) && forall|j: int|
        0 <= j < i ==> (#[trigger] entities[j]).key@ != entities[i].key@
}

/// Whether a wiring is the one an entity gets.
pub open spec fn wires(
    wiring: Wiring,
    entities: Seq<ExtractedEntity>,
    known: Seq<Seq<char>>,
    texted: Seq<(PlanNode, String)>,
    root: PlanNode,
    i: int,
) -> bool {
    &&& wiring.created == is_new(entities, known, i)
    &&& wiring.mentions@ == plan::anchor_nodes(
        Anchor::TextContaining(entities[i].name),
        root,
        texted,
    )
    &&& wiring.mentions@.len() > 0
}

fn is_unseen(entities: &Vec<ExtractedEntity>, known: &Vec<String>, i: usize) -> (r: bool)
    requires
        i < entities@.len(),
    ensures
        r == is_new(entities@, text::views(known@), i as int),
{
    if text::holds(known, entities[i].key.as_str()) {
        return false;
    }
    let mut j: usize = 0;
    while j < i
        invariant
            j <= i < entities@.len(),
            forall|k: int| 0 <= k < j ==> (#[trigger] entities@[k]).key@ != entities@[i as int].key@,
        decreases i - j,
    {
        if text::same(entities[j].key.as_str(), entities[i].key.as_str()) {
            return false;
        }
        j = j + 1;
    }
    true
}

/// Deduplicate extracted entities through the registry's keys and relate each
/// to the fragments whose text mentions it, falling back to the source root.
pub fn wire_entities(
    entities: &Vec<ExtractedEntity>,
    known: &Vec<String>,
    texted: &Vec<(PlanNode, String)>,
    root: PlanNode,
) -> (r: Vec<Wiring>)
    ensures
        r@.len() == entities@.len(),
        forall|i: int|
            0 <= i < entities@.len() ==> wires(
                #[trigger] r@[i],
                entities@,
                text::views(known@),
                texted@,
                root,
                i,
            ),
{
    let mut out: Vec<Wiring> = Vec::new();
    let mut i: usize = 0;
    while i < entities.len()
        invariant
            i <= entities@.len(),
            out@.len() == i,
            forall|j: int|
                0 <= j < i ==> wires(
                    #[trigger] out@[j],
                    entities@,
                    text::views(known@),
                    texted@,
                    root,
                    j,
                ),
        decreases entities@.len() - i,
    {
        let created = is_unseen(entities, known, i);
        let anchor = Anchor::TextContaining(entities[i].name.clone());
        let mentions = plan::anchors_for(&anchor, root, texted);
        out.push(Wiring { created, mentions });
        i = i + 1;
    }
    out
}

/// One fragment per key: of the entities that share a key, at most one is
/// created, and none when the registry already holds it.
pub proof fn law_a_key_is_created_once(
    entities: Seq<ExtractedEntity>,
    known: Seq<Seq<char>>,
    i: int,
    j: int,
)
    requires
        0 <= i < j < entities.len(),
        entities[i].key@ == entities[j].key@,
    ensures
        !is_new(entities, known, j),
        known.contains(entities[i].key@) ==> !is_new(entities, known, i),
{
}


/// A key the registry does not hold is created: where an entity has it, the
/// first one that does is the one that creates it.
pub proof fn law_an_unknown_key_is_created(
    entities: Seq<ExtractedEntity>,
    known: Seq<Seq<char>>,
    i: int,
) -> (first: int)
    requires
        0 <= i < entities.len(),
        !known.contains(entities[i].key@),
    ensures
        0 <= first <= i,
        entities[first].key@ == entities[i].key@,
        is_new(entities, known, first),
    decreases i,
{
    if is_new(entities, known, i) {
        i
    } else {
        let j = choose|j: int|
            0 <= j < i && (#[trigger] entities[j]).key@ == entities[i].key@;
        law_an_unknown_key_is_created(entities, known, j)
    }
}

/// An entity is related to every text that mentions its name, whatever the
/// case, in order, and to the root where none does.
pub proof fn law_an_entity_is_related_to_its_mentions(
    wiring: Wiring,
    entities: Seq<ExtractedEntity>,
    known: Seq<Seq<char>>,
    texted: Seq<(PlanNode, String)>,
    root: PlanNode,
    i: int,
)
    requires
        0 <= i < entities.len(),
        wires(wiring, entities, known, texted, root, i),
    ensures
        ({
            let mentioning = texted.filter(
                |site: (PlanNode, String)|
                    text::contains(text::lowercase(site.1@), text::lowercase(entities[i].name@)),
            ).map_values(|site: (PlanNode, String)| site.0);
            &&& mentioning.len() > 0 ==> wiring.mentions@ == mentioning
            &&& mentioning.len() == 0 ==> wiring.mentions@ == seq![root]
        }),
{
    plan::law_anchors_are_every_text_that_holds_the_words(
        Anchor::TextContaining(entities[i].name),
        root,
        texted,
    );
}
} // verus!
