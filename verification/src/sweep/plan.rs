//! Planning one source's subtree: the registered transforms are applied to
//! the root, then to every fragment they emit, until nothing claims the
//! output. Here stands what is decided along the way: what is read, which
//! fragments are planted and which of them re-enter the queue, what the
//! transform cache answers, and where keyed emissions anchor.

use vstd::prelude::*;
use std::collections::VecDeque;
use crate::seam::Address;
use crate::text;
use super::cache::ObservedCalls;
use super::config::PlanLimits;
use super::embed::InventoryEntry;
use super::source;
use super::source::{ContentLength, Envelope, Extent, Mimetype};

verus! {

/// A place in a plan: the source itself, or one of its fragments.
#[derive(Debug, Clone, Copy, PartialEq, Eq, Structural)]
pub enum PlanNode {
    Root,
    Fragment(u32),
}

/// A fragment a transform emits.
#[derive(Debug, PartialEq, Eq)]
pub struct NewFragment {
    pub mimetype: Mimetype,
    pub text: Option<String>,
    pub extent: Option<Extent>,
    /// Where the fragment's bytes live, when they live elsewhere.
    pub content_address: Option<Address>,
}

/// A tree of emitted fragments, each related to its parent.
#[derive(Debug, PartialEq, Eq)]
pub struct Sprout {
    pub fragment: NewFragment,
    pub relation: String,
    pub children: Vec<Sprout>,
}

/// Where a keyed emission is anchored.
#[derive(Debug, PartialEq, Eq)]
pub enum Anchor {
    /// At the fragment it was emitted for.
    Input,
    /// At every fragment whose text holds this one, whatever its case.
    TextContaining(String),
}

/// A fragment shared between sources by its key.
#[derive(Debug, PartialEq, Eq)]
pub struct KeyedSprout {
    pub key: String,
    pub fragment: NewFragment,
    pub relation: String,
    pub anchor: Anchor,
}

/// A fragment awaiting transform application: the root, or an emitted
/// fragment re-entering as a non-root for chained claims.
#[derive(Debug, PartialEq, Eq)]
pub struct WorkItem {
    pub node: PlanNode,
    pub mimetype: Mimetype,
    pub is_root: bool,
    pub text: Option<String>,
    /// Where the fragment's bytes live; always `None` at the root.
    pub content_address: Option<Address>,
    pub depth: usize,
    /// Content references followed to reach this fragment, itself included.
    pub reference_hops: u32,
}

/// One planted fragment.
#[derive(Debug, PartialEq, Eq)]
pub struct PlannedFragment {
    pub parent: PlanNode,
    pub relation: String,
    pub fragment: NewFragment,
}

/// One keyed fragment and where it is anchored.
#[derive(Debug, PartialEq, Eq)]
pub struct PlannedKeyed {
    pub key: String,
    pub fragment: NewFragment,
    pub relation: String,
    pub anchors: Vec<PlanNode>,
}

/// The counts a plan adds to the run's report.
#[derive(Debug, Clone, Copy, PartialEq, Eq)]
pub struct PlanStats {
    pub llm_summaries: usize,
    pub extractive_summaries: usize,
    pub envelope_summaries: usize,
    /// Transform applications answered from the transform cache.
    pub transforms_reused: usize,
}

/// Where one transform's output came from.
#[derive(Debug, PartialEq, Eq)]
pub enum Provenance {
    /// Applied now; with a key and an encoding when the model produced it
    /// and it should be filed.
    Applied(Option<(String, String)>),
    /// Taken from the transform cache.
    Reused,
}

/// A whole subtree, as the store lands it.
#[derive(Debug, PartialEq, Eq)]
pub struct SubtreePlan {
    pub address: Address,
    pub envelope: Envelope,
    pub raw_bytes: u64,
    pub root: NewFragment,
    pub fragments: Vec<PlannedFragment>,
    pub keyed: Vec<PlannedKeyed>,
    pub stamp: String,
    pub inventory: Vec<InventoryEntry>,
}

/// A plan and what planning it counted.
#[derive(Debug, PartialEq, Eq)]
pub struct Planned {
    pub plan: SubtreePlan,
    pub stats: PlanStats,
    /// Transform outputs the model produced this plan, keyed for the cache.
    pub cache_entries: Vec<(String, String)>,
}

// --- What is read ---

/// What reading a source makes available to its transforms.
#[derive(Debug, Clone, Copy, PartialEq, Eq)]
pub struct ReadPlan {
    /// Whether the host is read at all.
    pub raw: bool,
    /// Whether the content is taken as text.
    pub text: bool,
    /// Whether byte-wanting transforms see the content.
    pub bytes: bool,
}

/// What the transforms may see: the text of indexable text sources within
/// the size cap, the raw bytes only when a byte-wanting transform claims the
/// root. One raw read serves both.
pub fn read_plan(texty: bool, wants_bytes: bool, raw_bytes: u64, limits: PlanLimits) -> (r: ReadPlan)
    ensures
        r.raw == ((texty || wants_bytes) && raw_bytes <= limits.max_content_bytes),
        r.text == (texty && raw_bytes <= limits.max_content_bytes),
        r.bytes == (wants_bytes && raw_bytes <= limits.max_content_bytes),
{
    let raw = (texty || wants_bytes) && raw_bytes <= limits.max_content_bytes;
    ReadPlan { raw, text: raw && texty, bytes: raw && wants_bytes }
}

/// What `String::from_utf8_lossy` makes of bytes.
pub uninterp spec fn lossy_text(bytes: Seq<u8>) -> Seq<char>;

/// `String::from_utf8_lossy`: a function of the bytes; valid UTF-8 is the
/// text it encodes, and what is not is replaced.
#[verifier::external_body]
fn read_lossily(bytes: &Vec<u8>) -> (r: String)
    ensures
        r@ == lossy_text(bytes@),
        vstd::utf8::valid_utf8(bytes@) ==> r@ == vstd::utf8::decode_utf8(bytes@),
{
    String::from_utf8_lossy(bytes).into_owned()
}

/// What a source's transforms get of its content.
#[derive(Debug, PartialEq, Eq)]
pub struct SourceContent {
    pub text: Option<String>,
    pub bytes: Option<Vec<u8>>,
}

/// What the transforms get of a host read: its text where it is taken as
/// text, its bytes where a transform wants them.
pub fn read_content(raw: Option<Vec<u8>>, asked: ReadPlan) -> (r: SourceContent)
    ensures
        r.text is Some <==> raw is Some && asked.text,
        r.text matches Some(text) ==> text@ == lossy_text(raw->0@) && (vstd::utf8::valid_utf8(
            raw->0@,
        ) ==> text@ == vstd::utf8::decode_utf8(raw->0@)),
        r.bytes == (if asked.bytes {
            raw
        } else {
            None
        }),
{
    let text: Option<String> = match &raw {
        Some(bytes) => if asked.text {
            Some(read_lossily(bytes))
        } else {
            None
        },
        None => None,
    };
    SourceContent {
        text,
        bytes: if asked.bytes {
            raw
        } else {
            None
        },
    }
}

/// The envelope after a host read: a steward-supplied digest is kept,
/// otherwise the read's fills it in; a text's length is its lines.
pub fn read_envelope(envelope: Envelope, digest: Option<String>, lines: Option<u64>) -> (r: Envelope)
    ensures
        r.content_digest == (if envelope.content_digest is None {
            digest
        } else {
            envelope.content_digest
        }),
        r.length == (match lines {
            Some(n) => ContentLength::Lines(n),
            None => envelope.length,
        }),
        r == (Envelope { content_digest: r.content_digest, length: r.length, ..envelope }),
{
    let mut out = envelope;
    if out.content_digest.is_none() {
        out.content_digest = digest;
    }
    if let Some(n) = lines {
        out.length = ContentLength::Lines(n);
    }
    out
}

/// The envelope a composed text stands in for: no host access, the digest
/// and line count taken from the text itself.
pub fn composed_envelope(envelope: Envelope, digest: String, lines: u64) -> (r: Envelope)
    requires
        envelope.content_type.directory,
    ensures
        r == (Envelope {
            content_digest: Some(digest),
            length: ContentLength::Lines(lines),
            ..envelope
        }),
{
    let mut out = envelope;
    out.content_digest = Some(digest);
    out.length = ContentLength::Lines(lines);
    out
}

/// The content a work item presents to its claimants.
#[derive(Debug, Clone, Copy, PartialEq, Eq)]
pub enum Presented {
    Text,
    Bytes,
    /// A bare reference, which no cache can key.
    Nothing,
}

/// What of a work item is digested: the text when it has text, the bytes
/// otherwise, nothing for a bare reference.
pub fn item_digest(item: &WorkItem, has_bytes: bool) -> (r: Presented)
    ensures
        r == (if item.text is Some {
            Presented::Text
        } else if has_bytes {
            Presented::Bytes
        } else {
            Presented::Nothing
        }),
{
    if item.text.is_some() {
        Presented::Text
    } else if has_bytes {
        Presented::Bytes
    } else {
        Presented::Nothing
    }
}

// --- Claimants and the transform cache ---

/// One registered transform, as it stands to a work item.
#[derive(Debug, PartialEq, Eq)]
pub struct Claimant {
    pub claims: bool,
    pub wants_bytes: bool,
}

/// The registrations that claim an item, in registration order.
pub open spec fn claiming(registrations: Seq<Claimant>) -> Seq<int> {
    super::embed::places(|i: int| registrations[i].claims, registrations.len())
}

/// The registrations that claim an item, in registration order, which keeps
/// budgets and planting deterministic.
pub fn claimants(registrations: &Vec<Claimant>) -> (r: Vec<usize>)
    ensures
        super::embed::place_views(r@) == claiming(registrations@),
{
    let mut out: Vec<usize> = Vec::new();
    let mut i: usize = 0;
    let ghost wanted = |i: int| registrations@[i].claims;
    proof {
        assert(super::embed::place_views(out@) =~= super::embed::places(wanted, 0));
    }
    while i < registrations.len()
        invariant
            i <= registrations@.len(),
            wanted == (|i: int| registrations@[i].claims),
            super::embed::place_views(out@) == super::embed::places(wanted, i as nat),
        decreases registrations@.len() - i,
    {
        let ghost before = out@;
        if registrations[i].claims {
            out.push(i);
            proof {
                assert(super::embed::place_views(out@) =~= super::embed::place_views(before).push(
                    i as int,
                ));
            }
        }
        i = i + 1;
    }
    out
}

/// Where the bytes that an item's claimants see come from.
#[derive(Debug, Clone, Copy, PartialEq, Eq)]
pub enum BytesFrom {
    /// The source read: the item is the root.
    SourceRead,
    /// The address the fragment names.
    Reference,
    Nowhere,
}

/// Whether some claimant wants bytes.
pub open spec fn any_wants_bytes(registrations: Seq<Claimant>) -> bool {
    exists|i: int|
        0 <= i < registrations.len() && (#[trigger] registrations[i]).claims
            && registrations[i].wants_bytes
}

/// Where an item's bytes come from: the root's from the source read, a
/// referenced fragment's from its own address, and the latter only when a
/// claimant wants them.
pub fn bytes_from(item: &WorkItem, registrations: &Vec<Claimant>) -> (r: BytesFrom)
    ensures
        r == (if item.is_root {
            BytesFrom::SourceRead
        } else if item.content_address is Some && any_wants_bytes(registrations@) {
            BytesFrom::Reference
        } else {
            BytesFrom::Nowhere
        }),
{
    if item.is_root {
        return BytesFrom::SourceRead;
    }
    if item.content_address.is_none() {
        return BytesFrom::Nowhere;
    }
    let mut i: usize = 0;
    while i < registrations.len()
        invariant
            i <= registrations@.len(),
            !item.is_root,
            item.content_address is Some,
            forall|j: int|
                0 <= j < i ==> !((#[trigger] registrations@[j]).claims
                    && registrations@[j].wants_bytes),
        decreases registrations@.len() - i,
    {
        if registrations[i].claims && registrations[i].wants_bytes {
            proof {
                assert(registrations@[i as int].claims);
            }
            return BytesFrom::Reference;
        }
        i = i + 1;
    }
    BytesFrom::Nowhere
}

/// Whether referenced bytes are handed on: over the content cap they are
/// withheld and the fragment stays a bare reference.
pub fn reference_fits(size: u64, limits: PlanLimits) -> (r: bool)
    ensures
        r == (size <= limits.max_content_bytes),
{
    size <= limits.max_content_bytes
}

/// How many references a chain from this item may still follow.
pub fn reference_hops_left(item: &WorkItem, limits: PlanLimits) -> (r: u32)
    ensures
        r == (if item.reference_hops >= limits.max_reference_hops {
            0
        } else {
            limits.max_reference_hops - item.reference_hops
        }),
{
    limits.max_reference_hops.saturating_sub(item.reference_hops)
}

/// What the cache said about one claimant of a work item.
#[derive(Debug, PartialEq, Eq)]
pub enum CacheLookup {
    /// The output filed under this key.
    Hit(String),
    /// Not cached; with a key when the output can be filed under it.
    Miss(Option<String>),
}

/// Whether one of the first `n` claimants has this key.
pub open spec fn keyed_before(keys: Seq<Option<String>>, key: Seq<char>, n: int) -> bool {
    exists|i: int| 0 <= i < n && (#[trigger] keys[i]) is Some && keys[i]->0@ == key
}

/// What the cache said about the claimant at `i`, of those with these keys,
/// when it holds the outputs filed under `held`: an output answers the first
/// claimant with its key.
pub open spec fn lookup_at(
    keys: Seq<Option<String>>,
    held: Seq<Seq<char>>,
    i: int,
    lookup: CacheLookup,
) -> bool {
    match keys[i] {
        None => lookup == CacheLookup::Miss(None),
        Some(key) => if held.contains(key@) && !keyed_before(keys, key@, i) {
            lookup == CacheLookup::Hit(key)
        } else {
            lookup == CacheLookup::Miss(Some(key))
        },
    }
}

fn is_keyed_before(keys: &Vec<Option<String>>, key: &str, n: usize) -> (r: bool)
    requires
        n <= keys@.len(),
    ensures
        r == keyed_before(keys@, key@, n as int),
{
    let mut i: usize = 0;
    while i < n
        invariant
            i <= n <= keys@.len(),
            forall|j: int|
                0 <= j < i ==> !((#[trigger] keys@[j]) is Some && keys@[j]->0@ == key@),
        decreases n - i,
    {
        if let Some(other) = &keys[i] {
            if text::same(other.as_str(), key) {
                proof {
                    assert(keys@[i as int] is Some && keys@[i as int]->0@ == key@);
                }
                return true;
            }
        }
        i = i + 1;
    }
    false
}

/// What the cache answers each claimant, given the keys it holds outputs
/// under.
pub fn lookup_cached(keys: &Vec<Option<String>>, held: &Vec<String>) -> (r: Vec<CacheLookup>)
    ensures
        r@.len() == keys@.len(),
        forall|i: int|
            0 <= i < keys@.len() ==> lookup_at(keys@, text::views(held@), i, #[trigger] r@[i]),
{
    let mut out: Vec<CacheLookup> = Vec::new();
    let mut i: usize = 0;
    while i < keys.len()
        invariant
            i <= keys@.len(),
            out@.len() == i,
            forall|j: int|
                0 <= j < i ==> lookup_at(keys@, text::views(held@), j, #[trigger] out@[j]),
        decreases keys@.len() - i,
    {
        let lookup = match &keys[i] {
            None => CacheLookup::Miss(None),
            Some(key) => {
                if text::holds(held, key.as_str()) && !is_keyed_before(keys, key.as_str(), i) {
                    CacheLookup::Hit(key.clone())
                } else {
                    CacheLookup::Miss(Some(key.clone()))
                }
            },
        };
        out.push(lookup);
        i = i + 1;
    }
    out
}

/// What an applied output is filed as: only an output the model produced is,
/// under its key. A fallback stays a fallback for this run alone.
pub fn filed(key: Option<String>, observed: Option<ObservedCalls>, encoded: Option<String>) -> (r:
    Option<(String, String)>)
    ensures
        r == (match (key, observed, encoded) {
            (Some(key), Some(calls), Some(encoded)) => if calls.completed >= 1 && calls.failed
                == 0 {
                Some((key, encoded))
            } else {
                None
            },
            _ => None,
        }),
{
    match (key, observed, encoded) {
        (Some(key), Some(calls), Some(encoded)) => if calls.output_is_the_models() {
            Some((key, encoded))
        } else {
            None
        },
        _ => None,
    }
}

// --- The plan under construction ---

/// What planting fills: the fragments, their text sites, the mimetypes they
/// bring, and the items that wait for transforms.
#[verifier::ext_equal]
pub struct Plot {
    pub fragments: Seq<PlannedFragment>,
    pub texted: Seq<(PlanNode, String)>,
    pub inventory: Seq<InventoryEntry>,
    pub queue: Seq<WorkItem>,
}

/// Whether an inventory lists a mimetype at or below the root.
pub open spec fn lists(inventory: Seq<InventoryEntry>, essence: Seq<char>, is_root: bool) -> bool {
    exists|i: int|
        0 <= i < inventory.len() && (#[trigger] inventory[i]).mimetype@ == essence
            && inventory[i].is_root == is_root
}

/// Whether a fragment carries source text: text that is not blank, and not
/// derived understanding.
pub open spec fn carries_text(fragment: NewFragment) -> bool {
    fragment.text is Some && text::trimmed(fragment.text->0@).len() > 0
        && !fragment.mimetype.inseam_defined
}

/// Whether a planted fragment re-enters for chained claims: derived
/// understanding never does, nor does anything at the depth cap or past the
/// crawl depth.
pub open spec fn reenters(
    fragment: NewFragment,
    depth: nat,
    hops: nat,
    limits: PlanLimits,
) -> bool {
    !fragment.mimetype.inseam_defined && depth < limits.max_depth && hops
        <= limits.max_reference_hops
}

/// The hops of a fragment: one more than its parent's when it has a content
/// reference of its own.
pub open spec fn hops_of(parent_hops: nat, fragment: NewFragment) -> nat {
    if fragment.content_address is Some {
        parent_hops + 1
    } else {
        parent_hops
    }
}

impl Plot {
    /// The node the next fragment gets.
    pub open spec fn next_node(self) -> PlanNode {
        PlanNode::Fragment(self.fragments.len() as u32)
    }

    /// The plot with one more fragment.
    pub open spec fn pushed(
        self,
        parent: PlanNode,
        relation: String,
        fragment: NewFragment,
        depth: nat,
        hops: nat,
        limits: PlanLimits,
    ) -> Plot {
        Plot {
            fragments: self.fragments.push(PlannedFragment { parent, relation, fragment }),
            texted: if carries_text(fragment) {
                self.texted.push((self.next_node(), fragment.text->0))
            } else {
                self.texted
            },
            inventory: if lists(self.inventory, fragment.mimetype.essence@, false) {
                self.inventory
            } else {
                self.inventory.push(
                    InventoryEntry { mimetype: fragment.mimetype.essence, is_root: false },
                )
            },
            queue: if reenters(fragment, depth, hops, limits) {
                self.queue.push(
                    WorkItem {
                        node: self.next_node(),
                        mimetype: fragment.mimetype,
                        is_root: false,
                        text: fragment.text,
                        content_address: fragment.content_address,
                        depth: depth as usize,
                        reference_hops: hops as u32,
                    },
                )
            } else {
                self.queue
            },
        }
    }

    /// The plot with a forest planted under `parent`, depth-first in emitted
    /// order.
    pub open spec fn planted(
        self,
        parent: PlanNode,
        parent_depth: nat,
        parent_hops: nat,
        sprouts: Seq<Sprout>,
        limits: PlanLimits,
    ) -> Plot
        decreases sprouts,
    {
        if sprouts.len() == 0 {
            self
        } else {
            let before = self.planted(
                parent,
                parent_depth,
                parent_hops,
                sprouts.drop_last(),
                limits,
            );
            let sprout = sprouts.last();
            let hops = hops_of(parent_hops, sprout.fragment);
            before.pushed(
                parent,
                sprout.relation,
                sprout.fragment,
                parent_depth + 1,
                hops,
                limits,
            ).planted(before.next_node(), parent_depth + 1, hops, sprout.children@, limits)
        }
    }
}

/// How many fragments a forest holds.
pub open spec fn count(sprouts: Seq<Sprout>) -> nat
    decreases sprouts,
{
    if sprouts.len() == 0 {
        0
    } else {
        count(sprouts.drop_last()) + 1 + count(sprouts.last().children@)
    }
}

/// Whether a node stands among the first `n` fragments or is the root.
pub open spec fn known(node: PlanNode, n: nat) -> bool {
    match node {
        PlanNode::Root => true,
        PlanNode::Fragment(index) => index < n,
    }
}

/// Whether every fragment's parent stands before it.
pub open spec fn well_ordered(fragments: Seq<PlannedFragment>) -> bool {
    forall|i: int| 0 <= i < fragments.len() ==> known((#[trigger] fragments[i]).parent, i as nat)
}

impl Plot {
    /// What every step of planning keeps: parents stand before children;
    /// everything queued is the root or a planted fragment within the caps,
    /// no deeper than there are fragments and with no more hops than depth;
    /// and text sites are planted fragments with text of their own.
    pub open spec fn wf(self, limits: PlanLimits) -> bool {
        &&& well_ordered(self.fragments)
        &&& forall|i: int|
            0 <= i < self.queue.len() ==> item_wf(
                #[trigger] self.queue[i],
                self.fragments.len(),
                limits,
            )
        &&& forall|i: int|
            0 <= i < self.texted.len() ==> text_site(#[trigger] self.texted[i], self.fragments)
        &&& forall|i: int, j: int|
            0 <= i < j < self.inventory.len() ==> (#[trigger] self.inventory[i]).mimetype@ != (
            #[trigger] self.inventory[j]).mimetype@ || self.inventory[i].is_root
                != self.inventory[j].is_root
    }
}

/// Whether a text site is a planted fragment that carries source text.
pub open spec fn text_site(site: (PlanNode, String), fragments: Seq<PlannedFragment>) -> bool {
    match site.0 {
        PlanNode::Root => false,
        PlanNode::Fragment(index) => index < fragments.len() && carries_text(
            fragments[index as int].fragment,
        ) && fragments[index as int].fragment.text == Some(site.1),
    }
}

/// Whether a queued item is the root or a planted fragment within the caps.
pub open spec fn item_wf(item: WorkItem, fragments: nat, limits: PlanLimits) -> bool {
    &&& known(item.node, fragments)
    &&& item.depth <= fragments
    &&& item.reference_hops <= item.depth
    &&& if item.is_root {
        item.node == PlanNode::Root && item.depth == 0 && item.content_address is None
    } else {
        item.node != PlanNode::Root && !item.mimetype.inseam_defined && item.depth
            < limits.max_depth && item.reference_hops <= limits.max_reference_hops
    }
}

proof fn lemma_pushed_wf(
    plot: Plot,
    parent: PlanNode,
    relation: String,
    fragment: NewFragment,
    depth: nat,
    hops: nat,
    limits: PlanLimits,
)
    requires
        plot.wf(limits),
        known(parent, plot.fragments.len()),
        plot.fragments.len() < u32::MAX,
        depth <= plot.fragments.len() + 1 <= usize::MAX,
        hops <= depth,
    ensures
        plot.pushed(parent, relation, fragment, depth, hops, limits).wf(limits),
{
    let after = plot.pushed(parent, relation, fragment, depth, hops, limits);
    assert forall|i: int| 0 <= i < after.fragments.len() implies known(
        (#[trigger] after.fragments[i]).parent,
        i as nat,
    ) by {
        if i < plot.fragments.len() {
            assert(after.fragments[i] == plot.fragments[i]);
        }
    }
    assert forall|i: int| 0 <= i < after.queue.len() implies item_wf(
        #[trigger] after.queue[i],
        after.fragments.len(),
        limits,
    ) by {
        if i < plot.queue.len() {
            assert(after.queue[i] == plot.queue[i]);
        }
    }
    assert forall|i: int| 0 <= i < after.texted.len() implies text_site(
        #[trigger] after.texted[i],
        after.fragments,
    ) by {
        if i < plot.texted.len() {
            assert(after.texted[i] == plot.texted[i]);
            assert(text_site(plot.texted[i], plot.fragments));
        }
    }
    assert forall|i: int, j: int| 0 <= i < j < after.inventory.len() implies (
    #[trigger] after.inventory[i]).mimetype@ != (#[trigger] after.inventory[j]).mimetype@
        || after.inventory[i].is_root != after.inventory[j].is_root by {
        assert(after.inventory[i] == plot.inventory[i]);
        if j < plot.inventory.len() {
            assert(after.inventory[j] == plot.inventory[j]);
        }
    }
}

/// Planting keeps the plot well formed, adds exactly the forest's fragments,
/// and queues no more items than it adds.
proof fn lemma_planted(
    plot: Plot,
    parent: PlanNode,
    parent_depth: nat,
    parent_hops: nat,
    sprouts: Seq<Sprout>,
    limits: PlanLimits,
)
    requires
        plot.wf(limits),
        known(parent, plot.fragments.len()),
        plot.fragments.len() + count(sprouts) <= u32::MAX,
        parent_depth <= plot.fragments.len(),
        parent_hops <= parent_depth,
    ensures
        ({
            let after = plot.planted(parent, parent_depth, parent_hops, sprouts, limits);
            &&& after.wf(limits)
            &&& after.fragments.len() == plot.fragments.len() + count(sprouts)
            &&& after.queue.len() <= plot.queue.len() + count(sprouts)
            &&& plot.queue.len() <= after.queue.len()
        }),
    decreases sprouts,
{
    if sprouts.len() > 0 {
        lemma_planted(
            plot,
            parent,
            parent_depth,
            parent_hops,
            sprouts.drop_last(),
            limits,
        );
        let before = plot.planted(
            parent,
            parent_depth,
            parent_hops,
            sprouts.drop_last(),
            limits,
        );
        let sprout = sprouts.last();
        let hops = hops_of(parent_hops, sprout.fragment);
        lemma_pushed_wf(
            before,
            parent,
            sprout.relation,
            sprout.fragment,
            parent_depth + 1,
            hops,
            limits,
        );
        let grown = before.pushed(
            parent,
            sprout.relation,
            sprout.fragment,
            parent_depth + 1,
            hops,
            limits,
        );
        lemma_planted(
            grown,
            before.next_node(),
            parent_depth + 1,
            hops,
            sprout.children@,
            limits,
        );
    }
}

/// The budget one transform's output is pruned to.
#[derive(Debug, Clone, Copy, PartialEq, Eq)]
pub struct DecomposeBudget {
    pub max_depth: usize,
    pub max_fragments: usize,
}

/// What the plan under construction holds.
#[verifier::ext_equal]
pub struct BuildView {
    pub limits: PlanLimits,
    pub root_mimetype: Mimetype,
    pub plot: Plot,
    /// Keyed sprouts wait until the whole subtree is planted; each remembers
    /// its input.
    pub keyed: Seq<(PlanNode, KeyedSprout)>,
    pub budget: nat,
    pub stats: PlanStats,
    pub cache_entries: Seq<(String, String)>,
    /// Items taken from the queue.
    pub served: nat,
}

impl BuildView {
    /// What every step of planning keeps: the plot's own invariant, the
    /// fragment cap, and a work queue that never outgrows it.
    pub open spec fn wf(self) -> bool {
        &&& self.plot.wf(self.limits)
        &&& self.plot.fragments.len() < u32::MAX
        &&& self.plot.fragments.len() + self.budget == self.limits.max_fragments_per_source
        &&& self.served + self.plot.queue.len() <= 1 + self.plot.fragments.len()
    }

    /// The build after an output is absorbed for `item`.
    pub open spec fn absorbed(
        self,
        item: WorkItem,
        sprouts: Seq<Sprout>,
        keyed: Seq<KeyedSprout>,
        provenance: Provenance,
    ) -> BuildView {
        BuildView {
            plot: self.plot.planted(
                item.node,
                item.depth as nat,
                item.reference_hops as nat,
                sprouts,
                self.limits,
            ),
            keyed: self.keyed + Seq::new(keyed.len(), |i: int| (item.node, keyed[i])),
            budget: (self.budget - count(sprouts)) as nat,
            stats: if provenance is Reused {
                PlanStats {
                    transforms_reused: (self.stats.transforms_reused + 1) as usize,
                    ..self.stats
                }
            } else {
                self.stats
            },
            cache_entries: match provenance {
                Provenance::Applied(Some(entry)) => self.cache_entries.push(entry),
                _ => self.cache_entries,
            },
            ..self
        }
    }
}

/// How many of the first items of a queue are derived understanding.
pub open spec fn derived_ahead(queue: Seq<WorkItem>) -> nat
    decreases queue.len(),
{
    if queue.len() > 0 && queue[0].mimetype.inseam_defined {
        1 + derived_ahead(queue.skip(1))
    } else {
        0
    }
}

/// What kind of summary a sprout is.
#[derive(Debug, Clone, Copy, PartialEq, Eq)]
pub enum SummaryVia {
    Llm,
    Envelope,
    Extractive,
}

/// What kind of summary a fragment is, if it is one.
pub open spec fn summary_via(mimetype: Mimetype) -> Option<SummaryVia> {
    if !mimetype.summary {
        None
    } else if source::text_view(mimetype.via) == Some("llm"@) {
        Some(SummaryVia::Llm)
    } else if source::text_view(mimetype.via) == Some("envelope"@) {
        Some(SummaryVia::Envelope)
    } else {
        Some(SummaryVia::Extractive)
    }
}

fn via_of(mimetype: &Mimetype) -> (r: Option<SummaryVia>)
    ensures
        r == summary_via(*mimetype),
{
    if !mimetype.summary {
        return None;
    }
    match &mimetype.via {
        Some(via) => {
            if text::same(via.as_str(), "llm") {
                Some(SummaryVia::Llm)
            } else if text::same(via.as_str(), "envelope") {
                proof {
                    reveal_strlit("llm");
                    reveal_strlit("envelope");
                }
                Some(SummaryVia::Envelope)
            } else {
                Some(SummaryVia::Extractive)
            }
        },
        None => Some(SummaryVia::Extractive),
    }
}

/// How many of a forest's trees are summaries of a kind.
pub open spec fn summaries(sprouts: Seq<Sprout>, via: SummaryVia) -> nat
    decreases sprouts.len(),
{
    if sprouts.len() == 0 {
        0
    } else {
        summaries(sprouts.drop_last(), via) + if summary_via(sprouts.last().fragment.mimetype)
            == Some(via) {
            1nat
        } else {
            0
        }
    }
}

/// The plan under construction.
pub struct SubtreeBuild {
    limits: PlanLimits,
    root_mimetype: Mimetype,
    fragments: Vec<PlannedFragment>,
    keyed: Vec<(PlanNode, KeyedSprout)>,
    texted: Vec<(PlanNode, String)>,
    inventory: Vec<InventoryEntry>,
    queue: VecDeque<WorkItem>,
    budget: usize,
    stats: PlanStats,
    cache_entries: Vec<(String, String)>,
    served: Ghost<nat>,
}

impl View for SubtreeBuild {
    type V = BuildView;

    closed spec fn view(&self) -> BuildView {
        BuildView {
            limits: self.limits,
            root_mimetype: self.root_mimetype,
            plot: Plot {
                fragments: self.fragments@,
                texted: self.texted@,
                inventory: self.inventory@,
                queue: self.queue@,
            },
            keyed: self.keyed@,
            budget: self.budget as nat,
            stats: self.stats,
            cache_entries: self.cache_entries@,
            served: self.served@,
        }
    }
}

impl SubtreeBuild {
    /// A plan that holds the root alone, queued for its claimants.
    pub fn new(root_mimetype: &Mimetype, content: &Option<String>, limits: PlanLimits) -> (r: SubtreeBuild)
        ensures
            r@ == (BuildView {
                limits,
                root_mimetype: *root_mimetype,
                plot: Plot {
                    fragments: Seq::empty(),
                    texted: Seq::empty(),
                    inventory: seq![
                        InventoryEntry { mimetype: root_mimetype.essence, is_root: true },
                    ],
                    queue: seq![
                        WorkItem {
                            node: PlanNode::Root,
                            mimetype: *root_mimetype,
                            is_root: true,
                            text: *content,
                            content_address: None,
                            depth: 0,
                            reference_hops: 0,
                        },
                    ],
                },
                keyed: Seq::empty(),
                budget: limits.max_fragments_per_source as nat,
                stats: PlanStats {
                    llm_summaries: 0,
                    extractive_summaries: 0,
                    envelope_summaries: 0,
                    transforms_reused: 0,
                },
                cache_entries: Seq::empty(),
                served: 0,
            }),
            r@.wf(),
    {
        let mut inventory: Vec<InventoryEntry> = Vec::new();
        inventory.push(InventoryEntry { mimetype: root_mimetype.essence.clone(), is_root: true });
        let mut queue: VecDeque<WorkItem> = VecDeque::new();
        queue.push_back(
            WorkItem {
                node: PlanNode::Root,
                mimetype: root_mimetype.copy(),
                is_root: true,
                text: source::copy_text(content),
                content_address: None,
                depth: 0,
                reference_hops: 0,
            },
        );
        let build = SubtreeBuild {
            limits,
            root_mimetype: root_mimetype.copy(),
            fragments: Vec::new(),
            keyed: Vec::new(),
            texted: Vec::new(),
            inventory,
            queue,
            budget: limits.max_fragments_per_source,
            stats: PlanStats {
                llm_summaries: 0,
                extractive_summaries: 0,
                envelope_summaries: 0,
                transforms_reused: 0,
            },
            cache_entries: Vec::new(),
            served: Ghost(0),
        };
        proof {
            assert(build@.plot.queue =~= seq![build@.plot.queue[0]]);
            assert(build@.plot.inventory =~= seq![build@.plot.inventory[0]]);
        }
        build
    }

    /// The next item to apply transforms to. Derived understanding is never
    /// source content, so transforms do not see it whatever they claim.
    pub fn next(&mut self) -> (r: Option<WorkItem>)
        requires
            old(self)@.wf(),
        ensures
            ({
                let queue = old(self)@.plot.queue;
                let ahead = derived_ahead(queue);
                let taken: nat = if ahead < queue.len() {
                    ahead + 1
                } else {
                    ahead
                };
                &&& r is Some <==> ahead < queue.len()
                &&& r matches Some(item) ==> item == queue[ahead as int]
                &&& final(self)@ == (BuildView {
                    plot: Plot { queue: queue.skip(taken as int), ..old(self)@.plot },
                    served: old(self)@.served + taken,
                    ..old(self)@
                })
            }),
            final(self)@.wf(),
            r matches Some(item) ==> !item.mimetype.inseam_defined && item_wf(
                item,
                final(self)@.plot.fragments.len(),
                final(self)@.limits,
            ),
    {
        let ghost whole = self@.plot.queue;
        let ghost start = self@;
        let ghost mut skipped: nat = 0;
        proof {
            assert(whole.skip(0) =~= whole);
        }
        loop
            invariant
                self@.wf(),
                start == old(self)@,
                whole == start.plot.queue,
                skipped <= whole.len(),
                derived_ahead(whole) == skipped + derived_ahead(whole.skip(skipped as int)),
                self@ == (BuildView {
                    plot: Plot { queue: whole.skip(skipped as int), ..start.plot },
                    served: start.served + skipped,
                    ..start
                }),
            decreases whole.len() - skipped,
        {
            let ghost rest = whole.skip(skipped as int);
            let ghost before = self@;
            match self.queue.pop_front() {
                None => {
                    proof {
                        assert(self@ =~= before);
                    }
                    return None;
                },
                Some(item) => {
                    self.served = Ghost((self.served@ + 1) as nat);
                    proof {
                        assert(rest[0] == item);
                        assert(item == whole[skipped as int]);
                        assert(self@.plot.queue =~= whole.skip(skipped as int + 1));
                        assert(rest.skip(1) =~= whole.skip(skipped as int + 1));
                        assert forall|i: int| 0 <= i < self@.plot.queue.len() implies item_wf(
                            #[trigger] self@.plot.queue[i],
                            self@.plot.fragments.len(),
                            self@.limits,
                        ) by {
                            assert(self@.plot.queue[i] == before.plot.queue[i + 1]);
                        }
                        assert(item_wf(
                            before.plot.queue[0],
                            before.plot.fragments.len(),
                            before.limits,
                        ));
                        assert(self@.plot.fragments == before.plot.fragments);
                        assert(self@.plot.texted == before.plot.texted);
                        assert(self@.plot.inventory == before.plot.inventory);
                        assert(self@.plot.wf(self@.limits));
                        assert(self@.served + self@.plot.queue.len() == before.served
                            + before.plot.queue.len());
                        assert(self@ =~= (BuildView {
                            plot: Plot { queue: whole.skip(skipped as int + 1), ..start.plot },
                            served: (start.served + skipped + 1) as nat,
                            ..start
                        }));
                    }
                    if !item.mimetype.inseam_defined {
                        return Some(item);
                    }
                    proof {
                        skipped = skipped + 1;
                    }
                },
            }
        }
    }

    /// What an output for `item` is pruned to: the depth left below it, at
    /// least one, and the fragments left for the source.
    pub fn decompose_budget(&self, item: &WorkItem) -> (r: DecomposeBudget)
        ensures
            r.max_fragments == self@.budget,
            r.max_depth == (if item.depth + 1 >= self@.limits.max_depth {
                1
            } else {
                self@.limits.max_depth - item.depth
            }),
    {
        let left: usize = self.limits.max_depth.saturating_sub(item.depth);
        DecomposeBudget {
            max_depth: if left < 1 {
                1
            } else {
                left
            },
            max_fragments: self.budget,
        }
    }

    /// Count the summaries an output brings, before it is pruned.
    pub fn tally_summaries(&mut self, sprouts: &Vec<Sprout>)
        requires
            old(self)@.stats.llm_summaries + sprouts@.len() <= usize::MAX,
            old(self)@.stats.envelope_summaries + sprouts@.len() <= usize::MAX,
            old(self)@.stats.extractive_summaries + sprouts@.len() <= usize::MAX,
        ensures
            final(self)@ == (BuildView {
                stats: PlanStats {
                    llm_summaries: (old(self)@.stats.llm_summaries + summaries(
                        sprouts@,
                        SummaryVia::Llm,
                    )) as usize,
                    envelope_summaries: (old(self)@.stats.envelope_summaries + summaries(
                        sprouts@,
                        SummaryVia::Envelope,
                    )) as usize,
                    extractive_summaries: (old(self)@.stats.extractive_summaries + summaries(
                        sprouts@,
                        SummaryVia::Extractive,
                    )) as usize,
                    ..old(self)@.stats
                },
                ..old(self)@
            }),
    {
        let mut llm: usize = 0;
        let mut envelope: usize = 0;
        let mut extractive: usize = 0;
        let mut i: usize = 0;
        proof {
            assert(sprouts@.take(0) =~= Seq::empty());
        }
        while i < sprouts.len()
            invariant
                i <= sprouts@.len(),
                llm <= i,
                envelope <= i,
                extractive <= i,
                llm == summaries(sprouts@.take(i as int), SummaryVia::Llm),
                envelope == summaries(sprouts@.take(i as int), SummaryVia::Envelope),
                extractive == summaries(sprouts@.take(i as int), SummaryVia::Extractive),
            decreases sprouts@.len() - i,
        {
            proof {
                assert(sprouts@.take(i as int + 1).drop_last() =~= sprouts@.take(i as int));
                assert(sprouts@.take(i as int + 1).last() == sprouts@[i as int]);
            }
            match via_of(&sprouts[i].fragment.mimetype) {
                Some(SummaryVia::Llm) => llm = llm + 1,
                Some(SummaryVia::Envelope) => envelope = envelope + 1,
                Some(SummaryVia::Extractive) => extractive = extractive + 1,
                None => {},
            }
            i = i + 1;
        }
        proof {
            assert(sprouts@.take(sprouts@.len() as int) =~= sprouts@);
        }
        self.stats = PlanStats {
            llm_summaries: self.stats.llm_summaries + llm,
            envelope_summaries: self.stats.envelope_summaries + envelope,
            extractive_summaries: self.stats.extractive_summaries + extractive,
            transforms_reused: self.stats.transforms_reused,
        };
    }

    /// The mimetypes the subtree holds so far.
    pub fn inventory(&self) -> (r: &Vec<InventoryEntry>)
        ensures
            r@ == self@.plot.inventory,
    {
        &self.inventory
    }

    fn is_listed(&self, essence: &str) -> (r: bool)
        ensures
            r == lists(self@.plot.inventory, essence@, false),
    {
        let mut i: usize = 0;
        while i < self.inventory.len()
            invariant
                i <= self.inventory@.len(),
                forall|j: int|
                    0 <= j < i ==> !((#[trigger] self.inventory@[j]).mimetype@ == essence@
                        && self.inventory@[j].is_root == false),
            decreases self.inventory@.len() - i,
        {
            if !self.inventory[i].is_root && text::same(
                self.inventory[i].mimetype.as_str(),
                essence,
            ) {
                proof {
                    assert(self@.plot.inventory[i as int].mimetype@ == essence@);
                }
                return true;
            }
            i = i + 1;
        }
        false
    }

    fn push_fragment(
        &mut self,
        parent: PlanNode,
        relation: String,
        fragment: NewFragment,
        depth: usize,
        reference_hops: u32,
    ) -> (r: PlanNode)
        requires
            old(self)@.plot.fragments.len() < u32::MAX,
        ensures
            r == old(self)@.plot.next_node(),
            final(self)@ == (BuildView {
                plot: old(self)@.plot.pushed(
                    parent,
                    relation,
                    fragment,
                    depth as nat,
                    reference_hops as nat,
                    old(self)@.limits,
                ),
                ..old(self)@
            }),
    {
        let ghost start = self@;
        let node = PlanNode::Fragment(self.fragments.len() as u32);
        if !self.is_listed(fragment.mimetype.essence.as_str()) {
            self.inventory.push(
                InventoryEntry { mimetype: fragment.mimetype.essence.clone(), is_root: false },
            );
        }
        let is_derived = fragment.mimetype.inseam_defined;
        if let Some(held) = &fragment.text {
            if text::trim(held.as_str()).as_str().unicode_len() > 0 && !is_derived {
                self.texted.push((node, held.clone()));
            }
        }
        let within_depth = depth < self.limits.max_depth;
        let within_hops = reference_hops <= self.limits.max_reference_hops;
        if !is_derived && within_depth && within_hops {
            let content_address = match &fragment.content_address {
                Some(address) => Some(address.copy()),
                None => None,
            };
            self.queue.push_back(
                WorkItem {
                    node,
                    mimetype: fragment.mimetype.copy(),
                    is_root: false,
                    text: source::copy_text(&fragment.text),
                    content_address,
                    depth,
                    reference_hops,
                },
            );
        }
        self.fragments.push(PlannedFragment { parent, relation, fragment });
        proof {
            assert(self@ =~= (BuildView {
                plot: start.plot.pushed(
                    parent,
                    relation,
                    fragment,
                    depth as nat,
                    reference_hops as nat,
                    start.limits,
                ),
                ..start
            }));
        }
        node
    }

    fn plant(
        &mut self,
        parent: PlanNode,
        parent_depth: usize,
        parent_hops: u32,
        sprouts: Vec<Sprout>,
    )
        requires
            old(self)@.plot.wf(old(self)@.limits),
            known(parent, old(self)@.plot.fragments.len()),
            old(self)@.plot.fragments.len() + count(sprouts@) < u32::MAX,
            parent_depth <= old(self)@.plot.fragments.len(),
            parent_hops <= parent_depth,
        ensures
            final(self)@ == (BuildView {
                plot: old(self)@.plot.planted(
                    parent,
                    parent_depth as nat,
                    parent_hops as nat,
                    sprouts@,
                    old(self)@.limits,
                ),
                ..old(self)@
            }),
            final(self)@.plot.wf(final(self)@.limits),
            final(self)@.plot.fragments.len() == old(self)@.plot.fragments.len() + count(sprouts@),
        decreases sprouts,
    {
        let ghost start = self@;
        let ghost all = sprouts@;
        proof {
            assert(all.take(0) =~= Seq::empty());
            assert(start == (BuildView { plot: start.plot, ..start }));
        }
        for sprout in it: sprouts
            invariant
                it.seq() == all,
                all == sprouts@,
                start.plot.wf(start.limits),
                known(parent, start.plot.fragments.len()),
                start.plot.fragments.len() + count(all) < u32::MAX,
                parent_depth <= start.plot.fragments.len(),
                parent_hops <= parent_depth,
                self@ == (BuildView {
                    plot: start.plot.planted(
                        parent,
                        parent_depth as nat,
                        parent_hops as nat,
                        all.take(it.index()),
                        start.limits,
                    ),
                    ..start
                }),
                self@.plot.wf(self@.limits),
                self@.plot.fragments.len() == start.plot.fragments.len() + count(
                    all.take(it.index()),
                ),
        {
            proof {
                let now = all.take(it.index() + 1);
                assert(now.drop_last() =~= all.take(it.index()));
                assert(now.last() == sprout);
                lemma_count_of_prefix(all, it.index() + 1);
                assert(all[it.index()] == sprout);
                lemma_pushed_wf(
                    self@.plot,
                    parent,
                    sprout.relation,
                    sprout.fragment,
                    (parent_depth + 1) as nat,
                    hops_of(parent_hops as nat, sprout.fragment),
                    start.limits,
                );
            }
            let hops: u32 = if sprout.fragment.content_address.is_some() {
                parent_hops + 1
            } else {
                parent_hops
            };
            let node = self.push_fragment(
                parent,
                sprout.relation,
                sprout.fragment,
                parent_depth + 1,
                hops,
            );
            proof {
                assert(decreases_to!(sprouts => sprouts@[it.index()]));
            }
            self.plant(node, parent_depth + 1, hops, sprout.children);
        }
        proof {
            assert(all.take(all.len() as int) =~= all);
        }
    }

    /// Take one transform's output for `item`: note its provenance, plant the
    /// pruned sprout forest, and hold the keyed sprouts.
    pub fn absorb(
        &mut self,
        item: &WorkItem,
        sprouts: Vec<Sprout>,
        keyed: Vec<KeyedSprout>,
        provenance: Provenance,
    )
        requires
            old(self)@.wf(),
            item_wf(*item, old(self)@.plot.fragments.len(), old(self)@.limits),
            count(sprouts@) <= old(self)@.budget,
            old(self)@.plot.fragments.len() + count(sprouts@) < u32::MAX,
            old(self)@.stats.transforms_reused < usize::MAX,
        ensures
            final(self)@ == old(self)@.absorbed(*item, sprouts@, keyed@, provenance),
            final(self)@.wf(),
    {
        let ghost start = self@;
        let planted: usize = count_all(&sprouts);
        match provenance {
            Provenance::Reused => {
                self.stats = PlanStats {
                    transforms_reused: self.stats.transforms_reused + 1,
                    llm_summaries: self.stats.llm_summaries,
                    extractive_summaries: self.stats.extractive_summaries,
                    envelope_summaries: self.stats.envelope_summaries,
                };
            },
            Provenance::Applied(Some(entry)) => self.cache_entries.push(entry),
            Provenance::Applied(None) => {},
        }
        self.budget = self.budget - planted;
        proof {
            lemma_planted(
                start.plot,
                item.node,
                item.depth as nat,
                item.reference_hops as nat,
                sprouts@,
                start.limits,
            );
        }
        self.plant(item.node, item.depth, item.reference_hops, sprouts);
        let ghost held = self.keyed@;
        let ghost brought = keyed@;
        let ghost between = self@;
        for sprout in it: keyed
            invariant
                it.seq() == brought,
                self@ == (BuildView {
                    keyed: held + Seq::new(
                        it.index() as nat,
                        |i: int| (item.node, brought[i]),
                    ),
                    ..between
                }),
                held == between.keyed,
        {
            let ghost before = self@;
            self.keyed.push((item.node, sprout));
            proof {
                assert(self@ =~= (BuildView {
                    keyed: held + Seq::new(
                        (it.index() + 1) as nat,
                        |i: int| (item.node, brought[i]),
                    ),
                    ..between
                }));
            }
        }
        proof {
            assert(self@ =~= start.absorbed(*item, sprouts@, brought, provenance));
        }
    }

    /// The finished plan: keyed sprouts anchored, the root's extent taken
    /// from the content's length.
    pub fn finish(self, address: Address, envelope: Envelope, raw_bytes: u64, stamp: String) -> (r:
        Planned)
        requires
            self@.wf(),
        ensures
            r.plan.address == address,
            r.plan.envelope == envelope,
            r.plan.raw_bytes == raw_bytes,
            r.plan.root == (NewFragment {
                mimetype: self@.root_mimetype,
                text: None,
                extent: Some(source::whole_extent(envelope.length)),
                content_address: None,
            }),
            r.plan.fragments@ == self@.plot.fragments,
            well_ordered(r.plan.fragments@),
            r.plan.fragments@.len() <= self@.limits.max_fragments_per_source,
            r.plan.keyed@.len() == self@.keyed.len(),
            forall|i: int|
                0 <= i < self@.keyed.len() ==> anchored(
                    #[trigger] r.plan.keyed@[i],
                    self@.keyed[i],
                    self@.plot.texted,
                ),
            r.plan.stamp == stamp,
            r.plan.inventory@ == self@.plot.inventory,
            r.stats == self@.stats,
            r.cache_entries@ == self@.cache_entries,
    {
        let ghost held = self.keyed@;
        let ghost texted = self.texted@;
        let mut planned: Vec<PlannedKeyed> = Vec::new();
        let extent = source::root_extent(envelope.length);
        let sites = self.texted;
        for pair in it: self.keyed
            invariant
                it.seq() == held,
                sites@ == texted,
                planned@.len() == it.index(),
                forall|i: int|
                    0 <= i < it.index() ==> anchored(#[trigger] planned@[i], held[i], texted),
        {
            let anchors = anchors_for(&pair.1.anchor, pair.0, &sites);
            planned.push(
                PlannedKeyed {
                    key: pair.1.key,
                    fragment: pair.1.fragment,
                    relation: pair.1.relation,
                    anchors,
                },
            );
        }
        Planned {
            plan: SubtreePlan {
                address,
                envelope,
                raw_bytes,
                root: NewFragment {
                    mimetype: self.root_mimetype,
                    text: None,
                    extent: Some(extent),
                    content_address: None,
                },
                fragments: self.fragments,
                keyed: planned,
                stamp,
                inventory: self.inventory,
            },
            stats: self.stats,
            cache_entries: self.cache_entries,
        }
    }
}

proof fn lemma_count_of_prefix(sprouts: Seq<Sprout>, n: int)
    requires
        0 <= n <= sprouts.len(),
    ensures
        count(sprouts.take(n)) <= count(sprouts),
    decreases sprouts.len() - n,
{
    if n < sprouts.len() {
        lemma_count_of_prefix(sprouts, n + 1);
        assert(sprouts.take(n + 1).drop_last() =~= sprouts.take(n));
    } else {
        assert(sprouts.take(n) =~= sprouts);
    }
}

/// How many fragments a forest holds.
pub fn count_all(sprouts: &Vec<Sprout>) -> (r: usize)
    requires
        count(sprouts@) <= usize::MAX,
    ensures
        r == count(sprouts@),
    decreases sprouts,
{
    let mut total: usize = 0;
    let mut i: usize = 0;
    proof {
        assert(sprouts@.take(0) =~= Seq::empty());
    }
    while i < sprouts.len()
        invariant
            i <= sprouts@.len(),
            total == count(sprouts@.take(i as int)),
            count(sprouts@) <= usize::MAX,
        decreases sprouts@.len() - i,
    {
        proof {
            let now = sprouts@.take(i as int + 1);
            assert(now.drop_last() =~= sprouts@.take(i as int));
            assert(now.last() == sprouts@[i as int]);
            lemma_count_of_prefix(sprouts@, i as int + 1);
            assert(decreases_to!(sprouts => sprouts@[i as int]));
        }
        let below: usize = count_all(&sprouts[i].children);
        total = total + 1 + below;
        i = i + 1;
    }
    proof {
        assert(sprouts@.take(sprouts@.len() as int) =~= sprouts@);
    }
    total
}

// --- Anchors ---

/// The sites whose text holds `needle`, whatever its case, in order.
pub open spec fn sites_with(texted: Seq<(PlanNode, String)>, needle: Seq<char>) -> Seq<PlanNode>
    decreases texted.len(),
{
    if texted.len() == 0 {
        Seq::empty()
    } else if text::contains(text::lowercase(texted.last().1@), text::lowercase(needle)) {
        sites_with(texted.drop_last(), needle).push(texted.last().0)
    } else {
        sites_with(texted.drop_last(), needle)
    }
}

/// The fragments an anchor resolves to.
pub open spec fn anchor_nodes(
    anchor: Anchor,
    input: PlanNode,
    texted: Seq<(PlanNode, String)>,
) -> Seq<PlanNode> {
    match anchor {
        Anchor::Input => seq![input],
        Anchor::TextContaining(needle) => if sites_with(texted, needle@).len() == 0 {
            seq![input]
        } else {
            sites_with(texted, needle@)
        },
    }
}

/// Whether a planned keyed fragment is a held sprout, anchored.
pub open spec fn anchored(
    planned: PlannedKeyed,
    held: (PlanNode, KeyedSprout),
    texted: Seq<(PlanNode, String)>,
) -> bool {
    &&& planned.key == held.1.key
    &&& planned.fragment == held.1.fragment
    &&& planned.relation == held.1.relation
    &&& planned.anchors@ == anchor_nodes(held.1.anchor, held.0, texted)
    &&& planned.anchors@.len() > 0
}

/// The fragments a keyed sprout's anchor resolves to within one source: the
/// input fragment, or every text-bearing source-content fragment whose text
/// contains the needle (case-insensitive), falling back to the input when
/// none does, so an emission is never silently dropped.
pub fn anchors_for(anchor: &Anchor, input: PlanNode, texted: &Vec<(PlanNode, String)>) -> (r: Vec<
    PlanNode,
>)
    ensures
        r@ == anchor_nodes(*anchor, input, texted@),
        r@.len() > 0,
{
    let mut hits: Vec<PlanNode> = Vec::new();
    match anchor {
        Anchor::Input => {},
        Anchor::TextContaining(needle) => {
            let lowered = needle.as_str().to_lowercase();
            let mut i: usize = 0;
            proof {
                assert(texted@.take(0) =~= Seq::empty());
            }
            while i < texted.len()
                invariant
                    i <= texted@.len(),
                    lowered@ == text::lowercase(needle@),
                    hits@ == sites_with(texted@.take(i as int), needle@),
                decreases texted@.len() - i,
            {
                proof {
                    assert(texted@.take(i as int + 1).drop_last() =~= texted@.take(i as int));
                    assert(texted@.take(i as int + 1).last() == texted@[i as int]);
                }
                let site = texted[i].1.as_str().to_lowercase();
                if text::finds(site.as_str(), lowered.as_str()) {
                    hits.push(texted[i].0);
                }
                i = i + 1;
            }
            proof {
                assert(texted@.take(texted@.len() as int) =~= texted@);
            }
        },
    }
    if hits.len() == 0 {
        hits.push(input);
        proof {
            assert(hits@ =~= seq![input]);
        }
    }
    hits
}

// --- What planning promises ---

/// A reference past the crawl depth is planted but never followed, and
/// neither is derived understanding nor anything at the depth cap: nothing
/// absorbing an output adds to the queue is any of these.
pub proof fn law_nothing_past_the_caps_is_followed(
    build: BuildView,
    item: WorkItem,
    sprouts: Seq<Sprout>,
    keyed: Seq<KeyedSprout>,
    provenance: Provenance,
    i: int,
)
    requires
        build.wf(),
        item_wf(item, build.plot.fragments.len(), build.limits),
        count(sprouts) <= build.budget,
        build.plot.fragments.len() + count(sprouts) < u32::MAX,
        0 <= i < build.absorbed(item, sprouts, keyed, provenance).plot.queue.len(),
    ensures
        ({
            let queued = build.absorbed(item, sprouts, keyed, provenance).plot.queue[i];
            !queued.is_root ==> !queued.mimetype.inseam_defined && queued.depth
                < build.limits.max_depth && queued.reference_hops
                <= build.limits.max_reference_hops
        }),
{
    lemma_planted(
        build.plot,
        item.node,
        item.depth as nat,
        item.reference_hops as nat,
        sprouts,
        build.limits,
    );
    let after = build.absorbed(item, sprouts, keyed, provenance);
    assert(item_wf(after.plot.queue[i], after.plot.fragments.len(), after.limits));
}

/// The fragment cap holds and the work is finite: however outputs are
/// absorbed, a source never has more fragments than the cap, and the items
/// ever queued are at most one more.
pub proof fn law_planning_is_bounded(build: BuildView)
    requires
        build.wf(),
    ensures
        build.plot.fragments.len() <= build.limits.max_fragments_per_source,
        build.served + build.plot.queue.len() <= build.limits.max_fragments_per_source + 1,
{
}

/// Planting adds exactly the forest, in order behind what was there.
pub proof fn law_planting_only_adds(
    plot: Plot,
    parent: PlanNode,
    parent_depth: nat,
    parent_hops: nat,
    sprouts: Seq<Sprout>,
    limits: PlanLimits,
)
    ensures
        ({
            let after = plot.planted(parent, parent_depth, parent_hops, sprouts, limits);
            &&& after.fragments.len() == plot.fragments.len() + count(sprouts)
            &&& plot.fragments == after.fragments.take(plot.fragments.len() as int)
        }),
    decreases sprouts,
{
    let after = plot.planted(parent, parent_depth, parent_hops, sprouts, limits);
    if sprouts.len() > 0 {
        law_planting_only_adds(
            plot,
            parent,
            parent_depth,
            parent_hops,
            sprouts.drop_last(),
            limits,
        );
        let before = plot.planted(
            parent,
            parent_depth,
            parent_hops,
            sprouts.drop_last(),
            limits,
        );
        let sprout = sprouts.last();
        let hops = hops_of(parent_hops, sprout.fragment);
        let grown = before.pushed(
            parent,
            sprout.relation,
            sprout.fragment,
            parent_depth + 1,
            hops,
            limits,
        );
        law_planting_only_adds(
            grown,
            before.next_node(),
            parent_depth + 1,
            hops,
            sprout.children@,
            limits,
        );
        assert(plot.fragments =~= after.fragments.take(plot.fragments.len() as int)) by {
            assert forall|i: int| 0 <= i < plot.fragments.len() implies plot.fragments[i]
                == after.fragments[i] by {
                assert(before.fragments.take(plot.fragments.len() as int)[i]
                    == before.fragments[i]);
                assert(grown.fragments[i] == before.fragments[i]);
                assert(after.fragments.take(grown.fragments.len() as int)[i]
                    == after.fragments[i]);
            }
        }
    } else {
        assert(plot.fragments =~= after.fragments.take(plot.fragments.len() as int));
    }
}

/// Where the `k`th tree of a forest stands among the forest's fragments.
pub open spec fn place(sprouts: Seq<Sprout>, k: int) -> int {
    count(sprouts.take(k)) as int
}

proof fn lemma_places(sprouts: Seq<Sprout>, k: int)
    requires
        0 <= k < sprouts.len(),
    ensures
        place(sprouts, k + 1) == place(sprouts, k) + 1 + count(sprouts[k].children@),
        place(sprouts, k + 1) <= count(sprouts),
        place(sprouts, sprouts.len() as int) == count(sprouts),
        place(sprouts, 0) == 0,
{
    assert(sprouts.take(k + 1).drop_last() =~= sprouts.take(k));
    assert(sprouts.take(k + 1).last() == sprouts[k]);
    lemma_count_of_prefix(sprouts, k + 1);
    assert(sprouts.take(sprouts.len() as int) =~= sprouts);
    assert(sprouts.take(0) =~= Seq::empty());
}

/// The plots a forest's trees are planted on, one after another: the `k`th
/// tree finds what the trees before it left.
proof fn lemma_tree(
    plot: Plot,
    parent: PlanNode,
    parent_depth: nat,
    parent_hops: nat,
    sprouts: Seq<Sprout>,
    limits: PlanLimits,
    k: int,
)
    requires
        0 <= k < sprouts.len(),
        plot.fragments.len() + count(sprouts) <= u32::MAX,
    ensures
        ({
            let at = plot.fragments.len() + place(sprouts, k);
            let before = plot.planted(parent, parent_depth, parent_hops, sprouts.take(k), limits);
            let hops = hops_of(parent_hops, sprouts[k].fragment);
            let grown = before.pushed(
                parent,
                sprouts[k].relation,
                sprouts[k].fragment,
                parent_depth + 1,
                hops,
                limits,
            );
            let after = plot.planted(parent, parent_depth, parent_hops, sprouts, limits);
            let below = grown.planted(
                PlanNode::Fragment(at as u32),
                parent_depth + 1,
                hops,
                sprouts[k].children@,
                limits,
            );
            &&& before.fragments.len() == at
            &&& after.fragments.len() == plot.fragments.len() + count(sprouts)
            &&& below.fragments.len() == at + 1 + count(sprouts[k].children@)
            &&& after.fragments.take(below.fragments.len() as int) == below.fragments
            &&& below.fragments.take(at + 1) == grown.fragments
        }),
    decreases sprouts.len() - k,
{
    let n = plot.fragments.len() as int;
    let before = plot.planted(parent, parent_depth, parent_hops, sprouts.take(k), limits);
    law_planting_only_adds(plot, parent, parent_depth, parent_hops, sprouts.take(k), limits);
    law_planting_only_adds(plot, parent, parent_depth, parent_hops, sprouts.take(k + 1), limits);
    lemma_places(sprouts, k);
    assert(sprouts.take(k + 1).drop_last() =~= sprouts.take(k));
    assert(sprouts.take(k + 1).last() == sprouts[k]);
    let hops = hops_of(parent_hops, sprouts[k].fragment);
    let grown = before.pushed(
        parent,
        sprouts[k].relation,
        sprouts[k].fragment,
        parent_depth + 1,
        hops,
        limits,
    );
    law_planting_only_adds(
        grown,
        before.next_node(),
        parent_depth + 1,
        hops,
        sprouts[k].children@,
        limits,
    );
    let below = plot.planted(parent, parent_depth, parent_hops, sprouts.take(k + 1), limits);
    let after = plot.planted(parent, parent_depth, parent_hops, sprouts, limits);
    lemma_prefix_stays(plot, parent, parent_depth, parent_hops, sprouts, limits, k + 1);
    law_planting_only_adds(plot, parent, parent_depth, parent_hops, sprouts, limits);
    assert(below == grown.planted(
        PlanNode::Fragment((n + place(sprouts, k)) as u32),
        parent_depth + 1,
        hops,
        sprouts[k].children@,
        limits,
    ));
}

/// The plot a tree's children are planted on: with the trees before it, and
/// its own fragment.
spec fn ground_of(
    plot: Plot,
    parent: PlanNode,
    parent_depth: nat,
    parent_hops: nat,
    sprouts: Seq<Sprout>,
    limits: PlanLimits,
    k: int,
) -> Plot {
    plot.planted(parent, parent_depth, parent_hops, sprouts.take(k), limits).pushed(
        parent,
        sprouts[k].relation,
        sprouts[k].fragment,
        parent_depth + 1,
        hops_of(parent_hops, sprouts[k].fragment),
        limits,
    )
}

/// The fragment of a tree.
proof fn lemma_tree_fragment(
    plot: Plot,
    parent: PlanNode,
    parent_depth: nat,
    parent_hops: nat,
    sprouts: Seq<Sprout>,
    limits: PlanLimits,
    k: int,
)
    requires
        0 <= k < sprouts.len(),
        plot.fragments.len() + count(sprouts) <= u32::MAX,
    ensures
        plot.planted(
            parent,
            parent_depth,
            parent_hops,
            sprouts,
            limits,
        ).fragments[plot.fragments.len() + place(sprouts, k)] == (PlannedFragment {
            parent,
            relation: sprouts[k].relation,
            fragment: sprouts[k].fragment,
        }),
{
    lemma_tree(plot, parent, parent_depth, parent_hops, sprouts, limits, k);
    lemma_places(sprouts, k);
    let at = plot.fragments.len() + place(sprouts, k);
    let after = plot.planted(parent, parent_depth, parent_hops, sprouts, limits).fragments;
    let grown = ground_of(plot, parent, parent_depth, parent_hops, sprouts, limits, k);
    let below = grown.planted(
        PlanNode::Fragment(at as u32),
        parent_depth + 1,
        hops_of(parent_hops, sprouts[k].fragment),
        sprouts[k].children@,
        limits,
    ).fragments;
    assert(after[at] == after.take(below.len() as int)[at]);
    assert(below[at] == below.take(at + 1)[at]);
}

/// The fragments below a tree's.
proof fn lemma_tree_below(
    plot: Plot,
    parent: PlanNode,
    parent_depth: nat,
    parent_hops: nat,
    sprouts: Seq<Sprout>,
    limits: PlanLimits,
    k: int,
    base: Plot,
)
    requires
        0 <= k < sprouts.len(),
        plot.fragments.len() + count(sprouts) <= u32::MAX,
        base.fragments.len() == plot.fragments.len() + place(sprouts, k) + 1,
    ensures
        ({
            let at = plot.fragments.len() + place(sprouts, k);
            plot.planted(
                parent,
                parent_depth,
                parent_hops,
                sprouts,
                limits,
            ).fragments.subrange(at + 1, at + 1 + count(sprouts[k].children@)) == base.planted(
                PlanNode::Fragment(at as u32),
                parent_depth + 1,
                hops_of(parent_hops, sprouts[k].fragment),
                sprouts[k].children@,
                limits,
            ).fragments.skip(at + 1)
        }),
{
    let children = sprouts[k].children@;
    let at = plot.fragments.len() + place(sprouts, k);
    let node = PlanNode::Fragment(at as u32);
    let hops = hops_of(parent_hops, sprouts[k].fragment);
    lemma_tree(plot, parent, parent_depth, parent_hops, sprouts, limits, k);
    lemma_places(sprouts, k);
    let after = plot.planted(parent, parent_depth, parent_hops, sprouts, limits).fragments;
    let grown = ground_of(plot, parent, parent_depth, parent_hops, sprouts, limits, k);
    let below = grown.planted(node, parent_depth + 1, hops, children, limits).fragments;
    lemma_added_alike(grown, base, node, parent_depth + 1, hops, children, limits);
    assert(after.subrange(at + 1, at + 1 + count(children)) =~= below.skip(at + 1)) by {
        assert forall|i: int| 0 <= i < below.len() implies #[trigger] after[i] == below[i] by {
            assert(after.take(below.len() as int)[i] == after[i]);
        }
    }
}

/// The fragment of a tree's child.
proof fn lemma_child_fragment(
    plot: Plot,
    parent: PlanNode,
    parent_depth: nat,
    parent_hops: nat,
    sprouts: Seq<Sprout>,
    limits: PlanLimits,
    k: int,
    c: int,
)
    requires
        0 <= k < sprouts.len(),
        0 <= c < sprouts[k].children@.len(),
        plot.fragments.len() + count(sprouts) <= u32::MAX,
    ensures
        plot.planted(
            parent,
            parent_depth,
            parent_hops,
            sprouts,
            limits,
        ).fragments[plot.fragments.len() + place(sprouts, k) + 1 + place(
            sprouts[k].children@,
            c,
        )] == (PlannedFragment {
            parent: PlanNode::Fragment((plot.fragments.len() + place(sprouts, k)) as u32),
            relation: sprouts[k].children@[c].relation,
            fragment: sprouts[k].children@[c].fragment,
        }),
{
    let children = sprouts[k].children@;
    let at = plot.fragments.len() + place(sprouts, k);
    let node = PlanNode::Fragment(at as u32);
    let hops = hops_of(parent_hops, sprouts[k].fragment);
    lemma_tree(plot, parent, parent_depth, parent_hops, sprouts, limits, k);
    lemma_places(sprouts, k);
    lemma_places(children, c);
    let grown = ground_of(plot, parent, parent_depth, parent_hops, sprouts, limits, k);
    lemma_tree_fragment(grown, node, parent_depth + 1, hops, children, limits, c);
    lemma_tree_below(plot, parent, parent_depth, parent_hops, sprouts, limits, k, grown);
    let after = plot.planted(parent, parent_depth, parent_hops, sprouts, limits).fragments;
    let below = grown.planted(node, parent_depth + 1, hops, children, limits).fragments;
    let i = place(children, c);
    assert(after.subrange(at + 1, at + 1 + count(children))[i] == after[at + 1 + i]);
    assert(below.skip(at + 1)[i] == below[at + 1 + i]);
}

proof fn lemma_prefix_stays(
    plot: Plot,
    parent: PlanNode,
    parent_depth: nat,
    parent_hops: nat,
    sprouts: Seq<Sprout>,
    limits: PlanLimits,
    k: int,
)
    requires
        0 <= k <= sprouts.len(),
    ensures
        ({
            let part = plot.planted(parent, parent_depth, parent_hops, sprouts.take(k), limits);
            let after = plot.planted(parent, parent_depth, parent_hops, sprouts, limits);
            &&& part.fragments.len() <= after.fragments.len()
            &&& after.fragments.take(part.fragments.len() as int) == part.fragments
        }),
    decreases sprouts.len() - k,
{
    let part = plot.planted(parent, parent_depth, parent_hops, sprouts.take(k), limits);
    let after = plot.planted(parent, parent_depth, parent_hops, sprouts, limits);
    if k == sprouts.len() {
        assert(sprouts.take(k) =~= sprouts);
        assert(after.fragments.take(part.fragments.len() as int) =~= part.fragments);
    } else {
        lemma_prefix_stays(plot, parent, parent_depth, parent_hops, sprouts, limits, k + 1);
        assert(sprouts.take(k + 1).drop_last() =~= sprouts.take(k));
        assert(sprouts.take(k + 1).last() == sprouts[k]);
        let hops = hops_of(parent_hops, sprouts[k].fragment);
        let grown = part.pushed(
            parent,
            sprouts[k].relation,
            sprouts[k].fragment,
            parent_depth + 1,
            hops,
            limits,
        );
        let more = plot.planted(parent, parent_depth, parent_hops, sprouts.take(k + 1), limits);
        law_planting_only_adds(
            grown,
            part.next_node(),
            parent_depth + 1,
            hops,
            sprouts[k].children@,
            limits,
        );
        assert(after.fragments.take(part.fragments.len() as int) =~= part.fragments) by {
            assert forall|i: int| 0 <= i < part.fragments.len() implies after.fragments[i]
                == part.fragments[i] by {
                assert(after.fragments.take(more.fragments.len() as int)[i]
                    == after.fragments[i]);
                assert(more.fragments.take(grown.fragments.len() as int)[i]
                    == more.fragments[i]);
                assert(grown.fragments[i] == part.fragments[i]);
            }
        }
    }
}

/// Planting keeps the shape of the forest. Its fragments stand behind those
/// there were, tree after tree, each fragment before those below it: the
/// fragment of every tree has the parent the forest was planted under, with
/// its own relation and content; the fragment of every child of a tree has
/// as its parent the node of that very tree's fragment; and what stands
/// below a tree's fragment is what planting the tree's children under that
/// node gives, so that the same holds all the way down.
pub proof fn law_planting_keeps_the_forest(
    plot: Plot,
    parent: PlanNode,
    parent_depth: nat,
    parent_hops: nat,
    sprouts: Seq<Sprout>,
    limits: PlanLimits,
)
    requires
        plot.fragments.len() + count(sprouts) <= u32::MAX,
    ensures
        ({
            let n = plot.fragments.len() as int;
            let after = plot.planted(parent, parent_depth, parent_hops, sprouts, limits).fragments;
            &&& after.len() == n + count(sprouts)
            &&& after.take(n) == plot.fragments
            &&& forall|k: int|
                0 <= k < sprouts.len() ==> after[n + place(sprouts, k)] == (PlannedFragment {
                    parent,
                    relation: (#[trigger] sprouts[k]).relation,
                    fragment: sprouts[k].fragment,
                })
            &&& forall|k: int, c: int|
                0 <= k < sprouts.len() && 0 <= c < sprouts[k].children@.len() ==> after[n + place(
                    sprouts,
                    k,
                ) + 1 + place(sprouts[k].children@, c)] == (PlannedFragment {
                    parent: PlanNode::Fragment((n + place(sprouts, k)) as u32),
                    relation: (#[trigger] sprouts[k].children@[c]).relation,
                    fragment: sprouts[k].children@[c].fragment,
                })
            &&& forall|k: int, base: Plot|
                0 <= k < sprouts.len() && base.fragments.len() == n + place(sprouts, k) + 1
                    ==> after.subrange(
                    n + place(sprouts, k) + 1,
                    n + place(sprouts, k) + 1 + count(sprouts[k].children@),
                ) == (#[trigger] base.planted(
                    PlanNode::Fragment((n + place(sprouts, k)) as u32),
                    parent_depth + 1,
                    hops_of(parent_hops, sprouts[k].fragment),
                    (#[trigger] sprouts[k]).children@,
                    limits,
                )).fragments.skip(n + place(sprouts, k) + 1)
        }),
{
    let n = plot.fragments.len() as int;
    let after = plot.planted(parent, parent_depth, parent_hops, sprouts, limits).fragments;
    law_planting_only_adds(plot, parent, parent_depth, parent_hops, sprouts, limits);
    assert forall|k: int| 0 <= k < sprouts.len() implies after[n + place(sprouts, k)] == (
    PlannedFragment {
        parent,
        relation: (#[trigger] sprouts[k]).relation,
        fragment: sprouts[k].fragment,
    }) by {
        lemma_tree_fragment(plot, parent, parent_depth, parent_hops, sprouts, limits, k);
    }
    assert forall|k: int, c: int|
        0 <= k < sprouts.len() && 0 <= c < sprouts[k].children@.len() implies after[n + place(
        sprouts,
        k,
    ) + 1 + place(sprouts[k].children@, c)] == (PlannedFragment {
        parent: PlanNode::Fragment((n + place(sprouts, k)) as u32),
        relation: (#[trigger] sprouts[k].children@[c]).relation,
        fragment: sprouts[k].children@[c].fragment,
    }) by {
        lemma_child_fragment(plot, parent, parent_depth, parent_hops, sprouts, limits, k, c);
    }
    assert forall|k: int, base: Plot|
        0 <= k < sprouts.len() && base.fragments.len() == n + place(sprouts, k)
            + 1 implies after.subrange(
        n + place(sprouts, k) + 1,
        n + place(sprouts, k) + 1 + count(sprouts[k].children@),
    ) == (#[trigger] base.planted(
        PlanNode::Fragment((n + place(sprouts, k)) as u32),
        parent_depth + 1,
        hops_of(parent_hops, sprouts[k].fragment),
        (#[trigger] sprouts[k]).children@,
        limits,
    )).fragments.skip(n + place(sprouts, k) + 1) by {
        lemma_tree_below(plot, parent, parent_depth, parent_hops, sprouts, limits, k, base);
    }
}

/// What a forest adds does not depend on the fragments there were, but for
/// how many.
proof fn lemma_added_alike(
    a: Plot,
    b: Plot,
    parent: PlanNode,
    parent_depth: nat,
    parent_hops: nat,
    sprouts: Seq<Sprout>,
    limits: PlanLimits,
)
    requires
        a.fragments.len() == b.fragments.len(),
    ensures
        ({
            let n = a.fragments.len() as int;
            let left = a.planted(parent, parent_depth, parent_hops, sprouts, limits).fragments;
            let right = b.planted(parent, parent_depth, parent_hops, sprouts, limits).fragments;
            left.len() == right.len() && left.skip(n) == right.skip(n)
        }),
    decreases sprouts,
{
    let n = a.fragments.len() as int;
    let left = a.planted(parent, parent_depth, parent_hops, sprouts, limits);
    let right = b.planted(parent, parent_depth, parent_hops, sprouts, limits);
    law_planting_only_adds(a, parent, parent_depth, parent_hops, sprouts, limits);
    law_planting_only_adds(b, parent, parent_depth, parent_hops, sprouts, limits);
    if sprouts.len() == 0 {
        assert(left.fragments.skip(n) =~= right.fragments.skip(n));
    } else {
        let front = sprouts.drop_last();
        let sprout = sprouts.last();
        let hops = hops_of(parent_hops, sprout.fragment);
        lemma_added_alike(a, b, parent, parent_depth, parent_hops, front, limits);
        law_planting_only_adds(a, parent, parent_depth, parent_hops, front, limits);
        law_planting_only_adds(b, parent, parent_depth, parent_hops, front, limits);
        let x = a.planted(parent, parent_depth, parent_hops, front, limits);
        let y = b.planted(parent, parent_depth, parent_hops, front, limits);
        let p = x.pushed(parent, sprout.relation, sprout.fragment, parent_depth + 1, hops, limits);
        let q = y.pushed(parent, sprout.relation, sprout.fragment, parent_depth + 1, hops, limits);
        let m = p.fragments.len() as int;
        lemma_added_alike(p, q, x.next_node(), parent_depth + 1, hops, sprout.children@, limits);
        law_planting_only_adds(p, x.next_node(), parent_depth + 1, hops, sprout.children@, limits);
        law_planting_only_adds(q, x.next_node(), parent_depth + 1, hops, sprout.children@, limits);
        assert(left.fragments.skip(n) =~= right.fragments.skip(n)) by {
            assert forall|i: int| n <= i < left.fragments.len() implies left.fragments[i]
                == right.fragments[i] by {
                if i < m {
                    assert(left.fragments.take(m)[i] == left.fragments[i]);
                    assert(right.fragments.take(m)[i] == right.fragments[i]);
                    if i < m - 1 {
                        assert(x.fragments.skip(n)[i - n] == x.fragments[i]);
                        assert(y.fragments.skip(n)[i - n] == y.fragments[i]);
                        assert(p.fragments[i] == x.fragments[i]);
                        assert(q.fragments[i] == y.fragments[i]);
                    }
                } else {
                    assert(left.fragments.skip(m)[i - m] == left.fragments[i]);
                    assert(right.fragments.skip(m)[i - m] == right.fragments[i]);
                }
            }
        }
    }
}

/// How deep fragment `i` stands, counted along the parents it has among the
/// fragments from `n` on; what those hang on stands at `base`.
pub open spec fn depth_in(fragments: Seq<PlannedFragment>, n: int, base: nat, i: int) -> nat
    decreases i,
{
    match fragments[i].parent {
        PlanNode::Fragment(q) => if n <= q < i {
            depth_in(fragments, n, base, q as int) + 1
        } else {
            base + 1
        },
        PlanNode::Root => base + 1,
    }
}

/// How many content references lead to fragment `i`, itself counted, along
/// the same parents; what those hang on is `base` away.
pub open spec fn hops_in(fragments: Seq<PlannedFragment>, n: int, base: nat, i: int) -> nat
    decreases i,
{
    let own: nat = if fragments[i].fragment.content_address is Some {
        1
    } else {
        0
    };
    match fragments[i].parent {
        PlanNode::Fragment(q) => if n <= q < i {
            hops_in(fragments, n, base, q as int) + own
        } else {
            base + own
        },
        PlanNode::Root => base + own,
    }
}

/// Whether a fragment at a depth and a number of hops is to be offered to
/// the transforms.
pub open spec fn is_offered(
    fragment: NewFragment,
    depth: nat,
    hops: nat,
    limits: PlanLimits,
) -> bool {
    !fragment.mimetype.inseam_defined && depth < limits.max_depth && hops
        <= limits.max_reference_hops
}

/// Whether a fragment holds text of the source: not blank, not derived.
pub open spec fn is_source_text(fragment: NewFragment) -> bool {
    !fragment.mimetype.inseam_defined && fragment.text is Some && text::trimmed(
        fragment.text->0@,
    ).len() > 0
}

/// Whether the work queued from `from` on is that of the fragments from `n`
/// on: each that is to be offered, once and in order, as it is.
pub open spec fn queues_what_is_offered(
    after: Plot,
    n: int,
    from: int,
    depth: nat,
    hops: nat,
    limits: PlanLimits,
) -> bool {
    let planted = after.fragments;
    &&& forall|j: int|
        from <= j < after.queue.len() ==> {
            let item = #[trigger] after.queue[j];
            &&& item.node matches PlanNode::Fragment(i) && n <= i < planted.len()
            &&& is_offered(
                planted[item.node->Fragment_0 as int].fragment,
                depth_in(planted, n, depth, item.node->Fragment_0 as int),
                hops_in(planted, n, hops, item.node->Fragment_0 as int),
                limits,
            )
            &&& !item.is_root
            &&& item.mimetype == planted[item.node->Fragment_0 as int].fragment.mimetype
            &&& item.text == planted[item.node->Fragment_0 as int].fragment.text
            &&& item.content_address
                == planted[item.node->Fragment_0 as int].fragment.content_address
            &&& item.depth == depth_in(planted, n, depth, item.node->Fragment_0 as int)
            &&& item.reference_hops == hops_in(planted, n, hops, item.node->Fragment_0 as int)
        }
    &&& forall|i: int|
        n <= i < planted.len() && is_offered(
            (#[trigger] planted[i]).fragment,
            depth_in(planted, n, depth, i),
            hops_in(planted, n, hops, i),
            limits,
        ) ==> exists|j: int|
            from <= j < after.queue.len() && (#[trigger] after.queue[j]).node
                == PlanNode::Fragment(i as u32)
    &&& forall|j: int, l: int|
        from <= j < l < after.queue.len() ==> (#[trigger] after.queue[j]).node->Fragment_0 < (
        #[trigger] after.queue[l]).node->Fragment_0
}

/// Whether the text sites from `from` on are the fragments from `n` on that
/// hold text of the source, each once and in order.
pub open spec fn sites_are_the_texts(after: Plot, n: int, from: int) -> bool {
    let planted = after.fragments;
    &&& forall|j: int|
        from <= j < after.texted.len() ==> {
            let site = #[trigger] after.texted[j];
            &&& site.0 matches PlanNode::Fragment(i) && n <= i < planted.len()
            &&& is_source_text(planted[site.0->Fragment_0 as int].fragment)
            &&& planted[site.0->Fragment_0 as int].fragment.text == Some(site.1)
        }
    &&& forall|i: int|
        n <= i < planted.len() && is_source_text((#[trigger] planted[i]).fragment) ==> exists|
            j: int,
        |
            from <= j < after.texted.len() && (#[trigger] after.texted[j]).0
                == PlanNode::Fragment(i as u32)
    &&& forall|j: int, l: int|
        from <= j < l < after.texted.len() ==> (#[trigger] after.texted[j]).0->Fragment_0 < (
        #[trigger] after.texted[l]).0->Fragment_0
}

/// Whether an inventory lists the mimetype of every fragment from `n` on,
/// and from `from` on nothing else.
pub open spec fn inventory_is_complete(after: Plot, n: int, from: int) -> bool {
    let planted = after.fragments;
    &&& forall|i: int|
        n <= i < planted.len() ==> exists|j: int|
            0 <= j < after.inventory.len() && (#[trigger] after.inventory[j]).mimetype@ == (
            #[trigger] planted[i]).fragment.mimetype.essence@ && !after.inventory[j].is_root
    &&& forall|j: int|
        from <= j < after.inventory.len() ==> !(#[trigger] after.inventory[j]).is_root && exists|
            i: int,
        |
            n <= i < planted.len() && (#[trigger] planted[i]).fragment.mimetype.essence
                == after.inventory[j].mimetype
}

/// Whether everything `after` holds beyond `plot` belongs to the fragments
/// that were planted.
pub open spec fn serves_the_planted(
    plot: Plot,
    after: Plot,
    depth: nat,
    hops: nat,
    limits: PlanLimits,
) -> bool {
    let n = plot.fragments.len() as int;
    &&& plot.fragments.is_prefix_of(after.fragments)
    &&& plot.queue.is_prefix_of(after.queue)
    &&& plot.texted.is_prefix_of(after.texted)
    &&& plot.inventory.is_prefix_of(after.inventory)
    &&& queues_what_is_offered(after, n, plot.queue.len() as int, depth, hops, limits)
    &&& sites_are_the_texts(after, n, plot.texted.len() as int)
    &&& inventory_is_complete(after, n, plot.inventory.len() as int)
}

proof fn lemma_chain_stays(
    a: Seq<PlannedFragment>,
    b: Seq<PlannedFragment>,
    n: int,
    depth: nat,
    hops: nat,
    i: int,
)
    requires
        0 <= n <= i < a.len(),
        a.is_prefix_of(b),
    ensures
        depth_in(a, n, depth, i) == depth_in(b, n, depth, i),
        hops_in(a, n, hops, i) == hops_in(b, n, hops, i),
        depth_in(a, n, depth, i) <= depth + (i - n) + 1,
        hops_in(a, n, hops, i) <= hops + (i - n) + 1,
    decreases i,
{
    assert(a[i] == b[i]);
    if let PlanNode::Fragment(q) = a[i].parent {
        if n <= q < i {
            lemma_chain_stays(a, b, n, depth, hops, q as int);
        }
    }
}

proof fn lemma_push_queues(
    plot: Plot,
    before: Plot,
    depth: nat,
    hops: nat,
    limits: PlanLimits,
    parent: PlanNode,
    relation: String,
    fragment: NewFragment,
    at_depth: nat,
    at_hops: nat,
)
    requires
        serves_the_planted(plot, before, depth, hops, limits),
        before.fragments.len() < u32::MAX,
        at_depth <= u32::MAX,
        at_hops <= u32::MAX,
        ({
            let after = before.pushed(parent, relation, fragment, at_depth, at_hops, limits);
            let n = plot.fragments.len() as int;
            let i = before.fragments.len() as int;
            &&& at_depth == depth_in(after.fragments, n, depth, i)
            &&& at_hops == hops_in(after.fragments, n, hops, i)
        }),
    ensures
        queues_what_is_offered(
            before.pushed(parent, relation, fragment, at_depth, at_hops, limits),
            plot.fragments.len() as int,
            plot.queue.len() as int,
            depth,
            hops,
            limits,
        ),
{
    let after = before.pushed(parent, relation, fragment, at_depth, at_hops, limits);
    let n = plot.fragments.len() as int;
    let from = plot.queue.len() as int;
    let new = before.fragments.len() as int;
    let offered = is_offered(fragment, at_depth, at_hops, limits);
    assert(before.fragments.is_prefix_of(after.fragments));
    assert(after.fragments[new].fragment == fragment);
    assert forall|j: int| from <= j < after.queue.len() implies {
        let item = #[trigger] after.queue[j];
        &&& item.node matches PlanNode::Fragment(i) && n <= i < after.fragments.len()
        &&& is_offered(
            after.fragments[item.node->Fragment_0 as int].fragment,
            depth_in(after.fragments, n, depth, item.node->Fragment_0 as int),
            hops_in(after.fragments, n, hops, item.node->Fragment_0 as int),
            limits,
        )
        &&& !item.is_root
        &&& item.mimetype == after.fragments[item.node->Fragment_0 as int].fragment.mimetype
        &&& item.text == after.fragments[item.node->Fragment_0 as int].fragment.text
        &&& item.content_address
            == after.fragments[item.node->Fragment_0 as int].fragment.content_address
        &&& item.depth == depth_in(after.fragments, n, depth, item.node->Fragment_0 as int)
        &&& item.reference_hops == hops_in(
            after.fragments,
            n,
            hops,
            item.node->Fragment_0 as int,
        )
    } by {
        if j < before.queue.len() {
            assert(after.queue[j] == before.queue[j]);
            let i = before.queue[j].node->Fragment_0 as int;
            lemma_chain_stays(before.fragments, after.fragments, n, depth, hops, i);
            assert(after.fragments[i] == before.fragments[i]);
        }
    }
    assert forall|i: int|
        n <= i < after.fragments.len() && is_offered(
            (#[trigger] after.fragments[i]).fragment,
            depth_in(after.fragments, n, depth, i),
            hops_in(after.fragments, n, hops, i),
            limits,
        ) implies exists|j: int|
        from <= j < after.queue.len() && (#[trigger] after.queue[j]).node == PlanNode::Fragment(
            i as u32,
        ) by {
        if i < new {
            assert(after.fragments[i] == before.fragments[i]);
            lemma_chain_stays(before.fragments, after.fragments, n, depth, hops, i);
            let j = choose|j: int|
                from <= j < before.queue.len() && (#[trigger] before.queue[j]).node
                    == PlanNode::Fragment(i as u32);
            assert(after.queue[j] == before.queue[j]);
        } else {
            assert(after.queue[before.queue.len() as int].node == PlanNode::Fragment(i as u32));
        }
    }
    assert forall|j: int, l: int| from <= j < l < after.queue.len() implies (
    #[trigger] after.queue[j]).node->Fragment_0 < (#[trigger] after.queue[l]).node->Fragment_0 by {
        assert(after.queue[j] == before.queue[j]);
        if l < before.queue.len() {
            assert(after.queue[l] == before.queue[l]);
        }
    }
}

proof fn lemma_push_serves(
    plot: Plot,
    before: Plot,
    depth: nat,
    hops: nat,
    limits: PlanLimits,
    parent: PlanNode,
    relation: String,
    fragment: NewFragment,
    at_depth: nat,
    at_hops: nat,
)
    requires
        serves_the_planted(plot, before, depth, hops, limits),
        before.fragments.len() < u32::MAX,
        at_depth <= u32::MAX,
        at_hops <= u32::MAX,
        ({
            let after = before.pushed(parent, relation, fragment, at_depth, at_hops, limits);
            let n = plot.fragments.len() as int;
            let i = before.fragments.len() as int;
            &&& at_depth == depth_in(after.fragments, n, depth, i)
            &&& at_hops == hops_in(after.fragments, n, hops, i)
        }),
    ensures
        serves_the_planted(
            plot,
            before.pushed(parent, relation, fragment, at_depth, at_hops, limits),
            depth,
            hops,
            limits,
        ),
{
    let after = before.pushed(parent, relation, fragment, at_depth, at_hops, limits);
    let n = plot.fragments.len() as int;
    let new = before.fragments.len() as int;
    lemma_push_queues(
        plot,
        before,
        depth,
        hops,
        limits,
        parent,
        relation,
        fragment,
        at_depth,
        at_hops,
    );
    assert(after.fragments[new].fragment == fragment);
    let sites = plot.texted.len() as int;
    assert(sites_are_the_texts(after, n, sites)) by {
        assert forall|j: int| sites <= j < after.texted.len() implies {
            let site = #[trigger] after.texted[j];
            &&& site.0 matches PlanNode::Fragment(i) && n <= i < after.fragments.len()
            &&& is_source_text(after.fragments[site.0->Fragment_0 as int].fragment)
            &&& after.fragments[site.0->Fragment_0 as int].fragment.text == Some(site.1)
        } by {
            if j < before.texted.len() {
                assert(after.texted[j] == before.texted[j]);
                let i = before.texted[j].0->Fragment_0 as int;
                assert(after.fragments[i] == before.fragments[i]);
            }
        }
        assert forall|i: int|
            n <= i < after.fragments.len() && is_source_text(
                (#[trigger] after.fragments[i]).fragment,
            ) implies exists|j: int|
            sites <= j < after.texted.len() && (#[trigger] after.texted[j]).0
                == PlanNode::Fragment(i as u32) by {
            if i < new {
                assert(after.fragments[i] == before.fragments[i]);
                let j = choose|j: int|
                    sites <= j < before.texted.len() && (#[trigger] before.texted[j]).0
                        == PlanNode::Fragment(i as u32);
                assert(after.texted[j] == before.texted[j]);
            } else {
                assert(after.texted[before.texted.len() as int].0 == PlanNode::Fragment(i as u32));
            }
        }
        assert forall|j: int, l: int| sites <= j < l < after.texted.len() implies (
        #[trigger] after.texted[j]).0->Fragment_0 < (#[trigger] after.texted[l]).0->Fragment_0 by {
            assert(after.texted[j] == before.texted[j]);
            if l < before.texted.len() {
                assert(after.texted[l] == before.texted[l]);
            }
        }
    }
    let entries = plot.inventory.len() as int;
    assert(inventory_is_complete(after, n, entries)) by {
        assert forall|i: int| n <= i < after.fragments.len() implies exists|j: int|
            0 <= j < after.inventory.len() && (#[trigger] after.inventory[j]).mimetype@ == (
            #[trigger] after.fragments[i]).fragment.mimetype.essence@
                && !after.inventory[j].is_root by {
            if i < new {
                assert(after.fragments[i] == before.fragments[i]);
                let j = choose|j: int|
                    0 <= j < before.inventory.len() && (#[trigger] before.inventory[j]).mimetype@
                        == before.fragments[i].fragment.mimetype.essence@
                        && !before.inventory[j].is_root;
                assert(after.inventory[j] == before.inventory[j]);
            } else if after.inventory.len() > before.inventory.len() {
                assert(after.inventory[before.inventory.len() as int].mimetype@
                    == fragment.mimetype.essence@);
            } else {
                let j = choose|j: int|
                    0 <= j < before.inventory.len() && (#[trigger] before.inventory[j]).mimetype@
                        == fragment.mimetype.essence@ && before.inventory[j].is_root == false;
                assert(after.inventory[j] == before.inventory[j]);
            }
        }
        assert forall|j: int| entries <= j < after.inventory.len() implies !(
        #[trigger] after.inventory[j]).is_root && exists|i: int|
            n <= i < after.fragments.len() && (
            #[trigger] after.fragments[i]).fragment.mimetype.essence
                == after.inventory[j].mimetype by {
            if j < before.inventory.len() {
                assert(after.inventory[j] == before.inventory[j]);
                let i = choose|i: int|
                    n <= i < before.fragments.len() && (
                    #[trigger] before.fragments[i]).fragment.mimetype.essence
                        == before.inventory[j].mimetype;
                assert(after.fragments[i] == before.fragments[i]);
            }
        }
    }
}

proof fn lemma_planted_serves(
    plot: Plot,
    before: Plot,
    depth: nat,
    hops: nat,
    limits: PlanLimits,
    parent: PlanNode,
    parent_depth: nat,
    parent_hops: nat,
    sprouts: Seq<Sprout>,
)
    requires
        serves_the_planted(plot, before, depth, hops, limits),
        known(parent, before.fragments.len()),
        before.fragments.len() + count(sprouts) < u32::MAX,
        hops <= depth <= plot.fragments.len(),
        match parent {
            PlanNode::Fragment(q) => if plot.fragments.len() <= q {
                parent_depth == depth_in(
                    before.fragments,
                    plot.fragments.len() as int,
                    depth,
                    q as int,
                ) && parent_hops == hops_in(
                    before.fragments,
                    plot.fragments.len() as int,
                    hops,
                    q as int,
                )
            } else {
                parent_depth == depth && parent_hops == hops
            },
            PlanNode::Root => parent_depth == depth && parent_hops == hops,
        },
    ensures
        serves_the_planted(
            plot,
            before.planted(parent, parent_depth, parent_hops, sprouts, limits),
            depth,
            hops,
            limits,
        ),
    decreases sprouts,
{
    if sprouts.len() > 0 {
        let n = plot.fragments.len() as int;
        let front = sprouts.drop_last();
        let sprout = sprouts.last();
        lemma_planted_serves(
            plot,
            before,
            depth,
            hops,
            limits,
            parent,
            parent_depth,
            parent_hops,
            front,
        );
        law_planting_only_adds(before, parent, parent_depth, parent_hops, front, limits);
        let mid = before.planted(parent, parent_depth, parent_hops, front, limits);
        assert(before.fragments.is_prefix_of(mid.fragments)) by {
            assert(mid.fragments.take(before.fragments.len() as int) == before.fragments);
        }
        let own_hops = hops_of(parent_hops, sprout.fragment);
        let grown = mid.pushed(
            parent,
            sprout.relation,
            sprout.fragment,
            parent_depth + 1,
            own_hops,
            limits,
        );
        let new = mid.fragments.len() as int;
        assert(mid.fragments.is_prefix_of(grown.fragments));
        assert(grown.fragments[new].parent == parent);
        if let PlanNode::Fragment(q) = parent {
            if n <= q {
                lemma_chain_stays(before.fragments, mid.fragments, n, depth, hops, q as int);
                lemma_chain_stays(mid.fragments, grown.fragments, n, depth, hops, q as int);
            }
        }
        assert(parent_depth + 1 == depth_in(grown.fragments, n, depth, new));
        assert(own_hops == hops_in(grown.fragments, n, hops, new));
        lemma_chain_stays(grown.fragments, grown.fragments, n, depth, hops, new);
        lemma_push_serves(
            plot,
            mid,
            depth,
            hops,
            limits,
            parent,
            sprout.relation,
            sprout.fragment,
            parent_depth + 1,
            own_hops,
        );
        lemma_planted_serves(
            plot,
            grown,
            depth,
            hops,
            limits,
            mid.next_node(),
            parent_depth + 1,
            own_hops,
            sprout.children@,
        );
    }
}

/// Everything that is planted is served, and nothing else: after a forest is
/// planted under a node, each of its fragments within the depth cap and the
/// crawl depth that is not derived waits once for the transforms, in order,
/// with its own content, its depth and its hops as its parents give them;
/// each that holds text of the source is a text site; and the mimetype of
/// each is in the inventory. What was there before stays as it was.
pub proof fn law_the_planted_are_served(
    plot: Plot,
    parent: PlanNode,
    parent_depth: nat,
    parent_hops: nat,
    sprouts: Seq<Sprout>,
    limits: PlanLimits,
)
    requires
        known(parent, plot.fragments.len()),
        plot.fragments.len() + count(sprouts) < u32::MAX,
        parent_hops <= parent_depth <= plot.fragments.len(),
    ensures
        serves_the_planted(
            plot,
            plot.planted(parent, parent_depth, parent_hops, sprouts, limits),
            parent_depth,
            parent_hops,
            limits,
        ),
{
    lemma_planted_serves(
        plot,
        plot,
        parent_depth,
        parent_hops,
        limits,
        parent,
        parent_depth,
        parent_hops,
        sprouts,
    );
}


/// An anchor resolves to its input alone, or to every source text that holds
/// the words asked for, whatever their case, in order; where no text holds
/// them, to the input.
pub proof fn law_anchors_are_every_text_that_holds_the_words(
    anchor: Anchor,
    input: PlanNode,
    texted: Seq<(PlanNode, String)>,
)
    ensures
        anchor is Input ==> anchor_nodes(anchor, input, texted) == seq![input],
        anchor matches Anchor::TextContaining(needle) ==> {
            let holding = texted.filter(
                |site: (PlanNode, String)|
                    text::contains(text::lowercase(site.1@), text::lowercase(needle@)),
            ).map_values(|site: (PlanNode, String)| site.0);
            &&& holding.len() > 0 ==> anchor_nodes(anchor, input, texted) == holding
            &&& holding.len() == 0 ==> anchor_nodes(anchor, input, texted) == seq![input]
        },
{
    if let Anchor::TextContaining(needle) = anchor {
        lemma_sites_are_filtered(texted, needle@);
    }
}

proof fn lemma_sites_are_filtered(texted: Seq<(PlanNode, String)>, needle: Seq<char>)
    ensures
        sites_with(texted, needle) == texted.filter(
            |site: (PlanNode, String)|
                text::contains(text::lowercase(site.1@), text::lowercase(needle)),
        ).map_values(|site: (PlanNode, String)| site.0),
    decreases texted.len(),
{
    reveal(Seq::filter);
    if texted.len() > 0 {
        lemma_sites_are_filtered(texted.drop_last(), needle);
    }
    assert(sites_with(texted, needle) =~= texted.filter(
        |site: (PlanNode, String)|
            text::contains(text::lowercase(site.1@), text::lowercase(needle)),
    ).map_values(|site: (PlanNode, String)| site.0));
}

/// The items passed over are all derived understanding, and the next one, if
/// there is one, is not.
pub proof fn law_only_derived_items_are_passed_over(queue: Seq<WorkItem>)
    ensures
        derived_ahead(queue) <= queue.len(),
        forall|i: int|
            0 <= i < derived_ahead(queue) ==> (#[trigger] queue[i]).mimetype.inseam_defined,
        derived_ahead(queue) < queue.len() ==> !queue[derived_ahead(
            queue,
        ) as int].mimetype.inseam_defined,
    decreases queue.len(),
{
    if queue.len() > 0 && queue[0].mimetype.inseam_defined {
        let rest = queue.skip(1);
        law_only_derived_items_are_passed_over(rest);
        assert forall|i: int| 0 <= i < derived_ahead(queue) implies (
        #[trigger] queue[i]).mimetype.inseam_defined by {
            if i > 0 {
                assert(rest[i - 1] == queue[i]);
            }
        }
        if derived_ahead(rest) < rest.len() {
            assert(rest[derived_ahead(rest) as int] == queue[derived_ahead(queue) as int]);
        }
    }
}

/// What an output adds to a plan: every keyed sprout it emitted, anchored at
/// its own input and after those held; the fragments it plants, paid for from
/// what the source may still have; a cache entry where it was applied to be
/// kept, and a count where it was reused. Nothing else moves.
pub proof fn law_an_output_is_taken_in_whole(
    build: BuildView,
    item: WorkItem,
    sprouts: Seq<Sprout>,
    keyed: Seq<KeyedSprout>,
    provenance: Provenance,
)
    requires
        count(sprouts) <= build.budget,
        build.stats.transforms_reused < usize::MAX,
    ensures
        ({
            let after = build.absorbed(item, sprouts, keyed, provenance);
            &&& after.plot.fragments.len() + after.budget == build.plot.fragments.len()
                + build.budget
            &&& after.plot.fragments.len() == build.plot.fragments.len() + count(sprouts)
            &&& build.plot.fragments.is_prefix_of(after.plot.fragments)
            &&& after.keyed.len() == build.keyed.len() + keyed.len()
            &&& build.keyed.is_prefix_of(after.keyed)
            &&& forall|i: int|
                0 <= i < keyed.len() ==> after.keyed[build.keyed.len() + i].0 == item.node
                    && after.keyed[build.keyed.len() + i].1 == #[trigger] keyed[i]
            &&& match provenance {
                Provenance::Applied(Some(entry)) => after.cache_entries.len()
                    == build.cache_entries.len() + 1 && after.cache_entries.last() == entry
                    && build.cache_entries.is_prefix_of(after.cache_entries),
                _ => after.cache_entries == build.cache_entries,
            }
            &&& after.stats.transforms_reused == build.stats.transforms_reused + if provenance is Reused {
                1int
            } else {
                0int
            }
            &&& after.stats.llm_summaries == build.stats.llm_summaries
            &&& after.stats.extractive_summaries == build.stats.extractive_summaries
            &&& after.stats.envelope_summaries == build.stats.envelope_summaries
            &&& after.limits == build.limits
            &&& after.root_mimetype == build.root_mimetype
            &&& after.served == build.served
        }),
{
    law_planting_only_adds(
        build.plot,
        item.node,
        item.depth as nat,
        item.reference_hops as nat,
        sprouts,
        build.limits,
    );
}

/// A forest's summaries of a kind are counted tree by tree, and a tree is a
/// summary of one kind at most.
pub proof fn law_summaries_are_counted_by_kind(sprouts: Seq<Sprout>, via: SummaryVia)
    ensures
        summaries(sprouts, via) == sprouts.filter(
            |sprout: Sprout|
                sprout.fragment.mimetype.summary && match via {
                    SummaryVia::Llm => source::text_view(sprout.fragment.mimetype.via) == Some(
                        "llm"@,
                    ),
                    SummaryVia::Envelope => source::text_view(sprout.fragment.mimetype.via) == Some(
                        "envelope"@,
                    ),
                    SummaryVia::Extractive => source::text_view(sprout.fragment.mimetype.via)
                        != Some("llm"@) && source::text_view(sprout.fragment.mimetype.via) != Some(
                        "envelope"@,
                    ),
                },
        ).len(),
        summaries(sprouts, SummaryVia::Llm) + summaries(sprouts, SummaryVia::Envelope) + summaries(
            sprouts,
            SummaryVia::Extractive,
        ) == sprouts.filter(|sprout: Sprout| sprout.fragment.mimetype.summary).len(),
    decreases sprouts.len(),
{
    reveal(Seq::filter);
    reveal_strlit("llm");
    reveal_strlit("envelope");
    assert("llm"@.len() != "envelope"@.len());
    if sprouts.len() > 0 {
        law_summaries_are_counted_by_kind(sprouts.drop_last(), via);
    }
}
} // verus!
