//! What a sweep reads of a source: its address, what its host says of it,
//! and what the store recorded the last time it was indexed.

use vstd::prelude::*;
use crate::seam::Address;
use crate::text;

verus! {

/// A content type as the sweep reads it: the essence, and the facts about
/// it that decide how a fragment is handled.
#[derive(Debug, PartialEq, Eq)]
pub struct Mimetype {
    /// `type/subtype`, without parameters.
    pub essence: String,
    /// Derived understanding, one of the index's own types.
    pub inseam_defined: bool,
    /// A summary.
    pub summary: bool,
    /// A directory listing.
    pub directory: bool,
    /// The `via` parameter: how a summary was made.
    pub via: Option<String>,
}

impl Mimetype {
    /// A copy of the type.
    pub fn copy(&self) -> (r: Mimetype)
        ensures
            r == *self,
    {
        Mimetype {
            essence: self.essence.clone(),
            inseam_defined: self.inseam_defined,
            summary: self.summary,
            directory: self.directory,
            via: copy_text(&self.via),
        }
    }
}

/// A copy of an optional text.
pub fn copy_text(text: &Option<String>) -> (r: Option<String>)
    ensures
        r == *text,
{
    match text {
        Some(text) => Some(text.clone()),
        None => None,
    }
}

/// What an optional text says.
pub open spec fn text_view(text: Option<String>) -> Option<Seq<char>> {
    match text {
        Some(text) => Some(text@),
        None => None,
    }
}

/// Whether two optional texts say the same.
pub fn same_text(a: &Option<String>, b: &Option<String>) -> (r: bool)
    ensures
        r == (text_view(*a) == text_view(*b)),
{
    match (a, b) {
        (Some(a), Some(b)) => text::same(a.as_str(), b.as_str()),
        (None, None) => true,
        _ => false,
    }
}

/// How much content a source holds, in the unit its host counts.
#[derive(Debug, Clone, Copy, PartialEq, Eq)]
pub enum ContentLength {
    Lines(u64),
    Bytes(u64),
}

/// Where in a source a fragment stands.
#[derive(Debug, Clone, Copy, PartialEq, Eq)]
pub enum Extent {
    /// Lines, counted from one, both ends inside.
    Lines { start: u64, end: u64 },
    /// Bytes, counted from zero, the end outside.
    Bytes { start: u64, end: u64 },
}

/// The extent of a whole content: a text is at least its first line.
pub open spec fn whole_extent(length: ContentLength) -> Extent {
    match length {
        ContentLength::Lines(n) => Extent::Lines { start: 1, end: if n == 0 { 1 } else { n } },
        ContentLength::Bytes(n) => Extent::Bytes { start: 0, end: n },
    }
}

/// The extent of a whole content.
pub fn root_extent(length: ContentLength) -> (r: Extent)
    ensures
        r == whole_extent(length),
{
    match length {
        ContentLength::Lines(n) => Extent::Lines { start: 1, end: if n == 0 { 1 } else { n } },
        ContentLength::Bytes(n) => Extent::Bytes { start: 0, end: n },
    }
}

/// One trust property of a source.
#[derive(Debug, PartialEq, Eq)]
pub struct Property {
    pub key: String,
    pub value: String,
}

/// What a host says of a source without opening it.
#[derive(Debug, PartialEq, Eq)]
pub struct Envelope {
    pub source_type: String,
    pub content_type: Mimetype,
    pub length: ContentLength,
    pub modified: Option<i64>,
    pub properties: Vec<Property>,
    pub hint: Option<String>,
    pub content_digest: Option<String>,
}

/// One source a host enumerated.
#[derive(Debug, PartialEq, Eq)]
pub struct EnumeratedSource {
    pub address: Address,
    pub envelope: Envelope,
    pub raw_bytes: u64,
}

/// What the store recorded of a source.
#[derive(Debug, PartialEq, Eq)]
pub struct SourceIndexMeta {
    pub modified: Option<i64>,
    pub raw_bytes: u64,
    pub content_digest: Option<String>,
    /// Whether the source's last indexing ran to its end.
    pub indexed: bool,
    /// The stamp the source was indexed under; catalog-only rows have none.
    pub shape_stamp: Option<String>,
    /// The stamp of the transforms that take part in a subtree with the
    /// recorded inventory, as they are registered now.
    pub participants: String,
}

/// The stamp of a subtree: the participating transforms', and the sweep's
/// own shape.
pub open spec fn stamp_of(participants: Seq<char>, sweep_shape: Seq<char>) -> Seq<char> {
    participants + "+"@ + sweep_shape
}

/// The stamp the current registrations would produce for a subtree: that of
/// the participating transforms, and the sweep's own shape fingerprint.
pub fn expected_stamp(participants: &str, sweep_shape: &str) -> (r: String)
    ensures
        r@ == stamp_of(participants@, sweep_shape@),
{
    let mut out = participants.to_owned();
    out.append("+");
    out.append(sweep_shape);
    out
}

impl SourceIndexMeta {
    /// Whether the recorded subtree has another shape than a fresh one
    /// would.
    pub open spec fn shape_stale(self, sweep_shape: Seq<char>) -> bool {
        match self.shape_stamp {
            Some(stored) => stored@ != stamp_of(self.participants@, sweep_shape),
            None => true,
        }
    }

    /// Whether the recorded subtree has another shape than a fresh one
    /// would. Catalog-only rows carry no stamp and stay stale.
    pub fn is_shape_stale(&self, sweep_shape: &str) -> (r: bool)
        ensures
            r == self.shape_stale(sweep_shape@),
    {
        match &self.shape_stamp {
            Some(stored) => {
                let expected = expected_stamp(self.participants.as_str(), sweep_shape);
                !text::same(stored.as_str(), expected.as_str())
            },
            None => true,
        }
    }
}

/// Whether two optional times are one.
pub fn same_time(a: Option<i64>, b: Option<i64>) -> (r: bool)
    ensures
        r == (a == b),
{
    match (a, b) {
        (Some(a), Some(b)) => a == b,
        (None, None) => true,
        _ => false,
    }
}

} // verus!
