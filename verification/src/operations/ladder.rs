//! The rungs of the discovery ladder: one set of range checks, one clamp and
//! one media fallback, whoever asks. Nothing here decides where content
//! comes from; a caller reads, and the rung says what is served of it.

use vstd::prelude::*;
use crate::seam::{Address, ErrorView, SeamError};
use crate::sweep::source::ContentLength;
use super::vocabulary::distinct_sources;

verus! {

/// Characters of fragment text shown in hints and expand views.
pub const PREVIEW_CHARS: usize = 280;

/// Most results one query serves, on this node or on a peer's behalf; a
/// request past it is clamped, never refused.
pub const QUERY_LIMIT_MAX: usize = 50;

/// The limit a query serves: at least one, at most [`QUERY_LIMIT_MAX`].
pub fn clamp_query_limit(limit: usize) -> (r: usize)
    ensures
        r == (if limit < 1 {
            1
        } else if limit > QUERY_LIMIT_MAX {
            QUERY_LIMIT_MAX
        } else {
            limit
        }),
        1 <= r <= QUERY_LIMIT_MAX,
{
    if limit < 1 {
        1
    } else if limit > QUERY_LIMIT_MAX {
        QUERY_LIMIT_MAX
    } else {
        limit
    }
}

/// The range of lines: counted from one, both ends inside.
pub open spec fn is_line_range(start: u64, end: u64) -> bool {
    1 <= start <= end
}

/// Refuse a range that is not one.
pub fn check_line_range(start: u64, end: u64) -> (r: Result<(), SeamError>)
    ensures
        r is Ok <==> is_line_range(start, end),
        r matches Err(e) ==> e@ == (ErrorView::ScanRange { start, end }),
{
    if start >= 1 && end >= start {
        Ok(())
    } else {
        Err(SeamError::ScanRange { start, end })
    }
}

/// A checked, clamped scan range: 1-based inclusive, held to a number of
/// lines. Built before anything is read.
#[derive(Debug, Clone, Copy, PartialEq, Eq)]
pub struct ScanWindow {
    pub start: u64,
    pub end: u64,
}

/// The end line a scan serves.
pub open spec fn scan_end(start: u64, end: u64, lines_max: u64) -> u64 {
    if start + lines_max - 1 < end {
        (start + lines_max - 1) as u64
    } else {
        end
    }
}

/// The end line a scan serves: the request's, held to `lines_max` lines from
/// `start`.
pub fn clamp_scan_end(start: u64, end: u64, lines_max: u64) -> (r: u64)
    requires
        is_line_range(start, end),
        lines_max >= 1,
    ensures
        r == scan_end(start, end, lines_max),
        start <= r <= end,
        r - start < lines_max,
{
    let span_end: u64 = start.saturating_add(lines_max - 1);
    if end <= span_end {
        end
    } else {
        span_end
    }
}

/// The window a scan serves, or the refusal of a bad range.
pub fn scan_window(start: u64, end: u64, lines_max: u64) -> (r: Result<ScanWindow, SeamError>)
    requires
        lines_max >= 1,
    ensures
        r is Ok <==> is_line_range(start, end),
        r matches Ok(window) ==> window == (ScanWindow {
            start,
            end: scan_end(start, end, lines_max),
        }) && window.start <= window.end && window.end - window.start < lines_max,
        r matches Err(e) ==> e@ == (ErrorView::ScanRange { start, end }),
{
    match check_line_range(start, end) {
        Err(e) => Err(e),
        Ok(_) => Ok(ScanWindow { start, end: clamp_scan_end(start, end, lines_max) }),
    }
}

/// The lines a content is known to hold.
pub fn lines_total(length: ContentLength) -> (r: Option<u64>)
    ensures
        r == (match length {
            ContentLength::Lines(n) => Some(n),
            ContentLength::Bytes(_) => None,
        }),
{
    match length {
        ContentLength::Lines(n) => Some(n),
        ContentLength::Bytes(_) => None,
    }
}

/// The end line a scan reports: its window's, held to the lines there are
/// when they are known.
pub fn served_end(window: ScanWindow, total: Option<u64>) -> (r: u64)
    ensures
        r == (match total {
            Some(total) => if window.end <= total {
                window.end
            } else {
                total
            },
            None => window.end,
        }),
{
    match total {
        Some(total) => if window.end <= total {
            window.end
        } else {
            total
        },
        None => window.end,
    }
}

/// What `fetch` and `scan` read through the connection as text: the index's
/// text types, plus folders, whose host serves their name listing as text.
pub fn serves_text(indexable_text: bool, directory: bool) -> (r: bool)
    ensures
        r == (indexable_text || directory),
{
    indexable_text || directory
}

/// The refusal `fetch` makes before any read, local or routed: a source that
/// is not text is fetched as bytes, by name.
pub fn check_text_fetch(address: &Address, content_type: &str, served_as_text: bool) -> (r: Result<
    (),
    SeamError,
>)
    ensures
        r is Ok <==> served_as_text,
        r matches Err(e) ==> e@ == ErrorView::BinaryFetch(address@, content_type@),
{
    if served_as_text {
        Ok(())
    } else {
        Err(SeamError::BinaryFetch(address.copy(), content_type.to_owned()))
    }
}

/// The bytes a content is known to hold.
pub fn known_bytes(length: ContentLength) -> (r: Option<u64>)
    ensures
        r == (match length {
            ContentLength::Bytes(n) => Some(n),
            ContentLength::Lines(_) => None,
        }),
{
    match length {
        ContentLength::Bytes(n) => Some(n),
        ContentLength::Lines(_) => None,
    }
}

/// Refuse a byte fetch before reading when the catalog already knows the
/// size is past the bound; the read itself is the paired check.
pub fn check_bytes_bound(address: &Address, known: Option<u64>, limit: u64) -> (r: Result<
    (),
    SeamError,
>)
    ensures
        r is Err <==> (known is Some && known->0 > limit),
        r matches Err(e) ==> e@ == (ErrorView::FetchTooLarge {
            address: address@,
            bytes: known->0,
            limit,
        }),
{
    match known {
        Some(bytes) => check_bytes_read(address, bytes, limit),
        None => Ok(()),
    }
}

/// The paired check after a read: what actually came back fits one message,
/// whatever the catalog claimed.
pub fn check_bytes_read(address: &Address, bytes: u64, limit: u64) -> (r: Result<(), SeamError>)
    ensures
        r is Err <==> bytes > limit,
        r matches Err(e) ==> e@ == (ErrorView::FetchTooLarge { address: address@, bytes, limit }),
{
    if bytes > limit {
        return Err(SeamError::FetchTooLarge { address: address.copy(), bytes, limit });
    }
    Ok(())
}

/// The catalog row an address names, or the typed refusal.
pub fn source_at<S>(address: &Address, found: Option<S>) -> (r: Result<S, SeamError>)
    ensures
        match found {
            Some(source) => r == Ok::<S, SeamError>(source),
            None => r matches Err(e) && e@ == ErrorView::UnknownSource(address@),
        },
{
    match found {
        Some(source) => Ok(source),
        None => Err(SeamError::UnknownSource(address.copy())),
    }
}

/// A cataloged source's content, as the catalog knows it.
#[derive(Debug, PartialEq, Eq)]
pub struct KnownContent {
    pub content_type: String,
    pub length: ContentLength,
}

/// What the catalog knows about the content at an address: a source's content
/// type and byte size when the address is cataloged, else the mimetype of a
/// fragment that references it. Anything else is unknown: a fetch never
/// reaches for content the index has no record of.
pub fn content_at(
    address: &Address,
    cataloged: Option<KnownContent>,
    referencing: Option<String>,
) -> (r: Result<(String, Option<u64>), SeamError>)
    ensures
        match (cataloged, referencing) {
            (Some(content), _) => r matches Ok(known) && known.0 == content.content_type && known.1
                == (match content.length {
                ContentLength::Bytes(n) => Some(n),
                ContentLength::Lines(_) => None,
            }),
            (None, Some(mimetype)) => r matches Ok(known) && known.0 == mimetype && known.1 is None,
            (None, None) => r matches Err(e) && e@ == ErrorView::UnknownSource(address@),
        },
{
    if let Some(content) = cataloged {
        return Ok((content.content_type, known_bytes(content.length)));
    }
    match referencing {
        Some(mimetype) => Ok((mimetype, None)),
        None => Err(SeamError::UnknownSource(address.copy())),
    }
}

// --- What a scan serves ---

/// What a scan answers.
#[derive(Debug, PartialEq, Eq)]
pub struct ScanResponse {
    pub address: Address,
    pub mimetype: String,
    pub start: u64,
    pub end: u64,
    pub lines_total: Option<u64>,
    pub text: String,
    pub served_from_fragment: Option<i64>,
}

/// What a scan reads: the source's own lines through a reader, or, without
/// one, a text descendant. Only a text source needs a reader, so a scan of a
/// video served from its transcript never fails for want of a path to the
/// video's host.
pub fn scan_from<R>(served_as_text: bool, reader: Result<R, SeamError>) -> (r: Result<
    Option<R>,
    SeamError,
>)
    ensures
        !served_as_text ==> r == Ok::<Option<R>, SeamError>(None),
        served_as_text ==> match reader {
            Ok(reader) => r == Ok::<Option<R>, SeamError>(Some(reader)),
            Err(e) => r == Err::<Option<R>, SeamError>(e),
        },
{
    if !served_as_text {
        return Ok(None);
    }
    match reader {
        Ok(reader) => Ok(Some(reader)),
        Err(e) => Err(e),
    }
}

/// The answer to a scan of a text source.
pub fn scan_text_response(
    address: Address,
    content_type: String,
    length: ContentLength,
    window: ScanWindow,
    text: String,
) -> (r: ScanResponse)
    ensures
        r.address == address,
        r.mimetype == content_type,
        r.start == window.start,
        r.end <= window.end,
        match length {
            ContentLength::Lines(n) => r.lines_total == Some(n) && r.end == (if window.end <= n {
                window.end
            } else {
                n
            }),
            ContentLength::Bytes(_) => r.lines_total is None && r.end == window.end,
        },
        r.text == text,
        r.served_from_fragment is None,
{
    let total = lines_total(length);
    ScanResponse {
        address,
        mimetype: content_type,
        start: window.start,
        end: served_end(window, total),
        lines_total: total,
        text,
        served_from_fragment: None,
    }
}

/// The fragment that stands in for a source, read.
#[derive(Debug, PartialEq, Eq)]
pub struct StandIn {
    pub fragment: i64,
    pub mimetype: String,
    /// How many lines its text holds.
    pub lines_total: u64,
    /// The window's lines of it, or why there are none.
    pub sliced: Result<String, SeamError>,
}

/// The answer to a scan of anything but text: the lines of the fragment that
/// stands in, and which fragment that is.
pub fn scan_stand_in_response(address: Address, window: ScanWindow, stand_in: Option<StandIn>) -> (r:
    Result<ScanResponse, SeamError>)
    ensures
        match stand_in {
            None => r matches Err(e) && e@ == ErrorView::NothingToScan(address@),
            Some(read) => match read.sliced {
                Err(e) => r == Err::<ScanResponse, SeamError>(e),
                Ok(text) => r == Ok::<ScanResponse, SeamError>(
                    (ScanResponse {
                        address,
                        mimetype: read.mimetype,
                        start: window.start,
                        end: (if window.end <= read.lines_total {
                            window.end
                        } else {
                            read.lines_total
                        }),
                        lines_total: Some(read.lines_total),
                        text,
                        served_from_fragment: Some(read.fragment),
                    }),
                ),
            },
        },
{
    match stand_in {
        None => Err(SeamError::NothingToScan(address)),
        Some(read) => match read.sliced {
            Err(e) => Err(e),
            Ok(text) => Ok(
                ScanResponse {
                    address,
                    mimetype: read.mimetype,
                    start: window.start,
                    end: served_end(window, Some(read.lines_total)),
                    lines_total: Some(read.lines_total),
                    text,
                    served_from_fragment: Some(read.fragment),
                },
            ),
        },
    }
}

// --- What a scan of anything but text reads ---

/// How many bytes a character takes in UTF-8.
pub open spec fn utf8_width(c: char) -> nat {
    if (c as u32) < 0x80 {
        1
    } else if (c as u32) < 0x800 {
        2
    } else if (c as u32) < 0x1_0000 {
        3
    } else {
        4
    }
}

/// How many bytes a text takes in UTF-8.
pub open spec fn utf8_len(s: Seq<char>) -> nat
    decreases s.len(),
{
    if s.len() == 0 {
        0
    } else {
        utf8_len(s.drop_last()) + utf8_width(s.last())
    }
}

fn width_of(c: char) -> (r: u64)
    ensures
        r == utf8_width(c),
{
    let code: u32 = c as u32;
    if code < 0x80 {
        1
    } else if code < 0x800 {
        2
    } else if code < 0x1_0000 {
        3
    } else {
        4
    }
}

/// How many bytes a text takes in UTF-8.
pub fn byte_len(s: &str) -> (r: u128)
    ensures
        r == utf8_len(s@),
        r <= 4 * usize::MAX,
{
    let chars = crate::text::chars_of(s);
    let mut total: u128 = 0;
    let mut i: usize = 0;
    proof {
        assert(chars@.take(0) =~= Seq::empty());
    }
    while i < chars.len()
        invariant
            i <= chars@.len(),
            total == utf8_len(chars@.take(i as int)),
            total <= 4 * i,
        decreases chars@.len() - i,
    {
        proof {
            assert(chars@.take(i as int + 1).drop_last() =~= chars@.take(i as int));
            assert(chars@.take(i as int + 1).last() == chars@[i as int]);
        }
        total = total + width_of(chars[i]) as u128;
        i = i + 1;
    }
    proof {
        assert(chars@.take(chars@.len() as int) =~= chars@);
    }
    total
}

/// One stored fragment of a source, as a scan reads it.
#[derive(Debug, PartialEq, Eq)]
pub struct StoredFragment {
    pub id: i64,
    /// Whether the index reads its mimetype as text.
    pub indexable_text: bool,
    /// Whether it is derived understanding.
    pub inseam_defined: bool,
    pub text: Option<String>,
}

impl StoredFragment {
    /// Whether the fragment may stand in for its source: text that is source
    /// content rather than derived understanding.
    pub open spec fn may_stand_in(self) -> bool {
        self.indexable_text && !self.inseam_defined && self.text is Some
    }

    /// The size of the fragment's text.
    pub open spec fn size(self) -> nat {
        match self.text {
            Some(text) => utf8_len(text@),
            None => 0,
        }
    }
}

/// Whether the fragment at `at` is the largest that may stand in, the last
/// of equals.
pub open spec fn is_stand_in(fragments: Seq<StoredFragment>, at: int) -> bool {
    &&& 0 <= at < fragments.len()
    &&& fragments[at].may_stand_in()
    &&& forall|i: int|
        0 <= i < fragments.len() && (#[trigger] fragments[i]).may_stand_in() ==> fragments[i].size()
            <= fragments[at].size()
    &&& forall|i: int|
        at < i < fragments.len() && (#[trigger] fragments[i]).may_stand_in() ==> fragments[i].size()
            < fragments[at].size()
}

/// The fragment a scan of a non-text source reads instead: its largest text
/// fragment that is source content rather than derived understanding.
pub fn scan_stand_in(fragments: &Vec<StoredFragment>) -> (r: Option<usize>)
    ensures
        r matches Some(at) ==> is_stand_in(fragments@, at as int),
        r is None ==> forall|i: int|
            0 <= i < fragments@.len() ==> !(#[trigger] fragments@[i]).may_stand_in(),
{
    let mut best: Option<usize> = None;
    let mut best_size: u128 = 0;
    let mut i: usize = 0;
    while i < fragments.len()
        invariant
            i <= fragments@.len(),
            best matches Some(at) ==> at < i && is_stand_in(
                fragments@.take(i as int),
                at as int,
            ) && best_size == fragments@[at as int].size(),
            best is None ==> forall|j: int|
                0 <= j < i ==> !(#[trigger] fragments@[j]).may_stand_in(),
        decreases fragments@.len() - i,
    {
        let ghost seen = fragments@.take(i as int);
        let ghost now = fragments@.take(i as int + 1);
        let ghost held = best;
        let candidate = match &fragments[i].text {
            Some(text) => if fragments[i].indexable_text && !fragments[i].inseam_defined {
                Some(byte_len(text.as_str()))
            } else {
                None
            },
            None => None,
        };
        if let Some(size) = candidate {
            if best.is_none() || size >= best_size {
                best = Some(i);
                best_size = size;
            }
        }
        proof {
            assert(now[i as int] == fragments@[i as int]);
            assert forall|j: int| 0 <= j < i implies now[j] == seen[j] by {}
            if best is Some {
                let at = best->0 as int;
                assert forall|j: int|
                    0 <= j < now.len() && (#[trigger] now[j]).may_stand_in() implies now[j].size()
                    <= now[at].size() by {
                    if j < i {
                        assert(seen[j] == now[j]);
                        if held is None {
                            assert(!fragments@[j].may_stand_in());
                        }
                    }
                }
                assert forall|j: int|
                    at < j < now.len() && (#[trigger] now[j]).may_stand_in() implies now[j].size()
                    < now[at].size() by {
                    if j < i {
                        assert(seen[j] == now[j]);
                    }
                }
            }
        }
        i = i + 1;
    }
    proof {
        assert(fragments@.take(fragments@.len() as int) =~= fragments@);
    }
    best
}

/// Derived understanding never stands in for a source, however long it is.
pub proof fn law_summaries_never_stand_in(fragments: Seq<StoredFragment>, at: int, i: int)
    requires
        is_stand_in(fragments, at),
        0 <= i < fragments.len(),
        fragments[i].inseam_defined || !fragments[i].indexable_text,
    ensures
        at != i,
{
}

// --- What an expansion shows ---

/// The sources that own fragments, in order.
pub open spec fn owners(fragments: Seq<Option<i64>>) -> Seq<i64>
    decreases fragments.len(),
{
    if fragments.len() == 0 {
        Seq::empty()
    } else {
        match fragments.last() {
            Some(owner) => owners(fragments.drop_last()).push(owner),
            None => owners(fragments.drop_last()),
        }
    }
}

/// The sources whose addresses an expansion looks up, each once: a keyed
/// fragment's neighbors cluster by source.
pub fn owners_to_read(fragments: &Vec<Option<i64>>) -> (r: Vec<i64>)
    ensures
        r@ == super::vocabulary::firsts(owners(fragments@)),
{
    let mut all: Vec<i64> = Vec::new();
    let mut i: usize = 0;
    proof {
        assert(fragments@.take(0) =~= Seq::empty());
    }
    while i < fragments.len()
        invariant
            i <= fragments@.len(),
            all@ == owners(fragments@.take(i as int)),
        decreases fragments@.len() - i,
    {
        proof {
            assert(fragments@.take(i as int + 1).drop_last() =~= fragments@.take(i as int));
            assert(fragments@.take(i as int + 1).last() == fragments@[i as int]);
        }
        if let Some(owner) = fragments[i] {
            all.push(owner);
        }
        i = i + 1;
    }
    proof {
        assert(fragments@.take(fragments@.len() as int) =~= fragments@);
    }
    distinct_sources(&all)
}

/// A source and its address.
#[derive(Debug, PartialEq, Eq)]
pub struct KnownAddress {
    pub source: i64,
    pub address: Address,
}

/// The address of a source among those looked up.
pub open spec fn address_of(known: Seq<KnownAddress>, source: i64) -> Option<Address>
    decreases known.len(),
{
    if known.len() == 0 {
        None
    } else if known[0].source == source {
        Some(known[0].address)
    } else {
        address_of(known.skip(1), source)
    }
}

fn find_address(known: &Vec<KnownAddress>, source: i64) -> (r: Option<Address>)
    ensures
        r is Some <==> address_of(known@, source) is Some,
        r matches Some(address) ==> address@ == address_of(known@, source)->0@,
{
    let mut i: usize = 0;
    proof {
        assert(known@.skip(0) =~= known@);
    }
    while i < known.len()
        invariant
            i <= known@.len(),
            address_of(known@, source) == address_of(known@.skip(i as int), source),
        decreases known@.len() - i,
    {
        proof {
            assert(known@.skip(i as int)[0] == known@[i as int]);
            assert(known@.skip(i as int).skip(1) =~= known@.skip(i as int + 1));
        }
        if known[i].source == source {
            return Some(known[i].address.copy());
        }
        i = i + 1;
    }
    None
}

/// Each neighbor's source address. A source that was not found only leaves
/// the hop unaddressed, never fails the expansion.
pub fn neighbor_addresses(fragments: &Vec<Option<i64>>, known: &Vec<KnownAddress>) -> (r: Vec<
    Option<Address>,
>)
    ensures
        r@.len() == fragments@.len(),
        forall|i: int|
            0 <= i < fragments@.len() ==> match fragments@[i] {
                None => (#[trigger] r@[i]) is None,
                Some(owner) => match address_of(known@, owner) {
                    None => r@[i] is None,
                    Some(address) => r@[i] is Some && r@[i]->0@ == address@,
                },
            },
{
    let mut out: Vec<Option<Address>> = Vec::new();
    let mut i: usize = 0;
    while i < fragments.len()
        invariant
            i <= fragments@.len(),
            out@.len() == i,
            forall|j: int|
                0 <= j < i ==> match fragments@[j] {
                    None => (#[trigger] out@[j]) is None,
                    Some(owner) => match address_of(known@, owner) {
                        None => out@[j] is None,
                        Some(address) => out@[j] is Some && out@[j]->0@ == address@,
                    },
                },
        decreases fragments@.len() - i,
    {
        let address = match fragments[i] {
            Some(owner) => find_address(known, owner),
            None => None,
        };
        out.push(address);
        i = i + 1;
    }
    out
}


/// A scan serves the lines asked for from the first on, all of them or as
/// many as it may.
pub proof fn law_a_scan_serves_as_much_as_it_may(start: u64, end: u64, lines_max: u64)
    requires
        is_line_range(start, end),
        lines_max >= 1,
    ensures
        start <= scan_end(start, end, lines_max) <= end,
        scan_end(start, end, lines_max) - start + 1 <= lines_max,
        scan_end(start, end, lines_max) == end || scan_end(start, end, lines_max) - start + 1
            == lines_max,
{
}

/// A text's bytes are those of its parts, and a character takes between one
/// and four.
pub proof fn law_sizes_add_up(a: Seq<char>, b: Seq<char>, c: char)
    ensures
        utf8_len(a + b) == utf8_len(a) + utf8_len(b),
        utf8_len(seq![c]) == utf8_width(c),
        1 <= utf8_width(c) <= 4,
        a.len() <= utf8_len(a) <= 4 * a.len(),
    decreases b.len(), a.len(),
{
    assert(seq![c].drop_last() =~= Seq::<char>::empty());
    assert(utf8_len(seq![c]) == utf8_len(seq![c].drop_last()) + utf8_width(c));
    if b.len() > 0 {
        law_sizes_add_up(a, b.drop_last(), c);
        assert((a + b).drop_last() =~= a + b.drop_last());
    } else {
        assert(a + b =~= a);
        if a.len() > 0 {
            law_sizes_add_up(a.drop_last(), b, c);
        }
    }
}

/// The owners of fragments are those there are, in order, and a source's
/// address is the first one known for it.
pub proof fn law_owners_and_their_addresses_are_found(
    fragments: Seq<Option<i64>>,
    known: Seq<KnownAddress>,
    source: i64,
)
    ensures
        owners(fragments) == fragments.filter(|owner: Option<i64>| owner is Some).map_values(
            |owner: Option<i64>| owner->0,
        ),
        match address_of(known, source) {
            Some(address) => exists|i: int|
                0 <= i < known.len() && (#[trigger] known[i]).source == source && known[i].address
                    == address && forall|j: int|
                    0 <= j < i ==> (#[trigger] known[j]).source != source,
            None => forall|i: int|
                0 <= i < known.len() ==> (#[trigger] known[i]).source != source,
        },
{
    lemma_owners(fragments);
    lemma_address(known, source);
}

proof fn lemma_owners(fragments: Seq<Option<i64>>)
    ensures
        owners(fragments) == fragments.filter(|owner: Option<i64>| owner is Some).map_values(
            |owner: Option<i64>| owner->0,
        ),
    decreases fragments.len(),
{
    reveal(Seq::filter);
    if fragments.len() > 0 {
        lemma_owners(fragments.drop_last());
    }
    assert(owners(fragments) =~= fragments.filter(|owner: Option<i64>| owner is Some).map_values(
        |owner: Option<i64>| owner->0,
    ));
}

proof fn lemma_address(known: Seq<KnownAddress>, source: i64)
    ensures
        match address_of(known, source) {
            Some(address) => exists|i: int|
                0 <= i < known.len() && (#[trigger] known[i]).source == source && known[i].address
                    == address && forall|j: int|
                    0 <= j < i ==> (#[trigger] known[j]).source != source,
            None => forall|i: int|
                0 <= i < known.len() ==> (#[trigger] known[i]).source != source,
        },
    decreases known.len(),
{
    if known.len() > 0 {
        if known[0].source == source {
            assert(known[0].source == source);
        } else {
            let rest = known.skip(1);
            lemma_address(rest, source);
            match address_of(known, source) {
                Some(address) => {
                    let i = choose|i: int|
                        0 <= i < rest.len() && (#[trigger] rest[i]).source == source
                            && rest[i].address == address && forall|j: int|
                            0 <= j < i ==> (#[trigger] rest[j]).source != source;
                    assert(known[i + 1] == rest[i]);
                    assert forall|j: int| 0 <= j < i + 1 implies (#[trigger] known[j]).source
                        != source by {
                        if j > 0 {
                            assert(rest[j - 1] == known[j]);
                        }
                    }
                },
                None => {
                    assert forall|i: int| 0 <= i < known.len() implies (
                    #[trigger] known[i]).source != source by {
                        if i > 0 {
                            assert(rest[i - 1] == known[i]);
                        }
                    }
                },
            }
        }
    }
}
} // verus!
