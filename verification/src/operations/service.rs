//! What the operations provider decides before it serves: who reads a host,
//! where an expansion is answered, which host an index request means, and
//! how a refused edit is told.

use vstd::prelude::*;
use crate::seam::{Address, AddressView, ErrorView, SeamError};
use crate::text;
use super::ladder::{check_bytes_bound, check_text_fetch, content_at, source_at, KnownContent};

verus! {

/// Catalog entries one listing may return; counts still cover everything.
pub const CATALOG_LIMIT_MAX: u32 = 10_000;

#[derive(Debug, PartialEq, Eq)]
pub struct OperationsPlugin;

#[derive(Debug, PartialEq, Eq)]
pub struct OperationsFactory;

impl OperationsFactory {
    /// The entry kind a composition names the plugin by.
    pub fn name(&self) -> (r: &'static str)
        ensures
            r@ == "operations"@,
    {
        "operations"
    }
}

/// The entries one catalog listing returns.
pub fn clamp_catalog_limit(limit: u32) -> (r: u32)
    ensures
        r == (if limit < 1 {
            1
        } else if limit > CATALOG_LIMIT_MAX {
            CATALOG_LIMIT_MAX
        } else {
            limit
        }),
{
    if limit < 1 {
        1
    } else if limit > CATALOG_LIMIT_MAX {
        CATALOG_LIMIT_MAX
    } else {
        limit
    }
}

/// Where a rung reads source content from.
#[derive(Debug, Clone, Copy, PartialEq, Eq)]
pub enum ReaderFrom {
    /// The steward's own connection.
    Connection,
    /// The routing seam, when the steward is another node.
    Routing,
}

/// How this node reads a host's content: its own connection when it stewards
/// the host, else the routing seam toward whichever node does. A host nobody
/// here can reach is unknown.
pub fn reader_for(host: &str, stewarded: bool, routed: bool) -> (r: Result<ReaderFrom, SeamError>)
    ensures
        r is Ok <==> (stewarded || routed),
        r matches Ok(from) ==> from == (if stewarded {
            ReaderFrom::Connection
        } else {
            ReaderFrom::Routing
        }),
        r matches Err(e) ==> e@ == ErrorView::UnknownHost(host@),
{
    if stewarded {
        Ok(ReaderFrom::Connection)
    } else if routed {
        Ok(ReaderFrom::Routing)
    } else {
        Err(SeamError::UnknownHost(host.to_owned()))
    }
}

/// Where an `expand` of a source is answered.
#[derive(Debug, Clone, Copy, PartialEq, Eq)]
pub enum ExpandFrom {
    /// This node's own index.
    Index,
    /// The node that stewards the host.
    Routing,
}

/// Where an `expand` of a source is answered: from this node's index when it
/// stewards the host or deep-indexed the source itself, else across the
/// network.
pub fn expand_from(host: &str, stewarded: bool, deep_indexed: bool, routed: bool) -> (r: Result<
    ExpandFrom,
    SeamError,
>)
    ensures
        r is Ok <==> (stewarded || deep_indexed || routed),
        r matches Ok(from) ==> from == (if stewarded || deep_indexed {
            ExpandFrom::Index
        } else {
            ExpandFrom::Routing
        }),
        r matches Err(e) ==> e@ == ErrorView::UnknownHost(host@),
{
    if stewarded || deep_indexed {
        Ok(ExpandFrom::Index)
    } else if routed {
        Ok(ExpandFrom::Routing)
    } else {
        Err(SeamError::UnknownHost(host.to_owned()))
    }
}

/// What a grant operation is told on a node without the oauth entry.
pub open spec fn oauth_inactive() -> Seq<char> {
    "the oauth entry is not active on this node"@
}

/// What a grant that is not configured is told.
pub open spec fn no_grant(id: Seq<char>) -> Seq<char> {
    "no grant `"@ + id + "` is configured on this node"@
}

/// Whether a grant can be asked for: the oauth entry is active, and the grant
/// is configured.
pub fn check_grant(id: &str, oauth_active: bool, configured: bool) -> (r: Result<(), SeamError>)
    ensures
        r is Ok <==> oauth_active && configured,
        r matches Err(e) ==> e@ == ErrorView::Unavailable(
            if oauth_active {
                no_grant(id@)
            } else {
                oauth_inactive()
            },
        ),
{
    if !oauth_active {
        return Err(
            SeamError::Unavailable("the oauth entry is not active on this node".to_owned()),
        );
    }
    if !configured {
        let mut message = "no grant `".to_owned();
        message.append(id);
        message.append("` is configured on this node");
        return Err(SeamError::Unavailable(message));
    }
    Ok(())
}

/// A source a fetch names, as the catalog knows it.
#[derive(Debug, PartialEq, Eq)]
pub struct FetchedSource {
    pub content_type: String,
    pub served_as_text: bool,
}

/// What a text fetch is refused with before anything is read.
pub open spec fn fetch_refusal(
    address: AddressView,
    source: Option<FetchedSource>,
    stewarded: bool,
    routed: bool,
) -> Option<ErrorView> {
    match source {
        None => Some(ErrorView::UnknownSource(address)),
        Some(known) => if !known.served_as_text {
            Some(ErrorView::BinaryFetch(address, known.content_type@))
        } else if !stewarded && !routed {
            Some(ErrorView::UnknownHost(address.host))
        } else {
            None
        },
    }
}

/// Where a text fetch reads, or why it is refused, in order: a source the
/// catalog does not know, one that is not text, a host nobody here can reach.
pub fn fetch_from(
    address: &Address,
    source: Option<FetchedSource>,
    stewarded: bool,
    routed: bool,
) -> (r: Result<ReaderFrom, SeamError>)
    ensures
        r is Ok <==> fetch_refusal(address@, source, stewarded, routed) is None,
        r matches Err(e) ==> fetch_refusal(address@, source, stewarded, routed) == Some(e@),
        r matches Ok(from) ==> from == (if stewarded {
            ReaderFrom::Connection
        } else {
            ReaderFrom::Routing
        }),
{
    match source_at(address, source) {
        Err(e) => Err(e),
        Ok(known) => match check_text_fetch(
            address,
            known.content_type.as_str(),
            known.served_as_text,
        ) {
            Err(e) => Err(e),
            Ok(_) => reader_for(address.host.as_str(), stewarded, routed),
        },
    }
}

/// What a byte fetch is refused with before anything is read.
pub open spec fn bytes_refusal(
    address: AddressView,
    cataloged: Option<KnownContent>,
    referencing: Option<String>,
    limit: u64,
    stewarded: bool,
    routed: bool,
) -> Option<ErrorView> {
    if cataloged is None && referencing is None {
        Some(ErrorView::UnknownSource(address))
    } else if cataloged is Some && cataloged->0.length is Bytes && cataloged->0.length->Bytes_0
        > limit {
        Some(
            ErrorView::FetchTooLarge { address, bytes: cataloged->0.length->Bytes_0, limit },
        )
    } else if !stewarded && !routed {
        Some(ErrorView::UnknownHost(address.host))
    } else {
        None
    }
}

/// Where a byte fetch reads and as what content type, or why it is refused,
/// in order: content the index has no record of, content the catalog knows is
/// too large, a host nobody here can reach.
pub fn fetch_bytes_from(
    address: &Address,
    cataloged: Option<KnownContent>,
    referencing: Option<String>,
    limit: u64,
    stewarded: bool,
    routed: bool,
) -> (r: Result<(ReaderFrom, String), SeamError>)
    ensures
        r is Ok <==> bytes_refusal(
            address@,
            cataloged,
            referencing,
            limit,
            stewarded,
            routed,
        ) is None,
        r matches Err(e) ==> bytes_refusal(
            address@,
            cataloged,
            referencing,
            limit,
            stewarded,
            routed,
        ) == Some(e@),
        r matches Ok(from) ==> from.0 == (if stewarded {
            ReaderFrom::Connection
        } else {
            ReaderFrom::Routing
        }) && from.1 == (match cataloged {
            Some(content) => content.content_type,
            None => referencing->0,
        }),
{
    match content_at(address, cataloged, referencing) {
        Err(e) => Err(e),
        Ok((content_type, known)) => match check_bytes_bound(address, known, limit) {
            Err(e) => Err(e),
            Ok(_) => match reader_for(address.host.as_str(), stewarded, routed) {
                Err(e) => Err(e),
                Ok(from) => Ok((from, content_type)),
            },
        },
    }
}

/// A host and whether its connection enumerates.
#[derive(Debug, PartialEq, Eq)]
pub struct MountedHost {
    pub id: String,
    pub enumerates: bool,
}

/// What a fetch-only host named as a scope is told.
pub open spec fn fetch_only(host: Seq<char>) -> Seq<char> {
    "host `"@ + host + "` serves fetches only and cannot be swept"@
}

/// Whether the host an index request named, as it resolved, can be swept: a
/// fetch-only host has nothing to enumerate.
pub fn host_for_index(named: &str, resolved: Option<MountedHost>) -> (r: Result<String, SeamError>)
    ensures
        match resolved {
            None => r matches Err(e) && e@ == ErrorView::UnknownHost(named@),
            Some(host) => if host.enumerates {
                r == Ok::<String, SeamError>(host.id)
            } else {
                r matches Err(e) && e@ == ErrorView::Refused(fetch_only(host.id@))
            },
        },
{
    match resolved {
        None => Err(SeamError::UnknownHost(named.to_owned())),
        Some(host) => {
            if host.enumerates {
                return Ok(host.id);
            }
            let mut message = "host `".to_owned();
            message.append(host.id.as_str());
            message.append("` serves fetches only and cannot be swept");
            Err(SeamError::Refused(message))
        },
    }
}

/// The boundary guard: a denial refuses the operation with its reason.
pub fn guard(denied: Option<String>) -> (r: Result<(), SeamError>)
    ensures
        r is Ok <==> denied is None,
        r matches Err(e) ==> e@ == ErrorView::Refused(denied->0@),
{
    match denied {
        None => Ok(()),
        Some(reason) => Err(SeamError::Refused(reason)),
    }
}

/// How a composition edit failed.
#[derive(Debug, Clone, Copy, PartialEq, Eq)]
pub enum EditFailure {
    EntryExists,
    MountFailed,
    ConfigureFailed,
    EditsUnserviced,
    EditQueueFull,
    Other,
}

/// A composition edit's failure in seam vocabulary: a mount the node refused
/// or rolled back is a refusal the owner acts on; a runtime that does not
/// apply edits is a missing capability; the rest failed.
pub fn edit_error(failure: EditFailure, message: String) -> (r: SeamError)
    ensures
        r@ == (match failure {
            EditFailure::EntryExists | EditFailure::MountFailed
            | EditFailure::ConfigureFailed => ErrorView::Refused(message@),
            EditFailure::EditsUnserviced | EditFailure::EditQueueFull => ErrorView::Unavailable(
                message@,
            ),
            EditFailure::Other => ErrorView::Failed(message@),
        }),
{
    match failure {
        EditFailure::EntryExists => SeamError::Refused(message),
        EditFailure::MountFailed => SeamError::Refused(message),
        EditFailure::ConfigureFailed => SeamError::Refused(message),
        EditFailure::EditsUnserviced => SeamError::Unavailable(message),
        EditFailure::EditQueueFull => SeamError::Unavailable(message),
        EditFailure::Other => SeamError::Failed(message),
    }
}

/// What an install of an entry that already runs is told.
pub open spec fn already_runs(id: Seq<char>) -> Seq<char> {
    "this node already runs an entry `"@ + id + "`; remove it from the composition first"@
}

/// What an install into a directory that is already there is told.
pub open spec fn already_there(directory: Seq<char>) -> Seq<char> {
    directory + " already exists; remove that directory (and any entry naming it) first"@
}

/// Whether a planned install may write: no entry with its id runs, and its
/// directory is not there. Refused before any file is written.
pub fn check_install(
    id: &str,
    running: &Vec<String>,
    directory: &str,
    directory_exists: bool,
) -> (r: Result<(), SeamError>)
    ensures
        r is Ok <==> (!text::views(running@).contains(id@) && !directory_exists),
        r matches Err(e) ==> e@ == ErrorView::Refused(
            if text::views(running@).contains(id@) {
                already_runs(id@)
            } else {
                already_there(directory@)
            },
        ),
{
    if text::holds(running, id) {
        let mut message = "this node already runs an entry `".to_owned();
        message.append(id);
        message.append("`; remove it from the composition first");
        return Err(SeamError::Refused(message));
    }
    if directory_exists {
        let mut message = directory.to_owned();
        message.append(" already exists; remove that directory (and any entry naming it) first");
        return Err(SeamError::Refused(message));
    }
    Ok(())
}

/// What an install that mounted nothing to show is told.
pub open spec fn missing_mount(id: Seq<char>) -> Seq<char> {
    "entry `"@ + id + "` was mounted but is missing from the snapshot"@
}

/// Where the mounted entry stands in the snapshot its edit brought back.
pub fn mounted_at(id: &str, fibers: &Vec<String>) -> (r: Result<usize, SeamError>)
    ensures
        r is Ok <==> text::views(fibers@).contains(id@),
        r matches Ok(at) ==> at < fibers@.len() && fibers@[at as int]@ == id@ && forall|i: int|
            0 <= i < at ==> (#[trigger] fibers@[i])@ != id@,
        r matches Err(e) ==> e@ == ErrorView::Failed(missing_mount(id@)),
{
    let mut i: usize = 0;
    while i < fibers.len()
        invariant
            i <= fibers@.len(),
            forall|j: int| 0 <= j < i ==> (#[trigger] fibers@[j])@ != id@,
        decreases fibers@.len() - i,
    {
        if text::same(fibers[i].as_str(), id) {
            proof {
                assert(text::views(fibers@)[i as int] == id@);
            }
            return Ok(i);
        }
        i = i + 1;
    }
    let mut message = "entry `".to_owned();
    message.append(id);
    message.append("` was mounted but is missing from the snapshot");
    Err(SeamError::Failed(message))
}


/// Text is fetched exactly where the catalog knows the source, serves it as
/// text, and a connection or another node can reach its host; bytes where
/// the index has some record of them and the catalog does not know them to
/// be too many.
pub proof fn law_what_can_be_fetched(
    address: AddressView,
    source: Option<FetchedSource>,
    cataloged: Option<KnownContent>,
    referencing: Option<String>,
    limit: u64,
    stewarded: bool,
    routed: bool,
)
    ensures
        fetch_refusal(address, source, stewarded, routed) is None <==> source is Some
            && source->0.served_as_text && (stewarded || routed),
        bytes_refusal(address, cataloged, referencing, limit, stewarded, routed) is None <==> (
        cataloged is Some || referencing is Some) && (stewarded || routed) && !(cataloged is Some
            && cataloged->0.length is Bytes && cataloged->0.length->Bytes_0 > limit),
{
}
} // verus!
