//! The wire form of a routed request and its reply. Bounds are checked on
//! both sides of the wire: a request is checked before it is sent and again
//! when it is received, and a malformed one is refused by name rather than
//! served. A reply is framed by its first byte: `0` for JSON, `1` for the raw
//! bytes of a successful read.

use vstd::prelude::*;
use crate::operations::ladder;
use crate::operations::ladder::QUERY_LIMIT_MAX;
use crate::operations::merge::QueryResult;
use crate::seam;
use crate::seam::{Address, ErrorView, NodeId, SeamError};
use crate::text;

verus! {

/// The protocol name the handler registers under and every request names.
pub const ROUTE_PROTOCOL: &'static str = "inseam/route/1";

/// Most bytes a routed request may occupy.
pub const REQUEST_BYTES_MAX: usize = 65_536;

/// The kind a relay answers with when nobody it tried could serve the host.
pub const ERROR_KIND_UNREACHABLE: &'static str = "unreachable";

pub const TAG_JSON: u8 = 0;

pub const TAG_BYTES: u8 = 1;

/// What a routed request asks of the steward: a rung of the ladder, or a
/// query of the serving node's own index.
#[derive(Debug, PartialEq, Eq)]
pub enum RouteBody {
    ReadText { address: Address },
    ReadLines { address: Address, start: u64, end: u64 },
    ReadBytes { address: Address },
    Describe { address: Address },
    Expand { address: Address },
    Scan { address: Address, start: u64, end: u64 },
    /// Answered from the serving node's index and never forwarded.
    Query { text: String, limit: u32 },
}

/// One routed request: how many more nodes it may cross, which nodes it has
/// crossed (the requester first), and what it asks.
#[derive(Debug, PartialEq, Eq)]
pub struct RouteRequest {
    pub hops_remaining: u32,
    pub visited: Vec<NodeId>,
    pub body: RouteBody,
}

/// What a malformed request is told.
pub open spec fn malformed_view(why: Seq<char>) -> ErrorView {
    ErrorView::Refused("route request is malformed: "@ + why)
}

fn malformed(why: &str) -> (r: SeamError)
    ensures
        r@ == malformed_view(why@),
{
    let mut message = "route request is malformed: ".to_owned();
    message.append(why);
    SeamError::Refused(message)
}

impl RouteBody {
    /// The address a body names; a query names none.
    pub open spec fn address_view(self) -> Option<Address> {
        match self {
            RouteBody::ReadText { address } => Some(address),
            RouteBody::ReadLines { address, .. } => Some(address),
            RouteBody::ReadBytes { address } => Some(address),
            RouteBody::Describe { address } => Some(address),
            RouteBody::Expand { address } => Some(address),
            RouteBody::Scan { address, .. } => Some(address),
            RouteBody::Query { .. } => None,
        }
    }

    /// The operation's name.
    pub open spec fn name_view(self) -> Seq<char> {
        match self {
            RouteBody::ReadText { .. } => "read_text"@,
            RouteBody::ReadLines { .. } => "read_lines"@,
            RouteBody::ReadBytes { .. } => "read_bytes"@,
            RouteBody::Describe { .. } => "describe"@,
            RouteBody::Expand { .. } => "expand"@,
            RouteBody::Scan { .. } => "scan"@,
            RouteBody::Query { .. } => "query"@,
        }
    }

    /// What a body whose arguments are not well-formed is refused with.
    pub open spec fn refusal(self) -> Option<ErrorView> {
        match self {
            RouteBody::ReadLines { start, end, .. } => if ladder::is_line_range(start, end) {
                None
            } else {
                Some(ErrorView::ScanRange { start, end })
            },
            RouteBody::Scan { start, end, .. } => if ladder::is_line_range(start, end) {
                None
            } else {
                Some(ErrorView::ScanRange { start, end })
            },
            RouteBody::Query { text, limit } => if text@.len() == 0 {
                Some(malformed_view("query text is empty"@))
            } else if limit == 0 {
                Some(malformed_view("query limit is zero"@))
            } else if limit > QUERY_LIMIT_MAX {
                Some(
                    malformed_view(
                        "query limit "@ + text::decimal(limit as nat) + " exceeds "@
                            + text::decimal(QUERY_LIMIT_MAX as nat),
                    ),
                )
            } else {
                None
            },
            _ => None,
        }
    }

    /// The address a body names; a query lands wherever it is sent.
    pub fn address(&self) -> (r: Option<&Address>)
        ensures
            r is Some <==> self.address_view() is Some,
            r matches Some(address) ==> self.address_view() == Some(*address),
    {
        match self {
            RouteBody::ReadText { address } => Some(address),
            RouteBody::ReadLines { address, .. } => Some(address),
            RouteBody::ReadBytes { address } => Some(address),
            RouteBody::Describe { address } => Some(address),
            RouteBody::Expand { address } => Some(address),
            RouteBody::Scan { address, .. } => Some(address),
            RouteBody::Query { .. } => None,
        }
    }

    /// The host the request must land on.
    pub fn host(&self) -> (r: Option<&String>)
        ensures
            r is Some <==> self.address_view() is Some,
            r matches Some(host) ==> *host == self.address_view()->0.host,
    {
        match self.address() {
            Some(address) => Some(&address.host),
            None => None,
        }
    }

    /// The operation's name, for logs and refusals.
    pub fn name(&self) -> (r: &'static str)
        ensures
            r@ == self.name_view(),
    {
        match self {
            RouteBody::ReadText { .. } => "read_text",
            RouteBody::ReadLines { .. } => "read_lines",
            RouteBody::ReadBytes { .. } => "read_bytes",
            RouteBody::Describe { .. } => "describe",
            RouteBody::Expand { .. } => "expand",
            RouteBody::Scan { .. } => "scan",
            RouteBody::Query { .. } => "query",
        }
    }

    /// Whether the body's own arguments are well-formed.
    pub fn check_bounds(&self) -> (r: Result<(), SeamError>)
        ensures
            r is Ok <==> self.refusal() is None,
            r matches Err(e) ==> self.refusal() == Some(e@),
    {
        match self {
            RouteBody::ReadLines { start, end, .. } => ladder::check_line_range(*start, *end),
            RouteBody::Scan { start, end, .. } => ladder::check_line_range(*start, *end),
            RouteBody::Query { text, limit } => {
                if text.as_str().unicode_len() == 0 {
                    return Err(malformed("query text is empty"));
                }
                if *limit == 0 {
                    return Err(malformed("query limit is zero"));
                }
                if *limit as usize > QUERY_LIMIT_MAX {
                    let mut why = "query limit ".to_owned();
                    why.append(text::number(*limit as u64).as_str());
                    why.append(" exceeds ");
                    why.append(text::number(QUERY_LIMIT_MAX as u64).as_str());
                    return Err(malformed(why.as_str()));
                }
                Ok(())
            },
            _ => Ok(()),
        }
    }
}

/// Whether a list holds a node among its first `n`.
pub open spec fn crossed(visited: Seq<NodeId>, node: NodeId, n: int) -> bool {
    exists|i: int| 0 <= i < n && #[trigger] visited[i] == node
}

/// Whether a list of nodes holds one.
pub fn holds_node(nodes: &Vec<NodeId>, node: &NodeId) -> (r: bool)
    ensures
        r == nodes@.contains(*node),
{
    let mut i: usize = 0;
    while i < nodes.len()
        invariant
            i <= nodes@.len(),
            forall|j: int| 0 <= j < i ==> #[trigger] nodes@[j] != *node,
        decreases nodes@.len() - i,
    {
        if nodes[i].same(node) {
            return true;
        }
        i = i + 1;
    }
    false
}

/// The first node from `at` on that stands in the list before.
pub open spec fn first_repeat(visited: Seq<NodeId>, at: int) -> Option<NodeId>
    decreases visited.len() - at,
{
    if at < 0 || at >= visited.len() {
        None
    } else if crossed(visited, visited[at], at) {
        Some(visited[at])
    } else {
        first_repeat(visited, at + 1)
    }
}

impl RouteRequest {
    /// What a request out of bounds is refused with, where a request may
    /// cross `hops_max` nodes and its list name one more.
    pub open spec fn refusal(self, hops_max: u32) -> Option<ErrorView> {
        if self.hops_remaining > hops_max {
            Some(
                malformed_view(
                    "hops_remaining "@ + text::decimal(self.hops_remaining as nat) + " exceeds "@
                        + text::decimal(hops_max as nat),
                ),
            )
        } else if self.visited@.len() == 0 {
            Some(malformed_view("visited names no requester"@))
        } else if self.visited@.len() > hops_max + 1 {
            Some(
                malformed_view(
                    "visited names "@ + text::decimal(self.visited@.len())
                        + " nodes; the bound is "@ + text::decimal((hops_max + 1) as nat),
                ),
            )
        } else {
            match first_repeat(self.visited@, 0) {
                Some(node) => Some(
                    malformed_view("visited names node "@ + node.short_view() + " twice"@),
                ),
                None => self.body.refusal(),
            }
        }
    }

    /// The bounds every request must satisfy, checked before send and after
    /// receive: a hop budget within `hops_max`, a visited list within one
    /// more with no node twice, and a body whose own arguments are
    /// well-formed.
    pub fn check_bounds(&self, hops_max: u32) -> (r: Result<(), SeamError>)
        ensures
            r is Ok <==> self.refusal(hops_max) is None,
            r matches Err(e) ==> self.refusal(hops_max) == Some(e@),
    {
        if self.hops_remaining > hops_max {
            let mut why = "hops_remaining ".to_owned();
            why.append(text::number(self.hops_remaining as u64).as_str());
            why.append(" exceeds ");
            why.append(text::number(hops_max as u64).as_str());
            return Err(malformed(why.as_str()));
        }
        if self.visited.len() == 0 {
            return Err(malformed("visited names no requester"));
        }
        if self.visited.len() as u64 > hops_max as u64 + 1 {
            let mut why = "visited names ".to_owned();
            why.append(text::number(self.visited.len() as u64).as_str());
            why.append(" nodes; the bound is ");
            why.append(text::number(hops_max as u64 + 1).as_str());
            return Err(malformed(why.as_str()));
        }
        let mut i: usize = 0;
        while i < self.visited.len()
            invariant
                i <= self.visited@.len(),
                self.visited@.len() > 0,
                self.hops_remaining <= hops_max,
                self.visited@.len() <= hops_max + 1,
                first_repeat(self.visited@, 0) == first_repeat(self.visited@, i as int),
            decreases self.visited@.len() - i,
        {
            let mut j: usize = 0;
            while j < i
                invariant
                    j <= i < self.visited@.len(),
                    self.visited@.len() > 0,
                    self.hops_remaining <= hops_max,
                    self.visited@.len() <= hops_max + 1,
                    first_repeat(self.visited@, 0) == first_repeat(self.visited@, i as int),
                    forall|k: int|
                        0 <= k < j ==> #[trigger] self.visited@[k] != self.visited@[i as int],
                decreases i - j,
            {
                if self.visited[j].same(&self.visited[i]) {
                    let mut why = "visited names node ".to_owned();
                    why.append(self.visited[i].short().as_str());
                    why.append(" twice");
                    proof {
                        assert(crossed(self.visited@, self.visited@[i as int], i as int));
                    }
                    return Err(malformed(why.as_str()));
                }
                j = j + 1;
            }
            i = i + 1;
        }
        self.body.check_bounds()
    }
}

/// A well-formed request names every node it crossed once, the requester
/// among them, and no more of them than its hop budget allows.
pub proof fn law_well_formed_requests_name_each_node_once(request: RouteRequest, hops_max: u32)
    requires
        request.refusal(hops_max) is None,
    ensures
        1 <= request.visited@.len() <= hops_max + 1,
        request.hops_remaining <= hops_max,
        request.visited@.no_duplicates(),
{
    assert forall|i: int, j: int|
        0 <= i < request.visited@.len() && 0 <= j < request.visited@.len() && i
            != j implies request.visited@[i] != request.visited@[j] by {
        if i < j {
            lemma_no_repeat(request.visited@, 0, j);
        } else {
            lemma_no_repeat(request.visited@, 0, i);
        }
    }
}

proof fn lemma_no_repeat(visited: Seq<NodeId>, at: int, i: int)
    requires
        first_repeat(visited, at) is None,
        0 <= at <= i < visited.len(),
    ensures
        !crossed(visited, visited[i], i),
    decreases i - at,
{
    if at < i {
        lemma_no_repeat(visited, at + 1, i);
    }
}

// --- Requests as bytes ---

/// What a request too large for the wire is told.
pub open spec fn too_large(bytes: nat) -> ErrorView {
    malformed_view(
        "request is "@ + text::decimal(bytes) + " bytes; the bound is "@ + text::decimal(
            REQUEST_BYTES_MAX as nat,
        ),
    )
}

fn check_size(bytes: usize) -> (r: Result<(), SeamError>)
    ensures
        r is Ok <==> bytes <= REQUEST_BYTES_MAX,
        r matches Err(e) ==> e@ == too_large(bytes as nat),
{
    if bytes > REQUEST_BYTES_MAX {
        let mut why = "request is ".to_owned();
        why.append(text::number(bytes as u64).as_str());
        why.append(" bytes; the bound is ");
        why.append(text::number(REQUEST_BYTES_MAX as u64).as_str());
        return Err(malformed(why.as_str()));
    }
    Ok(())
}

/// The bytes a request is sent as, given its JSON: refused where the request
/// is out of bounds, where it did not encode, and where it is too large.
pub fn encode_request(request: &RouteRequest, json: Result<Vec<u8>, String>, hops_max: u32) -> (r:
    Result<Vec<u8>, SeamError>)
    ensures
        match request.refusal(hops_max) {
            Some(refusal) => r matches Err(e) && e@ == refusal,
            None => match json {
                Err(reason) => r matches Err(e) && e@ == ErrorView::Failed(
                    "encoding a route request: "@ + reason@,
                ),
                Ok(bytes) => if bytes@.len() > REQUEST_BYTES_MAX {
                    r matches Err(e) && e@ == too_large(bytes@.len())
                } else {
                    r == Ok::<Vec<u8>, SeamError>(bytes)
                },
            },
        },
{
    match request.check_bounds(hops_max) {
        Err(e) => return Err(e),
        Ok(_) => {},
    }
    match json {
        Err(reason) => {
            let mut message = "encoding a route request: ".to_owned();
            message.append(reason.as_str());
            Err(SeamError::Failed(message))
        },
        Ok(bytes) => match check_size(bytes.len()) {
            Err(e) => Err(e),
            Ok(_) => Ok(bytes),
        },
    }
}

/// A received request, given its size and what its JSON parsed to: anything
/// malformed is refused by name before any of it is acted on.
pub fn decode_request(bytes: usize, parsed: Result<RouteRequest, String>, hops_max: u32) -> (r:
    Result<RouteRequest, SeamError>)
    ensures
        if bytes > REQUEST_BYTES_MAX {
            r matches Err(e) && e@ == too_large(bytes as nat)
        } else {
            match parsed {
                Err(reason) => r matches Err(e) && e@ == malformed_view(reason@),
                Ok(request) => match request.refusal(hops_max) {
                    Some(refusal) => r matches Err(e) && e@ == refusal,
                    None => r == Ok::<RouteRequest, SeamError>(request),
                },
            }
        },
{
    match check_size(bytes) {
        Err(e) => return Err(e),
        Ok(_) => {},
    }
    match parsed {
        Err(reason) => Err(malformed(reason.as_str())),
        Ok(request) => match request.check_bounds(hops_max) {
            Err(e) => Err(e),
            Ok(_) => Ok(request),
        },
    }
}

// --- Replies as bytes ---

/// A reply as it crosses the wire.
#[derive(Debug, PartialEq, Eq)]
pub enum Frame {
    /// A JSON response.
    Json(Vec<u8>),
    /// The raw bytes of a fetch.
    Bytes(Vec<u8>),
}

/// What a frame holds.
#[verifier::ext_equal]
pub enum FrameView {
    Json(Seq<u8>),
    Bytes(Seq<u8>),
}

impl View for Frame {
    type V = FrameView;

    open spec fn view(&self) -> FrameView {
        match self {
            Frame::Json(bytes) => FrameView::Json(bytes@),
            Frame::Bytes(bytes) => FrameView::Bytes(bytes@),
        }
    }
}

/// The bytes of a frame: its tag, then what it holds.
pub open spec fn framed(frame: FrameView) -> Seq<u8> {
    match frame {
        FrameView::Json(bytes) => seq![TAG_JSON] + bytes,
        FrameView::Bytes(bytes) => seq![TAG_BYTES] + bytes,
    }
}

/// What bytes that are no frame are told.
pub open spec fn frame_refusal(bytes: Seq<u8>) -> Option<Seq<char>> {
    if bytes.len() == 0 {
        Some("route response is empty"@)
    } else if bytes[0] != TAG_JSON && bytes[0] != TAG_BYTES {
        Some("route response carries unknown framing tag "@ + text::decimal(bytes[0] as nat))
    } else {
        None
    }
}

/// The frame some bytes hold.
pub open spec fn unframed(bytes: Seq<u8>) -> FrameView {
    if bytes[0] == TAG_JSON {
        FrameView::Json(bytes.skip(1))
    } else {
        FrameView::Bytes(bytes.skip(1))
    }
}

/// The bytes a reply is sent as.
pub fn encode_response(frame: Frame) -> (r: Vec<u8>)
    ensures
        r@ == framed(frame@),
{
    let mut out: Vec<u8> = Vec::new();
    let ghost before = frame@;
    match frame {
        Frame::Json(bytes) => {
            let mut bytes = bytes;
            let ghost held = bytes@;
            out.push(TAG_JSON);
            out.append(&mut bytes);
            proof {
                assert(out@ =~= seq![TAG_JSON] + held);
            }
        },
        Frame::Bytes(bytes) => {
            let mut bytes = bytes;
            let ghost held = bytes@;
            out.push(TAG_BYTES);
            out.append(&mut bytes);
            proof {
                assert(out@ =~= seq![TAG_BYTES] + held);
            }
        },
    }
    out
}

/// The frame a received reply holds, or what is wrong with it.
pub fn decode_response(bytes: Vec<u8>) -> (r: Result<Frame, SeamError>)
    ensures
        r is Ok <==> frame_refusal(bytes@) is None,
        r matches Ok(frame) ==> frame@ == unframed(bytes@),
        r matches Err(e) ==> e@ == ErrorView::Failed(frame_refusal(bytes@)->0),
{
    if bytes.len() == 0 {
        return Err(SeamError::Failed("route response is empty".to_owned()));
    }
    let tag: u8 = bytes[0];
    if tag != TAG_JSON && tag != TAG_BYTES {
        let mut message = "route response carries unknown framing tag ".to_owned();
        message.append(text::number(tag as u64).as_str());
        return Err(SeamError::Failed(message));
    }
    let ghost whole = bytes@;
    let mut bytes = bytes;
    let payload = bytes.split_off(1);
    proof {
        assert(payload@ =~= whole.skip(1));
    }
    if tag == TAG_JSON {
        Ok(Frame::Json(payload))
    } else {
        Ok(Frame::Bytes(payload))
    }
}

/// What is sent is what is received: the bytes of any frame decode to that
/// frame, so raw bytes and JSON are never mistaken for each other.
pub proof fn law_frames_come_back(frame: FrameView)
    ensures
        frame_refusal(framed(frame)) is None,
        unframed(framed(frame)) == frame,
{
    match frame {
        FrameView::Json(bytes) => {
            assert(framed(frame).skip(1) =~= bytes);
        },
        FrameView::Bytes(bytes) => {
            assert(framed(frame).skip(1) =~= bytes);
        },
    }
}

// --- Replies ---

/// The JSON reply to every request but a successful read of bytes.
#[derive(Debug, PartialEq, Eq)]
pub enum RouteResponse<P> {
    Text(String),
    Envelope(P),
    Expand(P),
    Scan(P),
    Query(Vec<QueryResult<P>>),
    /// The steward's typed refusal, or a relay's failure to reach one.
    Error { kind: String, message: String },
}

/// One reply: JSON, or the raw bytes of a fetch.
#[derive(Debug, PartialEq, Eq)]
pub enum RouteReply<P> {
    Json(RouteResponse<P>),
    Bytes(Vec<u8>),
}

/// What a reply that did not parse is told.
pub fn parsed_response<P>(parsed: Result<RouteResponse<P>, String>) -> (r: Result<
    RouteReply<P>,
    SeamError,
>)
    ensures
        match parsed {
            Ok(response) => r == Ok::<RouteReply<P>, SeamError>(RouteReply::Json(response)),
            Err(reason) => r matches Err(e) && e@ == ErrorView::Failed(
                "route response is malformed: "@ + reason@,
            ),
        },
{
    match parsed {
        Ok(response) => Ok(RouteReply::Json(response)),
        Err(reason) => {
            let mut message = "route response is malformed: ".to_owned();
            message.append(reason.as_str());
            Err(SeamError::Failed(message))
        },
    }
}

impl<P> RouteReply<P> {
    /// Whether the reply is a relay saying "not through me".
    pub open spec fn says_unreachable(self) -> bool {
        self matches RouteReply::Json(RouteResponse::Error { kind, .. }) && kind@
            == ERROR_KIND_UNREACHABLE@
    }

    /// Whether this reply is a relay saying "not through me": the requester
    /// tries its next candidate instead of taking it as the host's answer.
    pub fn is_unreachable(&self) -> (r: bool)
        ensures
            r == self.says_unreachable(),
    {
        match self {
            RouteReply::Json(RouteResponse::Error { kind, .. }) => text::same(
                kind.as_str(),
                ERROR_KIND_UNREACHABLE,
            ),
            _ => false,
        }
    }
}

/// The shape of a reply, in words.
pub open spec fn shape_of<P>(reply: RouteReply<P>) -> Seq<char> {
    match reply {
        RouteReply::Bytes(_) => "raw bytes"@,
        RouteReply::Json(RouteResponse::Text(_)) => "text"@,
        RouteReply::Json(RouteResponse::Envelope(_)) => "an envelope"@,
        RouteReply::Json(RouteResponse::Expand(_)) => "an expansion"@,
        RouteReply::Json(RouteResponse::Scan(_)) => "a scan"@,
        RouteReply::Json(RouteResponse::Query(_)) => "query results"@,
        RouteReply::Json(RouteResponse::Error { kind, .. }) => "a `"@ + kind@ + "` error"@,
    }
}

/// A steward answered the wrong shape: a protocol mismatch, named.
pub fn unexpected_reply<P>(operation: &str, reply: &RouteReply<P>) -> (r: SeamError)
    ensures
        r@ == ErrorView::Failed(
            "routed "@ + operation@ + " was answered with "@ + shape_of(*reply),
        ),
{
    let mut message = "routed ".to_owned();
    message.append(operation);
    message.append(" was answered with ");
    match reply {
        RouteReply::Bytes(_) => message.append("raw bytes"),
        RouteReply::Json(RouteResponse::Text(_)) => message.append("text"),
        RouteReply::Json(RouteResponse::Envelope(_)) => message.append("an envelope"),
        RouteReply::Json(RouteResponse::Expand(_)) => message.append("an expansion"),
        RouteReply::Json(RouteResponse::Scan(_)) => message.append("a scan"),
        RouteReply::Json(RouteResponse::Query(_)) => message.append("query results"),
        RouteReply::Json(RouteResponse::Error { kind, .. }) => {
            message.append("a `");
            message.append(kind.as_str());
            message.append("` error");
        },
    }
    proof {
        assert(message@ =~= "routed "@ + operation@ + " was answered with "@ + shape_of(*reply));
    }
    SeamError::Failed(message)
}

// --- Errors on the wire ---

/// The kind of an error: its variant in snake case.
pub open spec fn kind_view(error: ErrorView) -> Seq<char> {
    match error {
        ErrorView::UnknownSource(_) => "unknown_source"@,
        ErrorView::NothingToScan(_) => "nothing_to_scan"@,
        ErrorView::ScanRange { .. } => "scan_range"@,
        ErrorView::ScanBeyondEnd { .. } => "scan_beyond_end"@,
        ErrorView::BinaryFetch(_, _) => "binary_fetch"@,
        ErrorView::FetchTooLarge { .. } => "fetch_too_large"@,
        ErrorView::Address(_) => "address"@,
        ErrorView::UnknownHost(_) => "unknown_host"@,
        ErrorView::AmbiguousHost(_) => "ambiguous_host"@,
        ErrorView::Unauthorized(_) => "unauthorized"@,
        ErrorView::Refused(_) => "refused"@,
        ErrorView::Invalid(_) => "invalid"@,
        ErrorView::Unavailable(_) => "unavailable"@,
        ErrorView::Unreachable { .. } => ERROR_KIND_UNREACHABLE@,
        ErrorView::NotAdmitted(_) => "not_admitted"@,
        ErrorView::Store(_) => "store"@,
        ErrorView::Failed(_) => "failed"@,
    }
}

/// The kind of an error.
pub fn error_kind(error: &SeamError) -> (r: &'static str)
    ensures
        r@ == kind_view(error@),
{
    match error {
        SeamError::UnknownSource(_) => "unknown_source",
        SeamError::NothingToScan(_) => "nothing_to_scan",
        SeamError::ScanRange { .. } => "scan_range",
        SeamError::ScanBeyondEnd { .. } => "scan_beyond_end",
        SeamError::BinaryFetch(_, _) => "binary_fetch",
        SeamError::FetchTooLarge { .. } => "fetch_too_large",
        SeamError::Address(_) => "address",
        SeamError::UnknownHost(_) => "unknown_host",
        SeamError::AmbiguousHost(_) => "ambiguous_host",
        SeamError::Unauthorized(_) => "unauthorized",
        SeamError::Refused(_) => "refused",
        SeamError::Invalid(_) => "invalid",
        SeamError::Unavailable(_) => "unavailable",
        SeamError::Unreachable { .. } => ERROR_KIND_UNREACHABLE,
        SeamError::NotAdmitted(_) => "not_admitted",
        SeamError::Store(_) => "store",
        SeamError::Failed(_) => "failed",
    }
}

/// A steward's error as the wire carries it: its kind, and the sentence it
/// displays.
pub fn error_response<P>(error: &SeamError, message: String) -> (r: RouteResponse<P>)
    ensures
        r matches RouteResponse::Error { kind, message: sent } && kind@ == kind_view(error@) && sent
            == message,
{
    RouteResponse::Error { kind: error_kind(error).to_owned(), message }
}

/// The requester's error for a wire error.
pub open spec fn from_wire(
    address: Option<seam::AddressView>,
    kind: Seq<char>,
    message: Seq<char>,
) -> ErrorView {
    if kind == "unknown_source"@ && address is Some {
        ErrorView::UnknownSource(address->0)
    } else if kind == "nothing_to_scan"@ && address is Some {
        ErrorView::NothingToScan(address->0)
    } else if kind == "unknown_host"@ && address is Some {
        ErrorView::UnknownHost(address->0.host)
    } else if kind == "refused"@ {
        ErrorView::Refused(message)
    } else if kind == "invalid"@ {
        ErrorView::Invalid(message)
    } else if kind == "unavailable"@ {
        ErrorView::Unavailable(message)
    } else if kind == "unauthorized"@ {
        ErrorView::Unauthorized(message)
    } else {
        ErrorView::Failed(message)
    }
}

/// The address a body names, as it reads.
pub open spec fn body_address(body: RouteBody) -> Option<seam::AddressView> {
    match body.address_view() {
        Some(address) => Some(address@),
        None => None,
    }
}

/// The requester's typed error for a wire error: the variants whose data the
/// requester already holds (the address, the host) come back typed; the
/// policy kinds keep their message; everything else is a failure carrying
/// the steward's sentence.
pub fn error_from_wire(body: &RouteBody, kind: &str, message: String) -> (r: SeamError)
    ensures
        r@ == from_wire(body_address(*body), kind@, message@),
{
    if let Some(address) = body.address() {
        if text::same(kind, "unknown_source") {
            return SeamError::UnknownSource(address.copy());
        }
        if text::same(kind, "nothing_to_scan") {
            return SeamError::NothingToScan(address.copy());
        }
        if text::same(kind, "unknown_host") {
            return SeamError::UnknownHost(address.host.clone());
        }
    }
    if text::same(kind, "refused") {
        SeamError::Refused(message)
    } else if text::same(kind, "invalid") {
        SeamError::Invalid(message)
    } else if text::same(kind, "unavailable") {
        SeamError::Unavailable(message)
    } else if text::same(kind, "unauthorized") {
        SeamError::Unauthorized(message)
    } else {
        SeamError::Failed(message)
    }
}

/// A steward's error comes back as the error it was where the requester
/// holds its data: what is unknown at the address asked for is unknown there,
/// and a policy's refusal keeps its variant and its sentence.
pub proof fn law_wire_errors_come_back_typed(body: RouteBody, error: ErrorView, message: Seq<char>)
    requires
        body_address(body) is Some,
    ensures
        ({
            let back = from_wire(body_address(body), kind_view(error), message);
            let address = body_address(body)->0;
            match error {
                ErrorView::UnknownSource(_) => back == ErrorView::UnknownSource(address),
                ErrorView::NothingToScan(_) => back == ErrorView::NothingToScan(address),
                ErrorView::UnknownHost(_) => back == ErrorView::UnknownHost(address.host),
                ErrorView::Refused(_) => back == ErrorView::Refused(message),
                ErrorView::Invalid(_) => back == ErrorView::Invalid(message),
                ErrorView::Unavailable(_) => back == ErrorView::Unavailable(message),
                ErrorView::Unauthorized(_) => back == ErrorView::Unauthorized(message),
                _ => back == ErrorView::Failed(message),
            }
        }),
{
    lemma_typed_kinds(error);
}

/// The kinds that come back typed are no other errors' kinds.
proof fn lemma_typed_kinds(error: ErrorView)
    ensures
        kind_view(error) == "unknown_source"@ <==> error is UnknownSource,
        kind_view(error) == "nothing_to_scan"@ <==> error is NothingToScan,
        kind_view(error) == "unknown_host"@ <==> error is UnknownHost,
        kind_view(error) == "refused"@ <==> error is Refused,
        kind_view(error) == "invalid"@ <==> error is Invalid,
        kind_view(error) == "unavailable"@ <==> error is Unavailable,
        kind_view(error) == "unauthorized"@ <==> error is Unauthorized,
{
    reveal_strlit("unknown_source");
    reveal_strlit("nothing_to_scan");
    reveal_strlit("scan_range");
    reveal_strlit("scan_beyond_end");
    reveal_strlit("binary_fetch");
    reveal_strlit("fetch_too_large");
    reveal_strlit("address");
    reveal_strlit("unknown_host");
    reveal_strlit("ambiguous_host");
    reveal_strlit("unauthorized");
    reveal_strlit("refused");
    reveal_strlit("invalid");
    reveal_strlit("unavailable");
    reveal_strlit("unreachable");
    reveal_strlit("not_admitted");
    reveal_strlit("store");
    reveal_strlit("failed");
    assert("unknown_source"@.len() == 14 && "unknown_source"@[0] == 'u' && "unknown_source"@[2] == 'k');
    assert("nothing_to_scan"@.len() == 15 && "nothing_to_scan"@[0] == 'n' && "nothing_to_scan"@[2] == 't');
    assert("scan_range"@.len() == 10 && "scan_range"@[0] == 's' && "scan_range"@[2] == 'a');
    assert("scan_beyond_end"@.len() == 15 && "scan_beyond_end"@[0] == 's' && "scan_beyond_end"@[2] == 'a');
    assert("binary_fetch"@.len() == 12 && "binary_fetch"@[0] == 'b' && "binary_fetch"@[2] == 'n');
    assert("fetch_too_large"@.len() == 15 && "fetch_too_large"@[0] == 'f' && "fetch_too_large"@[2] == 't');
    assert("address"@.len() == 7 && "address"@[0] == 'a' && "address"@[2] == 'd');
    assert("unknown_host"@.len() == 12 && "unknown_host"@[0] == 'u' && "unknown_host"@[2] == 'k');
    assert("ambiguous_host"@.len() == 14 && "ambiguous_host"@[0] == 'a' && "ambiguous_host"@[2] == 'b');
    assert("unauthorized"@.len() == 12 && "unauthorized"@[0] == 'u' && "unauthorized"@[2] == 'a');
    assert("refused"@.len() == 7 && "refused"@[0] == 'r' && "refused"@[2] == 'f');
    assert("invalid"@.len() == 7 && "invalid"@[0] == 'i' && "invalid"@[2] == 'v');
    assert("unavailable"@.len() == 11 && "unavailable"@[0] == 'u' && "unavailable"@[2] == 'a');
    assert("unreachable"@.len() == 11 && "unreachable"@[0] == 'u' && "unreachable"@[2] == 'r');
    assert("not_admitted"@.len() == 12 && "not_admitted"@[0] == 'n' && "not_admitted"@[2] == 't');
    assert("store"@.len() == 5 && "store"@[0] == 's' && "store"@[2] == 'o');
    assert("failed"@.len() == 6 && "failed"@[0] == 'f' && "failed"@[2] == 'i');
}


/// A request is well formed exactly when its hops and the nodes it crossed
/// are within bounds, none of them named twice, and what it asks is: a range
/// of lines that is one, or a query with words and a limit it may have.
pub proof fn law_requests_are_refused_for_cause(request: RouteRequest, hops_max: u32)
    ensures
        request.refusal(hops_max) is None <==> {
            &&& request.hops_remaining <= hops_max
            &&& 1 <= request.visited@.len() <= hops_max + 1
            &&& request.visited@.no_duplicates()
            &&& match request.body {
                RouteBody::ReadLines { address, start, end } => 1 <= start <= end,
                RouteBody::Scan { address, start, end } => 1 <= start <= end,
                RouteBody::Query { text, limit } => text@.len() > 0 && 1 <= limit
                    <= QUERY_LIMIT_MAX,
                _ => true,
            }
        },
{
    let visited = request.visited@;
    if first_repeat(visited, 0) is None {
        assert forall|i: int, j: int|
            0 <= i < visited.len() && 0 <= j < visited.len() && i != j implies visited[i]
            != visited[j] by {
            if i < j {
                lemma_no_repeat(visited, 0, j);
            } else {
                lemma_no_repeat(visited, 0, i);
            }
        }
    } else {
        lemma_some_repeat(visited, 0);
    }
}

proof fn lemma_some_repeat(visited: Seq<NodeId>, at: int)
    requires
        0 <= at,
        first_repeat(visited, at) is Some,
    ensures
        !visited.no_duplicates(),
    decreases visited.len() - at,
{
    if crossed(visited, visited[at], at) {
        let i = choose|i: int| 0 <= i < at && #[trigger] visited[i] == visited[at];
        assert(visited[i] == visited[at] && i != at);
    } else {
        lemma_some_repeat(visited, at + 1);
    }
}

/// A frame is told by its first byte and holds all that follows: bytes are a
/// frame exactly when they begin with one of the two tags, and then they are
/// the bytes of the frame they hold.
pub proof fn law_a_frame_is_its_tag_and_the_rest(bytes: Seq<u8>)
    ensures
        frame_refusal(bytes) is None <==> bytes.len() > 0 && (bytes[0] == TAG_JSON || bytes[0]
            == TAG_BYTES),
        frame_refusal(bytes) is None ==> framed(unframed(bytes)) == bytes,
        frame_refusal(bytes) is None ==> (unframed(bytes) is Json <==> bytes[0] == TAG_JSON),
        framed(FrameView::Json(bytes)).len() == bytes.len() + 1,
        framed(FrameView::Json(bytes))[0] == TAG_JSON,
        framed(FrameView::Bytes(bytes))[0] == TAG_BYTES,
{
    if frame_refusal(bytes) is None {
        assert(framed(unframed(bytes)) =~= bytes);
    }
}
} // verus!
