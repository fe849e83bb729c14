//! The words the plugins share: nodes, hosts, addresses, and the errors an
//! operation answers with.

use vstd::prelude::*;
use crate::text;

verus! {

/// Hex characters a node's short name shows.
pub const SHORT_HEX_CHARS: usize = 8;

/// A node's identity: its public key.
#[derive(Debug, Clone, Copy, PartialEq, Eq, PartialOrd, Ord, Hash)]
pub struct NodeId {
    pub bytes: [u8; 32],
}

/// The hex digit of a number below sixteen.
pub open spec fn hex_digit(d: int) -> char {
    seq![
        '0',
        '1',
        '2',
        '3',
        '4',
        '5',
        '6',
        '7',
        '8',
        '9',
        'a',
        'b',
        'c',
        'd',
        'e',
        'f',
    ][d]
}

/// Bytes in lowercase hex, two characters each.
pub open spec fn hex(bytes: Seq<u8>) -> Seq<char>
    decreases bytes.len(),
{
    if bytes.len() == 0 {
        Seq::empty()
    } else {
        hex(bytes.drop_last()).push(hex_digit(bytes.last() as int / 16)).push(
            hex_digit(bytes.last() as int % 16),
        )
    }
}

fn hex_char(d: u8) -> (c: char)
    requires
        d < 16,
    ensures
        c == hex_digit(d as int),
{
    if d == 0 {
        '0'
    } else if d == 1 {
        '1'
    } else if d == 2 {
        '2'
    } else if d == 3 {
        '3'
    } else if d == 4 {
        '4'
    } else if d == 5 {
        '5'
    } else if d == 6 {
        '6'
    } else if d == 7 {
        '7'
    } else if d == 8 {
        '8'
    } else if d == 9 {
        '9'
    } else if d == 10 {
        'a'
    } else if d == 11 {
        'b'
    } else if d == 12 {
        'c'
    } else if d == 13 {
        'd'
    } else if d == 14 {
        'e'
    } else {
        'f'
    }
}

impl NodeId {
    /// The first characters of the id's hex form.
    pub open spec fn short_view(self) -> Seq<char> {
        hex(self.bytes@.take(SHORT_HEX_CHARS as int / 2))
    }

    /// Whether two ids are one.
    pub fn same(&self, other: &NodeId) -> (r: bool)
        ensures
            r == (*self == *other),
    {
        let mut i: usize = 0;
        while i < 32
            invariant
                i <= 32,
                forall|j: int| 0 <= j < i ==> self.bytes@[j] == other.bytes@[j],
            decreases 32 - i,
        {
            if self.bytes[i] != other.bytes[i] {
                return false;
            }
            i = i + 1;
        }
        proof {
            assert(self.bytes@ =~= other.bytes@);
            assert(self.bytes == other.bytes);
        }
        true
    }

    /// The id as messages show it.
    pub fn short(&self) -> (r: String)
        ensures
            r@ == self.short_view(),
    {
        let mut out = String::new();
        let mut i: usize = 0;
        proof {
            assert(self.bytes@.take(0) =~= Seq::empty());
        }
        while i < SHORT_HEX_CHARS / 2
            invariant
                i <= SHORT_HEX_CHARS / 2,
                out@ == hex(self.bytes@.take(i as int)),
            decreases SHORT_HEX_CHARS / 2 - i,
        {
            let b = self.bytes[i];
            out.push(hex_char(b / 16));
            out.push(hex_char(b % 16));
            proof {
                assert(self.bytes@.take(i as int + 1).drop_last() =~= self.bytes@.take(i as int));
                assert(self.bytes@.take(i as int + 1).last() == b);
            }
            i = i + 1;
        }
        out
    }
}

// --- The order of nodes ---

/// Whether one run of bytes stands before another: at the first place they
/// differ its byte is the smaller, or it ends first.
pub open spec fn bytes_precede(a: Seq<u8>, b: Seq<u8>) -> bool
    decreases a.len(),
{
    if b.len() == 0 {
        false
    } else if a.len() == 0 {
        true
    } else if a[0] != b[0] {
        a[0] < b[0]
    } else {
        bytes_precede(a.skip(1), b.skip(1))
    }
}

/// No run of bytes stands before itself.
pub proof fn lemma_bytes_irreflexive(a: Seq<u8>)
    ensures
        !bytes_precede(a, a),
    decreases a.len(),
{
    if a.len() > 0 {
        lemma_bytes_irreflexive(a.skip(1));
    }
}

/// Of two runs of bytes one stands before the other, or they are one.
pub proof fn lemma_bytes_total(a: Seq<u8>, b: Seq<u8>)
    ensures
        bytes_precede(a, b) || bytes_precede(b, a) || a == b,
    decreases a.len(),
{
    if a.len() > 0 && b.len() > 0 && a[0] == b[0] {
        lemma_bytes_total(a.skip(1), b.skip(1));
        if a.skip(1) == b.skip(1) {
            assert(a =~= seq![a[0]] + a.skip(1));
            assert(b =~= seq![b[0]] + b.skip(1));
        }
    } else if a.len() == 0 && b.len() == 0 {
        assert(a =~= b);
    }
}

/// The order of bytes carries over.
pub proof fn lemma_bytes_transitive(a: Seq<u8>, b: Seq<u8>, c: Seq<u8>)
    requires
        bytes_precede(a, b),
        bytes_precede(b, c),
    ensures
        bytes_precede(a, c),
    decreases a.len(),
{
    if a.len() > 0 && a[0] == b[0] && b[0] == c[0] {
        lemma_bytes_transitive(a.skip(1), b.skip(1), c.skip(1));
    }
}

impl NodeId {
    /// Whether this node's id stands before another's.
    pub fn precedes(&self, other: &NodeId) -> (r: bool)
        ensures
            r == bytes_precede(self.bytes@, other.bytes@),
    {
        let mut i: usize = 0;
        proof {
            assert(self.bytes@.skip(0) =~= self.bytes@);
            assert(other.bytes@.skip(0) =~= other.bytes@);
        }
        while i < 32
            invariant
                i <= 32,
                bytes_precede(self.bytes@, other.bytes@) == bytes_precede(
                    self.bytes@.skip(i as int),
                    other.bytes@.skip(i as int),
                ),
            decreases 32 - i,
        {
            proof {
                assert(self.bytes@.skip(i as int)[0] == self.bytes@[i as int]);
                assert(other.bytes@.skip(i as int)[0] == other.bytes@[i as int]);
                assert(self.bytes@.skip(i as int).skip(1) =~= self.bytes@.skip(i as int + 1));
                assert(other.bytes@.skip(i as int).skip(1) =~= other.bytes@.skip(i as int + 1));
            }
            if self.bytes[i] != other.bytes[i] {
                return self.bytes[i] < other.bytes[i];
            }
            i = i + 1;
        }
        false
    }
}

/// Where a source lives: a host, and the source's place on it.
#[derive(Debug, Clone, PartialEq, Eq)]
pub struct Address {
    pub host: String,
    pub locator: String,
}

/// What an address says.
#[verifier::ext_equal]
pub struct AddressView {
    pub host: Seq<char>,
    pub locator: Seq<char>,
}

impl View for Address {
    type V = AddressView;

    open spec fn view(&self) -> AddressView {
        AddressView { host: self.host@, locator: self.locator@ }
    }
}

impl AddressView {
    /// The address in full.
    pub open spec fn full(self) -> Seq<char> {
        "inseam://"@ + self.host + "/"@ + self.locator
    }
}

impl Address {
    /// Whether two addresses name one source.
    pub fn same(&self, other: &Address) -> (r: bool)
        ensures
            r == (self@ == other@),
    {
        text::same(self.host.as_str(), other.host.as_str()) && text::same(
            self.locator.as_str(),
            other.locator.as_str(),
        )
    }

    /// A copy of the address.
    pub fn copy(&self) -> (r: Address)
        ensures
            r == *self,
    {
        Address { host: self.host.clone(), locator: self.locator.clone() }
    }

    /// The address in full: `inseam://<host>/<locator>`.
    pub fn full(&self) -> (r: String)
        ensures
            r@ == self@.full(),
    {
        let mut out = "inseam://".to_owned();
        out.append(self.host.as_str());
        out.append("/");
        out.append(self.locator.as_str());
        out
    }
}

/// What an operation answers when it does not answer what was asked.
#[derive(Debug, PartialEq, Eq)]
pub enum SeamError {
    UnknownSource(Address),
    NothingToScan(Address),
    ScanRange { start: u64, end: u64 },
    ScanBeyondEnd { message: String },
    BinaryFetch(Address, String),
    FetchTooLarge { address: Address, bytes: u64, limit: u64 },
    Address(String),
    UnknownHost(String),
    AmbiguousHost(String),
    Unauthorized(String),
    Refused(String),
    Invalid(String),
    Unavailable(String),
    Unreachable { host: String, tried: Vec<NodeId> },
    NotAdmitted(NodeId),
    Store(String),
    Failed(String),
}

/// What an error says.
#[verifier::ext_equal]
pub enum ErrorView {
    UnknownSource(AddressView),
    NothingToScan(AddressView),
    ScanRange { start: u64, end: u64 },
    ScanBeyondEnd { message: Seq<char> },
    BinaryFetch(AddressView, Seq<char>),
    FetchTooLarge { address: AddressView, bytes: u64, limit: u64 },
    Address(Seq<char>),
    UnknownHost(Seq<char>),
    AmbiguousHost(Seq<char>),
    Unauthorized(Seq<char>),
    Refused(Seq<char>),
    Invalid(Seq<char>),
    Unavailable(Seq<char>),
    Unreachable { host: Seq<char>, tried: Seq<NodeId> },
    NotAdmitted(NodeId),
    Store(Seq<char>),
    Failed(Seq<char>),
}

impl View for SeamError {
    type V = ErrorView;

    open spec fn view(&self) -> ErrorView {
        match self {
            SeamError::UnknownSource(address) => ErrorView::UnknownSource(address@),
            SeamError::NothingToScan(address) => ErrorView::NothingToScan(address@),
            SeamError::ScanRange { start, end } => ErrorView::ScanRange { start: *start, end: *end },
            SeamError::ScanBeyondEnd { message } => ErrorView::ScanBeyondEnd { message: message@ },
            SeamError::BinaryFetch(address, mimetype) => ErrorView::BinaryFetch(
                address@,
                mimetype@,
            ),
            SeamError::FetchTooLarge { address, bytes, limit } => ErrorView::FetchTooLarge {
                address: address@,
                bytes: *bytes,
                limit: *limit,
            },
            SeamError::Address(message) => ErrorView::Address(message@),
            SeamError::UnknownHost(host) => ErrorView::UnknownHost(host@),
            SeamError::AmbiguousHost(message) => ErrorView::AmbiguousHost(message@),
            SeamError::Unauthorized(message) => ErrorView::Unauthorized(message@),
            SeamError::Refused(message) => ErrorView::Refused(message@),
            SeamError::Invalid(message) => ErrorView::Invalid(message@),
            SeamError::Unavailable(message) => ErrorView::Unavailable(message@),
            SeamError::Unreachable { host, tried } => ErrorView::Unreachable {
                host: host@,
                tried: tried@,
            },
            SeamError::NotAdmitted(node) => ErrorView::NotAdmitted(*node),
            SeamError::Store(message) => ErrorView::Store(message@),
            SeamError::Failed(message) => ErrorView::Failed(message@),
        }
    }
}

/// What a plugin answers when its configuration is refused.
#[derive(Debug, PartialEq, Eq)]
pub struct PluginError {
    pub message: String,
}


/// Bytes are shown two characters each, in order: what two runs of bytes show
/// joined is what each of them shows.
pub proof fn law_bytes_are_shown_in_order(a: Seq<u8>, b: Seq<u8>)
    ensures
        hex(a + b) == hex(a) + hex(b),
        hex(a).len() == 2 * a.len(),
        a.len() == 1 ==> hex(a) == seq![hex_digit(a[0] as int / 16), hex_digit(a[0] as int % 16)],
    decreases b.len(), a.len(),
{
    if b.len() > 0 {
        law_bytes_are_shown_in_order(a, b.drop_last());
        assert((a + b).drop_last() =~= a + b.drop_last());
        assert((a + b).last() == b.last());
        assert(hex(a + b) =~= hex(a) + hex(b));
    } else {
        assert(a + b =~= a);
        assert(hex(a + b) =~= hex(a) + hex(b));
        if a.len() > 0 {
            law_bytes_are_shown_in_order(a.drop_last(), b);
        }
    }
    if a.len() == 1 {
        assert(a.drop_last() =~= Seq::empty());
        assert(hex(a) =~= seq![hex_digit(a[0] as int / 16), hex_digit(a[0] as int % 16)]);
    }
}

/// Runs of bytes are ordered where they first differ: by the bytes there, or
/// by which of them ends.
pub proof fn law_bytes_are_ordered_where_they_differ(a: Seq<u8>, b: Seq<u8>, k: int)
    requires
        0 <= k <= a.len(),
        k <= b.len(),
        forall|i: int| 0 <= i < k ==> #[trigger] a[i] == b[i],
        k == a.len() || k == b.len() || a[k] != b[k],
    ensures
        bytes_precede(a, b) == (k < b.len() && (k == a.len() || a[k] < b[k])),
    decreases k,
{
    if k > 0 {
        assert(a[0] == b[0]);
        let x = a.drop_first();
        let y = b.drop_first();
        assert forall|i: int| 0 <= i < k - 1 implies #[trigger] x[i] == y[i] by {
            assert(a[i + 1] == b[i + 1]);
        }
        law_bytes_are_ordered_where_they_differ(x, y, k - 1);
    }
}

/// An address in full names one host and one locator: two addresses whose
/// hosts hold no slash read the same only where they are the same.
pub proof fn law_full_addresses_name_one_source(a: AddressView, b: AddressView)
    requires
        forall|i: int| 0 <= i < a.host.len() ==> a.host[i] != '/',
        forall|i: int| 0 <= i < b.host.len() ==> b.host[i] != '/',
    ensures
        a.full() == b.full() <==> a == b,
{
    if a.full() == b.full() {
        let n = "inseam://"@.len() as int;
        reveal_strlit("/");
        assert("/"@.len() == 1 && "/"@[0] == '/');
        let x = a.full();
        let y = b.full();
        assert forall|i: int| 0 <= i < a.host.len() implies x[n + i] == a.host[i] by {}
        assert forall|i: int| 0 <= i < b.host.len() implies y[n + i] == b.host[i] by {}
        assert(x[n + a.host.len()] == '/');
        assert(y[n + b.host.len()] == '/');
        if a.host.len() < b.host.len() {
            assert(y[n + a.host.len()] == b.host[a.host.len() as int]);
        }
        if b.host.len() < a.host.len() {
            assert(x[n + b.host.len()] == a.host[b.host.len() as int]);
        }
        assert(a.host =~= b.host) by {
            assert forall|i: int| 0 <= i < a.host.len() implies a.host[i] == b.host[i] by {
                assert(x[n + i] == y[n + i]);
            }
        }
        let m = n + a.host.len() + 1;
        assert(x.skip(m) =~= a.locator);
        assert(y.skip(m) =~= b.locator);
        assert(a =~= b);
    }
}
} // verus!
