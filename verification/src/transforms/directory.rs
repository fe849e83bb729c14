//! The structural transform for folder sources: one entry fragment per listed
//! child, each carrying a content reference to the child's address.

use vstd::prelude::*;
use crate::seam::Address;
use crate::sweep::plan::{NewFragment, Sprout};
use crate::sweep::source::{Extent, Mimetype};

verus! {

#[derive(Debug, Clone, Copy, PartialEq, Eq)]
pub struct DirectoryConfig {}

#[derive(Debug, PartialEq, Eq)]
pub struct DirectoryPlugin {
    pub config: DirectoryConfig,
}

impl DirectoryPlugin {
    /// What changes the entries: the transform's own version.
    pub fn shape_fingerprint(&self) -> (r: String)
        ensures
            r@ == "directory-v1"@,
    {
        "directory-v1".to_owned()
    }
}

#[derive(Debug, PartialEq, Eq)]
pub struct DirectoryFactory;

impl DirectoryFactory {
    /// The entry kind a composition names the plugin by.
    pub fn name(&self) -> (r: &'static str)
        ensures
            r@ == "transform-directory"@,
    {
        "transform-directory"
    }
}

/// Whether the transform takes a fragment: a folder's root.
pub fn claims(mimetype: &Mimetype, is_root: bool) -> (r: bool)
    ensures
        r == (is_root && mimetype.directory),
{
    is_root && mimetype.directory
}

/// One listed child.
#[derive(Debug, PartialEq, Eq)]
pub struct ListingEntry {
    pub name: String,
    /// What the entry's fragment says.
    pub shown: String,
    /// Whether the address grammar takes the child's locator.
    pub addressable: bool,
}

/// The locator of a child.
pub open spec fn child_locator(folder: Seq<char>, name: Seq<char>) -> Seq<char> {
    folder + "/"@ + name
}

/// Whether a sprout is the entry of a child: it refers to the child's
/// address, and stands on the child's line of the listing. The header is the
/// first line.
pub open spec fn is_entry(
    sprout: Sprout,
    folder: Address,
    mimetype: Mimetype,
    entry: ListingEntry,
    index: int,
) -> bool {
    &&& sprout.fragment.mimetype == mimetype
    &&& sprout.fragment.text == Some(entry.shown)
    &&& sprout.fragment.extent == Some(
        Extent::Lines { start: (index + 2) as u64, end: (index + 2) as u64 },
    )
    &&& sprout.fragment.content_address is Some
    &&& sprout.fragment.content_address->0.host == folder.host
    &&& sprout.fragment.content_address->0.locator@ == child_locator(folder.locator@, entry.name@)
    &&& sprout.relation@ == "contains"@
    &&& sprout.children@.len() == 0
}

/// The places of the addressable children among the first `n`.
pub open spec fn addressable(entries: Seq<ListingEntry>, n: nat) -> Seq<int>
    decreases n,
{
    if n == 0 {
        Seq::empty()
    } else if entries[n - 1].addressable {
        addressable(entries, (n - 1) as nat).push(n - 1)
    } else {
        addressable(entries, (n - 1) as nat)
    }
}

/// How many children are listed.
pub open spec fn listed(entries: Seq<ListingEntry>, entries_max: usize) -> nat {
    if entries.len() <= entries_max {
        entries.len()
    } else {
        entries_max as nat
    }
}

/// One entry fragment per listed child, up to `entries_max` of them. A name
/// the address grammar refuses yields no fragment rather than a wrong one.
pub fn entry_sprouts(
    folder: &Address,
    mimetype: &Mimetype,
    entries: &Vec<ListingEntry>,
    entries_max: usize,
) -> (r: Vec<Sprout>)
    requires
        entries@.len() + 2 <= u64::MAX,
    ensures
        r@.len() == addressable(entries@, listed(entries@, entries_max)).len(),
        r@.len() <= entries_max,
        forall|k: int|
            0 <= k < r@.len() ==> is_entry(
                #[trigger] r@[k],
                *folder,
                *mimetype,
                entries@[addressable(entries@, listed(entries@, entries_max))[k]],
                addressable(entries@, listed(entries@, entries_max))[k],
            ),
{
    let mut out: Vec<Sprout> = Vec::new();
    let mut i: usize = 0;
    while i < entries.len() && i < entries_max
        invariant
            i <= entries@.len(),
            i <= entries_max,
            entries@.len() + 2 <= u64::MAX,
            out@.len() <= i,
            out@.len() == addressable(entries@, i as nat).len(),
            forall|k: int|
                0 <= k < out@.len() ==> is_entry(
                    #[trigger] out@[k],
                    *folder,
                    *mimetype,
                    entries@[addressable(entries@, i as nat)[k]],
                    addressable(entries@, i as nat)[k],
                ),
        decreases entries@.len() - i,
    {
        let ghost before = out@;
        let ghost places = addressable(entries@, i as nat);
        if entries[i].addressable {
            let mut locator = folder.locator.clone();
            locator.append("/");
            locator.append(entries[i].name.as_str());
            let line: u64 = i as u64 + 2;
            out.push(
                Sprout {
                    fragment: NewFragment {
                        mimetype: mimetype.copy(),
                        text: Some(entries[i].shown.clone()),
                        extent: Some(Extent::Lines { start: line, end: line }),
                        content_address: Some(Address { host: folder.host.clone(), locator }),
                    },
                    relation: "contains".to_owned(),
                    children: Vec::new(),
                },
            );
        }
        proof {
            let now = addressable(entries@, (i + 1) as nat);
            assert forall|k: int| 0 <= k < out@.len() implies is_entry(
                #[trigger] out@[k],
                *folder,
                *mimetype,
                entries@[now[k]],
                now[k],
            ) by {
                if k < before.len() {
                    assert(out@[k] == before[k]);
                    assert(now[k] == places[k]);
                }
            }
        }
        i = i + 1;
    }
    out
}


/// Every addressable child among those listed has its entry, each once, in
/// the order of the listing; the children listed are the first, as many as
/// may be.
pub proof fn law_every_addressable_child_is_listed(
    entries: Seq<ListingEntry>,
    n: nat,
    entries_max: usize,
)
    requires
        n <= entries.len(),
    ensures
        forall|at: int| #[trigger]
            addressable(entries, n).contains(at) <==> 0 <= at < n && entries[at].addressable,
        forall|i: int, j: int|
            0 <= i < j < addressable(entries, n).len() ==> #[trigger] addressable(entries, n)[i]
                < #[trigger] addressable(entries, n)[j],
        listed(entries, entries_max) <= entries_max,
        listed(entries, entries_max) <= entries.len(),
        listed(entries, entries_max) == entries_max || listed(entries, entries_max)
            == entries.len(),
    decreases n,
{
    if n > 0 {
        law_every_addressable_child_is_listed(entries, (n - 1) as nat, entries_max);
        let before = addressable(entries, (n - 1) as nat);
        let all = addressable(entries, n);
        assert forall|i: int| 0 <= i < before.len() implies (#[trigger] before[i]) < n - 1 by {
            assert(before.contains(before[i]));
        }
        assert forall|at: int| #[trigger] all.contains(at) <==> 0 <= at < n
            && entries[at].addressable by {
            if before.contains(at) {
                let i = before.index_of(at);
                assert(all[i] == at);
            }
            if all.contains(at) {
                let i = all.index_of(at);
                if i < before.len() {
                    assert(before[i] == at);
                    assert(before.contains(at));
                }
            }
            if at == n - 1 && entries[at].addressable {
                assert(all[before.len() as int] == at);
            }
        }
    }
}
} // verus!
