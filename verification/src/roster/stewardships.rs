//! What this node publishes about the hosts it stewards, and how the roster
//! decides what is news. Every registration maps to one host record and one
//! stewardship record; the plan is the difference between that and what was
//! published last, so an unchanged host costs no log entry and a vanished
//! one earns a withdrawal.

use vstd::prelude::*;
use crate::order;
use crate::order::Ranked;
use crate::seam::NodeId;
use crate::text;

verus! {

/// Most hosts one node stewards at once.
pub const HOSTS_PER_NODE_MAX: usize = 1_024;

/// What an edge to a host can do.
#[derive(Debug, Clone, Copy, PartialEq, Eq, Structural)]
pub struct StewardCapabilities {
    pub enumerates: bool,
    pub change_feed: bool,
    pub writable: bool,
}

/// One registration of the connections registry, without its credentials.
#[derive(Debug, PartialEq, Eq)]
pub struct Registration {
    pub host: String,
    pub kind: String,
    pub display_name: String,
    pub capabilities: StewardCapabilities,
    pub roots: Vec<String>,
}

/// A host as the roster knows it.
#[derive(Debug, PartialEq, Eq)]
pub struct HostRecord {
    pub id: String,
    pub kind: String,
    pub display_name: String,
}

/// A node's claim to steward a host.
#[derive(Debug, PartialEq, Eq)]
pub struct StewardshipRecord {
    pub node: NodeId,
    pub host: String,
    pub capabilities: StewardCapabilities,
    pub roots: Vec<String>,
}

/// The two records one registration publishes.
#[derive(Debug, PartialEq, Eq)]
pub struct Publication {
    pub host: HostRecord,
    pub stewardship: StewardshipRecord,
}

/// What a publication says.
#[verifier::ext_equal]
pub struct PublicationView {
    pub host: Seq<char>,
    pub kind: Seq<char>,
    pub display_name: Seq<char>,
    pub node: NodeId,
    pub claimed: Seq<char>,
    pub capabilities: StewardCapabilities,
    pub roots: Seq<Seq<char>>,
}

impl View for Publication {
    type V = PublicationView;

    open spec fn view(&self) -> PublicationView {
        PublicationView {
            host: self.host.id@,
            kind: self.host.kind@,
            display_name: self.host.display_name@,
            node: self.stewardship.node,
            claimed: self.stewardship.host@,
            capabilities: self.stewardship.capabilities,
            roots: text::views(self.stewardship.roots@),
        }
    }
}

/// What a registration publishes with `local` as the steward.
pub open spec fn published_as(local: NodeId, registration: Registration) -> PublicationView {
    PublicationView {
        host: registration.host@,
        kind: registration.kind@,
        display_name: registration.display_name@,
        node: local,
        claimed: registration.host@,
        capabilities: registration.capabilities,
        roots: text::views(registration.roots@),
    }
}

fn copy_texts(texts: &Vec<String>) -> (r: Vec<String>)
    ensures
        text::views(r@) == text::views(texts@),
{
    let mut out: Vec<String> = Vec::new();
    let mut i: usize = 0;
    while i < texts.len()
        invariant
            i <= texts@.len(),
            out@.len() == i,
            forall|j: int| 0 <= j < i ==> (#[trigger] out@[j])@ == texts@[j]@,
        decreases texts@.len() - i,
    {
        out.push(texts[i].clone());
        i = i + 1;
    }
    proof {
        assert(text::views(out@) =~= text::views(texts@));
    }
    out
}

fn same_texts(a: &Vec<String>, b: &Vec<String>) -> (r: bool)
    ensures
        r == (text::views(a@) == text::views(b@)),
{
    if a.len() != b.len() {
        proof {
            assert(text::views(a@).len() != text::views(b@).len());
        }
        return false;
    }
    let mut i: usize = 0;
    while i < a.len()
        invariant
            i <= a@.len(),
            a@.len() == b@.len(),
            forall|j: int| 0 <= j < i ==> (#[trigger] a@[j])@ == b@[j]@,
        decreases a@.len() - i,
    {
        if !text::same(a[i].as_str(), b[i].as_str()) {
            proof {
                assert(text::views(a@)[i as int] != text::views(b@)[i as int]);
            }
            return false;
        }
        i = i + 1;
    }
    proof {
        assert(text::views(a@) =~= text::views(b@));
    }
    true
}

/// The records `registration` publishes with `local` as the steward: the
/// host as the connection describes it, and the claim carrying the edge's
/// capabilities and roots, never its credentials.
pub fn publication(local: NodeId, registration: &Registration) -> (r: Publication)
    ensures
        r@ == published_as(local, *registration),
{
    Publication {
        host: HostRecord {
            id: registration.host.clone(),
            kind: registration.kind.clone(),
            display_name: registration.display_name.clone(),
        },
        stewardship: StewardshipRecord {
            node: local,
            host: registration.host.clone(),
            capabilities: registration.capabilities,
            roots: copy_texts(&registration.roots),
        },
    }
}

impl Publication {
    /// Whether two publications say the same.
    pub fn same(&self, other: &Publication) -> (r: bool)
        ensures
            r == (self@ == other@),
    {
        text::same(self.host.id.as_str(), other.host.id.as_str()) && text::same(
            self.host.kind.as_str(),
            other.host.kind.as_str(),
        ) && text::same(self.host.display_name.as_str(), other.host.display_name.as_str())
            && self.stewardship.node.same(&other.stewardship.node) && text::same(
            self.stewardship.host.as_str(),
            other.stewardship.host.as_str(),
        ) && self.stewardship.capabilities == other.stewardship.capabilities && same_texts(
            &self.stewardship.roots,
            &other.stewardship.roots,
        )
    }
}

/// What was published last, by host.
pub open spec fn by_host(published: Seq<Publication>) -> Map<Seq<char>, PublicationView>
    decreases published.len(),
{
    if published.len() == 0 {
        Map::empty()
    } else {
        by_host(published.drop_last()).insert(published.last().host.id@, published.last()@)
    }
}

/// Whether no host stands twice.
pub open spec fn hosts_differ(published: Seq<Publication>) -> bool {
    forall|i: int, j: int|
        0 <= i < j < published.len() ==> (#[trigger] published[i]).host.id@ != (
        #[trigger] published[j]).host.id@
}

proof fn lemma_by_host(published: Seq<Publication>)
    requires
        hosts_differ(published),
    ensures
        forall|i: int|
            0 <= i < published.len() ==> by_host(published).contains_key(
                (#[trigger] published[i]).host.id@,
            ) && by_host(published)[published[i].host.id@] == published[i]@,
        forall|k: Seq<char>| #[trigger]
            by_host(published).contains_key(k) ==> exists|i: int|
                0 <= i < published.len() && (#[trigger] published[i]).host.id@ == k,
    decreases published.len(),
{
    if published.len() > 0 {
        let front = published.drop_last();
        assert(hosts_differ(front)) by {
            assert forall|i: int, j: int| 0 <= i < j < front.len() implies (
            #[trigger] front[i]).host.id@ != (#[trigger] front[j]).host.id@ by {
                assert(published[i].host.id@ != published[j].host.id@);
            }
        }
        lemma_by_host(front);
        assert forall|i: int| 0 <= i < published.len() implies by_host(published).contains_key(
            (#[trigger] published[i]).host.id@,
        ) && by_host(published)[published[i].host.id@] == published[i]@ by {
            if i < front.len() {
                assert(front[i] == published[i]);
            }
        }
        assert forall|k: Seq<char>| #[trigger] by_host(published).contains_key(k) implies exists|
            i: int,
        |
            0 <= i < published.len() && (#[trigger] published[i]).host.id@ == k by {
            if k == published.last().host.id@ {
                assert(published[published.len() - 1].host.id@ == k);
            } else {
                assert(by_host(front).contains_key(k));
                let i = choose|i: int|
                    0 <= i < front.len() && (#[trigger] front[i]).host.id@ == k;
                assert(published[i].host.id@ == k);
            }
        }
    }
}

/// Whether a registration is news: it was never published, or says something
/// else now.
pub open spec fn is_news(
    local: NodeId,
    registration: Registration,
    published: Map<Seq<char>, PublicationView>,
) -> bool {
    !published.contains_key(registration.host@) || published[registration.host@] != published_as(
        local,
        registration,
    )
}

/// What the first `n` registrations publish.
pub open spec fn news(
    local: NodeId,
    snapshot: Seq<Registration>,
    published: Map<Seq<char>, PublicationView>,
    n: nat,
) -> Seq<PublicationView>
    decreases n,
{
    if n == 0 {
        Seq::empty()
    } else if is_news(local, snapshot[n - 1], published) {
        news(local, snapshot, published, (n - 1) as nat).push(published_as(local, snapshot[n - 1]))
    } else {
        news(local, snapshot, published, (n - 1) as nat)
    }
}

/// Whether a host is registered.
pub open spec fn registered(snapshot: Seq<Registration>, host: Seq<char>) -> bool {
    exists|i: int| 0 <= i < snapshot.len() && (#[trigger] snapshot[i]).host@ == host
}

/// A host by its name, in the order withdrawals are published.
#[derive(Debug, PartialEq, Eq)]
pub struct HostName {
    pub id: String,
}

/// Hosts stand in the order of their names.
impl Ranked for HostName {
    open spec fn ranks_before(&self, other: &Self) -> bool {
        !text::precedes(other.id@, self.id@)
    }

    proof fn ranks_total(a: &Self, b: &Self) {
        text::lemma_precedes_irreflexive(a.id@);
        if text::precedes(a.id@, b.id@) && text::precedes(b.id@, a.id@) {
            text::lemma_precedes_transitive(a.id@, b.id@, a.id@);
        }
    }

    proof fn ranks_transitive(a: &Self, b: &Self, c: &Self) {
        if text::precedes(c.id@, a.id@) {
            text::lemma_precedes_total(a.id@, b.id@);
            if text::precedes(a.id@, b.id@) {
                text::lemma_precedes_transitive(c.id@, a.id@, b.id@);
            }
        }
    }

    fn before(&self, other: &Self) -> (r: bool) {
        !text::comes_before(other.id.as_str(), self.id.as_str())
    }
}

/// The published hosts that are no longer registered, in the order they were
/// published.
pub open spec fn gone(published: Seq<Publication>, snapshot: Seq<Registration>) -> Seq<HostName>
    decreases published.len(),
{
    if published.len() == 0 {
        Seq::empty()
    } else if registered(snapshot, published.last().host.id@) {
        gone(published.drop_last(), snapshot)
    } else {
        gone(published.drop_last(), snapshot).push(HostName { id: published.last().host.id })
    }
}

/// What one reconcile pass must publish and withdraw.
#[derive(Debug, PartialEq, Eq)]
pub struct Plan {
    pub publish: Vec<Publication>,
    pub withdraw: Vec<HostName>,
}

/// What publications say.
pub open spec fn publication_views(publications: Seq<Publication>) -> Seq<PublicationView> {
    Seq::new(publications.len(), |i: int| publications[i]@)
}

impl Plan {
    pub fn is_empty(&self) -> (r: bool)
        ensures
            r == (self.publish@.len() == 0 && self.withdraw@.len() == 0),
    {
        self.publish.len() == 0 && self.withdraw.len() == 0
    }

    /// How many records the plan puts in the log: two for each host
    /// published, one for each withdrawn.
    pub fn records(&self) -> (r: u64)
        requires
            self.publish@.len() <= HOSTS_PER_NODE_MAX,
            self.withdraw@.len() <= u32::MAX,
        ensures
            r == 2 * self.publish@.len() + self.withdraw@.len(),
    {
        2 * self.publish.len() as u64 + self.withdraw.len() as u64
    }
}

fn find_published(published: &Vec<Publication>, host: &str) -> (r: Option<usize>)
    requires
        hosts_differ(published@),
    ensures
        r is Some <==> by_host(published@).contains_key(host@),
        r matches Some(at) ==> at < published@.len() && published@[at as int].host.id@ == host@
            && by_host(published@)[host@] == published@[at as int]@,
{
    let mut i: usize = 0;
    proof {
        lemma_by_host(published@);
    }
    while i < published.len()
        invariant
            i <= published@.len(),
            hosts_differ(published@),
            forall|j: int| 0 <= j < i ==> (#[trigger] published@[j]).host.id@ != host@,
        decreases published@.len() - i,
    {
        if text::same(published[i].host.id.as_str(), host) {
            proof {
                lemma_by_host(published@);
                assert(published@[i as int].host.id@ == host@);
            }
            return Some(i);
        }
        i = i + 1;
    }
    None
}

fn is_registered(snapshot: &Vec<Registration>, host: &str) -> (r: bool)
    ensures
        r == registered(snapshot@, host@),
{
    let mut i: usize = 0;
    while i < snapshot.len()
        invariant
            i <= snapshot@.len(),
            forall|j: int| 0 <= j < i ==> (#[trigger] snapshot@[j]).host@ != host@,
        decreases snapshot@.len() - i,
    {
        if text::same(snapshot[i].host.as_str(), host) {
            return true;
        }
        i = i + 1;
    }
    false
}

proof fn lemma_news_fit(
    local: NodeId,
    snapshot: Seq<Registration>,
    published: Map<Seq<char>, PublicationView>,
    n: nat,
)
    ensures
        news(local, snapshot, published, n).len() <= n,
    decreases n,
{
    if n > 0 {
        lemma_news_fit(local, snapshot, published, (n - 1) as nat);
    }
}

/// Diff the registry against what was last published: every new or changed
/// registration is published, every published host no longer registered is
/// withdrawn. Withdrawals are ordered by host id so a pass is deterministic.
pub fn plan(local: NodeId, snapshot: &Vec<Registration>, published: &Vec<Publication>) -> (r: Plan)
    requires
        snapshot@.len() <= HOSTS_PER_NODE_MAX,
        hosts_differ(published@),
    ensures
        publication_views(r.publish@) == news(
            local,
            snapshot@,
            by_host(published@),
            snapshot@.len(),
        ),
        order::is_sorting_of(r.withdraw@, gone(published@, snapshot@)),
        r.publish@.len() <= snapshot@.len(),
{
    let ghost known = by_host(published@);
    let mut publish: Vec<Publication> = Vec::new();
    let mut i: usize = 0;
    proof {
        assert(publication_views(publish@) =~= news(local, snapshot@, known, 0));
    }
    while i < snapshot.len()
        invariant
            i <= snapshot@.len(),
            known == by_host(published@),
            hosts_differ(published@),
            publication_views(publish@) == news(local, snapshot@, known, i as nat),
        decreases snapshot@.len() - i,
    {
        let next = publication(local, &snapshot[i]);
        let unchanged = match find_published(published, snapshot[i].host.as_str()) {
            Some(at) => published[at].same(&next),
            None => false,
        };
        let ghost before = publish@;
        if !unchanged {
            publish.push(next);
            proof {
                assert(publication_views(publish@) =~= publication_views(before).push(next@));
            }
        }
        i = i + 1;
    }
    let mut withdraw: Vec<HostName> = Vec::new();
    let mut k: usize = 0;
    proof {
        assert(published@.take(0) =~= Seq::empty());
        assert(publication_views(publish@).len() == publish@.len());
        lemma_news_fit(local, snapshot@, known, snapshot@.len());
    }
    while k < published.len()
        invariant
            k <= published@.len(),
            withdraw@ == gone(published@.take(k as int), snapshot@),
        decreases published@.len() - k,
    {
        proof {
            assert(published@.take(k as int + 1).drop_last() =~= published@.take(k as int));
            assert(published@.take(k as int + 1).last() == published@[k as int]);
        }
        if !is_registered(snapshot, published[k].host.id.as_str()) {
            withdraw.push(HostName { id: published[k].host.id.clone() });
        }
        k = k + 1;
    }
    proof {
        assert(published@.take(published@.len() as int) =~= published@);
    }
    let withdraw = order::sorted(withdraw);
    Plan { publish, withdraw }
}

/// A registry that has been published in full is no news, and a host that is
/// registered is never withdrawn: where what was published last is what every
/// registration says, nothing is published, and where every published host is
/// registered, nothing is withdrawn.
pub proof fn law_an_unchanged_registry_costs_nothing(
    local: NodeId,
    snapshot: Seq<Registration>,
    published: Seq<Publication>,
)
    requires
        forall|i: int|
            0 <= i < snapshot.len() ==> by_host(published).contains_key(
                (#[trigger] snapshot[i]).host@,
            ) && by_host(published)[snapshot[i].host@] == published_as(local, snapshot[i]),
        forall|k: int|
            0 <= k < published.len() ==> registered(snapshot, (#[trigger] published[k]).host.id@),
    ensures
        news(local, snapshot, by_host(published), snapshot.len()).len() == 0,
        gone(published, snapshot).len() == 0,
{
    lemma_no_news(local, snapshot, by_host(published), snapshot.len());
    lemma_none_gone(published, snapshot);
}

proof fn lemma_no_news(
    local: NodeId,
    snapshot: Seq<Registration>,
    published: Map<Seq<char>, PublicationView>,
    n: nat,
)
    requires
        n <= snapshot.len(),
        forall|i: int|
            0 <= i < snapshot.len() ==> !is_news(local, #[trigger] snapshot[i], published),
    ensures
        news(local, snapshot, published, n).len() == 0,
    decreases n,
{
    if n > 0 {
        lemma_no_news(local, snapshot, published, (n - 1) as nat);
        assert(!is_news(local, snapshot[n - 1], published));
    }
}

proof fn lemma_none_gone(published: Seq<Publication>, snapshot: Seq<Registration>)
    requires
        forall|k: int|
            0 <= k < published.len() ==> registered(snapshot, (#[trigger] published[k]).host.id@),
    ensures
        gone(published, snapshot).len() == 0,
    decreases published.len(),
{
    if published.len() > 0 {
        let front = published.drop_last();
        assert forall|k: int| 0 <= k < front.len() implies registered(
            snapshot,
            (#[trigger] front[k]).host.id@,
        ) by {
            assert(front[k] == published[k]);
        }
        lemma_none_gone(front, snapshot);
        assert(registered(snapshot, published[published.len() - 1].host.id@));
    }
}

/// Note what a pass published: the host's last publication is this one.
pub fn note_published(published: &mut Vec<Publication>, publication: Publication)
    requires
        hosts_differ(old(published)@),
    ensures
        hosts_differ(final(published)@),
        by_host(final(published)@) == by_host(old(published)@).insert(
            publication.host.id@,
            publication@,
        ),
{
    let ghost before = published@;
    let ghost host = publication.host.id@;
    let ghost shown = publication@;
    proof {
        lemma_by_host(before);
    }
    match find_published(published, publication.host.id.as_str()) {
        Some(at) => {
            published.set(at, publication);
            proof {
                let after = published@;
                assert forall|i: int, j: int| 0 <= i < j < after.len() implies (
                #[trigger] after[i]).host.id@ != (#[trigger] after[j]).host.id@ by {
                    assert(before[i].host.id@ != before[j].host.id@);
                    assert(after[i].host.id@ == before[i].host.id@);
                    assert(after[j].host.id@ == before[j].host.id@);
                }
                lemma_by_host(after);
                let expected = by_host(before).insert(host, shown);
                assert forall|k: Seq<char>| #[trigger] by_host(after).contains_key(k) implies (
                expected.contains_key(k) && by_host(after)[k] == expected[k]) by {
                    let i = choose|i: int|
                        0 <= i < after.len() && (#[trigger] after[i]).host.id@ == k;
                    assert(before[i].host.id@ == k);
                    assert(after[i].host.id@ == k);
                    if i != at {
                        assert(before[at as int].host.id@ != k) by {
                            if i < at {
                                assert(before[i].host.id@ != before[at as int].host.id@);
                            } else {
                                assert(before[at as int].host.id@ != before[i].host.id@);
                            }
                        }
                    }
                }
                assert forall|k: Seq<char>| #[trigger] expected.contains_key(k) implies by_host(
                    after,
                ).contains_key(k) by {
                    if k == host {
                        assert(after[at as int].host.id@ == k);
                    } else {
                        let i = choose|i: int|
                            0 <= i < before.len() && (#[trigger] before[i]).host.id@ == k;
                        assert(after[i].host.id@ == k);
                    }
                }
                assert(by_host(after) =~= expected);
            }
        },
        None => {
            published.push(publication);
            proof {
                let after = published@;
                assert(after.drop_last() =~= before);
                assert forall|i: int, j: int| 0 <= i < j < after.len() implies (
                #[trigger] after[i]).host.id@ != (#[trigger] after[j]).host.id@ by {
                    assert(after[i] == before[i]);
                    if j < before.len() {
                        assert(after[j] == before[j]);
                    } else {
                        assert(by_host(before).contains_key(before[i].host.id@));
                    }
                }
            }
        },
    }
}

/// Note what a pass withdrew: the host has no publication any more.
pub fn note_withdrawn(published: &mut Vec<Publication>, host: &str)
    requires
        hosts_differ(old(published)@),
    ensures
        hosts_differ(final(published)@),
        by_host(final(published)@) == by_host(old(published)@).remove(host@),
{
    let ghost before = published@;
    proof {
        lemma_by_host(before);
    }
    match find_published(published, host) {
        Some(at) => {
            published.remove(at);
            proof {
                let after = published@;
                assert forall|i: int| 0 <= i < after.len() implies #[trigger] after[i] == before[if i
                    < at {
                    i
                } else {
                    i + 1
                }] by {}
                assert forall|i: int, j: int| 0 <= i < j < after.len() implies (
                #[trigger] after[i]).host.id@ != (#[trigger] after[j]).host.id@ by {
                    let a = if i < at {
                        i
                    } else {
                        i + 1
                    };
                    let b = if j < at {
                        j
                    } else {
                        j + 1
                    };
                    assert(before[a].host.id@ != before[b].host.id@);
                }
                lemma_by_host(after);
                let expected = by_host(before).remove(host@);
                assert forall|k: Seq<char>| #[trigger] by_host(after).contains_key(k) implies (
                expected.contains_key(k) && by_host(after)[k] == expected[k]) by {
                    let i = choose|i: int|
                        0 <= i < after.len() && (#[trigger] after[i]).host.id@ == k;
                    let a = if i < at {
                        i
                    } else {
                        i + 1
                    };
                    assert(before[a] == after[i]);
                    assert(before[a].host.id@ == k);
                    if a < at {
                        assert(before[a].host.id@ != before[at as int].host.id@);
                    } else {
                        assert(before[at as int].host.id@ != before[a].host.id@);
                    }
                }
                assert forall|k: Seq<char>| #[trigger] expected.contains_key(k) implies by_host(
                    after,
                ).contains_key(k) by {
                    assert(by_host(before).contains_key(k));
                    let a = choose|a: int|
                        0 <= a < before.len() && (#[trigger] before[a]).host.id@ == k;
                    let i = if a < at {
                        a
                    } else {
                        a - 1
                    };
                    assert(after[i] == before[a]);
                    assert(after[i].host.id@ == k);
                }
                assert(by_host(after) =~= expected);
            }
        },
        None => {
            proof {
                assert(by_host(before).remove(host@) =~= by_host(before));
            }
        },
    }
}

/// What is published once the publications of a plan are noted.
pub open spec fn noted(
    published: Map<Seq<char>, PublicationView>,
    publish: Seq<PublicationView>,
) -> Map<Seq<char>, PublicationView>
    decreases publish.len(),
{
    if publish.len() == 0 {
        published
    } else {
        noted(published, publish.drop_last()).insert(publish.last().host, publish.last())
    }
}

/// What is published once the withdrawals of a plan are noted.
pub open spec fn dropped(
    published: Map<Seq<char>, PublicationView>,
    withdraw: Seq<HostName>,
) -> Map<Seq<char>, PublicationView>
    decreases withdraw.len(),
{
    if withdraw.len() == 0 {
        published
    } else {
        dropped(published, withdraw.drop_last()).remove(withdraw.last().id@)
    }
}

/// A pass settles: once everything it planned is published, withdrawn and
/// noted, what is published is what the registry holds, host for host, so the
/// next pass on the same registry has nothing to do.
pub proof fn law_a_pass_settles(
    local: NodeId,
    snapshot: Seq<Registration>,
    published: Seq<Publication>,
    withdraw: Seq<HostName>,
    settled: Seq<Publication>,
)
    requires
        forall|i: int, j: int|
            0 <= i < j < snapshot.len() ==> (#[trigger] snapshot[i]).host@ != (
            #[trigger] snapshot[j]).host@,
        hosts_differ(published),
        order::is_sorting_of(withdraw, gone(published, snapshot)),
        hosts_differ(settled),
        by_host(settled) == dropped(
            noted(by_host(published), news(local, snapshot, by_host(published), snapshot.len())),
            withdraw,
        ),
    ensures
        forall|host: Seq<char>| #[trigger]
            by_host(settled).contains_key(host) <==> registered(snapshot, host),
        forall|i: int|
            0 <= i < snapshot.len() ==> by_host(settled)[(#[trigger] snapshot[i]).host@]
                == published_as(local, snapshot[i]),
        news(local, snapshot, by_host(settled), snapshot.len()).len() == 0,
        gone(settled, snapshot).len() == 0,
{
    let known = by_host(published);
    let after = noted(known, news(local, snapshot, known, snapshot.len()));
    lemma_noted(local, snapshot, known, snapshot.len());
    lemma_dropped(after, withdraw);
    lemma_by_host(published);
    assert forall|host: Seq<char>| #[trigger] by_host(settled).contains_key(host) implies registered(
        snapshot,
        host,
    ) by {
        if !registered(snapshot, host) {
            assert(known.contains_key(host));
            let at = choose|i: int|
                0 <= i < published.len() && (#[trigger] published[i]).host.id@ == host;
            lemma_gone_holds(published, snapshot, at);
            let name = HostName { id: published[at].host.id };
            order::lemma_sorting_contains(withdraw, gone(published, snapshot), name);
            let k = choose|k: int| 0 <= k < withdraw.len() && withdraw[k] == name;
            assert(withdraw[k].id@ == host);
        }
    }
    assert forall|i: int| 0 <= i < snapshot.len() implies by_host(settled).contains_key(
        (#[trigger] snapshot[i]).host@,
    ) && by_host(settled)[snapshot[i].host@] == published_as(local, snapshot[i]) by {
        let host = snapshot[i].host@;
        assert(registered(snapshot, host));
        assert forall|k: int| 0 <= k < withdraw.len() implies (#[trigger] withdraw[k]).id@ != host by {
            assert(withdraw.contains(withdraw[k]));
            order::lemma_sorting_contains(withdraw, gone(published, snapshot), withdraw[k]);
            lemma_gone_is_unregistered(published, snapshot, withdraw[k]);
        }
    }
    assert forall|k: int| 0 <= k < settled.len() implies registered(
        snapshot,
        (#[trigger] settled[k]).host.id@,
    ) by {
        lemma_by_host(settled);
        assert(by_host(settled).contains_key(settled[k].host.id@));
    }
    assert forall|host: Seq<char>| registered(snapshot, host) implies #[trigger] by_host(
        settled,
    ).contains_key(host) by {
        let i = choose|i: int| 0 <= i < snapshot.len() && (#[trigger] snapshot[i]).host@ == host;
    }
    law_an_unchanged_registry_costs_nothing(local, snapshot, settled);
}

proof fn lemma_noted(
    local: NodeId,
    snapshot: Seq<Registration>,
    known: Map<Seq<char>, PublicationView>,
    n: nat,
)
    requires
        n <= snapshot.len(),
        forall|i: int, j: int|
            0 <= i < j < snapshot.len() ==> (#[trigger] snapshot[i]).host@ != (
            #[trigger] snapshot[j]).host@,
    ensures
        ({
            let after = noted(known, news(local, snapshot, known, n));
            &&& forall|i: int|
                0 <= i < n ==> after.contains_key((#[trigger] snapshot[i]).host@)
                    && after[snapshot[i].host@] == published_as(local, snapshot[i])
            &&& forall|host: Seq<char>| #[trigger]
                after.contains_key(host) ==> known.contains_key(host) || exists|i: int|
                    0 <= i < n && (#[trigger] snapshot[i]).host@ == host
            &&& forall|i: int|
                n <= i < snapshot.len() && known.contains_key((#[trigger] snapshot[i]).host@)
                    ==> after.contains_key(snapshot[i].host@) && after[snapshot[i].host@]
                    == known[snapshot[i].host@]
        }),
    decreases n,
{
    if n > 0 {
        let m = (n - 1) as nat;
        lemma_noted(local, snapshot, known, m);
        let before = news(local, snapshot, known, m);
        let now = news(local, snapshot, known, n);
        let last = snapshot[m as int];
        if is_news(local, last, known) {
            assert(now.drop_last() =~= before);
            assert(now.last().host == last.host@);
        }
        let after = noted(known, now);
        assert forall|i: int| 0 <= i < n implies after.contains_key((#[trigger] snapshot[i]).host@)
            && after[snapshot[i].host@] == published_as(local, snapshot[i]) by {
            if i < m {
                assert(snapshot[i].host@ != last.host@);
            }
        }
        assert forall|host: Seq<char>| #[trigger] after.contains_key(host) implies known.contains_key(
            host,
        ) || exists|i: int| 0 <= i < n && (#[trigger] snapshot[i]).host@ == host by {
            if host == last.host@ {
                assert(snapshot[m as int].host@ == host);
            } else {
                assert(noted(known, before).contains_key(host));
                if !known.contains_key(host) {
                    let i = choose|i: int|
                        0 <= i < m && (#[trigger] snapshot[i]).host@ == host;
                    assert(snapshot[i].host@ == host);
                }
            }
        }
        assert forall|i: int|
            n <= i < snapshot.len() && known.contains_key(
                (#[trigger] snapshot[i]).host@,
            ) implies after.contains_key(snapshot[i].host@) && after[snapshot[i].host@]
            == known[snapshot[i].host@] by {
            assert(snapshot[m as int].host@ != snapshot[i].host@);
        }
    }
}

proof fn lemma_dropped(published: Map<Seq<char>, PublicationView>, withdraw: Seq<HostName>)
    ensures
        forall|host: Seq<char>| #[trigger]
            dropped(published, withdraw).contains_key(host) <==> published.contains_key(host)
                && forall|k: int| 0 <= k < withdraw.len() ==> (#[trigger] withdraw[k]).id@ != host,
        forall|host: Seq<char>| #[trigger]
            dropped(published, withdraw).contains_key(host) ==> dropped(published, withdraw)[host]
                == published[host],
    decreases withdraw.len(),
{
    if withdraw.len() > 0 {
        let front = withdraw.drop_last();
        lemma_dropped(published, front);
        assert forall|host: Seq<char>| #[trigger]
            dropped(published, withdraw).contains_key(host) implies published.contains_key(host)
            && forall|k: int| 0 <= k < withdraw.len() ==> (#[trigger] withdraw[k]).id@ != host by {
            assert(dropped(published, front).contains_key(host));
            assert forall|k: int| 0 <= k < withdraw.len() implies (#[trigger] withdraw[k]).id@
                != host by {
                if k < front.len() {
                    assert(front[k] == withdraw[k]);
                }
            }
        }
        assert forall|host: Seq<char>|
            published.contains_key(host) && (forall|k: int|
                0 <= k < withdraw.len() ==> (#[trigger] withdraw[k]).id@
                    != host) implies #[trigger] dropped(published, withdraw).contains_key(host) by {
            assert forall|k: int| 0 <= k < front.len() implies (#[trigger] front[k]).id@ != host by {
                assert(front[k] == withdraw[k]);
            }
            assert(dropped(published, front).contains_key(host));
            assert(withdraw[withdraw.len() - 1].id@ != host);
        }
        assert forall|host: Seq<char>| #[trigger]
            dropped(published, withdraw).contains_key(host) implies dropped(
            published,
            withdraw,
        )[host] == published[host] by {
            assert(dropped(published, front).contains_key(host));
        }
    }
}

proof fn lemma_gone_holds(published: Seq<Publication>, snapshot: Seq<Registration>, at: int)
    requires
        0 <= at < published.len(),
        !registered(snapshot, published[at].host.id@),
    ensures
        gone(published, snapshot).contains(HostName { id: published[at].host.id }),
    decreases published.len(),
{
    let front = published.drop_last();
    let before = gone(front, snapshot);
    let name = HostName { id: published[at].host.id };
    if at < front.len() {
        lemma_gone_holds(front, snapshot, at);
        let k = choose|k: int| 0 <= k < before.len() && before[k] == name;
        assert(gone(published, snapshot)[k] == name);
    } else {
        assert(gone(published, snapshot)[before.len() as int] == name);
    }
}

proof fn lemma_gone_is_unregistered(
    published: Seq<Publication>,
    snapshot: Seq<Registration>,
    name: HostName,
)
    requires
        gone(published, snapshot).contains(name),
    ensures
        !registered(snapshot, name.id@),
    decreases published.len(),
{
    if published.len() > 0 {
        let before = gone(published.drop_last(), snapshot);
        let now = gone(published, snapshot);
        let k = choose|k: int| 0 <= k < now.len() && now[k] == name;
        if k < before.len() {
            assert(before[k] == name);
            lemma_gone_is_unregistered(published.drop_last(), snapshot, name);
        }
    }
}

/// Whether the node's record has to be published: nothing was published yet,
/// or the endpoints differ from the last published ones.
pub fn rotated(published: &Option<Vec<String>>, endpoints: &Vec<String>) -> (r: bool)
    ensures
        r == (match published {
            None => true,
            Some(last) => text::views(last@) != text::views(endpoints@),
        }),
{
    match published {
        None => true,
        Some(last) => !same_texts(last, endpoints),
    }
}

/// Whether a pass tells the node that its roster changed: it published
/// anything at all.
pub fn announces(rotated: bool, records: u64) -> (r: bool)
    ensures
        r == (rotated || records > 0),
{
    rotated || records > 0
}

// --- Hosts with their stewards ---

/// A host and the claims on it.
#[derive(Debug, PartialEq, Eq)]
pub struct HostClaims {
    pub host: HostRecord,
    pub stewards: Vec<StewardshipRecord>,
}

/// The claims on a host, in order.
pub open spec fn claims_on(stewardships: Seq<StewardshipRecord>, host: Seq<char>) -> Seq<
    StewardshipRecord,
>
    decreases stewardships.len(),
{
    if stewardships.len() == 0 {
        Seq::empty()
    } else if stewardships.last().host@ == host {
        claims_on(stewardships.drop_last(), host).push(stewardships.last())
    } else {
        claims_on(stewardships.drop_last(), host)
    }
}

/// The claims on anything but a host, in order.
pub open spec fn claims_off(stewardships: Seq<StewardshipRecord>, host: Seq<char>) -> Seq<
    StewardshipRecord,
>
    decreases stewardships.len(),
{
    if stewardships.len() == 0 {
        Seq::empty()
    } else if stewardships.last().host@ == host {
        claims_off(stewardships.drop_last(), host)
    } else {
        claims_off(stewardships.drop_last(), host).push(stewardships.last())
    }
}

/// The claims left once the first `n` hosts have taken theirs.
pub open spec fn claims_left(
    hosts: Seq<HostRecord>,
    stewardships: Seq<StewardshipRecord>,
    n: nat,
) -> Seq<StewardshipRecord>
    decreases n,
{
    if n == 0 {
        stewardships
    } else {
        claims_off(claims_left(hosts, stewardships, (n - 1) as nat), hosts[n - 1].id@)
    }
}

fn part_claims(stewardships: Vec<StewardshipRecord>, host: &str) -> (r: (
    Vec<StewardshipRecord>,
    Vec<StewardshipRecord>,
))
    ensures
        r.0@ == claims_on(stewardships@, host@),
        r.1@ == claims_off(stewardships@, host@),
{
    let ghost all = stewardships@;
    let mut on: Vec<StewardshipRecord> = Vec::new();
    let mut off: Vec<StewardshipRecord> = Vec::new();
    proof {
        assert(all.take(0) =~= Seq::empty());
    }
    for stewardship in it: stewardships
        invariant
            it.seq() == all,
            on@ == claims_on(all.take(it.index()), host@),
            off@ == claims_off(all.take(it.index()), host@),
    {
        proof {
            assert(all.take(it.index() + 1).drop_last() =~= all.take(it.index()));
            assert(all.take(it.index() + 1).last() == stewardship);
        }
        if text::same(stewardship.host.as_str(), host) {
            on.push(stewardship);
        } else {
            off.push(stewardship);
        }
    }
    proof {
        assert(all.take(all.len() as int) =~= all);
    }
    (on, off)
}

/// Pair each host with the claims on it, in order. A host nobody claims keeps
/// an empty steward list, unreachable but still known.
pub fn join_hosts(hosts: Vec<HostRecord>, stewardships: Vec<StewardshipRecord>) -> (r: Vec<
    HostClaims,
>)
    ensures
        r@.len() == hosts@.len(),
        forall|i: int|
            0 <= i < hosts@.len() ==> (#[trigger] r@[i]).host == hosts@[i] && r@[i].stewards@
                == claims_on(claims_left(hosts@, stewardships@, i as nat), hosts@[i].id@),
{
    let ghost all = hosts@;
    let ghost claims = stewardships@;
    let mut left = stewardships;
    let mut out: Vec<HostClaims> = Vec::new();
    for host in it: hosts
        invariant
            it.seq() == all,
            out@.len() == it.index(),
            left@ == claims_left(all, claims, it.index() as nat),
            forall|i: int|
                0 <= i < it.index() ==> (#[trigger] out@[i]).host == all[i] && out@[i].stewards@
                    == claims_on(claims_left(all, claims, i as nat), all[i].id@),
    {
        proof {
            assert(all[it.index()] == host);
        }
        let mut held: Vec<StewardshipRecord> = Vec::new();
        std::mem::swap(&mut left, &mut held);
        let (on, off) = part_claims(held, host.id.as_str());
        left = off;
        out.push(HostClaims { host, stewards: on });
    }
    out
}

proof fn lemma_off_keeps_others(stewardships: Seq<StewardshipRecord>, a: Seq<char>, b: Seq<char>)
    requires
        a != b,
    ensures
        claims_on(claims_off(stewardships, a), b) == claims_on(stewardships, b),
    decreases stewardships.len(),
{
    if stewardships.len() > 0 {
        let front = stewardships.drop_last();
        lemma_off_keeps_others(front, a, b);
        if stewardships.last().host@ != a {
            let off = claims_off(stewardships, a);
            assert(off.drop_last() =~= claims_off(front, a));
            assert(off.last() == stewardships.last());
        }
    }
}

/// Every host gets all of its claims: where no host is listed twice, each is
/// paired with every claim on it and no other.
pub proof fn law_hosts_get_all_their_claims(
    hosts: Seq<HostRecord>,
    stewardships: Seq<StewardshipRecord>,
    i: int,
    n: nat,
)
    requires
        0 <= i < hosts.len(),
        n <= i,
        forall|a: int, b: int|
            0 <= a < b < hosts.len() ==> (#[trigger] hosts[a]).id@ != (#[trigger] hosts[b]).id@,
    ensures
        claims_on(claims_left(hosts, stewardships, n), hosts[i].id@) == claims_on(
            stewardships,
            hosts[i].id@,
        ),
    decreases n,
{
    if n > 0 {
        law_hosts_get_all_their_claims(hosts, stewardships, i, (n - 1) as nat);
        assert(hosts[n - 1].id@ != hosts[i].id@);
        lemma_off_keeps_others(
            claims_left(hosts, stewardships, (n - 1) as nat),
            hosts[n - 1].id@,
            hosts[i].id@,
        );
    }
}


/// The claims on a host are every claim that names it, in order, and what is
/// left are the others.
pub proof fn law_claims_name_their_host(stewardships: Seq<StewardshipRecord>, host: Seq<char>)
    ensures
        claims_on(stewardships, host) == stewardships.filter(
            |claim: StewardshipRecord| claim.host@ == host,
        ),
        claims_off(stewardships, host) == stewardships.filter(
            |claim: StewardshipRecord| claim.host@ != host,
        ),
    decreases stewardships.len(),
{
    reveal(Seq::filter);
    if stewardships.len() > 0 {
        law_claims_name_their_host(stewardships.drop_last(), host);
    }
}

/// What a pass publishes are the registrations the last pass did not publish
/// as they are now, in order, each whole and with this node as the steward;
/// what it withdraws are the hosts published that nothing registers.
pub proof fn law_a_pass_publishes_what_changed(
    local: NodeId,
    snapshot: Seq<Registration>,
    published: Map<Seq<char>, PublicationView>,
    listed: Seq<Publication>,
    n: nat,
)
    requires
        n <= snapshot.len(),
    ensures
        news(local, snapshot, published, n) == snapshot.take(n as int).map_values(
            |registration: Registration| published_as(local, registration),
        ).filter(
            |publication: PublicationView|
                !published.contains_key(publication.host) || published[publication.host]
                    != publication,
        ),
        gone(listed, snapshot) == listed.filter(
            |publication: Publication|
                !snapshot.map_values(|registration: Registration| registration.host@).contains(
                    publication.host.id@,
                ),
        ).map_values(|publication: Publication| HostName { id: publication.host.id }),
{
    lemma_news_is_filtered(local, snapshot, published, n);
    lemma_gone_is_filtered(listed, snapshot);
}

proof fn lemma_news_is_filtered(
    local: NodeId,
    snapshot: Seq<Registration>,
    published: Map<Seq<char>, PublicationView>,
    n: nat,
)
    requires
        n <= snapshot.len(),
    ensures
        news(local, snapshot, published, n) == snapshot.take(n as int).map_values(
            |registration: Registration| published_as(local, registration),
        ).filter(
            |publication: PublicationView|
                !published.contains_key(publication.host) || published[publication.host]
                    != publication,
        ),
    decreases n,
{
    reveal(Seq::filter);
    let said = |registration: Registration| published_as(local, registration);
    if n > 0 {
        lemma_news_is_filtered(local, snapshot, published, (n - 1) as nat);
        let all = snapshot.take(n as int).map_values(said);
        assert(all.drop_last() =~= snapshot.take(n - 1).map_values(said));
        assert(all.last() == published_as(local, snapshot[n - 1]));
    } else {
        assert(snapshot.take(0).map_values(said) =~= Seq::empty());
    }
}

proof fn lemma_gone_is_filtered(listed: Seq<Publication>, snapshot: Seq<Registration>)
    ensures
        gone(listed, snapshot) == listed.filter(
            |publication: Publication|
                !snapshot.map_values(|registration: Registration| registration.host@).contains(
                    publication.host.id@,
                ),
        ).map_values(|publication: Publication| HostName { id: publication.host.id }),
    decreases listed.len(),
{
    reveal(Seq::filter);
    if listed.len() > 0 {
        lemma_gone_is_filtered(listed.drop_last(), snapshot);
        let names = snapshot.map_values(|registration: Registration| registration.host@);
        let host = listed.last().host.id@;
        assert(names.contains(host) == registered(snapshot, host)) by {
            if names.contains(host) {
                let i = names.index_of(host);
                assert(snapshot[i].host@ == host);
            }
            if registered(snapshot, host) {
                let i = choose|i: int|
                    0 <= i < snapshot.len() && (#[trigger] snapshot[i]).host@ == host;
                assert(names[i] == host);
            }
        }
    }
    assert(gone(listed, snapshot) =~= listed.filter(
        |publication: Publication|
            !snapshot.map_values(|registration: Registration| registration.host@).contains(
                publication.host.id@,
            ),
    ).map_values(|publication: Publication| HostName { id: publication.host.id }));
}

/// A publication says what its registration says: the host under its own id,
/// kind and name, claimed by this node with what it can do and the roots it
/// serves. Two registrations publish the same only where they say the same.
pub proof fn law_a_publication_says_what_is_registered(
    local: NodeId,
    a: Registration,
    b: Registration,
)
    ensures
        published_as(local, a).host == a.host@,
        published_as(local, a).claimed == a.host@,
        published_as(local, a).node == local,
        published_as(local, a) == published_as(local, b) <==> {
            &&& a.host@ == b.host@
            &&& a.kind@ == b.kind@
            &&& a.display_name@ == b.display_name@
            &&& a.capabilities == b.capabilities
            &&& text::views(a.roots@) == text::views(b.roots@)
        },
{
}

/// Withdrawals are published in the order of the hosts' names.
pub proof fn law_hosts_are_withdrawn_by_name(gone: Seq<HostName>, withdraw: Seq<HostName>)
    requires
        order::is_sorting_of(withdraw, gone),
    ensures
        withdraw.len() == gone.len(),
        forall|i: int, j: int|
            0 <= i < j < withdraw.len() ==> !text::precedes(
                (#[trigger] withdraw[j]).id@,
                (#[trigger] withdraw[i]).id@,
            ),
{
    order::lemma_sorting_len(withdraw, gone);
    assert forall|i: int, j: int| 0 <= i < j < withdraw.len() implies !text::precedes(
        (#[trigger] withdraw[j]).id@,
        (#[trigger] withdraw[i]).id@,
    ) by {
        assert(withdraw[i].ranks_before(&withdraw[j]));
    }
}
} // verus!
