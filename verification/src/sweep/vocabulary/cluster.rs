//! Clusters: sets of vocabulary rows that co-occur across sources.
//! Formation is by co-occurrence, not by embedding: a new row joins the
//! cluster whose members share the most of its sources, and founds one when
//! none does, which is exact, free, and defined for a row that appears in a
//! single document. The whole decision runs in memory over the sources the
//! pass matched, most frequent row first, and is written to the store
//! afterwards in batches: clusters founded this pass carry provisional ids
//! until then.

use std::collections::{HashMap, HashSet};
use vstd::prelude::*;
use crate::order::{sorted, Ranked};
use crate::text;
use super::ground::cut_text;

verus! {

/// Most members named in a cluster's embedded text.
pub const EMBED_MEMBERS_MAX: usize = 64;

/// Longest part of a gloss a cluster's text holds.
pub const EMBED_GLOSS_CHARS_MAX: usize = 120;

/// Clusters remembered per source: past this a source is about everything
/// and says nothing about one topic.
pub const CLUSTERS_PER_SOURCE_MAX: usize = 32;

/// A cluster as the in-memory decision names it: one the store holds, by
/// its id there, or one founded this pass, by its index among the founded.
#[derive(Debug, Clone, Copy, PartialEq, Eq, Hash, PartialOrd, Ord, Structural)]
pub enum Home {
    Stored(i64),
    Founded(usize),
}

impl Home {
    /// Stored clusters come before founded ones, each by number.
    pub open spec fn earlier(self, other: Home) -> bool {
        match (self, other) {
            (Home::Stored(a), Home::Stored(b)) => a < b,
            (Home::Stored(a), Home::Founded(b)) => true,
            (Home::Founded(a), Home::Stored(b)) => false,
            (Home::Founded(a), Home::Founded(b)) => a < b,
        }
    }

    fn is_earlier(self, other: Home) -> (r: bool)
        ensures
            r == self.earlier(other),
    {
        match (self, other) {
            (Home::Stored(a), Home::Stored(b)) => a < b,
            (Home::Stored(a), Home::Founded(b)) => true,
            (Home::Founded(a), Home::Stored(b)) => false,
            (Home::Founded(a), Home::Founded(b)) => a < b,
        }
    }
}

/// A cluster founded this pass: its label and its members, as indexes of
/// rows.
#[derive(Debug, PartialEq, Eq)]
pub struct FoundedCluster {
    pub label: String,
    pub members: Vec<usize>,
}

/// Rows joining one cluster the store already holds.
#[derive(Debug, PartialEq, Eq)]
pub struct Joining {
    pub cluster: i64,
    pub members: Vec<usize>,
}

/// What a founded cluster says.
pub struct FoundedView {
    pub label: Seq<char>,
    pub members: Seq<usize>,
}

impl View for FoundedCluster {
    type V = FoundedView;

    open spec fn view(&self) -> FoundedView {
        FoundedView { label: self.label@, members: self.members@ }
    }
}

/// The co-occurrence view one pass keeps in memory: for every source, the
/// clusters present in it (the store's assignments plus the ones made
/// earlier in the same pass), so a row founded a moment ago is a candidate
/// home for the next row.
pub struct Clustering {
    by_source: HashMap<i64, Vec<Home>>,
    stored: HashMap<i64, u32>,
    /// Clusters founded this pass, in founding order.
    pub founded: Vec<FoundedCluster>,
    /// Rows joining clusters the store already holds, in the order the
    /// clusters were first joined.
    pub joins: Vec<Joining>,
    join_slots: HashMap<i64, usize>,
    pub joined: usize,
}

/// What a clustering holds.
pub struct Homes {
    /// The clusters present in each source, in the order they came.
    pub present: Map<i64, Seq<Home>>,
    /// The member counts of the store's clusters.
    pub stored: Map<i64, u32>,
    pub founded: Seq<FoundedView>,
    pub joins: Map<i64, Seq<usize>>,
    pub joined: nat,
}

impl Homes {
    /// The clusters present in a source.
    pub open spec fn homes_of(self, source: i64) -> Seq<Home> {
        if self.present.contains_key(source) {
            self.present[source]
        } else {
            Seq::empty()
        }
    }

    /// How many of `sources` a cluster is present in.
    pub open spec fn shared(self, sources: Seq<i64>, home: Home) -> nat
        decreases sources.len(),
    {
        if sources.len() == 0 {
            0
        } else {
            self.shared(sources.drop_last(), home) + if self.homes_of(sources.last()).contains(
                home,
            ) {
                1nat
            } else {
                0nat
            }
        }
    }

    /// The members a cluster has.
    pub open spec fn members(self, home: Home) -> nat {
        match home {
            Home::Stored(id) => if self.stored.contains_key(id) {
                self.stored[id] as nat
            } else {
                0
            },
            Home::Founded(i) => if i < self.founded.len() {
                self.founded[i as int].members.len()
            } else {
                0
            },
        }
    }

    /// How many clusters there are.
    pub open spec fn clusters(self) -> nat {
        self.stored.len() + self.founded.len()
    }

    /// Whether a home names a cluster there is.
    pub open spec fn known(self, home: Home) -> bool {
        home matches Home::Founded(i) ==> i < self.founded.len()
    }

    /// Whether a row of `sources` may join a cluster: present in at least
    /// `at_least` of them and in one, with room under `members_max`.
    pub open spec fn admits(
        self,
        sources: Seq<i64>,
        at_least: u32,
        members_max: u32,
        home: Home,
    ) -> bool {
        &&& self.shared(sources, home) >= 1
        &&& self.shared(sources, home) >= at_least
        &&& self.members(home) < members_max
        &&& self.known(home)
    }

    /// Whether `home` is the best cluster a row of `sources` may join: the
    /// one sharing most of them, the earlier of equals.
    pub open spec fn best(
        self,
        sources: Seq<i64>,
        at_least: u32,
        members_max: u32,
        home: Home,
    ) -> bool {
        &&& self.admits(sources, at_least, members_max, home)
        &&& forall|other: Home| #[trigger]
            self.admits(sources, at_least, members_max, other) && other != home ==> {
                ||| self.shared(sources, home) > self.shared(sources, other)
                ||| self.shared(sources, home) == self.shared(sources, other) && home.earlier(other)
            }
    }

    /// A source's clusters once `home` was marked on it: added at the end
    /// unless it is there or the source holds as many as it may.
    pub open spec fn with_home(self, source: i64, home: Home) -> Homes {
        let held = self.homes_of(source);
        Homes {
            present: if held.len() >= CLUSTERS_PER_SOURCE_MAX || held.contains(home) {
                self.present
            } else {
                self.present.insert(source, held.push(home))
            },
            ..self
        }
    }

    /// The clusters of every source once `home` was marked on `sources`.
    pub open spec fn marked(self, home: Home, sources: Seq<i64>) -> Homes
        decreases sources.len(),
    {
        if sources.len() == 0 {
            self
        } else {
            self.marked(home, sources.drop_last()).with_home(sources.last(), home)
        }
    }

    /// The clustering once `row` joined `home`.
    pub open spec fn with_join(self, row: usize, home: Home, sources: Seq<i64>) -> Homes {
        let grown = match home {
            Home::Stored(id) => Homes {
                stored: self.stored.insert(id, (self.members(home) + 1) as u32),
                joins: self.joins.insert(
                    id,
                    if self.joins.contains_key(id) {
                        self.joins[id].push(row)
                    } else {
                        seq![row]
                    },
                ),
                ..self
            },
            Home::Founded(i) => Homes {
                founded: self.founded.update(
                    i as int,
                    FoundedView {
                        label: self.founded[i as int].label,
                        members: self.founded[i as int].members.push(row),
                    },
                ),
                ..self
            },
        };
        Homes { joined: self.joined + 1, ..grown }.marked(home, sources)
    }

    /// The clustering once `row` founded a cluster of its own.
    pub open spec fn with_founded(self, row: usize, label: Seq<char>, sources: Seq<i64>) -> Homes {
        Homes {
            founded: self.founded.push(FoundedView { label, members: seq![row] }),
            ..self
        }.marked(Home::Founded(self.founded.len() as usize), sources)
    }
}

impl Homes {
    /// The best cluster a row of `sources` may join, if it may join any.
    pub open spec fn home_for(self, sources: Seq<i64>, at_least: u32, members_max: u32) -> Option<
        Home,
    > {
        if exists|home: Home| self.best(sources, at_least, members_max, home) {
            Some(choose|home: Home| self.best(sources, at_least, members_max, home))
        } else {
            None
        }
    }

    /// The home a row of `sources` takes: the best it may join, else one it
    /// founds while there is room for another cluster; none for a row with
    /// no source.
    pub open spec fn home_taken(
        self,
        sources: Seq<i64>,
        at_least: u32,
        members_max: u32,
        clusters_max: nat,
    ) -> Option<Home> {
        if sources.len() == 0 {
            None
        } else {
            match self.home_for(sources, at_least, members_max) {
                Some(home) => Some(home),
                None => if self.clusters() < clusters_max {
                    Some(Home::Founded(self.founded.len() as usize))
                } else {
                    None
                },
            }
        }
    }

    /// The clustering once a row took its home.
    pub open spec fn assigned(
        self,
        row: usize,
        label: Seq<char>,
        sources: Seq<i64>,
        at_least: u32,
        members_max: u32,
        clusters_max: nat,
    ) -> Homes {
        if sources.len() == 0 {
            self
        } else {
            match self.home_for(sources, at_least, members_max) {
                Some(home) => self.with_join(row, home, sources),
                None => if self.clusters() < clusters_max {
                    self.with_founded(row, label, sources)
                } else {
                    self
                },
            }
        }
    }
}

/// A row has one best home.
pub proof fn lemma_best_unique(
    homes: Homes,
    sources: Seq<i64>,
    at_least: u32,
    members_max: u32,
    home: Home,
)
    requires
        homes.best(sources, at_least, members_max, home),
    ensures
        homes.home_for(sources, at_least, members_max) == Some(home),
{
    let other = choose|other: Home| homes.best(sources, at_least, members_max, other);
    assert(homes.admits(sources, at_least, members_max, other));
    assert(homes.admits(sources, at_least, members_max, home));
}

/// A row joins a cluster whenever it may join one: founding is for rows no
/// cluster admits.
pub proof fn law_rows_join_where_they_may(
    homes: Homes,
    sources: Seq<i64>,
    at_least: u32,
    members_max: u32,
    home: Home,
)
    requires
        homes.home_for(sources, at_least, members_max) == Some(home),
    ensures
        homes.shared(sources, home) >= at_least,
        homes.shared(sources, home) >= 1,
        homes.members(home) < members_max,
        forall|other: Home| #[trigger]
            homes.admits(sources, at_least, members_max, other) ==> homes.shared(sources, other)
                <= homes.shared(sources, home),
{
}

/// What marking a home on sources does to one source.
proof fn lemma_marked_source(homes: Homes, home: Home, sources: Seq<i64>, source: i64)
    ensures
        ({
            let after = homes.marked(home, sources);
            let held = homes.homes_of(source);
            &&& after.homes_of(source) == if sources.contains(source) && !held.contains(home)
                && held.len() < CLUSTERS_PER_SOURCE_MAX {
                held.push(home)
            } else {
                held
            }
            &&& after.stored == homes.stored
            &&& after.founded == homes.founded
            &&& after.joins == homes.joins
            &&& after.joined == homes.joined
        }),
    decreases sources.len(),
{
    if sources.len() > 0 {
        let front = sources.drop_last();
        lemma_marked_source(homes, home, front, source);
        let held = homes.homes_of(source);
        if sources.contains(source) && sources.last() != source {
            let i = choose|i: int| 0 <= i < sources.len() && sources[i] == source;
            assert(front[i] == source);
        }
        if front.contains(source) {
            let i = choose|i: int| 0 <= i < front.len() && front[i] == source;
            assert(sources[i] == source);
        }
        if sources.last() == source {
            assert(sources[sources.len() - 1] == source);
            if !held.contains(home) {
                assert(held.push(home)[held.len() as int] == home);
            }
        }
    }
}

proof fn lemma_shared_everywhere(homes: Homes, sources: Seq<i64>, home: Home)
    requires
        forall|i: int|
            0 <= i < sources.len() ==> homes.homes_of(#[trigger] sources[i]).contains(home),
    ensures
        homes.shared(sources, home) == sources.len(),
    decreases sources.len(),
{
    if sources.len() > 0 {
        let front = sources.drop_last();
        assert forall|i: int| 0 <= i < front.len() implies homes.homes_of(
            #[trigger] front[i],
        ).contains(home) by {
            assert(front[i] == sources[i]);
        }
        lemma_shared_everywhere(homes, front, home);
        assert(homes.homes_of(sources[sources.len() - 1]).contains(home));
    }
}

/// A row's sources carry the home it takes: whether it joins or founds, its
/// home is afterwards present in every one of its sources that held fewer
/// than [`CLUSTERS_PER_SOURCE_MAX`] clusters, so that a later row of just
/// those sources shares all of them with it. No other cluster comes to a
/// source or leaves one, and no other source changes.
pub proof fn law_a_home_is_present_in_its_sources(
    homes: Homes,
    row: usize,
    label: Seq<char>,
    sources: Seq<i64>,
    at_least: u32,
    members_max: u32,
    clusters_max: nat,
    home: Home,
)
    requires
        homes.home_taken(sources, at_least, members_max, clusters_max) == Some(home),
    ensures
        ({
            let after = homes.assigned(
                row,
                label,
                sources,
                at_least,
                members_max,
                clusters_max,
            );
            &&& forall|i: int|
                0 <= i < sources.len() ==> after.homes_of(#[trigger] sources[i]).contains(home)
                    || homes.homes_of(sources[i]).len() >= CLUSTERS_PER_SOURCE_MAX
            &&& (forall|i: int|
                0 <= i < sources.len() ==> homes.homes_of(#[trigger] sources[i]).len()
                    < CLUSTERS_PER_SOURCE_MAX) ==> after.shared(sources, home) == sources.len()
            &&& forall|source: i64, other: Home|
                other != home || !sources.contains(source) ==> (#[trigger] after.homes_of(
                    source,
                ).contains(other) <==> homes.homes_of(source).contains(other))
        }),
{
    let after = homes.assigned(row, label, sources, at_least, members_max, clusters_max);
    let grown = match homes.home_for(sources, at_least, members_max) {
        Some(home) => homes.with_join(row, home, Seq::empty()),
        None => homes.with_founded(row, label, Seq::empty()),
    };
    assert(after == grown.marked(home, sources));
    assert(grown.present == homes.present);
    assert forall|i: int| 0 <= i < sources.len() implies after.homes_of(
        #[trigger] sources[i],
    ).contains(home) || homes.homes_of(sources[i]).len() >= CLUSTERS_PER_SOURCE_MAX by {
        lemma_marked_source(grown, home, sources, sources[i]);
        assert(sources.contains(sources[i]));
        let held = homes.homes_of(sources[i]);
        assert(held.push(home)[held.len() as int] == home);
    }
    if forall|i: int|
        0 <= i < sources.len() ==> homes.homes_of(#[trigger] sources[i]).len()
            < CLUSTERS_PER_SOURCE_MAX {
        lemma_shared_everywhere(after, sources, home);
    }
    assert forall|source: i64, other: Home|
        other != home || !sources.contains(source) implies (#[trigger] after.homes_of(
        source,
    ).contains(other) <==> homes.homes_of(source).contains(other)) by {
        lemma_marked_source(grown, home, sources, source);
        let held = homes.homes_of(source);
        if held.contains(other) {
            let k = choose|k: int| 0 <= k < held.len() && held[k] == other;
            assert(held.push(home)[k] == other);
        }
        if held.push(home).contains(other) && other != home {
            let k = choose|k: int| 0 <= k < held.push(home).len() && held.push(home)[k] == other;
            assert(held[k] == other);
        }
    }
}

/// A stored cluster is present in the sources of every row it was given:
/// placing it leaves it in each source that held fewer than
/// [`CLUSTERS_PER_SOURCE_MAX`] clusters, and changes nothing else.
pub proof fn law_a_placed_cluster_is_present(homes: Homes, home: Home, sources: Seq<i64>)
    ensures
        forall|i: int|
            0 <= i < sources.len() ==> homes.marked(home, sources).homes_of(
                #[trigger] sources[i],
            ).contains(home) || homes.homes_of(sources[i]).len() >= CLUSTERS_PER_SOURCE_MAX,
        forall|source: i64|
            !sources.contains(source) ==> #[trigger] homes.marked(home, sources).homes_of(source)
                == homes.homes_of(source),
        forall|other: Home| homes.marked(home, sources).members(other) == homes.members(other),
{
    assert forall|i: int| 0 <= i < sources.len() implies homes.marked(home, sources).homes_of(
        #[trigger] sources[i],
    ).contains(home) || homes.homes_of(sources[i]).len() >= CLUSTERS_PER_SOURCE_MAX by {
        lemma_marked_source(homes, home, sources, sources[i]);
        assert(sources.contains(sources[i]));
        let held = homes.homes_of(sources[i]);
        assert(held.push(home)[held.len() as int] == home);
    }
    assert forall|source: i64| !sources.contains(source) implies #[trigger] homes.marked(
        home,
        sources,
    ).homes_of(source) == homes.homes_of(source) by {
        lemma_marked_source(homes, home, sources, source);
    }
    lemma_marked_source(homes, home, sources, 0);
}

/// A row that takes a home is one of its members from then on, and of no
/// other cluster: the home has one member more, every other cluster those it
/// had, and a row that takes none changes nothing.
pub proof fn law_a_row_is_a_member_of_its_home(
    homes: Homes,
    row: usize,
    label: Seq<char>,
    sources: Seq<i64>,
    at_least: u32,
    members_max: u32,
    clusters_max: nat,
)
    requires
        homes.founded.len() < usize::MAX,
    ensures
        ({
            let taken = homes.home_taken(sources, at_least, members_max, clusters_max);
            let after = homes.assigned(
                row,
                label,
                sources,
                at_least,
                members_max,
                clusters_max,
            );
            &&& taken is None ==> after == homes
            &&& taken matches Some(home) ==> {
                &&& after.members(home) == homes.members(home) + 1
                &&& forall|other: Home|
                    other != home ==> #[trigger] after.members(other) == homes.members(other)
                &&& match home {
                    Home::Stored(id) => {
                        &&& after.joins.contains_key(id)
                        &&& after.joins[id].len() > 0
                        &&& after.joins[id].last() == row
                        &&& after.joins[id].drop_last() == if homes.joins.contains_key(id) {
                            homes.joins[id]
                        } else {
                            Seq::empty()
                        }
                        &&& forall|other: i64|
                            other != id ==> (#[trigger] after.joins.contains_key(other)
                                <==> homes.joins.contains_key(other)) && (
                            homes.joins.contains_key(other) ==> after.joins[other]
                                == homes.joins[other])
                        &&& after.founded == homes.founded
                        &&& after.joined == homes.joined + 1
                    },
                    Home::Founded(at) => {
                        &&& at < after.founded.len()
                        &&& after.founded[at as int].members.last() == row
                        &&& after.joins == homes.joins
                        &&& after.stored == homes.stored
                        &&& forall|k: int|
                            0 <= k < homes.founded.len() && k != at ==> #[trigger] after.founded[k]
                                == homes.founded[k]
                        &&& at < homes.founded.len() ==> after.founded[at as int].label
                            == homes.founded[at as int].label && after.joined == homes.joined + 1
                            && after.founded.len() == homes.founded.len()
                        &&& at >= homes.founded.len() ==> after.founded[at as int].label == label
                            && after.founded[at as int].members == seq![row] && after.joined
                            == homes.joined && after.founded.len() == homes.founded.len() + 1
                            && homes.clusters() < clusters_max
                    },
                }
            }
        }),
{
    let after = homes.assigned(row, label, sources, at_least, members_max, clusters_max);
    if let Some(home) = homes.home_taken(sources, at_least, members_max, clusters_max) {
        let grown = match homes.home_for(sources, at_least, members_max) {
            Some(home) => homes.with_join(row, home, Seq::empty()),
            None => homes.with_founded(row, label, Seq::empty()),
        };
        assert(after == grown.marked(home, sources));
        lemma_marked_source(grown, home, sources, 0);
        if let Some(best) = homes.home_for(sources, at_least, members_max) {
            assert(homes.admits(sources, at_least, members_max, best));
            if let Home::Stored(id) = best {
                assert(after.joins[id].drop_last() =~= if homes.joins.contains_key(id) {
                    homes.joins[id]
                } else {
                    Seq::empty()
                });
            }
        }
    }
}

proof fn lemma_shared_bound(homes: Homes, sources: Seq<i64>, home: Home)
    ensures
        homes.shared(sources, home) <= sources.len(),
    decreases sources.len(),
{
    if sources.len() > 0 {
        lemma_shared_bound(homes, sources.drop_last(), home);
    }
}

proof fn lemma_shared_somewhere(homes: Homes, sources: Seq<i64>, home: Home) -> (i: int)
    requires
        homes.shared(sources, home) >= 1,
    ensures
        0 <= i < sources.len(),
        homes.homes_of(sources[i]).contains(home),
    decreases sources.len(),
{
    if homes.homes_of(sources.last()).contains(home) {
        sources.len() - 1
    } else {
        let i = lemma_shared_somewhere(homes, sources.drop_last(), home);
        i
    }
}

/// The counts of the clusters shared so far.
struct SharedCounts {
    stored: HashMap<i64, u32>,
    founded: HashMap<usize, u32>,
}

impl SharedCounts {
    spec fn of(self, home: Home) -> nat {
        match home {
            Home::Stored(id) => if self.stored@.contains_key(id) {
                self.stored@[id] as nat
            } else {
                0
            },
            Home::Founded(i) => if self.founded@.contains_key(i) {
                self.founded@[i] as nat
            } else {
                0
            },
        }
    }

    fn count(&self, home: Home) -> (r: u32)
        ensures
            r == self.of(home),
    {
        match home {
            Home::Stored(id) => match self.stored.get(&id) {
                Some(n) => *n,
                None => 0,
            },
            Home::Founded(i) => match self.founded.get(&i) {
                Some(n) => *n,
                None => 0,
            },
        }
    }

    fn add_one(&mut self, home: Home)
        requires
            old(self).of(home) < u32::MAX,
        ensures
            forall|other: Home| #[trigger]
                final(self).of(other) == if other == home {
                    old(self).of(home) + 1
                } else {
                    old(self).of(other)
                },
    {
        let next: u32 = self.count(home) + 1;
        match home {
            Home::Stored(id) => {
                self.stored.insert(id, next);
            },
            Home::Founded(i) => {
                self.founded.insert(i, next);
            },
        }
    }
}

impl View for Clustering {
    type V = Homes;

    closed spec fn view(&self) -> Homes {
        Homes {
            present: self.by_source@.map_values(|homes: Vec<Home>| homes@),
            stored: self.stored@,
            founded: Seq::new(self.founded@.len(), |i: int| self.founded@[i]@),
            joins: Map::new(
                |id: i64| self.join_slots@.contains_key(id),
                |id: i64| self.joins@[self.join_slots@[id] as int].members@,
            ),
            joined: self.joined as nat,
        }
    }
}

impl Clustering {
    /// The join list and its index agree, no source holds a cluster twice
    /// or more than it may, and counts fit.
    pub closed spec fn wf(&self) -> bool {
        &&& forall|id: i64| #[trigger]
            self.join_slots@.contains_key(id) ==> self.join_slots@[id] < self.joins@.len()
                && self.joins@[self.join_slots@[id] as int].cluster == id
        &&& forall|i: int|
            0 <= i < self.joins@.len() ==> self.join_slots@.contains_key(
                (#[trigger] self.joins@[i]).cluster,
            ) && self.join_slots@[self.joins@[i].cluster] == i
        &&& forall|source: i64| #[trigger]
            self.by_source@.contains_key(source) ==> self.by_source@[source]@.no_duplicates()
                && self.by_source@[source]@.len() <= CLUSTERS_PER_SOURCE_MAX
        &&& forall|source: i64, j: int|
            self.by_source@.contains_key(source) && 0 <= j < self.by_source@[source]@.len()
                ==> self.knows(#[trigger] self.by_source@[source]@[j])
        &&& self@.stored.dom().finite()
    }

    /// The clusters founded this pass, in founding order.
    pub fn founded(&self) -> (r: &Vec<FoundedCluster>)
        ensures
            r@.len() == self@.founded.len(),
            forall|i: int| 0 <= i < r@.len() ==> (#[trigger] r@[i])@ == self@.founded[i],
    {
        &self.founded
    }

    /// The rows joining clusters the store already holds: one entry for
    /// each cluster that is joined.
    pub fn joins(&self) -> (r: &Vec<Joining>)
        requires
            self.wf(),
        ensures
            forall|i: int|
                0 <= i < r@.len() ==> self@.joins.contains_key((#[trigger] r@[i]).cluster)
                    && self@.joins[r@[i].cluster] == r@[i].members@,
            forall|i: int, j: int|
                0 <= i < j < r@.len() ==> (#[trigger] r@[i]).cluster != (#[trigger] r@[j]).cluster,
            forall|id: i64| #[trigger]
                self@.joins.contains_key(id) ==> exists|i: int|
                    0 <= i < r@.len() && (#[trigger] r@[i]).cluster == id,
    {
        proof {
            assert forall|id: i64| #[trigger]
                self@.joins.contains_key(id) implies exists|i: int|
                0 <= i < self.joins@.len() && (#[trigger] self.joins@[i]).cluster == id by {
                assert(self.joins@[self.join_slots@[id] as int].cluster == id);
            }
        }
        &self.joins
    }

    /// How many rows joined a cluster.
    pub fn joined(&self) -> (r: usize)
        ensures
            r == self@.joined,
    {
        self.joined
    }

    /// A founded home names a cluster that was founded.
    closed spec fn knows(&self, home: Home) -> bool {
        home matches Home::Founded(i) ==> i < self.founded@.len()
    }

    /// A clustering of nothing yet.
    pub fn new() -> (r: Self)
        ensures
            r.wf(),
            r@ == (Homes {
                present: Map::empty(),
                stored: Map::empty(),
                founded: Seq::empty(),
                joins: Map::empty(),
                joined: 0,
            }),
    {
        let r = Clustering {
            by_source: HashMap::new(),
            stored: HashMap::new(),
            founded: Vec::new(),
            joins: Vec::new(),
            join_slots: HashMap::new(),
            joined: 0,
        };
        proof {
            assert(r@.present =~= Map::empty());
            assert(r@.founded =~= Seq::empty());
            assert(r@.joins =~= Map::empty());
        }
        r
    }

    /// Record a stored cluster's member count.
    pub fn size(&mut self, cluster: i64, members: u32)
        requires
            old(self).wf(),
        ensures
            final(self).wf(),
            final(self)@ == (Homes { stored: old(self)@.stored.insert(cluster, members), ..old(self)@ }),
    {
        self.stored.insert(cluster, members);
        proof {
            assert(self@.present =~= old(self)@.present);
            assert(self@.founded =~= old(self)@.founded);
            assert(self@.joins =~= old(self)@.joins);
        }
    }

    /// Record a row already assigned to a stored cluster: its sources
    /// carry that cluster.
    pub fn place(&mut self, cluster: i64, sources: &Vec<i64>)
        requires
            old(self).wf(),
        ensures
            final(self).wf(),
            final(self)@ == old(self)@.marked(Home::Stored(cluster), sources@),
    {
        self.mark(Home::Stored(cluster), sources);
    }

    fn mark_one(&mut self, home: Home, source: i64)
        requires
            old(self).wf(),
            old(self).knows(home),
        ensures
            final(self).wf(),
            final(self).founded@.len() == old(self).founded@.len(),
            final(self)@ == old(self)@.with_home(source, home),
    {
        let mut present: Vec<Home> = match self.by_source.remove(&source) {
            Some(homes) => homes,
            None => Vec::new(),
        };
        if present.len() < CLUSTERS_PER_SOURCE_MAX && !holds_home(&present, home) {
            present.push(home);
        }
        self.by_source.insert(source, present);
        proof {
            let held = old(self)@.homes_of(source);
            assert(self@.present =~= old(self)@.with_home(source, home).present) by {
                if held.len() >= CLUSTERS_PER_SOURCE_MAX || held.contains(home) {
                    assert(present@ == held);
                } else {
                    assert(present@ =~= held.push(home));
                }
            }
            assert(self@.founded =~= old(self)@.founded);
            assert(self@.joins =~= old(self)@.joins);
        }
    }

    fn mark(&mut self, home: Home, sources: &Vec<i64>)
        requires
            old(self).wf(),
            old(self).knows(home),
        ensures
            final(self).wf(),
            final(self)@ == old(self)@.marked(home, sources@),
    {
        let mut i: usize = 0;
        proof {
            assert(sources@.take(0) =~= Seq::empty());
        }
        while i < sources.len()
            invariant
                i <= sources@.len(),
                self.wf(),
                self.knows(home),
                self@ == old(self)@.marked(home, sources@.take(i as int)),
            decreases sources.len() - i,
        {
            proof {
                assert(sources@.take(i as int + 1).drop_last() =~= sources@.take(i as int));
                assert(sources@.take(i as int + 1).last() == sources@[i as int]);
            }
            self.mark_one(home, sources[i]);
            i = i + 1;
        }
        proof {
            assert(sources@.take(sources@.len() as int) =~= sources@);
        }
    }
}

impl Clustering {
    /// Count, for every cluster, the sources it is present in.
    fn count_shared(&self, sources: &Vec<i64>) -> (r: SharedCounts)
        requires
            self.wf(),
            sources@.len() <= u32::MAX,
        ensures
            forall|home: Home| #[trigger] r.of(home) == self@.shared(sources@, home),
    {
        let mut counts = SharedCounts { stored: HashMap::new(), founded: HashMap::new() };
        let mut i: usize = 0;
        proof {
            assert(sources@.take(0) =~= Seq::empty());
        }
        while i < sources.len()
            invariant
                i <= sources@.len() <= u32::MAX,
                self.wf(),
                forall|home: Home| #[trigger]
                    counts.of(home) == self@.shared(sources@.take(i as int), home),
            decreases sources.len() - i,
        {
            let source = sources[i];
            let ghost before = sources@.take(i as int);
            proof {
                assert(sources@.take(i as int + 1).drop_last() =~= before);
                assert(sources@.take(i as int + 1).last() == source);
                assert forall|home: Home| #[trigger] self@.shared(before, home) <= i by {
                    lemma_shared_bound(self@, before, home);
                }
            }
            match self.by_source.get(&source) {
                Some(homes) => {
                    proof {
                        assert(self@.homes_of(source) == homes@);
                        assert(self.by_source@.contains_key(source));
                    }
                    let mut j: usize = 0;
                    while j < homes.len()
                        invariant
                            j <= homes@.len(),
                            i < u32::MAX,
                            homes@.no_duplicates(),
                            forall|home: Home| #[trigger] self@.shared(before, home) <= i,
                            forall|home: Home| #[trigger]
                                counts.of(home) == self@.shared(before, home) + if homes@.take(
                                    j as int,
                                ).contains(home) {
                                    1nat
                                } else {
                                    0nat
                                },
                        decreases homes.len() - j,
                    {
                        let home = homes[j];
                        let ghost seen = homes@.take(j as int);
                        let ghost next = homes@.take(j as int + 1);
                        proof {
                            assert(next =~= seen.push(home));
                            assert(!seen.contains(home));
                            assert(self@.shared(before, home) <= i);
                            assert(next.contains(home)) by {
                                assert(next[j as int] == home);
                            }
                            assert forall|other: Home| other != home implies seen.contains(other)
                                == next.contains(other) by {
                                if seen.contains(other) {
                                    let k = choose|k: int| 0 <= k < seen.len() && seen[k] == other;
                                    assert(next[k] == other);
                                }
                                if next.contains(other) {
                                    let k = choose|k: int| 0 <= k < next.len() && next[k] == other;
                                    assert(seen[k] == other);
                                }
                            }
                        }
                        counts.add_one(home);
                        j = j + 1;
                    }
                    proof {
                        assert(homes@.take(homes@.len() as int) =~= homes@);
                    }
                },
                None => {},
            }
            i = i + 1;
        }
        proof {
            assert(sources@.take(sources@.len() as int) =~= sources@);
        }
        counts
    }

    fn size_of(&self, home: Home) -> (r: usize)
        ensures
            r == self@.members(home),
    {
        match home {
            Home::Stored(id) => match self.stored.get(&id) {
                Some(n) => *n as usize,
                None => 0,
            },
            Home::Founded(i) => if i < self.founded.len() {
                self.founded[i].members.len()
            } else {
                0
            },
        }
    }

    /// The best cluster present in at least `at_least` of the sources with
    /// room under `members_max`; ties go to the earlier cluster.
    fn decide(&self, sources: &Vec<i64>, at_least: u32, members_max: u32) -> (r: Option<Home>)
        requires
            self.wf(),
            sources@.len() <= u32::MAX,
        ensures
            match r {
                Some(home) => self@.best(sources@, at_least, members_max, home),
                None => forall|home: Home| !self@.admits(sources@, at_least, members_max, home),
            },
    {
        let counts = self.count_shared(sources);
        let mut best: Option<Home> = None;
        let ghost homes = self@;
        let mut i: usize = 0;
        while i < sources.len()
            invariant
                i <= sources@.len(),
                self.wf(),
                homes == self@,
                forall|home: Home| #[trigger] counts.of(home) == homes.shared(sources@, home),
                best matches Some(home) ==> homes.admits(sources@, at_least, members_max, home),
                forall|k: int, other: Home|
                    0 <= k < i && #[trigger] homes.homes_of(sources@[k]).contains(other)
                        && homes.admits(sources@, at_least, members_max, other) ==> outranks(
                        homes,
                        sources@,
                        best,
                        other,
                    ),
            decreases sources.len() - i,
        {
            let source = sources[i];
            match self.by_source.get(&source) {
                Some(present) => {
                    let mut j: usize = 0;
                    proof {
                        assert(homes.homes_of(source) == present@);
                    }
                    while j < present.len()
                        invariant
                            j <= present@.len(),
                            i < sources@.len(),
                            source == sources@[i as int],
                            self.wf(),
                            homes == self@,
                            homes.homes_of(source) == present@,
                            forall|home: Home| #[trigger]
                                counts.of(home) == homes.shared(sources@, home),
                            best matches Some(home) ==> homes.admits(
                                sources@,
                                at_least,
                                members_max,
                                home,
                            ),
                            forall|k: int, other: Home|
                                0 <= k < i && #[trigger] homes.homes_of(sources@[k]).contains(other)
                                    && homes.admits(sources@, at_least, members_max, other)
                                    ==> outranks(homes, sources@, best, other),
                            forall|k: int|
                                0 <= k < j && homes.admits(
                                    sources@,
                                    at_least,
                                    members_max,
                                    #[trigger] present@[k],
                                ) ==> outranks(homes, sources@, best, present@[k]),
                        decreases present.len() - j,
                    {
                        let home = present[j];
                        let count: u32 = counts.count(home);
                        let size: usize = self.size_of(home);
                        let ghost previous = best;
                        proof {
                            lemma_shared_here(homes, sources@, i as int, home);
                            assert(self.by_source@[source]@[j as int] == home);
                            assert(self.knows(home));
                        }
                        if count >= at_least && size < members_max as usize {
                            let better = match best {
                                None => true,
                                Some(held) => {
                                    let held_count: u32 = counts.count(held);
                                    count > held_count || (count == held_count && home.is_earlier(
                                        held,
                                    ))
                                },
                            };
                            if better {
                                best = Some(home);
                            }
                        }
                        proof {
                            assert forall|other: Home|
                                homes.admits(sources@, at_least, members_max, other) && outranks(
                                    homes,
                                    sources@,
                                    previous,
                                    other,
                                ) implies outranks(homes, sources@, best, other) by {}
                        }
                        j = j + 1;
                    }
                },
                None => {},
            }
            proof {
                assert forall|k: int, other: Home|
                    0 <= k < i + 1 && #[trigger] homes.homes_of(sources@[k]).contains(other)
                        && homes.admits(sources@, at_least, members_max, other) implies outranks(
                    homes,
                    sources@,
                    best,
                    other,
                ) by {
                    if k == i {
                        let present = homes.homes_of(source);
                        let j = choose|j: int| 0 <= j < present.len() && present[j] == other;
                        assert(present[j] == other);
                    }
                }
            }
            i = i + 1;
        }
        proof {
            assert forall|other: Home| #[trigger]
                homes.admits(sources@, at_least, members_max, other) implies outranks(
                homes,
                sources@,
                best,
                other,
            ) by {
                let k = lemma_shared_somewhere(homes, sources@, other);
                assert(homes.homes_of(sources@[k]).contains(other));
            }
        }
        best
    }

    /// Decide and record a row's home: the best cluster present in at least
    /// `at_least` of its sources with room under `members_max`, else a
    /// cluster of its own when `clusters_max` allows. A row with no source
    /// gets nothing. Returns the home taken, if any.
    pub fn assign(
        &mut self,
        row: usize,
        label: &str,
        sources: &Vec<i64>,
        at_least: u32,
        members_max: u32,
        clusters_max: usize,
    ) -> (r: Option<Home>)
        requires
            old(self).wf(),
            sources@.len() <= u32::MAX,
            old(self)@.joined < usize::MAX,
            old(self)@.clusters() <= usize::MAX,
        ensures
            final(self).wf(),
            r == old(self)@.home_taken(sources@, at_least, members_max, clusters_max as nat),
            final(self)@ == old(self)@.assigned(
                row,
                label@,
                sources@,
                at_least,
                members_max,
                clusters_max as nat,
            ),
    {
        if sources.len() == 0 {
            return None;
        }
        match self.decide(sources, at_least, members_max) {
            Some(home) => {
                proof {
                    lemma_best_unique(self@, sources@, at_least, members_max, home);
                    let k = lemma_shared_somewhere(self@, sources@, home);
                    let present = self@.homes_of(sources@[k]);
                    let j = choose|j: int| 0 <= j < present.len() && present[j] == home;
                    assert(self.by_source@[sources@[k]]@[j] == home);
                    assert(self.knows(home));
                }
                self.join(row, home);
                self.mark(home, sources);
                Some(home)
            },
            None => {
                proof {
                    assert(self@.home_for(sources@, at_least, members_max) is None);
                }
                if self.stored.len() + self.founded.len() >= clusters_max {
                    return None;
                }
                let home = Home::Founded(self.founded.len());
                let mut members: Vec<usize> = Vec::new();
                members.push(row);
                self.founded.push(FoundedCluster { label: label.to_owned(), members });
                proof {
                    assert(members@ =~= seq![row]);
                    assert(self@.founded =~= old(self)@.founded.push(
                        FoundedView { label: label@, members: seq![row] },
                    ));
                    assert(self@.present =~= old(self)@.present);
                    assert(self@.joins =~= old(self)@.joins);
                }
                self.mark(home, sources);
                Some(home)
            },
        }
    }

    fn join(&mut self, row: usize, home: Home)
        requires
            old(self).wf(),
            old(self).joined < usize::MAX,
            old(self)@.members(home) < u32::MAX,
            old(self).knows(home),
        ensures
            final(self).wf(),
            final(self).knows(home),
            final(self)@ == old(self)@.with_join(row, home, Seq::empty()),
    {
        match home {
            Home::Stored(id) => {
                let held: u32 = match self.stored.get(&id) {
                    Some(n) => *n,
                    None => 0,
                };
                self.stored.insert(id, held + 1);
                self.add_join(id, row);
                self.joined = self.joined + 1;
            },
            Home::Founded(i) => {
                let mut members = self.founded[i].members.clone();
                members.push(row);
                let label = self.founded[i].label.clone();
                self.founded.set(i, FoundedCluster { label, members });
                self.joined = self.joined + 1;
                proof {
                    assert(members@ =~= old(self)@.founded[i as int].members.push(row));
                    assert(self@.founded =~= old(self)@.founded.update(
                        i as int,
                        FoundedView {
                            label: old(self)@.founded[i as int].label,
                            members: old(self)@.founded[i as int].members.push(row),
                        },
                    ));
                    assert(self@.present =~= old(self)@.present);
                    assert(self@.joins =~= old(self)@.joins);
                }
            },
        }
    }

    fn add_join(&mut self, id: i64, row: usize)
        requires
            old(self).wf(),
        ensures
            final(self).wf(),
            final(self)@ == (Homes {
                joins: old(self)@.joins.insert(
                    id,
                    if old(self)@.joins.contains_key(id) {
                        old(self)@.joins[id].push(row)
                    } else {
                        seq![row]
                    },
                ),
                ..old(self)@
            }),
            final(self).joined == old(self).joined,
    {
        let slot: Option<usize> = match self.join_slots.get(&id) {
            Some(slot) => Some(*slot),
            None => None,
        };
        match slot {
            Some(slot) => {
                let mut members = self.joins[slot].members.clone();
                members.push(row);
                self.joins.set(slot, Joining { cluster: id, members });
                proof {
                    assert(members@ =~= old(self)@.joins[id].push(row));
                }
            },
            None => {
                let mut members: Vec<usize> = Vec::new();
                members.push(row);
                self.join_slots.insert(id, self.joins.len());
                self.joins.push(Joining { cluster: id, members });
                proof {
                    assert(members@ =~= seq![row]);
                }
            },
        }
        proof {
            assert(self@.present =~= old(self)@.present);
            assert(self@.founded =~= old(self)@.founded);
            assert(self@.joins =~= old(self)@.joins.insert(
                id,
                if old(self)@.joins.contains_key(id) {
                    old(self)@.joins[id].push(row)
                } else {
                    seq![row]
                },
            ));
        }
    }
}

/// Whether the choice made so far is at least as good as `other`.
spec fn outranks(homes: Homes, sources: Seq<i64>, best: Option<Home>, other: Home) -> bool {
    match best {
        None => false,
        Some(home) => home == other || homes.shared(sources, home) > homes.shared(sources, other)
            || homes.shared(sources, home) == homes.shared(sources, other) && home.earlier(other),
    }
}

proof fn lemma_shared_here(homes: Homes, sources: Seq<i64>, i: int, home: Home)
    requires
        0 <= i < sources.len(),
        homes.homes_of(sources[i]).contains(home),
    ensures
        homes.shared(sources, home) >= 1,
    decreases sources.len(),
{
    if i < sources.len() - 1 {
        lemma_shared_here(homes, sources.drop_last(), i, home);
    }
}

fn holds_home(homes: &Vec<Home>, home: Home) -> (r: bool)
    ensures
        r == homes@.contains(home),
{
    let mut i: usize = 0;
    while i < homes.len()
        invariant
            i <= homes@.len(),
            forall|j: int| 0 <= j < i ==> homes@[j] != home,
        decreases homes.len() - i,
    {
        if homes[i] == home {
            return true;
        }
        i = i + 1;
    }
    false
}

// --- What a cluster's vector embeds ---

/// A member as a cluster's embedded text names it.
#[derive(Debug, PartialEq, Eq)]
pub struct EmbedMember {
    pub spelling: String,
    pub normalized: String,
    pub document_frequency: u32,
    /// The gloss as the text carries it, when there is one.
    pub gloss: Option<String>,
}

impl EmbedMember {
    /// The words a member adds to the text.
    pub open spec fn words(self) -> Seq<char> {
        match self.gloss {
            Some(gloss) => self.spelling@ + ": "@ + super::ground::cut_to(
                gloss@,
                EMBED_GLOSS_CHARS_MAX as nat,
            ),
            None => self.spelling@,
        }
    }

    fn copy(&self) -> (r: EmbedMember)
        ensures
            r == *self,
    {
        EmbedMember {
            spelling: self.spelling.clone(),
            normalized: self.normalized.clone(),
            document_frequency: self.document_frequency,
            gloss: match &self.gloss {
                Some(gloss) => Some(gloss.clone()),
                None => None,
            },
        }
    }
}

impl Ranked for EmbedMember {
    /// More documents first, then by normalized spelling.
    open spec fn ranks_before(&self, other: &Self) -> bool {
        ||| self.document_frequency > other.document_frequency
        ||| self.document_frequency == other.document_frequency && !text::precedes(
            other.normalized@,
            self.normalized@,
        )
    }

    proof fn ranks_total(a: &Self, b: &Self) {
        if text::precedes(a.normalized@, b.normalized@) && text::precedes(
            b.normalized@,
            a.normalized@,
        ) {
            text::lemma_precedes_transitive(a.normalized@, b.normalized@, a.normalized@);
            text::lemma_precedes_irreflexive(a.normalized@);
        }
    }

    proof fn ranks_transitive(a: &Self, b: &Self, c: &Self) {
        text::lemma_precedes_total(a.normalized@, b.normalized@);
        text::lemma_precedes_total(b.normalized@, c.normalized@);
        if text::precedes(c.normalized@, a.normalized@) {
            if a.normalized@ != b.normalized@ && b.normalized@ != c.normalized@ && text::precedes(
                b.normalized@,
                c.normalized@,
            ) {
                text::lemma_precedes_transitive(b.normalized@, c.normalized@, a.normalized@);
            }
        }
    }

    fn before(&self, other: &Self) -> (r: bool) {
        if self.document_frequency != other.document_frequency {
            self.document_frequency > other.document_frequency
        } else {
            !text::comes_before(other.normalized.as_str(), self.normalized.as_str())
        }
    }
}

/// The words of members in a given order, the first
/// [`EMBED_MEMBERS_MAX`] of them.
pub open spec fn member_words(order: Seq<EmbedMember>) -> Seq<Seq<char>> {
    Seq::new(
        if order.len() < EMBED_MEMBERS_MAX {
            order.len()
        } else {
            EMBED_MEMBERS_MAX as nat
        },
        |i: int| order[i].words(),
    )
}

/// The text a cluster's vector embeds: the members most frequent first,
/// each with its gloss when it has one, in a stable order so the digest is
/// stable and a reembed happens only when membership or a gloss moved.
pub fn embed_text(members: &Vec<EmbedMember>) -> (r: String)
    ensures
        exists|order: Seq<EmbedMember>| #[trigger]
            crate::order::is_sorting_of(order, members@) && r@ == text::joined(
                member_words(order),
                "; "@,
            ),
{
    let mut copies: Vec<EmbedMember> = Vec::new();
    let mut i: usize = 0;
    while i < members.len()
        invariant
            i <= members@.len(),
            copies@ == members@.take(i as int),
        decreases members.len() - i,
    {
        copies.push(members[i].copy());
        proof {
            assert(copies@ =~= members@.take(i as int + 1));
        }
        i = i + 1;
    }
    proof {
        assert(members@.take(members@.len() as int) =~= members@);
    }
    let order = sorted(copies);
    let mut words: Vec<String> = Vec::new();
    let mut k: usize = 0;
    while k < order.len() && k < EMBED_MEMBERS_MAX
        invariant
            k <= order@.len(),
            k <= EMBED_MEMBERS_MAX,
            words@.len() == k,
            forall|j: int| 0 <= j < k ==> (#[trigger] words@[j])@ == order@[j].words(),
        decreases order.len() - k,
    {
        let member = &order[k];
        let mut said = member.spelling.clone();
        if let Some(gloss) = &member.gloss {
            said.append(": ");
            let shown = cut_text(gloss.as_str(), EMBED_GLOSS_CHARS_MAX);
            said.append(shown.as_str());
        }
        words.push(said);
        k = k + 1;
    }
    proof {
        assert(text::views(words@) =~= member_words(order@));
    }
    text::join(&words, "; ")
}

/// A cluster's text says the same however its members are listed, as long
/// as no two share a normalized spelling.
pub proof fn law_embed_text_is_stable(
    a: Seq<EmbedMember>,
    b: Seq<EmbedMember>,
    order_a: Seq<EmbedMember>,
    order_b: Seq<EmbedMember>,
)
    requires
        a.to_multiset() == b.to_multiset(),
        forall|x: EmbedMember, y: EmbedMember|
            a.contains(x) && a.contains(y) && (#[trigger] x.normalized)@ == (
            #[trigger] y.normalized)@ ==> x == y,
        crate::order::is_sorting_of(order_a, a),
        crate::order::is_sorting_of(order_b, b),
    ensures
        text::joined(member_words(order_a), "; "@) == text::joined(member_words(order_b), "; "@),
{
    assert forall|x: EmbedMember, y: EmbedMember|
        #![trigger x.ranks_before(&y), y.ranks_before(&x)]
        a.contains(x) && a.contains(y) && x.ranks_before(&y) && y.ranks_before(&x) implies x == y by {
        text::lemma_precedes_total(x.normalized@, y.normalized@);
    }
    crate::order::lemma_sorting_unique(order_a, order_b, a);
}

// --- Which clusters are one topic ---

/// A cluster as merging needs it.
#[derive(Debug, Clone, Copy, PartialEq, Eq, Structural)]
pub struct ClusterSize {
    pub id: i64,
    pub members: u32,
}

/// The nearest cluster among the first `n` of `all`: of those that clear
/// the bound (`near` ranks them by similarity), are not `id` itself and are
/// not taken, the most similar, the one with the smaller id among equals.
pub open spec fn nearest(
    all: Seq<ClusterSize>,
    near: Seq<Option<u64>>,
    id: i64,
    taken: Set<i64>,
    n: int,
) -> Option<int>
    decreases n,
{
    if n <= 0 {
        None
    } else {
        let before = nearest(all, near, id, taken, n - 1);
        let other = all[n - 1];
        if other.id == id || taken.contains(other.id) || near[n - 1] is None {
            before
        } else {
            match before {
                None => Some(n - 1),
                Some(held) => if near[held]->0 > near[n - 1]->0 || near[held]->0 == near[n - 1]->0
                    && all[held].id < other.id {
                    before
                } else {
                    Some(n - 1)
                },
            }
        }
    }
}

/// The pair one changed cluster merges as: its nearest into it or it into
/// its nearest, smaller into larger; none when it is taken or nothing is
/// near.
pub open spec fn merge_of(
    cluster: ClusterSize,
    all: Seq<ClusterSize>,
    near: Seq<Option<u64>>,
    taken: Set<i64>,
) -> Option<(i64, i64)> {
    if taken.contains(cluster.id) {
        None
    } else {
        match nearest(all, near, cluster.id, taken, all.len() as int) {
            None => None,
            Some(k) => if all[k].members >= cluster.members {
                Some((all[k].id, cluster.id))
            } else {
                Some((cluster.id, all[k].id))
            },
        }
    }
}

/// The clusters a list of pairs names.
pub open spec fn ids_of(pairs: Seq<(i64, i64)>) -> Set<i64>
    decreases pairs.len(),
{
    if pairs.len() == 0 {
        Set::empty()
    } else {
        ids_of(pairs.drop_last()).insert(pairs.last().0).insert(pairs.last().1)
    }
}

/// The pairs the first `n` changed clusters merge as.
pub open spec fn merged(
    changed: Seq<ClusterSize>,
    all: Seq<ClusterSize>,
    near: Seq<Seq<Option<u64>>>,
    n: int,
) -> Seq<(i64, i64)>
    decreases n,
{
    if n <= 0 {
        Seq::empty()
    } else {
        let before = merged(changed, all, near, n - 1);
        match merge_of(changed[n - 1], all, near[n - 1], ids_of(before)) {
            None => before,
            Some(pair) => before.push(pair),
        }
    }
}

/// The similarities of every changed cluster.
pub open spec fn rows_of(near: Seq<Vec<Option<u64>>>) -> Seq<Seq<Option<u64>>> {
    Seq::new(near.len(), |i: int| near[i]@)
}

/// Pairs to merge, `(survivor, loser)`: for each changed cluster, the
/// nearest other cluster when it clears the bound. `near` holds, for each
/// changed cluster, a rank of its similarity to every one of `all`, greater
/// for more similar, and nothing where the two do not compare or fall under
/// the bound. Each changed cluster merges at most once per pass, smaller
/// into larger, and a cluster already chosen is chosen for nobody else.
pub fn merges(
    changed: &Vec<ClusterSize>,
    all: &Vec<ClusterSize>,
    near: &Vec<Vec<Option<u64>>>,
) -> (r: Vec<(i64, i64)>)
    requires
        near@.len() == changed@.len(),
        forall|i: int| 0 <= i < near@.len() ==> (#[trigger] near@[i])@.len() == all@.len(),
    ensures
        r@ == merged(changed@, all@, rows_of(near@), changed@.len() as int),
{
    let mut taken: HashSet<i64> = HashSet::new();
    let mut out: Vec<(i64, i64)> = Vec::new();
    let ghost rows = rows_of(near@);
    let mut i: usize = 0;
    proof {
        assert(out@ =~= Seq::empty());
        assert(taken@ =~= ids_of(out@));
    }
    while i < changed.len()
        invariant
            i <= changed@.len(),
            near@.len() == changed@.len(),
            forall|k: int| 0 <= k < near@.len() ==> (#[trigger] near@[k])@.len() == all@.len(),
            rows == rows_of(near@),
            out@ == merged(changed@, all@, rows, i as int),
            taken@ == ids_of(out@),
        decreases changed.len() - i,
    {
        let cluster = changed[i];
        let ghost before = out@;
        if !taken.contains(&cluster.id) {
            let choice = nearest_of(all, &near[i], cluster.id, &taken);
            if let Some(k) = choice {
                let other = all[k];
                let pair: (i64, i64) = if other.members >= cluster.members {
                    (other.id, cluster.id)
                } else {
                    (cluster.id, other.id)
                };
                taken.insert(pair.0);
                taken.insert(pair.1);
                out.push(pair);
                proof {
                    assert(out@.drop_last() =~= before);
                    assert(taken@ =~= ids_of(out@));
                }
            }
        }
        proof {
            assert(out@ =~= merged(changed@, all@, rows, i as int + 1));
        }
        i = i + 1;
    }
    out
}

fn nearest_of(
    all: &Vec<ClusterSize>,
    near: &Vec<Option<u64>>,
    id: i64,
    taken: &HashSet<i64>,
) -> (r: Option<usize>)
    requires
        near@.len() == all@.len(),
    ensures
        match r {
            Some(k) => k < all@.len() && nearest(all@, near@, id, taken@, all@.len() as int)
                == Some(k as int),
            None => nearest(all@, near@, id, taken@, all@.len() as int) is None,
        },
{
    let mut best: Option<usize> = None;
    let mut n: usize = 0;
    while n < all.len()
        invariant
            n <= all@.len(),
            near@.len() == all@.len(),
            match best {
                Some(k) => k < n && near@[k as int] is Some && nearest(
                    all@,
                    near@,
                    id,
                    taken@,
                    n as int,
                ) == Some(k as int),
                None => nearest(all@, near@, id, taken@, n as int) is None,
            },
        decreases all.len() - n,
    {
        let other = all[n];
        if let Some(rank) = near[n] {
            if other.id != id && !taken.contains(&other.id) {
                let keeps = match best {
                    None => false,
                    Some(held) => match near[held] {
                        Some(held_rank) => held_rank > rank || (held_rank == rank && all[held].id
                            < other.id),
                        None => false,
                    },
                };
                if !keeps {
                    best = Some(n);
                }
            }
        }
        n = n + 1;
    }
    best
}

/// The nearest cluster is admissible, and no admissible one is more similar
/// to the cluster.
pub proof fn law_nearest_is_best(
    all: Seq<ClusterSize>,
    near: Seq<Option<u64>>,
    id: i64,
    taken: Set<i64>,
    n: int,
)
    requires
        0 <= n <= all.len(),
    ensures
        match nearest(all, near, id, taken, n) {
            Some(k) => {
                &&& 0 <= k < n
                &&& all[k].id != id && !taken.contains(all[k].id) && near[k] is Some
                &&& forall|j: int|
                    0 <= j < n && (#[trigger] all[j]).id != id && !taken.contains(all[j].id)
                        && near[j] is Some ==> near[j]->0 < near[k]->0 || near[j]->0 == near[k]->0
                        && all[k].id <= all[j].id
            },
            None => forall|j: int|
                0 <= j < n && (#[trigger] all[j]).id != id && !taken.contains(all[j].id)
                    ==> near[j] is None,
        },
    decreases n,
{
    if n > 0 {
        law_nearest_is_best(all, near, id, taken, n - 1);
    }
}

proof fn lemma_pair_ids(pairs: Seq<(i64, i64)>, i: int)
    requires
        0 <= i < pairs.len(),
    ensures
        ids_of(pairs).contains(pairs[i].0),
        ids_of(pairs).contains(pairs[i].1),
    decreases pairs.len(),
{
    if i < pairs.len() - 1 {
        lemma_pair_ids(pairs.drop_last(), i);
    }
}

/// A cluster merges at most once per pass: no cluster stands in two pairs,
/// and none is merged into itself.
pub proof fn law_merges_are_disjoint(
    changed: Seq<ClusterSize>,
    all: Seq<ClusterSize>,
    near: Seq<Seq<Option<u64>>>,
    n: int,
)
    ensures
        ({
            let pairs = merged(changed, all, near, n);
            &&& forall|i: int| 0 <= i < pairs.len() ==> (#[trigger] pairs[i]).0 != pairs[i].1
            &&& forall|i: int, j: int|
                0 <= i < j < pairs.len() ==> {
                    &&& (#[trigger] pairs[i]).0 != (#[trigger] pairs[j]).0
                    &&& pairs[i].0 != pairs[j].1
                    &&& pairs[i].1 != pairs[j].0
                    &&& pairs[i].1 != pairs[j].1
                }
        }),
    decreases n,
{
    if n > 0 {
        law_merges_are_disjoint(changed, all, near, n - 1);
        let before = merged(changed, all, near, n - 1);
        let taken = ids_of(before);
        let cluster = changed[n - 1];
        law_nearest_is_best(all, near[n - 1], cluster.id, taken, all.len() as int);
        let pairs = merged(changed, all, near, n);
        if pairs != before {
            assert forall|i: int, j: int| 0 <= i < j < pairs.len() implies {
                &&& (#[trigger] pairs[i]).0 != (#[trigger] pairs[j]).0
                &&& pairs[i].0 != pairs[j].1
                &&& pairs[i].1 != pairs[j].0
                &&& pairs[i].1 != pairs[j].1
            } by {
                assert(pairs[i] == before[i]);
                if j == pairs.len() - 1 {
                    lemma_pair_ids(before, i);
                } else {
                    assert(pairs[j] == before[j]);
                }
            }
        }
    }
}


/// Whether a pair names a cluster, as what stays or as what goes.
pub open spec fn names_cluster(pairs: Seq<(i64, i64)>, id: i64) -> bool {
    exists|i: int| 0 <= i < pairs.len() && ((#[trigger] pairs[i]).0 == id || pairs[i].1 == id)
}

proof fn lemma_ids_are_named(pairs: Seq<(i64, i64)>, id: i64)
    ensures
        ids_of(pairs).contains(id) <==> names_cluster(pairs, id),
    decreases pairs.len(),
{
    if pairs.len() > 0 {
        let front = pairs.drop_last();
        lemma_ids_are_named(front, id);
        if names_cluster(front, id) {
            let i = choose|i: int|
                0 <= i < front.len() && ((#[trigger] front[i]).0 == id || front[i].1 == id);
            assert(pairs[i] == front[i]);
        }
        if names_cluster(pairs, id) {
            let i = choose|i: int|
                0 <= i < pairs.len() && ((#[trigger] pairs[i]).0 == id || pairs[i].1 == id);
            if i < front.len() {
                assert(front[i] == pairs[i]);
            }
        }
        if ids_of(pairs).contains(id) && !ids_of(front).contains(id) {
            assert(pairs[pairs.len() - 1].0 == id || pairs[pairs.len() - 1].1 == id);
        }
    }
}

/// Whether the cluster at `j` could merge with `cluster` once `pairs` merge:
/// another one, near enough, and in no pair yet.
pub open spec fn could_merge(
    cluster: ClusterSize,
    all: Seq<ClusterSize>,
    near: Seq<Option<u64>>,
    pairs: Seq<(i64, i64)>,
    j: int,
) -> bool {
    &&& 0 <= j < all.len()
    &&& all[j].id != cluster.id
    &&& near[j] is Some
    &&& !names_cluster(pairs, all[j].id)
}

/// Every changed cluster in turn merges if it can: unless it is in a pair
/// already or nothing near is left, it makes one pair more, with the most
/// similar cluster that is left, and the larger of the two stays, the other
/// one where they are equal.
pub proof fn law_a_changed_cluster_merges_with_its_nearest(
    changed: Seq<ClusterSize>,
    all: Seq<ClusterSize>,
    near: Seq<Seq<Option<u64>>>,
    n: int,
)
    requires
        0 < n <= changed.len(),
    ensures
        ({
            let before = merged(changed, all, near, n - 1);
            let after = merged(changed, all, near, n);
            let cluster = changed[n - 1];
            &&& before.is_prefix_of(after)
            &&& after.len() <= before.len() + 1
            &&& after.len() > before.len() <==> (!names_cluster(before, cluster.id) && exists|j: int|
                #[trigger] could_merge(cluster, all, near[n - 1], before, j))
            &&& after.len() > before.len() ==> exists|k: int|
                #![trigger all[k]]
                {
                    &&& could_merge(cluster, all, near[n - 1], before, k)
                    &&& after.last() == if all[k].members >= cluster.members {
                        (all[k].id, cluster.id)
                    } else {
                        (cluster.id, all[k].id)
                    }
                    &&& forall|j: int| #[trigger]
                        could_merge(cluster, all, near[n - 1], before, j) ==> near[n - 1][j]->0
                            <= near[n - 1][k]->0
                }
        }),
{
    let before = merged(changed, all, near, n - 1);
    let after = merged(changed, all, near, n);
    let cluster = changed[n - 1];
    let taken = ids_of(before);
    lemma_ids_are_named(before, cluster.id);
    law_nearest_is_best(all, near[n - 1], cluster.id, taken, all.len() as int);
    assert forall|j: int| 0 <= j < all.len() implies taken.contains((#[trigger] all[j]).id)
        == names_cluster(before, all[j].id) by {
        lemma_ids_are_named(before, all[j].id);
    }
    match nearest(all, near[n - 1], cluster.id, taken, all.len() as int) {
        Some(k) => {
            assert(could_merge(cluster, all, near[n - 1], before, k));
            assert forall|j: int| #[trigger]
                could_merge(cluster, all, near[n - 1], before, j) implies near[n - 1][j]->0
                <= near[n - 1][k]->0 by {
                assert(all[j].id != cluster.id);
            }
        },
        None => {
            assert forall|j: int| !#[trigger] could_merge(
                cluster,
                all,
                near[n - 1],
                before,
                j,
            ) by {
                if 0 <= j < all.len() {
                    assert(all[j].id == all[j].id);
                }
            }
        },
    }
}

/// Whether `a` is the better home of two for a row of `sources`: it shares
/// more of them, or as many and comes earlier.
spec fn beats(homes: Homes, sources: Seq<i64>, a: Home, b: Home) -> bool {
    homes.shared(sources, a) > homes.shared(sources, b) || homes.shared(sources, a)
        == homes.shared(sources, b) && a.earlier(b)
}

/// Of the homes a list holds, those that admit a row have a best one.
proof fn lemma_best_of(
    homes: Homes,
    sources: Seq<i64>,
    at_least: u32,
    members_max: u32,
    list: Seq<Home>,
) -> (best: Option<Home>)
    ensures
        match best {
            Some(home) => homes.admits(sources, at_least, members_max, home) && forall|i: int|
                0 <= i < list.len() && homes.admits(
                    sources,
                    at_least,
                    members_max,
                    #[trigger] list[i],
                ) && list[i] != home ==> beats(homes, sources, home, list[i]),
            None => forall|i: int|
                0 <= i < list.len() ==> !homes.admits(
                    sources,
                    at_least,
                    members_max,
                    #[trigger] list[i],
                ),
        },
    decreases list.len(),
{
    if list.len() == 0 {
        None
    } else {
        let front = list.drop_last();
        let held = lemma_best_of(homes, sources, at_least, members_max, front);
        let last = list.last();
        assert forall|i: int| 0 <= i < front.len() implies #[trigger] list[i] == front[i] by {}
        if !homes.admits(sources, at_least, members_max, last) {
            held
        } else {
            match held {
                None => Some(last),
                Some(home) => if home == last || beats(homes, sources, home, last) {
                    held
                } else {
                    Some(last)
                },
            }
        }
    }
}

/// The homes present in some of `sources`.
spec fn homes_in(homes: Homes, sources: Seq<i64>) -> Seq<Home>
    decreases sources.len(),
{
    if sources.len() == 0 {
        Seq::empty()
    } else {
        homes_in(homes, sources.drop_last()) + homes.homes_of(sources.last())
    }
}

proof fn lemma_shared_is_present(homes: Homes, sources: Seq<i64>, home: Home)
    requires
        homes.shared(sources, home) >= 1,
    ensures
        homes_in(homes, sources).contains(home),
    decreases sources.len(),
{
    if sources.len() > 0 {
        let before = homes_in(homes, sources.drop_last());
        let own = homes.homes_of(sources.last());
        let all = homes_in(homes, sources);
        if own.contains(home) {
            let i = own.index_of(home);
            assert(all[before.len() + i] == home);
        } else {
            lemma_shared_is_present(homes, sources.drop_last(), home);
            let i = before.index_of(home);
            assert(all[i] == home);
        }
    }
}

/// A row founds a cluster, or goes without, only where none admits it: a
/// cluster with room that is present in enough of its sources, and in one,
/// is joined, the one present in most of them, the earlier of equals.
pub proof fn law_a_row_joins_the_cluster_it_shares_most_with(
    homes: Homes,
    sources: Seq<i64>,
    at_least: u32,
    members_max: u32,
    other: Home,
)
    requires
        homes.known(other),
        homes.members(other) < members_max,
        homes.shared(sources, other) >= at_least,
        homes.shared(sources, other) >= 1,
    ensures
        homes.shared(sources, other) == sources.filter(
            |source: i64| homes.homes_of(source).contains(other),
        ).len(),
        homes.home_for(sources, at_least, members_max) is Some,
        ({
            let home = homes.home_for(sources, at_least, members_max)->0;
            home == other || homes.shared(sources, home) > homes.shared(sources, other)
                || homes.shared(sources, home) == homes.shared(sources, other) && match (home, other) {
                (Home::Stored(a), Home::Stored(b)) => a < b,
                (Home::Stored(_), Home::Founded(_)) => true,
                (Home::Founded(_), Home::Stored(_)) => false,
                (Home::Founded(a), Home::Founded(b)) => a < b,
            }
        }),
{
    lemma_shared_is_filtered(homes, sources, other);
    let list = homes_in(homes, sources);
    let best = lemma_best_of(homes, sources, at_least, members_max, list);
    assert(homes.admits(sources, at_least, members_max, other));
    lemma_shared_is_present(homes, sources, other);
    let i = list.index_of(other);
    assert(list[i] == other);
    let home = best->0;
    assert forall|third: Home| #[trigger]
        homes.admits(sources, at_least, members_max, third) && third != home implies beats(
        homes,
        sources,
        home,
        third,
    ) by {
        lemma_shared_is_present(homes, sources, third);
        let k = list.index_of(third);
        assert(list[k] == third);
    }
    assert(homes.best(sources, at_least, members_max, home));
    lemma_best_unique(homes, sources, at_least, members_max, home);
}

proof fn lemma_shared_is_filtered(homes: Homes, sources: Seq<i64>, home: Home)
    ensures
        homes.shared(sources, home) == sources.filter(
            |source: i64| homes.homes_of(source).contains(home),
        ).len(),
    decreases sources.len(),
{
    reveal(Seq::filter);
    if sources.len() > 0 {
        lemma_shared_is_filtered(homes, sources.drop_last(), home);
    }
}

/// Whether a text is what a member is shown as: its spelling, then the
/// beginning of its gloss where it has one.
pub open spec fn shows_member(shown: Seq<char>, member: EmbedMember) -> bool {
    match member.gloss {
        None => shown == member.spelling@,
        Some(gloss) => {
            let head = member.spelling@ + ": "@;
            let said = shown.skip(head.len() as int);
            &&& head.is_prefix_of(shown)
            &&& said.is_prefix_of(gloss@)
            &&& said.len() <= EMBED_GLOSS_CHARS_MAX
            &&& said.len() == gloss@.len() || said.len() == EMBED_GLOSS_CHARS_MAX
        },
    }
}

/// A cluster's text shows its most frequent members, as many as it may, by
/// normalized spelling among equals: each begins with its spelling, and goes
/// on with the beginning of its gloss where it has one.
pub proof fn law_the_most_frequent_members_are_embedded(
    members: Seq<EmbedMember>,
    order: Seq<EmbedMember>,
)
    requires
        crate::order::is_sorting_of(order, members),
    ensures
        order.len() == members.len(),
        forall|member: EmbedMember| order.contains(member) == members.contains(member),
        forall|i: int, j: int|
            0 <= i < j < order.len() ==> (#[trigger] order[i]).document_frequency >= (
            #[trigger] order[j]).document_frequency && (order[i].document_frequency
                == order[j].document_frequency ==> !text::precedes(
                order[j].normalized@,
                order[i].normalized@,
            )),
        member_words(order).len() <= EMBED_MEMBERS_MAX,
        member_words(order).len() == members.len() || member_words(order).len()
            == EMBED_MEMBERS_MAX,
        forall|i: int|
            0 <= i < member_words(order).len() ==> shows_member(
                #[trigger] member_words(order)[i],
                order[i],
            ),
{
    crate::order::lemma_sorting_len(order, members);
    assert forall|member: EmbedMember| order.contains(member) == members.contains(member) by {
        crate::order::lemma_sorting_contains(order, members, member);
    }
    assert forall|i: int, j: int| 0 <= i < j < order.len() implies (
    #[trigger] order[i]).document_frequency >= (#[trigger] order[j]).document_frequency && (
    order[i].document_frequency == order[j].document_frequency ==> !text::precedes(
        order[j].normalized@,
        order[i].normalized@,
    )) by {
        assert(order[i].ranks_before(&order[j]));
    }
    assert forall|i: int| 0 <= i < member_words(order).len() implies shows_member(
        #[trigger] member_words(order)[i],
        order[i],
    ) by {
        if let Some(gloss) = order[i].gloss {
            let said = super::ground::cut_to(gloss@, EMBED_GLOSS_CHARS_MAX as nat);
            let head = order[i].spelling@ + ": "@;
            assert(member_words(order)[i] == head + said);
            assert((head + said).skip(head.len() as int) =~= said);
            assert((head + said).take(head.len() as int) =~= head);
        }
    }
}

} // verus!
