//! The LLM capability as the sweep grants it to transforms: one run meter
//! per transform entry, shared by every application of that transform, and
//! charged exactly.

use vstd::prelude::*;
use crate::seam::SeamError;
use crate::text;

verus! {

/// Per-transform, per-run LLM metering.
pub struct RunMeter {
    calls: usize,
    budget: usize,
}

/// What a meter says: the calls charged, and how many may be.
pub struct MeterView {
    pub calls: nat,
    pub budget: nat,
}

impl View for RunMeter {
    type V = MeterView;

    closed spec fn view(&self) -> MeterView {
        MeterView { calls: self.calls as nat, budget: self.budget as nat }
    }
}

impl MeterView {
    /// A meter never exceeds its budget.
    pub open spec fn wf(self) -> bool {
        self.calls <= self.budget
    }

    /// Whether a further call could still be charged.
    pub open spec fn open(self) -> bool {
        self.calls < self.budget
    }

    /// The meter after a charge: one call more while the budget lasts, and
    /// the same meter once it is spent.
    pub open spec fn charged(self) -> MeterView {
        if self.open() {
            MeterView { calls: self.calls + 1, budget: self.budget }
        } else {
            self
        }
    }

    /// The meter after `n` charges.
    pub open spec fn charged_times(self, n: nat) -> MeterView
        decreases n,
    {
        if n == 0 {
            self
        } else {
            self.charged_times((n - 1) as nat).charged()
        }
    }
}

impl RunMeter {
    pub fn new(budget: usize) -> (r: RunMeter)
        ensures
            r@ == (MeterView { calls: 0, budget: budget as nat }),
            r@.wf(),
    {
        RunMeter { calls: 0, budget }
    }

    /// Calls charged so far this run.
    pub fn calls(&self) -> (r: usize)
        ensures
            r == self@.calls,
    {
        self.calls
    }

    /// Whether a further call could still be charged.
    pub fn has_budget(&self) -> (r: bool)
        ensures
            r == self@.open(),
    {
        self.calls < self.budget
    }

    /// Reserve one call against the budget.
    pub fn charge(&mut self) -> (r: Result<(), ()>)
        ensures
            r is Ok <==> old(self)@.open(),
            final(self)@ == old(self)@.charged(),
            old(self)@.wf() ==> final(self)@.wf(),
    {
        if self.calls < self.budget {
            self.calls = self.calls + 1;
            Ok(())
        } else {
            Err(())
        }
    }
}

/// However many charges a run makes, exactly as many of them land as the
/// budget still allowed, and no more.
pub proof fn law_charges_stop_at_the_budget(meter: MeterView, charges: nat)
    requires
        meter.wf(),
    ensures
        meter.charged_times(charges).budget == meter.budget,
        meter.charged_times(charges).calls == if meter.calls + charges <= meter.budget {
            meter.calls + charges
        } else {
            meter.budget
        },
    decreases charges,
{
    if charges > 0 {
        law_charges_stop_at_the_budget(meter, (charges - 1) as nat);
    }
}

/// One registered transform's claim on the LLM for a run.
#[derive(Debug, PartialEq, Eq)]
pub struct Allowance {
    pub entry: String,
    pub budget: usize,
}

/// One entry and its meter.
pub struct Entry {
    pub name: String,
    pub meter: RunMeter,
}

/// Every registration's meter for one run, by entry id.
pub struct RunMeters {
    entries: Vec<Entry>,
}

/// The meters of a list of entries.
pub open spec fn meters_of(entries: Seq<Entry>) -> Map<Seq<char>, MeterView>
    decreases entries.len(),
{
    if entries.len() == 0 {
        Map::empty()
    } else {
        meters_of(entries.drop_last()).insert(entries.last().name@, entries.last().meter@)
    }
}

/// The meters a list of allowances opens a run with: one each, unspent; of
/// two allowances for one entry the later stands.
pub open spec fn opened(allowances: Seq<Allowance>) -> Map<Seq<char>, MeterView>
    decreases allowances.len(),
{
    if allowances.len() == 0 {
        Map::empty()
    } else {
        opened(allowances.drop_last()).insert(
            allowances.last().entry@,
            MeterView { calls: 0, budget: allowances.last().budget as nat },
        )
    }
}

spec fn distinct(entries: Seq<Entry>) -> bool {
    forall|i: int, j: int| 0 <= i < j < entries.len() ==> (#[trigger] entries[i]).name@ != (
    #[trigger] entries[j]).name@
}

proof fn lemma_meters(entries: Seq<Entry>)
    requires
        distinct(entries),
    ensures
        forall|i: int|
            0 <= i < entries.len() ==> meters_of(entries).contains_key(
                (#[trigger] entries[i]).name@,
            ) && meters_of(entries)[entries[i].name@] == entries[i].meter@,
        forall|k: Seq<char>| #[trigger]
            meters_of(entries).contains_key(k) ==> exists|i: int|
                0 <= i < entries.len() && (#[trigger] entries[i]).name@ == k,
    decreases entries.len(),
{
    if entries.len() > 0 {
        let front = entries.drop_last();
        assert(distinct(front));
        lemma_meters(front);
        assert forall|i: int| 0 <= i < entries.len() implies meters_of(entries).contains_key(
            (#[trigger] entries[i]).name@,
        ) && meters_of(entries)[entries[i].name@] == entries[i].meter@ by {
            if i < front.len() {
                assert(front[i] == entries[i]);
            }
        }
        assert forall|k: Seq<char>| #[trigger] meters_of(entries).contains_key(k) implies exists|
            i: int,
        |
            0 <= i < entries.len() && (#[trigger] entries[i]).name@ == k by {
            if k == entries.last().name@ {
                assert(entries[entries.len() - 1].name@ == k);
            } else {
                assert(meters_of(front).contains_key(k));
                let i = choose|i: int| 0 <= i < front.len() && (#[trigger] front[i]).name@ == k;
                assert(entries[i].name@ == k);
            }
        }
    }
}

/// Two lists of distinct entries that agree on every entry have one map.
proof fn lemma_meters_update(before: Seq<Entry>, after: Seq<Entry>, at: int)
    requires
        distinct(before),
        0 <= at < before.len(),
        after.len() == before.len(),
        after[at].name@ == before[at].name@,
        forall|i: int| 0 <= i < before.len() && i != at ==> after[i] == before[i],
    ensures
        distinct(after),
        meters_of(after) == meters_of(before).insert(before[at].name@, after[at].meter@),
{
    assert forall|i: int, j: int| 0 <= i < j < after.len() implies (#[trigger] after[i]).name@ != (
    #[trigger] after[j]).name@ by {
        assert(before[i].name@ != before[j].name@);
        assert(after[i].name@ == before[i].name@);
        assert(after[j].name@ == before[j].name@);
    }
    lemma_meters(before);
    lemma_meters(after);
    let expected = meters_of(before).insert(before[at].name@, after[at].meter@);
    assert forall|k: Seq<char>| #[trigger] meters_of(after).contains_key(k) implies (
    expected.contains_key(k) && meters_of(after)[k] == expected[k]) by {
        let i = choose|i: int| 0 <= i < after.len() && (#[trigger] after[i]).name@ == k;
        assert(before[i].name@ == k);
        assert(after[i].name@ == k);
        if i != at {
            assert(after[i] == before[i]);
            assert(before[at].name@ != k) by {
                if i < at {
                    assert(before[i].name@ != before[at].name@);
                } else {
                    assert(before[at].name@ != before[i].name@);
                }
            }
        }
    }
    assert forall|k: Seq<char>| #[trigger] expected.contains_key(k) implies meters_of(
        after,
    ).contains_key(k) by {
        if k == before[at].name@ {
            assert(after[at].name@ == k);
        } else {
            let i = choose|i: int| 0 <= i < before.len() && (#[trigger] before[i]).name@ == k;
            assert(after[i].name@ == k);
        }
    }
    assert(meters_of(after) =~= expected);
}

impl View for RunMeters {
    type V = Map<Seq<char>, MeterView>;

    closed spec fn view(&self) -> Map<Seq<char>, MeterView> {
        meters_of(self.entries@)
    }
}

/// What a refused charge says.
pub open spec fn spent_message(entry: Seq<char>) -> Seq<char> {
    "llm budget for `"@ + entry + "` is spent this run"@
}

/// Whether `calls` lists every entry of `meters` that was charged, once,
/// with the calls charged to it.
pub open spec fn lists_calls(
    calls: Seq<(String, usize)>,
    meters: Map<Seq<char>, MeterView>,
) -> bool {
    &&& forall|i: int|
        0 <= i < calls.len() ==> meters.contains_key((#[trigger] calls[i]).0@)
            && meters[calls[i].0@].calls == calls[i].1 && calls[i].1 > 0
    &&& forall|i: int, j: int|
        0 <= i < j < calls.len() ==> (#[trigger] calls[i]).0@ != (#[trigger] calls[j]).0@
    &&& forall|k: Seq<char>| #[trigger]
        meters.contains_key(k) && meters[k].calls > 0 ==> exists|i: int|
            0 <= i < calls.len() && (#[trigger] calls[i]).0@ == k
}

impl RunMeters {
    /// No entry stands twice.
    pub closed spec fn wf(self) -> bool {
        distinct(self.entries@)
    }

    /// A meter for each registration, by its entry id.
    pub fn for_registrations(allowances: &Vec<Allowance>) -> (r: RunMeters)
        ensures
            r.wf(),
            r@ == opened(allowances@),
    {
        let mut meters = RunMeters { entries: Vec::new() };
        let mut i: usize = 0;
        proof {
            assert(allowances@.take(0) =~= Seq::empty());
        }
        while i < allowances.len()
            invariant
                i <= allowances@.len(),
                meters.wf(),
                meters@ == opened(allowances@.take(i as int)),
            decreases allowances@.len() - i,
        {
            meters = meters.with_meter(allowances[i].entry.as_str(), allowances[i].budget);
            proof {
                assert(allowances@.take(i as int + 1).drop_last() =~= allowances@.take(i as int));
                assert(allowances@.take(i as int + 1).last() == allowances@[i as int]);
            }
            i = i + 1;
        }
        proof {
            assert(allowances@.take(allowances@.len() as int) =~= allowances@);
        }
        meters
    }

    fn position(&self, entry: &str) -> (r: Option<usize>)
        requires
            self.wf(),
        ensures
            r is Some <==> self@.contains_key(entry@),
            r matches Some(at) ==> at < self.entries@.len() && self.entries@[at as int].name@
                == entry@ && self@[entry@] == self.entries@[at as int].meter@,
    {
        let mut i: usize = 0;
        proof {
            lemma_meters(self.entries@);
        }
        while i < self.entries.len()
            invariant
                self.wf(),
                i <= self.entries@.len(),
                forall|j: int| 0 <= j < i ==> (#[trigger] self.entries@[j]).name@ != entry@,
            decreases self.entries@.len() - i,
        {
            if text::same(self.entries[i].name.as_str(), entry) {
                proof {
                    lemma_meters(self.entries@);
                    assert(self.entries@[i as int].name@ == entry@);
                }
                return Some(i);
            }
            i = i + 1;
        }
        None
    }

    /// The meters with one more: a fresh meter for `entry`.
    pub fn with_meter(self, entry: &str, budget: usize) -> (r: RunMeters)
        requires
            self.wf(),
        ensures
            r.wf(),
            r@ == self@.insert(entry@, MeterView { calls: 0, budget: budget as nat }),
    {
        let mut meters = self;
        match meters.position(entry) {
            Some(at) => {
                let ghost before = meters.entries@;
                let fresh = Entry { name: entry.to_owned(), meter: RunMeter::new(budget) };
                meters.entries.set(at, fresh);
                proof {
                    lemma_meters_update(before, meters.entries@, at as int);
                }
            },
            None => {
                let ghost before = meters.entries@;
                let fresh = Entry { name: entry.to_owned(), meter: RunMeter::new(budget) };
                meters.entries.push(fresh);
                proof {
                    lemma_meters(before);
                    assert(meters.entries@.drop_last() =~= before);
                    assert forall|i: int, j: int|
                        0 <= i < j < meters.entries@.len() implies (
                    #[trigger] meters.entries@[i]).name@ != (#[trigger] meters.entries@[j]).name@ by {
                        assert(before[i] == meters.entries@[i]);
                        if j == before.len() {
                            assert(meters_of(before).contains_key(before[i].name@));
                        } else {
                            assert(before[j] == meters.entries@[j]);
                        }
                    }
                }
            },
        }
        meters
    }

    /// Whether the LLM is granted to `entry`: a provider is mounted, the
    /// entry has a meter, and the meter's budget lasts.
    pub fn grants(&self, entry: &str, mounted: bool) -> (r: bool)
        requires
            self.wf(),
        ensures
            r == (mounted && self@.contains_key(entry@) && self@[entry@].open()),
    {
        if !mounted {
            return false;
        }
        match self.position(entry) {
            Some(at) => self.entries[at].meter.has_budget(),
            None => false,
        }
    }

    /// Charge one call to an entry, before its guard is asked.
    pub fn charge(&mut self, entry: &str) -> (r: Result<(), SeamError>)
        requires
            old(self).wf(),
            old(self)@.contains_key(entry@),
        ensures
            final(self).wf(),
            final(self)@ == old(self)@.insert(entry@, old(self)@[entry@].charged()),
            r is Ok <==> old(self)@[entry@].open(),
            r matches Err(e) ==> e@ == crate::seam::ErrorView::Refused(spent_message(entry@)),
    {
        let at: usize = match self.position(entry) {
            Some(at) => at,
            None => 0,
        };
        let ghost before = self.entries@;
        let mut meter = RunMeter {
            calls: self.entries[at].meter.calls,
            budget: self.entries[at].meter.budget,
        };
        let landed = meter.charge();
        self.entries.set(at, Entry { name: entry.to_owned(), meter });
        proof {
            lemma_meters_update(before, self.entries@, at as int);
        }
        match landed {
            Ok(_) => Ok(()),
            Err(_) => {
                let mut message = "llm budget for `".to_owned();
                message.append(entry);
                message.append("` is spent this run");
                Err(SeamError::Refused(message))
            },
        }
    }

    /// Charge one call to an entry that its guard has answered for: a denied
    /// call is refused with the guard's reason and charges nothing.
    pub fn charge_guarded(&mut self, entry: &str, denied: Option<String>) -> (r: Result<
        (),
        SeamError,
    >)
        requires
            old(self).wf(),
            old(self)@.contains_key(entry@),
        ensures
            final(self).wf(),
            final(self)@ == (if denied is None {
                old(self)@.insert(entry@, old(self)@[entry@].charged())
            } else {
                old(self)@
            }),
            r is Ok <==> (old(self)@[entry@].open() && denied is None),
            r matches Err(e) ==> e@ == crate::seam::ErrorView::Refused(
                if old(self)@[entry@].open() {
                    denied->0@
                } else {
                    spent_message(entry@)
                },
            ),
    {
        if !self.grants(entry, true) {
            let mut message = "llm budget for `".to_owned();
            message.append(entry);
            message.append("` is spent this run");
            proof {
                assert(self@ =~= self@.insert(entry@, self@[entry@].charged()));
            }
            return Err(SeamError::Refused(message));
        }
        match denied {
            Some(reason) => Err(SeamError::Refused(reason)),
            None => self.charge(entry),
        }
    }

    /// Calls charged per entry this run, entries with none omitted.
    pub fn calls_by_entry(&self) -> (r: Vec<(String, usize)>)
        requires
            self.wf(),
        ensures
            lists_calls(r@, self@),
    {
        let mut out: Vec<(String, usize)> = Vec::new();
        let mut i: usize = 0;
        while i < self.entries.len()
            invariant
                self.wf(),
                i <= self.entries@.len(),
                forall|k: int|
                    0 <= k < out@.len() ==> exists|j: int|
                        0 <= j < i && (#[trigger] self.entries@[j]).name@ == (
                        #[trigger] out@[k]).0@ && self.entries@[j].meter@.calls == out@[k].1
                            && out@[k].1 > 0,
                forall|k: int, l: int|
                    0 <= k < l < out@.len() ==> (#[trigger] out@[k]).0@ != (#[trigger] out@[l]).0@,
                forall|j: int|
                    0 <= j < i && (#[trigger] self.entries@[j]).meter@.calls > 0 ==> exists|k: int|
                        0 <= k < out@.len() && (#[trigger] out@[k]).0@ == self.entries@[j].name@,
            decreases self.entries@.len() - i,
        {
            let calls: usize = self.entries[i].meter.calls();
            let ghost before = out@;
            if calls > 0 {
                out.push((self.entries[i].name.clone(), calls));
                proof {
                    assert forall|k: int| 0 <= k < out@.len() implies exists|j: int|
                        0 <= j < i + 1 && (#[trigger] self.entries@[j]).name@ == (
                        #[trigger] out@[k]).0@ && self.entries@[j].meter@.calls == out@[k].1
                            && out@[k].1 > 0 by {
                        if k < before.len() {
                            assert(out@[k] == before[k]);
                        } else {
                            assert(self.entries@[i as int].name@ == out@[k].0@);
                        }
                    }
                    assert forall|k: int, l: int| 0 <= k < l < out@.len() implies (
                    #[trigger] out@[k]).0@ != (#[trigger] out@[l]).0@ by {
                        assert(out@[k] == before[k]);
                        if l < before.len() {
                            assert(out@[l] == before[l]);
                        } else {
                            let j = choose|j: int|
                                0 <= j < i && (#[trigger] self.entries@[j]).name@ == before[k].0@;
                            assert(self.entries@[j].name@ != self.entries@[i as int].name@);
                        }
                    }
                    assert forall|j: int|
                        0 <= j < i + 1 && (#[trigger] self.entries@[j]).meter@.calls
                            > 0 implies exists|k: int|
                        0 <= k < out@.len() && (#[trigger] out@[k]).0@ == self.entries@[j].name@ by {
                        if j < i {
                            let k = choose|k: int|
                                0 <= k < before.len() && (#[trigger] before[k]).0@
                                    == self.entries@[j].name@;
                            assert(out@[k] == before[k]);
                        } else {
                            assert(out@[before.len() as int].0@ == self.entries@[j].name@);
                        }
                    }
                }
            }
            i = i + 1;
        }
        proof {
            lemma_meters(self.entries@);
            assert forall|k: Seq<char>| #[trigger]
                self@.contains_key(k) && self@[k].calls > 0 implies exists|i: int|
                0 <= i < out@.len() && (#[trigger] out@[i]).0@ == k by {
                let j = choose|j: int|
                    0 <= j < self.entries@.len() && (#[trigger] self.entries@[j]).name@ == k;
                assert(self@[k] == self.entries@[j].meter@);
            }
        }
        out
    }
}


/// A run opens with an unspent meter for every entry it has an allowance
/// for, of the budget last given, and for no other entry.
pub proof fn law_every_allowance_opens_a_meter(allowances: Seq<Allowance>)
    ensures
        forall|i: int|
            0 <= i < allowances.len() ==> opened(allowances).contains_key(
                (#[trigger] allowances[i]).entry@,
            ),
        forall|i: int|
            0 <= i < allowances.len() && (forall|j: int|
                i < j < allowances.len() ==> (#[trigger] allowances[j]).entry@
                    != allowances[i].entry@) ==> opened(allowances)[(
            #[trigger] allowances[i]).entry@].budget == allowances[i].budget,
        forall|entry: Seq<char>| #[trigger]
            opened(allowances).contains_key(entry) ==> opened(allowances)[entry].calls == 0
                && exists|i: int| 0 <= i < allowances.len() && (#[trigger] allowances[i]).entry@ == entry,
    decreases allowances.len(),
{
    if allowances.len() > 0 {
        let front = allowances.drop_last();
        let last = allowances.len() - 1;
        law_every_allowance_opens_a_meter(front);
        assert forall|i: int| 0 <= i < allowances.len() implies opened(allowances).contains_key(
            (#[trigger] allowances[i]).entry@,
        ) by {
            if i < last {
                assert(front[i] == allowances[i]);
            }
        }
        assert forall|i: int|
            0 <= i < allowances.len() && (forall|j: int|
                i < j < allowances.len() ==> (#[trigger] allowances[j]).entry@
                    != allowances[i].entry@) implies opened(allowances)[(
        #[trigger] allowances[i]).entry@].budget == allowances[i].budget by {
            if i < last {
                assert(front[i] == allowances[i]);
                assert(allowances[last].entry@ != allowances[i].entry@);
                assert forall|j: int| i < j < front.len() implies (#[trigger] front[j]).entry@
                    != front[i].entry@ by {
                    assert(front[j] == allowances[j]);
                }
            }
        }
        assert forall|entry: Seq<char>| #[trigger] opened(allowances).contains_key(
            entry,
        ) implies opened(allowances)[entry].calls == 0 && exists|i: int|
            0 <= i < allowances.len() && (#[trigger] allowances[i]).entry@ == entry by {
            if entry == allowances[last].entry@ {
            } else {
                assert(opened(front).contains_key(entry));
                let i = choose|i: int|
                    0 <= i < front.len() && (#[trigger] front[i]).entry@ == entry;
                assert(allowances[i].entry@ == entry);
            }
        }
    }
}
} // verus!
