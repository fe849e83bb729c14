//! The embedding stage: search rows buffered into batches, and landed in
//! order together with the marks of the sources whose rows they complete.
//! Ordered landing is what lets a mark ride with a batch: every row of a
//! completed source is in that batch or an earlier one, so once the mark is
//! written the source is searchable in full.

use vstd::prelude::*;

verus! {

/// Search rows per batch.
pub const FLUSH_AT: usize = 256;

/// A text-bearing fragment bound for the search tables.
#[derive(Debug, PartialEq, Eq)]
pub struct PendingRow {
    pub fragment: i64,
    pub source: Option<i64>,
    pub text: String,
    pub is_summary: bool,
}

/// One mimetype a subtree holds, at its root or below it.
#[derive(Debug, PartialEq, Eq)]
pub struct InventoryEntry {
    pub mimetype: String,
    pub is_root: bool,
}

/// The mark that a source's subtree is indexed in full.
#[derive(Debug, PartialEq, Eq)]
pub struct SourceCompletion {
    pub source: i64,
    pub stamp: String,
    pub inventory: Vec<InventoryEntry>,
}

/// One unit of stage work: rows to embed and land, and the sources whose
/// last rows are in this batch or an earlier one.
#[derive(Debug, PartialEq, Eq)]
pub struct Batch {
    pub rows: Vec<PendingRow>,
    pub completed: Vec<SourceCompletion>,
}

/// What a batch holds.
#[verifier::ext_equal]
pub struct BatchView {
    pub rows: Seq<PendingRow>,
    pub completed: Seq<SourceCompletion>,
}

impl View for Batch {
    type V = BatchView;

    open spec fn view(&self) -> BatchView {
        BatchView { rows: self.rows@, completed: self.completed@ }
    }
}

/// What a list of batches holds.
pub open spec fn batch_views(batches: Seq<Batch>) -> Seq<BatchView> {
    Seq::new(batches.len(), |i: int| batches[i]@)
}

/// A completion, and how many rows of the stream stand before it.
pub struct Mark {
    pub rows_before: usize,
    pub completion: SourceCompletion,
}

/// The buffered stream: rows in order, and marks between them.
#[verifier::ext_equal]
pub struct Stream {
    pub rows: Seq<PendingRow>,
    pub marks: Seq<(nat, SourceCompletion)>,
}

/// Completions without their places.
pub open spec fn completions(marks: Seq<(nat, SourceCompletion)>) -> Seq<SourceCompletion> {
    Seq::new(marks.len(), |i: int| marks[i].1)
}

impl Stream {
    /// Marks stand in stream order, none past the last row.
    pub open spec fn wf(self) -> bool {
        &&& forall|i: int| 0 <= i < self.marks.len() ==> (#[trigger] self.marks[i]).0 <= self.rows.len()
        &&& forall|i: int, j: int|
            0 <= i < j < self.marks.len() ==> (#[trigger] self.marks[i]).0 <= (
            #[trigger] self.marks[j]).0
    }

    /// The stream with rows at its end.
    pub open spec fn with_rows(self, rows: Seq<PendingRow>) -> Stream {
        Stream { rows: self.rows + rows, marks: self.marks }
    }

    /// The stream with a completion at its end.
    pub open spec fn with_completion(self, completion: SourceCompletion) -> Stream {
        Stream { rows: self.rows, marks: self.marks.push((self.rows.len(), completion)) }
    }

    /// How many marks stand at or before row `n`.
    pub open spec fn marks_within(self, n: nat) -> nat
        decreases self.marks.len(),
    {
        if self.marks.len() == 0 {
            0
        } else if self.marks.last().0 <= n {
            self.marks.len()
        } else {
            Stream { rows: self.rows, marks: self.marks.drop_last() }.marks_within(n)
        }
    }

    /// The first `n` rows, with the marks they reach.
    pub open spec fn head(self, n: nat) -> BatchView {
        BatchView {
            rows: self.rows.take(n as int),
            completed: completions(self.marks.take(self.marks_within(n) as int)),
        }
    }

    /// The stream past its first `n` rows.
    pub open spec fn rest(self, n: nat) -> Stream {
        let reached = self.marks_within(n) as int;
        Stream {
            rows: self.rows.skip(n as int),
            marks: Seq::new(
                (self.marks.len() - reached) as nat,
                |i: int| ((self.marks[reached + i].0 - n) as nat, self.marks[reached + i].1),
            ),
        }
    }

    /// The full batches of the stream, in order.
    pub open spec fn ready(self) -> Seq<BatchView>
        decreases self.rows.len(),
    {
        if self.rows.len() < FLUSH_AT {
            Seq::empty()
        } else {
            seq![self.head(FLUSH_AT as nat)] + self.rest(FLUSH_AT as nat).ready()
        }
    }

    /// What the full batches leave.
    pub open spec fn unready(self) -> Stream
        decreases self.rows.len(),
    {
        if self.rows.len() < FLUSH_AT {
            self
        } else {
            self.rest(FLUSH_AT as nat).unready()
        }
    }

    /// Every batch of the stream: the full ones, and one of what is left.
    pub open spec fn batches(self) -> Seq<BatchView> {
        let left = self.unready();
        if left.rows.len() == 0 && left.marks.len() == 0 {
            self.ready()
        } else {
            self.ready().push(left.head(left.rows.len()))
        }
    }
}

/// The marks at or before a row are a prefix of the marks.
proof fn lemma_marks_within(s: Stream, n: nat)
    requires
        s.wf(),
    ensures
        s.marks_within(n) <= s.marks.len(),
        forall|i: int| 0 <= i < s.marks_within(n) ==> (#[trigger] s.marks[i]).0 <= n,
        forall|i: int| s.marks_within(n) <= i < s.marks.len() ==> (#[trigger] s.marks[i]).0 > n,
    decreases s.marks.len(),
{
    if s.marks.len() > 0 && s.marks.last().0 > n {
        let front = Stream { rows: s.rows, marks: s.marks.drop_last() };
        assert(front.wf());
        lemma_marks_within(front, n);
        assert forall|i: int| 0 <= i < s.marks_within(n) implies (#[trigger] s.marks[i]).0 <= n by {
            assert(front.marks[i] == s.marks[i]);
        }
        assert forall|i: int| s.marks_within(n) <= i < s.marks.len() implies (
        #[trigger] s.marks[i]).0 > n by {
            if i < front.marks.len() {
                assert(front.marks[i] == s.marks[i]);
            }
        }
    }
}

proof fn lemma_rest_wf(s: Stream, n: nat)
    requires
        s.wf(),
        n <= s.rows.len(),
    ensures
        s.rest(n).wf(),
{
    lemma_marks_within(s, n);
    let reached = s.marks_within(n) as int;
    let rest = s.rest(n);
    assert forall|i: int| 0 <= i < rest.marks.len() implies (#[trigger] rest.marks[i]).0
        <= rest.rows.len() by {
        assert(s.marks[reached + i].0 <= s.rows.len());
    }
    assert forall|i: int, j: int| 0 <= i < j < rest.marks.len() implies (#[trigger] rest.marks[i]).0
        <= (#[trigger] rest.marks[j]).0 by {
        assert(s.marks[reached + i].0 <= s.marks[reached + j].0);
    }
}

proof fn lemma_unready(s: Stream)
    requires
        s.wf(),
    ensures
        s.unready().wf(),
        s.unready().rows.len() < FLUSH_AT,
    decreases s.rows.len(),
{
    if s.rows.len() >= FLUSH_AT {
        lemma_rest_wf(s, FLUSH_AT as nat);
        lemma_unready(s.rest(FLUSH_AT as nat));
    }
}

/// The rows of the first `k` batches.
pub open spec fn rows_of(batches: Seq<BatchView>, k: nat) -> Seq<PendingRow>
    decreases k,
{
    if k == 0 {
        Seq::empty()
    } else {
        rows_of(batches, (k - 1) as nat) + batches[k - 1].rows
    }
}

/// The completions of the first `k` batches.
pub open spec fn completions_of(batches: Seq<BatchView>, k: nat) -> Seq<SourceCompletion>
    decreases k,
{
    if k == 0 {
        Seq::empty()
    } else {
        completions_of(batches, (k - 1) as nat) + batches[k - 1].completed
    }
}

proof fn lemma_rows_of_front(first: BatchView, batches: Seq<BatchView>, k: nat)
    requires
        k <= batches.len(),
    ensures
        rows_of(seq![first] + batches, k + 1) == first.rows + rows_of(batches, k),
        completions_of(seq![first] + batches, k + 1) == first.completed + completions_of(
            batches,
            k,
        ),
    decreases k,
{
    let whole = seq![first] + batches;
    if k == 0 {
        assert(rows_of(whole, 0) =~= Seq::empty());
        assert(completions_of(whole, 0) =~= Seq::empty());
        assert(rows_of(whole, 1) =~= first.rows);
        assert(completions_of(whole, 1) =~= first.completed);
        assert(first.rows + rows_of(batches, 0) =~= first.rows);
        assert(first.completed + completions_of(batches, 0) =~= first.completed);
    } else {
        lemma_rows_of_front(first, batches, (k - 1) as nat);
        assert(whole[k as int] == batches[k - 1]);
        assert(rows_of(whole, k + 1) =~= first.rows + rows_of(batches, k));
        assert(completions_of(whole, k + 1) =~= first.completed + completions_of(batches, k));
    }
}

proof fn lemma_prefix_of_push(batches: Seq<BatchView>, last: BatchView, k: nat)
    requires
        k <= batches.len(),
    ensures
        rows_of(batches.push(last), k) == rows_of(batches, k),
        completions_of(batches.push(last), k) == completions_of(batches, k),
    decreases k,
{
    if k > 0 {
        lemma_prefix_of_push(batches, last, (k - 1) as nat);
        assert(batches.push(last)[k - 1] == batches[k - 1]);
    }
}

/// What the first `k` full batches hold: the first rows of the stream, and
/// exactly the marks those rows reach; with what all of them leave, they
/// make up the stream.
proof fn lemma_ready(s: Stream, k: nat)
    requires
        s.wf(),
        k <= s.ready().len(),
    ensures
        s.rows.len() >= FLUSH_AT * s.ready().len(),
        rows_of(s.ready(), k) == s.rows.take(FLUSH_AT * k as int),
        k > 0 ==> completions_of(s.ready(), k) == completions(
            s.marks.take(s.marks_within((FLUSH_AT * k) as nat) as int),
        ),
        s.rows == rows_of(s.ready(), s.ready().len()) + s.unready().rows,
        completions(s.marks) == completions_of(s.ready(), s.ready().len()) + completions(
            s.unready().marks,
        ),
    decreases s.rows.len(),
{
    if s.rows.len() < FLUSH_AT {
        assert(s.ready() =~= Seq::empty());
        assert(rows_of(s.ready(), 0) + s.unready().rows =~= s.rows);
        assert(completions_of(s.ready(), 0) + completions(s.unready().marks) =~= completions(
            s.marks,
        ));
        assert(s.rows.take(0) =~= Seq::empty());
    } else {
        let n = FLUSH_AT as nat;
        let rest = s.rest(n);
        lemma_rest_wf(s, n);
        lemma_marks_within(s, n);
        let first = s.head(n);
        let later = rest.ready();
        assert(s.ready() == seq![first] + later);
        // The whole of it.
        lemma_ready(rest, later.len());
        lemma_rows_of_front(first, later, later.len());
        assert(s.rows =~= first.rows + rest.rows);
        assert(s.rows =~= rows_of(s.ready(), s.ready().len()) + s.unready().rows);
        assert(completions(s.marks) =~= first.completed + completions(rest.marks));
        assert(completions(s.marks) =~= completions_of(s.ready(), s.ready().len()) + completions(
            s.unready().marks,
        ));
        // The first `k`.
        if k == 0 {
            assert(s.rows.take(0) =~= Seq::empty());
        } else {
            let j = (k - 1) as nat;
            lemma_ready(rest, j);
            lemma_rows_of_front(first, later, j);
            assert(rows_of(s.ready(), k) =~= s.rows.take(FLUSH_AT * k as int));
            lemma_marks_within(s, (FLUSH_AT * k) as nat);
            if j == 0 {
                assert(completions_of(later, 0) =~= Seq::empty());
                assert(completions_of(s.ready(), 1) =~= first.completed);
            } else {
                let below = (FLUSH_AT * j) as nat;
                lemma_marks_within(rest, below);
                let reached = s.marks_within(n) as int;
                let later_reached = rest.marks_within(below) as int;
                let both = s.marks_within((FLUSH_AT * k) as nat) as int;
                if reached + later_reached < both {
                    let at = reached + later_reached;
                    assert(s.marks[at].0 <= FLUSH_AT * k);
                    assert(rest.marks[later_reached].0 > below);
                    assert(false);
                }
                if both < reached + later_reached {
                    assert(s.marks[both].0 > FLUSH_AT * k);
                    if both < reached {
                        assert(s.marks[both].0 <= n);
                    } else {
                        assert(rest.marks[both - reached].0 <= below);
                    }
                    assert(false);
                }
                assert(completions_of(s.ready(), k) =~= completions(s.marks.take(both)));
            }
        }
    }
}

/// Buffering loses nothing and keeps the order: however the stream is cut
/// into batches, their rows are the rows pushed and their completions the
/// completions pushed, each in the order they came.
pub proof fn law_batches_are_the_stream(s: Stream)
    requires
        s.wf(),
    ensures
        rows_of(s.batches(), s.batches().len()) == s.rows,
        completions_of(s.batches(), s.batches().len()) == completions(s.marks),
{
    lemma_ready(s, s.ready().len());
    lemma_unready(s);
    let left = s.unready();
    if left.rows.len() == 0 && left.marks.len() == 0 {
        assert(rows_of(s.ready(), s.ready().len()) + left.rows =~= rows_of(
            s.ready(),
            s.ready().len(),
        ));
        assert(completions_of(s.ready(), s.ready().len()) + completions(left.marks)
            =~= completions_of(s.ready(), s.ready().len()));
    } else {
        let last = left.head(left.rows.len());
        lemma_prefix_of_push(s.ready(), last, s.ready().len());
        lemma_marks_within(left, left.rows.len());
        assert(left.rows.take(left.rows.len() as int) =~= left.rows);
        assert(left.marks_within(left.rows.len()) == left.marks.len()) by {
            if left.marks_within(left.rows.len()) < left.marks.len() {
                assert(left.marks[left.marks_within(left.rows.len()) as int].0 > left.rows.len());
            }
        }
        assert(left.marks.take(left.marks.len() as int) =~= left.marks);
    }
}

/// A mark never runs ahead of its rows: once the first `k` full batches have
/// landed, exactly the completions whose every row is among them have landed
/// too.
pub proof fn law_marks_ride_with_their_last_row(s: Stream, k: nat)
    requires
        s.wf(),
        0 < k <= s.ready().len(),
    ensures
        rows_of(s.ready(), k).len() == FLUSH_AT * k,
        completions_of(s.ready(), k).len() <= s.marks.len(),
        completions_of(s.ready(), k) == completions(
            s.marks.take(completions_of(s.ready(), k).len() as int),
        ),
        forall|i: int|
            0 <= i < s.marks.len() ==> (i < completions_of(s.ready(), k).len() <==> (
            #[trigger] s.marks[i]).0 <= rows_of(s.ready(), k).len()),
{
    lemma_ready(s, k);
    lemma_marks_within(s, (FLUSH_AT * k) as nat);
    assert(FLUSH_AT * k <= FLUSH_AT * s.ready().len()) by (nonlinear_arith)
        requires
            k <= s.ready().len(),
    ;
}

/// One use of a buffer.
pub enum BufferStep {
    /// Rows are pushed.
    Rows(Seq<PendingRow>),
    /// A completion is pushed.
    Completion(SourceCompletion),
    /// The full batches are taken.
    Drain,
}

/// Everything the steps push: the rows in order, and each completion with
/// how many rows were pushed ahead of it.
pub open spec fn pushed(steps: Seq<BufferStep>) -> Stream
    decreases steps.len(),
{
    if steps.len() == 0 {
        Stream { rows: Seq::empty(), marks: Seq::empty() }
    } else {
        let before = pushed(steps.drop_last());
        match steps.last() {
            BufferStep::Rows(rows) => before.with_rows(rows),
            BufferStep::Completion(completion) => before.with_completion(completion),
            BufferStep::Drain => before,
        }
    }
}

/// What a buffer holds after the steps.
pub open spec fn held(steps: Seq<BufferStep>) -> Stream
    decreases steps.len(),
{
    if steps.len() == 0 {
        Stream { rows: Seq::empty(), marks: Seq::empty() }
    } else {
        let before = held(steps.drop_last());
        match steps.last() {
            BufferStep::Rows(rows) => before.with_rows(rows),
            BufferStep::Completion(completion) => before.with_completion(completion),
            BufferStep::Drain => before.unready(),
        }
    }
}

/// The batches the steps took, in order.
pub open spec fn taken(steps: Seq<BufferStep>) -> Seq<BatchView>
    decreases steps.len(),
{
    if steps.len() == 0 {
        Seq::empty()
    } else {
        let before = taken(steps.drop_last());
        match steps.last() {
            BufferStep::Drain => before + held(steps.drop_last()).ready(),
            _ => before,
        }
    }
}

/// Every batch of a buffer that goes through the steps and is then drained
/// of all that is left.
pub open spec fn all_batches(steps: Seq<BufferStep>) -> Seq<BatchView> {
    taken(steps) + held(steps).batches()
}

proof fn lemma_joined_batches(a: Seq<BatchView>, b: Seq<BatchView>, k: nat)
    requires
        k <= b.len(),
    ensures
        rows_of(a + b, a.len() + k) == rows_of(a, a.len()) + rows_of(b, k),
        completions_of(a + b, a.len() + k) == completions_of(a, a.len()) + completions_of(b, k),
    decreases k,
{
    if k == 0 {
        lemma_first_batches(a, b, a.len());
        assert(rows_of(a, a.len()) + rows_of(b, 0) =~= rows_of(a, a.len()));
        assert(completions_of(a, a.len()) + completions_of(b, 0) =~= completions_of(a, a.len()));
    } else {
        lemma_joined_batches(a, b, (k - 1) as nat);
        assert((a + b)[a.len() + k - 1] == b[k - 1]);
        assert(rows_of(a + b, a.len() + k) =~= rows_of(a, a.len()) + rows_of(b, k));
        assert(completions_of(a + b, a.len() + k) =~= completions_of(a, a.len())
            + completions_of(b, k));
    }
}

proof fn lemma_first_batches(a: Seq<BatchView>, b: Seq<BatchView>, k: nat)
    requires
        k <= a.len(),
    ensures
        rows_of(a + b, k) == rows_of(a, k),
        completions_of(a + b, k) == completions_of(a, k),
    decreases k,
{
    if k > 0 {
        lemma_first_batches(a, b, (k - 1) as nat);
        assert((a + b)[k - 1] == a[k - 1]);
    }
}

/// Where the marks stand that the full batches do not reach, and how many
/// rows those batches have.
proof fn lemma_unreached(s: Stream)
    requires
        s.wf(),
    ensures
        forall|k: int| 0 <= k < s.ready().len() ==> (#[trigger] s.ready()[k]).rows.len() == FLUSH_AT,
        completions_of(s.ready(), s.ready().len()).len() + s.unready().marks.len() == s.marks.len(),
        forall|i: int|
            0 <= i < s.unready().marks.len() ==> (#[trigger] s.unready().marks[i]).0 + FLUSH_AT
                * s.ready().len() == s.marks[completions_of(s.ready(), s.ready().len()).len() + i].0,
    decreases s.rows.len(),
{
    if s.rows.len() < FLUSH_AT {
        assert(s.ready() =~= Seq::empty());
    } else {
        let n = FLUSH_AT as nat;
        let rest = s.rest(n);
        let first = s.head(n);
        let later = rest.ready();
        lemma_rest_wf(s, n);
        lemma_marks_within(s, n);
        lemma_unreached(rest);
        lemma_rows_of_front(first, later, later.len());
        assert(s.ready() == seq![first] + later);
        assert forall|k: int| 0 <= k < s.ready().len() implies (#[trigger] s.ready()[k]).rows.len()
            == FLUSH_AT by {
            if k > 0 {
                assert(s.ready()[k] == later[k - 1]);
            }
        }
        assert forall|i: int| 0 <= i < s.unready().marks.len() implies (
        #[trigger] s.unready().marks[i]).0 + FLUSH_AT * s.ready().len()
            == s.marks[completions_of(s.ready(), s.ready().len()).len() + i].0 by {
            let at = completions_of(later, later.len()).len() + i;
            assert(rest.unready().marks[i].0 + FLUSH_AT * later.len() == rest.marks[at].0);
            assert(rest.marks[at].0 == s.marks[s.marks_within(n) + at].0 - n);
        }
    }
}

/// Whether batches and what is left of a stream account for the whole of
/// it, no mark ahead of its rows.
spec fn accounts_for(whole: Stream, batches: Seq<BatchView>, left: Stream) -> bool {
    let reached = completions_of(batches, batches.len()).len();
    &&& left.wf()
    &&& whole.wf()
    &&& whole.rows == rows_of(batches, batches.len()) + left.rows
    &&& completions(whole.marks) == completions_of(batches, batches.len()) + completions(left.marks)
    &&& rows_of(batches, batches.len()).len() == FLUSH_AT * batches.len()
    &&& forall|k: int| 0 <= k < batches.len() ==> (#[trigger] batches[k]).rows.len() == FLUSH_AT
    &&& forall|i: int|
        0 <= i < left.marks.len() ==> (#[trigger] left.marks[i]).0 + FLUSH_AT * batches.len()
            == whole.marks[reached + i].0
    &&& forall|k: nat|
        k <= batches.len() ==> #[trigger] marks_behind(whole, batches, k)
}

/// Whether the first `k` batches hold every row pushed ahead of a
/// completion of theirs.
pub open spec fn marks_behind(whole: Stream, batches: Seq<BatchView>, k: nat) -> bool {
    forall|i: int|
        0 <= i < completions_of(batches, k).len() ==> (#[trigger] whole.marks[i]).0 <= rows_of(
            batches,
            k,
        ).len()
}

proof fn lemma_accounts_for_push(whole: Stream, batches: Seq<BatchView>, left: Stream, k: nat, more: Stream)
    requires
        accounts_for(whole, batches, left),
        k <= batches.len(),
        whole.marks.is_prefix_of(more.marks),
    ensures
        marks_behind(more, batches, k),
{
    lemma_completions_grow(batches, k, batches.len());
    assert(completions(whole.marks).len() == whole.marks.len());
    assert(marks_behind(whole, batches, k));
    assert forall|i: int| 0 <= i < completions_of(batches, k).len() implies (
    #[trigger] more.marks[i]).0 <= rows_of(batches, k).len() by {
        assert(whole.marks[i] == more.marks[i]);
    }
}

proof fn lemma_completions_grow(batches: Seq<BatchView>, k: nat, n: nat)
    requires
        k <= n <= batches.len(),
    ensures
        completions_of(batches, k).len() <= completions_of(batches, n).len(),
        rows_of(batches, k).len() <= rows_of(batches, n).len(),
    decreases n,
{
    if k < n {
        lemma_completions_grow(batches, k, (n - 1) as nat);
    }
}

proof fn lemma_accounts_for_drain(whole: Stream, batches: Seq<BatchView>, left: Stream)
    requires
        accounts_for(whole, batches, left),
    ensures
        accounts_for(whole, batches + left.ready(), left.unready()),
{
    let ready = left.ready();
    let after = batches + ready;
    let n = batches.len();
    let m = ready.len();
    let c = completions_of(batches, n).len();
    lemma_joined_batches(batches, ready, m);
    lemma_ready(left, m);
    lemma_unready(left);
    lemma_unreached(left);
    assert(rows_of(ready, m).len() == FLUSH_AT * m) by {
        assert(left.rows.take(FLUSH_AT * m as int).len() == FLUSH_AT * m);
    }
    assert(FLUSH_AT * n + FLUSH_AT * m == FLUSH_AT * (n + m)) by (nonlinear_arith);
    assert(whole.rows =~= rows_of(after, after.len()) + left.unready().rows);
    assert(completions(whole.marks) =~= completions_of(after, after.len()) + completions(
        left.unready().marks,
    ));
    assert forall|k: int| 0 <= k < after.len() implies (#[trigger] after[k]).rows.len()
        == FLUSH_AT by {
        if k >= n {
            assert(after[k] == ready[k - n]);
        } else {
            assert(after[k] == batches[k]);
        }
    }
    assert forall|i: int| 0 <= i < left.unready().marks.len() implies (
    #[trigger] left.unready().marks[i]).0 + FLUSH_AT * after.len() == whole.marks[completions_of(
        after,
        after.len(),
    ).len() + i].0 by {
        let at = completions_of(ready, m).len() + i;
        assert(left.marks[at].0 + FLUSH_AT * n == whole.marks[c + at].0);
    }
    assert forall|k: nat| k <= after.len() implies #[trigger] marks_behind(whole, after, k) by {
        if k <= n {
            lemma_first_batches(batches, ready, k);
            assert(marks_behind(whole, batches, k));
            assert forall|i: int| 0 <= i < completions_of(after, k).len() implies (
            #[trigger] whole.marks[i]).0 <= rows_of(after, k).len() by {}
        } else {
            let j = (k - n) as nat;
            lemma_joined_batches(batches, ready, j);
            law_marks_ride_with_their_last_row(left, j);
            assert(marks_behind(whole, batches, n));
            assert forall|i: int| 0 <= i < completions_of(after, k).len() implies (
            #[trigger] whole.marks[i]).0 <= rows_of(after, k).len() by {
                if i >= c {
                    assert(left.marks[i - c].0 + FLUSH_AT * n == whole.marks[c + (i - c)].0);
                }
            }
        }
    }
}

proof fn lemma_steps(steps: Seq<BufferStep>)
    ensures
        accounts_for(pushed(steps), taken(steps), held(steps)),
    decreases steps.len(),
{
    let batches = taken(steps);
    let whole = pushed(steps);
    let left = held(steps);
    if steps.len() == 0 {
        assert(whole.rows =~= rows_of(batches, 0) + left.rows);
        assert(completions(whole.marks) =~= completions_of(batches, 0) + completions(left.marks));
    } else {
        let front = steps.drop_last();
        lemma_steps(front);
        let before = pushed(front);
        match steps.last() {
            BufferStep::Rows(rows) => {
                assert(whole.rows =~= rows_of(batches, batches.len()) + left.rows);
                assert forall|k: nat| k <= batches.len() implies #[trigger] marks_behind(
                    whole,
                    batches,
                    k,
                ) by {
                    lemma_accounts_for_push(before, batches, held(front), k, whole);
                }
            },
            BufferStep::Completion(completion) => {
                assert(completions(whole.marks) =~= completions(before.marks).push(completion));
                assert(completions(left.marks) =~= completions(held(front).marks).push(completion));
                assert(completions(whole.marks) =~= completions_of(batches, batches.len())
                    + completions(left.marks));
                assert forall|k: nat| k <= batches.len() implies #[trigger] marks_behind(
                    whole,
                    batches,
                    k,
                ) by {
                    lemma_accounts_for_push(before, batches, held(front), k, whole);
                }
                let reached = completions_of(batches, batches.len()).len();
                assert(completions(before.marks).len() == reached + completions(
                    held(front).marks,
                ).len());
                assert forall|i: int| 0 <= i < left.marks.len() implies (
                #[trigger] left.marks[i]).0 + FLUSH_AT * batches.len() == whole.marks[reached
                    + i].0 by {
                    if i < held(front).marks.len() {
                        assert(held(front).marks[i].0 + FLUSH_AT * batches.len()
                            == before.marks[reached + i].0);
                    }
                }
            },
            BufferStep::Drain => {
                lemma_accounts_for_drain(before, taken(front), held(front));
            },
        }
    }
}

/// A buffer loses nothing and keeps the order, however pushing and draining
/// alternate: the batches that came out and those of a last drain hold the
/// rows pushed, in order, and the completions pushed, in order and each
/// once; no batch holds a completion before every row pushed ahead of it is
/// out; every batch but the last holds [`FLUSH_AT`] rows; and a further
/// drain finds nothing.
pub proof fn law_a_buffer_hands_everything_on(steps: Seq<BufferStep>)
    ensures
        rows_of(all_batches(steps), all_batches(steps).len()) == pushed(steps).rows,
        completions_of(all_batches(steps), all_batches(steps).len()) == completions(
            pushed(steps).marks,
        ),
        forall|k: nat|
            k <= all_batches(steps).len() ==> #[trigger] marks_behind(
                pushed(steps),
                all_batches(steps),
                k,
            ),
        forall|k: int|
            0 <= k < all_batches(steps).len() - 1 ==> (
            #[trigger] all_batches(steps)[k]).rows.len() == FLUSH_AT,
        (Stream { rows: Seq::empty(), marks: Seq::empty() }).batches() == Seq::<BatchView>::empty(),
{
    let whole = pushed(steps);
    let left = held(steps);
    let all = all_batches(steps);
    let drained = taken(steps) + left.ready();
    let rest = left.unready();
    lemma_steps(steps);
    lemma_accounts_for_drain(whole, taken(steps), left);
    lemma_unready(left);
    if rest.rows.len() == 0 && rest.marks.len() == 0 {
        assert(all =~= drained);
        assert(rows_of(all, all.len()) + rest.rows =~= rows_of(all, all.len()));
        assert(completions_of(all, all.len()) + completions(rest.marks) =~= completions_of(
            all,
            all.len(),
        ));
    } else {
        let last = rest.head(rest.rows.len());
        assert(all =~= drained.push(last));
        lemma_marks_within(rest, rest.rows.len());
        assert(rest.rows.take(rest.rows.len() as int) =~= rest.rows);
        assert(rest.marks_within(rest.rows.len()) == rest.marks.len()) by {
            if rest.marks_within(rest.rows.len()) < rest.marks.len() {
                assert(rest.marks[rest.marks_within(rest.rows.len()) as int].0 > rest.rows.len());
            }
        }
        assert(rest.marks.take(rest.marks.len() as int) =~= rest.marks);
        lemma_prefix_of_push(drained, last, drained.len());
        assert forall|k: nat| k <= all.len() implies #[trigger] marks_behind(whole, all, k) by {
            if k <= drained.len() {
                lemma_prefix_of_push(drained, last, k);
                assert(marks_behind(whole, drained, k));
                assert forall|i: int| 0 <= i < completions_of(all, k).len() implies (
                #[trigger] whole.marks[i]).0 <= rows_of(all, k).len() by {}
            } else {
                assert forall|i: int| 0 <= i < completions_of(all, k).len() implies (
                #[trigger] whole.marks[i]).0 <= rows_of(all, k).len() by {
                    assert(completions(whole.marks).len() == whole.marks.len());
                    assert(rows_of(all, k) =~= whole.rows);
                }
            }
        }
        assert forall|k: int| 0 <= k < all.len() - 1 implies (#[trigger] all[k]).rows.len()
            == FLUSH_AT by {
            assert(all[k] == drained[k]);
        }
    }
}

/// The writer-side buffer: rows accumulate until a batch is full; each
/// completion remembers how many preceding rows still need dispatch.
pub struct RowBuffer {
    rows: Vec<PendingRow>,
    marks: Vec<Mark>,
}

impl View for RowBuffer {
    type V = Stream;

    closed spec fn view(&self) -> Stream {
        Stream {
            rows: self.rows@,
            marks: Seq::new(
                self.marks@.len(),
                |i: int| (self.marks@[i].rows_before as nat, self.marks@[i].completion),
            ),
        }
    }
}

impl RowBuffer {
    pub fn new() -> (r: RowBuffer)
        ensures
            r@ == (Stream { rows: Seq::empty(), marks: Seq::empty() }),
            r@.wf(),
    {
        let buffer = RowBuffer { rows: Vec::new(), marks: Vec::new() };
        proof {
            assert(buffer@ =~= (Stream { rows: Seq::empty(), marks: Seq::empty() }));
        }
        buffer
    }

    /// Rows, after those already there.
    pub fn push_rows(&mut self, rows: Vec<PendingRow>)
        requires
            old(self)@.wf(),
        ensures
            final(self)@ == old(self)@.with_rows(rows@),
            final(self)@.wf(),
    {
        let ghost added = rows@;
        let mut rows = rows;
        self.rows.append(&mut rows);
        proof {
            assert(self@ =~= old(self)@.with_rows(added));
        }
    }

    /// A completion, behind every row already there.
    pub fn push_completion(&mut self, completion: SourceCompletion)
        requires
            old(self)@.wf(),
        ensures
            final(self)@ == old(self)@.with_completion(completion),
            final(self)@.wf(),
    {
        let rows_before: usize = self.rows.len();
        self.marks.push(Mark { rows_before, completion });
        proof {
            assert(self@ =~= old(self)@.with_completion(completion));
        }
    }

    fn reached(&self, row_count: usize) -> (r: usize)
        ensures
            r == self@.marks_within(row_count as nat),
            r <= self.marks@.len(),
    {
        let mut n: usize = self.marks.len();
        proof {
            assert(self@.marks.take(n as int) =~= self@.marks);
        }
        while n > 0 && self.marks[n - 1].rows_before > row_count
            invariant
                n <= self.marks@.len(),
                self@.marks.len() == self.marks@.len(),
                self@.marks_within(row_count as nat) == (Stream {
                    rows: self@.rows,
                    marks: self@.marks.take(n as int),
                }).marks_within(row_count as nat),
            decreases n,
        {
            proof {
                assert(self@.marks.take(n as int).drop_last() =~= self@.marks.take(n - 1));
                assert(self@.marks.take(n as int).last() == self@.marks[n - 1]);
            }
            n = n - 1;
        }
        proof {
            let taken = self@.marks.take(n as int);
            if n > 0 {
                assert(taken.last() == self@.marks[n - 1]);
            }
        }
        n
    }

    fn drain_batch(&mut self, row_count: usize) -> (r: Batch)
        requires
            old(self)@.wf(),
            row_count <= old(self)@.rows.len(),
        ensures
            r@ == old(self)@.head(row_count as nat),
            final(self)@ == old(self)@.rest(row_count as nat),
            final(self)@.wf(),
    {
        let ghost before = self@;
        proof {
            lemma_marks_within(before, row_count as nat);
            lemma_rest_wf(before, row_count as nat);
        }
        let reached: usize = self.reached(row_count);
        let mut rows = self.rows.split_off(row_count);
        std::mem::swap(&mut self.rows, &mut rows);
        let mut marks = self.marks.split_off(reached);
        std::mem::swap(&mut self.marks, &mut marks);
        let mut completed: Vec<SourceCompletion> = Vec::new();
        let ghost riding = marks@;
        for mark in it: marks
            invariant
                it.seq() == riding,
                completed@.len() == it.index(),
                forall|i: int|
                    0 <= i < it.index() ==> #[trigger] completed@[i] == riding[i].completion,
        {
            completed.push(mark.completion);
        }
        let mut left: Vec<Mark> = Vec::new();
        let mut held: Vec<Mark> = Vec::new();
        std::mem::swap(&mut self.marks, &mut held);
        let ghost kept = held@;
        proof {
            assert forall|i: int| 0 <= i < kept.len() implies (#[trigger] kept[i]).rows_before
                > row_count by {
                assert(before.marks[reached + i].0 == kept[i].rows_before);
            }
        }
        for mark in it: held
            invariant
                it.seq() == kept,
                forall|i: int| 0 <= i < kept.len() ==> (#[trigger] kept[i]).rows_before > row_count,
                left@.len() == it.index(),
                forall|i: int|
                    0 <= i < it.index() ==> (#[trigger] left@[i]).completion == kept[i].completion
                        && left@[i].rows_before == kept[i].rows_before - row_count,
        {
            left.push(
                Mark { rows_before: mark.rows_before - row_count, completion: mark.completion },
            );
        }
        self.marks = left;
        let batch = Batch { rows, completed };
        proof {
            assert(batch@ =~= before.head(row_count as nat));
            assert(self@ =~= before.rest(row_count as nat));
        }
        batch
    }

    /// Full batches ready to dispatch, in order. A completion rides the
    /// first batch that crosses its source's final-row boundary.
    pub fn drain_ready(&mut self) -> (r: Vec<Batch>)
        requires
            old(self)@.wf(),
        ensures
            batch_views(r@) == old(self)@.ready(),
            r@.len() == old(self)@.ready().len(),
            final(self)@ == old(self)@.unready(),
            final(self)@.wf(),
            final(self)@.rows.len() < FLUSH_AT,
    {
        let mut batches: Vec<Batch> = Vec::new();
        let ghost whole = self@;
        proof {
            assert(batch_views(batches@) + self@.ready() =~= whole.ready());
        }
        while self.rows.len() >= FLUSH_AT
            invariant
                self@.wf(),
                batch_views(batches@) + self@.ready() == whole.ready(),
                self@.unready() == whole.unready(),
            decreases self@.rows.len(),
        {
            let ghost drained = batches@;
            let ghost before = self@;
            let batch = self.drain_batch(FLUSH_AT);
            batches.push(batch);
            proof {
                assert(batch_views(batches@) =~= batch_views(drained).push(batch@));
                assert(batch_views(batches@) + self@.ready() =~= batch_views(drained)
                    + before.ready());
            }
        }
        proof {
            assert(self@.ready() =~= Seq::empty());
            assert(batch_views(batches@) =~= whole.ready());
        }
        batches
    }

    /// Everything left, completions on the final batch (a rows-less batch
    /// if that is all that remains).
    pub fn drain_all(&mut self) -> (r: Vec<Batch>)
        requires
            old(self)@.wf(),
        ensures
            batch_views(r@) == old(self)@.batches(),
            r@.len() == old(self)@.batches().len(),
            final(self)@ == (Stream { rows: Seq::empty(), marks: Seq::empty() }),
            final(self)@.wf(),
    {
        let mut batches = self.drain_ready();
        let ghost drained = batches@;
        let ghost left = self@;
        let count: usize = self.rows.len();
        if count > 0 || self.marks.len() > 0 {
            let batch = self.drain_batch(count);
            batches.push(batch);
            proof {
                assert(batch_views(batches@) =~= batch_views(drained).push(batch@));
            }
        }
        proof {
            lemma_marks_within(left, left.rows.len());
            if left.marks_within(left.rows.len()) < left.marks.len() {
                assert(left.marks[left.marks_within(left.rows.len()) as int].0 > left.rows.len());
            }
            assert(self@ =~= (Stream { rows: Seq::empty(), marks: Seq::empty() }));
        }
        batches
    }
}

// --- Which rows get a vector, and where it comes from ---

/// Which rows the embedder's vectors cover.
#[derive(Debug, Clone, Copy, PartialEq, Eq)]
pub enum VectorScope {
    All,
    Summaries,
}

impl VectorScope {
    /// Whether a row is covered.
    pub open spec fn covers_view(self, is_summary: bool) -> bool {
        match self {
            VectorScope::All => true,
            VectorScope::Summaries => is_summary,
        }
    }

    /// Whether a row is covered.
    pub fn covers(self, is_summary: bool) -> (r: bool)
        ensures
            r == self.covers_view(is_summary),
    {
        match self {
            VectorScope::All => true,
            VectorScope::Summaries => is_summary,
        }
    }
}

/// The places of a sequence at which `wanted` holds, in order.
pub open spec fn places(wanted: spec_fn(int) -> bool, n: nat) -> Seq<int>
    decreases n,
{
    if n == 0 {
        Seq::empty()
    } else if wanted(n - 1) {
        places(wanted, (n - 1) as nat).push(n - 1)
    } else {
        places(wanted, (n - 1) as nat)
    }
}

/// Places as numbers.
pub open spec fn place_views(v: Seq<usize>) -> Seq<int> {
    Seq::new(v.len(), |i: int| v[i] as int)
}

proof fn lemma_places(wanted: spec_fn(int) -> bool, n: nat)
    ensures
        places(wanted, n).len() <= n,
        forall|i: int|
            0 <= i < places(wanted, n).len() ==> 0 <= #[trigger] places(wanted, n)[i] < n && wanted(
                places(wanted, n)[i],
            ),
        forall|i: int, j: int|
            0 <= i < j < places(wanted, n).len() ==> #[trigger] places(wanted, n)[i]
                < #[trigger] places(wanted, n)[j],
        forall|p: int| 0 <= p < n && #[trigger] wanted(p) ==> places(wanted, n).contains(p),
    decreases n,
{
    if n > 0 {
        let before = places(wanted, (n - 1) as nat);
        let now = places(wanted, n);
        lemma_places(wanted, (n - 1) as nat);
        assert forall|p: int| 0 <= p < n && #[trigger] wanted(p) implies now.contains(p) by {
            if p < n - 1 {
                assert(before.contains(p));
                let i = before.index_of(p);
                assert(now[i] == p);
            } else {
                assert(now[now.len() - 1] == p);
            }
        }
    }
}

/// The rows that get a vector: those the scope covers, when the embedder
/// makes vectors at all.
pub open spec fn covered(rows: Seq<PendingRow>, embeds: bool, scope: VectorScope) -> Seq<int> {
    places(|i: int| embeds && scope.covers_view(rows[i].is_summary), rows.len())
}

/// The places of the rows that get a vector, in order; the rest land
/// text-only by design.
pub fn wanted_rows(rows: &Vec<PendingRow>, embeds: bool, scope: VectorScope) -> (r: Vec<usize>)
    ensures
        place_views(r@) == covered(rows@, embeds, scope),
{
    let mut out: Vec<usize> = Vec::new();
    let mut i: usize = 0;
    let ghost wanted = |i: int| embeds && scope.covers_view(rows@[i].is_summary);
    proof {
        assert(place_views(out@) =~= places(wanted, 0));
    }
    while i < rows.len()
        invariant
            i <= rows@.len(),
            wanted == (|i: int| embeds && scope.covers_view(rows@[i].is_summary)),
            place_views(out@) == places(wanted, i as nat),
        decreases rows@.len() - i,
    {
        let ghost before = out@;
        if embeds && scope.covers(rows[i].is_summary) {
            out.push(i);
            proof {
                assert(place_views(out@) =~= place_views(before).push(i as int));
            }
        }
        i = i + 1;
    }
    out
}

/// The places of `vectors` that hold nothing, in order.
pub open spec fn holes<V>(vectors: Seq<Option<V>>) -> Seq<int> {
    places(|i: int| vectors[i] is None, vectors.len())
}

/// How many of `vectors` are there.
pub open spec fn present<V>(vectors: Seq<Option<V>>) -> nat
    decreases vectors.len(),
{
    if vectors.len() == 0 {
        0
    } else if vectors.last() is Some {
        present(vectors.drop_last()) + 1
    } else {
        present(vectors.drop_last())
    }
}

/// The texts a cache could not answer: the places without a vector, in
/// order.
pub fn misses<V>(vectors: &Vec<Option<V>>) -> (r: Vec<usize>)
    ensures
        place_views(r@) == holes(vectors@),
{
    let mut out: Vec<usize> = Vec::new();
    let mut i: usize = 0;
    let ghost wanted = |i: int| vectors@[i] is None;
    proof {
        assert(place_views(out@) =~= places(wanted, 0));
    }
    while i < vectors.len()
        invariant
            i <= vectors@.len(),
            wanted == (|i: int| vectors@[i] is None),
            place_views(out@) == places(wanted, i as nat),
        decreases vectors@.len() - i,
    {
        let ghost before = out@;
        if vectors[i].is_none() {
            out.push(i);
            proof {
                assert(place_views(out@) =~= place_views(before).push(i as int));
            }
        }
        i = i + 1;
    }
    out
}

/// How many vectors are there.
pub fn count_present<V>(vectors: &Vec<Option<V>>) -> (r: usize)
    ensures
        r == present(vectors@),
        r <= vectors@.len(),
{
    let mut count: usize = 0;
    let mut i: usize = 0;
    proof {
        assert(vectors@.take(0) =~= Seq::empty());
    }
    while i < vectors.len()
        invariant
            i <= vectors@.len(),
            count <= i,
            count == present(vectors@.take(i as int)),
        decreases vectors@.len() - i,
    {
        proof {
            assert(vectors@.take(i as int + 1).drop_last() =~= vectors@.take(i as int));
            assert(vectors@.take(i as int + 1).last() == vectors@[i as int]);
        }
        if vectors[i].is_some() {
            count = count + 1;
        }
        i = i + 1;
    }
    proof {
        assert(vectors@.take(vectors@.len() as int) =~= vectors@);
    }
    count
}

/// `values` put at `at`, one for one, over `base`.
pub open spec fn placed<V>(base: Seq<Option<V>>, at: Seq<int>, values: Seq<Option<V>>) -> Seq<
    Option<V>,
> {
    Seq::new(
        base.len(),
        |p: int|
            if at.contains(p) {
                values[at.index_of(p)]
            } else {
                base[p]
            },
    )
}

/// Distinct places inside a sequence of `n`.
pub open spec fn are_places(at: Seq<int>, n: nat) -> bool {
    &&& forall|i: int| 0 <= i < at.len() ==> 0 <= #[trigger] at[i] < n
    &&& forall|i: int, j: int| 0 <= i < j < at.len() ==> #[trigger] at[i] < #[trigger] at[j]
}

proof fn lemma_index_of_place(at: Seq<int>, n: nat, i: int)
    requires
        are_places(at, n),
        0 <= i < at.len(),
    ensures
        at.contains(at[i]),
        at.index_of(at[i]) == i,
{
    let found = at.index_of(at[i]);
    assert(at.contains(at[i]));
    assert(at[found] == at[i]);
    if found < i {
        assert(at[found] < at[i]);
    } else if i < found {
        assert(at[i] < at[found]);
    }
}

/// Put the values an embedder answered with at the places they were asked
/// for, in order.
pub fn place<V>(vectors: &mut Vec<Option<V>>, at: &Vec<usize>, values: Vec<Option<V>>)
    requires
        are_places(place_views(at@), old(vectors)@.len()),
        values@.len() == at@.len(),
    ensures
        final(vectors)@ == placed(old(vectors)@, place_views(at@), values@),
{
    let ghost base = vectors@;
    let ghost all = values@;
    let ghost spots = place_views(at@);
    let count: usize = at.len();
    let mut k: usize = 0;
    proof {
        assert(vectors@ =~= placed(base, spots.take(0), all.take(0)));
    }
    for value in it: values
        invariant
            it.seq() == all,
            k == it.index(),
            all.len() == at@.len(),
            count == at@.len(),
            spots == place_views(at@),
            vectors@.len() == base.len(),
            are_places(spots, base.len()),
            forall|p: int|
                0 <= p < base.len() ==> #[trigger] vectors@[p] == (if spots.take(k as int).contains(
                    p,
                ) {
                    all[spots.take(k as int).index_of(p)]
                } else {
                    base[p]
                }),
    {
        let spot: usize = at[k];
        proof {
            assert(spots[k as int] == spot);
        }
        let ghost before = vectors@;
        vectors.set(spot, value);
        proof {
            let now = spots.take(k as int + 1);
            let then_ = spots.take(k as int);
            assert(are_places(now, base.len()));
            assert(are_places(then_, base.len()));
            assert forall|p: int| 0 <= p < base.len() implies #[trigger] vectors@[p] == (
            if now.contains(p) {
                all[now.index_of(p)]
            } else {
                base[p]
            }) by {
                if p == spot {
                    assert(now[k as int] == p);
                    lemma_index_of_place(now, base.len(), k as int);
                } else {
                    assert(vectors@[p] == before[p]);
                    if then_.contains(p) {
                        let i = then_.index_of(p);
                        assert(now[i] == p);
                        lemma_index_of_place(now, base.len(), i);
                        lemma_index_of_place(then_, base.len(), i);
                    } else {
                        if now.contains(p) {
                            let i = now.index_of(p);
                            assert(now[i] == p);
                            assert(i < k);
                            assert(then_[i] == p);
                        }
                    }
                }
            }
        }
        k = k + 1;
    }
    proof {
        assert(spots.take(spots.len() as int) =~= spots);
        assert(vectors@ =~= placed(base, spots, all));
    }
}

/// Where the vectors of one batch came from.
#[derive(Debug, Clone, Copy, PartialEq, Eq)]
pub struct EmbedTotals {
    pub embedded: usize,
    pub reused: usize,
}

impl EmbedTotals {
    /// What one batch adds: the vectors the cache held are reused, every
    /// other vector was computed.
    pub fn of_batch(with_vector: usize, reused: usize) -> (r: EmbedTotals)
        requires
            reused <= with_vector,
        ensures
            r.reused == reused,
            r.embedded + r.reused == with_vector,
    {
        EmbedTotals { embedded: with_vector - reused, reused }
    }

    /// The totals with one more batch's.
    pub fn plus(self, other: EmbedTotals) -> (r: EmbedTotals)
        requires
            self.embedded + other.embedded <= usize::MAX,
            self.reused + other.reused <= usize::MAX,
        ensures
            r.embedded == self.embedded + other.embedded,
            r.reused == self.reused + other.reused,
    {
        EmbedTotals {
            embedded: self.embedded + other.embedded,
            reused: self.reused + other.reused,
        }
    }
}

/// Every text is answered by the cache or asked of the embedder: the places
/// without a vector and those with one make up the whole.
pub proof fn law_every_text_is_cached_or_asked_for<V>(vectors: Seq<Option<V>>)
    ensures
        present(vectors) + holes(vectors).len() == vectors.len(),
        are_places(holes(vectors), vectors.len()),
        forall|i: int|
            0 <= i < vectors.len() ==> (holes(vectors).contains(i) <==> (
            #[trigger] vectors[i]) is None),
    decreases vectors.len(),
{
    let wanted = |i: int| vectors[i] is None;
    lemma_places(wanted, vectors.len());
    assert forall|i: int| 0 <= i < vectors.len() implies (holes(vectors).contains(i) <==> (
    #[trigger] vectors[i]) is None) by {
        assert(wanted(i) == (vectors[i] is None));
        if holes(vectors).contains(i) {
            let k = holes(vectors).index_of(i);
            assert(holes(vectors)[k] == i);
        }
    }
    if vectors.len() > 0 {
        let front = vectors.drop_last();
        law_every_text_is_cached_or_asked_for(front);
        lemma_places_agree(wanted, |i: int| front[i] is None, front.len());
    }
}

proof fn lemma_places_agree(a: spec_fn(int) -> bool, b: spec_fn(int) -> bool, n: nat)
    requires
        forall|i: int| 0 <= i < n ==> #[trigger] a(i) == b(i),
    ensures
        places(a, n) == places(b, n),
    decreases n,
{
    if n > 0 {
        lemma_places_agree(a, b, (n - 1) as nat);
        assert(a(n - 1) == b(n - 1));
    }
}

// --- One batch ---

/// The vectors of some texts, in order, and how many the cache held.
#[derive(Debug, PartialEq, Eq)]
pub struct Vectored<V> {
    pub vectors: Vec<Option<V>>,
    pub reused: usize,
}

/// Values, each there.
pub open spec fn all_there<V>(values: Seq<V>) -> Seq<Option<V>> {
    Seq::new(values.len(), |i: int| Some(values[i]))
}

/// What the cache and the embedder come to: an embedder that failed leaves
/// the misses without a vector.
pub open spec fn vectored_view<V>(cached: Seq<Option<V>>, answered: Option<Vec<V>>) -> Seq<
    Option<V>,
> {
    match answered {
        Some(values) => placed(cached, holes(cached), all_there(values@)),
        None => cached,
    }
}

/// The vectors of some texts: what the cache held, and the embedder's answers
/// for the rest, one for each text it was asked for. An embedder that failed
/// leaves those rows searchable by text only.
pub fn vectored<V>(cached: Vec<Option<V>>, answered: Option<Vec<V>>) -> (r: Vectored<V>)
    requires
        answered matches Some(values) ==> values@.len() == holes(cached@).len(),
    ensures
        r.vectors@ == vectored_view(cached@, answered),
        r.reused == present(cached@),
        r.reused <= present(r.vectors@),
        answered is Some ==> present(r.vectors@) == cached@.len(),
{
    let reused: usize = count_present(&cached);
    let asked = misses(&cached);
    let ghost held = cached@;
    proof {
        law_every_text_is_cached_or_asked_for(held);
    }
    let mut vectors = cached;
    if let Some(values) = answered {
        let ghost all = values@;
        let mut there: Vec<Option<V>> = Vec::new();
        for value in it: values
            invariant
                it.seq() == all,
                there@.len() == it.index(),
                forall|j: int| 0 <= j < there@.len() ==> #[trigger] there@[j] == Some(all[j]),
        {
            there.push(Some(value));
        }
        proof {
            assert(there@ =~= all_there(all));
        }
        place(&mut vectors, &asked, there);
        proof {
            assert forall|i: int| 0 <= i < vectors@.len() implies (#[trigger] vectors@[i]) is Some by {
                if holes(held).contains(i) {
                    let k = holes(held).index_of(i);
                    assert(holes(held)[k] == i);
                } else {
                    assert(held[i] is Some);
                }
            }
            lemma_all_present(vectors@);
        }
    }
    Vectored { vectors, reused }
}

proof fn lemma_all_present<V>(vectors: Seq<Option<V>>)
    requires
        forall|i: int| 0 <= i < vectors.len() ==> (#[trigger] vectors[i]) is Some,
    ensures
        present(vectors) == vectors.len(),
    decreases vectors.len(),
{
    if vectors.len() > 0 {
        let front = vectors.drop_last();
        assert forall|i: int| 0 <= i < front.len() implies (#[trigger] front[i]) is Some by {
            assert(front[i] == vectors[i]);
        }
        lemma_all_present(front);
        assert(vectors[vectors.len() - 1] is Some);
    }
}

/// A row as the store lands it.
#[derive(Debug, PartialEq, Eq)]
pub struct SearchRow<V> {
    pub fragment: i64,
    pub source: Option<i64>,
    pub text: String,
    pub vector: Option<V>,
}

/// A row with its vector.
pub open spec fn landed<V>(row: PendingRow, vector: Option<V>) -> SearchRow<V> {
    SearchRow { fragment: row.fragment, source: row.source, text: row.text, vector }
}

/// A batch ready to land: its rows, the completions that ride with it, and
/// where its vectors came from.
#[derive(Debug, PartialEq, Eq)]
pub struct EmbeddedBatch<V> {
    pub rows: Vec<SearchRow<V>>,
    pub completed: Vec<SourceCompletion>,
    pub totals: EmbedTotals,
}

/// The vectors of a batch of `n` rows, when those at `wanted` got `found`.
pub open spec fn row_vectors<V>(n: nat, wanted: Seq<int>, found: Seq<Option<V>>) -> Seq<Option<V>> {
    placed(Seq::new(n, |i: int| None), wanted, found)
}

/// Land a batch: every row with the vector found for it, those the scope
/// leaves out without one, and the completions as they came.
pub fn embedded_batch<V>(batch: Batch, wanted: &Vec<usize>, found: Vectored<V>) -> (r:
    EmbeddedBatch<V>)
    requires
        are_places(place_views(wanted@), batch.rows@.len()),
        found.vectors@.len() == wanted@.len(),
        found.reused <= present(found.vectors@),
    ensures
        r.rows@.len() == batch.rows@.len(),
        forall|i: int|
            0 <= i < r.rows@.len() ==> #[trigger] r.rows@[i] == landed(
                batch.rows@[i],
                row_vectors(batch.rows@.len(), place_views(wanted@), found.vectors@)[i],
            ),
        r.completed == batch.completed,
        r.totals.reused == found.reused,
        r.totals.embedded + r.totals.reused == present(found.vectors@),
{
    let totals = EmbedTotals::of_batch(count_present(&found.vectors), found.reused);
    let count: usize = batch.rows.len();
    let mut vectors: Vec<Option<V>> = Vec::new();
    let mut i: usize = 0;
    while i < count
        invariant
            i <= count,
            vectors@.len() == i,
            forall|j: int| 0 <= j < i ==> (#[trigger] vectors@[j]) is None,
        decreases count - i,
    {
        vectors.push(None);
        i = i + 1;
    }
    proof {
        assert(vectors@ =~= Seq::new(count as nat, |i: int| None));
    }
    let ghost values = found.vectors@;
    place(&mut vectors, wanted, found.vectors);
    let ghost all = vectors@;
    let ghost pending = batch.rows@;
    let mut rows: Vec<SearchRow<V>> = Vec::new();
    let mut at: usize = 0;
    for row in it: batch.rows
        invariant
            it.seq() == pending,
            at == it.index(),
            at <= count,
            count == pending.len(),
            all.len() == pending.len(),
            vectors@.len() == all.len(),
            rows@.len() == at,
            forall|j: int| at <= j < all.len() ==> #[trigger] vectors@[j] == all[j],
            forall|j: int| 0 <= j < at ==> #[trigger] rows@[j] == landed(pending[j], all[j]),
    {
        let mut vector: Option<V> = None;
        std::mem::swap(&mut vectors[at], &mut vector);
        rows.push(
            SearchRow { fragment: row.fragment, source: row.source, text: row.text, vector },
        );
        at = at + 1;
    }
    EmbeddedBatch { rows, completed: batch.completed, totals }
}


/// A batch's rows get the vectors that are theirs: of the rows that take
/// part, in order, the `k`th gets the `k`th vector found; a row that takes no
/// part gets none. The rows that take part are those the scope covers, and
/// none when nothing embeds.
pub proof fn law_every_row_gets_its_own_vector<V>(
    rows: Seq<PendingRow>,
    embeds: bool,
    scope: VectorScope,
    found: Seq<Option<V>>,
)
    requires
        found.len() == covered(rows, embeds, scope).len(),
    ensures
        ({
            let at = covered(rows, embeds, scope);
            let vectors = row_vectors(rows.len(), at, found);
            &&& vectors.len() == rows.len()
            &&& forall|k: int| 0 <= k < at.len() ==> vectors[#[trigger] at[k]] == found[k]
            &&& are_places(at, rows.len())
            &&& forall|i: int|
                0 <= i < rows.len() ==> (at.contains(i) <==> embeds && (scope is All || (
                #[trigger] rows[i]).is_summary))
            &&& forall|i: int|
                0 <= i < rows.len() && !(embeds && (scope is All || (
                #[trigger] rows[i]).is_summary)) ==> vectors[i] is None
        }),
{
    let wanted = |i: int| embeds && scope.covers_view(rows[i].is_summary);
    let at = covered(rows, embeds, scope);
    lemma_places(wanted, rows.len());
    assert forall|i: int| 0 <= i < rows.len() implies (at.contains(i) <==> embeds && (scope is All
        || (#[trigger] rows[i]).is_summary)) by {
        assert(wanted(i) == (embeds && (scope is All || rows[i].is_summary)));
        if at.contains(i) {
            let k = at.index_of(i);
            assert(at[k] == i);
        }
    }
    assert forall|k: int| 0 <= k < at.len() implies row_vectors(rows.len(), at, found)[
    #[trigger] at[k]] == found[k] by {
        lemma_index_of_place(at, rows.len(), k);
    }
}

/// What the cache held stays as it was; an answer fills the places the cache
/// left open, in order, and where none came they stay open.
pub proof fn law_answers_fill_what_the_cache_left_open<V>(
    cached: Seq<Option<V>>,
    answered: Option<Vec<V>>,
)
    requires
        answered matches Some(values) ==> values@.len() == holes(cached).len(),
    ensures
        ({
            let vectors = vectored_view(cached, answered);
            &&& vectors.len() == cached.len()
            &&& forall|i: int|
                0 <= i < cached.len() && (#[trigger] cached[i]) is Some ==> vectors[i] == cached[i]
            &&& answered is None ==> vectors == cached
            &&& answered matches Some(values) ==> forall|k: int|
                0 <= k < values@.len() ==> vectors[#[trigger] holes(cached)[k]] == Some(values@[k])
        }),
{
    law_every_text_is_cached_or_asked_for(cached);
    if let Some(values) = answered {
        assert forall|k: int| 0 <= k < values@.len() implies vectored_view(cached, answered)[
        #[trigger] holes(cached)[k]] == Some(values@[k]) by {
            lemma_index_of_place(holes(cached), cached.len(), k);
        }
    }
}

/// The places picked out of a list are all those where what is asked for
/// holds, each once, in order.
pub proof fn law_every_place_is_found(wanted: spec_fn(int) -> bool, n: nat)
    ensures
        are_places(places(wanted, n), n),
        forall|p: int| #[trigger] places(wanted, n).contains(p) <==> 0 <= p < n && wanted(p),
{
    lemma_places(wanted, n);
    assert forall|p: int| #[trigger] places(wanted, n).contains(p) <==> 0 <= p < n && wanted(p) by {
        if places(wanted, n).contains(p) {
            let i = places(wanted, n).index_of(p);
            assert(places(wanted, n)[i] == p);
        }
    }
}
} // verus!
