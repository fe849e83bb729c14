//! Fallback chunker for structureless text: paragraph-boundary chunks merged
//! toward a target size.

use vstd::prelude::*;
use crate::sweep::plan::{NewFragment, Sprout};
use crate::sweep::source::{Extent, Mimetype};
use crate::text;

verus! {

/// Aim for chunks around this many characters; break at paragraph boundaries
/// once past it, and hard-break anywhere past twice it.
pub const TARGET_CHARS: usize = 1_600;

#[derive(Debug, Clone, Copy, PartialEq, Eq)]
pub struct ChunkerConfig {
    /// Aim for chunks around this many characters.
    pub target_chars: usize,
}

impl Default for ChunkerConfig {
    fn default() -> (r: ChunkerConfig)
        ensures
            r.target_chars == TARGET_CHARS,
    {
        ChunkerConfig { target_chars: TARGET_CHARS }
    }
}

#[derive(Debug, PartialEq, Eq)]
pub struct ChunkerPlugin {
    pub config: ChunkerConfig,
}

impl ChunkerPlugin {
    /// What changes the chunks: the chunker's own version, and its target.
    pub fn shape_fingerprint(&self) -> (r: String)
        ensures
            r@ == "chunker-v1|target="@ + text::decimal(self.config.target_chars as nat),
    {
        let mut out = "chunker-v1|target=".to_owned();
        out.append(text::number(self.config.target_chars as u64).as_str());
        out
    }
}

#[derive(Debug, PartialEq, Eq)]
pub struct ChunkerFactory;

impl ChunkerFactory {
    /// The entry kind a composition names the plugin by.
    pub fn name(&self) -> (r: &'static str)
        ensures
            r@ == "transform-chunker"@,
    {
        "transform-chunker"
    }
}

/// Whether the chunker takes a fragment: every root of indexable text that
/// the markdown transform leaves.
pub fn claims(mimetype: &Mimetype, is_root: bool, taken_by_markdown: bool, indexable_text: bool) -> (r:
    bool)
    ensures
        r == (is_root && !mimetype.inseam_defined && !taken_by_markdown && indexable_text),
{
    is_root && !mimetype.inseam_defined && !taken_by_markdown && indexable_text
}

// --- Where the chunks lie ---

/// Whether a line is blank.
pub open spec fn is_blank(line: Seq<char>) -> bool {
    text::trimmed(line).len() == 0
}

/// The last line of a chunk, trailing blank lines left out.
pub open spec fn last_line(lines: Seq<Seq<char>>, start: int, end: int) -> int
    decreases end - start,
{
    if end > start && is_blank(lines[end]) {
        last_line(lines, start, end - 1)
    } else {
        end
    }
}

/// The text of a run of lines, both ends inside.
pub open spec fn body_of(lines: Seq<Seq<char>>, start: int, end: int) -> Seq<char> {
    text::joined(lines.subrange(start, end + 1), "\n"@)
}

/// The chunks once a run of lines is closed: one more, unless it is blank.
pub open spec fn closed(
    spans: Seq<(int, int)>,
    lines: Seq<Seq<char>>,
    start: int,
    end: int,
) -> Seq<(int, int)> {
    let last = last_line(lines, start, end);
    if is_blank(body_of(lines, start, last)) {
        spans
    } else {
        spans.push((start, last))
    }
}

/// A pass over the lines: the chunks closed so far, the first line of the
/// open one, and how many characters it holds, each line with its break.
#[verifier::ext_equal]
pub struct Pass {
    pub spans: Seq<(int, int)>,
    pub start: Option<int>,
    pub size: nat,
}

impl Pass {
    /// The pass after line `i`. A chunk opens at the first line that is not
    /// blank, and closes at a blank line once it has reached the target, or
    /// anywhere once it has reached twice that.
    pub open spec fn after(self, lines: Seq<Seq<char>>, i: int, target: nat) -> Pass {
        if self.start is None && is_blank(lines[i]) {
            self
        } else {
            let start = match self.start {
                Some(start) => start,
                None => i,
            };
            let size = self.size + lines[i].len() + 1;
            if (is_blank(lines[i]) && size >= target) || size >= target * 2 {
                Pass { spans: closed(self.spans, lines, start, i), start: None, size: 0 }
            } else {
                Pass { spans: self.spans, start: Some(start), size }
            }
        }
    }
}

/// The pass over the first `n` lines.
pub open spec fn pass_over(lines: Seq<Seq<char>>, target: nat, n: nat) -> Pass
    decreases n,
{
    if n == 0 {
        Pass { spans: Seq::empty(), start: None, size: 0 }
    } else {
        pass_over(lines, target, (n - 1) as nat).after(lines, n - 1, target)
    }
}

/// The chunks of a list of lines, each by its first and last line counted
/// from zero.
pub open spec fn chunk_spans(lines: Seq<Seq<char>>, target: nat) -> Seq<(int, int)> {
    let pass = pass_over(lines, target, lines.len());
    match pass.start {
        Some(start) => closed(pass.spans, lines, start, lines.len() - 1),
        None => pass.spans,
    }
}

/// Whether a sprout is the chunk of a span: its lines, in the parent's
/// mimetype, where they stand.
pub open spec fn is_chunk(
    sprout: Sprout,
    mimetype: Mimetype,
    lines: Seq<Seq<char>>,
    span: (int, int),
) -> bool {
    &&& sprout.fragment.mimetype == mimetype
    &&& sprout.fragment.text is Some
    &&& sprout.fragment.text->0@ == body_of(lines, span.0, span.1)
    &&& sprout.fragment.extent == Some(
        Extent::Lines { start: (span.0 + 1) as u64, end: (span.1 + 1) as u64 },
    )
    &&& sprout.fragment.content_address is None
    &&& sprout.relation@ == "contains"@
    &&& sprout.children@.len() == 0
}

/// Whether sprouts are the chunks of spans.
pub open spec fn are_chunks(
    sprouts: Seq<Sprout>,
    mimetype: Mimetype,
    lines: Seq<Seq<char>>,
    spans: Seq<(int, int)>,
) -> bool {
    &&& sprouts.len() == spans.len()
    &&& forall|k: int|
        0 <= k < spans.len() ==> is_chunk(#[trigger] sprouts[k], mimetype, lines, spans[k])
}

fn line_is_blank(line: &String) -> (r: bool)
    ensures
        r == is_blank(line@),
{
    text::trim(line.as_str()).as_str().unicode_len() == 0
}

fn push_chunk(
    out: &mut Vec<Sprout>,
    mimetype: &Mimetype,
    lines: &Vec<String>,
    start: usize,
    end: usize,
    spans: Ghost<Seq<(int, int)>>,
)
    requires
        start <= end < lines@.len(),
        are_chunks(old(out)@, *mimetype, text::views(lines@), spans@),
    ensures
        are_chunks(
            final(out)@,
            *mimetype,
            text::views(lines@),
            closed(spans@, text::views(lines@), start as int, end as int),
        ),
{
    let ghost all = text::views(lines@);
    let count: usize = lines.len();
    let mut last: usize = end;
    while last > start && line_is_blank(&lines[last])
        invariant
            start <= last <= end < lines@.len(),
            all == text::views(lines@),
            last_line(all, start as int, end as int) == last_line(
                all,
                start as int,
                last as int,
            ),
        decreases last,
    {
        last = last - 1;
    }
    let mut held: Vec<String> = Vec::new();
    let mut i: usize = start;
    while i <= last
        invariant
            start <= i <= last + 1,
            last < count,
            count == lines@.len(),
            held@.len() == i - start,
            forall|j: int| 0 <= j < held@.len() ==> (#[trigger] held@[j])@ == lines@[start + j]@,
        decreases last + 1 - i,
    {
        held.push(lines[i].clone());
        i = i + 1;
    }
    let body = text::join(&held, "\n");
    proof {
        assert(text::views(held@) =~= all.subrange(start as int, last + 1));
        assert(last_line(all, start as int, last as int) == last);
    }
    if text::trim(body.as_str()).as_str().unicode_len() == 0 {
        return;
    }
    let ghost before = out@;
    out.push(
        Sprout {
            fragment: NewFragment {
                mimetype: mimetype.copy(),
                text: Some(body),
                extent: Some(Extent::Lines { start: start as u64 + 1, end: last as u64 + 1 }),
                content_address: None,
            },
            relation: "contains".to_owned(),
            children: Vec::new(),
        },
    );
    proof {
        let now = closed(spans@, all, start as int, end as int);
        assert(now == spans@.push((start as int, last as int)));
        assert forall|k: int| 0 <= k < now.len() implies is_chunk(
            #[trigger] out@[k],
            *mimetype,
            all,
            now[k],
        ) by {
            if k < spans@.len() {
                assert(out@[k] == before[k]);
                assert(now[k] == spans@[k]);
            }
        }
    }
}

/// The chunks of a text at the standard target.
pub fn chunk(mimetype: &Mimetype, text: &str) -> (r: Vec<Sprout>)
    ensures
        are_chunks(
            r@,
            *mimetype,
            text::lines_of(text@),
            chunk_spans(text::lines_of(text@), TARGET_CHARS as nat),
        ),
{
    chunk_with_target(mimetype, text, TARGET_CHARS)
}

/// The chunks of a text: paragraphs merged toward a target size.
pub fn chunk_with_target(mimetype: &Mimetype, text: &str, target: usize) -> (r: Vec<Sprout>)
    ensures
        are_chunks(
            r@,
            *mimetype,
            text::lines_of(text@),
            chunk_spans(text::lines_of(text@), target as nat),
        ),
{
    let lines = text::lines(text);
    let ghost all = text::views(lines@);
    let mut sprouts: Vec<Sprout> = Vec::new();
    let mut start: Option<usize> = None;
    let mut size: u128 = 0;
    let mut i: usize = 0;
    let count: usize = lines.len();
    let ghost mut pass = pass_over(all, target as nat, 0);
    while i < lines.len()
        invariant
            i <= lines@.len(),
            count == lines@.len(),
            all == text::views(lines@),
            pass == pass_over(all, target as nat, i as nat),
            are_chunks(sprouts@, *mimetype, all, pass.spans),
            start is Some <==> pass.start is Some,
            start is Some ==> start->0 == pass.start->0 && start->0 < i,
            size == pass.size,
            size < 2 * target || size == 0,
        decreases lines@.len() - i,
    {
        let ghost before = pass;
        proof {
            pass = pass_over(all, target as nat, (i + 1) as nat);
            assert(all[i as int] == lines@[i as int]@);
        }
        let blank = line_is_blank(&lines[i]);
        if start.is_none() && blank {
            i = i + 1;
            continue;
        }
        let first: usize = match start {
            Some(first) => first,
            None => i,
        };
        let held: usize = lines[i].as_str().unicode_len();
        size = size + held as u128 + 1;
        let over_target_at_boundary = blank && size >= target as u128;
        let hard_over = size >= target as u128 * 2;
        if over_target_at_boundary || hard_over {
            push_chunk(&mut sprouts, mimetype, &lines, first, i, Ghost(before.spans));
            start = None;
            size = 0;
        } else {
            start = Some(first);
        }
        i = i + 1;
    }
    if let Some(first) = start {
        push_chunk(&mut sprouts, mimetype, &lines, first, count - 1, Ghost(pass.spans));
    }
    sprouts
}

// --- What chunking promises ---

proof fn lemma_last_line(lines: Seq<Seq<char>>, start: int, end: int)
    requires
        0 <= start <= end < lines.len(),
    ensures
        start <= last_line(lines, start, end) <= end,
        forall|i: int|
            last_line(lines, start, end) < i <= end ==> is_blank(#[trigger] lines[i]),
    decreases end - start,
{
    if end > start && is_blank(lines[end]) {
        lemma_last_line(lines, start, end - 1);
    }
}

/// A run of lines with one that is not blank is not blank.
proof fn lemma_body_not_blank(lines: Seq<Seq<char>>, start: int, end: int, at: int)
    requires
        0 <= start <= at <= end < lines.len(),
        !is_blank(lines[at]),
    ensures
        !is_blank(body_of(lines, start, end)),
{
    text::lemma_not_blank(lines[at]);
    let i = choose|i: int| 0 <= i < lines[at].len() && !text::whitespace(#[trigger] lines[at][i]);
    let run = lines.subrange(start, end + 1);
    assert(run[at - start] == lines[at]);
    lemma_joined_holds(run, "\n"@, at - start, i);
    let body = body_of(lines, start, end);
    let k = choose|k: int| 0 <= k < body.len() && #[trigger] body[k] == lines[at][i];
    text::lemma_trimmed_keeps_the_rest(body, k);
}

/// Joined pieces hold every character of each piece.
proof fn lemma_joined_holds(parts: Seq<Seq<char>>, sep: Seq<char>, at: int, i: int)
    requires
        0 <= at < parts.len(),
        0 <= i < parts[at].len(),
    ensures
        exists|k: int|
            0 <= k < text::joined(parts, sep).len() && #[trigger] text::joined(parts, sep)[k]
                == parts[at][i],
    decreases parts.len(),
{
    let whole = text::joined(parts, sep);
    if parts.len() == 1 {
        assert(whole[i] == parts[at][i]);
    } else {
        let front = text::joined(parts.drop_last(), sep);
        if at == parts.len() - 1 {
            assert(whole[front.len() + sep.len() + i] == parts[at][i]);
        } else {
            assert(parts.drop_last()[at] == parts[at]);
            lemma_joined_holds(parts.drop_last(), sep, at, i);
            let k = choose|k: int| 0 <= k < front.len() && #[trigger] front[k] == parts[at][i];
            assert(whole[k] == front[k]);
        }
    }
}

/// Whether spans lie in order inside the first `n` lines without overlap.
pub open spec fn in_order(spans: Seq<(int, int)>, n: int) -> bool {
    &&& forall|k: int|
        0 <= k < spans.len() ==> 0 <= (#[trigger] spans[k]).0 <= spans[k].1 < n
    &&& forall|k: int, l: int|
        0 <= k < l < spans.len() ==> (#[trigger] spans[k]).1 < (#[trigger] spans[l]).0
}

/// Whether a line lies in a span.
pub open spec fn covered(spans: Seq<(int, int)>, line: int) -> bool {
    exists|k: int| 0 <= k < spans.len() && (#[trigger] spans[k]).0 <= line <= spans[k].1
}

/// What a pass keeps: its chunks lie in order before the open one, and every
/// line that is not blank lies in a chunk or in the open one.
spec fn pass_wf(pass: Pass, lines: Seq<Seq<char>>, n: int) -> bool {
    &&& in_order(
        pass.spans,
        match pass.start {
            Some(start) => start,
            None => n,
        },
    )
    &&& pass.start matches Some(start) ==> 0 <= start < n && !is_blank(lines[start])
    &&& forall|i: int|
        0 <= i < n && !is_blank(#[trigger] lines[i]) && (pass.start matches Some(start) ==> i
            < start) ==> covered(pass.spans, i)
}

proof fn lemma_closed(spans: Seq<(int, int)>, lines: Seq<Seq<char>>, start: int, end: int)
    requires
        0 <= start <= end < lines.len(),
        !is_blank(lines[start]),
        in_order(spans, start),
        forall|i: int| 0 <= i < start && !is_blank(#[trigger] lines[i]) ==> covered(spans, i),
    ensures
        in_order(closed(spans, lines, start, end), end + 1),
        forall|i: int|
            0 <= i <= end && !is_blank(#[trigger] lines[i]) ==> covered(
                closed(spans, lines, start, end),
                i,
            ),
{
    lemma_last_line(lines, start, end);
    let last = last_line(lines, start, end);
    lemma_body_not_blank(lines, start, last, start);
    let now = closed(spans, lines, start, end);
    assert(now == spans.push((start, last)));
    assert forall|k: int, l: int| 0 <= k < l < now.len() implies (#[trigger] now[k]).1 < (
    #[trigger] now[l]).0 by {
        assert(now[k] == spans[k]);
        if l < spans.len() {
            assert(now[l] == spans[l]);
        }
    }
    assert forall|i: int| 0 <= i <= end && !is_blank(#[trigger] lines[i]) implies covered(now, i) by {
        if i < start {
            let k = choose|k: int| 0 <= k < spans.len() && (#[trigger] spans[k]).0 <= i <= spans[k].1;
            assert(now[k] == spans[k]);
        } else {
            assert(now[spans.len() as int] == (start, last));
        }
    }
}

proof fn lemma_pass(lines: Seq<Seq<char>>, target: nat, n: nat)
    requires
        n <= lines.len(),
    ensures
        pass_wf(pass_over(lines, target, n), lines, n as int),
    decreases n,
{
    if n > 0 {
        lemma_pass(lines, target, (n - 1) as nat);
        let before = pass_over(lines, target, (n - 1) as nat);
        let after = pass_over(lines, target, n);
        if !(before.start is None && is_blank(lines[n - 1])) {
            let start = match before.start {
                Some(start) => start,
                None => n - 1,
            };
            if after.start is None {
                lemma_closed(before.spans, lines, start, n - 1);
            }
        }
    }
}

/// Chunks are ordered and do not overlap, every line that is not blank lies in
/// one of them, and blank text has none.
pub proof fn law_chunks_cover_the_text_in_order(lines: Seq<Seq<char>>, target: nat)
    ensures
        in_order(chunk_spans(lines, target), lines.len() as int),
        forall|i: int|
            0 <= i < lines.len() && !is_blank(#[trigger] lines[i]) ==> covered(
                chunk_spans(lines, target),
                i,
            ),
        (forall|i: int| 0 <= i < lines.len() ==> is_blank(#[trigger] lines[i])) ==> chunk_spans(
            lines,
            target,
        ).len() == 0,
{
    lemma_pass(lines, target, lines.len());
    let pass = pass_over(lines, target, lines.len());
    if let Some(start) = pass.start {
        lemma_closed(pass.spans, lines, start, lines.len() - 1);
    }
    if forall|i: int| 0 <= i < lines.len() ==> is_blank(#[trigger] lines[i]) {
        lemma_blank_pass(lines, target, lines.len());
    }
}

/// How many characters the lines from `from` to `to` hold, both inside, each
/// with its break.
pub open spec fn size_of(lines: Seq<Seq<char>>, from: int, to: int) -> nat
    decreases to - from + 1,
{
    if to < from {
        0
    } else {
        size_of(lines, from, to - 1) + lines[to].len() + 1
    }
}

/// Whether a chunk that starts at `start` must end with line `at`: by then it
/// holds the target and the line is blank, or it holds twice the target.
pub open spec fn must_end(lines: Seq<Seq<char>>, target: nat, start: int, at: int) -> bool {
    ||| text::trimmed(lines[at]).len() == 0 && size_of(lines, start, at) >= target
    ||| size_of(lines, start, at) >= 2 * target
}

/// Whether a chunk closed with line `at`: it had to, at no line before it had
/// to, and of the lines it was closed with only the blank ones at its end are
/// left out.
pub open spec fn ends_with(
    lines: Seq<Seq<char>>,
    target: nat,
    span: (int, int),
    at: int,
) -> bool {
    &&& span.1 <= at < lines.len()
    &&& must_end(lines, target, span.0, at)
    &&& goes_on(lines, target, span, at)
}

/// Whether a chunk goes on up to line `at`: at no line before it had to end,
/// and only blank lines at its end are left out.
pub open spec fn goes_on(lines: Seq<Seq<char>>, target: nat, span: (int, int), at: int) -> bool {
    &&& forall|j: int| span.0 <= j < at ==> !#[trigger] must_end(lines, target, span.0, j)
    &&& forall|j: int| span.1 < j <= at ==> text::trimmed(#[trigger] lines[j]).len() == 0
    &&& span.1 > span.0 ==> text::trimmed(lines[span.1]).len() > 0
}

/// Whether a chunk closed before line `next`, with only blank lines in
/// between.
pub open spec fn closes_by(lines: Seq<Seq<char>>, target: nat, span: (int, int), next: int) -> bool {
    exists|at: int| #[trigger]
        ends_with(lines, target, span, at) && at < next && forall|j: int|
            at < j < next ==> text::trimmed(#[trigger] lines[j]).len() == 0
}

proof fn lemma_closes_later(
    lines: Seq<Seq<char>>,
    target: nat,
    span: (int, int),
    next: int,
    later: int,
)
    requires
        closes_by(lines, target, span, next),
        next <= later,
        forall|j: int| next <= j < later ==> is_blank(#[trigger] lines[j]),
    ensures
        closes_by(lines, target, span, later),
{
    let at = choose|at: int| #[trigger]
        ends_with(lines, target, span, at) && at < next && forall|j: int|
            at < j < next ==> text::trimmed(#[trigger] lines[j]).len() == 0;
    assert forall|j: int| at < j < later implies text::trimmed(#[trigger] lines[j]).len() == 0 by {
        if j >= next {
            assert(is_blank(lines[j]));
        }
    }
    assert(ends_with(lines, target, span, at));
}

/// What a pass keeps of sizes: the open chunk's size is that of its lines, it
/// did not have to end yet, and every chunk closed where it had to, with only
/// blank lines up to the next.
spec fn sizes_right(pass: Pass, lines: Seq<Seq<char>>, target: nat, n: int) -> bool {
    let next = match pass.start {
        Some(start) => start,
        None => n,
    };
    &&& match pass.start {
        Some(start) => 0 <= start < n && !is_blank(lines[start]) && pass.size == size_of(
            lines,
            start,
            n - 1,
        ) && forall|j: int| start <= j < n ==> !#[trigger] must_end(lines, target, start, j),
        None => pass.size == 0,
    }
    &&& forall|k: int|
        0 <= k < pass.spans.len() ==> closes_by(
            lines,
            target,
            #[trigger] pass.spans[k],
            after_span(pass.spans, k, next),
        )
    &&& forall|j: int|
        0 <= j < (if pass.spans.len() > 0 {
            pass.spans[0].0
        } else {
            next
        }) ==> is_blank(#[trigger] lines[j])
    &&& forall|k: int| 0 <= k < pass.spans.len() ==> !is_blank(lines[(#[trigger] pass.spans[k]).0])
}

/// Where the chunk after the `k`th starts, or `end` behind the last.
pub open spec fn after_span(spans: Seq<(int, int)>, k: int, end: int) -> int {
    if k + 1 < spans.len() {
        spans[k + 1].0
    } else {
        end
    }
}

/// The line a pass's next chunk starts at or after.
spec fn next_of(pass: Pass, n: int) -> int {
    match pass.start {
        Some(start) => start,
        None => n,
    }
}

proof fn lemma_sizes_over_blank(pass: Pass, lines: Seq<Seq<char>>, target: nat, i: int)
    requires
        0 <= i < lines.len(),
        sizes_right(pass, lines, target, i),
        pass.start is None,
        is_blank(lines[i]),
    ensures
        sizes_right(pass, lines, target, i + 1),
{
    assert forall|k: int| 0 <= k < pass.spans.len() implies closes_by(
        lines,
        target,
        #[trigger] pass.spans[k],
        after_span(pass.spans, k, i + 1),
    ) by {
        assert(closes_by(lines, target, pass.spans[k], after_span(pass.spans, k, i)));
        if k == pass.spans.len() - 1 {
            lemma_closes_later(lines, target, pass.spans[k], i, i + 1);
        }
    }
}

proof fn lemma_sizes_closing(
    pass: Pass,
    after: Pass,
    lines: Seq<Seq<char>>,
    target: nat,
    i: int,
    start: int,
    last: int,
)
    requires
        0 <= i < lines.len(),
        sizes_right(pass, lines, target, i),
        start == next_of(pass, i),
        !is_blank(lines[start]),
        ends_with(lines, target, (start, last), i),
        after == (Pass { spans: pass.spans.push((start, last)), start: None, size: 0 }),
    ensures
        sizes_right(after, lines, target, i + 1),
{
    assert forall|k: int| 0 <= k < after.spans.len() implies closes_by(
        lines,
        target,
        #[trigger] after.spans[k],
        after_span(after.spans, k, i + 1),
    ) by {
        if k < pass.spans.len() {
            assert(after.spans[k] == pass.spans[k]);
            assert(closes_by(lines, target, pass.spans[k], after_span(pass.spans, k, start)));
            if k + 1 < pass.spans.len() {
                assert(after.spans[k + 1] == pass.spans[k + 1]);
            }
        } else {
            assert(ends_with(lines, target, after.spans[k], i));
        }
    }
    assert forall|k: int| 0 <= k < after.spans.len() implies !is_blank(
        lines[(#[trigger] after.spans[k]).0],
    ) by {
        if k < pass.spans.len() {
            assert(after.spans[k] == pass.spans[k]);
        }
    }
    if pass.spans.len() > 0 {
        assert(after.spans[0] == pass.spans[0]);
    }
}

proof fn lemma_sizes_going_on(
    pass: Pass,
    after: Pass,
    lines: Seq<Seq<char>>,
    target: nat,
    i: int,
    start: int,
)
    requires
        0 <= i < lines.len(),
        sizes_right(pass, lines, target, i),
        start == next_of(pass, i),
        0 <= start <= i,
        !is_blank(lines[start]),
        !must_end(lines, target, start, i),
        after == (Pass {
            spans: pass.spans,
            start: Some(start),
            size: size_of(lines, start, i),
        }),
    ensures
        sizes_right(after, lines, target, i + 1),
{
    assert forall|j: int| start <= j < i + 1 implies !#[trigger] must_end(
        lines,
        target,
        start,
        j,
    ) by {}
    assert forall|k: int| 0 <= k < after.spans.len() implies closes_by(
        lines,
        target,
        #[trigger] after.spans[k],
        after_span(after.spans, k, start),
    ) by {
        assert(closes_by(lines, target, pass.spans[k], after_span(pass.spans, k, start)));
    }
}

proof fn lemma_sizes(lines: Seq<Seq<char>>, target: nat, n: nat)
    requires
        n <= lines.len(),
    ensures
        sizes_right(pass_over(lines, target, n), lines, target, n as int),
    decreases n,
{
    if n > 0 {
        let i = n - 1;
        lemma_sizes(lines, target, (n - 1) as nat);
        let before = pass_over(lines, target, (n - 1) as nat);
        let after = pass_over(lines, target, n);
        if before.start is None && is_blank(lines[i]) {
            lemma_sizes_over_blank(before, lines, target, i);
        } else {
            let start = next_of(before, i);
            assert(!is_blank(lines[start]));
            assert(size_of(lines, start, i - 1) == before.size);
            if must_end(lines, target, start, i) {
                lemma_last_line(lines, start, i);
                lemma_last_line_shown(lines, start, i);
                let last = last_line(lines, start, i);
                lemma_body_not_blank(lines, start, last, start);
                lemma_sizes_closing(before, after, lines, target, i, start, last);
            } else {
                lemma_sizes_going_on(before, after, lines, target, i, start);
            }
        }
    }
}

proof fn lemma_last_line_shown(lines: Seq<Seq<char>>, start: int, end: int)
    requires
        0 <= start <= end < lines.len(),
    ensures
        last_line(lines, start, end) > start ==> !is_blank(
            lines[last_line(lines, start, end)],
        ),
    decreases end - start,
{
    if end > start && is_blank(lines[end]) {
        lemma_last_line_shown(lines, start, end - 1);
    }
}

/// Chunks aim for the target, each counted by its own lines: a chunk starts
/// at the first line that is not blank after the one before it closed, and
/// closes at the first line where it must, which is a blank line once it
/// holds the target and any line once it holds twice that; the blank lines
/// at its end are left out. Only the last chunk may end with the text
/// instead.
pub proof fn law_chunks_close_where_they_must(lines: Seq<Seq<char>>, target: nat)
    ensures
        ({
            let spans = chunk_spans(lines, target);
            &&& forall|k: int|
                0 <= k < spans.len() ==> text::trimmed(lines[(#[trigger] spans[k]).0]).len() > 0
            &&& spans.len() > 0 ==> forall|j: int|
                0 <= j < spans[0].0 ==> text::trimmed(#[trigger] lines[j]).len() == 0
            &&& forall|k: int|
                0 <= k < spans.len() - 1 ==> closes_by(
                    lines,
                    target,
                    #[trigger] spans[k],
                    spans[k + 1].0,
                )
            &&& spans.len() > 0 ==> goes_on(lines, target, spans.last(), lines.len() - 1)
                || closes_by(lines, target, spans.last(), lines.len() as int)
        }),
{
    lemma_sizes(lines, target, lines.len());
    let n = lines.len() as int;
    let pass = pass_over(lines, target, lines.len());
    let spans = chunk_spans(lines, target);
    let next = match pass.start {
        Some(start) => start,
        None => n,
    };
    if let Some(start) = pass.start {
        lemma_last_line(lines, start, n - 1);
        lemma_last_line_shown(lines, start, n - 1);
        let last = last_line(lines, start, n - 1);
        lemma_body_not_blank(lines, start, last, start);
        assert(spans == pass.spans.push((start, last)));
        assert(goes_on(lines, target, (start, last), n - 1));
    }
    assert forall|k: int| 0 <= k < spans.len() implies text::trimmed(
        lines[(#[trigger] spans[k]).0],
    ).len() > 0 by {
        if k < pass.spans.len() {
            assert(spans[k] == pass.spans[k]);
        }
    }
    assert forall|k: int| 0 <= k < spans.len() - 1 implies closes_by(
        lines,
        target,
        #[trigger] spans[k],
        spans[k + 1].0,
    ) by {
        assert(spans[k] == pass.spans[k]);
        assert(after_span(pass.spans, k, next) == spans[k + 1].0);
    }
    if spans.len() > 0 {
        assert forall|j: int| 0 <= j < spans[0].0 implies text::trimmed(
            #[trigger] lines[j],
        ).len() == 0 by {
            assert(is_blank(lines[j]));
        }
        if pass.start is None {
            assert(spans.last() == pass.spans[pass.spans.len() - 1]);
        }
    }
}

/// A chunk's text is the lines its extent names, joined as they stood.
pub proof fn law_a_chunk_is_the_lines_it_names(
    sprout: Sprout,
    mimetype: Mimetype,
    lines: Seq<Seq<char>>,
    span: (int, int),
)
    requires
        is_chunk(sprout, mimetype, lines, span),
        0 <= span.0 <= span.1 < lines.len() < u64::MAX,
    ensures
        sprout.fragment.mimetype == mimetype,
        sprout.children@.len() == 0,
        sprout.fragment.extent matches Some(Extent::Lines { start, end }) && 1 <= start <= end
            <= lines.len() && sprout.fragment.text is Some && sprout.fragment.text->0@
            == text::joined(lines.subrange(start - 1, end as int), "\n"@),
{
}

proof fn lemma_blank_pass(lines: Seq<Seq<char>>, target: nat, n: nat)
    requires
        n <= lines.len(),
        forall|i: int| 0 <= i < lines.len() ==> is_blank(#[trigger] lines[i]),
    ensures
        pass_over(lines, target, n).start is None,
        pass_over(lines, target, n).spans.len() == 0,
    decreases n,
{
    if n > 0 {
        lemma_blank_pass(lines, target, (n - 1) as nat);
        assert(is_blank(lines[n - 1]));
    }
}

} // verus!
