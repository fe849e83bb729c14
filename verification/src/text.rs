//! Text as sequences of characters: the pieces of string handling the
//! plugins share, each stated over the characters a string holds.

use vstd::prelude::*;

verus! {

// --- What std answers about single characters and about case ---

/// The answer of `char::is_whitespace`: the Unicode `White_Space` property.
pub uninterp spec fn whitespace(c: char) -> bool;

/// The answer of `char::is_alphabetic`: the Unicode `Alphabetic` property.
pub uninterp spec fn alphabetic(c: char) -> bool;

/// The answer of `char::is_alphanumeric`: alphabetic, or of a numeric
/// general category.
pub uninterp spec fn alphanumeric(c: char) -> bool;

/// The answer of `char::is_uppercase`: the Unicode `Uppercase` property.
pub uninterp spec fn uppercase(c: char) -> bool;

/// What `str::to_lowercase` makes of a text: the Unicode lowercase mapping
/// of the whole text, which is not one character for one.
pub uninterp spec fn lowercase(s: Seq<char>) -> Seq<char>;

/// `char::is_whitespace` is a fixed property of the character.
pub assume_specification[ char::is_whitespace ](c: char) -> (r: bool)
    ensures
        r == whitespace(c),
;

/// `char::is_alphabetic` is a fixed property of the character.
pub assume_specification[ char::is_alphabetic ](c: char) -> (r: bool)
    ensures
        r == alphabetic(c),
;

/// `char::is_alphanumeric` is a fixed property of the character, and holds
/// of every alphabetic one.
pub assume_specification[ char::is_alphanumeric ](c: char) -> (r: bool)
    ensures
        r == alphanumeric(c),
        alphabetic(c) ==> r,
;

/// `char::is_uppercase` is a fixed property of the character.
pub assume_specification[ char::is_uppercase ](c: char) -> (r: bool)
    ensures
        r == uppercase(c),
;

/// `str::to_lowercase` is a function of the text alone.
pub assume_specification[ str::to_lowercase ](s: &str) -> (r: String)
    ensures
        r@ == lowercase(s@),
;

/// `String::push` appends one character.
pub assume_specification[ String::push ](s: &mut String, c: char)
    ensures
        final(s)@ == old(s)@.push(c),
;

// --- Characters in and out of strings ---

/// The characters of a text, in order.
pub fn chars_of(s: &str) -> (r: Vec<char>)
    ensures
        r@ == s@,
{
    let mut out: Vec<char> = Vec::new();
    for c in it: s.chars()
        invariant
            it.seq() == s@,
            out@ == s@.take(it.index()),
    {
        proof {
            assert(s@.take(it.index()).push(c) =~= s@.take(it.index() + 1));
        }
        out.push(c);
    }
    proof {
        assert(s@.take(s@.len() as int) =~= s@);
    }
    out
}

/// The text of a run of characters.
pub fn text_between(chars: &Vec<char>, from: usize, to: usize) -> (r: String)
    requires
        from <= to <= chars@.len(),
    ensures
        r@ == chars@.subrange(from as int, to as int),
{
    let mut out = String::new();
    let mut i: usize = from;
    while i < to
        invariant
            from <= i <= to <= chars@.len(),
            out@ == chars@.subrange(from as int, i as int),
        decreases to - i,
    {
        proof {
            assert(chars@.subrange(from as int, i as int).push(chars@[i as int])
                =~= chars@.subrange(from as int, i as int + 1));
        }
        out.push(chars[i]);
        i = i + 1;
    }
    out
}

/// Whether two texts hold the same characters.
pub fn same(a: &str, b: &str) -> (r: bool)
    ensures
        r == (a@ == b@),
{
    a.to_owned() == b.to_owned()
}

// --- Lists of strings ---

/// The texts a list of strings holds.
pub open spec fn views(v: Seq<String>) -> Seq<Seq<char>> {
    Seq::new(v.len(), |i: int| v[i]@)
}

/// The pieces of `parts` with `sep` between neighbours.
pub open spec fn joined(parts: Seq<Seq<char>>, sep: Seq<char>) -> Seq<char>
    decreases parts.len(),
{
    if parts.len() == 0 {
        Seq::empty()
    } else if parts.len() == 1 {
        parts[0]
    } else {
        joined(parts.drop_last(), sep) + sep + parts.last()
    }
}

/// `parts` with `sep` between neighbours.
pub fn join(parts: &Vec<String>, sep: &str) -> (r: String)
    ensures
        r@ == joined(views(parts@), sep@),
{
    let mut out = String::new();
    let mut i: usize = 0;
    while i < parts.len()
        invariant
            i <= parts@.len(),
            out@ == joined(views(parts@).take(i as int), sep@),
        decreases parts.len() - i,
    {
        proof {
            let next = views(parts@).take(i as int + 1);
            assert(next.drop_last() =~= views(parts@).take(i as int));
            assert(next.last() == parts@[i as int]@);
        }
        if i > 0 {
            out.append(sep);
        }
        out.append(parts[i].as_str());
        proof {
            assert(out@ =~= joined(views(parts@).take(i as int + 1), sep@));
        }
        i = i + 1;
    }
    proof {
        assert(views(parts@).take(parts@.len() as int) =~= views(parts@));
    }
    out
}

/// Whether a list of strings holds `text`.
pub fn holds(list: &Vec<String>, text: &str) -> (r: bool)
    ensures
        r == views(list@).contains(text@),
{
    let mut i: usize = 0;
    while i < list.len()
        invariant
            i <= list@.len(),
            forall|j: int| 0 <= j < i ==> list@[j]@ != text@,
        decreases list.len() - i,
    {
        if same(list[i].as_str(), text) {
            proof {
                assert(views(list@)[i as int] == text@);
            }
            return true;
        }
        i = i + 1;
    }
    proof {
        assert(forall|j: int| 0 <= j < views(list@).len() ==> views(list@)[j] != text@);
    }
    false
}

// --- Cutting ---

/// The pieces between the characters `at` marks, empty pieces kept: a text
/// with `n` marks has `n + 1` pieces.
pub open spec fn pieces(s: Seq<char>, at: spec_fn(char) -> bool) -> Seq<Seq<char>>
    decreases s.len(),
{
    if s.len() == 0 {
        seq![Seq::<char>::empty()]
    } else {
        let before = pieces(s.drop_last(), at);
        if at(s.last()) {
            before.push(Seq::empty())
        } else {
            before.drop_last().push(before.last().push(s.last()))
        }
    }
}

/// A text has at least one piece.
pub proof fn lemma_pieces_nonempty(s: Seq<char>, at: spec_fn(char) -> bool)
    ensures
        pieces(s, at).len() >= 1,
    decreases s.len(),
{
    if s.len() > 0 {
        lemma_pieces_nonempty(s.drop_last(), at);
    }
}

/// Two texts joined at a mark have the pieces of the one, then those of the
/// other.
pub proof fn lemma_pieces_joined(
    a: Seq<char>,
    mark: char,
    b: Seq<char>,
    at: spec_fn(char) -> bool,
)
    requires
        at(mark),
    ensures
        pieces(a + seq![mark] + b, at) == pieces(a, at) + pieces(b, at),
    decreases b.len(),
{
    let whole = a + seq![mark] + b;
    if b.len() == 0 {
        assert(whole.drop_last() =~= a);
        assert(pieces(whole, at) =~= pieces(a, at) + pieces(b, at));
    } else {
        let front = b.drop_last();
        lemma_pieces_joined(a, mark, front, at);
        lemma_pieces_nonempty(front, at);
        assert(whole.drop_last() =~= a + seq![mark] + front);
        assert(whole.last() == b.last());
        let before = pieces(a, at) + pieces(front, at);
        assert(before.drop_last() =~= pieces(a, at) + pieces(front, at).drop_last());
        assert(before.last() == pieces(front, at).last());
        assert(pieces(whole, at) =~= pieces(a, at) + pieces(b, at));
    }
}

/// No piece holds a mark.
pub proof fn lemma_pieces_unmarked(s: Seq<char>, at: spec_fn(char) -> bool)
    ensures
        forall|i: int, j: int|
            0 <= i < pieces(s, at).len() && 0 <= j < pieces(s, at)[i].len() ==> !at(
                #[trigger] pieces(s, at)[i][j],
            ),
    decreases s.len(),
{
    if s.len() > 0 {
        let before = pieces(s.drop_last(), at);
        lemma_pieces_unmarked(s.drop_last(), at);
        lemma_pieces_nonempty(s.drop_last(), at);
        assert forall|i: int, j: int|
            0 <= i < pieces(s, at).len() && 0 <= j < pieces(s, at)[i].len() implies !at(
            #[trigger] pieces(s, at)[i][j],
        ) by {
            if i < before.len() && j < before[i].len() {
                assert(pieces(s, at)[i][j] == before[i][j]);
            }
        }
    }
}

/// A text without a mark is its one piece.
pub proof fn lemma_one_piece(s: Seq<char>, at: spec_fn(char) -> bool)
    requires
        forall|i: int| 0 <= i < s.len() ==> !at(#[trigger] s[i]),
    ensures
        pieces(s, at) == seq![s],
    decreases s.len(),
{
    if s.len() == 0 {
        assert(s =~= Seq::empty());
    } else {
        let front = s.drop_last();
        assert forall|i: int| 0 <= i < front.len() implies !at(#[trigger] front[i]) by {
            assert(front[i] == s[i]);
        }
        lemma_one_piece(front, at);
        assert(!at(s[s.len() - 1]));
        assert(front.push(s.last()) =~= s);
        assert(pieces(s, at) =~= seq![s]);
    }
}

/// The pieces of `chars` between the positions `marks` sets, where `marks`
/// answers `at` for every character.
pub(crate) fn cut(chars: &Vec<char>, marks: &Vec<bool>, at: Ghost<spec_fn(char) -> bool>) -> (r: Vec<String>)
    requires
        marks@.len() == chars@.len(),
        forall|i: int| 0 <= i < chars@.len() ==> marks@[i] == (at@)(chars@[i]),
    ensures
        views(r@) == pieces(chars@, at@),
{
    let mut out: Vec<String> = Vec::new();
    let mut current = String::new();
    let mut i: usize = 0;
    proof {
        assert(views(out@).push(current@) =~= pieces(chars@.take(0), at@));
    }
    while i < chars.len()
        invariant
            i <= chars@.len(),
            marks@.len() == chars@.len(),
            forall|j: int| 0 <= j < chars@.len() ==> marks@[j] == (at@)(chars@[j]),
            views(out@).push(current@) == pieces(chars@.take(i as int), at@),
        decreases chars.len() - i,
    {
        let ghost before = views(out@).push(current@);
        proof {
            let next = chars@.take(i as int + 1);
            assert(next.drop_last() =~= chars@.take(i as int));
            assert(next.last() == chars@[i as int]);
            assert(before.drop_last() =~= views(out@));
        }
        if marks[i] {
            let ghost kept = out@;
            out.push(current);
            current = String::new();
            proof {
                assert(views(out@) =~= before);
            }
        } else {
            current.push(chars[i]);
        }
        proof {
            assert(views(out@).push(current@) =~= pieces(chars@.take(i as int + 1), at@));
        }
        i = i + 1;
    }
    out.push(current);
    proof {
        assert(chars@.take(chars@.len() as int) =~= chars@);
        assert(views(out@) =~= pieces(chars@, at@));
    }
    out
}

/// `s` without the leading characters `off` holds of.
pub open spec fn trimmed_front(s: Seq<char>, off: spec_fn(char) -> bool) -> Seq<char>
    decreases s.len(),
{
    if s.len() > 0 && off(s[0]) {
        trimmed_front(s.drop_first(), off)
    } else {
        s
    }
}

/// `s` without the trailing characters `off` holds of.
pub open spec fn trimmed_back(s: Seq<char>, off: spec_fn(char) -> bool) -> Seq<char>
    decreases s.len(),
{
    if s.len() > 0 && off(s.last()) {
        trimmed_back(s.drop_last(), off)
    } else {
        s
    }
}

/// `s` without the leading and trailing characters `off` holds of.
pub open spec fn trimmed_where(s: Seq<char>, off: spec_fn(char) -> bool) -> Seq<char> {
    trimmed_back(trimmed_front(s, off), off)
}

/// `s` without its leading and trailing whitespace.
pub open spec fn trimmed(s: Seq<char>) -> Seq<char> {
    trimmed_where(s, |c: char| whitespace(c))
}

proof fn lemma_trimmed_front_edge(s: Seq<char>, off: spec_fn(char) -> bool)
    ensures
        trimmed_front(s, off).len() <= s.len(),
        trimmed_front(s, off) == s.subrange(s.len() - trimmed_front(s, off).len(), s.len() as int),
        trimmed_front(s, off).len() > 0 ==> !off(trimmed_front(s, off)[0]),
    decreases s.len(),
{
    if s.len() > 0 && off(s[0]) {
        lemma_trimmed_front_edge(s.drop_first(), off);
    }
    assert(trimmed_front(s, off) =~= s.subrange(
        s.len() - trimmed_front(s, off).len(),
        s.len() as int,
    ));
}

proof fn lemma_trimmed_back_edge(s: Seq<char>, off: spec_fn(char) -> bool)
    ensures
        trimmed_back(s, off).len() <= s.len(),
        trimmed_back(s, off) == s.take(trimmed_back(s, off).len() as int),
        trimmed_back(s, off).len() > 0 ==> !off(trimmed_back(s, off).last()),
    decreases s.len(),
{
    if s.len() > 0 && off(s.last()) {
        lemma_trimmed_back_edge(s.drop_last(), off);
    }
    assert(trimmed_back(s, off) =~= s.take(trimmed_back(s, off).len() as int));
}

/// A trimmed text is a stretch of the text, with nothing left to trim.
pub proof fn lemma_trimmed_where(s: Seq<char>, off: spec_fn(char) -> bool)
    ensures
        trimmed_where(trimmed_where(s, off), off) == trimmed_where(s, off),
        forall|i: int|
            0 <= i < trimmed_where(s, off).len() ==> s.contains(
                #[trigger] trimmed_where(s, off)[i],
            ),
{
    let front = trimmed_front(s, off);
    let core = trimmed_back(front, off);
    lemma_trimmed_front_edge(s, off);
    lemma_trimmed_back_edge(front, off);
    assert forall|i: int| 0 <= i < core.len() implies s.contains(#[trigger] core[i]) by {
        assert(core[i] == front[i]);
        assert(s[s.len() - front.len() + i] == front[i]);
    }
    if core.len() > 0 {
        assert(core[0] == front[0]);
    }
}

proof fn lemma_trimmed_front(s: Seq<char>, off: spec_fn(char) -> bool, from: int)
    requires
        0 <= from <= s.len(),
        forall|i: int| 0 <= i < from ==> off(#[trigger] s[i]),
        from < s.len() ==> !off(s[from]),
    ensures
        trimmed_front(s, off) == s.subrange(from, s.len() as int),
    decreases from,
{
    if from > 0 {
        let rest = s.drop_first();
        assert(forall|i: int| 0 <= i < from - 1 ==> rest[i] == s[i + 1]);
        lemma_trimmed_front(rest, off, from - 1);
        assert(rest.subrange(from - 1, rest.len() as int) =~= s.subrange(from, s.len() as int));
    } else {
        assert(s.subrange(0, s.len() as int) =~= s);
    }
}

proof fn lemma_trimmed_back(s: Seq<char>, off: spec_fn(char) -> bool, to: int)
    requires
        0 <= to <= s.len(),
        forall|i: int| to <= i < s.len() ==> off(#[trigger] s[i]),
        to > 0 ==> !off(s[to - 1]),
    ensures
        trimmed_back(s, off) == s.subrange(0, to),
    decreases s.len() - to,
{
    if to < s.len() {
        let rest = s.drop_last();
        assert(forall|i: int| 0 <= i < rest.len() ==> rest[i] == s[i]);
        lemma_trimmed_back(rest, off, to);
        assert(rest.subrange(0, to) =~= s.subrange(0, to));
    } else {
        assert(s.subrange(0, s.len() as int) =~= s);
    }
}

/// A text with a character that is not whitespace is not blank.
pub proof fn lemma_trimmed_keeps_the_rest(s: Seq<char>, at: int)
    requires
        0 <= at < s.len(),
        !whitespace(s[at]),
    ensures
        trimmed(s).len() > 0,
{
    let off = |c: char| whitespace(c);
    lemma_front_keeps(s, off, at);
    let front = trimmed_front(s, off);
    let kept = choose|i: int| 0 <= i < front.len() && !off(#[trigger] front[i]);
    lemma_back_keeps(front, off, kept);
}

proof fn lemma_front_keeps(s: Seq<char>, off: spec_fn(char) -> bool, at: int)
    requires
        0 <= at < s.len(),
        !off(s[at]),
    ensures
        exists|i: int|
            0 <= i < trimmed_front(s, off).len() && !off(#[trigger] trimmed_front(s, off)[i]),
    decreases s.len(),
{
    if off(s[0]) {
        assert(s.drop_first()[at - 1] == s[at]);
        lemma_front_keeps(s.drop_first(), off, at - 1);
        assert(trimmed_front(s, off) == trimmed_front(s.drop_first(), off));
    } else {
        assert(!off(trimmed_front(s, off)[at]));
    }
}

proof fn lemma_back_keeps(s: Seq<char>, off: spec_fn(char) -> bool, at: int)
    requires
        0 <= at < s.len(),
        !off(s[at]),
    ensures
        trimmed_back(s, off).len() > 0,
    decreases s.len(),
{
    if off(s.last()) {
        assert(s.drop_last()[at] == s[at]);
        lemma_back_keeps(s.drop_last(), off, at);
    }
}

/// A text that is not blank has a character that is not whitespace.
pub proof fn lemma_not_blank(s: Seq<char>)
    requires
        trimmed(s).len() > 0,
    ensures
        exists|i: int| 0 <= i < s.len() && !whitespace(#[trigger] s[i]),
{
    let off = |c: char| whitespace(c);
    if forall|i: int| 0 <= i < s.len() ==> whitespace(#[trigger] s[i]) {
        assert forall|i: int| 0 <= i < s.len() implies off(#[trigger] s[i]) by {
            assert(whitespace(s[i]));
        }
        lemma_trimmed_front(s, off, s.len() as int);
    }
}

/// `chars` without the leading and trailing positions `marks` sets, where
/// `marks` answers `off` for every character.
pub(crate) fn trim_where(chars: &Vec<char>, marks: &Vec<bool>, off: Ghost<spec_fn(char) -> bool>) -> (r: String)
    requires
        marks@.len() == chars@.len(),
        forall|i: int| 0 <= i < chars@.len() ==> marks@[i] == (off@)(chars@[i]),
    ensures
        r@ == trimmed_where(chars@, off@),
{
    let mut from: usize = 0;
    while from < chars.len() && marks[from]
        invariant
            from <= chars@.len(),
            marks@.len() == chars@.len(),
            forall|i: int| 0 <= i < from ==> #[trigger] marks@[i],
        decreases chars.len() - from,
    {
        from = from + 1;
    }
    let mut to: usize = chars.len();
    while to > from && marks[to - 1]
        invariant
            from <= to <= chars@.len(),
            marks@.len() == chars@.len(),
            forall|i: int| to <= i < chars@.len() ==> #[trigger] marks@[i],
        decreases to,
    {
        to = to - 1;
    }
    proof {
        assert forall|i: int| 0 <= i < from implies (off@)(#[trigger] chars@[i]) by {
            assert(marks@[i]);
        }
        lemma_trimmed_front(chars@, off@, from as int);
        let front = chars@.subrange(from as int, chars@.len() as int);
        assert forall|i: int| to - from <= i < front.len() implies (off@)(#[trigger] front[i]) by {
            assert(marks@[from + i]);
        }
        lemma_trimmed_back(front, off@, to - from);
        assert(front.subrange(0, to - from) =~= chars@.subrange(from as int, to as int));
    }
    text_between(chars, from, to)
}

/// `s` without its leading and trailing whitespace.
pub fn trim(s: &str) -> (r: String)
    ensures
        r@ == trimmed(s@),
{
    let chars = chars_of(s);
    let mut marks: Vec<bool> = Vec::new();
    let mut i: usize = 0;
    while i < chars.len()
        invariant
            i <= chars@.len(),
            marks@.len() == i,
            forall|j: int| 0 <= j < i ==> marks@[j] == whitespace(chars@[j]),
        decreases chars.len() - i,
    {
        marks.push(chars[i].is_whitespace());
        i = i + 1;
    }
    trim_where(&chars, &marks, Ghost(|c: char| whitespace(c)))
}

// --- Lines ---

/// `s` without one trailing carriage return.
pub open spec fn without_return(s: Seq<char>) -> Seq<char> {
    if s.len() > 0 && s.last() == '\r' {
        s.drop_last()
    } else {
        s
    }
}

/// The lines of a text: what stands between newlines, a carriage return
/// before a newline dropped with it, and nothing after a final newline.
pub open spec fn lines_of(s: Seq<char>) -> Seq<Seq<char>> {
    let cut = pieces(s, |c: char| c == '\n');
    let ended = Seq::new((cut.len() - 1) as nat, |i: int| without_return(cut[i]));
    if cut.last().len() == 0 {
        ended
    } else {
        ended.push(cut.last())
    }
}

/// The lines of a text, as `str::lines` divides it.
pub fn lines(s: &str) -> (r: Vec<String>)
    ensures
        views(r@) == lines_of(s@),
{
    let chars = chars_of(s);
    let mut marks: Vec<bool> = Vec::new();
    let mut i: usize = 0;
    while i < chars.len()
        invariant
            i <= chars@.len(),
            marks@.len() == i,
            forall|j: int| 0 <= j < i ==> marks@[j] == (chars@[j] == '\n'),
        decreases chars.len() - i,
    {
        marks.push(chars[i] == '\n');
        i = i + 1;
    }
    let ghost at = |c: char| c == '\n';
    let cut_pieces = cut(&chars, &marks, Ghost(at));
    proof {
        lemma_pieces_nonempty(chars@, at);
        assert(views(cut_pieces@).len() == cut_pieces@.len());
    }
    let mut out: Vec<String> = Vec::new();
    let last: usize = cut_pieces.len() - 1;
    let mut k: usize = 0;
    while k < last
        invariant
            k <= last,
            last == cut_pieces@.len() - 1,
            out@.len() == k,
            forall|j: int| 0 <= j < k ==> (#[trigger] out@[j])@ == without_return(cut_pieces@[j]@),
        decreases last - k,
    {
        let line = chars_of(cut_pieces[k].as_str());
        let n: usize = line.len();
        if n > 0 && line[n - 1] == '\r' {
            let kept = text_between(&line, 0, n - 1);
            proof {
                assert(line@.subrange(0, n - 1) =~= line@.drop_last());
            }
            out.push(kept);
        } else {
            out.push(cut_pieces[k].clone());
        }
        k = k + 1;
    }
    if !cut_pieces[last].as_str().is_empty() {
        out.push(cut_pieces[last].clone());
    }
    proof {
        assert(views(out@) =~= lines_of(s@));
    }
    out
}

// --- Numbers ---

/// The decimal digit of a number below ten.
pub open spec fn digit(d: nat) -> char {
    seq!['0', '1', '2', '3', '4', '5', '6', '7', '8', '9'][d as int]
}

/// A number in decimal, without leading zeros.
pub open spec fn decimal(n: nat) -> Seq<char>
    decreases n,
{
    if n < 10 {
        seq![digit(n)]
    } else {
        decimal(n / 10).push(digit(n % 10))
    }
}

fn digit_char(d: u64) -> (c: char)
    requires
        d < 10,
    ensures
        c == digit(d as nat),
{
    if d == 0 {
        '0'
    } else if d == 1 {
        '1'
    } else if d == 2 {
        '2'
    } else if d == 3 {
        '3'
    } else if d == 4 {
        '4'
    } else if d == 5 {
        '5'
    } else if d == 6 {
        '6'
    } else if d == 7 {
        '7'
    } else if d == 8 {
        '8'
    } else {
        '9'
    }
}

/// A number in decimal.
pub fn number(n: u64) -> (r: String)
    ensures
        r@ == decimal(n as nat),
    decreases n,
{
    if n < 10 {
        let mut out = String::new();
        out.push(digit_char(n));
        proof {
            assert(out@ =~= decimal(n as nat));
        }
        out
    } else {
        let mut out = number(n / 10);
        out.push(digit_char(n % 10));
        out
    }
}

/// Whether every character of `s` is a decimal digit.
pub open spec fn all_digits(s: Seq<char>) -> bool {
    forall|i: int| 0 <= i < s.len() ==> '0' <= #[trigger] s[i] <= '9'
}

/// A number in decimal is a non-empty run of digits.
pub proof fn lemma_decimal_digits(n: nat)
    ensures
        all_digits(decimal(n)),
        decimal(n).len() > 0,
    decreases n,
{
    if n >= 10 {
        lemma_decimal_digits(n / 10);
    }
}

/// Different numbers read differently.
pub proof fn lemma_decimal_injective(a: nat, b: nat)
    requires
        decimal(a) == decimal(b),
    ensures
        a == b,
    decreases a,
{
    lemma_decimal_digits(a / 10);
    lemma_decimal_digits(b / 10);
    if a >= 10 && b >= 10 {
        assert(decimal(a).drop_last() =~= decimal(a / 10));
        assert(decimal(b).drop_last() =~= decimal(b / 10));
        lemma_decimal_injective(a / 10, b / 10);
        assert(decimal(a).last() == digit(a % 10));
        assert(decimal(b).last() == digit(b % 10));
        lemma_digit_injective(a % 10, b % 10);
    } else if a < 10 && b < 10 {
        assert(decimal(a)[0] == digit(a));
        assert(decimal(b)[0] == digit(b));
        lemma_digit_injective(a, b);
    } else if a < 10 {
        assert(decimal(b).len() == decimal(b / 10).len() + 1);
    } else {
        assert(decimal(a).len() == decimal(a / 10).len() + 1);
    }
}

proof fn lemma_digit_injective(a: nat, b: nat)
    requires
        a < 10,
        b < 10,
        digit(a) == digit(b),
    ensures
        a == b,
{
}

/// A run of digits ends where something else begins: two texts that start
/// with one and go on with the same non-digit agree on the run and on the
/// rest.
pub proof fn lemma_digits_end(a: Seq<char>, b: Seq<char>, rest_a: Seq<char>, rest_b: Seq<char>)
    requires
        all_digits(a),
        all_digits(b),
        rest_a.len() == 0 || !('0' <= rest_a[0] <= '9'),
        rest_b.len() == 0 || !('0' <= rest_b[0] <= '9'),
        a + rest_a == b + rest_b,
    ensures
        a == b,
        rest_a == rest_b,
{
    let whole = a + rest_a;
    let other = b + rest_b;
    if a.len() < b.len() {
        assert(whole[a.len() as int] == rest_a[0]);
        assert(other[a.len() as int] == b[a.len() as int]);
        assert(false);
    }
    if b.len() < a.len() {
        assert(other[b.len() as int] == rest_b[0]);
        assert(whole[b.len() as int] == a[b.len() as int]);
        assert(false);
    }
    assert(a =~= whole.take(a.len() as int));
    assert(b =~= other.take(b.len() as int));
    assert(rest_a =~= whole.skip(a.len() as int));
    assert(rest_b =~= other.skip(b.len() as int));
}

/// A number ends at a bar: two texts that start with one and go on with a
/// bar agree on the number and on the rest.
pub proof fn lemma_number_before_bar(a: nat, b: nat, rest_a: Seq<char>, rest_b: Seq<char>)
    requires
        decimal(a) + rest_a == decimal(b) + rest_b,
        rest_a.len() > 0 && rest_a[0] == '|',
        rest_b.len() > 0 && rest_b[0] == '|',
    ensures
        a == b,
        rest_a == rest_b,
{
    lemma_decimal_digits(a);
    lemma_decimal_digits(b);
    lemma_digits_end(decimal(a), decimal(b), rest_a, rest_b);
    lemma_decimal_injective(a, b);
}

/// Two texts that agree behind one prefix agree.
pub proof fn lemma_after_prefix(prefix: Seq<char>, a: Seq<char>, b: Seq<char>)
    requires
        prefix + a == prefix + b,
    ensures
        a == b,
{
    assert(a =~= (prefix + a).skip(prefix.len() as int));
    assert(b =~= (prefix + b).skip(prefix.len() as int));
}

// --- Texts inside texts ---

/// Whether `needle` stands in `s` at `at`.
pub open spec fn stands_at(s: Seq<char>, needle: Seq<char>, at: int) -> bool {
    0 <= at && at + needle.len() <= s.len() && s.subrange(at, at + needle.len()) == needle
}

/// Whether `needle` stands anywhere in `s`.
pub open spec fn contains(s: Seq<char>, needle: Seq<char>) -> bool {
    exists|at: int| stands_at(s, needle, at)
}

fn matches_at(chars: &Vec<char>, needle: &Vec<char>, at: usize) -> (r: bool)
    requires
        at + needle@.len() <= chars@.len(),
    ensures
        r == stands_at(chars@, needle@, at as int),
{
    let total: usize = chars.len();
    let mut i: usize = 0;
    while i < needle.len()
        invariant
            i <= needle@.len(),
            total == chars@.len(),
            at + needle@.len() <= chars@.len(),
            forall|j: int| 0 <= j < i ==> chars@[at + j] == needle@[j],
        decreases needle@.len() - i,
    {
        if chars[at + i] != needle[i] {
            proof {
                let run = chars@.subrange(at as int, at + needle@.len());
                assert(run[i as int] == chars@[at + i]);
            }
            return false;
        }
        i = i + 1;
    }
    proof {
        assert(chars@.subrange(at as int, at + needle@.len()) =~= needle@);
    }
    true
}

/// Whether a text holds another.
pub fn finds(s: &str, needle: &str) -> (r: bool)
    ensures
        r == contains(s@, needle@),
{
    let chars = chars_of(s);
    let wanted = chars_of(needle);
    if wanted.len() > chars.len() {
        return false;
    }
    let last: usize = chars.len() - wanted.len();
    let mut at: usize = 0;
    loop
        invariant
            chars@ == s@,
            wanted@ == needle@,
            wanted@.len() + last == chars@.len(),
            at <= last,
            forall|k: int| 0 <= k < at ==> !stands_at(s@, needle@, k),
        decreases last - at,
    {
        if matches_at(&chars, &wanted, at) {
            return true;
        }
        if at == last {
            return false;
        }
        at = at + 1;
    }
}

// --- Prefixes and order ---

/// Whether `s` begins with `prefix`.
pub open spec fn begins(s: Seq<char>, prefix: Seq<char>) -> bool {
    s.len() >= prefix.len() && s.take(prefix.len() as int) == prefix
}

/// Whether `s` ends with `suffix`.
pub open spec fn ends(s: Seq<char>, suffix: Seq<char>) -> bool {
    s.len() >= suffix.len() && s.skip(s.len() - suffix.len()) == suffix
}

/// Whether `s` begins with `prefix`.
pub fn starts_with(s: &str, prefix: &str) -> (r: bool)
    ensures
        r == begins(s@, prefix@),
{
    let a = chars_of(s);
    let b = chars_of(prefix);
    if a.len() < b.len() {
        return false;
    }
    let mut i: usize = 0;
    while i < b.len()
        invariant
            i <= b@.len() <= a@.len(),
            a@ == s@,
            b@ == prefix@,
            forall|j: int| 0 <= j < i ==> a@[j] == b@[j],
        decreases b.len() - i,
    {
        if a[i] != b[i] {
            proof {
                assert(a@.take(b@.len() as int)[i as int] != b@[i as int]);
            }
            return false;
        }
        i = i + 1;
    }
    proof {
        assert(a@.take(b@.len() as int) =~= b@);
    }
    true
}

/// Whether `a` comes strictly before `b` in the order of their characters,
/// which is the order of their UTF-8 bytes.
pub open spec fn precedes(a: Seq<char>, b: Seq<char>) -> bool
    decreases a.len(),
{
    if b.len() == 0 {
        false
    } else if a.len() == 0 {
        true
    } else if a[0] == b[0] {
        precedes(a.drop_first(), b.drop_first())
    } else {
        (a[0] as int) < (b[0] as int)
    }
}

/// No text precedes itself.
pub proof fn lemma_precedes_irreflexive(a: Seq<char>)
    ensures
        !precedes(a, a),
    decreases a.len(),
{
    if a.len() > 0 {
        lemma_precedes_irreflexive(a.drop_first());
    }
}

/// Of two different texts one precedes the other.
pub proof fn lemma_precedes_total(a: Seq<char>, b: Seq<char>)
    ensures
        a == b || precedes(a, b) || precedes(b, a),
    decreases a.len(),
{
    if a.len() > 0 && b.len() > 0 {
        if a[0] == b[0] {
            lemma_precedes_total(a.drop_first(), b.drop_first());
            if a.drop_first() == b.drop_first() {
                assert(a =~= seq![a[0]] + a.drop_first());
                assert(b =~= seq![b[0]] + b.drop_first());
            }
        }
    } else if a.len() == 0 && b.len() == 0 {
        assert(a =~= b);
    }
}

/// Precedence carries over.
pub proof fn lemma_precedes_transitive(a: Seq<char>, b: Seq<char>, c: Seq<char>)
    requires
        precedes(a, b),
        precedes(b, c),
    ensures
        precedes(a, c),
    decreases a.len(),
{
    if a.len() > 0 && b.len() > 0 && c.len() > 0 {
        if a[0] == b[0] && b[0] == c[0] {
            lemma_precedes_transitive(a.drop_first(), b.drop_first(), c.drop_first());
        }
    }
}

/// Whether `a` comes strictly before `b`.
pub fn comes_before(a: &str, b: &str) -> (r: bool)
    ensures
        r == precedes(a@, b@),
{
    let x = chars_of(a);
    let y = chars_of(b);
    let mut i: usize = 0;
    proof {
        assert(x@.skip(0) =~= x@);
        assert(y@.skip(0) =~= y@);
    }
    while i < x.len() && i < y.len()
        invariant
            i <= x@.len(),
            i <= y@.len(),
            x@ == a@,
            y@ == b@,
            precedes(x@, y@) == precedes(x@.skip(i as int), y@.skip(i as int)),
        decreases x.len() - i,
    {
        proof {
            assert(x@.skip(i as int).drop_first() =~= x@.skip(i as int + 1));
            assert(y@.skip(i as int).drop_first() =~= y@.skip(i as int + 1));
        }
        if x[i] != y[i] {
            return x[i] < y[i];
        }
        i = i + 1;
    }
    i < y.len()
}


/// A text is read line by line: what stands before its first newline is the
/// first line, without a carriage return at its end, and what stands after it
/// is read in turn; a rest without a newline is one line, if there is any.
pub proof fn law_lines_follow_the_newlines(line: Seq<char>, rest: Seq<char>)
    requires
        forall|i: int| 0 <= i < line.len() ==> #[trigger] line[i] != '\n',
    ensures
        lines_of(line) == if line.len() == 0 {
            Seq::empty()
        } else {
            seq![line]
        },
        line.len() == 0 || line.last() != '\r' ==> lines_of(line + seq!['\n'] + rest) == seq![line]
            + lines_of(rest),
        lines_of((line + seq!['\r']) + seq!['\n'] + rest) == seq![line] + lines_of(rest),
{
    let at = |c: char| c == '\n';
    lemma_one_piece(line, at);
    assert(lines_of(line) =~= if line.len() == 0 {
        Seq::empty()
    } else {
        seq![line]
    });
    lemma_first_line(line, rest);
    let returned = line + seq!['\r'];
    assert forall|i: int| 0 <= i < returned.len() implies #[trigger] returned[i] != '\n' by {
        if i < line.len() {
            assert(returned[i] == line[i]);
        }
    }
    lemma_first_line(returned, rest);
    assert(returned.drop_last() =~= line);
}

proof fn lemma_first_line(line: Seq<char>, rest: Seq<char>)
    requires
        forall|i: int| 0 <= i < line.len() ==> #[trigger] line[i] != '\n',
    ensures
        lines_of(line + seq!['\n'] + rest) == seq![without_return(line)] + lines_of(rest),
{
    let at = |c: char| c == '\n';
    lemma_one_piece(line, at);
    lemma_pieces_nonempty(rest, at);
    lemma_pieces_joined(line, '\n', rest, at);
    let cut = pieces(line + seq!['\n'] + rest, at);
    let below = pieces(rest, at);
    assert(cut[0] == line);
    assert forall|i: int| 1 <= i < cut.len() implies #[trigger] cut[i] == below[i - 1] by {}
    assert(cut.last() == below.last());
    assert(lines_of(line + seq!['\n'] + rest) =~= seq![without_return(line)] + lines_of(rest));
}

/// Trimming takes off a beginning and an end, made only of what is to go, and
/// leaves a stretch that neither begins nor ends with any of it.
pub proof fn law_trimming_takes_only_the_edges(s: Seq<char>, off: spec_fn(char) -> bool) -> (cut: (
    int,
    int,
))
    ensures
        0 <= cut.0 <= cut.1 <= s.len(),
        trimmed_where(s, off) == s.subrange(cut.0, cut.1),
        forall|i: int| 0 <= i < cut.0 ==> off(#[trigger] s[i]),
        forall|i: int| cut.1 <= i < s.len() ==> off(#[trigger] s[i]),
        cut.0 < cut.1 ==> !off(s[cut.0]) && !off(s[cut.1 - 1]),
{
    let from = lemma_leading(s, off);
    lemma_trimmed_front(s, off, from);
    let front = s.subrange(from, s.len() as int);
    let to = lemma_trailing(front, off);
    lemma_trimmed_back(front, off, to);
    assert(front.subrange(0, to) =~= s.subrange(from, from + to));
    assert forall|i: int| from + to <= i < s.len() implies off(#[trigger] s[i]) by {
        assert(front[i - from] == s[i]);
    }
    if to > 0 {
        assert(front[0] == s[from]);
        assert(front[to - 1] == s[from + to - 1]);
    }
    (from, from + to)
}

proof fn lemma_leading(s: Seq<char>, off: spec_fn(char) -> bool) -> (from: int)
    ensures
        0 <= from <= s.len(),
        forall|i: int| 0 <= i < from ==> off(#[trigger] s[i]),
        from < s.len() ==> !off(s[from]),
    decreases s.len(),
{
    if s.len() == 0 || !off(s[0]) {
        0
    } else {
        let rest = s.drop_first();
        let from = lemma_leading(rest, off);
        assert forall|i: int| 0 <= i < from + 1 implies off(#[trigger] s[i]) by {
            if i > 0 {
                assert(rest[i - 1] == s[i]);
            }
        }
        if from < rest.len() {
            assert(rest[from] == s[from + 1]);
        }
        from + 1
    }
}

proof fn lemma_trailing(s: Seq<char>, off: spec_fn(char) -> bool) -> (to: int)
    ensures
        0 <= to <= s.len(),
        forall|i: int| to <= i < s.len() ==> off(#[trigger] s[i]),
        to > 0 ==> !off(s[to - 1]),
    decreases s.len(),
{
    if s.len() == 0 || !off(s.last()) {
        s.len() as int
    } else {
        let rest = s.drop_last();
        let to = lemma_trailing(rest, off);
        assert forall|i: int| to <= i < s.len() implies off(#[trigger] s[i]) by {
            if i < rest.len() {
                assert(rest[i] == s[i]);
            }
        }
        if to > 0 {
            assert(rest[to - 1] == s[to - 1]);
        }
        to
    }
}

/// The number a run of digits stands for.
pub open spec fn value_of(s: Seq<char>) -> int
    decreases s.len(),
{
    if s.len() == 0 {
        0
    } else {
        10 * value_of(s.drop_last()) + (s.last() as int - '0' as int)
    }
}

/// A number in decimal reads back as the number, and begins with a nought
/// only where it is nought.
pub proof fn law_decimals_read_back(n: nat)
    ensures
        value_of(decimal(n)) == n,
        decimal(n)[0] == '0' ==> n == 0,
        decimal(n).len() >= 1,
    decreases n,
{
    lemma_digit_value(n % 10);
    if n < 10 {
        lemma_digit_value(n);
        assert(seq![digit(n)].drop_last() =~= Seq::<char>::empty());
        assert(value_of(seq![digit(n)]) == 10 * value_of(seq![digit(n)].drop_last()) + (digit(
            n,
        ) as int - '0' as int));
    } else {
        law_decimals_read_back(n / 10);
        let front = decimal(n / 10);
        assert(decimal(n).drop_last() =~= front);
        assert(decimal(n)[0] == front[0]);
    }
}

proof fn lemma_digit_value(d: nat)
    requires
        d < 10,
    ensures
        digit(d) as int - '0' as int == d,
{
    let digits = seq!['0', '1', '2', '3', '4', '5', '6', '7', '8', '9'];
    assert(d == 0 || d == 1 || d == 2 || d == 3 || d == 4 || d == 5 || d == 6 || d == 7 || d == 8
        || d == 9);
    assert(digits[d as int] as int == 48 + d);
}

/// Texts joined are each in its place: two lists joined apart stand before
/// and after one more separator.
pub proof fn law_joining_is_piecewise(a: Seq<Seq<char>>, b: Seq<Seq<char>>, sep: Seq<char>)
    ensures
        a.len() > 0 && b.len() > 0 ==> joined(a + b, sep) == joined(a, sep) + sep + joined(b, sep),
        a.len() == 1 ==> joined(a, sep) == a[0],
        a.len() == 0 ==> joined(a, sep).len() == 0,
    decreases b.len(),
{
    if a.len() > 0 && b.len() > 0 {
        let all = a + b;
        assert(all.drop_last() =~= a + b.drop_last());
        assert(all.last() == b.last());
        if b.len() > 1 {
            law_joining_is_piecewise(a, b.drop_last(), sep);
        } else {
            assert(a + b.drop_last() =~= a);
        }
        assert(joined(all, sep) =~= joined(a, sep) + sep + joined(b, sep));
    }
}

/// Whether two texts agree on their first `k` characters.
pub open spec fn agree(a: Seq<char>, b: Seq<char>, k: int) -> bool {
    0 <= k <= a.len() && k <= b.len() && forall|i: int| 0 <= i < k ==> #[trigger] a[i] == b[i]
}

/// The order of texts is decided where they first differ: by the characters
/// there, or by which of them ends.
pub proof fn law_texts_are_ordered_where_they_differ(a: Seq<char>, b: Seq<char>, k: int)
    requires
        agree(a, b, k),
        k == a.len() || k == b.len() || a[k] != b[k],
    ensures
        precedes(a, b) == (k < b.len() && (k == a.len() || (a[k] as int) < (b[k] as int))),
    decreases a.len(),
{
    if k > 0 {
        assert(a[0] == b[0]);
        let x = a.drop_first();
        let y = b.drop_first();
        assert forall|i: int| 0 <= i < k - 1 implies #[trigger] x[i] == y[i] by {
            assert(a[i + 1] == b[i + 1]);
        }
        law_texts_are_ordered_where_they_differ(x, y, k - 1);
    }
}
} // verus!
