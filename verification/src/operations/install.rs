//! Planning a runtime plugin install: the uploaded file set becomes a
//! checked plan (confined relative paths, exactly one artifact, its manifest
//! beside it) before anything touches disk.

use vstd::prelude::*;
use crate::seam::{ErrorView, SeamError};
use crate::text;

verus! {

/// One uploaded file.
#[derive(Debug, PartialEq, Eq)]
pub struct PluginFile {
    pub path: String,
    pub bytes: Vec<u8>,
}

/// One file to write, its path relative to the install directory.
#[derive(Debug, PartialEq, Eq)]
pub struct PlannedFile {
    pub relative: String,
    /// The names the path is made of, outermost first.
    pub segments: Vec<String>,
    pub bytes: Vec<u8>,
}

/// A checked upload: what lands in the plugin directory and which file is
/// the artifact the composition entry points at.
#[derive(Debug, PartialEq, Eq)]
pub struct InstallPlan {
    pub files: Vec<PlannedFile>,
    /// The place of the `.wasm` among `files`.
    pub artifact: usize,
}

// --- Paths ---

/// Whether a character is a slash.
pub open spec fn slash() -> spec_fn(char) -> bool {
    |c: char| c == '/'
}

/// A path cut at its slashes.
pub open spec fn cut_path(path: Seq<char>) -> Seq<Seq<char>> {
    text::pieces(path, slash())
}

/// The names among the pieces of a path: neither empty nor a dot.
pub open spec fn names(pieces: Seq<Seq<char>>) -> Seq<Seq<char>>
    decreases pieces.len(),
{
    if pieces.len() == 0 {
        Seq::empty()
    } else if pieces.last().len() == 0 || pieces.last() == "."@ {
        names(pieces.drop_last())
    } else {
        names(pieces.drop_last()).push(pieces.last())
    }
}

/// The names a path is made of, outermost first.
pub open spec fn segments_of(path: Seq<char>) -> Seq<Seq<char>> {
    names(cut_path(path))
}

/// Whether a path is made only of plain names: not absolute, no `..`, and no
/// leading `.`, so it cannot leave the directory it is joined to. Only the
/// slash parts a path here; a system where the backslash or a drive prefix
/// counts too is not covered.
pub open spec fn is_confined(path: Seq<char>) -> bool {
    &&& path.len() > 0
    &&& path[0] != '/'
    &&& cut_path(path)[0] != "."@
    &&& forall|i: int| 0 <= i < cut_path(path).len() ==> #[trigger] cut_path(path)[i] != ".."@
}

/// A path up to the end of its last name: a trailing slash or dot names
/// nothing.
pub open spec fn body(path: Seq<char>) -> Seq<char>
    decreases path.len(),
{
    if path.len() > 0 && path.last() == '/' {
        body(path.drop_last())
    } else if path.len() > 1 && path.last() == '.' && path[path.len() - 2] == '/' {
        body(path.drop_last())
    } else {
        path
    }
}

/// Whether a file name is an artifact's: it has the extension `wasm`.
pub open spec fn is_wasm(name: Seq<char>) -> bool {
    name.len() > ".wasm"@.len() && text::ends(name, ".wasm"@)
}

/// A name with its artifact extension replaced by the manifest's.
pub open spec fn manifest_name(name: Seq<char>) -> Seq<char> {
    (if name.len() >= ".wasm"@.len() {
        name.take(name.len() - ".wasm"@.len())
    } else {
        name
    }) + ".manifest.toml"@
}

/// The names of the manifest beside an artifact.
pub open spec fn manifest_segments(segments: Seq<Seq<char>>) -> Seq<Seq<char>> {
    segments.drop_last().push(manifest_name(segments.last()))
}

// --- Refusals ---

pub open spec fn no_files() -> Seq<char> {
    "a plugin upload carries no files"@
}

pub open spec fn too_many_files(count: nat, limit: nat) -> Seq<char> {
    "a plugin upload may carry at most "@ + text::decimal(limit) + " files; this one has "@
        + text::decimal(count)
}

pub open spec fn too_many_bytes(total: nat, limit: nat) -> Seq<char> {
    "a plugin upload may carry at most "@ + text::decimal(limit) + " bytes; this one has "@
        + text::decimal(total)
}

pub open spec fn empty_path() -> Seq<char> {
    "a plugin file has an empty path"@
}

pub open spec fn unconfined(path: Seq<char>) -> Seq<char> {
    "plugin file path `"@ + path + "` must be relative and stay inside the plugin directory"@
}

pub open spec fn named_twice(path: Seq<char>) -> Seq<char> {
    "the upload names `"@ + path + "` twice"@
}

pub open spec fn no_artifact() -> Seq<char> {
    "the upload has no `.wasm` artifact"@
}

pub open spec fn several_artifacts(count: nat) -> Seq<char> {
    "the upload has "@ + text::decimal(count)
        + " `.wasm` artifacts; a plugin directory holds one"@
}

pub open spec fn no_manifest(path: Seq<char>) -> Seq<char> {
    "the upload has no manifest `"@ + manifest_name(body(path)) + "` beside the artifact `"@ + path
        + "`"@
}

/// The bytes of the first `n` files.
pub open spec fn bytes_of(files: Seq<PluginFile>, n: nat) -> nat
    decreases n,
{
    if n == 0 {
        0
    } else {
        bytes_of(files, (n - 1) as nat) + files[n - 1].bytes@.len()
    }
}

/// Whether one of the first `n` files has the same path, however it is
/// written.
pub open spec fn named_before(files: Seq<PluginFile>, at: int) -> bool {
    exists|i: int|
        0 <= i < at && segments_of((#[trigger] files[i]).path@) == segments_of(files[at].path@)
}

/// What one file is refused with.
pub open spec fn file_refusal(files: Seq<PluginFile>, at: int) -> Option<Seq<char>> {
    if files[at].path@.len() == 0 {
        Some(empty_path())
    } else if !is_confined(files[at].path@) {
        Some(unconfined(files[at].path@))
    } else if named_before(files, at) {
        Some(named_twice(files[at].path@))
    } else {
        None
    }
}

/// What the first bad file from `at` on is refused with.
pub open spec fn refusal_from(files: Seq<PluginFile>, at: int) -> Option<Seq<char>>
    decreases files.len() - at,
{
    if at < 0 || at >= files.len() {
        None
    } else {
        match file_refusal(files, at) {
            Some(message) => Some(message),
            None => refusal_from(files, at + 1),
        }
    }
}

/// Whether a file is an artifact.
pub open spec fn is_artifact(file: PluginFile) -> bool {
    is_wasm(segments_of(file.path@).last())
}

/// The places of the artifacts among the first `n` files.
pub open spec fn artifacts(files: Seq<PluginFile>, n: nat) -> Seq<int>
    decreases n,
{
    if n == 0 {
        Seq::empty()
    } else if is_artifact(files[n - 1]) {
        artifacts(files, (n - 1) as nat).push(n - 1)
    } else {
        artifacts(files, (n - 1) as nat)
    }
}

/// Whether the manifest beside an artifact is among the files.
pub open spec fn has_manifest(files: Seq<PluginFile>, artifact: int) -> bool {
    exists|i: int|
        0 <= i < files.len() && segments_of((#[trigger] files[i]).path@) == manifest_segments(
            segments_of(files[artifact].path@),
        )
}

/// What an upload is refused with, if it is.
pub open spec fn upload_refusal(files: Seq<PluginFile>, files_max: usize, bytes_max: u64) -> Option<
    Seq<char>,
> {
    let wasm = artifacts(files, files.len());
    if files.len() == 0 {
        Some(no_files())
    } else if files.len() > files_max {
        Some(too_many_files(files.len(), files_max as nat))
    } else if bytes_of(files, files.len()) > bytes_max {
        Some(too_many_bytes(bytes_of(files, files.len()), bytes_max as nat))
    } else if refusal_from(files, 0) is Some {
        refusal_from(files, 0)
    } else if wasm.len() == 0 {
        Some(no_artifact())
    } else if wasm.len() > 1 {
        Some(several_artifacts(wasm.len()))
    } else if !has_manifest(files, wasm[0]) {
        Some(no_manifest(files[wasm[0]].path@))
    } else {
        None
    }
}

/// Whether a planned file is an uploaded one, confined.
pub open spec fn plans_file(planned: PlannedFile, file: PluginFile) -> bool {
    &&& is_confined(file.path@)
    &&& planned.relative == file.path
    &&& text::views(planned.segments@) == segments_of(file.path@)
    &&& planned.bytes == file.bytes
}

fn cut(path: &str) -> (r: Vec<String>)
    ensures
        text::views(r@) == cut_path(path@),
        r@.len() >= 1,
{
    let chars = text::chars_of(path);
    let mut marks: Vec<bool> = Vec::new();
    let mut i: usize = 0;
    while i < chars.len()
        invariant
            i <= chars@.len(),
            marks@.len() == i,
            forall|j: int| 0 <= j < i ==> marks@[j] == slash()(chars@[j]),
        decreases chars@.len() - i,
    {
        marks.push(chars[i] == '/');
        i = i + 1;
    }
    proof {
        text::lemma_pieces_nonempty(path@, slash());
    }
    let pieces = text::cut(&chars, &marks, Ghost(slash()));
    proof {
        assert(text::views(pieces@).len() == pieces@.len());
    }
    pieces
}

fn names_among(pieces: Vec<String>) -> (r: Vec<String>)
    ensures
        text::views(r@) == names(text::views(pieces@)),
{
    let ghost all = text::views(pieces@);
    let ghost given = pieces@;
    let mut out: Vec<String> = Vec::new();
    proof {
        assert(text::views(out@) =~= names(all.take(0)));
    }
    for piece in it: pieces
        invariant
            it.seq() == given,
            all == text::views(given),
            text::views(out@) == names(all.take(it.index())),
    {
        let ghost before = out@;
        let ghost index = it.index();
        let ghost shown = piece@;
        proof {
            assert(all.take(index + 1).drop_last() =~= all.take(index));
            assert(all.take(index + 1).last() == shown);
        }
        if piece.as_str().unicode_len() > 0 && !text::same(piece.as_str(), ".") {
            out.push(piece);
            proof {
                assert(text::views(out@) =~= text::views(before).push(shown));
            }
        }
    }
    proof {
        assert(all.take(all.len() as int) =~= all);
    }
    out
}

/// The names of a relative path made only of plain names: nothing absolute,
/// no `..`, no leading `.`, so it cannot leave the install directory. Only
/// the slash parts a path; a backslash or a drive prefix is part of a name.
pub fn confined_path(path: &str) -> (r: Result<Vec<String>, SeamError>)
    ensures
        r is Ok <==> is_confined(path@),
        r matches Ok(segments) ==> text::views(segments@) == segments_of(path@),
        r matches Err(e) ==> e@ == ErrorView::Refused(
            if path@.len() == 0 {
                empty_path()
            } else {
                unconfined(path@)
            },
        ),
{
    if path.unicode_len() == 0 {
        return Err(SeamError::Refused("a plugin file has an empty path".to_owned()));
    }
    let chars = text::chars_of(path);
    let pieces = cut(path);
    let mut confined = chars[0] != '/' && !text::same(pieces[0].as_str(), ".");
    proof {
        assert(text::views(pieces@)[0] == pieces@[0]@);
    }
    let mut i: usize = 0;
    while i < pieces.len()
        invariant
            i <= pieces@.len(),
            text::views(pieces@) == cut_path(path@),
            confined == (path@[0] != '/' && cut_path(path@)[0] != "."@ && forall|j: int|
                0 <= j < i ==> #[trigger] cut_path(path@)[j] != ".."@),
        decreases pieces@.len() - i,
    {
        proof {
            assert(text::views(pieces@)[i as int] == pieces@[i as int]@);
        }
        if text::same(pieces[i].as_str(), "..") {
            confined = false;
        }
        i = i + 1;
    }
    if !confined {
        let mut message = "plugin file path `".to_owned();
        message.append(path);
        message.append("` must be relative and stay inside the plugin directory");
        return Err(SeamError::Refused(message));
    }
    Ok(names_among(pieces))
}

/// Whether two lists of names are one.
fn same_names(a: &Vec<String>, b: &Vec<String>) -> (r: bool)
    ensures
        r == (text::views(a@) == text::views(b@)),
{
    if a.len() != b.len() {
        proof {
            assert(text::views(a@).len() != text::views(b@).len());
        }
        return false;
    }
    let mut i: usize = 0;
    while i < a.len()
        invariant
            i <= a@.len(),
            a@.len() == b@.len(),
            forall|j: int| 0 <= j < i ==> (#[trigger] a@[j])@ == b@[j]@,
        decreases a@.len() - i,
    {
        if !text::same(a[i].as_str(), b[i].as_str()) {
            proof {
                assert(text::views(a@)[i as int] != text::views(b@)[i as int]);
            }
            return false;
        }
        i = i + 1;
    }
    proof {
        assert(text::views(a@) =~= text::views(b@));
    }
    true
}

fn is_planned(files: &Vec<PlannedFile>, segments: &Vec<String>) -> (r: bool)
    ensures
        r == exists|i: int|
            0 <= i < files@.len() && text::views((#[trigger] files@[i]).segments@) == text::views(
                segments@,
            ),
{
    let mut i: usize = 0;
    while i < files.len()
        invariant
            i <= files@.len(),
            forall|j: int|
                0 <= j < i ==> text::views((#[trigger] files@[j]).segments@) != text::views(
                    segments@,
                ),
        decreases files@.len() - i,
    {
        if same_names(&files[i].segments, segments) {
            return true;
        }
        i = i + 1;
    }
    false
}

fn names_artifact(name: &str) -> (r: bool)
    ensures
        r == is_wasm(name@),
{
    proof {
        reveal_strlit(".wasm");
    }
    let chars = text::chars_of(name);
    let n: usize = chars.len();
    if n <= 5 {
        return false;
    }
    let suffix = text::text_between(&chars, n - 5, n);
    proof {
        assert(suffix@ =~= name@.skip(n as int - 5));
    }
    text::same(suffix.as_str(), ".wasm")
}

fn with_manifest_extension(name: &str) -> (r: String)
    ensures
        r@ == manifest_name(name@),
{
    proof {
        reveal_strlit(".wasm");
    }
    let chars = text::chars_of(name);
    let kept: usize = if chars.len() >= 5 {
        chars.len() - 5
    } else {
        chars.len()
    };
    let mut out = text::text_between(&chars, 0, kept);
    proof {
        assert(out@ =~= name@.take(kept as int));
        assert(name@.take(name@.len() as int) =~= name@);
    }
    out.append(".manifest.toml");
    out
}

fn body_of(path: &str) -> (r: String)
    ensures
        r@ == body(path@),
{
    let chars = text::chars_of(path);
    let mut n: usize = chars.len();
    proof {
        assert(chars@.take(n as int) =~= path@);
    }
    while n > 0 && (chars[n - 1] == '/' || (n > 1 && chars[n - 1] == '.' && chars[n - 2] == '/'))
        invariant
            n <= chars@.len(),
            body(path@) == body(chars@.take(n as int)),
        decreases n,
    {
        proof {
            assert(chars@.take(n as int).drop_last() =~= chars@.take(n - 1));
        }
        n = n - 1;
    }
    let out = text::text_between(&chars, 0, n);
    proof {
        assert(out@ =~= chars@.take(n as int));
    }
    out
}

/// A confined path has a name.
proof fn lemma_confined_path_has_a_name(path: Seq<char>)
    requires
        is_confined(path),
    ensures
        segments_of(path).len() > 0,
{
    lemma_first_piece(path);
    lemma_names_of_pieces(cut_path(path));
}

proof fn lemma_names_of_pieces(pieces: Seq<Seq<char>>)
    requires
        pieces.len() > 0,
        pieces[0].len() > 0,
        pieces[0] != "."@,
    ensures
        names(pieces).len() > 0,
    decreases pieces.len(),
{
    if pieces.len() > 1 {
        assert(pieces.drop_last()[0] == pieces[0]);
        lemma_names_of_pieces(pieces.drop_last());
    }
}

/// A path that does not start with a slash has a first piece.
proof fn lemma_first_piece(path: Seq<char>)
    requires
        path.len() > 0,
        path[0] != '/',
    ensures
        cut_path(path).len() > 0,
        cut_path(path)[0].len() > 0,
    decreases path.len(),
{
    text::lemma_pieces_nonempty(path, slash());
    let front = path.drop_last();
    text::lemma_pieces_nonempty(front, slash());
    if front.len() > 0 {
        lemma_first_piece(front);
        let before = cut_path(front);
        if path.last() == '/' {
            assert(cut_path(path) == before.push(Seq::empty()));
        } else {
            assert(cut_path(path) == before.drop_last().push(before.last().push(path.last())));
        }
    } else {
        assert(front =~= Seq::empty());
        assert(slash()(path.last()) == false);
        assert(cut_path(front) =~= seq![Seq::<char>::empty()]);
        assert(cut_path(path)[0] =~= seq![path.last()]);
    }
}

fn refused(message: String) -> (r: Result<InstallPlan, SeamError>)
    ensures
        r matches Err(e) && e@ == ErrorView::Refused(message@),
{
    Err(SeamError::Refused(message))
}

fn sum_bytes(files: &Vec<PluginFile>) -> (r: u64)
    requires
        bytes_of(files@, files@.len()) <= u64::MAX,
    ensures
        r == bytes_of(files@, files@.len()),
{
    let mut total: u64 = 0;
    let mut i: usize = 0;
    while i < files.len()
        invariant
            i <= files@.len(),
            bytes_of(files@, files@.len()) <= u64::MAX,
            total == bytes_of(files@, i as nat),
        decreases files@.len() - i,
    {
        proof {
            lemma_bytes_grow(files@, (i + 1) as nat, files@.len());
        }
        total = total + files[i].bytes.len() as u64;
        i = i + 1;
    }
    total
}

proof fn lemma_bytes_grow(files: Seq<PluginFile>, n: nat, m: nat)
    requires
        n <= m,
    ensures
        bytes_of(files, n) <= bytes_of(files, m),
    decreases m - n,
{
    if n < m {
        lemma_bytes_grow(files, n, (m - 1) as nat);
    }
}

fn plan_files(files: Vec<PluginFile>) -> (r: Result<Vec<PlannedFile>, SeamError>)
    ensures
        r is Ok <==> refusal_from(files@, 0) is None,
        r matches Ok(planned) ==> planned@.len() == files@.len() && forall|i: int|
            0 <= i < files@.len() ==> plans_file(#[trigger] planned@[i], files@[i]),
        r matches Err(e) ==> e@ == ErrorView::Refused(refusal_from(files@, 0)->0),
{
    let ghost all = files@;
    let mut planned: Vec<PlannedFile> = Vec::new();
    for file in it: files
        invariant
            it.seq() == all,
            all == files@,
            planned@.len() == it.index(),
            refusal_from(all, 0) == refusal_from(all, it.index()),
            forall|i: int|
                0 <= i < it.index() ==> plans_file(#[trigger] planned@[i], all[i]),
    {
        let ghost index = it.index();
        proof {
            assert(all[index] == file);
        }
        let segments = match confined_path(file.path.as_str()) {
            Ok(segments) => segments,
            Err(e) => {
                return Err(e);
            },
        };
        let twice = is_planned(&planned, &segments);
        proof {
            if twice {
                let i = choose|i: int|
                    0 <= i < planned@.len() && text::views((#[trigger] planned@[i]).segments@)
                        == text::views(segments@);
                assert(plans_file(planned@[i], all[i]));
                assert(segments_of(all[i].path@) == segments_of(all[index].path@));
            } else {
                assert forall|i: int| 0 <= i < index implies segments_of(
                    (#[trigger] all[i]).path@,
                ) != segments_of(all[index].path@) by {
                    assert(plans_file(planned@[i], all[i]));
                }
            }
            assert(twice == named_before(all, index));
        }
        if twice {
            let mut message = "the upload names `".to_owned();
            message.append(file.path.as_str());
            message.append("` twice");
            return Err(SeamError::Refused(message));
        }
        planned.push(PlannedFile { relative: file.path, segments, bytes: file.bytes });
    }
    Ok(planned)
}

proof fn lemma_artifacts(files: Seq<PluginFile>, n: nat)
    ensures
        artifacts(files, n).len() <= n,
        forall|k: int|
            0 <= k < artifacts(files, n).len() ==> 0 <= #[trigger] artifacts(files, n)[k] < n
                && is_artifact(files[artifacts(files, n)[k]]),
    decreases n,
{
    if n > 0 {
        lemma_artifacts(files, (n - 1) as nat);
    }
}

/// The artifacts of an upload: none is nothing to mount, several is ambiguous
/// about what the entry should point at.
fn find_artifacts(planned: &Vec<PlannedFile>, files: Ghost<Seq<PluginFile>>) -> (r: (usize, usize))
    requires
        planned@.len() == files@.len(),
        forall|i: int|
            0 <= i < files@.len() ==> plans_file(#[trigger] planned@[i], files@[i]),
    ensures
        r.0 == artifacts(files@, files@.len()).len(),
        r.0 > 0 ==> r.1 == artifacts(files@, files@.len()).last() && r.1 < files@.len(),
{
    let mut count: usize = 0;
    let mut last: usize = 0;
    let mut i: usize = 0;
    while i < planned.len()
        invariant
            i <= planned@.len(),
            planned@.len() == files@.len(),
            forall|k: int|
                0 <= k < files@.len() ==> plans_file(#[trigger] planned@[k], files@[k]),
            count <= i,
            count == artifacts(files@, i as nat).len(),
            count > 0 ==> last == artifacts(files@, i as nat).last() && last < i,
        decreases planned@.len() - i,
    {
        proof {
            assert(plans_file(planned@[i as int], files@[i as int]));
            lemma_confined_path_has_a_name(files@[i as int].path@);
            let shown = text::views(planned@[i as int].segments@);
            assert(shown.last() == planned@[i as int].segments@.last()@);
        }
        let names = &planned[i].segments;
        let name = &names[names.len() - 1];
        if names_artifact(name.as_str()) {
            count = count + 1;
            last = i;
        }
        i = i + 1;
    }
    (count, last)
}

/// The install an upload comes to, or why it is refused: nothing is written
/// until a plan exists.
pub fn plan(files: Vec<PluginFile>, files_max: usize, bytes_max: u64) -> (r: Result<
    InstallPlan,
    SeamError,
>)
    requires
        bytes_of(files@, files@.len()) <= u64::MAX,
    ensures
        r is Ok <==> upload_refusal(files@, files_max, bytes_max) is None,
        r matches Ok(plan) ==> plan.files@.len() == files@.len() && (forall|i: int|
            0 <= i < files@.len() ==> plans_file(#[trigger] plan.files@[i], files@[i]))
            && plan.artifact == artifacts(files@, files@.len())[0],
        r matches Err(e) ==> e@ == ErrorView::Refused(
            upload_refusal(files@, files_max, bytes_max)->0,
        ),
{
    let ghost all = files@;
    if files.len() == 0 {
        return refused("a plugin upload carries no files".to_owned());
    }
    if files.len() > files_max {
        let mut message = "a plugin upload may carry at most ".to_owned();
        message.append(text::number(files_max as u64).as_str());
        message.append(" files; this one has ");
        message.append(text::number(files.len() as u64).as_str());
        return refused(message);
    }
    let total: u64 = sum_bytes(&files);
    if total > bytes_max {
        let mut message = "a plugin upload may carry at most ".to_owned();
        message.append(text::number(bytes_max).as_str());
        message.append(" bytes; this one has ");
        message.append(text::number(total).as_str());
        return refused(message);
    }
    let planned = match plan_files(files) {
        Ok(planned) => planned,
        Err(e) => return Err(e),
    };
    let (count, artifact) = find_artifacts(&planned, Ghost(all));
    if count == 0 {
        return refused("the upload has no `.wasm` artifact".to_owned());
    }
    if count > 1 {
        let mut message = "the upload has ".to_owned();
        message.append(text::number(count as u64).as_str());
        message.append(" `.wasm` artifacts; a plugin directory holds one");
        return refused(message);
    }
    let ghost path = all[artifact as int].path@;
    proof {
        lemma_artifacts(all, all.len());
        assert(plans_file(planned@[artifact as int], all[artifact as int]));
        lemma_confined_path_has_a_name(path);
        assert(is_artifact(all[artifact as int]));
    }
    let manifest = manifest_of(&planned[artifact].segments);
    let found = is_planned(&planned, &manifest);
    proof {
        if found {
            let i = choose|i: int|
                0 <= i < planned@.len() && text::views((#[trigger] planned@[i]).segments@)
                    == text::views(manifest@);
            assert(plans_file(planned@[i], all[i]));
            assert(segments_of(all[i].path@) == manifest_segments(segments_of(path)));
        } else {
            assert forall|i: int| 0 <= i < all.len() implies segments_of((#[trigger] all[i]).path@)
                != manifest_segments(segments_of(path)) by {
                assert(plans_file(planned@[i], all[i]));
            }
        }
        assert(found == has_manifest(all, artifact as int));
    }
    if !found {
        let mut message = "the upload has no manifest `".to_owned();
        let kept = body_of(planned[artifact].relative.as_str());
        message.append(with_manifest_extension(kept.as_str()).as_str());
        message.append("` beside the artifact `");
        message.append(planned[artifact].relative.as_str());
        message.append("`");
        return refused(message);
    }
    Ok(InstallPlan { files: planned, artifact })
}

fn manifest_of(segments: &Vec<String>) -> (r: Vec<String>)
    requires
        segments@.len() > 0,
        is_wasm(text::views(segments@).last()),
    ensures
        text::views(r@) == manifest_segments(text::views(segments@)),
{
    let last: usize = segments.len() - 1;
    let ghost all = text::views(segments@);
    let mut out: Vec<String> = Vec::new();
    let mut i: usize = 0;
    while i < last
        invariant
            i <= last,
            last == segments@.len() - 1,
            out@.len() == i,
            forall|j: int| 0 <= j < i ==> (#[trigger] out@[j])@ == segments@[j]@,
        decreases last - i,
    {
        out.push(segments[i].clone());
        i = i + 1;
    }
    proof {
        assert(all.last() == segments@[last as int]@);
    }
    out.push(with_manifest_extension(segments[last].as_str()));
    proof {
        assert(text::views(out@) =~= manifest_segments(all));
    }
    out
}

/// What is planned stays inside the install directory: every path of a plan
/// is made only of plain names, no two of them are one, and the artifact's
/// manifest is beside it.
pub proof fn law_plans_are_confined(files: Seq<PluginFile>, files_max: usize, bytes_max: u64, i: int)
    requires
        upload_refusal(files, files_max, bytes_max) is None,
        0 <= i < files.len(),
    ensures
        is_confined(files[i].path@),
        !named_before(files, i),
        artifacts(files, files.len()).len() == 1,
        has_manifest(files, artifacts(files, files.len())[0]),
{
    lemma_no_refusal(files, 0, i);
}

proof fn lemma_no_refusal(files: Seq<PluginFile>, at: int, i: int)
    requires
        refusal_from(files, at) is None,
        0 <= at <= i < files.len(),
    ensures
        file_refusal(files, i) is None,
    decreases i - at,
{
    if at < i {
        lemma_no_refusal(files, at + 1, i);
    }
}


proof fn lemma_every_artifact(files: Seq<PluginFile>, n: nat)
    requires
        n <= files.len(),
    ensures
        forall|at: int| #[trigger]
            artifacts(files, n).contains(at) <==> 0 <= at < n && is_artifact(files[at]),
        artifacts(files, n).no_duplicates(),
    decreases n,
{
    if n > 0 {
        lemma_every_artifact(files, (n - 1) as nat);
        let before = artifacts(files, (n - 1) as nat);
        let all = artifacts(files, n);
        assert(!before.contains(n - 1));
        assert forall|at: int| #[trigger] all.contains(at) <==> 0 <= at < n && is_artifact(
            files[at],
        ) by {
            if before.contains(at) {
                let i = before.index_of(at);
                assert(all[i] == at);
            }
            if all.contains(at) {
                let i = all.index_of(at);
                if i < before.len() {
                    assert(before[i] == at);
                    assert(before.contains(at));
                }
            }
            if at == n - 1 && is_artifact(files[at]) {
                assert(all[before.len() as int] == at);
            }
        }
    }
}

proof fn lemma_some_refusal(files: Seq<PluginFile>, at: int)
    requires
        0 <= at,
    ensures
        refusal_from(files, at) matches Some(message) ==> exists|i: int|
            at <= i < files.len() && #[trigger] file_refusal(files, i) == Some(message) && forall|
                j: int,
            |
                at <= j < i ==> (#[trigger] file_refusal(files, j)) is None,
    decreases files.len() - at,
{
    if at < files.len() && file_refusal(files, at) is None {
        lemma_some_refusal(files, at + 1);
        if let Some(message) = refusal_from(files, at) {
            let i = choose|i: int|
                at + 1 <= i < files.len() && #[trigger] file_refusal(files, i) == Some(message)
                    && forall|j: int| at + 1 <= j < i ==> (#[trigger] file_refusal(files, j)) is None;
            assert forall|j: int| at <= j < i implies (#[trigger] file_refusal(files, j)) is None by {}
            assert(file_refusal(files, i) == Some(message));
        }
    } else if at < files.len() {
        assert(file_refusal(files, at) == refusal_from(files, at));
    }
}

/// Whether a path may be written: it has a name, and no way out of the
/// directory it is joined to.
pub open spec fn stays_inside(path: Seq<char>) -> bool {
    &&& path.len() > 0
    &&& path[0] != '/'
    &&& text::pieces(path, |c: char| c == '/')[0] != "."@
    &&& !text::pieces(path, |c: char| c == '/').contains(".."@)
}

/// Whether the file at `at` is the one artifact of an upload, with its
/// manifest beside it: the file of the same names but that its last has the
/// manifest's ending for the artifact's.
pub open spec fn is_the_artifact(files: Seq<PluginFile>, at: int) -> bool {
    &&& 0 <= at < files.len()
    &&& is_wasm(segments_of(files[at].path@).last())
    &&& forall|i: int|
        0 <= i < files.len() && is_wasm(segments_of((#[trigger] files[i]).path@).last()) ==> i == at
    &&& exists|i: int|
        0 <= i < files.len() && segments_of((#[trigger] files[i]).path@) == segments_of(
            files[at].path@,
        ).drop_last().push(manifest_name(segments_of(files[at].path@).last()))
}

/// An upload is accepted exactly when it has files, no more of them and no
/// more bytes than it may, every path stays inside the plugin's directory and
/// stands once, and there is one artifact, with its manifest beside it.
pub proof fn law_an_upload_is_accepted_when_it_is_whole(
    files: Seq<PluginFile>,
    files_max: usize,
    bytes_max: u64,
)
    ensures
        upload_refusal(files, files_max, bytes_max) is None <==> {
            &&& 0 < files.len() <= files_max
            &&& files.map_values(|file: PluginFile| file.bytes@).flatten().len() <= bytes_max
            &&& forall|i: int|
                0 <= i < files.len() ==> stays_inside((#[trigger] files[i]).path@)
            &&& forall|i: int, j: int|
                0 <= i < j < files.len() ==> segments_of((#[trigger] files[i]).path@)
                    != segments_of((#[trigger] files[j]).path@)
            &&& exists|at: int| #[trigger] is_the_artifact(files, at)
        },
{
    lemma_bytes_are_flattened(files, files.len());
    assert(files.take(files.len() as int) =~= files);
    lemma_every_artifact(files, files.len());
    lemma_some_refusal(files, 0);
    let wasm = artifacts(files, files.len());
    let whole = (forall|i: int|
        0 <= i < files.len() ==> stays_inside((#[trigger] files[i]).path@)) && (forall|
        i: int,
        j: int,
    |
        0 <= i < j < files.len() ==> segments_of((#[trigger] files[i]).path@) != segments_of(
            (#[trigger] files[j]).path@,
        ));
    assert forall|path: Seq<char>| #[trigger] stays_inside(path) == is_confined(path) by {
        lemma_stays_inside(path);
    }
    assert(refusal_from(files, 0) is None <==> whole) by {
        if refusal_from(files, 0) is None {
            assert forall|i: int| 0 <= i < files.len() implies stays_inside(
                (#[trigger] files[i]).path@,
            ) by {
                lemma_no_refusal(files, 0, i);
            }
            assert forall|i: int, j: int| 0 <= i < j < files.len() implies segments_of(
                (#[trigger] files[i]).path@,
            ) != segments_of((#[trigger] files[j]).path@) by {
                lemma_no_refusal(files, 0, j);
                assert(!named_before(files, j));
            }
        }
        if whole && refusal_from(files, 0) is Some {
            let i = choose|i: int|
                0 <= i < files.len() && #[trigger] file_refusal(files, i) == refusal_from(files, 0);
            assert(stays_inside(files[i].path@));
            assert(named_before(files, i));
            let k = choose|k: int|
                0 <= k < i && segments_of((#[trigger] files[k]).path@) == segments_of(
                    files[i].path@,
                );
            assert(segments_of(files[k].path@) != segments_of(files[i].path@));
        }
    }
    if wasm.len() == 1 && has_manifest(files, wasm[0]) {
        let at = wasm[0];
        assert(wasm.contains(at));
        assert forall|i: int|
            0 <= i < files.len() && is_wasm(
                segments_of((#[trigger] files[i]).path@).last(),
            ) implies i == at by {
            assert(is_artifact(files[i]));
            assert(wasm.contains(i));
            let k = wasm.index_of(i);
            assert(wasm[k] == i);
        }
        assert(is_the_artifact(files, at));
    }
    if exists|at: int| #[trigger] is_the_artifact(files, at) {
        let at = choose|at: int| #[trigger] is_the_artifact(files, at);
        assert(is_artifact(files[at]));
        assert(wasm.contains(at));
        assert forall|k: int| 0 <= k < wasm.len() implies #[trigger] wasm[k] == at by {
            assert(wasm.contains(wasm[k]));
            assert(is_artifact(files[wasm[k]]));
        }
        if wasm.len() > 1 {
            assert(wasm[0] != wasm[1]);
        }
        assert(wasm[0] == at);
        assert(has_manifest(files, wasm[0]));
    }
}

proof fn lemma_stays_inside(path: Seq<char>)
    ensures
        stays_inside(path) == is_confined(path),
{
    assert(slash() =~= (|c: char| c == '/'));
    let parts = cut_path(path);
    assert(parts == text::pieces(path, |c: char| c == '/'));
    if parts.contains(".."@) {
        let i = parts.index_of(".."@);
        assert(cut_path(path)[i] == ".."@);
    }
}

proof fn lemma_bytes_are_flattened(files: Seq<PluginFile>, n: nat)
    requires
        n <= files.len(),
    ensures
        bytes_of(files, n) == files.take(n as int).map_values(
            |file: PluginFile| file.bytes@,
        ).flatten().len(),
    decreases n,
{
    let read = |file: PluginFile| file.bytes@;
    let all = files.take(n as int).map_values(read);
    if n > 0 {
        let front = files.take(n - 1).map_values(read);
        lemma_bytes_are_flattened(files, (n - 1) as nat);
        assert(all =~= front.push(files[n - 1].bytes@));
        front.lemma_flatten_push(files[n - 1].bytes@);
    } else {
        assert(all =~= Seq::empty());
    }
}

/// The names of a path are its pieces without the empty ones and the dots,
/// in order, and a manifest's name is its artifact's with the other ending.
pub proof fn law_names_are_the_pieces_that_name(path: Seq<char>, stem: Seq<char>)
    ensures
        segments_of(path) == text::pieces(path, |c: char| c == '/').filter(
            |piece: Seq<char>| piece.len() > 0 && piece != "."@,
        ),
        manifest_name(stem + ".wasm"@) == stem + ".manifest.toml"@,
        stem.len() > 0 ==> is_wasm(stem + ".wasm"@),
{
    assert(slash() =~= (|c: char| c == '/'));
    lemma_names(cut_path(path));
    let name = stem + ".wasm"@;
    assert(name.take(name.len() - ".wasm"@.len()) =~= stem);
    assert(name.skip(name.len() - ".wasm"@.len()) =~= ".wasm"@);
    assert(name.subrange(name.len() - ".wasm"@.len(), name.len() as int) =~= ".wasm"@);
}

proof fn lemma_names(pieces: Seq<Seq<char>>)
    ensures
        names(pieces) == pieces.filter(|piece: Seq<char>| piece.len() > 0 && piece != "."@),
    decreases pieces.len(),
{
    reveal(Seq::filter);
    if pieces.len() > 0 {
        lemma_names(pieces.drop_last());
    }
}
} // verus!
