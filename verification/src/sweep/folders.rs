//! Folders in the sweep. A folder source has no bytes: its content is the
//! listing of its direct children, composed from the catalog after those
//! children have landed. So folders are indexed after every file, deepest
//! level first, and a folder is dirty when the listing's digest differs
//! from the one its last run recorded.

use vstd::prelude::*;
use vstd::hash_map::StringHashMap;
use crate::order;
use crate::order::Ranked;
use crate::text;
use super::source;
use super::source::{EnumeratedSource, SourceIndexMeta};

verus! {

/// Levels a folder tree may have.
pub const LEVELS_MAX: usize = 4_096;

/// How many slashes a locator holds.
pub open spec fn slashes(locator: Seq<char>) -> nat
    decreases locator.len(),
{
    if locator.len() == 0 {
        0
    } else {
        slashes(locator.drop_last()) + if locator.last() == '/' {
            1nat
        } else {
            0
        }
    }
}

/// Whether an enumerated source is a folder.
pub fn is_folder(source: &EnumeratedSource) -> (r: bool)
    ensures
        r == source.envelope.content_type.directory,
{
    source.envelope.content_type.directory
}

/// Whether `locator` stands below `folder`.
pub open spec fn is_below(folder: Seq<char>, locator: Seq<char>) -> bool {
    folder.len() < locator.len() && locator.take(folder.len() as int) == folder
        && locator[folder.len() as int] == '/'
}

/// Whether some file stands below `folder`.
pub open spec fn holds_a_file(folder: Seq<char>, files: Seq<EnumeratedSource>) -> bool {
    exists|i: int| 0 <= i < files.len() && is_below(folder, (#[trigger] files[i]).address.locator@)
}

/// The folders below which some file stands, in order.
pub open spec fn holding(folders: Seq<EnumeratedSource>, files: Seq<EnumeratedSource>) -> Seq<
    EnumeratedSource,
>
    decreases folders.len(),
{
    if folders.len() == 0 {
        Seq::empty()
    } else if holds_a_file(folders.last().address.locator@, files) {
        holding(folders.drop_last(), files).push(folders.last())
    } else {
        holding(folders.drop_last(), files)
    }
}

fn note_ancestors(ancestors: &mut StringHashMap<bool>, locator: &str)
    ensures
        forall|k: Seq<char>| #[trigger]
            final(ancestors)@.contains_key(k) <==> (old(ancestors)@.contains_key(k) || is_below(
                k,
                locator@,
            )),
{
    let chars = text::chars_of(locator);
    let mut climbed = String::new();
    let mut i: usize = 0;
    proof {
        assert(chars@.take(0) =~= Seq::empty());
    }
    while i < chars.len()
        invariant
            chars@ == locator@,
            i <= chars@.len(),
            climbed@ == chars@.take(i as int),
            forall|k: Seq<char>| #[trigger]
                ancestors@.contains_key(k) <==> (old(ancestors)@.contains_key(k) || (is_below(
                    k,
                    locator@,
                ) && k.len() < i)),
        decreases chars@.len() - i,
    {
        let ghost before = ancestors@;
        if chars[i] == '/' {
            ancestors.insert(climbed.clone(), true);
        }
        proof {
            assert forall|k: Seq<char>| #[trigger] ancestors@.contains_key(k) <==> (old(
                ancestors,
            )@.contains_key(k) || (is_below(k, locator@) && k.len() < i + 1)) by {
                assert(before.contains_key(k) <==> (old(ancestors)@.contains_key(k) || (is_below(
                    k,
                    locator@,
                ) && k.len() < i)));
                if k.len() == i {
                    assert(is_below(k, locator@) <==> k == chars@.take(i as int)
                        && chars@[i as int] == '/');
                }
            }
            assert(chars@.take(i as int).push(chars@[i as int]) =~= chars@.take(i as int + 1));
        }
        climbed.push(chars[i]);
        i = i + 1;
    }
}

/// The folders that still hold an admitted file: a folder exists in the
/// index exactly when something under it does.
pub fn retain_holding(folders: Vec<EnumeratedSource>, files: &Vec<EnumeratedSource>) -> (r: Vec<
    EnumeratedSource,
>)
    requires
        forall|i: int|
            0 <= i < files@.len() ==> slashes((#[trigger] files@[i]).address.locator@)
                <= LEVELS_MAX,
    ensures
        r@ == holding(folders@, files@),
{
    let mut ancestors: StringHashMap<bool> = StringHashMap::new();
    let mut f: usize = 0;
    while f < files.len()
        invariant
            f <= files@.len(),
            forall|k: Seq<char>| #[trigger]
                ancestors@.contains_key(k) <==> holds_a_file(k, files@.take(f as int)),
        decreases files@.len() - f,
    {
        let ghost before = ancestors@;
        note_ancestors(&mut ancestors, files[f].address.locator.as_str());
        proof {
            let seen = files@.take(f as int);
            let now = files@.take(f as int + 1);
            assert forall|k: Seq<char>| #[trigger] ancestors@.contains_key(k) <==> holds_a_file(
                k,
                now,
            ) by {
                assert(before.contains_key(k) <==> holds_a_file(k, seen));
                if holds_a_file(k, seen) {
                    let i = choose|i: int|
                        0 <= i < seen.len() && is_below(k, (#[trigger] seen[i]).address.locator@);
                    assert(now[i] == seen[i]);
                }
                if is_below(k, files@[f as int].address.locator@) {
                    assert(now[f as int] == files@[f as int]);
                }
                if holds_a_file(k, now) {
                    let i = choose|i: int|
                        0 <= i < now.len() && is_below(k, (#[trigger] now[i]).address.locator@);
                    if i < f {
                        assert(seen[i] == now[i]);
                    }
                }
            }
        }
        f = f + 1;
    }
    proof {
        assert(files@.take(files@.len() as int) =~= files@);
    }
    let mut out: Vec<EnumeratedSource> = Vec::new();
    let ghost all = folders@;
    proof {
        assert(all.take(0) =~= Seq::empty());
    }
    for folder in it: folders
        invariant
            it.seq() == all,
            out@ == holding(all.take(it.index()), files@),
            forall|k: Seq<char>| #[trigger]
                ancestors@.contains_key(k) <==> holds_a_file(k, files@),
    {
        proof {
            assert(all.take(it.index() + 1).drop_last() =~= all.take(it.index()));
            assert(all.take(it.index() + 1).last() == folder);
        }
        if ancestors.contains_key(folder.address.locator.as_str()) {
            out.push(folder);
        }
    }
    proof {
        assert(all.take(all.len() as int) =~= all);
    }
    out
}

impl EnumeratedSource {
    /// How deep the source stands: the slashes of its locator.
    pub open spec fn depth(self) -> nat {
        slashes(self.address.locator@)
    }
}

/// How deep a source stands.
pub fn depth_of(source: &EnumeratedSource) -> (r: usize)
    ensures
        r == source.depth(),
{
    let chars = text::chars_of(source.address.locator.as_str());
    let mut count: usize = 0;
    let mut i: usize = 0;
    proof {
        assert(chars@.take(0) =~= Seq::empty());
    }
    while i < chars.len()
        invariant
            i <= chars@.len(),
            count <= i,
            count == slashes(chars@.take(i as int)),
        decreases chars@.len() - i,
    {
        proof {
            assert(chars@.take(i as int + 1).drop_last() =~= chars@.take(i as int));
            assert(chars@.take(i as int + 1).last() == chars@[i as int]);
        }
        if chars[i] == '/' {
            count = count + 1;
        }
        i = i + 1;
    }
    proof {
        assert(chars@.take(chars@.len() as int) =~= chars@);
    }
    count
}

/// Folders stand deepest first, and by locator within a depth.
impl Ranked for EnumeratedSource {
    open spec fn ranks_before(&self, other: &Self) -> bool {
        self.depth() > other.depth() || (self.depth() == other.depth() && !text::precedes(
            other.address.locator@,
            self.address.locator@,
        ))
    }

    proof fn ranks_total(a: &Self, b: &Self) {
        let x = a.address.locator@;
        let y = b.address.locator@;
        text::lemma_precedes_irreflexive(x);
        if text::precedes(x, y) && text::precedes(y, x) {
            text::lemma_precedes_transitive(x, y, x);
        }
    }

    proof fn ranks_transitive(a: &Self, b: &Self, c: &Self) {
        let x = a.address.locator@;
        let y = b.address.locator@;
        let z = c.address.locator@;
        if text::precedes(z, x) {
            text::lemma_precedes_total(x, y);
            if text::precedes(x, y) {
                text::lemma_precedes_transitive(z, x, y);
            }
        }
    }

    fn before(&self, other: &Self) -> (r: bool) {
        let mine: usize = depth_of(self);
        let theirs: usize = depth_of(other);
        mine > theirs || (mine == theirs && !text::comes_before(
            other.address.locator.as_str(),
            self.address.locator.as_str(),
        ))
    }
}

/// The folders of a list of levels, level after level.
pub open spec fn flat(levels: Seq<Vec<EnumeratedSource>>) -> Seq<EnumeratedSource>
    decreases levels.len(),
{
    if levels.len() == 0 {
        Seq::empty()
    } else {
        flat(levels.drop_last()) + levels.last()@
    }
}

/// Whether each level is one depth, and every level is deeper than the next.
pub open spec fn are_levels(levels: Seq<Vec<EnumeratedSource>>) -> bool {
    &&& forall|i: int| 0 <= i < levels.len() ==> (#[trigger] levels[i])@.len() > 0
    &&& forall|i: int, k: int|
        0 <= i < levels.len() && 0 <= k < levels[i]@.len() ==> (#[trigger] levels[i]@[k]).depth()
            == levels[i]@[0].depth()
    &&& forall|i: int, j: int|
        0 <= i < j < levels.len() ==> (#[trigger] levels[i])@[0].depth() > (
        #[trigger] levels[j])@[0].depth()
}

/// Folders grouped by depth, deepest first, each level in locator order.
/// A folder's children are one level deeper, so processing levels in this
/// order lands every child before the folder that lists it.
pub fn levels(folders: Vec<EnumeratedSource>) -> (r: Vec<Vec<EnumeratedSource>>)
    ensures
        order::is_sorting_of(flat(r@), folders@),
        are_levels(r@),
{
    let ghost given = folders@;
    let sorted = order::sorted(folders);
    let ghost all = sorted@;
    let mut levels: Vec<Vec<EnumeratedSource>> = Vec::new();
    let mut level: Vec<EnumeratedSource> = Vec::new();
    let mut depth: usize = 0;
    proof {
        assert(flat(levels@) + level@ =~= all.take(0));
    }
    for folder in it: sorted
        invariant
            it.seq() == all,
            order::in_order(all),
            flat(levels@) + level@ == all.take(it.index()),
            it.index() > 0 ==> level@.len() > 0,
            level@.len() == 0 ==> levels@.len() == 0,
            are_levels(levels@),
            forall|k: int| 0 <= k < level@.len() ==> (#[trigger] level@[k]).depth() == depth,
            forall|i: int| 0 <= i < levels@.len() ==> (#[trigger] levels@[i])@[0].depth() > depth,
    {
        let here: usize = depth_of(&folder);
        let ghost index = it.index();
        proof {
            assert(all.take(index + 1) =~= all.take(index).push(folder));
            if level@.len() > 0 {
                let last = all.take(index).last();
                assert(last == level@.last());
                assert(last == all[index - 1]);
                assert(all[index - 1].ranks_before(&all[index]));
                assert(level@[level@.len() - 1].depth() == depth);
                assert(here <= depth);
            }
        }
        let ghost before = levels@;
        let ghost held = level@;
        if level.len() > 0 && here != depth {
            let mut done: Vec<EnumeratedSource> = Vec::new();
            std::mem::swap(&mut level, &mut done);
            levels.push(done);
            proof {
                assert(levels@.drop_last() =~= before);
                assert(levels@.last() == done);
                assert(flat(levels@) =~= flat(before) + held);
                assert forall|i: int| 0 <= i < levels@.len() implies (
                #[trigger] levels@[i])@.len() > 0 by {
                    if i < before.len() {
                        assert(levels@[i] == before[i]);
                    }
                }
                assert forall|i: int, k: int|
                    0 <= i < levels@.len() && 0 <= k < levels@[i]@.len() implies (
                #[trigger] levels@[i]@[k]).depth() == levels@[i]@[0].depth() by {
                    if i < before.len() {
                        assert(levels@[i] == before[i]);
                        assert(before[i]@[k].depth() == before[i]@[0].depth());
                    } else {
                        assert(held[k].depth() == depth);
                        assert(held[0].depth() == depth);
                    }
                }
                assert forall|i: int, j: int| 0 <= i < j < levels@.len() implies (
                #[trigger] levels@[i])@[0].depth() > (#[trigger] levels@[j])@[0].depth() by {
                    assert(levels@[i] == before[i]);
                    if j < before.len() {
                        assert(levels@[j] == before[j]);
                    } else {
                        assert(held[0].depth() == depth);
                    }
                }
                assert forall|i: int| 0 <= i < levels@.len() implies (
                #[trigger] levels@[i])@[0].depth() > here by {
                    if i < before.len() {
                        assert(levels@[i] == before[i]);
                    } else {
                        assert(held[0].depth() == depth);
                    }
                }
            }
        }
        level.push(folder);
        depth = here;
        proof {
            assert(flat(levels@) + level@ =~= all.take(index + 1));
        }
    }
    let ghost before = levels@;
    let ghost held = level@;
    proof {
        assert(all.take(all.len() as int) =~= all);
    }
    if level.len() > 0 {
        levels.push(level);
        proof {
            assert(levels@.drop_last() =~= before);
            assert(flat(levels@) =~= all);
            assert forall|i: int| 0 <= i < levels@.len() implies (
            #[trigger] levels@[i])@.len() > 0 by {
                if i < before.len() {
                    assert(levels@[i] == before[i]);
                }
            }
            assert forall|i: int, k: int|
                0 <= i < levels@.len() && 0 <= k < levels@[i]@.len() implies (
            #[trigger] levels@[i]@[k]).depth() == levels@[i]@[0].depth() by {
                if i < before.len() {
                    assert(levels@[i] == before[i]);
                    assert(before[i]@[k].depth() == before[i]@[0].depth());
                } else {
                    assert(held[k].depth() == depth);
                    assert(held[0].depth() == depth);
                }
            }
            assert forall|i: int, j: int| 0 <= i < j < levels@.len() implies (
            #[trigger] levels@[i])@[0].depth() > (#[trigger] levels@[j])@[0].depth() by {
                assert(levels@[i] == before[i]);
                if j < before.len() {
                    assert(levels@[j] == before[j]);
                } else {
                    assert(held[0].depth() == depth);
                }
            }
        }
    } else {
        proof {
            assert(flat(levels@) =~= all);
        }
    }
    levels
}

proof fn lemma_slashes_of_prefix(s: Seq<char>, n: int)
    requires
        0 <= n <= s.len(),
    ensures
        slashes(s.take(n)) <= slashes(s),
    decreases s.len() - n,
{
    if n < s.len() {
        lemma_slashes_of_prefix(s, n + 1);
        assert(s.take(n + 1).drop_last() =~= s.take(n));
    } else {
        assert(s.take(n) =~= s);
    }
}

/// Children land before the folder that lists them: wherever one folder
/// stands below another, it stands in an earlier level.
pub proof fn law_children_land_first(
    levels: Seq<Vec<EnumeratedSource>>,
    child_level: int,
    child: int,
    folder_level: int,
    folder: int,
)
    requires
        are_levels(levels),
        0 <= child_level < levels.len(),
        0 <= child < levels[child_level]@.len(),
        0 <= folder_level < levels.len(),
        0 <= folder < levels[folder_level]@.len(),
        is_below(
            levels[folder_level]@[folder].address.locator@,
            levels[child_level]@[child].address.locator@,
        ),
    ensures
        child_level < folder_level,
{
    let below = levels[child_level]@[child];
    let above = levels[folder_level]@[folder];
    let locator = below.address.locator@;
    let n = above.address.locator@.len() as int;
    assert(locator.take(n + 1).drop_last() =~= locator.take(n));
    assert(locator.take(n + 1).last() == '/');
    lemma_slashes_of_prefix(locator, n + 1);
    assert(below.depth() > above.depth());
    assert(below.depth() == levels[child_level]@[0].depth());
    assert(above.depth() == levels[folder_level]@[0].depth());
    if folder_level < child_level {
        assert(levels[folder_level]@[0].depth() > levels[child_level]@[0].depth());
    }
}

/// What follows the last slash of a locator; the whole of one without.
pub open spec fn segment_after(locator: Seq<char>) -> Seq<char>
    decreases locator.len(),
{
    if locator.len() == 0 || locator.last() == '/' {
        Seq::empty()
    } else {
        segment_after(locator.drop_last()).push(locator.last())
    }
}

/// The last segment of a locator.
pub fn last_segment(locator: &str) -> (r: String)
    ensures
        r@ == segment_after(locator@),
{
    let chars = text::chars_of(locator);
    let mut out = String::new();
    let mut i: usize = 0;
    proof {
        assert(chars@.take(0) =~= Seq::empty());
    }
    while i < chars.len()
        invariant
            i <= chars@.len(),
            out@ == segment_after(chars@.take(i as int)),
        decreases chars@.len() - i,
    {
        proof {
            assert(chars@.take(i as int + 1).drop_last() =~= chars@.take(i as int));
            assert(chars@.take(i as int + 1).last() == chars@[i as int]);
        }
        if chars[i] == '/' {
            out = String::new();
        } else {
            out.push(chars[i]);
        }
        i = i + 1;
    }
    proof {
        assert(chars@.take(chars@.len() as int) =~= chars@);
    }
    out
}

/// One direct child of a folder, as the catalog knows it.
#[derive(Debug, PartialEq, Eq)]
pub struct FolderChild {
    pub name: String,
    pub content_type: String,
    pub summary: Option<String>,
}

/// What a folder's listing is composed from.
#[derive(Debug, PartialEq, Eq)]
pub struct FolderListing {
    /// The folder's name: its hint, or the last segment of its locator.
    pub name: String,
    /// The children listed, in catalog order.
    pub entries: Vec<FolderChild>,
    /// Whether the catalog holds more children than are listed.
    pub truncated: bool,
    /// Listed children carrying a summary.
    pub indexed_children: usize,
}

/// How many children carry a summary.
pub open spec fn summarized(children: Seq<FolderChild>) -> nat
    decreases children.len(),
{
    if children.len() == 0 {
        0
    } else {
        summarized(children.drop_last()) + if children.last().summary is Some {
            1nat
        } else {
            0
        }
    }
}

/// The children listed: at most `entries_max` of them.
pub open spec fn listed(children: Seq<FolderChild>, entries_max: usize) -> Seq<FolderChild> {
    if children.len() > entries_max {
        children.take(entries_max as int)
    } else {
        children
    }
}

/// What a folder's listing is composed from: its name and its cataloged
/// children, up to `entries_max` of them; one child past it marks the
/// listing truncated.
pub fn folder_listing(
    folder: &EnumeratedSource,
    children: Vec<FolderChild>,
    entries_max: usize,
) -> (r: FolderListing)
    ensures
        r.name@ == (match folder.envelope.hint {
            Some(hint) => hint@,
            None => segment_after(folder.address.locator@),
        }),
        r.entries@ == listed(children@, entries_max),
        r.truncated == (children@.len() > entries_max),
        r.indexed_children == summarized(r.entries@),
{
    let name = match &folder.envelope.hint {
        Some(hint) => hint.clone(),
        None => last_segment(folder.address.locator.as_str()),
    };
    let truncated = children.len() > entries_max;
    let mut entries = children;
    if truncated {
        entries.truncate(entries_max);
    }
    let mut indexed_children: usize = 0;
    let mut i: usize = 0;
    proof {
        assert(entries@.take(0) =~= Seq::empty());
    }
    while i < entries.len()
        invariant
            i <= entries@.len(),
            indexed_children <= i,
            indexed_children == summarized(entries@.take(i as int)),
        decreases entries@.len() - i,
    {
        proof {
            assert(entries@.take(i as int + 1).drop_last() =~= entries@.take(i as int));
            assert(entries@.take(i as int + 1).last() == entries@[i as int]);
        }
        if entries[i].summary.is_some() {
            indexed_children = indexed_children + 1;
        }
        i = i + 1;
    }
    proof {
        assert(entries@.take(entries@.len() as int) =~= entries@);
    }
    FolderListing { name, entries, truncated, indexed_children }
}

/// Whether a folder must be planned anew.
pub open spec fn folder_dirty(
    meta: Option<SourceIndexMeta>,
    digest: Seq<char>,
    sweep_shape: Seq<char>,
) -> bool {
    match meta {
        None => true,
        Some(meta) => !meta.indexed || source::text_view(meta.content_digest) != Some(digest)
            || meta.shape_stale(sweep_shape),
    }
}

/// Whether a folder must be planned anew: never indexed, interrupted,
/// listing changed, or shape-stale.
pub fn is_dirty(meta: &Option<SourceIndexMeta>, digest: &str, sweep_shape: &str) -> (r: bool)
    ensures
        r == folder_dirty(*meta, digest@, sweep_shape@),
{
    match meta {
        None => true,
        Some(meta) => {
            let content_changed = match &meta.content_digest {
                Some(recorded) => !text::same(recorded.as_str(), digest),
                None => true,
            };
            !meta.indexed || content_changed || meta.is_shape_stale(sweep_shape)
        },
    }
}


/// The folders kept are those with a file somewhere below them, in order:
/// every folder on the way to a file stays, and an empty one goes.
pub proof fn law_only_folders_with_files_stay(
    folders: Seq<EnumeratedSource>,
    files: Seq<EnumeratedSource>,
)
    ensures
        holding(folders, files) == folders.filter(
            |folder: EnumeratedSource|
                exists|i: int|
                    0 <= i < files.len() && (folder.address.locator@ + seq!['/']).is_prefix_of(
                        (#[trigger] files[i]).address.locator@,
                    ),
        ),
    decreases folders.len(),
{
    reveal(Seq::filter);
    if folders.len() > 0 {
        law_only_folders_with_files_stay(folders.drop_last(), files);
        let folder = folders.last().address.locator@;
        assert forall|i: int| 0 <= i < files.len() implies is_below(
            folder,
            (#[trigger] files[i]).address.locator@,
        ) == (folder + seq!['/']).is_prefix_of(files[i].address.locator@) by {
            lemma_below(folder, files[i].address.locator@);
        }
    }
    assert(holding(folders, files) =~= folders.filter(
        |folder: EnumeratedSource|
            exists|i: int|
                0 <= i < files.len() && (folder.address.locator@ + seq!['/']).is_prefix_of(
                    (#[trigger] files[i]).address.locator@,
                ),
    ));
}

proof fn lemma_below(folder: Seq<char>, locator: Seq<char>)
    ensures
        is_below(folder, locator) == (folder + seq!['/']).is_prefix_of(locator),
{
    let n = folder.len() as int;
    let whole = folder + seq!['/'];
    if is_below(folder, locator) {
        assert(locator.subrange(0, n + 1) =~= whole) by {
            assert forall|i: int| 0 <= i < n implies locator[i] == folder[i] by {
                assert(locator.take(n)[i] == folder[i]);
            }
        }
    }
    if whole.is_prefix_of(locator) {
        assert(locator.take(n) =~= folder) by {
            assert forall|i: int| 0 <= i < n implies locator[i] == folder[i] by {
                assert(locator.subrange(0, n + 1)[i] == whole[i]);
            }
        }
        assert(locator.subrange(0, n + 1)[n] == whole[n]);
    }
}

/// The last segment of a locator is what stands after its last slash: it
/// holds none, and what comes before it is empty or ends in one.
pub proof fn law_the_last_segment_follows_the_last_slash(locator: Seq<char>)
    ensures
        segment_after(locator).is_suffix_of(locator),
        !segment_after(locator).contains('/'),
        segment_after(locator).len() == locator.len() || locator[locator.len()
            - segment_after(locator).len() - 1] == '/',
    decreases locator.len(),
{
    if locator.len() > 0 && locator.last() != '/' {
        let front = locator.drop_last();
        law_the_last_segment_follows_the_last_slash(front);
        let before = segment_after(front);
        let all = segment_after(locator);
        assert forall|i: int| 0 <= i < all.len() implies all[i] != '/' by {
            if i < before.len() {
                assert(before[i] == all[i]);
                assert(before.contains(before[i]));
            }
        }
        assert(all =~= locator.subrange(locator.len() - all.len(), locator.len() as int)) by {
            assert(before =~= front.subrange(
                front.len() - before.len(),
                front.len() as int,
            ));
            assert forall|i: int| 0 <= i < before.len() implies before[i] == locator[
            front.len() - before.len() + i] by {
                assert(before[i] == front.subrange(
                    front.len() - before.len(),
                    front.len() as int,
                )[i]);
            }
        }
    } else {
        assert(segment_after(locator) =~= locator.subrange(
            locator.len() as int,
            locator.len() as int,
        ));
    }
}

/// A listing holds the first children, as many as it may, and counts those
/// of them that carry a summary; how deep a source stands is how many slashes
/// its locator holds.
pub proof fn law_a_listing_is_the_first_children(
    children: Seq<FolderChild>,
    entries_max: usize,
    locator: Seq<char>,
)
    ensures
        listed(children, entries_max).is_prefix_of(children),
        listed(children, entries_max).len() <= entries_max,
        listed(children, entries_max).len() == children.len() || listed(
            children,
            entries_max,
        ).len() == entries_max,
        summarized(children) == children.filter(|child: FolderChild| child.summary is Some).len(),
        slashes(locator) == locator.filter(|c: char| c == '/').len(),
    decreases children.len(), locator.len(),
{
    reveal(Seq::filter);
    if children.len() > 0 {
        law_a_listing_is_the_first_children(children.drop_last(), entries_max, locator);
    } else if locator.len() > 0 {
        law_a_listing_is_the_first_children(children, entries_max, locator.drop_last());
    }
}
} // verus!
