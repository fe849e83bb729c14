//! The transform-output cache's vocabulary: what names one application of
//! one transform to one input, and whether an application's output is the
//! model's.

use vstd::prelude::*;

verus! {

/// What names one application of one transform: the content, how the
/// transform saw it, and the transform's identity.
pub open spec fn material(
    digest: Seq<char>,
    essence: Seq<char>,
    is_root: bool,
    entry: Seq<char>,
    fingerprint: Seq<char>,
) -> Seq<char> {
    "v1|"@ + digest + "|"@ + essence + "|"@ + (if is_root {
        "1"@
    } else {
        "0"@
    }) + "|"@ + entry + "|"@ + fingerprint
}

/// Whether a registration's outputs are worth caching: only LLM-hungry
/// transforms are.
pub fn caches_output(llm_call_budget: usize) -> (r: bool)
    ensures
        r == (llm_call_budget > 0),
{
    llm_call_budget > 0
}

/// What a cache key digests for applying a transform to an input with this
/// digest, mimetype and position. Everything that changes the output is in
/// it, and no run-metering dial.
pub fn key_material(
    digest: &str,
    essence: &str,
    is_root: bool,
    entry: &str,
    fingerprint: &str,
) -> (r: String)
    ensures
        r@ == material(digest@, essence@, is_root, entry@, fingerprint@),
{
    let mut out = "v1|".to_owned();
    out.append(digest);
    out.append("|");
    out.append(essence);
    out.append("|");
    out.append(
        if is_root {
            "1"
        } else {
            "0"
        },
    );
    out.append("|");
    out.append(entry);
    out.append("|");
    out.append(fingerprint);
    out
}

/// Whether a text holds no bar.
pub open spec fn barless(s: Seq<char>) -> bool {
    forall|i: int| 0 <= i < s.len() ==> s[i] != '|'
}

/// Two texts that agree, each cut at its first bar, agree before the bar and
/// after it.
proof fn lemma_cut_at_bar(a: Seq<char>, b: Seq<char>, after_a: Seq<char>, after_b: Seq<char>)
    requires
        barless(a),
        barless(b),
        a + "|"@ + after_a == b + "|"@ + after_b,
    ensures
        a == b,
        after_a == after_b,
{
    reveal_strlit("|");
    let x = a + "|"@ + after_a;
    let y = b + "|"@ + after_b;
    assert(x[a.len() as int] == '|');
    assert(y[b.len() as int] == '|');
    if a.len() < b.len() {
        assert(y[a.len() as int] == b[a.len() as int]);
    } else if b.len() < a.len() {
        assert(x[b.len() as int] == a[b.len() as int]);
    }
    assert forall|i: int| 0 <= i < a.len() implies a[i] == b[i] by {
        assert(x[i] == a[i]);
        assert(y[i] == b[i]);
    }
    assert(a =~= b);
    assert(x.len() == a.len() + 1 + after_a.len());
    assert(y.len() == b.len() + 1 + after_b.len());
    assert forall|i: int| 0 <= i < after_a.len() implies after_a[i] == after_b[i] by {
        assert(x[a.len() + 1 + i] == after_a[i]);
        assert(y[b.len() + 1 + i] == after_b[i]);
    }
    assert(after_a =~= after_b);
}

/// The key changes with every ingredient: two applications share their
/// material only when the content, the mimetype, the position, the entry
/// and the fingerprint are the same.
pub proof fn law_material_names_the_application(
    digest_a: Seq<char>,
    digest_b: Seq<char>,
    essence_a: Seq<char>,
    essence_b: Seq<char>,
    root_a: bool,
    root_b: bool,
    entry_a: Seq<char>,
    entry_b: Seq<char>,
    fingerprint_a: Seq<char>,
    fingerprint_b: Seq<char>,
)
    requires
        barless(digest_a),
        barless(digest_b),
        barless(essence_a),
        barless(essence_b),
        barless(entry_a),
        barless(entry_b),
        material(digest_a, essence_a, root_a, entry_a, fingerprint_a) == material(
            digest_b,
            essence_b,
            root_b,
            entry_b,
            fingerprint_b,
        ),
    ensures
        digest_a == digest_b,
        essence_a == essence_b,
        root_a == root_b,
        entry_a == entry_b,
        fingerprint_a == fingerprint_b,
{
    reveal_strlit("v1|");
    reveal_strlit("1");
    reveal_strlit("0");
    let flag_a = if root_a {
        "1"@
    } else {
        "0"@
    };
    let flag_b = if root_b {
        "1"@
    } else {
        "0"@
    };
    let whole_a = material(digest_a, essence_a, root_a, entry_a, fingerprint_a);
    let whole_b = material(digest_b, essence_b, root_b, entry_b, fingerprint_b);
    let identity_a = entry_a + "|"@ + fingerprint_a;
    let identity_b = entry_b + "|"@ + fingerprint_b;
    let place_a = flag_a + "|"@ + identity_a;
    let place_b = flag_b + "|"@ + identity_b;
    let seen_a = essence_a + "|"@ + place_a;
    let seen_b = essence_b + "|"@ + place_b;
    let rest_a = digest_a + "|"@ + seen_a;
    let rest_b = digest_b + "|"@ + seen_b;
    assert(whole_a =~= "v1|"@ + rest_a);
    assert(whole_b =~= "v1|"@ + rest_b);
    assert(rest_a =~= whole_a.skip(3));
    assert(rest_b =~= whole_b.skip(3));
    lemma_cut_at_bar(digest_a, digest_b, seen_a, seen_b);
    lemma_cut_at_bar(essence_a, essence_b, place_a, place_b);
    lemma_cut_at_bar(flag_a, flag_b, identity_a, identity_b);
    lemma_cut_at_bar(entry_a, entry_b, fingerprint_a, fingerprint_b);
    if root_a != root_b {
        assert(flag_a[0] == flag_b[0]);
    }
}

/// How the calls of one granted LLM handle went.
#[derive(Debug, Clone, Copy, PartialEq, Eq)]
pub struct ObservedCalls {
    pub completed: usize,
    pub failed: usize,
}

impl ObservedCalls {
    pub fn new() -> (r: ObservedCalls)
        ensures
            r.completed == 0,
            r.failed == 0,
    {
        ObservedCalls { completed: 0, failed: 0 }
    }

    /// Whether the output is the model's: at least one call answered and
    /// none failed (a failed call means the transform fell back somewhere).
    pub fn output_is_the_models(&self) -> (r: bool)
        ensures
            r == (self.completed >= 1 && self.failed == 0),
    {
        self.completed >= 1 && self.failed == 0
    }

    /// One more call went as `answered` says.
    pub fn record(&mut self, answered: bool)
        requires
            old(self).completed < usize::MAX,
            old(self).failed < usize::MAX,
        ensures
            final(self).completed == old(self).completed + if answered {
                1int
            } else {
                0
            },
            final(self).failed == old(self).failed + if answered {
                0int
            } else {
                1
            },
    {
        if answered {
            self.completed = self.completed + 1;
        } else {
            self.failed = self.failed + 1;
        }
    }
}

} // verus!
