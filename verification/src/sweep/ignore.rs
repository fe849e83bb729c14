//! Ignore rules: the host-agnostic way to keep sources out of a node. A rule
//! is a conjunction of globs over the parts of an address and its envelope
//! that exist for every host, so the same vocabulary ignores a directory on
//! a filesystem host and a correspondent on a mail host. Rules are compiled
//! once, at the boundary; a bad glob is a configuration error, never a
//! silent non-match.

use vstd::prelude::*;
use globset::{GlobBuilder, GlobMatcher};
use crate::seam::Address;
use crate::text;
use super::source;
use super::source::{Envelope, Property};

verus! {

/// Upper bound on rules in one set.
pub const IGNORE_RULES_MAX: u32 = 1024;

/// Most characters a glob may have and still be known to compile.
pub const GLOB_CHARS_MAX: usize = 4_096;

/// Most opening braces a glob may have and still be known to compile.
pub const GLOB_BRACES_MAX: usize = 50;

// --- Globs ---

/// A compiled glob.
#[verifier::external_type_specification]
#[verifier::external_body]
pub struct ExGlobMatcher(globset::GlobMatcher);

/// The texts that a compiled glob matches.
pub uninterp spec fn accepted(matcher: GlobMatcher) -> Set<Seq<char>>;

/// The texts a well-formed glob matches. With `path_wise`, a `*` stops at a
/// slash; without, it matches anything.
pub uninterp spec fn glob_language(glob: Seq<char>, path_wise: bool) -> Set<Seq<char>>;

/// What the glob parser holds against a glob, if anything.
pub uninterp spec fn glob_refusal(glob: Seq<char>, path_wise: bool) -> Option<Seq<char>>;

/// Whether the glob compiler comes to an end on a glob: refuses it, or makes
/// of it a regular expression within the compiler's limits.
pub uninterp spec fn compiler_ends(glob: Seq<char>, path_wise: bool) -> bool;

/// How many opening braces a text has.
pub open spec fn braces(s: Seq<char>) -> nat
    decreases s.len(),
{
    if s.len() == 0 {
        0
    } else {
        braces(s.drop_last()) + if s.last() == '{' {
            1nat
        } else {
            0nat
        }
    }
}

/// Whether a glob is far within the compiler's limits by its size alone.
pub open spec fn is_small(glob: Seq<char>) -> bool {
    glob.len() <= GLOB_CHARS_MAX && braces(glob) <= GLOB_BRACES_MAX
}

/// Whether a glob can be handed to the compiler.
pub open spec fn glob_fits(glob: Seq<char>, path_wise: bool) -> bool {
    is_small(glob) || compiler_ends(glob, path_wise)
}

/// Whether a glob is far within the compiler's limits by its size alone.
pub fn is_small_glob(glob: &str) -> (r: bool)
    ensures
        r == is_small(glob@),
{
    let chars = text::chars_of(glob);
    let mut opened: usize = 0;
    let mut i: usize = 0;
    proof {
        assert(chars@.take(0) =~= Seq::empty());
    }
    while i < chars.len()
        invariant
            i <= chars@.len(),
            opened <= i,
            opened == braces(chars@.take(i as int)),
        decreases chars@.len() - i,
    {
        proof {
            assert(chars@.take(i + 1).drop_last() =~= chars@.take(i as int));
        }
        if chars[i] == '{' {
            opened = opened + 1;
        }
        i = i + 1;
    }
    proof {
        assert(chars@.take(chars@.len() as int) =~= chars@);
    }
    chars.len() <= GLOB_CHARS_MAX && opened <= GLOB_BRACES_MAX
}

/// `globset::GlobBuilder::build` with `literal_separator` set to
/// `path_wise`, and `globset::Glob::compile_matcher` of the result: the
/// matcher matches what the glob does, and a glob that does not parse is
/// refused with the reason its error kind displays. All of it is a function
/// of the glob's text and the flag, on a system whose only path separator is
/// the slash: where the backslash is one too, the crate reads it as one.
///
/// `compile_matcher` panics on a glob whose regular expression outgrows the
/// crate's limit of ten mebibytes or nests more than 250 levels deep, and
/// what was parsed is walked by recursion over its nested braces. A glob
/// within [`GLOB_CHARS_MAX`] characters and [`GLOB_BRACES_MAX`] braces stays
/// below all three: a character becomes a handful of states, a brace at most
/// three levels of nesting.
#[verifier::external_body]
fn build_glob(glob: &str, path_wise: bool) -> (r: Result<GlobMatcher, String>)
    requires
        glob_fits(glob@, path_wise),
    ensures
        r is Ok <==> glob_refusal(glob@, path_wise) is None,
        r matches Ok(matcher) ==> accepted(matcher) == glob_language(glob@, path_wise),
        r is Ok ==> compiler_ends(glob@, path_wise),
        r matches Err(reason) ==> glob_refusal(glob@, path_wise) == Some(reason@),
{
    GlobBuilder::new(glob)
        .literal_separator(path_wise)
        .build()
        .map(|glob| glob.compile_matcher())
        .map_err(|e| e.kind().to_string())
}

/// `globset::GlobMatcher::is_match`: whether the glob matches the text.
#[verifier::external_body]
fn is_match(matcher: &GlobMatcher, text: &str) -> (r: bool)
    ensures
        r == accepted(*matcher).contains(text@),
{
    matcher.is_match(text)
}

// --- Rules as written ---

/// Why a rule set does not compile.
#[derive(Debug, Clone, PartialEq, Eq)]
pub enum IgnoreError {
    EmptyRule { index: u32 },
    InvalidGlob { index: u32, field: &'static str, glob: String, reason: String },
    TooManyRules { count: u32 },
}

/// What a refused rule set is told.
#[verifier::ext_equal]
pub enum IgnoreErrorView {
    EmptyRule { index: nat },
    InvalidGlob { index: nat, field: Seq<char>, glob: Seq<char>, reason: Seq<char> },
    TooManyRules { count: nat },
}

impl View for IgnoreError {
    type V = IgnoreErrorView;

    open spec fn view(&self) -> IgnoreErrorView {
        match self {
            IgnoreError::EmptyRule { index } => IgnoreErrorView::EmptyRule { index: *index as nat },
            IgnoreError::InvalidGlob { index, field, glob, reason } => {
                IgnoreErrorView::InvalidGlob {
                    index: *index as nat,
                    field: field@,
                    glob: glob@,
                    reason: reason@,
                }
            },
            IgnoreError::TooManyRules { count } => IgnoreErrorView::TooManyRules {
                count: *count as nat,
            },
        }
    }
}

impl IgnoreErrorView {
    /// The sentence an error says.
    pub open spec fn message(self) -> Seq<char> {
        match self {
            IgnoreErrorView::EmptyRule { index } => "ignore rule "@ + text::decimal(index)
                + " names no field; a rule with no field would ignore everything"@,
            IgnoreErrorView::InvalidGlob { index, field, glob, reason } => "ignore rule "@
                + text::decimal(index) + ", field `"@ + field + "`: glob `"@ + glob
                + "` is invalid: "@ + reason,
            IgnoreErrorView::TooManyRules { count } => text::decimal(count)
                + " ignore rules exceed the limit of "@ + text::decimal(IGNORE_RULES_MAX as nat),
        }
    }
}

impl IgnoreError {
    /// The sentence the error says.
    pub fn message(&self) -> (r: String)
        ensures
            r@ == self@.message(),
    {
        match self {
            IgnoreError::EmptyRule { index } => {
                let mut out = "ignore rule ".to_owned();
                out.append(text::number(*index as u64).as_str());
                out.append(" names no field; a rule with no field would ignore everything");
                out
            },
            IgnoreError::InvalidGlob { index, field, glob, reason } => {
                let mut out = "ignore rule ".to_owned();
                out.append(text::number(*index as u64).as_str());
                out.append(", field `");
                out.append(field);
                out.append("`: glob `");
                out.append(glob.as_str());
                out.append("` is invalid: ");
                out.append(reason.as_str());
                out
            },
            IgnoreError::TooManyRules { count } => {
                let mut out = text::number(*count as u64);
                out.append(" ignore rules exceed the limit of ");
                out.append(text::number(IGNORE_RULES_MAX as u64).as_str());
                out
            },
        }
    }
}

/// One rule as written in a composition. Every field is a glob; a source is
/// ignored when **all** the fields a rule names match it, and a set ignores
/// a source when **any** of its rules does. `address` and `locator` are
/// matched path-wise (`*` stops at `/`, `**` does not); the other fields are
/// matched as plain strings (`*` matches anything).
#[derive(Debug, Clone, PartialEq, Eq)]
pub struct IgnoreRule {
    /// Glob over the rendered address, `inseam://<host>/<locator>`.
    pub address: Option<String>,
    /// Glob over the host id.
    pub host: Option<String>,
    /// Glob over the locator.
    pub locator: Option<String>,
    /// Glob over the envelope's source type.
    pub source_type: Option<String>,
    /// Glob over the content type's essence.
    pub content_type: Option<String>,
    /// Glob over the discovery hint. A source without a hint never matches
    /// this field.
    pub hint: Option<String>,
    /// Glob over each trust property rendered `key:value`; matches when any
    /// property does.
    pub property: Option<String>,
}

impl Default for IgnoreRule {
    /// A rule that names no field.
    fn default() -> (r: IgnoreRule)
        ensures
            r.names_nothing(),
    {
        IgnoreRule {
            address: None,
            host: None,
            locator: None,
            source_type: None,
            content_type: None,
            hint: None,
            property: None,
        }
    }
}

/// One field of a rule: its name, its glob, and how the glob reads a slash.
pub struct Field {
    pub name: Seq<char>,
    pub glob: Option<Seq<char>>,
    pub path_wise: bool,
}

impl IgnoreRule {
    /// Whether the rule names no field.
    pub open spec fn names_nothing(self) -> bool {
        &&& self.address is None
        &&& self.host is None
        &&& self.locator is None
        &&& self.source_type is None
        &&& self.content_type is None
        &&& self.hint is None
        &&& self.property is None
    }

    /// Whether the rule names no field.
    pub fn is_empty(&self) -> (r: bool)
        ensures
            r == self.names_nothing(),
    {
        self.address.is_none() && self.host.is_none() && self.locator.is_none()
            && self.source_type.is_none() && self.content_type.is_none() && self.hint.is_none()
            && self.property.is_none()
    }

    /// The rule's fields, in the order they are compiled.
    pub open spec fn fields(self) -> Seq<Field> {
        seq![
            Field {
                name: "address"@,
                glob: source::text_view(self.address),
                path_wise: true,
            },
            Field { name: "host"@, glob: source::text_view(self.host), path_wise: false },
            Field { name: "locator"@, glob: source::text_view(self.locator), path_wise: true },
            Field {
                name: "source_type"@,
                glob: source::text_view(self.source_type),
                path_wise: false,
            },
            Field {
                name: "content_type"@,
                glob: source::text_view(self.content_type),
                path_wise: false,
            },
            Field { name: "hint"@, glob: source::text_view(self.hint), path_wise: false },
            Field { name: "property"@, glob: source::text_view(self.property), path_wise: false },
        ]
    }

    /// What the first malformed glob of the rule is told, if there is one.
    pub open spec fn first_refusal(self, index: nat) -> Option<IgnoreErrorView> {
        refusal_from(self.fields(), 0, index)
    }
}

/// What the first malformed glob among the fields from `at` on is told.
pub open spec fn refusal_from(fields: Seq<Field>, at: int, index: nat) -> Option<IgnoreErrorView>
    decreases fields.len() - at,
{
    if at < 0 || at >= fields.len() {
        None
    } else {
        match fields[at].refusal() {
            Some(reason) => Some(
                IgnoreErrorView::InvalidGlob {
                    index,
                    field: fields[at].name,
                    glob: fields[at].glob->0,
                    reason,
                },
            ),
            None => refusal_from(fields, at + 1, index),
        }
    }
}

/// Whether the fields from `at` on can be compiled, as far as they are: up
/// to the first malformed glob.
pub open spec fn fields_fit(fields: Seq<Field>, at: int) -> bool
    decreases fields.len() - at,
{
    if at < 0 || at >= fields.len() {
        true
    } else {
        fields[at].fits() && (fields[at].refusal() is Some || fields_fit(fields, at + 1))
    }
}

impl Field {
    /// What the glob parser holds against the field's glob.
    pub open spec fn refusal(self) -> Option<Seq<char>> {
        match self.glob {
            Some(glob) => glob_refusal(glob, self.path_wise),
            None => None,
        }
    }

    /// Whether the field's glob, if it has one, can be handed to the
    /// compiler.
    pub open spec fn fits(self) -> bool {
        match self.glob {
            Some(glob) => glob_fits(glob, self.path_wise),
            None => true,
        }
    }

    /// Whether the field's glob, if it has one, is small.
    pub open spec fn is_small(self) -> bool {
        match self.glob {
            Some(glob) => is_small(glob),
            None => true,
        }
    }

    /// The texts the field accepts; a field left unset accepts any.
    pub open spec fn accepts(self, text: Seq<char>) -> bool {
        match self.glob {
            Some(glob) => glob_language(glob, self.path_wise).contains(text),
            None => true,
        }
    }
}

/// A trust property as a rule reads it.
pub open spec fn property_text(property: Property) -> Seq<char> {
    property.key@ + ":"@ + property.value@
}

impl IgnoreRule {
    /// Whether every field the rule names matches a source.
    pub open spec fn ignores(self, address: Address, envelope: Envelope) -> bool {
        let fields = self.fields();
        &&& fields[0].accepts(address@.full())
        &&& fields[1].accepts(address.host@)
        &&& fields[2].accepts(address.locator@)
        &&& fields[3].accepts(envelope.source_type@)
        &&& fields[4].accepts(envelope.content_type.essence@)
        &&& (self.hint is None || (envelope.hint is Some && fields[5].accepts(
            envelope.hint->0@,
        )))
        &&& (self.property is None || exists|i: int|
            0 <= i < envelope.properties@.len() && fields[6].accepts(
                property_text(#[trigger] envelope.properties@[i]),
            ))
    }
}

// --- Rules compiled ---

/// Whether compiled globs stand for a field as written.
spec fn stands_for(globs: Option<GlobMatcher>, field: Field) -> bool {
    match (globs, field.glob) {
        (Some(globs), Some(glob)) => accepted(globs) == glob_language(glob, field.path_wise),
        (None, None) => true,
        _ => false,
    }
}

struct CompiledRule {
    address: Option<GlobMatcher>,
    host: Option<GlobMatcher>,
    locator: Option<GlobMatcher>,
    source_type: Option<GlobMatcher>,
    content_type: Option<GlobMatcher>,
    hint: Option<GlobMatcher>,
    property: Option<GlobMatcher>,
}

fn matches_text(globs: &Option<GlobMatcher>, text: &str, field: Ghost<Field>) -> (r: bool)
    requires
        stands_for(*globs, field@),
    ensures
        r == field@.accepts(text@),
{
    match globs {
        Some(globs) => is_match(globs, text),
        None => true,
    }
}

impl CompiledRule {
    spec fn compiles(self, rule: IgnoreRule) -> bool {
        let fields = rule.fields();
        &&& stands_for(self.address, fields[0])
        &&& stands_for(self.host, fields[1])
        &&& stands_for(self.locator, fields[2])
        &&& stands_for(self.source_type, fields[3])
        &&& stands_for(self.content_type, fields[4])
        &&& stands_for(self.hint, fields[5])
        &&& stands_for(self.property, fields[6])
    }

    /// Pure conjunction: every named field must match. A field the rule
    /// leaves unset matches anything.
    fn matches(&self, address: &Address, envelope: &Envelope, rule: Ghost<IgnoreRule>) -> (r: bool)
        requires
            self.compiles(rule@),
        ensures
            r == rule@.ignores(*address, *envelope),
    {
        let ghost fields = rule@.fields();
        let full = address.full();
        let address_ok = matches_text(&self.address, full.as_str(), Ghost(fields[0]));
        let host_ok = matches_text(&self.host, address.host.as_str(), Ghost(fields[1]));
        let locator_ok = matches_text(&self.locator, address.locator.as_str(), Ghost(fields[2]));
        let source_type_ok = matches_text(
            &self.source_type,
            envelope.source_type.as_str(),
            Ghost(fields[3]),
        );
        let content_type_ok = matches_text(
            &self.content_type,
            envelope.content_type.essence.as_str(),
            Ghost(fields[4]),
        );
        let hint_ok = match (&self.hint, &envelope.hint) {
            (None, _) => true,
            (Some(_), None) => false,
            (Some(globs), Some(hint)) => is_match(globs, hint.as_str()),
        };
        let property_ok = match &self.property {
            None => true,
            Some(globs) => any_property(globs, &envelope.properties),
        };
        address_ok && host_ok && locator_ok && source_type_ok && content_type_ok && hint_ok
            && property_ok
    }
}

fn any_property(globs: &GlobMatcher, properties: &Vec<Property>) -> (r: bool)
    ensures
        r == exists|i: int|
            0 <= i < properties@.len() && accepted(*globs).contains(
                property_text(#[trigger] properties@[i]),
            ),
{
    let mut i: usize = 0;
    while i < properties.len()
        invariant
            i <= properties@.len(),
            forall|j: int|
                0 <= j < i ==> !accepted(*globs).contains(
                    property_text(#[trigger] properties@[j]),
                ),
        decreases properties@.len() - i,
    {
        let mut shown = properties[i].key.clone();
        shown.append(":");
        shown.append(properties[i].value.as_str());
        if is_match(globs, shown.as_str()) {
            proof {
                assert(shown@ == property_text(properties@[i as int]));
            }
            return true;
        }
        i = i + 1;
    }
    false
}

fn compile_glob(
    index: u32,
    field: &'static str,
    glob: &Option<String>,
    path_wise: bool,
    written: Ghost<Field>,
) -> (r: Result<Option<GlobMatcher>, IgnoreError>)
    requires
        written@ == (Field { name: field@, glob: source::text_view(*glob), path_wise }),
        written@.fits(),
    ensures
        r matches Ok(globs) ==> stands_for(globs, written@),
        r is Ok <==> written@.refusal() is None,
        r matches Err(e) ==> e@ == (IgnoreErrorView::InvalidGlob {
            index: index as nat,
            field: field@,
            glob: written@.glob->0,
            reason: written@.refusal()->0,
        }),
{
    match glob {
        None => Ok(None),
        Some(glob) => match build_glob(glob.as_str(), path_wise) {
            Ok(globs) => Ok(Some(globs)),
            Err(reason) => Err(
                IgnoreError::InvalidGlob { index, field, glob: glob.clone(), reason },
            ),
        },
    }
}

fn compile_rule(index: u32, rule: &IgnoreRule) -> (r: Result<CompiledRule, IgnoreError>)
    requires
        fields_fit(rule.fields(), 0),
    ensures
        r matches Ok(compiled) ==> compiled.compiles(*rule),
        r is Ok <==> rule.first_refusal(index as nat) is None,
        r matches Err(e) ==> rule.first_refusal(index as nat) == Some(e@),
{
    let ghost f = rule.fields();
    proof {
        reveal_with_fuel(refusal_from, 8);
        reveal_with_fuel(fields_fit, 8);
    }
    let address = match compile_glob(index, "address", &rule.address, true, Ghost(f[0])) {
        Ok(globs) => globs,
        Err(e) => return Err(e),
    };
    let host = match compile_glob(index, "host", &rule.host, false, Ghost(f[1])) {
        Ok(globs) => globs,
        Err(e) => return Err(e),
    };
    let locator = match compile_glob(index, "locator", &rule.locator, true, Ghost(f[2])) {
        Ok(globs) => globs,
        Err(e) => return Err(e),
    };
    let source_type = match compile_glob(
        index,
        "source_type",
        &rule.source_type,
        false,
        Ghost(f[3]),
    ) {
        Ok(globs) => globs,
        Err(e) => return Err(e),
    };
    let content_type = match compile_glob(
        index,
        "content_type",
        &rule.content_type,
        false,
        Ghost(f[4]),
    ) {
        Ok(globs) => globs,
        Err(e) => return Err(e),
    };
    let hint = match compile_glob(index, "hint", &rule.hint, false, Ghost(f[5])) {
        Ok(globs) => globs,
        Err(e) => return Err(e),
    };
    let property = match compile_glob(index, "property", &rule.property, false, Ghost(f[6])) {
        Ok(globs) => globs,
        Err(e) => return Err(e),
    };
    Ok(CompiledRule { address, host, locator, source_type, content_type, hint, property })
}

/// What the first bad rule from `at` on is told: an empty one that it names
/// no field, any other what its first malformed glob is told.
pub open spec fn first_bad_rule(rules: Seq<IgnoreRule>, at: int) -> Option<IgnoreErrorView>
    decreases rules.len() - at,
{
    if at < 0 || at >= rules.len() {
        None
    } else if rules[at].names_nothing() {
        Some(IgnoreErrorView::EmptyRule { index: at as nat })
    } else {
        match rules[at].first_refusal(at as nat) {
            Some(e) => Some(e),
            None => first_bad_rule(rules, at + 1),
        }
    }
}

/// Whether the rules from `at` on can be compiled, as far as they are: up to
/// the first bad one.
pub open spec fn rules_fit(rules: Seq<IgnoreRule>, at: int) -> bool
    decreases rules.len() - at,
{
    if at < 0 || at >= rules.len() || rules[at].names_nothing() {
        true
    } else {
        fields_fit(rules[at].fields(), 0) && (rules[at].first_refusal(at as nat) is Some
            || rules_fit(rules, at + 1))
    }
}

/// Whether a list of rules can be compiled: none of the globs that are looked
/// at is beyond what the glob compiler can take.
pub open spec fn set_fits(rules: Seq<IgnoreRule>) -> bool {
    rules.len() > IGNORE_RULES_MAX || rules_fit(rules, 0)
}

/// Whether every glob of a rule is small.
pub open spec fn is_small_rule(rule: IgnoreRule) -> bool {
    forall|k: int| 0 <= k < rule.fields().len() ==> (#[trigger] rule.fields()[k]).is_small()
}

/// Whether every glob of a list of rules is small.
pub open spec fn are_small(rules: Seq<IgnoreRule>) -> bool {
    forall|i: int| 0 <= i < rules.len() ==> is_small_rule(#[trigger] rules[i])
}

proof fn lemma_small_fields_fit(fields: Seq<Field>, at: int)
    requires
        0 <= at,
        forall|k: int| 0 <= k < fields.len() ==> (#[trigger] fields[k]).is_small(),
    ensures
        fields_fit(fields, at),
    decreases fields.len() - at,
{
    if at < fields.len() {
        assert(fields[at].is_small());
        lemma_small_fields_fit(fields, at + 1);
    }
}

proof fn lemma_small_rules_fit(rules: Seq<IgnoreRule>, at: int)
    requires
        0 <= at,
        are_small(rules),
    ensures
        rules_fit(rules, at),
    decreases rules.len() - at,
{
    if at < rules.len() {
        assert(is_small_rule(rules[at]));
        lemma_small_fields_fit(rules[at].fields(), 0);
        lemma_small_rules_fit(rules, at + 1);
    }
}

/// Rules whose globs are all small can be compiled.
pub proof fn law_small_rules_fit(rules: Seq<IgnoreRule>)
    requires
        are_small(rules),
    ensures
        set_fits(rules),
{
    lemma_small_rules_fit(rules, 0);
}

fn is_small_field(glob: &Option<String>) -> (r: bool)
    ensures
        r == (*glob is None || is_small(glob->0@)),
{
    match glob {
        Some(glob) => is_small_glob(glob.as_str()),
        None => true,
    }
}

/// Whether every glob of a list of rules is small.
pub fn all_small(rules: &[IgnoreRule]) -> (r: bool)
    ensures
        r == are_small(rules@),
{
    let mut i: usize = 0;
    while i < rules.len()
        invariant
            i <= rules@.len(),
            forall|j: int| 0 <= j < i ==> is_small_rule(#[trigger] rules@[j]),
        decreases rules@.len() - i,
    {
        let rule = &rules[i];
        let small = is_small_field(&rule.address) && is_small_field(&rule.host) && is_small_field(
            &rule.locator,
        ) && is_small_field(&rule.source_type) && is_small_field(&rule.content_type)
            && is_small_field(&rule.hint) && is_small_field(&rule.property);
        proof {
            let fields = rules@[i as int].fields();
            assert(small == is_small_rule(rules@[i as int])) by {
                if is_small_rule(rules@[i as int]) {
                    assert(fields[0].is_small() && fields[1].is_small() && fields[2].is_small()
                        && fields[3].is_small() && fields[4].is_small() && fields[5].is_small()
                        && fields[6].is_small());
                }
            }
        }
        if !small {
            return false;
        }
        i = i + 1;
    }
    true
}

/// Why a list of rules does not compile, if it does not.
pub open spec fn set_refusal(rules: Seq<IgnoreRule>) -> Option<IgnoreErrorView> {
    if rules.len() > IGNORE_RULES_MAX {
        Some(
            IgnoreErrorView::TooManyRules {
                count: if rules.len() > u32::MAX {
                    u32::MAX as nat
                } else {
                    rules.len()
                },
            },
        )
    } else {
        first_bad_rule(rules, 0)
    }
}

/// Whether any rule ignores a source.
pub open spec fn any_ignores(
    rules: Seq<IgnoreRule>,
    address: Address,
    envelope: Envelope,
) -> bool {
    exists|i: int| 0 <= i < rules.len() && (#[trigger] rules[i]).ignores(address, envelope)
}

/// A compiled rule set, ready to test sources against.
pub struct IgnoreSet {
    rules: Vec<CompiledRule>,
    written: Ghost<Seq<IgnoreRule>>,
}

impl View for IgnoreSet {
    type V = Seq<IgnoreRule>;

    /// The rules as written.
    closed spec fn view(&self) -> Seq<IgnoreRule> {
        self.written@
    }
}

impl IgnoreSet {
    /// Each compiled rule stands for the rule written in its place.
    pub closed spec fn wf(self) -> bool {
        &&& self.rules@.len() == self.written@.len()
        &&& forall|i: int|
            0 <= i < self.rules@.len() ==> (#[trigger] self.rules@[i]).compiles(self.written@[i])
    }

    /// Compile rules as written. Fails on an empty rule (it would ignore
    /// everything) and on any malformed glob, naming the rule and field.
    /// A glob beyond what the glob compiler can take must not be handed to
    /// it; [`Self::compile_small`] tests for that by size.
    pub fn compile(rules: &[IgnoreRule]) -> (r: Result<IgnoreSet, IgnoreError>)
        requires
            set_fits(rules@),
        ensures
            r is Ok <==> set_refusal(rules@) is None,
            r matches Ok(set) ==> set.wf() && set@ == rules@,
            r matches Err(e) ==> set_refusal(rules@) == Some(e@),
    {
        let count: u32 = if rules.len() > u32::MAX as usize {
            u32::MAX
        } else {
            rules.len() as u32
        };
        if count > IGNORE_RULES_MAX {
            return Err(IgnoreError::TooManyRules { count });
        }
        let mut compiled: Vec<CompiledRule> = Vec::new();
        let mut i: usize = 0;
        while i < rules.len()
            invariant
                i <= rules@.len(),
                rules@.len() <= IGNORE_RULES_MAX,
                compiled@.len() == i,
                forall|j: int| 0 <= j < i ==> (#[trigger] compiled@[j]).compiles(rules@[j]),
                set_refusal(rules@) == first_bad_rule(rules@, i as int),
                rules_fit(rules@, i as int),
            decreases rules@.len() - i,
        {
            let index: u32 = i as u32;
            if rules[i].is_empty() {
                return Err(IgnoreError::EmptyRule { index });
            }
            match compile_rule(index, &rules[i]) {
                Ok(rule) => {
                    compiled.push(rule);
                },
                Err(e) => return Err(e),
            }
            i = i + 1;
        }
        Ok(IgnoreSet { rules: compiled, written: Ghost(rules@) })
    }

    /// Compile rules whose globs are all small, or more rules than a set
    /// may have; nothing is done with others.
    pub fn compile_small(rules: &[IgnoreRule]) -> (r: Option<Result<IgnoreSet, IgnoreError>>)
        ensures
            r is Some <==> rules@.len() > IGNORE_RULES_MAX || are_small(rules@),
            r matches Some(compiled) ==> (compiled is Ok <==> set_refusal(rules@) is None),
            r matches Some(Ok(set)) ==> set.wf() && set@ == rules@,
            r matches Some(Err(e)) ==> set_refusal(rules@) == Some(e@),
    {
        if rules.len() <= IGNORE_RULES_MAX as usize && !all_small(rules) {
            return None;
        }
        proof {
            if rules@.len() <= IGNORE_RULES_MAX {
                law_small_rules_fit(rules@);
            }
        }
        Some(IgnoreSet::compile(rules))
    }

    pub fn is_empty(&self) -> (r: bool)
        requires
            self.wf(),
        ensures
            r == (self@.len() == 0),
    {
        self.rules.len() == 0
    }

    pub fn len(&self) -> (r: usize)
        requires
            self.wf(),
        ensures
            r == self@.len(),
    {
        self.rules.len()
    }

    /// Whether any rule ignores this source.
    pub fn matches(&self, address: &Address, envelope: &Envelope) -> (r: bool)
        requires
            self.wf(),
        ensures
            r == any_ignores(self@, *address, *envelope),
    {
        let mut i: usize = 0;
        while i < self.rules.len()
            invariant
                self.wf(),
                i <= self.rules@.len(),
                forall|j: int|
                    0 <= j < i ==> !(#[trigger] self@[j]).ignores(*address, *envelope),
            decreases self.rules@.len() - i,
        {
            if self.rules[i].matches(address, envelope, Ghost(self.written@[i as int])) {
                proof {
                    assert(self@[i as int].ignores(*address, *envelope));
                }
                return true;
            }
            i = i + 1;
        }
        false
    }
}

/// A set that compiled holds no rule that would ignore everything for want
/// of a field, and no more rules than the limit.
pub proof fn law_compiled_rules_name_a_field(rules: Seq<IgnoreRule>, i: int)
    requires
        set_refusal(rules) is None,
        0 <= i < rules.len(),
    ensures
        rules.len() <= IGNORE_RULES_MAX,
        !rules[i].names_nothing(),
        rules[i].first_refusal(i as nat) is None,
{
    lemma_no_bad_rule(rules, 0, i);
}

proof fn lemma_no_bad_rule(rules: Seq<IgnoreRule>, at: int, i: int)
    requires
        first_bad_rule(rules, at) is None,
        0 <= at <= i < rules.len(),
    ensures
        !rules[i].names_nothing(),
        rules[i].first_refusal(i as nat) is None,
    decreases i - at,
{
    if at < i {
        lemma_no_bad_rule(rules, at + 1, i);
    }
}

/// More rules never ignore fewer sources.
pub proof fn law_rules_only_add(
    rules: Seq<IgnoreRule>,
    more: Seq<IgnoreRule>,
    address: Address,
    envelope: Envelope,
)
    ensures
        any_ignores(rules + more, address, envelope) == (any_ignores(rules, address, envelope)
            || any_ignores(more, address, envelope)),
{
    let all = rules + more;
    if any_ignores(rules, address, envelope) {
        let i = choose|i: int|
            0 <= i < rules.len() && (#[trigger] rules[i]).ignores(address, envelope);
        assert(all[i] == rules[i]);
    }
    if any_ignores(more, address, envelope) {
        let i = choose|i: int|
            0 <= i < more.len() && (#[trigger] more[i]).ignores(address, envelope);
        assert(all[rules.len() + i] == more[i]);
    }
    if any_ignores(all, address, envelope) {
        let i = choose|i: int|
            0 <= i < all.len() && (#[trigger] all[i]).ignores(address, envelope);
        if i < rules.len() {
            assert(rules[i] == all[i]);
        } else {
            assert(more[i - rules.len()] == all[i]);
        }
    }
}

/// A hint rule never matches a source without a hint.
pub proof fn law_hint_rules_need_a_hint(rule: IgnoreRule, address: Address, envelope: Envelope)
    requires
        rule.hint is Some,
        envelope.hint is None,
    ensures
        !rule.ignores(address, envelope),
{
}


/// Whether a glob of a rule accepts a text; one left out accepts any.
pub open spec fn glob_takes(glob: Option<String>, path_wise: bool, text: Seq<char>) -> bool {
    glob matches Some(glob) ==> glob_language(glob@, path_wise).contains(text)
}

/// A rule ignores a source exactly when every glob it has accepts what it is
/// about: address and locator path by path, the rest as plain text, the hint
/// only where there is one, and the property where some property of the
/// source fits.
pub proof fn law_a_rule_ignores_what_all_its_globs_take(
    rule: IgnoreRule,
    address: Address,
    envelope: Envelope,
)
    ensures
        rule.ignores(address, envelope) <==> {
            &&& glob_takes(rule.address, true, address@.full())
            &&& glob_takes(rule.locator, true, address.locator@)
            &&& glob_takes(rule.host, false, address.host@)
            &&& glob_takes(rule.source_type, false, envelope.source_type@)
            &&& glob_takes(rule.content_type, false, envelope.content_type.essence@)
            &&& rule.hint is Some ==> envelope.hint is Some && glob_takes(
                rule.hint,
                false,
                envelope.hint->0@,
            )
            &&& rule.property is Some ==> exists|i: int|
                0 <= i < envelope.properties@.len() && glob_takes(
                    rule.property,
                    false,
                    (#[trigger] envelope.properties@[i]).key@ + ":"@
                        + envelope.properties@[i].value@,
                )
        },
{
    let fields = rule.fields();
    assert(fields[0].accepts(address@.full()) == glob_takes(rule.address, true, address@.full()));
    assert(fields[1].accepts(address.host@) == glob_takes(rule.host, false, address.host@));
    assert(fields[2].accepts(address.locator@) == glob_takes(rule.locator, true, address.locator@));
    assert(fields[3].accepts(envelope.source_type@) == glob_takes(
        rule.source_type,
        false,
        envelope.source_type@,
    ));
    assert(fields[4].accepts(envelope.content_type.essence@) == glob_takes(
        rule.content_type,
        false,
        envelope.content_type.essence@,
    ));
    assert(forall|text: Seq<char>| #[trigger] fields[5].accepts(text) == glob_takes(rule.hint, false, text));
    assert forall|i: int| 0 <= i < envelope.properties@.len() implies fields[6].accepts(
        property_text(#[trigger] envelope.properties@[i]),
    ) == glob_takes(
        rule.property,
        false,
        envelope.properties@[i].key@ + ":"@ + envelope.properties@[i].value@,
    ) by {}
}

/// A list of rules compiles exactly when there are no more than the limit,
/// each names a field, and the glob parser holds nothing against any glob.
pub proof fn law_rules_compile_when_each_is_sound(rules: Seq<IgnoreRule>)
    ensures
        set_refusal(rules) is None <==> {
            &&& rules.len() <= IGNORE_RULES_MAX
            &&& forall|i: int|
                0 <= i < rules.len() ==> !(#[trigger] rules[i]).names_nothing() && forall|f: int|
                    0 <= f < 7 ==> (#[trigger] rules[i].fields()[f]).refusal() is None
        },
{
    if first_bad_rule(rules, 0) is None {
        assert forall|i: int| 0 <= i < rules.len() implies !(#[trigger] rules[i]).names_nothing()
            && forall|f: int| 0 <= f < 7 ==> (#[trigger] rules[i].fields()[f]).refusal() is None by {
            lemma_no_bad_rule(rules, 0, i);
            lemma_no_field_refused(rules[i].fields(), 0, i as nat);
        }
    } else {
        lemma_some_bad_rule(rules, 0);
    }
}

proof fn lemma_no_field_refused(fields: Seq<Field>, at: int, index: nat)
    requires
        0 <= at,
    ensures
        refusal_from(fields, at, index) is None <==> forall|f: int|
            at <= f < fields.len() ==> (#[trigger] fields[f]).refusal() is None,
    decreases fields.len() - at,
{
    if at < fields.len() {
        lemma_no_field_refused(fields, at + 1, index);
        if fields[at].refusal() is None && refusal_from(fields, at + 1, index) is None {
            assert forall|f: int| at <= f < fields.len() implies (
            #[trigger] fields[f]).refusal() is None by {
                if f > at {
                    assert(at + 1 <= f);
                }
            }
        }
    }
}

proof fn lemma_some_bad_rule(rules: Seq<IgnoreRule>, at: int)
    requires
        0 <= at,
        first_bad_rule(rules, at) is Some,
    ensures
        exists|i: int|
            at <= i < rules.len() && ((#[trigger] rules[i]).names_nothing() || exists|f: int|
                0 <= f < 7 && (#[trigger] rules[i].fields()[f]).refusal() is Some),
    decreases rules.len() - at,
{
    if rules[at].names_nothing() {
    } else if rules[at].first_refusal(at as nat) is Some {
        lemma_no_field_refused(rules[at].fields(), 0, at as nat);
        assert(rules[at].fields().len() == 7);
    } else {
        lemma_some_bad_rule(rules, at + 1);
        let i = choose|i: int|
            at + 1 <= i < rules.len() && ((#[trigger] rules[i]).names_nothing() || exists|f: int|
                0 <= f < 7 && (#[trigger] rules[i].fields()[f]).refusal() is Some);
        assert(rules[i] == rules[i]);
    }
}
} // verus!
