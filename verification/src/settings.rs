//! The first-party settings projection: the document an owner edits instead
//! of the composition file. A document is checked field by field the way its
//! plugins would check it at mount, and written as patch entries: whole
//! configs per entry, toggles without one.

use vstd::prelude::*;
use crate::roster::config::{RosterConfig, RosterPlugin};
use crate::routing::config;
use crate::routing::config::{RoutingConfig, RoutingPlugin};
use crate::sweep::config::SweepConfig;
use crate::sweep::ignore;
use crate::sweep::ignore::IgnoreSet;
use crate::sync;
use crate::sync::config::{SyncConfig, SyncPlugin};
use crate::text;

verus! {

/// Why a document could not be read from a composition or written back: a
/// field that fails the plugin's own validation, or an entry the distribution
/// does not carry.
#[derive(Debug, Clone, PartialEq, Eq)]
pub struct SettingsError {
    pub message: String,
}

/// One entry that is configured: its switch and its whole config.
#[derive(Debug, PartialEq, Eq)]
pub struct Configurable<T> {
    pub enabled: bool,
    pub config: T,
}

/// One entry that is only switched.
#[derive(Debug, Clone, Copy, PartialEq, Eq)]
pub struct Toggle {
    pub enabled: bool,
}

/// Which entries a write touches. An app shell that mounts its own embedder
/// beneath the owner's overlay preserves that entry.
#[derive(Debug, Clone, Copy, PartialEq, Eq)]
pub enum WriteMode {
    All,
    PreserveEmbedder,
}

/// Every first-party entry with its enable switch and, for the configured
/// ones, its complete config.
#[derive(Debug, PartialEq, Eq)]
pub struct SettingsDocument<C> {
    pub connections: Toggle,
    pub fs: Configurable<C>,
    pub oauth: Configurable<C>,
    pub google: Configurable<C>,
    pub llm: Configurable<C>,
    pub embedder: Configurable<C>,
    pub transforms: Toggle,
    pub markdown: Toggle,
    pub chunker: Configurable<C>,
    pub summarizer: Configurable<C>,
    pub entities: Configurable<C>,
    pub finder: Configurable<C>,
    pub sweep: Configurable<C>,
    pub operations: Toggle,
    pub node: Configurable<C>,
    pub transport: Configurable<C>,
    pub roster: Configurable<C>,
    pub sync: Configurable<C>,
    pub routing: Configurable<C>,
}

/// One patch for an overlay: an entry, its switch, and the config that
/// replaces the overlay's, where there is one.
#[derive(Debug, PartialEq, Eq)]
pub struct Patch<C> {
    pub id: &'static str,
    pub disabled: bool,
    pub config: Option<C>,
}

/// What a patch says.
#[verifier::ext_equal]
pub struct PatchView<C> {
    pub id: Seq<char>,
    pub disabled: bool,
    pub config: Option<C>,
}

impl<C> View for Patch<C> {
    type V = PatchView<C>;

    open spec fn view(&self) -> PatchView<C> {
        PatchView { id: self.id@, disabled: self.disabled, config: self.config }
    }
}

/// The patch of a switch.
pub open spec fn toggled<C>(id: Seq<char>, toggle: Toggle) -> PatchView<C> {
    PatchView { id, disabled: !toggle.enabled, config: None }
}

/// The patch of a configured entry.
pub open spec fn configured<C>(id: Seq<char>, setting: Configurable<C>) -> PatchView<C> {
    PatchView { id, disabled: !setting.enabled, config: Some(setting.config) }
}

/// What patches say.
pub open spec fn patch_views<C>(patches: Seq<Patch<C>>) -> Seq<PatchView<C>> {
    Seq::new(patches.len(), |i: int| patches[i]@)
}

impl<C> SettingsDocument<C> {
    /// The patches before the embedder's.
    pub open spec fn first_patches(self) -> Seq<PatchView<C>> {
        seq![
            toggled("connections"@, self.connections),
            configured("fs"@, self.fs),
            configured("oauth"@, self.oauth),
            configured("google"@, self.google),
            configured("llm"@, self.llm),
        ]
    }

    /// The patches after the embedder's.
    pub open spec fn last_patches(self) -> Seq<PatchView<C>> {
        seq![
            toggled("transforms"@, self.transforms),
            toggled("markdown"@, self.markdown),
            configured("chunker"@, self.chunker),
            configured("summarizer"@, self.summarizer),
            configured("entities"@, self.entities),
            configured("finder"@, self.finder),
            configured("sweep"@, self.sweep),
            toggled("operations"@, self.operations),
            configured("node"@, self.node),
            configured("transport"@, self.transport),
            configured("roster"@, self.roster),
            configured("sync"@, self.sync),
            configured("routing"@, self.routing),
        ]
    }

    /// The document as patches.
    pub open spec fn patches(self, mode: WriteMode) -> Seq<PatchView<C>> {
        match mode {
            WriteMode::All => self.first_patches() + seq![configured("embedder"@, self.embedder)]
                + self.last_patches(),
            WriteMode::PreserveEmbedder => self.first_patches() + self.last_patches(),
        }
    }

    /// The document as patch entries for an overlay, in order: a configured
    /// entry carries its whole config and its switch; a toggle-only entry
    /// carries no config, so whatever the overlay already holds for it stays.
    pub fn into_patches(self, mode: WriteMode) -> (r: Vec<Patch<C>>)
        ensures
            patch_views(r@) == self.patches(mode),
    {
        let mut out: Vec<Patch<C>> = Vec::new();
        out.push(toggle_patch("connections", self.connections));
        out.push(config_patch("fs", self.fs));
        out.push(config_patch("oauth", self.oauth));
        out.push(config_patch("google", self.google));
        out.push(config_patch("llm", self.llm));
        proof {
            assert(patch_views(out@) =~= self.first_patches());
        }
        match mode {
            WriteMode::All => out.push(config_patch("embedder", self.embedder)),
            WriteMode::PreserveEmbedder => {},
        }
        let ghost before = patch_views(out@);
        out.push(toggle_patch("transforms", self.transforms));
        out.push(toggle_patch("markdown", self.markdown));
        out.push(config_patch("chunker", self.chunker));
        out.push(config_patch("summarizer", self.summarizer));
        out.push(config_patch("entities", self.entities));
        out.push(config_patch("finder", self.finder));
        out.push(config_patch("sweep", self.sweep));
        out.push(toggle_patch("operations", self.operations));
        out.push(config_patch("node", self.node));
        out.push(config_patch("transport", self.transport));
        out.push(config_patch("roster", self.roster));
        out.push(config_patch("sync", self.sync));
        out.push(config_patch("routing", self.routing));
        proof {
            assert(patch_views(out@) =~= before + self.last_patches());
            assert(patch_views(out@) =~= self.patches(mode));
        }
        out
    }
}

fn config_patch<C>(id: &'static str, setting: Configurable<C>) -> (r: Patch<C>)
    ensures
        r@ == configured(id@, setting),
{
    Patch { id, disabled: !setting.enabled, config: Some(setting.config) }
}

fn toggle_patch<C>(id: &'static str, setting: Toggle) -> (r: Patch<C>)
    ensures
        r@ == toggled::<C>(id@, setting),
{
    Patch { id, disabled: !setting.enabled, config: None }
}

/// A write that preserves the embedder leaves it out and nothing else, and
/// every patch but the switches carries a config.
pub proof fn law_preserving_leaves_only_the_embedder_out<C>(document: SettingsDocument<C>)
    ensures
        document.patches(WriteMode::All).len() == document.patches(
            WriteMode::PreserveEmbedder,
        ).len() + 1,
        document.patches(WriteMode::All)[5] == configured("embedder"@, document.embedder),
        document.patches(WriteMode::All).remove(5) == document.patches(
            WriteMode::PreserveEmbedder,
        ),
        forall|i: int|
            0 <= i < document.patches(WriteMode::PreserveEmbedder).len() ==> (
            #[trigger] document.patches(WriteMode::PreserveEmbedder)[i]).id != "embedder"@,
{
    let all = document.patches(WriteMode::All);
    let kept = document.patches(WriteMode::PreserveEmbedder);
    assert(all.remove(5) =~= kept);
    reveal_strlit("embedder");
    reveal_strlit("connections");
    reveal_strlit("fs");
    reveal_strlit("oauth");
    reveal_strlit("google");
    reveal_strlit("llm");
    reveal_strlit("transforms");
    reveal_strlit("markdown");
    reveal_strlit("chunker");
    reveal_strlit("summarizer");
    reveal_strlit("entities");
    reveal_strlit("finder");
    reveal_strlit("sweep");
    reveal_strlit("operations");
    reveal_strlit("node");
    reveal_strlit("transport");
    reveal_strlit("roster");
    reveal_strlit("sync");
    reveal_strlit("routing");
    assert("embedder"@.len() == 8 && "embedder"@[0] == 'e' && "embedder"@[1] == 'm');
    assert("markdown"@.len() == 8 && "markdown"@[0] == 'm');
    assert("entities"@.len() == 8 && "entities"@[1] == 'n');
    assert forall|i: int| 0 <= i < kept.len() implies (#[trigger] kept[i]).id != "embedder"@ by {
        if i < 5 {
            assert(kept[i] == document.first_patches()[i]);
        } else {
            assert(kept[i] == document.last_patches()[i - 5]);
        }
    }
}

// --- Reading ---

/// What a document without one of its entries is told.
pub open spec fn no_entry(id: Seq<char>) -> Seq<char> {
    "the distribution has no `"@ + id + "` entry"@
}

/// Where an entry stands in a composition, by its id: the first of them.
pub fn resolved_entry(entries: &Vec<String>, id: &str) -> (r: Result<usize, SettingsError>)
    ensures
        r is Ok <==> text::views(entries@).contains(id@),
        r matches Ok(at) ==> at < entries@.len() && entries@[at as int]@ == id@ && forall|i: int|
            0 <= i < at ==> (#[trigger] entries@[i])@ != id@,
        r matches Err(e) ==> e.message@ == no_entry(id@),
{
    let mut i: usize = 0;
    while i < entries.len()
        invariant
            i <= entries@.len(),
            forall|j: int| 0 <= j < i ==> (#[trigger] entries@[j])@ != id@,
        decreases entries@.len() - i,
    {
        if text::same(entries[i].as_str(), id) {
            proof {
                assert(text::views(entries@)[i as int] == id@);
            }
            return Ok(i);
        }
        i = i + 1;
    }
    let mut message = "the distribution has no `".to_owned();
    message.append(id);
    message.append("` entry");
    Err(SettingsError { message })
}

// --- Validation ---

fn refused(message: &str) -> (r: Result<(), SettingsError>)
    ensures
        r matches Err(e) && e.message@ == message@,
{
    Err(SettingsError { message: message.to_owned() })
}

/// What another's refusal says, under a name.
pub open spec fn named(name: Seq<char>, checked: Result<(), String>) -> Option<Seq<char>> {
    match checked {
        Ok(_) => None,
        Err(reason) => Some(name + ": "@ + reason@),
    }
}

fn check_named(name: &str, checked: &Result<(), String>) -> (r: Result<(), SettingsError>)
    ensures
        r is Ok <==> named(name@, *checked) is None,
        r matches Err(e) ==> named(name@, *checked) == Some(e.message@),
{
    match checked {
        Ok(_) => Ok(()),
        Err(reason) => {
            let mut message = name.to_owned();
            message.append(": ");
            message.append(reason.as_str());
            Err(SettingsError { message })
        },
    }
}

/// The first refusal of two.
pub open spec fn or_else(first: Option<Seq<char>>, second: Option<Seq<char>>) -> Option<Seq<char>> {
    match first {
        Some(message) => Some(message),
        None => second,
    }
}

/// The filesystem entry's fields.
#[derive(Debug, PartialEq, Eq)]
pub struct SourceFields {
    pub machine_id: Option<String>,
    /// What the walk's ignore patterns compile to.
    pub walk: Result<(), String>,
    /// What the configured roots come to.
    pub roots: Result<(), String>,
}

pub open spec fn empty_machine_id() -> Seq<char> {
    "fs.machine_id: may not be empty; leave it unset to use this machine's own id"@
}

pub open spec fn long_machine_id(chars_max: nat) -> Seq<char> {
    "fs.machine_id: longer than "@ + text::decimal(chars_max) + " characters"@
}

impl SourceFields {
    /// What the machine's id is refused with.
    pub open spec fn machine_refusal(self, chars_max: usize) -> Option<Seq<char>> {
        match self.machine_id {
            None => None,
            Some(id) => if text::trimmed(id@).len() == 0 {
                Some(empty_machine_id())
            } else if id@.len() > chars_max {
                Some(long_machine_id(chars_max as nat))
            } else {
                None
            },
        }
    }

    /// What the entry is refused with.
    pub open spec fn refusal(self, chars_max: usize) -> Option<Seq<char>> {
        or_else(
            self.machine_refusal(chars_max),
            or_else(named("fs.ignore"@, self.walk), named("fs.roots"@, self.roots)),
        )
    }
}

/// The filesystem entry: a machine id that is there and not too long, ignore
/// patterns that compile, and roots that are absolute.
pub fn validate_source(fields: &SourceFields, chars_max: usize) -> (r: Result<(), SettingsError>)
    ensures
        r is Ok <==> fields.refusal(chars_max) is None,
        r matches Err(e) ==> fields.refusal(chars_max) == Some(e.message@),
{
    if let Some(id) = &fields.machine_id {
        if text::trim(id.as_str()).as_str().unicode_len() == 0 {
            return refused(
                "fs.machine_id: may not be empty; leave it unset to use this machine's own id",
            );
        }
        if id.as_str().unicode_len() > chars_max {
            let mut message = "fs.machine_id: longer than ".to_owned();
            message.append(text::number(chars_max as u64).as_str());
            message.append(" characters");
            return Err(SettingsError { message });
        }
    }
    match check_named("fs.ignore", &fields.walk) {
        Err(e) => return Err(e),
        Ok(_) => {},
    }
    check_named("fs.roots", &fields.roots)
}

/// Whether a text may name an environment variable: a letter or underscore,
/// then letters, digits and underscores.
pub open spec fn names_environment(name: Seq<char>) -> bool {
    &&& name.len() > 0
    &&& !('0' <= name[0] <= '9')
    &&& forall|i: int| 0 <= i < name.len() ==> is_name_char(#[trigger] name[i])
}

/// Whether a character may stand in such a name.
pub open spec fn is_name_char(c: char) -> bool {
    ('a' <= c <= 'z') || ('A' <= c <= 'Z') || ('0' <= c <= '9') || c == '_'
}

/// Whether a text may name an environment variable.
pub fn is_environment_name(name: &str) -> (r: bool)
    ensures
        r == names_environment(name@),
{
    let chars = text::chars_of(name);
    if chars.len() == 0 {
        return false;
    }
    if '0' <= chars[0] && chars[0] <= '9' {
        return false;
    }
    let mut i: usize = 0;
    while i < chars.len()
        invariant
            i <= chars@.len(),
            chars@ == name@,
            forall|j: int| 0 <= j < i ==> is_name_char(#[trigger] chars@[j]),
        decreases chars@.len() - i,
    {
        let c = chars[i];
        let plain = ('a' <= c && c <= 'z') || ('A' <= c && c <= 'Z') || ('0' <= c && c <= '9') || c
            == '_';
        if !plain {
            proof {
                assert(!is_name_char(name@[i as int]));
            }
            return false;
        }
        i = i + 1;
    }
    true
}

/// The model entries' fields.
#[derive(Debug, PartialEq, Eq)]
pub struct ModelFields {
    pub base_url: String,
    pub api_key_env: String,
    /// Whether the embedder has a provider.
    pub embeds: bool,
    pub dimensions: Option<usize>,
}

pub open spec fn bad_key_name(name: Seq<char>) -> Seq<char> {
    "llm.api_key_env `"@ + name + "` is not a valid name"@
}

impl ModelFields {
    /// What the entries are refused with. An empty key name is a keyless
    /// endpoint, not a bad name.
    pub open spec fn refusal(self) -> Option<Seq<char>> {
        if text::trimmed(self.base_url@).len() == 0 {
            Some("llm.base_url must not be empty"@)
        } else if text::trimmed(self.api_key_env@).len() > 0 && !names_environment(
            text::trimmed(self.api_key_env@),
        ) {
            Some(bad_key_name(self.api_key_env@))
        } else if self.embeds && self.dimensions == Some(0usize) {
            Some(
                "embedder.dimensions must be greater than zero, or unset for the model's native width"@,
            )
        } else {
            None
        }
    }
}

/// The model entries: an endpoint, a key name that is one, and dimensions
/// that are not zero.
pub fn validate_models(fields: &ModelFields) -> (r: Result<(), SettingsError>)
    ensures
        r is Ok <==> fields.refusal() is None,
        r matches Err(e) ==> fields.refusal() == Some(e.message@),
{
    if text::trim(fields.base_url.as_str()).as_str().unicode_len() == 0 {
        return refused("llm.base_url must not be empty");
    }
    let key = text::trim(fields.api_key_env.as_str());
    if key.as_str().unicode_len() > 0 && !is_environment_name(key.as_str()) {
        let mut message = "llm.api_key_env `".to_owned();
        message.append(fields.api_key_env.as_str());
        message.append("` is not a valid name");
        return Err(SettingsError { message });
    }
    if fields.embeds {
        if let Some(dimensions) = fields.dimensions {
            if dimensions == 0 {
                return refused(
                    "embedder.dimensions must be greater than zero, or unset for the model's native width",
                );
            }
        }
    }
    Ok(())
}

/// What the transform entries are refused with.
pub open spec fn transforms_refusal(
    chunker_chars: usize,
    summarizer_chars: usize,
    entities_max: usize,
) -> Option<Seq<char>> {
    if chunker_chars == 0 {
        Some("chunker.target_chars must be greater than zero"@)
    } else if summarizer_chars == 0 {
        Some("summarizer.target_chars must be greater than zero"@)
    } else if entities_max == 0 {
        Some("entities.max_per_source must be greater than zero"@)
    } else {
        None
    }
}

/// The transform entries: targets and bounds that are not zero.
pub fn validate_transforms(chunker_chars: usize, summarizer_chars: usize, entities_max: usize) -> (r:
    Result<(), SettingsError>)
    ensures
        r is Ok <==> transforms_refusal(chunker_chars, summarizer_chars, entities_max) is None,
        r matches Err(e) ==> transforms_refusal(chunker_chars, summarizer_chars, entities_max)
            == Some(e.message@),
{
    if chunker_chars == 0 {
        return refused("chunker.target_chars must be greater than zero");
    }
    if summarizer_chars == 0 {
        return refused("summarizer.target_chars must be greater than zero");
    }
    if entities_max == 0 {
        return refused("entities.max_per_source must be greater than zero");
    }
    Ok(())
}

/// Where a number lies.
#[derive(Debug, Clone, Copy, PartialEq, Eq)]
pub enum NumberClass {
    NotFinite,
    Negative,
    Zero,
    /// Greater than zero, and at most one.
    UpToOne,
    AboveOne,
}

/// What a number that must be greater than zero is refused with.
pub open spec fn positive_refusal(name: Seq<char>, class: NumberClass) -> Option<Seq<char>> {
    match class {
        NumberClass::UpToOne | NumberClass::AboveOne => None,
        _ => Some(name + " must be a finite number greater than zero"@),
    }
}

/// What a number that must not be negative is refused with.
pub open spec fn nonnegative_refusal(name: Seq<char>, class: NumberClass) -> Option<Seq<char>> {
    match class {
        NumberClass::NotFinite | NumberClass::Negative => Some(
            name + " must be a finite nonnegative number"@,
        ),
        _ => None,
    }
}

fn finite_positive(name: &str, class: NumberClass) -> (r: Result<(), SettingsError>)
    ensures
        r is Ok <==> positive_refusal(name@, class) is None,
        r matches Err(e) ==> positive_refusal(name@, class) == Some(e.message@),
{
    match class {
        NumberClass::UpToOne => Ok(()),
        NumberClass::AboveOne => Ok(()),
        _ => {
            let mut message = name.to_owned();
            message.append(" must be a finite number greater than zero");
            Err(SettingsError { message })
        },
    }
}

fn finite_nonnegative(name: &str, class: NumberClass) -> (r: Result<(), SettingsError>)
    ensures
        r is Ok <==> nonnegative_refusal(name@, class) is None,
        r matches Err(e) ==> nonnegative_refusal(name@, class) == Some(e.message@),
{
    match class {
        NumberClass::NotFinite | NumberClass::Negative => {
            let mut message = name.to_owned();
            message.append(" must be a finite nonnegative number");
            Err(SettingsError { message })
        },
        _ => Ok(()),
    }
}

/// One relation kind's weight.
#[derive(Debug, PartialEq, Eq)]
pub struct KindWeight {
    pub kind: String,
    pub weight: NumberClass,
}

/// The finder entry's fields.
#[derive(Debug, PartialEq, Eq)]
pub struct FinderFields {
    /// What the finder's own query bounds come to.
    pub bounds: Result<(), String>,
    pub rrf_k: NumberClass,
    pub damping: NumberClass,
    pub epsilon: NumberClass,
    pub max_vector_distance: NumberClass,
    pub default_weight: NumberClass,
    /// Weights by relation kind, in kind order.
    pub weights: Vec<KindWeight>,
}

/// What the first bad weight from `at` on is refused with.
pub open spec fn weights_refusal(weights: Seq<KindWeight>, at: int) -> Option<Seq<char>>
    decreases weights.len() - at,
{
    if at < 0 || at >= weights.len() {
        None
    } else {
        or_else(
            nonnegative_refusal("finder.weights.by_kind."@ + weights[at].kind@, weights[at].weight),
            weights_refusal(weights, at + 1),
        )
    }
}

impl FinderFields {
    /// What the entry is refused with.
    pub open spec fn refusal(self) -> Option<Seq<char>> {
        or_else(
            match self.bounds {
                Ok(_) => None,
                Err(reason) => Some(reason@),
            },
            or_else(
                positive_refusal("finder.rrf_k"@, self.rrf_k),
                or_else(
                    nonnegative_refusal("finder.damping"@, self.damping),
                    or_else(
                        if self.damping == NumberClass::AboveOne {
                            Some("finder.damping must not exceed one"@)
                        } else {
                            None
                        },
                        or_else(
                            positive_refusal("finder.epsilon"@, self.epsilon),
                            or_else(
                                nonnegative_refusal(
                                    "finder.max_vector_distance"@,
                                    self.max_vector_distance,
                                ),
                                or_else(
                                    nonnegative_refusal(
                                        "finder.weights.default"@,
                                        self.default_weight,
                                    ),
                                    weights_refusal(self.weights@, 0),
                                ),
                            ),
                        ),
                    ),
                ),
            ),
        )
    }
}

/// The finder entry: every dial where it can work.
pub fn validate_finder(fields: &FinderFields) -> (r: Result<(), SettingsError>)
    ensures
        r is Ok <==> fields.refusal() is None,
        r matches Err(e) ==> fields.refusal() == Some(e.message@),
{
    if let Err(reason) = &fields.bounds {
        return Err(SettingsError { message: reason.clone() });
    }
    match finite_positive("finder.rrf_k", fields.rrf_k) {
        Err(e) => return Err(e),
        Ok(_) => {},
    }
    match finite_nonnegative("finder.damping", fields.damping) {
        Err(e) => return Err(e),
        Ok(_) => {},
    }
    if let NumberClass::AboveOne = fields.damping {
        return refused("finder.damping must not exceed one");
    }
    match finite_positive("finder.epsilon", fields.epsilon) {
        Err(e) => return Err(e),
        Ok(_) => {},
    }
    match finite_nonnegative("finder.max_vector_distance", fields.max_vector_distance) {
        Err(e) => return Err(e),
        Ok(_) => {},
    }
    match finite_nonnegative("finder.weights.default", fields.default_weight) {
        Err(e) => return Err(e),
        Ok(_) => {},
    }
    let ghost whole = fields.refusal();
    let mut i: usize = 0;
    while i < fields.weights.len()
        invariant
            i <= fields.weights@.len(),
            whole == fields.refusal(),
            whole == weights_refusal(fields.weights@, i as int),
        decreases fields.weights@.len() - i,
    {
        let mut name = "finder.weights.by_kind.".to_owned();
        name.append(fields.weights[i].kind.as_str());
        match finite_nonnegative(name.as_str(), fields.weights[i].weight) {
            Err(e) => return Err(e),
            Ok(_) => {},
        }
        i = i + 1;
    }
    Ok(())
}

/// What the sweep entry is refused with, given what its date parsed to.
pub open spec fn sweep_refusal(config: SweepConfig, date: Result<(), String>) -> Option<Seq<char>> {
    if config.max_fragments_per_source == 0 {
        Some("sweep.max_fragments_per_source must be greater than zero"@)
    } else if config.max_depth == 0 {
        Some("sweep.max_depth must be greater than zero"@)
    } else if config.max_content_bytes == 0 {
        Some("sweep.max_content_bytes must be greater than zero"@)
    } else {
        or_else(
            named("sweep.modified_after"@, date),
            match ignore::set_refusal(config.ignore@) {
                Some(e) => Some("sweep.ignore: "@ + e.message()),
                None => None,
            },
        )
    }
}

/// The sweep entry: caps that are not zero, a date that parses, and rules
/// that compile.
pub fn validate_sweep(config: &SweepConfig, date: &Result<(), String>) -> (r: Result<
    (),
    SettingsError,
>)
    requires
        ignore::set_fits(config.ignore@),
    ensures
        r is Ok <==> sweep_refusal(*config, *date) is None,
        r matches Err(e) ==> sweep_refusal(*config, *date) == Some(e.message@),
{
    if config.max_fragments_per_source == 0 {
        return refused("sweep.max_fragments_per_source must be greater than zero");
    }
    if config.max_depth == 0 {
        return refused("sweep.max_depth must be greater than zero");
    }
    if config.max_content_bytes == 0 {
        return refused("sweep.max_content_bytes must be greater than zero");
    }
    match check_named("sweep.modified_after", date) {
        Err(e) => return Err(e),
        Ok(_) => {},
    }
    match IgnoreSet::compile(config.ignore.as_slice()) {
        Ok(_) => Ok(()),
        Err(e) => {
            let mut message = "sweep.ignore: ".to_owned();
            message.append(e.message().as_str());
            Err(SettingsError { message })
        },
    }
}

/// The network entries' fields.
#[derive(Debug, PartialEq, Eq)]
pub struct NetworkFields {
    /// What the node's own validator says.
    pub node: Result<(), String>,
    /// What the transport's own validator says.
    pub transport: Result<(), String>,
    pub roster: RosterConfig,
    pub sync: SyncConfig,
    pub routing: RoutingConfig,
}

impl NetworkFields {
    /// What the entries are refused with.
    pub open spec fn refusal(self) -> Option<Seq<char>> {
        or_else(
            named("node"@, self.node),
            or_else(
                named("transport"@, self.transport),
                or_else(
                    if self.roster.endpoint_poll_secs == 0 {
                        Some(
                            "roster: "@
                                + "config: endpoint_poll_secs must be at least 1; zero would spin"@,
                        )
                    } else {
                        None
                    },
                    or_else(
                        match sync::config::config_refusal(self.sync) {
                            Some(reason) => Some("sync: "@ + reason),
                            None => None,
                        },
                        match config::config_refusal(self.routing) {
                            Some(reason) => Some("routing: "@ + reason),
                            None => None,
                        },
                    ),
                ),
            ),
        )
    }
}

fn prefixed(name: &str, reason: &str) -> (r: SettingsError)
    ensures
        r.message@ == name@ + reason@,
{
    let mut message = name.to_owned();
    message.append(reason);
    SettingsError { message }
}

/// The network entries checked the way their plugins check them at mount, so
/// the document can never accept what the node would refuse.
pub fn validate_network(fields: &NetworkFields) -> (r: Result<(), SettingsError>)
    ensures
        r is Ok <==> fields.refusal() is None,
        r matches Err(e) ==> fields.refusal() == Some(e.message@),
{
    match check_named("node", &fields.node) {
        Err(e) => return Err(e),
        Ok(_) => {},
    }
    match check_named("transport", &fields.transport) {
        Err(e) => return Err(e),
        Ok(_) => {},
    }
    match RosterPlugin::from_config(fields.roster) {
        Err(e) => return Err(prefixed("roster: ", e.message.as_str())),
        Ok(_) => {},
    }
    match SyncPlugin::from_config(fields.sync) {
        Err(e) => return Err(prefixed("sync: ", e.message.as_str())),
        Ok(_) => {},
    }
    match RoutingPlugin::from_config(&fields.routing) {
        Err(e) => return Err(prefixed("routing: ", e.message.as_str())),
        Ok(_) => {},
    }
    Ok(())
}

/// Every field of a document that is checked.
#[derive(Debug, PartialEq, Eq)]
pub struct DocumentFields {
    pub source: SourceFields,
    /// What the oauth plugin's own validator says.
    pub oauth: Result<(), String>,
    /// What the google connection's own validator says.
    pub google: Result<(), String>,
    pub models: ModelFields,
    pub chunker_chars: usize,
    pub summarizer_chars: usize,
    pub entities_max: usize,
    pub finder: FinderFields,
    pub sweep: SweepConfig,
    /// What the sweep's date parsed to.
    pub sweep_date: Result<(), String>,
    pub network: NetworkFields,
}

impl DocumentFields {
    /// What a document is refused with: the first bad field's reason.
    pub open spec fn refusal(self, chars_max: usize) -> Option<Seq<char>> {
        or_else(
            self.source.refusal(chars_max),
            or_else(
                named("oauth"@, self.oauth),
                or_else(
                    named("google"@, self.google),
                    or_else(
                        self.models.refusal(),
                        or_else(
                            transforms_refusal(
                                self.chunker_chars,
                                self.summarizer_chars,
                                self.entities_max,
                            ),
                            or_else(
                                self.finder.refusal(),
                                or_else(
                                    sweep_refusal(self.sweep, self.sweep_date),
                                    self.network.refusal(),
                                ),
                            ),
                        ),
                    ),
                ),
            ),
        )
    }

    /// Every field checked the way its plugin would check it at mount, so a
    /// bad value is refused before any file or fiber changes.
    /// The sweep's globs must be such as the glob compiler can take;
    /// [`Self::validate_small`] tests for that by size.
    pub fn validate(&self, chars_max: usize) -> (r: Result<(), SettingsError>)
        requires
            ignore::set_fits(self.sweep.ignore@),
        ensures
            r is Ok <==> self.refusal(chars_max) is None,
            r matches Err(e) ==> self.refusal(chars_max) == Some(e.message@),
    {
        match validate_source(&self.source, chars_max) {
            Err(e) => return Err(e),
            Ok(_) => {},
        }
        match check_named("oauth", &self.oauth) {
            Err(e) => return Err(e),
            Ok(_) => {},
        }
        match check_named("google", &self.google) {
            Err(e) => return Err(e),
            Ok(_) => {},
        }
        match validate_models(&self.models) {
            Err(e) => return Err(e),
            Ok(_) => {},
        }
        match validate_transforms(self.chunker_chars, self.summarizer_chars, self.entities_max) {
            Err(e) => return Err(e),
            Ok(_) => {},
        }
        match validate_finder(&self.finder) {
            Err(e) => return Err(e),
            Ok(_) => {},
        }
        match validate_sweep(&self.sweep, &self.sweep_date) {
            Err(e) => return Err(e),
            Ok(_) => {},
        }
        validate_network(&self.network)
    }

    /// Every field checked, where the sweep's globs are all small or its
    /// rules too many; nothing is said of other documents.
    pub fn validate_small(&self, chars_max: usize) -> (r: Option<Result<(), SettingsError>>)
        ensures
            r is Some <==> self.sweep.ignore@.len() > ignore::IGNORE_RULES_MAX || ignore::are_small(
                self.sweep.ignore@,
            ),
            r matches Some(checked) ==> (checked is Ok <==> self.refusal(chars_max) is None),
            r matches Some(Err(e)) ==> self.refusal(chars_max) == Some(e.message@),
    {
        let rules = self.sweep.ignore.as_slice();
        if rules.len() <= ignore::IGNORE_RULES_MAX as usize && !ignore::all_small(rules) {
            return None;
        }
        proof {
            if rules@.len() <= ignore::IGNORE_RULES_MAX {
                ignore::law_small_rules_fit(rules@);
            }
        }
        Some(self.validate(chars_max))
    }
}

/// A document is accepted exactly when every entry is: what the node would
/// refuse at mount is refused here.
pub proof fn law_accepted_documents_mount(fields: DocumentFields, chars_max: usize)
    ensures
        fields.refusal(chars_max) is None <==> {
            &&& fields.source.refusal(chars_max) is None
            &&& fields.oauth is Ok
            &&& fields.google is Ok
            &&& fields.models.refusal() is None
            &&& transforms_refusal(
                fields.chunker_chars,
                fields.summarizer_chars,
                fields.entities_max,
            ) is None
            &&& fields.finder.refusal() is None
            &&& sweep_refusal(fields.sweep, fields.sweep_date) is None
            &&& fields.network.refusal() is None
        },
        fields.network.refusal() is None ==> fields.network.roster.endpoint_poll_secs > 0
            && sync::config::config_refusal(fields.network.sync) is None && config::config_refusal(
            fields.network.routing,
        ) is None,
{
}

/// What a running node is told when its own operations entry is switched off.
pub open spec fn operations_required() -> Seq<char> {
    "the operations entry cannot be disabled from a running node"@
}

/// Whether a running node may be configured with a document: disabling the
/// operations entry would unload the very service answering.
pub fn check_running(operations: Toggle) -> (r: Result<(), SettingsError>)
    ensures
        r is Ok <==> operations.enabled,
        r matches Err(e) ==> e.message@ == operations_required(),
{
    if !operations.enabled {
        return refused("the operations entry cannot be disabled from a running node");
    }
    Ok(())
}


/// Whether a text says something.
pub open spec fn is_said(s: Seq<char>) -> bool {
    text::trimmed(s).len() > 0
}

/// An entry is accepted exactly when each of its dials is where it can work:
/// ids and endpoints that say something, names an environment can have,
/// targets, caps and timeouts above zero, weights that are not negative and a
/// damping of at most one.
pub proof fn law_dials_are_accepted_where_they_work(fields: DocumentFields, chars_max: usize)
    ensures
        fields.source.refusal(chars_max) is None <==> {
            &&& fields.source.machine_id matches Some(id) ==> is_said(id@) && id@.len() <= chars_max
            &&& fields.source.walk is Ok
            &&& fields.source.roots is Ok
        },
        fields.models.refusal() is None <==> {
            &&& is_said(fields.models.base_url@)
            &&& is_said(fields.models.api_key_env@) ==> names_environment(
                text::trimmed(fields.models.api_key_env@),
            )
            &&& fields.models.embeds ==> fields.models.dimensions != Some(0usize)
        },
        transforms_refusal(fields.chunker_chars, fields.summarizer_chars, fields.entities_max)
            is None <==> fields.chunker_chars > 0 && fields.summarizer_chars > 0
            && fields.entities_max > 0,
        fields.finder.refusal() is None <==> {
            let up = |class: NumberClass| class is UpToOne || class is AboveOne;
            let held = |class: NumberClass| class is Zero || class is UpToOne || class is AboveOne;
            &&& fields.finder.bounds is Ok
            &&& up(fields.finder.rrf_k)
            &&& fields.finder.damping is Zero || fields.finder.damping is UpToOne
            &&& up(fields.finder.epsilon)
            &&& held(fields.finder.max_vector_distance)
            &&& held(fields.finder.default_weight)
            &&& forall|i: int|
                0 <= i < fields.finder.weights@.len() ==> held(
                    (#[trigger] fields.finder.weights@[i]).weight,
                )
        },
        sweep_refusal(fields.sweep, fields.sweep_date) is None <==> {
            &&& fields.sweep.max_fragments_per_source > 0
            &&& fields.sweep.max_depth > 0
            &&& fields.sweep.max_content_bytes > 0
            &&& fields.sweep_date is Ok
            &&& ignore::set_refusal(fields.sweep.ignore@) is None
        },
        fields.network.refusal() is None <==> {
            &&& fields.network.node is Ok
            &&& fields.network.transport is Ok
            &&& fields.network.roster.endpoint_poll_secs > 0
            &&& fields.network.sync.interval_secs > 0
            &&& fields.network.sync.request_timeout_secs > 0
            &&& fields.network.sync.peers_per_round_max > 0
            &&& fields.network.routing.request_timeout_secs > 0
            &&& fields.network.routing.fan_out_timeout_ms > 0
            &&& fields.network.routing.fan_out_nodes_max > 0
        },
{
    lemma_weights(fields.finder.weights@, 0);
}

proof fn lemma_weights(weights: Seq<KindWeight>, at: int)
    requires
        0 <= at,
    ensures
        weights_refusal(weights, at) is None <==> forall|i: int|
            at <= i < weights.len() ==> {
                ||| (#[trigger] weights[i]).weight is Zero
                ||| weights[i].weight is UpToOne
                ||| weights[i].weight is AboveOne
            },
    decreases weights.len() - at,
{
    if at < weights.len() {
        lemma_weights(weights, at + 1);
        assert(weights[at].weight == weights[at].weight);
    }
}

/// Every entry of a document is written, each from its own setting: the
/// switch as it stands, and the whole config where the entry has one.
pub proof fn law_every_entry_is_written<C>(document: SettingsDocument<C>)
    ensures
        ({
            let all = document.patches(WriteMode::All);
            let config = |id: Seq<char>, setting: Configurable<C>|
                all.contains(
                    PatchView { id, disabled: !setting.enabled, config: Some(setting.config) },
                );
            let switch = |id: Seq<char>, toggle: Toggle|
                all.contains(PatchView { id, disabled: !toggle.enabled, config: None });
            &&& switch("connections"@, document.connections)
            &&& switch("transforms"@, document.transforms)
            &&& switch("markdown"@, document.markdown)
            &&& switch("operations"@, document.operations)
            &&& config("fs"@, document.fs)
            &&& config("oauth"@, document.oauth)
            &&& config("google"@, document.google)
            &&& config("llm"@, document.llm)
            &&& config("embedder"@, document.embedder)
            &&& config("chunker"@, document.chunker)
            &&& config("summarizer"@, document.summarizer)
            &&& config("entities"@, document.entities)
            &&& config("finder"@, document.finder)
            &&& config("sweep"@, document.sweep)
            &&& config("node"@, document.node)
            &&& config("transport"@, document.transport)
            &&& config("roster"@, document.roster)
            &&& config("sync"@, document.sync)
            &&& config("routing"@, document.routing)
            &&& all.len() == 19
        }),
{
    let all = document.patches(WriteMode::All);
    let first = document.first_patches();
    let last = document.last_patches();
    assert(all[0] == first[0]);
    assert(all[1] == first[1]);
    assert(all[2] == first[2]);
    assert(all[3] == first[3]);
    assert(all[4] == first[4]);
    assert(all[5] == configured("embedder"@, document.embedder));
    assert(all[6] == last[0]);
    assert(all[7] == last[1]);
    assert(all[8] == last[2]);
    assert(all[9] == last[3]);
    assert(all[10] == last[4]);
    assert(all[11] == last[5]);
    assert(all[12] == last[6]);
    assert(all[13] == last[7]);
    assert(all[14] == last[8]);
    assert(all[15] == last[9]);
    assert(all[16] == last[10]);
    assert(all[17] == last[11]);
    assert(all[18] == last[12]);
}
} // verus!
