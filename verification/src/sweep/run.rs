//! One run, step by step: what is done next, and what a stop, asked for at
//! any checkpoint, leaves undone.

use vstd::prelude::*;
use super::decide;
use super::report::IndexPhase;

verus! {

/// A paused run polls four times per second for at most 24 hours.
pub const PAUSE_POLLS_MAX: u32 = 345_600;

/// How long a paused run sleeps between polls.
pub const PAUSE_POLL_MS: u64 = 250;

/// What a run's owner commands.
#[derive(Debug, Clone, Copy, PartialEq, Eq)]
pub enum IndexControl {
    Continue,
    Pause,
    Stop,
}

/// What a checkpoint does with a command.
#[derive(Debug, Clone, Copy, PartialEq, Eq)]
pub enum CheckpointStep {
    /// Go on with the run.
    Go,
    /// Stop the run.
    Halt,
    /// Sleep, then ask again.
    Wait,
}

/// One checkpoint: the polls it has made.
#[derive(Debug, Clone, Copy, PartialEq, Eq)]
pub struct Checkpoint {
    pub polls: u32,
}

/// What a checkpoint that has polled `polls` times does with a command: a
/// pause that has lasted the limit is a stop.
pub open spec fn checkpoint_step(polls: nat, control: IndexControl) -> CheckpointStep {
    match control {
        IndexControl::Continue => CheckpointStep::Go,
        IndexControl::Stop => CheckpointStep::Halt,
        IndexControl::Pause => if polls + 1 >= PAUSE_POLLS_MAX {
            CheckpointStep::Halt
        } else {
            CheckpointStep::Wait
        },
    }
}

impl Checkpoint {
    pub fn new() -> (r: Checkpoint)
        ensures
            r.polls == 0,
    {
        Checkpoint { polls: 0 }
    }

    /// What one answer of the owner means.
    pub fn answered(&mut self, control: IndexControl) -> (r: CheckpointStep)
        requires
            old(self).polls < PAUSE_POLLS_MAX,
        ensures
            r == checkpoint_step(old(self).polls as nat, control),
            final(self).polls == old(self).polls + 1,
            r == CheckpointStep::Wait ==> final(self).polls < PAUSE_POLLS_MAX,
    {
        self.polls = self.polls + 1;
        match control {
            IndexControl::Continue => CheckpointStep::Go,
            IndexControl::Stop => CheckpointStep::Halt,
            IndexControl::Pause => if self.polls >= PAUSE_POLLS_MAX {
                CheckpointStep::Halt
            } else {
                CheckpointStep::Wait
            },
        }
    }
}

/// What a checkpoint answers to a list of commands, from the poll `from` on:
/// `None` while it still waits.
pub open spec fn checkpoint_over(commands: Seq<IndexControl>, from: nat) -> Option<bool>
    decreases commands.len() - from,
{
    if from >= commands.len() {
        None
    } else {
        match checkpoint_step(from, commands[from as int]) {
            CheckpointStep::Go => Some(false),
            CheckpointStep::Halt => Some(true),
            CheckpointStep::Wait => checkpoint_over(commands, from + 1),
        }
    }
}

/// A forgotten pause ends: however the owner answers, a checkpoint has
/// settled by its last allowed poll, and an owner that only ever pauses
/// stops the run.
pub proof fn law_a_pause_ends(commands: Seq<IndexControl>, from: nat)
    requires
        commands.len() >= PAUSE_POLLS_MAX,
        from < PAUSE_POLLS_MAX,
    ensures
        checkpoint_over(commands, from) is Some,
        (forall|i: int| from <= i < commands.len() ==> commands[i] == IndexControl::Pause)
            ==> checkpoint_over(commands, from) == Some(true),
    decreases PAUSE_POLLS_MAX - from,
{
    if checkpoint_step(from, commands[from as int]) == CheckpointStep::Wait {
        law_a_pause_ends(commands, from + 1);
    }
}

/// Where a run stands between two steps.
#[derive(Debug, Clone, Copy, PartialEq, Eq)]
pub enum Stage {
    Preparing,
    Resolving,
    Reembedding,
    BeforeEnumerating,
    Enumerating,
    BeforeCataloging,
    Deciding,
    BeforeIndexing,
    Deferring,
    IndexingFiles,
    Reconciling,
    MiningVocabulary,
    /// A level of folders; the number of levels already indexed.
    IndexingFolders(usize),
    BeforeFinalizing,
    Settling,
    Completing,
    Done,
}

/// What to do next.
#[derive(Debug, Clone, Copy, PartialEq, Eq)]
pub enum Step {
    /// Publish progress and honor the owner's command.
    Checkpoint(IndexPhase),
    /// Find the connection stewarding the host.
    ResolveSteward,
    /// Re-populate the search table under the declared embedding identity.
    Reembed,
    /// Enumerate the scope and admit what no rule ignores.
    Enumerate,
    /// Decide on every file and write the catalog rows.
    Decide,
    /// Drop the vector index until the run has landed.
    DeferVectorIndex,
    /// Plan, land and embed the chosen files.
    IndexFiles,
    /// Remove cataloged sources that enumeration no longer sees.
    ReconcileVanished,
    /// Mine the vocabulary; in full only when the run changed something.
    MineVocabulary { changed: bool },
    /// Decide on, plan, land and embed one level of folders.
    IndexLevel(usize),
    /// Collect orphans, rebuild the text index, gather the meters.
    Settle,
    /// The run is over.
    Finish,
}

/// What a step came to.
#[derive(Debug, Clone, Copy, PartialEq, Eq)]
pub enum Outcome {
    /// It is done.
    Went,
    /// A checkpoint, or indexing with checkpoints in it, answered whether to
    /// stop.
    Stop(bool),
    /// Enumeration admitted this many levels of folders.
    Levels(usize),
    /// This many files were chosen, in an index that held this many.
    Chosen { deep: usize, indexed_before: u64 },
    /// The files indexed, and whether the owner stopped the run among them.
    Files { indexed: usize, stopped: bool },
    /// The cataloged sources removed.
    Removed(usize),
}

/// One run's state.
#[derive(Debug, Clone, Copy, PartialEq, Eq)]
pub struct Run {
    pub stage: Stage,
    pub stopped: bool,
    /// An embedding migration blocks search and has to be resolved first.
    pub reembed_pending: bool,
    pub vocabulary_enabled: bool,
    pub levels: usize,
    /// Whether enough files were chosen that the vector index is dropped
    /// first.
    pub defers: bool,
    /// Whether the run indexed or removed anything.
    pub changed: bool,
}

impl Run {
    pub fn new(reembed_pending: bool, vocabulary_enabled: bool) -> (r: Run)
        ensures
            r == (Run {
                stage: Stage::Preparing,
                stopped: false,
                reembed_pending,
                vocabulary_enabled,
                levels: 0,
                defers: false,
                changed: false,
            }),
            r.wf(),
    {
        Run {
            stage: Stage::Preparing,
            stopped: false,
            reembed_pending,
            vocabulary_enabled,
            levels: 0,
            defers: false,
            changed: false,
        }
    }

    /// What a run keeps: a stopped run is never at a step that removes
    /// sources, mines or indexes, and a level it indexes is one there is.
    pub open spec fn wf(self) -> bool {
        match self.stage {
            Stage::IndexingFolders(level) => !self.stopped && level < self.levels,
            Stage::BeforeFinalizing => true,
            Stage::Settling => true,
            Stage::Completing => true,
            Stage::Done => true,
            Stage::Reembedding => !self.stopped && self.reembed_pending,
            Stage::MiningVocabulary => !self.stopped && self.vocabulary_enabled,
            Stage::Deferring => !self.stopped && self.defers,
            _ => !self.stopped,
        }
    }

    /// What to do at a stage.
    pub open spec fn step_view(self) -> Step {
        match self.stage {
            Stage::Preparing => Step::Checkpoint(IndexPhase::Preparing),
            Stage::Resolving => Step::ResolveSteward,
            Stage::Reembedding => Step::Reembed,
            Stage::BeforeEnumerating => Step::Checkpoint(IndexPhase::Enumerating),
            Stage::Enumerating => Step::Enumerate,
            Stage::BeforeCataloging => Step::Checkpoint(IndexPhase::Cataloging),
            Stage::Deciding => Step::Decide,
            Stage::BeforeIndexing => Step::Checkpoint(IndexPhase::Indexing),
            Stage::Deferring => Step::DeferVectorIndex,
            Stage::IndexingFiles => Step::IndexFiles,
            Stage::Reconciling => Step::ReconcileVanished,
            Stage::MiningVocabulary => Step::MineVocabulary { changed: self.changed },
            Stage::IndexingFolders(level) => Step::IndexLevel(level),
            Stage::BeforeFinalizing => Step::Checkpoint(IndexPhase::Finalizing),
            Stage::Settling => Step::Settle,
            Stage::Completing => Step::Checkpoint(IndexPhase::Complete),
            Stage::Done => Step::Finish,
        }
    }

    /// The stage from level `level` of the folders on.
    pub open spec fn folders_from(self, level: usize) -> Stage {
        if level < self.levels {
            Stage::IndexingFolders(level)
        } else {
            Stage::BeforeFinalizing
        }
    }

    /// The run after a checkpoint before anything was indexed: stopped, all
    /// it still does is complete.
    pub open spec fn after_check(self, stop: bool, next: Stage) -> Run {
        if stop {
            Run { stage: Stage::Completing, stopped: true, ..self }
        } else {
            Run { stage: next, ..self }
        }
    }

    /// Whether an outcome is one the step can come to.
    pub open spec fn fits(self, outcome: Outcome) -> bool {
        match self.stage {
            Stage::Preparing => outcome is Stop,
            Stage::BeforeEnumerating => outcome is Stop,
            Stage::Enumerating => outcome is Levels,
            Stage::BeforeCataloging => outcome is Stop,
            Stage::Deciding => outcome is Chosen,
            Stage::BeforeIndexing => outcome is Stop,
            Stage::IndexingFiles => outcome is Files,
            Stage::Reconciling => outcome is Removed,
            Stage::IndexingFolders(_) => outcome is Stop,
            Stage::BeforeFinalizing => outcome is Stop,
            Stage::Completing => outcome is Stop,
            Stage::Done => false,
            _ => outcome is Went,
        }
    }

    /// The run after a step.
    pub open spec fn after(self, outcome: Outcome) -> Run {
        match (self.stage, outcome) {
            (Stage::Preparing, Outcome::Stop(stop)) => self.after_check(stop, Stage::Resolving),
            (Stage::Resolving, _) => Run {
                stage: if self.reembed_pending {
                    Stage::Reembedding
                } else {
                    Stage::BeforeEnumerating
                },
                ..self
            },
            (Stage::Reembedding, _) => Run { stage: Stage::BeforeEnumerating, ..self },
            (Stage::BeforeEnumerating, Outcome::Stop(stop)) => self.after_check(
                stop,
                Stage::Enumerating,
            ),
            (Stage::Enumerating, Outcome::Levels(levels)) => Run {
                stage: Stage::BeforeCataloging,
                levels,
                ..self
            },
            (Stage::BeforeCataloging, Outcome::Stop(stop)) => self.after_check(
                stop,
                Stage::Deciding,
            ),
            (Stage::Deciding, Outcome::Chosen { deep, indexed_before }) => Run {
                stage: Stage::BeforeIndexing,
                defers: deep > 0 && decide::held(deep * 100) >= decide::held(
                    indexed_before * decide::VECTOR_INDEX_DEFER_PERCENT,
                ),
                ..self
            },
            (Stage::BeforeIndexing, Outcome::Stop(stop)) => self.after_check(
                stop,
                if self.defers {
                    Stage::Deferring
                } else {
                    Stage::IndexingFiles
                },
            ),
            (Stage::Deferring, _) => Run { stage: Stage::IndexingFiles, ..self },
            (Stage::IndexingFiles, Outcome::Files { indexed, stopped }) => Run {
                stage: if stopped {
                    Stage::BeforeFinalizing
                } else {
                    Stage::Reconciling
                },
                stopped,
                changed: indexed > 0,
                ..self
            },
            (Stage::Reconciling, Outcome::Removed(removed)) => Run {
                stage: if self.vocabulary_enabled {
                    Stage::MiningVocabulary
                } else {
                    self.folders_from(0)
                },
                changed: self.changed || removed > 0,
                ..self
            },
            (Stage::MiningVocabulary, _) => Run { stage: self.folders_from(0), ..self },
            (Stage::IndexingFolders(level), Outcome::Stop(stop)) => Run {
                stage: if stop {
                    Stage::BeforeFinalizing
                } else {
                    self.folders_from((level + 1) as usize)
                },
                stopped: stop,
                ..self
            },
            (Stage::BeforeFinalizing, Outcome::Stop(stop)) => Run {
                stage: Stage::Settling,
                stopped: self.stopped || stop,
                ..self
            },
            (Stage::Settling, _) => Run { stage: Stage::Completing, ..self },
            (Stage::Completing, _) => Run { stage: Stage::Done, ..self },
            _ => self,
        }
    }

    /// How far a run is from its end.
    pub open spec fn distance(self) -> int {
        match self.stage {
            Stage::Preparing => 15 + usize::MAX,
            Stage::Resolving => 14 + usize::MAX,
            Stage::Reembedding => 13 + usize::MAX,
            Stage::BeforeEnumerating => 12 + usize::MAX,
            Stage::Enumerating => 11 + usize::MAX,
            Stage::BeforeCataloging => 10 + self.levels,
            Stage::Deciding => 9 + self.levels,
            Stage::BeforeIndexing => 8 + self.levels,
            Stage::Deferring => 7 + self.levels,
            Stage::IndexingFiles => 6 + self.levels,
            Stage::Reconciling => 5 + self.levels,
            Stage::MiningVocabulary => 4 + self.levels,
            Stage::IndexingFolders(level) => 3 + self.levels - level,
            Stage::BeforeFinalizing => 3int,
            Stage::Settling => 2int,
            Stage::Completing => 1int,
            Stage::Done => 0int,
        }
    }

    /// What to do next.
    pub fn step(&self) -> (r: Step)
        ensures
            r == self.step_view(),
    {
        match self.stage {
            Stage::Preparing => Step::Checkpoint(IndexPhase::Preparing),
            Stage::Resolving => Step::ResolveSteward,
            Stage::Reembedding => Step::Reembed,
            Stage::BeforeEnumerating => Step::Checkpoint(IndexPhase::Enumerating),
            Stage::Enumerating => Step::Enumerate,
            Stage::BeforeCataloging => Step::Checkpoint(IndexPhase::Cataloging),
            Stage::Deciding => Step::Decide,
            Stage::BeforeIndexing => Step::Checkpoint(IndexPhase::Indexing),
            Stage::Deferring => Step::DeferVectorIndex,
            Stage::IndexingFiles => Step::IndexFiles,
            Stage::Reconciling => Step::ReconcileVanished,
            Stage::MiningVocabulary => Step::MineVocabulary { changed: self.changed },
            Stage::IndexingFolders(level) => Step::IndexLevel(level),
            Stage::BeforeFinalizing => Step::Checkpoint(IndexPhase::Finalizing),
            Stage::Settling => Step::Settle,
            Stage::Completing => Step::Checkpoint(IndexPhase::Complete),
            Stage::Done => Step::Finish,
        }
    }

    fn check(&mut self, stop: bool, next: Stage)
        ensures
            *final(self) == old(self).after_check(stop, next),
    {
        if stop {
            self.stage = Stage::Completing;
            self.stopped = true;
        } else {
            self.stage = next;
        }
    }

    fn folders(&mut self, level: usize)
        ensures
            *final(self) == (Run { stage: old(self).folders_from(level), ..*old(self) }),
    {
        if level < self.levels {
            self.stage = Stage::IndexingFolders(level);
        } else {
            self.stage = Stage::BeforeFinalizing;
        }
    }

    /// Go on after a step that came to `outcome`.
    pub fn advance(&mut self, outcome: Outcome)
        requires
            old(self).wf(),
            old(self).fits(outcome),
        ensures
            *final(self) == old(self).after(outcome),
            final(self).wf(),
    {
        match (self.stage, outcome) {
            (Stage::Preparing, Outcome::Stop(stop)) => self.check(stop, Stage::Resolving),
            (Stage::Resolving, _) => {
                self.stage = if self.reembed_pending {
                    Stage::Reembedding
                } else {
                    Stage::BeforeEnumerating
                };
            },
            (Stage::Reembedding, _) => {
                self.stage = Stage::BeforeEnumerating;
            },
            (Stage::BeforeEnumerating, Outcome::Stop(stop)) => self.check(
                stop,
                Stage::Enumerating,
            ),
            (Stage::Enumerating, Outcome::Levels(levels)) => {
                self.stage = Stage::BeforeCataloging;
                self.levels = levels;
            },
            (Stage::BeforeCataloging, Outcome::Stop(stop)) => self.check(stop, Stage::Deciding),
            (Stage::Deciding, Outcome::Chosen { deep, indexed_before }) => {
                self.stage = Stage::BeforeIndexing;
                self.defers = decide::defers_vector_index(deep, indexed_before);
            },
            (Stage::BeforeIndexing, Outcome::Stop(stop)) => {
                let next = if self.defers {
                    Stage::Deferring
                } else {
                    Stage::IndexingFiles
                };
                self.check(stop, next)
            },
            (Stage::Deferring, _) => {
                self.stage = Stage::IndexingFiles;
            },
            (Stage::IndexingFiles, Outcome::Files { indexed, stopped }) => {
                self.stage = if stopped {
                    Stage::BeforeFinalizing
                } else {
                    Stage::Reconciling
                };
                self.stopped = stopped;
                self.changed = indexed > 0;
            },
            (Stage::Reconciling, Outcome::Removed(removed)) => {
                self.changed = self.changed || removed > 0;
                if self.vocabulary_enabled {
                    self.stage = Stage::MiningVocabulary;
                } else {
                    self.folders(0);
                }
            },
            (Stage::MiningVocabulary, _) => self.folders(0),
            (Stage::IndexingFolders(level), Outcome::Stop(stop)) => {
                self.stopped = stop;
                if stop {
                    self.stage = Stage::BeforeFinalizing;
                } else {
                    self.folders(level + 1);
                }
            },
            (Stage::BeforeFinalizing, Outcome::Stop(stop)) => {
                self.stage = Stage::Settling;
                self.stopped = self.stopped || stop;
            },
            (Stage::Settling, _) => {
                self.stage = Stage::Completing;
            },
            (Stage::Completing, _) => {
                self.stage = Stage::Done;
            },
            _ => {},
        }
    }
}

/// A run ends: every step brings it closer, and only a finished run has no
/// step left.
pub proof fn law_a_run_ends(run: Run, outcome: Outcome)
    requires
        run.wf(),
        run.fits(outcome),
    ensures
        run.after(outcome).wf(),
        0 <= run.after(outcome).distance() < run.distance(),
        run.distance() == 0 <==> run.step_view() == Step::Finish,
{
}

/// A stopped run stays stopped, and never again removes sources, mines the
/// vocabulary or indexes: a source that enumeration or indexing did not
/// reach is not mistaken for one that vanished.
pub proof fn law_a_stopped_run_touches_no_source(run: Run, outcome: Outcome)
    requires
        run.wf(),
        run.stopped,
        run.fits(outcome),
    ensures
        run.after(outcome).stopped,
        match run.step_view() {
            Step::Checkpoint(_) | Step::Settle | Step::Finish => true,
            _ => false,
        },
{
}

/// A run stopped before it indexed anything has nothing to settle: all it
/// still does is publish its completion.
pub proof fn law_an_early_stop_only_completes(run: Run)
    requires
        run.wf(),
        match run.stage {
            Stage::Preparing | Stage::BeforeEnumerating | Stage::BeforeCataloging
            | Stage::BeforeIndexing => true,
            _ => false,
        },
    ensures
        run.after(Outcome::Stop(true)).step_view() == Step::Checkpoint(IndexPhase::Complete),
        forall|stop: bool|
            (#[trigger] run.after(Outcome::Stop(true)).after(Outcome::Stop(stop))).step_view()
                == Step::Finish,
{
}

/// A run that began indexing always settles, stopped or not, before it
/// completes.
pub proof fn law_an_indexing_run_settles(run: Run, outcome: Outcome)
    requires
        run.wf(),
        run.fits(outcome),
        match run.stage {
            Stage::Deferring | Stage::IndexingFiles | Stage::Reconciling
            | Stage::MiningVocabulary | Stage::IndexingFolders(_)
            | Stage::BeforeFinalizing => true,
            _ => false,
        },
    ensures
        match run.after(outcome).stage {
            Stage::Deferring | Stage::IndexingFiles | Stage::Reconciling
            | Stage::MiningVocabulary | Stage::IndexingFolders(_) | Stage::BeforeFinalizing
            | Stage::Settling => true,
            _ => false,
        },
{
}


/// A run that is not stopped leaves out no step: it goes on to the very next
/// one, except that it embeds again only for a pending migration, defers the
/// vector index only where that was decided, and mines only where the
/// vocabulary is enabled. What it was asked to do does not change on the way,
/// and the levels of folders it indexes are those enumeration admitted.
pub proof fn law_an_unstopped_run_leaves_nothing_out(run: Run, outcome: Outcome)
    requires
        run.wf(),
        run.fits(outcome),
        !run.after(outcome).stopped,
    ensures
        ({
            let after = run.after(outcome);
            &&& after.reembed_pending == run.reembed_pending
            &&& after.vocabulary_enabled == run.vocabulary_enabled
            &&& match outcome {
                Outcome::Levels(levels) => after.levels == levels && after.distance() == 10
                    + levels,
                _ => {
                    &&& after.levels == run.levels
                    &&& run.distance() - after.distance() == match run.step_view() {
                        Step::ResolveSteward => if run.reembed_pending {
                            1int
                        } else {
                            2
                        },
                        Step::Checkpoint(IndexPhase::Indexing) => if run.defers {
                            1int
                        } else {
                            2
                        },
                        Step::ReconcileVanished => if run.vocabulary_enabled {
                            1int
                        } else {
                            2
                        },
                        _ => 1int,
                    }
                },
            }
            &&& outcome is Chosen || after.defers == run.defers
        }),
{
}

/// The vocabulary is mined in full exactly when the run changed something:
/// indexed a file or removed a source that vanished.
pub proof fn law_mining_follows_change(run: Run, indexed: usize, removed: usize)
    requires
        run.wf(),
        run.stage == Stage::IndexingFiles,
        run.vocabulary_enabled,
    ensures
        ({
            let filed = run.after(Outcome::Files { indexed, stopped: false });
            &&& filed.step_view() == Step::ReconcileVanished
            &&& filed.after(Outcome::Removed(removed)).step_view() == (Step::MineVocabulary {
                changed: indexed > 0 || removed > 0,
            })
        }),
{
}

/// A run stops exactly when it is told to, and only then: an outcome that
/// says stop stops it, wherever it may still stop, and no other does.
pub proof fn law_a_run_stops_when_told(run: Run, outcome: Outcome)
    requires
        run.wf(),
        run.fits(outcome),
        run.step_view() != Step::Checkpoint(IndexPhase::Complete),
    ensures
        run.after(outcome).stopped == (run.stopped || match outcome {
            Outcome::Stop(stop) => stop,
            Outcome::Files { indexed, stopped } => stopped,
            _ => false,
        }),
{
}

/// A checkpoint obeys the first command that is not to pause: it goes on or
/// stops as told, however long it paused before, short of the limit.
pub proof fn law_the_first_command_decides(commands: Seq<IndexControl>, from: nat, at: nat)
    requires
        from <= at < commands.len(),
        at < PAUSE_POLLS_MAX,
        commands[at as int] != IndexControl::Pause,
        forall|i: int| from <= i < at ==> commands[i] == IndexControl::Pause,
    ensures
        checkpoint_over(commands, from) == Some(commands[at as int] == IndexControl::Stop),
    decreases at - from,
{
    if from < at {
        assert(commands[from as int] == IndexControl::Pause);
        law_the_first_command_decides(commands, from + 1, at);
    }
}
} // verus!
