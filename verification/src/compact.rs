//! Compaction: merging tables into fewer ones, without the versions that no reader can see.
pub mod failure_laws;
pub mod install;
pub mod laws;
pub mod merge;
pub mod output_laws;
pub mod retention;
pub mod round_laws;
pub mod tasks;

use crate::lsm_storage::LsmStorageState;
use crate::table::ReadError;
use vstd::prelude::*;

verus! {

/// Why a compaction failed.
#[derive(Debug)]
pub enum CompactionError<E> {
    /// The policy named a table that is not there, or the same table twice.
    UnknownTable,
    /// A table could not be read on.
    Read(ReadError),
    /// The storage underneath failed.
    Storage(E),
}

/// A compaction of some tables of a level, or of level 0, with the overlapping ones of the next.
#[derive(Debug)]
pub struct LeveledCompactionTask {
    /// The upper level; none if it is level 0.
    pub upper_level: Option<usize>,
    pub upper_level_sst_ids: Vec<usize>,
    pub lower_level: usize,
    pub lower_level_sst_ids: Vec<usize>,
    pub is_lower_level_bottom_level: bool,
}

/// A compaction of a whole level, or of level 0, with the next.
#[derive(Debug)]
pub struct SimpleLeveledCompactionTask {
    /// The upper level; none if it is level 0.
    pub upper_level: Option<usize>,
    pub upper_level_sst_ids: Vec<usize>,
    pub lower_level: usize,
    pub lower_level_sst_ids: Vec<usize>,
    pub is_lower_level_bottom_level: bool,
}

/// A compaction of several tiers.
#[derive(Debug)]
pub struct TieredCompactionTask {
    /// The tiers, the newest first, each under its number.
    pub tiers: Vec<(usize, Vec<usize>)>,
    pub bottom_tier_included: bool,
}

/// What to compact.
#[derive(Debug)]
pub enum CompactionTask {
    Leveled(LeveledCompactionTask),
    Tiered(TieredCompactionTask),
    Simple(SimpleLeveledCompactionTask),
    ForceFullCompaction { l0_sstables: Vec<usize>, l1_sstables: Vec<usize> },
}

impl CompactionTask {
    /// Whether a compaction reaches down to the last level or tier.
    pub open spec fn reaches_bottom(&self) -> bool {
        match self {
            CompactionTask::ForceFullCompaction { .. } => true,
            CompactionTask::Leveled(task) => task.is_lower_level_bottom_level,
            CompactionTask::Simple(task) => task.is_lower_level_bottom_level,
            CompactionTask::Tiered(task) => task.bottom_tier_included,
        }
    }

    /// Whether the compaction reaches down to the last level or tier.
    pub fn compact_to_bottom_level(&self) -> (r: bool)
        ensures
            r == self.reaches_bottom(),
    {
        match self {
            CompactionTask::ForceFullCompaction { .. } => true,
            CompactionTask::Leveled(task) => task.is_lower_level_bottom_level,
            CompactionTask::Simple(task) => task.is_lower_level_bottom_level,
            CompactionTask::Tiered(task) => task.bottom_tier_included,
        }
    }
}

/// Chooses what to compact by leveled compaction, and arranges the tables that come of it.
pub trait LeveledPolicy {
    /// What to compact next, if anything.
    fn generate_compaction_task(&self, snapshot: &LsmStorageState) -> Option<LeveledCompactionTask>;

    /// The state once a task has made the tables `output`, and the tables that it no longer needs.
    fn apply_compaction_result(
        &self,
        snapshot: &LsmStorageState,
        task: &LeveledCompactionTask,
        output: &[usize],
        in_recovery: bool,
    ) -> (LsmStorageState, Vec<usize>);
}

/// Chooses what to compact by tiered compaction, and arranges the tables that come of it.
pub trait TieredPolicy {
    /// What to compact next, if anything.
    fn generate_compaction_task(&self, snapshot: &LsmStorageState) -> Option<TieredCompactionTask>;

    /// The state once a task has made the tables `output`, and the tables that it no longer needs.
    fn apply_compaction_result(
        &self,
        snapshot: &LsmStorageState,
        task: &TieredCompactionTask,
        output: &[usize],
    ) -> (LsmStorageState, Vec<usize>);
}

/// Chooses what to compact by simple leveled compaction, and arranges the tables that come of it.
pub trait SimpleLeveledPolicy {
    /// What to compact next, if anything.
    fn generate_compaction_task(&self, snapshot: &LsmStorageState) -> Option<
        SimpleLeveledCompactionTask,
    >;

    /// The state once a task has made the tables `output`, and the tables that it no longer needs.
    fn apply_compaction_result(
        &self,
        snapshot: &LsmStorageState,
        task: &SimpleLeveledCompactionTask,
        output: &[usize],
    ) -> (LsmStorageState, Vec<usize>);
}

/// The policy by which the store compacts.
pub enum CompactionController<L, T, P> {
    Leveled(L),
    Tiered(T),
    Simple(P),
    NoCompaction,
}

impl<L, T, P> CompactionController<L, T, P> {
    /// Whether a task is one that this controller hands out.
    pub open spec fn fits(&self, task: &CompactionTask) -> bool {
        match (self, task) {
            (CompactionController::Leveled(_), CompactionTask::Leveled(_)) => true,
            (CompactionController::Simple(_), CompactionTask::Simple(_)) => true,
            (CompactionController::Tiered(_), CompactionTask::Tiered(_)) => true,
            _ => false,
        }
    }

    /// Whether memtables are flushed to level 0, rather than to a tier of their own.
    pub fn flush_to_l0(&self) -> (r: bool)
        ensures
            r == !(self is Tiered),
    {
        match self {
            CompactionController::Leveled(_) => true,
            CompactionController::Simple(_) => true,
            CompactionController::NoCompaction => true,
            CompactionController::Tiered(_) => false,
        }
    }
}

impl<L: LeveledPolicy, T: TieredPolicy, P: SimpleLeveledPolicy> CompactionController<L, T, P> {
    /// Whether the controller's policy may answer with `plan` what to compact next.
    pub open spec fn plans(
        &self,
        snapshot: &LsmStorageState,
        plan: Option<CompactionTask>,
    ) -> bool {
        match self {
            CompactionController::Leveled(ctrl) => match plan {
                None => call_ensures(L::generate_compaction_task, (ctrl, snapshot), None),
                Some(CompactionTask::Leveled(task)) => call_ensures(
                    L::generate_compaction_task,
                    (ctrl, snapshot),
                    Some(task),
                ),
                _ => false,
            },
            CompactionController::Simple(ctrl) => match plan {
                None => call_ensures(P::generate_compaction_task, (ctrl, snapshot), None),
                Some(CompactionTask::Simple(task)) => call_ensures(
                    P::generate_compaction_task,
                    (ctrl, snapshot),
                    Some(task),
                ),
                _ => false,
            },
            CompactionController::Tiered(ctrl) => match plan {
                None => call_ensures(T::generate_compaction_task, (ctrl, snapshot), None),
                Some(CompactionTask::Tiered(task)) => call_ensures(
                    T::generate_compaction_task,
                    (ctrl, snapshot),
                    Some(task),
                ),
                _ => false,
            },
            CompactionController::NoCompaction => false,
        }
    }

    /// Whether the controller's policy may answer with `reply` to the result of a compaction.
    pub open spec fn arranges(
        &self,
        snapshot: &LsmStorageState,
        task: &CompactionTask,
        output: &[usize],
        in_recovery: bool,
        reply: (LsmStorageState, Vec<usize>),
    ) -> bool {
        match (self, task) {
            (CompactionController::Leveled(ctrl), CompactionTask::Leveled(task)) => call_ensures(
                L::apply_compaction_result,
                (ctrl, snapshot, task, output, in_recovery),
                reply,
            ),
            (CompactionController::Simple(ctrl), CompactionTask::Simple(task)) => call_ensures(
                P::apply_compaction_result,
                (ctrl, snapshot, task, output),
                reply,
            ),
            (CompactionController::Tiered(ctrl), CompactionTask::Tiered(task)) => call_ensures(
                T::apply_compaction_result,
                (ctrl, snapshot, task, output),
                reply,
            ),
            _ => false,
        }
    }

    /// Asks the policy what to compact next. The task is of the policy's own kind.
    pub fn generate_compaction_task(&self, snapshot: &LsmStorageState) -> (r: Option<
        CompactionTask,
    >)
        requires
            !(self is NoCompaction),
        ensures
            self.plans(snapshot, r),
            r matches Some(task) ==> self.fits(&task),
    {
        match self {
            CompactionController::Leveled(ctrl) => match ctrl.generate_compaction_task(snapshot) {
                Some(task) => Some(CompactionTask::Leveled(task)),
                None => None,
            },
            CompactionController::Simple(ctrl) => match ctrl.generate_compaction_task(snapshot) {
                Some(task) => Some(CompactionTask::Simple(task)),
                None => None,
            },
            CompactionController::Tiered(ctrl) => match ctrl.generate_compaction_task(snapshot) {
                Some(task) => Some(CompactionTask::Tiered(task)),
                None => None,
            },
            CompactionController::NoCompaction => None,
        }
    }

    /// Asks the policy to arrange the tables that a task of its own kind has made.
    pub fn apply_compaction_result(
        &self,
        snapshot: &LsmStorageState,
        task: &CompactionTask,
        output: &[usize],
        in_recovery: bool,
    ) -> (r: (LsmStorageState, Vec<usize>))
        requires
            self.fits(task),
        ensures
            self.arranges(snapshot, task, output, in_recovery, r),
    {
        match (self, task) {
            (CompactionController::Leveled(ctrl), CompactionTask::Leveled(task)) =>
            ctrl.apply_compaction_result(snapshot, task, output, in_recovery),
            (CompactionController::Simple(ctrl), CompactionTask::Simple(task)) =>
            ctrl.apply_compaction_result(snapshot, task, output),
            (CompactionController::Tiered(ctrl), CompactionTask::Tiered(task)) =>
            ctrl.apply_compaction_result(snapshot, task, output),
            _ => {
                assert(false);
                (snapshot.clone(), Vec::new())
            },
        }
    }
}

/// How the store is to compact.
#[derive(Debug)]
pub enum CompactionOptions<L, T, P> {
    /// Leveled compaction that compacts parts of levels and sizes its levels as the data grows.
    Leveled(L),
    /// Tiered compaction.
    Tiered(T),
    /// Simple leveled compaction.
    Simple(P),
    /// No compaction: memtables are flushed to level 0 and stay there.
    NoCompaction,
}

impl<L: Clone, T: Clone, P: Clone> Clone for CompactionOptions<L, T, P> {
    fn clone(&self) -> (r: Self)
        ensures
            match (self, r) {
                (CompactionOptions::Leveled(a), CompactionOptions::Leveled(b)) => cloned(*a, b),
                (CompactionOptions::Tiered(a), CompactionOptions::Tiered(b)) => cloned(*a, b),
                (CompactionOptions::Simple(a), CompactionOptions::Simple(b)) => cloned(*a, b),
                (CompactionOptions::NoCompaction, CompactionOptions::NoCompaction) => true,
                _ => false,
            },
    {
        match self {
            CompactionOptions::Leveled(options) => CompactionOptions::Leveled(options.clone()),
            CompactionOptions::Tiered(options) => CompactionOptions::Tiered(options.clone()),
            CompactionOptions::Simple(options) => CompactionOptions::Simple(options.clone()),
            CompactionOptions::NoCompaction => CompactionOptions::NoCompaction,
        }
    }
}

impl<L, T, P> CompactionOptions<L, T, P> {
    /// Whether compaction goes on in the background.
    pub fn compacts_in_background(&self) -> (r: bool)
        ensures
            r == !(self is NoCompaction),
    {
        match self {
            CompactionOptions::Leveled(_) => true,
            CompactionOptions::Tiered(_) => true,
            CompactionOptions::Simple(_) => true,
            CompactionOptions::NoCompaction => false,
        }
    }
}

} // verus!
