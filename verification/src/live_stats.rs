//! Execution stages of multi-phase workloads, as exchanged with the
//! controller (the stage numbering matches the wire protocol).

use vstd::prelude::*;
use vstd::string::*;

verus! {

broadcast use vstd::string::group_string_axioms;

/// Execution stage for multi-phase workloads.
#[derive(Debug, Clone, Copy, PartialEq, Eq, Structural)]
pub enum WorkloadStage {
    Unknown,
    /// Creating objects before the workload.
    Prepare,
    /// Main benchmark execution.
    Workload,
    /// Deleting objects after the workload.
    Cleanup,
    /// Scanning existing objects before prepare.
    Listing,
    /// User-defined custom stage.
    Custom,
}

impl Default for WorkloadStage {
    fn default() -> (r: Self)
        ensures
            r == WorkloadStage::Unknown,
    {
        WorkloadStage::Unknown
    }
}

/// The protocol number of each stage.
pub open spec fn stage_number(s: WorkloadStage) -> int {
    match s {
        WorkloadStage::Unknown => 0,
        WorkloadStage::Prepare => 1,
        WorkloadStage::Workload => 2,
        WorkloadStage::Cleanup => 3,
        WorkloadStage::Listing => 4,
        WorkloadStage::Custom => 10,
    }
}

/// Whether `v` is the protocol number of some stage.
pub open spec fn is_stage_number(v: int) -> bool {
    v == 0 || v == 1 || v == 2 || v == 3 || v == 4 || v == 10
}

/// The display name of each stage.
pub open spec fn stage_default_name(s: WorkloadStage) -> Seq<char> {
    match s {
        WorkloadStage::Unknown => "Unknown"@,
        WorkloadStage::Prepare => "Prepare"@,
        WorkloadStage::Workload => "Workload"@,
        WorkloadStage::Cleanup => "Cleanup"@,
        WorkloadStage::Listing => "Listing"@,
        WorkloadStage::Custom => "Custom"@,
    }
}

impl WorkloadStage {
    /// Convert to the protocol enum value.
    pub fn to_proto_i32(&self) -> (r: i32)
        ensures
            r == stage_number(*self),
    {
        match self {
            WorkloadStage::Unknown => 0,
            WorkloadStage::Prepare => 1,
            WorkloadStage::Workload => 2,
            WorkloadStage::Cleanup => 3,
            WorkloadStage::Listing => 4,
            WorkloadStage::Custom => 10,
        }
    }

    /// Convert from a protocol value; unknown values give `Unknown`.
    pub fn from_i32(value: i32) -> (r: Self)
        ensures
            is_stage_number(value as int) ==> stage_number(r) == value,
            !is_stage_number(value as int) ==> r == WorkloadStage::Unknown,
    {
        match value {
            1 => WorkloadStage::Prepare,
            2 => WorkloadStage::Workload,
            3 => WorkloadStage::Cleanup,
            4 => WorkloadStage::Listing,
            10 => WorkloadStage::Custom,
            _ => WorkloadStage::Unknown,
        }
    }

    /// Default stage name for display.
    pub fn default_name(&self) -> (r: &'static str)
        ensures
            r@ == stage_default_name(*self),
    {
        match self {
            WorkloadStage::Unknown => "Unknown",
            WorkloadStage::Prepare => "Prepare",
            WorkloadStage::Workload => "Workload",
            WorkloadStage::Cleanup => "Cleanup",
            WorkloadStage::Listing => "Listing",
            WorkloadStage::Custom => "Custom",
        }
    }
}

/// Stage numbers are distinct, so a stage survives the round trip through
/// its protocol number, and a protocol number of a stage survives the
/// round trip through the stage.
pub proof fn law_stage_number_round_trip(s: WorkloadStage, t: WorkloadStage, v: int)
    ensures
        is_stage_number(stage_number(s)),
        stage_number(s) == stage_number(t) ==> s == t,
        is_stage_number(v) ==> exists|u: WorkloadStage| stage_number(u) == v,
{
    if is_stage_number(v) {
        if v == 0 {
            assert(stage_number(WorkloadStage::Unknown) == v);
        } else if v == 1 {
            assert(stage_number(WorkloadStage::Prepare) == v);
        } else if v == 2 {
            assert(stage_number(WorkloadStage::Workload) == v);
        } else if v == 3 {
            assert(stage_number(WorkloadStage::Cleanup) == v);
        } else if v == 4 {
            assert(stage_number(WorkloadStage::Listing) == v);
        } else {
            assert(stage_number(WorkloadStage::Custom) == v);
        }
    }
}

/// The stage and progress of a multi-phase run, with the legacy
/// prepare-phase fields kept in step with the stage.
#[derive(Debug)]
pub struct StageState {
    stage: WorkloadStage,
    stage_name: String,
    progress_current: u64,
    progress_total: u64,
    in_prepare_phase: bool,
    prepare_created: u64,
    prepare_total: u64,
}

impl StageState {
    /// The current stage.
    pub closed spec fn stage_spec(&self) -> WorkloadStage {
        self.stage
    }

    /// The stage name.
    pub closed spec fn name_spec(&self) -> Seq<char> {
        self.stage_name@
    }

    /// Stage progress as (current, total).
    pub closed spec fn progress_spec(&self) -> (u64, u64) {
        (self.progress_current, self.progress_total)
    }

    /// Legacy prepare fields as (in prepare phase, created, total).
    pub closed spec fn prepare_spec(&self) -> (bool, u64, u64) {
        (self.in_prepare_phase, self.prepare_created, self.prepare_total)
    }

    /// The initial state: unknown stage, empty name, no progress.
    pub fn new() -> (r: Self)
        ensures
            r.stage_spec() == WorkloadStage::Unknown,
            r.name_spec() == Seq::<char>::empty(),
            r.progress_spec() == (0u64, 0u64),
            r.prepare_spec() == (false, 0u64, 0u64),
    {
        StageState {
            stage: WorkloadStage::Unknown,
            stage_name: String::new(),
            progress_current: 0,
            progress_total: 0,
            in_prepare_phase: false,
            prepare_created: 0,
            prepare_total: 0,
        }
    }

    /// Enter `stage` with `total` units of work: progress restarts at zero,
    /// the name becomes the stage's default name, and the prepare phase is
    /// entered (with the same total, none created) or left.
    pub fn set_stage(&mut self, stage: WorkloadStage, total: u64)
        ensures
            final(self).stage_spec() == stage,
            final(self).name_spec() == stage_default_name(stage),
            final(self).progress_spec() == (0u64, total),
            stage == WorkloadStage::Prepare ==> final(self).prepare_spec() == (true, 0u64, total),
            stage != WorkloadStage::Prepare ==> final(self).prepare_spec() == (
                false,
                old(self).prepare_spec().1,
                old(self).prepare_spec().2,
            ),
    {
        self.stage = stage;
        let mut name = String::new();
        name.append(stage.default_name());
        self.stage_name = name;
        self.progress_current = 0;
        self.progress_total = total;
        if stage == WorkloadStage::Prepare {
            self.in_prepare_phase = true;
            self.prepare_total = total;
            self.prepare_created = 0;
        } else {
            self.in_prepare_phase = false;
        }
    }

    /// `set_stage`, then the given name.
    pub fn set_stage_with_name(&mut self, stage: WorkloadStage, name: &str, total: u64)
        ensures
            final(self).stage_spec() == stage,
            final(self).name_spec() == name@,
            final(self).progress_spec() == (0u64, total),
            stage == WorkloadStage::Prepare ==> final(self).prepare_spec() == (true, 0u64, total),
            stage != WorkloadStage::Prepare ==> final(self).prepare_spec() == (
                false,
                old(self).prepare_spec().1,
                old(self).prepare_spec().2,
            ),
    {
        self.set_stage(stage, total);
        let mut n = String::new();
        n.append(name);
        self.stage_name = n;
    }

    /// Set the stage progress; in the prepare stage the legacy created
    /// count follows it.
    pub fn set_stage_progress(&mut self, current: u64)
        ensures
            final(self).stage_spec() == old(self).stage_spec(),
            final(self).name_spec() == old(self).name_spec(),
            final(self).progress_spec() == (current, old(self).progress_spec().1),
            final(self).prepare_spec() == (
                old(self).prepare_spec().0,
                if old(self).stage_spec() == WorkloadStage::Prepare {
                    current
                } else {
                    old(self).prepare_spec().1
                },
                old(self).prepare_spec().2,
            ),
    {
        self.progress_current = current;
        if self.stage == WorkloadStage::Prepare {
            self.prepare_created = current;
        }
    }

    /// Count one more unit of stage progress (wrapping as an atomic counter
    /// does); in the prepare stage the legacy created count follows it.
    pub fn increment_stage_progress(&mut self)
        ensures
            final(self).stage_spec() == old(self).stage_spec(),
            final(self).name_spec() == old(self).name_spec(),
            final(self).progress_spec() == (
                (if old(self).progress_spec().0 == u64::MAX {
                    0
                } else {
                    old(self).progress_spec().0 + 1
                }) as u64,
                old(self).progress_spec().1,
            ),
            final(self).prepare_spec() == (
                old(self).prepare_spec().0,
                if old(self).stage_spec() == WorkloadStage::Prepare {
                    (if old(self).prepare_spec().1 == u64::MAX {
                        0
                    } else {
                        old(self).prepare_spec().1 + 1
                    }) as u64
                } else {
                    old(self).prepare_spec().1
                },
                old(self).prepare_spec().2,
            ),
    {
        self.progress_current = self.progress_current.wrapping_add(1);
        if self.stage == WorkloadStage::Prepare {
            self.prepare_created = self.prepare_created.wrapping_add(1);
        }
    }

    /// The current stage.
    pub fn get_stage(&self) -> (r: WorkloadStage)
        ensures
            r == self.stage_spec(),
    {
        self.stage
    }

    /// The current stage as snapshots report it.
    pub fn current_stage(&self) -> (r: WorkloadStage)
        ensures
            r == self.stage_spec(),
    {
        self.stage
    }

    /// The stage name.
    pub fn stage_name(&self) -> (r: &str)
        ensures
            r@ == self.name_spec(),
    {
        self.stage_name.as_str()
    }

    /// Stage progress as (current, total).
    pub fn progress(&self) -> (r: (u64, u64))
        ensures
            r == self.progress_spec(),
    {
        (self.progress_current, self.progress_total)
    }

    /// Legacy prepare fields as (in prepare phase, created, total).
    pub fn prepare_progress(&self) -> (r: (bool, u64, u64))
        ensures
            r == self.prepare_spec(),
    {
        (self.in_prepare_phase, self.prepare_created, self.prepare_total)
    }

    /// Legacy prepare progress: enters the prepare phase and the prepare
    /// stage with `created` of `total` done (the name is left alone).
    pub fn set_prepare_progress(&mut self, created: u64, total: u64)
        ensures
            final(self).stage_spec() == WorkloadStage::Prepare,
            final(self).name_spec() == old(self).name_spec(),
            final(self).progress_spec() == (created, total),
            final(self).prepare_spec() == (true, created, total),
    {
        self.in_prepare_phase = true;
        self.prepare_created = created;
        self.prepare_total = total;
        self.stage = WorkloadStage::Prepare;
        self.progress_current = created;
        self.progress_total = total;
    }

    /// Leave the legacy prepare phase (nothing else changes).
    pub fn set_prepare_complete(&mut self)
        ensures
            final(self).stage_spec() == old(self).stage_spec(),
            final(self).name_spec() == old(self).name_spec(),
            final(self).progress_spec() == old(self).progress_spec(),
            final(self).prepare_spec() == (false, old(self).prepare_spec().1, old(self).prepare_spec().2),
    {
        self.in_prepare_phase = false;
    }

    /// Start a new stage: no progress, the given stage and name (the legacy
    /// prepare fields are left alone).
    pub fn reset_for_stage(&mut self, stage_name: &str, stage: WorkloadStage)
        ensures
            final(self).stage_spec() == stage,
            final(self).name_spec() == stage_name@,
            final(self).progress_spec() == (0u64, 0u64),
            final(self).prepare_spec() == old(self).prepare_spec(),
    {
        self.progress_current = 0;
        self.progress_total = 0;
        self.stage = stage;
        let mut n = String::new();
        n.append(stage_name);
        self.stage_name = n;
    }
}

} // verus!
