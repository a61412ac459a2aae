//! The request/response contract between workers and the coordinator,
//! and the coordinator's own record of a task's state.

use vstd::prelude::*;

verus! {

/// The job-wide stage.  Transitions are one-directional:
/// Map, then Reduce, then Done.
#[derive(Debug, Clone, Copy, PartialEq, Eq, Structural)]
pub enum Phase {
    Mapping,
    Reducing,
    Done,
}

/// Order of the phases along the job's life: Map before Reduce before Done.
pub open spec fn phase_index(p: Phase) -> int {
    match p {
        Phase::Mapping => 0,
        Phase::Reducing => 1,
        Phase::Done => 2,
    }
}

/// `a` comes no later than `b` in the phase order.
pub open spec fn phase_le(a: Phase, b: Phase) -> bool {
    phase_index(a) <= phase_index(b)
}

/// One task's state in the coordinator's ledger.  Times are seconds on the
/// caller's clock; the coordinator never reads a clock itself.
#[derive(Debug, Clone, Copy, PartialEq, Eq, Structural)]
pub enum TaskStatus {
    /// Not assigned to any worker.
    Idle,
    /// Assigned at `start_time`; `backup_scheduled` becomes true once a
    /// second, speculative copy of the task has been handed out.
    InProgress { start_time: u64, backup_scheduled: bool },
    /// A completion report was accepted.  Terminal.
    Completed,
}

/// What kind of work an assignment carries.
#[derive(Debug, Clone, Copy, PartialEq, Eq, Structural)]
pub enum TaskType {
    MapTask,
    ReduceTask,
    Idle,
    Exit,
}

/// Everything a worker needs to run one task.
#[derive(Debug)]
pub struct TaskData {
    /// Unique within the task's phase.
    pub task_id: u32,
    /// Files the task reads: one input file for a map task, one
    /// intermediate file per completed map task for a reduce task.
    pub input_files: Vec<String>,
    /// Total number of reduce partitions.
    pub n_reduce: u32,
    /// Directory where output files are placed.
    pub output_path: String,
}

/// A worker's message to the coordinator.
#[derive(Debug)]
pub enum Request {
    /// Ask for work.
    GetTask,
    /// A map task finished; `files` maps each partition id that received
    /// data to the intermediate file written for it.
    MapDone { task_id: u32, files: Vec<(u32, String)> },
    /// A reduce task finished.
    ReduceDone { task_id: u32 },
}

/// The coordinator's answer.
#[derive(Debug)]
pub enum Response {
    /// An assignment to execute.
    Task { task_type: TaskType, task_data: TaskData },
    /// Nothing to hand out right now; ask again later.
    NoTask,
    /// The job is done; stop asking.
    Exit,
}

} // verus!
