//! The coordinator: owns the task ledger, hands out map and reduce work,
//! absorbs completion reports, advances the job's phase, and reclaims
//! tasks from workers that stopped reporting.  The coordinator never reads
//! a clock; every entry point takes the current time in seconds, so its
//! behaviour is a function of its state and arguments alone.

use vstd::prelude::*;

use crate::rpc::{Phase, phase_le, Request, Response, TaskData, TaskStatus, TaskType};

verus! {

/// Seconds a first assignment may stay out before a speculative backup
/// copy of the task is handed to another worker.  Smaller than any sane
/// reclaim timeout, so duplication is tried before outright reclaim.
pub const BACKUP_THRESHOLD_SECS: u64 = 10;

/// Seconds since `start`, on a clock that never runs backwards.
pub open spec fn elapsed(now: u64, start: u64) -> int {
    if now >= start {
        now - start
    } else {
        0
    }
}

/// An in-flight task that is overdue for a speculative backup: assigned,
/// no backup issued yet, and out longer than the backup threshold.
pub open spec fn backup_due(t: TaskStatus, now: u64) -> bool {
    match t {
        TaskStatus::InProgress { start_time, backup_scheduled } => !backup_scheduled && elapsed(
            now,
            start_time,
        ) > BACKUP_THRESHOLD_SECS,
        _ => false,
    }
}

/// An in-flight task whose worker has been silent past the reclaim timeout.
pub open spec fn timed_out(t: TaskStatus, now: u64, timeout: u64) -> bool {
    match t {
        TaskStatus::InProgress { start_time, .. } => elapsed(now, start_time) > timeout,
        _ => false,
    }
}

/// The same task with its backup marked as issued; start time unchanged.
pub open spec fn mark_backup(t: TaskStatus) -> TaskStatus {
    match t {
        TaskStatus::InProgress { start_time, backup_scheduled } => TaskStatus::InProgress {
            start_time,
            backup_scheduled: true,
        },
        x => x,
    }
}

/// The lowest index at or after `i` holding an `Idle` task.
pub open spec fn first_idle_from(tasks: Seq<TaskStatus>, i: int) -> Option<int>
    decreases tasks.len() - i,
{
    if i < 0 || i >= tasks.len() {
        None
    } else if tasks[i] is Idle {
        Some(i)
    } else {
        first_idle_from(tasks, i + 1)
    }
}

/// The lowest index holding an `Idle` task; the tie-break rule for
/// equally-eligible idle tasks.
pub open spec fn first_idle(tasks: Seq<TaskStatus>) -> Option<int> {
    first_idle_from(tasks, 0)
}

/// The lowest index at or after `i` holding a task due for a backup.
pub open spec fn first_backup_from(tasks: Seq<TaskStatus>, now: u64, i: int) -> Option<int>
    decreases tasks.len() - i,
{
    if i < 0 || i >= tasks.len() {
        None
    } else if backup_due(tasks[i], now) {
        Some(i)
    } else {
        first_backup_from(tasks, now, i + 1)
    }
}

/// The lowest index holding a task due for a backup.
pub open spec fn first_backup(tasks: Seq<TaskStatus>, now: u64) -> Option<int> {
    first_backup_from(tasks, now, 0)
}

/// Every task in the ledger is `Completed`.
pub open spec fn all_completed(tasks: Seq<TaskStatus>) -> bool {
    forall|i: int| 0 <= i < tasks.len() ==> #[trigger] tasks[i] is Completed
}

/// The ledger after one health sweep: every in-flight task silent past the
/// timeout is reclaimed to `Idle`; everything else is untouched.
pub open spec fn sweep(tasks: Seq<TaskStatus>, now: u64, timeout: u64) -> Seq<TaskStatus> {
    Seq::new(
        tasks.len(),
        |i: int|
            if timed_out(tasks[i], now, timeout) {
                TaskStatus::Idle
            } else {
                tasks[i]
            },
    )
}

/// The path recorded for partition `p` among a map task's reported files,
/// if any: the first matching entry.
pub open spec fn lookup_from(files: Seq<(u32, String)>, p: u32, j: int) -> Option<Seq<char>>
    decreases files.len() - j,
{
    if j < 0 || j >= files.len() {
        None
    } else if files[j].0 == p {
        Some(files[j].1@)
    } else {
        lookup_from(files, p, j + 1)
    }
}

/// The path recorded for partition `p`, if any.
pub open spec fn lookup_path(files: Seq<(u32, String)>, p: u32) -> Option<Seq<char>> {
    lookup_from(files, p, 0)
}

/// The input files of reduce task `p`: for each map task in id order, the
/// file it reported for partition `p`, where it reported one.
pub open spec fn reduce_inputs_from(
    outs: Seq<Option<Vec<(u32, String)>>>,
    p: u32,
    i: int,
) -> Seq<Seq<char>>
    decreases outs.len() - i,
{
    if i < 0 || i >= outs.len() {
        seq![]
    } else {
        let rest = reduce_inputs_from(outs, p, i + 1);
        match outs[i] {
            Some(files) => match lookup_path(files@, p) {
                Some(path) => seq![path] + rest,
                None => rest,
            },
            None => rest,
        }
    }
}

/// The input files of reduce task `p`, over all completed map tasks.
pub open spec fn reduce_inputs(outs: Seq<Option<Vec<(u32, String)>>>, p: u32) -> Seq<Seq<char>> {
    reduce_inputs_from(outs, p, 0)
}

/// The coordinator's whole state: one status slot per task (ids are the
/// indices), the job description, and the reported map outputs.
pub struct Master {
    /// Status of each map task; ids are dense over the input files.
    pub map_task: Vec<TaskStatus>,
    /// Status of each reduce task; created only when the phase advances
    /// to Reduce, with ids `0 .. n_reduce`.
    pub reduce_task: Vec<TaskStatus>,
    /// The job-wide stage.
    pub phase: Phase,
    /// The reduce fan-out.
    pub n_reduce: u32,
    /// One input file per map task.
    pub input_files: Vec<String>,
    /// Directory output files are placed in.
    pub output: String,
    /// Per completed map task id, the partition-to-file entries it reported.
    pub map_outputs: Vec<Option<Vec<(u32, String)>>>,
}

impl Master {
    /// The coordinator's invariant, established by `new` and kept by every
    /// entry point.
    pub open spec fn wf(&self) -> bool {
        &&& self.map_task@.len() == self.input_files@.len()
        &&& self.map_outputs@.len() == self.map_task@.len()
        &&& self.map_task@.len() <= u32::MAX
        &&& (self.phase is Mapping ==> self.reduce_task@.len() == 0)
        &&& (!(self.phase is Mapping) ==> self.reduce_task@.len() == self.n_reduce
            && all_completed(self.map_task@))
        &&& (self.phase is Done ==> all_completed(self.reduce_task@))
        &&& (forall|i: int|
            0 <= i < self.map_task@.len() ==> ((#[trigger] self.map_outputs@[i]) is Some
                <==> self.map_task@[i] is Completed))
    }

    /// Set up a job: one `Idle` map task per input file, no reduce tasks
    /// yet, phase Map.
    pub fn new(input_files: Vec<String>, n_reduce: u32, output_path: String) -> (m: Master)
        requires
            input_files@.len() <= u32::MAX,
        ensures
            m.wf(),
            m.phase is Mapping,
            m.map_task@ =~= Seq::new(input_files@.len(), |i: int| TaskStatus::Idle),
            m.reduce_task@.len() == 0,
            m.n_reduce == n_reduce,
            m.input_files == input_files,
            m.output == output_path,
            m.map_outputs@ =~= Seq::new(
                input_files@.len(),
                |i: int| None::<Vec<(u32, String)>>,
            ),
    {
        let n = input_files.len();
        let mut map_task: Vec<TaskStatus> = Vec::new();
        let mut map_outputs: Vec<Option<Vec<(u32, String)>>> = Vec::new();
        while map_task.len() < n
            invariant
                map_task@.len() <= n,
                forall|i: int| 0 <= i < map_task@.len() ==> #[trigger] map_task@[i] is Idle,
            decreases n - map_task@.len(),
        {
            map_task.push(TaskStatus::Idle);
        }
        while map_outputs.len() < n
            invariant
                map_outputs@.len() <= n,
                forall|i: int| 0 <= i < map_outputs@.len() ==> #[trigger] map_outputs@[i] is None,
            decreases n - map_outputs@.len(),
        {
            map_outputs.push(None);
        }
        let m = Master {
            map_task,
            reduce_task: Vec::new(),
            phase: Phase::Mapping,
            n_reduce,
            input_files,
            map_outputs,
            output: output_path,
        };
        proof {
            assert(m.map_task@ =~= Seq::new(m.input_files@.len(), |i: int| TaskStatus::Idle));
            assert(m.map_outputs@ =~= Seq::new(
                m.input_files@.len(),
                |i: int| None::<Vec<(u32, String)>>,
            ));
        }
        m
    }
}

/// What a `Task` response must carry.
pub open spec fn task_response(
    r: Response,
    tt: TaskType,
    id: int,
    inputs: Seq<Seq<char>>,
    n_reduce: u32,
    dir: Seq<char>,
) -> bool {
    match r {
        Response::Task { task_type, task_data } => {
            &&& task_type == tt
            &&& task_data.task_id as int == id
            &&& task_data.input_files.deep_view() == inputs
            &&& task_data.n_reduce == n_reduce
            &&& task_data.output_path@ == dir
        },
        _ => false,
    }
}

/// Everything `get_task` promises: in phase Done, `Exit` and no change; in
/// an active phase, the lowest idle task if any (assigned now, no backup),
/// else the lowest task overdue for a backup (re-issued, marked), else
/// `NoTask` and no change.  The phase never moves, and only the selected
/// status slot does.
pub open spec fn get_task_post(pre: Master, post: Master, now: u64, r: Response) -> bool {
    &&& post.phase == pre.phase
    &&& post.n_reduce == pre.n_reduce
    &&& post.input_files == pre.input_files
    &&& post.output == pre.output
    &&& post.map_outputs == pre.map_outputs
    &&& match pre.phase {
        Phase::Done => r is Exit && post.map_task == pre.map_task && post.reduce_task
            == pre.reduce_task,
        Phase::Mapping => {
            &&& post.reduce_task == pre.reduce_task
            &&& match first_idle(pre.map_task@) {
                Some(i) => {
                    &&& post.map_task@ == pre.map_task@.update(
                        i,
                        TaskStatus::InProgress { start_time: now, backup_scheduled: false },
                    )
                    &&& task_response(
                        r,
                        TaskType::MapTask,
                        i,
                        seq![pre.input_files@[i]@],
                        pre.n_reduce,
                        pre.output@,
                    )
                },
                None => match first_backup(pre.map_task@, now) {
                    Some(i) => {
                        &&& post.map_task@ == pre.map_task@.update(
                            i,
                            mark_backup(pre.map_task@[i]),
                        )
                        &&& task_response(
                            r,
                            TaskType::MapTask,
                            i,
                            seq![pre.input_files@[i]@],
                            pre.n_reduce,
                            pre.output@,
                        )
                    },
                    None => r is NoTask && post.map_task == pre.map_task,
                },
            }
        },
        Phase::Reducing => {
            &&& post.map_task == pre.map_task
            &&& match first_idle(pre.reduce_task@) {
                Some(i) => {
                    &&& post.reduce_task@ == pre.reduce_task@.update(
                        i,
                        TaskStatus::InProgress { start_time: now, backup_scheduled: false },
                    )
                    &&& task_response(
                        r,
                        TaskType::ReduceTask,
                        i,
                        reduce_inputs(pre.map_outputs@, i as u32),
                        pre.n_reduce,
                        pre.output@,
                    )
                },
                None => match first_backup(pre.reduce_task@, now) {
                    Some(i) => {
                        &&& post.reduce_task@ == pre.reduce_task@.update(
                            i,
                            mark_backup(pre.reduce_task@[i]),
                        )
                        &&& task_response(
                            r,
                            TaskType::ReduceTask,
                            i,
                            reduce_inputs(pre.map_outputs@, i as u32),
                            pre.n_reduce,
                            pre.output@,
                        )
                    },
                    None => r is NoTask && post.reduce_task == pre.reduce_task,
                },
            }
        },
    }
}

/// Scan a ledger for its lowest `Idle` task.
fn find_idle(tasks: &Vec<TaskStatus>) -> (r: Option<usize>)
    ensures
        match r {
            Some(i) => {
                &&& first_idle(tasks@) == Some(i as int)
                &&& i < tasks@.len()
                &&& tasks@[i as int] is Idle
            },
            None => first_idle(tasks@) is None,
        },
{
    let mut i: usize = 0;
    while i < tasks.len()
        invariant
            0 <= i <= tasks@.len(),
            first_idle(tasks@) == first_idle_from(tasks@, i as int),
        decreases tasks@.len() - i,
    {
        let st = tasks[i];
        if matches!(st, TaskStatus::Idle) {
            return Some(i);
        }
        i += 1;
    }
    None
}

/// Whether a task's status is overdue for a speculative backup.
fn backup_due_now(st: TaskStatus, now: u64) -> (r: bool)
    ensures
        r == backup_due(st, now),
{
    match st {
        TaskStatus::InProgress { start_time, backup_scheduled } => {
            let el = if now >= start_time {
                now - start_time
            } else {
                0
            };
            !backup_scheduled && el > BACKUP_THRESHOLD_SECS
        },
        _ => false,
    }
}

/// Scan a ledger for its lowest task overdue for a backup.
fn find_backup(tasks: &Vec<TaskStatus>, now: u64) -> (r: Option<usize>)
    ensures
        match r {
            Some(i) => first_backup(tasks@, now) == Some(i as int) && i < tasks@.len()
                && backup_due(tasks@[i as int], now),
            None => first_backup(tasks@, now) is None,
        },
{
    let mut i: usize = 0;
    while i < tasks.len()
        invariant
            0 <= i <= tasks@.len(),
            first_backup(tasks@, now) == first_backup_from(tasks@, now, i as int),
        decreases tasks@.len() - i,
    {
        let st = tasks[i];
        if backup_due_now(st, now) {
            return Some(i);
        }
        i += 1;
    }
    None
}

/// The file a map task reported for partition `p`, if any.
fn lookup_partition(files: &Vec<(u32, String)>, p: u32) -> (r: Option<String>)
    ensures
        r.deep_view() == lookup_path(files@, p),
{
    let mut j: usize = 0;
    while j < files.len()
        invariant
            0 <= j <= files@.len(),
            lookup_path(files@, p) == lookup_from(files@, p, j as int),
        decreases files@.len() - j,
    {
        let e = &files[j];
        if e.0 == p {
            return Some(e.1.clone());
        }
        j += 1;
    }
    None
}

/// Collect the input files of reduce task `p` from the reported map
/// outputs, in map task id order.
fn collect_reduce_inputs(outs: &Vec<Option<Vec<(u32, String)>>>, p: u32) -> (v: Vec<String>)
    ensures
        v.deep_view() == reduce_inputs(outs@, p),
{
    let mut v: Vec<String> = Vec::new();
    let mut i: usize = 0;
    proof {
        assert(v.deep_view() =~= Seq::<Seq<char>>::empty());
        assert(v.deep_view() + reduce_inputs_from(outs@, p, 0) =~= reduce_inputs_from(
            outs@,
            p,
            0,
        ));
    }
    while i < outs.len()
        invariant
            0 <= i <= outs@.len(),
            reduce_inputs(outs@, p) =~= v.deep_view() + reduce_inputs_from(outs@, p, i as int),
        decreases outs@.len() - i,
    {
        if let Some(files) = &outs[i] {
            if let Some(path) = lookup_partition(files, p) {
                v.push(path);
            }
        }
        i += 1;
    }
    v
}

impl Master {
    /// Answer one `GetTask` request at time `now`, per the scheduling rule:
    /// `Exit` once the job is done; otherwise the lowest idle task of the
    /// active phase, else a backup copy of the lowest overdue in-flight
    /// task, else `NoTask`.
    pub fn get_task(&mut self, now: u64) -> (r: Response)
        requires
            old(self).wf(),
        ensures
            final(self).wf(),
            get_task_post(*old(self), *final(self), now, r),
            phase_le(old(self).phase, final(self).phase),
    {
        match self.phase {
            Phase::Done => Response::Exit,
            Phase::Mapping => {
                match find_idle(&self.map_task) {
                    Some(i) => {
                        self.map_task.set(
                            i,
                            TaskStatus::InProgress { start_time: now, backup_scheduled: false },
                        );
                        let mut infs: Vec<String> = Vec::new();
                        infs.push(self.input_files[i].clone());
                        proof {
                            assert(infs.deep_view() =~= seq![old(self).input_files@[i as int]@]);
                        }
                        Response::Task {
                            task_type: TaskType::MapTask,
                            task_data: TaskData {
                                task_id: i as u32,
                                input_files: infs,
                                n_reduce: self.n_reduce,
                                output_path: self.output.clone(),
                            },
                        }
                    },
                    None => match find_backup(&self.map_task, now) {
                        Some(i) => {
                            let st = self.map_task[i];
                            if let TaskStatus::InProgress { start_time, .. } = st {
                                self.map_task.set(
                                    i,
                                    TaskStatus::InProgress { start_time, backup_scheduled: true },
                                );
                            }
                            let mut infs: Vec<String> = Vec::new();
                            infs.push(self.input_files[i].clone());
                            proof {
                                assert(infs.deep_view() =~= seq![
                                    old(self).input_files@[i as int]@,
                                ]);
                            }
                            Response::Task {
                                task_type: TaskType::MapTask,
                                task_data: TaskData {
                                    task_id: i as u32,
                                    input_files: infs,
                                    n_reduce: self.n_reduce,
                                    output_path: self.output.clone(),
                                },
                            }
                        },
                        None => Response::NoTask,
                    },
                }
            },
            Phase::Reducing => {
                match find_idle(&self.reduce_task) {
                    Some(i) => {
                        self.reduce_task.set(
                            i,
                            TaskStatus::InProgress { start_time: now, backup_scheduled: false },
                        );
                        let infs = collect_reduce_inputs(&self.map_outputs, i as u32);
                        Response::Task {
                            task_type: TaskType::ReduceTask,
                            task_data: TaskData {
                                task_id: i as u32,
                                input_files: infs,
                                n_reduce: self.n_reduce,
                                output_path: self.output.clone(),
                            },
                        }
                    },
                    None => match find_backup(&self.reduce_task, now) {
                        Some(i) => {
                            let st = self.reduce_task[i];
                            if let TaskStatus::InProgress { start_time, .. } = st {
                                self.reduce_task.set(
                                    i,
                                    TaskStatus::InProgress { start_time, backup_scheduled: true },
                                );
                            }
                            let infs = collect_reduce_inputs(&self.map_outputs, i as u32);
                            Response::Task {
                                task_type: TaskType::ReduceTask,
                                task_data: TaskData {
                                    task_id: i as u32,
                                    input_files: infs,
                                    n_reduce: self.n_reduce,
                                    output_path: self.output.clone(),
                                },
                            }
                        },
                        None => Response::NoTask,
                    },
                }
            },
        }
    }
}

/// Whether every task in the ledger is `Completed`.
fn all_done(tasks: &Vec<TaskStatus>) -> (r: bool)
    ensures
        r == all_completed(tasks@),
{
    let mut i: usize = 0;
    while i < tasks.len()
        invariant
            0 <= i <= tasks@.len(),
            forall|m: int| 0 <= m < i ==> #[trigger] tasks@[m] is Completed,
        decreases tasks@.len() - i,
    {
        let st = tasks[i];
        if !matches!(st, TaskStatus::Completed) {
            return false;
        }
        i += 1;
    }
    true
}

/// Everything `handle_map_done` promises: the report is accepted if and
/// only if the task is currently `InProgress` (then it completes and its
/// files are recorded), and is silently discarded otherwise; the phase
/// advances to Reduce, creating the `n_reduce` idle reduce tasks, exactly
/// when every map task is completed afterwards and the phase was still Map.
pub open spec fn map_done_post(
    pre: Master,
    post: Master,
    task_id: u32,
    files: Vec<(u32, String)>,
) -> bool {
    let accepted = task_id < pre.map_task@.len() && pre.map_task@[task_id as int] is InProgress;
    &&& post.n_reduce == pre.n_reduce
    &&& post.input_files == pre.input_files
    &&& post.output == pre.output
    &&& (if accepted {
        post.map_task@ == pre.map_task@.update(task_id as int, TaskStatus::Completed)
            && post.map_outputs@ == pre.map_outputs@.update(task_id as int, Some(files))
    } else {
        post.map_task == pre.map_task && post.map_outputs == pre.map_outputs
    })
    &&& (if all_completed(post.map_task@) && pre.phase is Mapping {
        post.phase is Reducing && post.reduce_task@ == Seq::new(
            pre.n_reduce as nat,
            |k: int| TaskStatus::Idle,
        )
    } else {
        post.phase == pre.phase && post.reduce_task == pre.reduce_task
    })
}

/// Everything `handle_reduce_done` promises, by the same accept-if-in-
/// progress rule; the phase advances to Done exactly when every reduce
/// task is completed afterwards and the phase was still Reduce.
pub open spec fn reduce_done_post(pre: Master, post: Master, task_id: u32) -> bool {
    let accepted = task_id < pre.reduce_task@.len() && pre.reduce_task@[
        task_id as int
    ] is InProgress;
    &&& post.n_reduce == pre.n_reduce
    &&& post.input_files == pre.input_files
    &&& post.output == pre.output
    &&& post.map_task == pre.map_task
    &&& post.map_outputs == pre.map_outputs
    &&& (if accepted {
        post.reduce_task@ == pre.reduce_task@.update(task_id as int, TaskStatus::Completed)
    } else {
        post.reduce_task == pre.reduce_task
    })
    &&& (if all_completed(post.reduce_task@) && pre.phase is Reducing {
        post.phase is Done
    } else {
        post.phase == pre.phase
    })
}

impl Master {
    /// Absorb a map completion report.  Accepted only while the task is
    /// `InProgress`; a report against a reclaimed or already completed task
    /// is discarded, so a task completes at most once even under
    /// speculative duplicates and resent reports.
    pub fn handle_map_done(&mut self, task_id: u32, files: Vec<(u32, String)>)
        requires
            old(self).wf(),
        ensures
            final(self).wf(),
            map_done_post(*old(self), *final(self), task_id, files),
            phase_le(old(self).phase, final(self).phase),
    {
        let idx = task_id as usize;
        if idx < self.map_task.len() {
            let st = self.map_task[idx];
            if matches!(st, TaskStatus::InProgress { .. }) {
                self.map_task.set(idx, TaskStatus::Completed);
                self.map_outputs.set(idx, Some(files));
            }
        }
        if all_done(&self.map_task) && matches!(self.phase, Phase::Mapping) {
            self.phase = Phase::Reducing;
            let mut reduce_task: Vec<TaskStatus> = Vec::new();
            while reduce_task.len() < self.n_reduce as usize
                invariant
                    reduce_task@.len() <= self.n_reduce,
                    forall|k: int| 0 <= k < reduce_task@.len() ==> #[trigger] reduce_task@[
                        k
                    ] is Idle,
                decreases self.n_reduce - reduce_task@.len(),
            {
                reduce_task.push(TaskStatus::Idle);
            }
            proof {
                assert(reduce_task@ =~= Seq::new(self.n_reduce as nat, |k: int| TaskStatus::Idle));
            }
            self.reduce_task = reduce_task;
        }
    }

    /// Absorb a reduce completion report, by the same accept-if-in-progress
    /// rule.
    pub fn handle_reduce_done(&mut self, task_id: u32)
        requires
            old(self).wf(),
        ensures
            final(self).wf(),
            reduce_done_post(*old(self), *final(self), task_id),
            phase_le(old(self).phase, final(self).phase),
    {
        let idx = task_id as usize;
        if idx < self.reduce_task.len() {
            let st = self.reduce_task[idx];
            if matches!(st, TaskStatus::InProgress { .. }) {
                self.reduce_task.set(idx, TaskStatus::Completed);
            }
        }
        if all_done(&self.reduce_task) && matches!(self.phase, Phase::Reducing) {
            self.phase = Phase::Done;
        }
    }

    /// One health sweep at time `now`: reclaim every task, in either
    /// ledger, whose worker has been silent past `timeout_secs`, backup or
    /// not, so the task becomes assignable again.
    pub fn health_check(&mut self, timeout_secs: u64, now: u64)
        requires
            old(self).wf(),
        ensures
            final(self).wf(),
            final(self).map_task@ == sweep(old(self).map_task@, now, timeout_secs),
            final(self).reduce_task@ == sweep(old(self).reduce_task@, now, timeout_secs),
            final(self).phase == old(self).phase,
            final(self).n_reduce == old(self).n_reduce,
            final(self).input_files == old(self).input_files,
            final(self).output == old(self).output,
            final(self).map_outputs == old(self).map_outputs,
    {
        let timeout = timeout_secs;
        let mut i: usize = 0;
        while i < self.map_task.len()
            invariant
                0 <= i <= self.map_task@.len(),
                self.map_task@.len() == old(self).map_task@.len(),
                forall|m: int|
                    0 <= m < i ==> #[trigger] self.map_task@[m] == sweep(
                        old(self).map_task@,
                        now,
                        timeout,
                    )[m],
                forall|m: int|
                    i <= m < self.map_task@.len() ==> #[trigger] self.map_task@[m] == old(
                        self,
                    ).map_task@[m],
                self.reduce_task == old(self).reduce_task,
                self.phase == old(self).phase,
                self.n_reduce == old(self).n_reduce,
                self.input_files == old(self).input_files,
                self.output == old(self).output,
                self.map_outputs == old(self).map_outputs,
            decreases self.map_task@.len() - i,
        {
            let st = self.map_task[i];
            if let TaskStatus::InProgress { start_time, .. } = st {
                let el = if now >= start_time {
                    now - start_time
                } else {
                    0
                };
                if el > timeout {
                    self.map_task.set(i, TaskStatus::Idle);
                }
            }
            i += 1;
        }
        proof {
            assert(self.map_task@ =~= sweep(old(self).map_task@, now, timeout));
        }
        let mut j: usize = 0;
        while j < self.reduce_task.len()
            invariant
                0 <= j <= self.reduce_task@.len(),
                self.reduce_task@.len() == old(self).reduce_task@.len(),
                self.map_task@ == sweep(old(self).map_task@, now, timeout),
                forall|m: int|
                    0 <= m < j ==> #[trigger] self.reduce_task@[m] == sweep(
                        old(self).reduce_task@,
                        now,
                        timeout,
                    )[m],
                forall|m: int|
                    j <= m < self.reduce_task@.len() ==> #[trigger] self.reduce_task@[m] == old(
                        self,
                    ).reduce_task@[m],
                self.phase == old(self).phase,
                self.n_reduce == old(self).n_reduce,
                self.input_files == old(self).input_files,
                self.output == old(self).output,
                self.map_outputs == old(self).map_outputs,
            decreases self.reduce_task@.len() - j,
        {
            let st = self.reduce_task[j];
            if let TaskStatus::InProgress { start_time, .. } = st {
                let el = if now >= start_time {
                    now - start_time
                } else {
                    0
                };
                if el > timeout {
                    self.reduce_task.set(j, TaskStatus::Idle);
                }
            }
            j += 1;
        }
        proof {
            assert(self.reduce_task@ =~= sweep(old(self).reduce_task@, now, timeout));
            assert forall|i2: int|
                0 <= i2 < self.map_task@.len() implies ((#[trigger] self.map_outputs@[
                i2
            ]) is Some <==> self.map_task@[i2] is Completed) by {
                assert(old(self).map_outputs@[i2] is Some <==> old(self).map_task@[
                    i2
                ] is Completed);
            }
        }
    }

    /// Handle one worker request at time `now` and produce the response to
    /// send back: completion reports are acknowledged with `NoTask`.
    pub fn handle_request(&mut self, req: Request, now: u64) -> (r: Response)
        requires
            old(self).wf(),
        ensures
            final(self).wf(),
            phase_le(old(self).phase, final(self).phase),
            match req {
                Request::GetTask => get_task_post(*old(self), *final(self), now, r),
                Request::MapDone { task_id, files } => map_done_post(
                    *old(self),
                    *final(self),
                    task_id,
                    files,
                ) && r is NoTask,
                Request::ReduceDone { task_id } => reduce_done_post(
                    *old(self),
                    *final(self),
                    task_id,
                ) && r is NoTask,
            },
    {
        match req {
            Request::GetTask => self.get_task(now),
            Request::MapDone { task_id, files } => {
                self.handle_map_done(task_id, files);
                Response::NoTask
            },
            Request::ReduceDone { task_id } => {
                self.handle_reduce_done(task_id);
                Response::NoTask
            },
        }
    }
}

// ---------------------------------------------------------------------
// The per-task state machine, and what the coordinator's operations may
// do to it
// ---------------------------------------------------------------------

/// The allowed moves of one task's status: assignment, marking a backup
/// (start time kept), timeout reclaim, acceptance of a report, or no
/// change.  `Completed` has no move but staying `Completed`.
pub open spec fn status_step_ok(pre: TaskStatus, post: TaskStatus) -> bool {
    ||| post == pre
    ||| (pre is Idle && (post matches TaskStatus::InProgress { backup_scheduled: false, .. }))
    ||| (match (pre, post) {
        (
            TaskStatus::InProgress { start_time: s1, backup_scheduled: false },
            TaskStatus::InProgress { start_time: s2, backup_scheduled: true },
        ) => s1 == s2,
        _ => false,
    })
    ||| (pre is InProgress && post is Idle)
    ||| (pre is InProgress && post is Completed)
}

/// At-most-once acceptance: once a task is `Completed`, no allowed move
/// changes it, so the transition into `Completed` happens at most once.
pub proof fn lemma_completed_is_terminal(pre: TaskStatus, post: TaskStatus)
    requires
        status_step_ok(pre, post),
        pre is Completed,
    ensures
        post == pre,
{
}

/// A `GetTask` answer moves each task by an allowed step: it assigns one
/// idle task or marks one backup, and touches nothing else.
pub proof fn lemma_get_task_steps(pre: Master, post: Master, now: u64, r: Response)
    requires
        pre.wf(),
        get_task_post(pre, post, now, r),
    ensures
        post.map_task@.len() == pre.map_task@.len(),
        post.reduce_task@.len() == pre.reduce_task@.len(),
        forall|i: int|
            0 <= i < pre.map_task@.len() ==> status_step_ok(
                #[trigger] pre.map_task@[i],
                post.map_task@[i],
            ),
        forall|i: int|
            0 <= i < pre.reduce_task@.len() ==> status_step_ok(
                #[trigger] pre.reduce_task@[i],
                post.reduce_task@[i],
            ),
        phase_le(pre.phase, post.phase),
{
    match pre.phase {
        Phase::Done => {},
        Phase::Mapping => {
            match first_idle(pre.map_task@) {
                Some(i) => {
                    lemma_first_idle_found(pre.map_task@, 0, i);
                },
                None => match first_backup(pre.map_task@, now) {
                    Some(i) => {
                        lemma_first_backup_found(pre.map_task@, now, 0, i);
                    },
                    None => {},
                },
            }
        },
        Phase::Reducing => {
            match first_idle(pre.reduce_task@) {
                Some(i) => {
                    lemma_first_idle_found(pre.reduce_task@, 0, i);
                },
                None => match first_backup(pre.reduce_task@, now) {
                    Some(i) => {
                        lemma_first_backup_found(pre.reduce_task@, now, 0, i);
                    },
                    None => {},
                },
            }
        },
    }
}

/// What `first_backup_from` finds is in range and due for a backup.
pub proof fn lemma_first_backup_found(tasks: Seq<TaskStatus>, now: u64, j: int, i: int)
    requires
        0 <= j,
        first_backup_from(tasks, now, j) == Some(i),
    ensures
        j <= i < tasks.len(),
        backup_due(tasks[i], now),
    decreases tasks.len() - j,
{
    if j < tasks.len() && !backup_due(tasks[j], now) {
        lemma_first_backup_found(tasks, now, j + 1, i);
    }
}

/// What `first_idle_from` finds is in range and `Idle`.
pub proof fn lemma_first_idle_found(tasks: Seq<TaskStatus>, j: int, i: int)
    requires
        0 <= j,
        first_idle_from(tasks, j) == Some(i),
    ensures
        j <= i < tasks.len(),
        tasks[i] is Idle,
    decreases tasks.len() - j,
{
    if j < tasks.len() && !(tasks[j] is Idle) {
        lemma_first_idle_found(tasks, j + 1, i);
    }
}

/// An idle task somewhere means the scan finds one.
pub proof fn lemma_first_idle_exists(tasks: Seq<TaskStatus>, j: int, m: int)
    requires
        0 <= j <= m < tasks.len(),
        tasks[m] is Idle,
    ensures
        first_idle_from(tasks, j) is Some,
    decreases m - j,
{
    if !(tasks[j] is Idle) {
        lemma_first_idle_exists(tasks, j + 1, m);
    }
}

/// A completion report moves each task by an allowed step; reduce tasks
/// exist only once every map task is done.
pub proof fn lemma_map_done_steps(
    pre: Master,
    post: Master,
    task_id: u32,
    files: Vec<(u32, String)>,
)
    requires
        pre.wf(),
        map_done_post(pre, post, task_id, files),
    ensures
        post.map_task@.len() == pre.map_task@.len(),
        forall|i: int|
            0 <= i < pre.map_task@.len() ==> status_step_ok(
                #[trigger] pre.map_task@[i],
                post.map_task@[i],
            ),
        forall|i: int|
            0 <= i < pre.reduce_task@.len() ==> status_step_ok(
                #[trigger] pre.reduce_task@[i],
                post.reduce_task@[i],
            ),
        phase_le(pre.phase, post.phase),
{
    if all_completed(post.map_task@) && pre.phase is Mapping {
        assert(pre.reduce_task@.len() == 0);
    }
}

/// A reduce completion report moves each task by an allowed step.
pub proof fn lemma_reduce_done_steps(pre: Master, post: Master, task_id: u32)
    requires
        pre.wf(),
        reduce_done_post(pre, post, task_id),
    ensures
        post.reduce_task@.len() == pre.reduce_task@.len(),
        post.map_task == pre.map_task,
        forall|i: int|
            0 <= i < pre.reduce_task@.len() ==> status_step_ok(
                #[trigger] pre.reduce_task@[i],
                post.reduce_task@[i],
            ),
        phase_le(pre.phase, post.phase),
{
}

/// A health sweep moves each task by an allowed step: reclaim or nothing.
pub proof fn lemma_sweep_steps(tasks: Seq<TaskStatus>, now: u64, timeout: u64)
    ensures
        sweep(tasks, now, timeout).len() == tasks.len(),
        forall|i: int|
            0 <= i < tasks.len() ==> status_step_ok(
                #[trigger] tasks[i],
                sweep(tasks, now, timeout)[i],
            ),
{
}

/// Reclaim liveness: a task in flight longer than the timeout is `Idle`
/// after the sweep, and the swept ledger then has an assignable idle task
/// for the next `GetTask` to find.
pub proof fn lemma_reclaim_liveness(tasks: Seq<TaskStatus>, i: int, now: u64, timeout: u64)
    requires
        0 <= i < tasks.len(),
        timed_out(tasks[i], now, timeout),
    ensures
        sweep(tasks, now, timeout)[i] is Idle,
        first_idle(sweep(tasks, now, timeout)) is Some,
{
    lemma_first_idle_exists(sweep(tasks, now, timeout), 0, i);
}

/// Reclaim liveness, end to end: after a sweep reclaims a map task whose
/// worker fell silent, the next `GetTask` in the map phase hands out work
/// rather than `NoTask`.
pub proof fn lemma_reclaim_then_assign(
    pre: Master,
    swept: Master,
    post: Master,
    i: int,
    now: u64,
    timeout: u64,
    later: u64,
    r: Response,
)
    requires
        0 <= i < pre.map_task@.len(),
        timed_out(pre.map_task@[i], now, timeout),
        swept.map_task@ == sweep(pre.map_task@, now, timeout),
        swept.phase is Mapping,
        get_task_post(swept, post, later, r),
    ensures
        r is Task,
{
    lemma_reclaim_liveness(pre.map_task@, i, now, timeout);
}

/// At most one backup per assignment: once a backup was issued for a task,
/// no later `GetTask` finds it due for another until it is reclaimed or
/// completed.
pub proof fn lemma_backup_only_once(t: TaskStatus, now1: u64, now2: u64)
    requires
        backup_due(t, now1),
    ensures
        !backup_due(mark_backup(t), now2),
{
}

} // verus!
