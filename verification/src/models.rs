//! Types the worker engine works with: key/value records, the task
//! description it receives, and the report it hands back.

use vstd::prelude::*;

verus! {

/// One intermediate record: an ordered (key, value) pair.
#[derive(Debug, Clone)]
pub struct KeyValue {
    pub key: String,
    pub value: String,
}

impl View for KeyValue {
    type V = (Seq<char>, Seq<char>);

    open spec fn view(&self) -> (Seq<char>, Seq<char>) {
        (self.key@, self.value@)
    }
}

impl DeepView for KeyValue {
    type V = (Seq<char>, Seq<char>);

    open spec fn deep_view(&self) -> (Seq<char>, Seq<char>) {
        self.view()
    }
}

/// The kind of work a worker was constructed for.
#[derive(Debug, Clone, Copy, PartialEq, Eq, Structural)]
pub enum TaskType {
    MapTask,
    ReduceTask,
}

/// Everything one task execution needs.
#[derive(Debug)]
pub struct TaskData {
    pub task_id: u32,
    pub input_files: Vec<String>,
    pub n_reduce: u32,
    pub output_path: String,
}

/// What a worker reports after running one task.
#[derive(Debug)]
pub enum Report {
    /// A map task finished; `files` maps each partition id that received
    /// data to the intermediate file written for it.
    MapDone { taskid: u32, files: Vec<(u32, String)> },
    /// A reduce task finished.
    ReducerDone { taskid: u32 },
    /// Nothing was run; the caller should stop or ask again.
    Exit,
}

} // verus!
