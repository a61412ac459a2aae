//! A MapReduce coordination library: a coordinator hands map and reduce
//! tasks to workers, tolerates worker crashes through timeouts and
//! speculative backup assignments, and drives a job through the phases
//! Map, Reduce, Done.  The worker side partitions intermediate keys by a
//! deterministic hash, sorts and groups records, and produces the exact
//! bytes of every intermediate and final output file.

pub mod master;
pub mod models;
pub mod rpc;
pub mod text;
pub mod worker;
