//! The coordinator: scheduling, phase transitions, duplicate and stale
//! reports, speculative backups, and timeout reclaim.

use std::collections::HashMap;

use mapreduce::master::Master;
use mapreduce::models::Report;
use mapreduce::rpc::{Phase, Request, Response, TaskStatus, TaskType};
use mapreduce::worker::Worker;

fn assignment(resp: Response) -> (TaskType, u32, Vec<String>, u32, String) {
    match resp {
        Response::Task { task_type, task_data } => (
            task_type,
            task_data.task_id,
            task_data.input_files,
            task_data.n_reduce,
            task_data.output_path,
        ),
        other => panic!("expected an assignment, got {:?}", other),
    }
}

#[test]
fn new_job_starts_in_map_phase_with_idle_tasks() {
    let m = Master::new(vec!["f0".to_string(), "f1".to_string()], 3, "out".to_string());
    assert_eq!(m.phase, Phase::Mapping);
    assert_eq!(m.map_task, vec![TaskStatus::Idle, TaskStatus::Idle]);
    assert!(m.reduce_task.is_empty());
    assert_eq!(m.n_reduce, 3);
}

#[test]
fn end_to_end_two_files_two_partitions() {
    // Two input files, R = 2: the full job, with the worker engine doing
    // the computing and this test standing in for the filesystem.
    let inputs = vec!["the fox".to_string(), "the dog".to_string()];
    let names = vec!["f0".to_string(), "f1".to_string()];
    let mut m = Master::new(names, 2, "out".to_string());
    let mut disk: HashMap<String, String> = HashMap::new();

    // Map stage: both tasks assigned, run, and reported.
    for step in 0..2u64 {
        let resp = m.handle_request(Request::GetTask, step);
        let (tt, id, _files, n_reduce, out) = assignment(resp);
        assert_eq!(tt, TaskType::MapTask);
        assert_eq!(n_reduce, 2);
        let data = mapreduce::rpc::TaskData {
            task_id: id,
            input_files: vec![format!("f{}", id)],
            n_reduce,
            output_path: out,
        };
        let w = Worker::new(data, TaskType::MapTask);
        let (writes, report) = w.run(&vec![inputs[id as usize].clone()]);
        for fw in writes {
            disk.insert(fw.final_name.clone(), fw.contents);
        }
        let files = match report {
            Report::MapDone { taskid, files } => {
                assert_eq!(taskid, id);
                files
            }
            other => panic!("expected MapDone, got {:?}", other),
        };
        // Phase may advance only once the second report lands.
        assert_eq!(m.phase, Phase::Mapping);
        m.handle_request(Request::MapDone { task_id: id, files }, step);
    }
    assert_eq!(m.phase, Phase::Reducing);
    assert_eq!(m.reduce_task.len(), 2);

    // Reduce stage: each task reads one file per completed map task, the
    // one keyed by its own partition id.
    let mut outputs: Vec<String> = Vec::new();
    for step in 2..4u64 {
        let resp = m.handle_request(Request::GetTask, step);
        let (tt, id, in_files, n_reduce, out) = assignment(resp);
        assert_eq!(tt, TaskType::ReduceTask);
        let contents: Vec<String> = in_files.iter().map(|f| disk[f].clone()).collect();
        let data = mapreduce::rpc::TaskData {
            task_id: id,
            input_files: in_files,
            n_reduce,
            output_path: out,
        };
        let w = Worker::new(data, TaskType::ReduceTask);
        let (writes, report) = w.run(&contents);
        assert_eq!(writes.len(), 1);
        assert_eq!(writes[0].final_name, format!("out/mr-out-{}", id));
        outputs.push(writes[0].contents.clone());
        assert!(matches!(report, Report::ReducerDone { .. }));
        assert_eq!(m.phase, Phase::Reducing);
        m.handle_request(Request::ReduceDone { task_id: id }, step);
    }
    assert_eq!(m.phase, Phase::Done);

    // "the" was seen twice, and lands in exactly one output file; "fox"
    // and "dog" once each.
    let with_the: Vec<&String> = outputs.iter().filter(|o| o.contains("the 2\n")).collect();
    assert_eq!(with_the.len(), 1);
    let all: String = outputs.concat();
    assert!(all.contains("fox 1\n"));
    assert!(all.contains("dog 1\n"));
    assert!(!all.contains("the 1\n"));

    // Done means Exit for every further request.
    assert!(matches!(m.handle_request(Request::GetTask, 9), Response::Exit));
}

#[test]
fn no_map_tasks_after_map_phase() {
    let mut m = Master::new(vec!["f0".to_string()], 1, "out".to_string());
    let resp = m.handle_request(Request::GetTask, 0);
    let (tt, id, _, _, _) = assignment(resp);
    assert_eq!(tt, TaskType::MapTask);
    m.handle_request(
        Request::MapDone { task_id: id, files: vec![(0, "out/mr-0-0".to_string())] },
        0,
    );
    assert_eq!(m.phase, Phase::Reducing);
    // From now on only reduce work is handed out.
    let resp = m.handle_request(Request::GetTask, 1);
    let (tt, _, in_files, _, _) = assignment(resp);
    assert_eq!(tt, TaskType::ReduceTask);
    assert_eq!(in_files, vec!["out/mr-0-0".to_string()]);
}

#[test]
fn backup_is_issued_once_after_the_threshold() {
    let mut m = Master::new(vec!["f0".to_string()], 1, "out".to_string());
    // Assigned at t = 0.
    let (_, id, _, _, _) = assignment(m.handle_request(Request::GetTask, 0));
    assert_eq!(id, 0);
    // Not yet overdue: nothing to hand out.
    assert!(matches!(m.handle_request(Request::GetTask, 5), Response::NoTask));
    assert!(matches!(m.handle_request(Request::GetTask, 10), Response::NoTask));
    // Past the 10 s threshold: exactly one backup of the same task.
    let (tt, id, files, _, _) = assignment(m.handle_request(Request::GetTask, 11));
    assert_eq!(tt, TaskType::MapTask);
    assert_eq!(id, 0);
    assert_eq!(files, vec!["f0".to_string()]);
    // No second backup before completion or reclaim.
    assert!(matches!(m.handle_request(Request::GetTask, 12), Response::NoTask));
    assert!(matches!(m.handle_request(Request::GetTask, 1000), Response::NoTask));
}

#[test]
fn overdue_task_is_reclaimed_by_the_sweep() {
    let mut m = Master::new(vec!["f0".to_string()], 1, "out".to_string());
    let (_, _, _, _, _) = assignment(m.handle_request(Request::GetTask, 0));
    // The speculative backup goes out first, past the 10 s threshold.
    assignment(m.handle_request(Request::GetTask, 11));
    // A sweep before the timeout leaves the task in flight.
    m.health_check(30, 29);
    assert!(matches!(m.map_task[0], TaskStatus::InProgress { .. }));
    assert!(matches!(m.handle_request(Request::GetTask, 29), Response::NoTask));
    // Past the timeout the task becomes idle and assignable again.
    m.health_check(30, 40);
    assert_eq!(m.map_task[0], TaskStatus::Idle);
    let (tt, id, _, _, _) = assignment(m.handle_request(Request::GetTask, 40));
    assert_eq!(tt, TaskType::MapTask);
    assert_eq!(id, 0);
}

#[test]
fn sweep_reclaims_backed_up_tasks_too() {
    let mut m = Master::new(vec!["f0".to_string()], 1, "out".to_string());
    assignment(m.handle_request(Request::GetTask, 0));
    assignment(m.handle_request(Request::GetTask, 11)); // the backup
    m.health_check(30, 31);
    assert_eq!(m.map_task[0], TaskStatus::Idle);
}

#[test]
fn duplicate_report_is_discarded() {
    let mut m = Master::new(vec!["f0".to_string()], 1, "out".to_string());
    assignment(m.handle_request(Request::GetTask, 0));
    assignment(m.handle_request(Request::GetTask, 11)); // speculative copy
    let files = vec![(0u32, "out/mr-0-0".to_string())];
    m.handle_request(Request::MapDone { task_id: 0, files: files.clone() }, 12);
    assert_eq!(m.map_task[0], TaskStatus::Completed);
    assert_eq!(m.phase, Phase::Reducing);
    // The second copy's report finds the task no longer in progress.
    let other = vec![(0u32, "out/elsewhere".to_string())];
    m.handle_request(Request::MapDone { task_id: 0, files: other }, 13);
    assert_eq!(m.map_outputs[0], Some(files));
    assert_eq!(m.map_task[0], TaskStatus::Completed);
}

#[test]
fn stale_report_after_reclaim_is_discarded() {
    let mut m = Master::new(vec!["f0".to_string()], 1, "out".to_string());
    assignment(m.handle_request(Request::GetTask, 0));
    m.health_check(30, 40);
    assert_eq!(m.map_task[0], TaskStatus::Idle);
    // The straggler's report arrives after the reclaim: ignored.
    m.handle_request(
        Request::MapDone { task_id: 0, files: vec![(0, "late".to_string())] },
        41,
    );
    assert_eq!(m.map_task[0], TaskStatus::Idle);
    assert_eq!(m.map_outputs[0], None);
    assert_eq!(m.phase, Phase::Mapping);
}

#[test]
fn reports_for_unknown_tasks_are_ignored() {
    let mut m = Master::new(vec!["f0".to_string()], 1, "out".to_string());
    m.handle_request(Request::MapDone { task_id: 7, files: vec![] }, 0);
    assert_eq!(m.map_task[0], TaskStatus::Idle);
    assert_eq!(m.phase, Phase::Mapping);
    m.handle_request(Request::ReduceDone { task_id: 0 }, 0);
    assert_eq!(m.phase, Phase::Mapping);
}

#[test]
fn phase_never_moves_backwards() {
    let mut m = Master::new(vec!["f0".to_string()], 1, "out".to_string());
    let order = |p: Phase| match p {
        Phase::Mapping => 0,
        Phase::Reducing => 1,
        Phase::Done => 2,
    };
    let mut last = order(m.phase);
    let steps: Vec<Request> = vec![
        Request::GetTask,
        Request::MapDone { task_id: 0, files: vec![(0, "out/mr-0-0".to_string())] },
        Request::MapDone { task_id: 0, files: vec![] },
        Request::GetTask,
        Request::ReduceDone { task_id: 0 },
        Request::ReduceDone { task_id: 0 },
        Request::GetTask,
    ];
    for (t, req) in steps.into_iter().enumerate() {
        m.handle_request(req, t as u64);
        let now = order(m.phase);
        assert!(now >= last);
        last = now;
    }
    assert_eq!(m.phase, Phase::Done);
}
