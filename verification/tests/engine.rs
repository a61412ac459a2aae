//! The worker engine: hashing, tokenizing, partitioning, record parsing,
//! sorting, grouping, and whole-task execution.

use mapreduce::models::Report;
use mapreduce::rpc::{TaskData, TaskType};
use mapreduce::text::{parse_u32, split_str, str_le, u64_to_string, words};
use mapreduce::worker::{
    group_and_reduce, ihash, map_words, parse_record, parse_records, partition_for,
    partition_pairs, reduce, run_map, run_reduce, sort_pairs, Worker,
};

#[test]
fn hash_is_deterministic_across_calls() {
    let a = ihash("the");
    let b = ihash("the");
    assert_eq!(a, b);
    let p1 = partition_for("the", 2);
    let p2 = partition_for("the", 2);
    assert_eq!(p1, p2);
    assert!(p1 < 2);
}

#[test]
fn different_tasks_agree_on_partitions() {
    // The partition of a key does not depend on which map task computes it.
    for key in ["the", "fox", "dog", ""].iter() {
        let first = partition_for(key, 5);
        for _ in 0..3 {
            assert_eq!(partition_for(key, 5), first);
        }
        assert_eq!(first, ihash(key) % 5);
    }
}

#[test]
fn words_split_on_whitespace() {
    let w = words("the fox");
    assert_eq!(w, vec!["the".to_string(), "fox".to_string()]);
    let w = words("  a \t b \n c  ");
    assert_eq!(w, vec!["a".to_string(), "b".to_string(), "c".to_string()]);
    let w = words("");
    assert!(w.is_empty());
    let w = words("   ");
    assert!(w.is_empty());
}

#[test]
fn split_str_keeps_every_piece() {
    let parts = split_str("a,b,,c", ',');
    assert_eq!(
        parts,
        vec!["a".to_string(), "b".to_string(), "".to_string(), "c".to_string()]
    );
    let parts = split_str("", '\n');
    assert_eq!(parts, vec!["".to_string()]);
}

#[test]
fn str_le_is_lexicographic() {
    assert!(str_le("", "a"));
    assert!(str_le("a", "a"));
    assert!(str_le("a", "b"));
    assert!(!str_le("b", "a"));
    assert!(str_le("ab", "b"));
    assert!(str_le("a", "ab"));
    assert!(!str_le("ab", "a"));
}

#[test]
fn numbers_render_and_parse() {
    assert_eq!(u64_to_string(0), "0");
    assert_eq!(u64_to_string(1234), "1234");
    assert_eq!(u64_to_string(u64::MAX), format!("{}", u64::MAX));
    assert_eq!(parse_u32("0"), 0);
    assert_eq!(parse_u32("4294967295"), u32::MAX);
    // Out of range, empty, or non-digit reads as 0.
    assert_eq!(parse_u32("4294967296"), 0);
    assert_eq!(parse_u32(""), 0);
    assert_eq!(parse_u32("12x"), 0);
    assert_eq!(parse_u32("-1"), 0);
}

#[test]
fn map_words_emits_one_pair_per_token() {
    let kvs = map_words("file0", "the fox the");
    let got: Vec<(String, String)> = kvs.iter().map(|kv| (kv.key.clone(), kv.value.clone())).collect();
    assert_eq!(
        got,
        vec![
            ("the".to_string(), "1".to_string()),
            ("fox".to_string(), "1".to_string()),
            ("the".to_string(), "1".to_string()),
        ]
    );
}

#[test]
fn partitioning_routes_by_hash() {
    let kvs = map_words("f", "the fox dog");
    let buckets = partition_pairs(&kvs, 2);
    assert_eq!(buckets.len(), 2);
    for key in ["the", "fox", "dog"].iter() {
        let p = partition_for(key, 2) as usize;
        let line = format!("{},1;\n", key);
        assert!(buckets[p].contains(&line));
        assert!(!buckets[1 - p].contains(&line));
    }
}

#[test]
fn record_lines_parse_back() {
    assert_eq!(parse_record("the,1;"), Some(("the".to_string(), 1)));
    assert_eq!(parse_record("fox,42;"), Some(("fox".to_string(), 42)));
    // Malformed or empty-keyed lines are skipped, and a bad count reads 0.
    assert_eq!(parse_record(""), None);
    assert_eq!(parse_record("the,1"), None);
    assert_eq!(parse_record("the;"), None);
    assert_eq!(parse_record(",1;"), None);
    assert_eq!(parse_record("the,x;"), Some(("the".to_string(), 0)));
}

#[test]
fn malformed_lines_are_skipped_not_fatal() {
    let recs = parse_records("the,1;\ngarbage\nfox,2;\n,9;\n");
    assert_eq!(
        recs,
        vec![("the".to_string(), 1), ("fox".to_string(), 2)]
    );
}

#[test]
fn sort_is_stable_and_ordered() {
    let recs = vec![
        ("b".to_string(), 1),
        ("a".to_string(), 2),
        ("b".to_string(), 3),
        ("a".to_string(), 4),
    ];
    let sorted = sort_pairs(recs);
    assert_eq!(
        sorted,
        vec![
            ("a".to_string(), 2),
            ("a".to_string(), 4),
            ("b".to_string(), 1),
            ("b".to_string(), 3),
        ]
    );
}

#[test]
fn reduce_formats_the_sum() {
    assert_eq!(reduce("the".to_string(), vec![1, 1]), "the 2");
    assert_eq!(reduce("x".to_string(), vec![]), "x 0");
    assert_eq!(reduce("y".to_string(), vec![7]), "y 7");
}

#[test]
fn grouping_sums_equal_keys() {
    let recs = vec![
        ("a".to_string(), 1),
        ("a".to_string(), 2),
        ("b".to_string(), 5),
    ];
    assert_eq!(group_and_reduce(&recs), "a 3\nb 5\n");
    let empty: Vec<(String, u32)> = Vec::new();
    assert_eq!(group_and_reduce(&empty), "");
}

#[test]
fn map_task_writes_only_nonempty_partitions() {
    let (writes, files) = run_map(3, "f3", "the fox", 2, "out");
    assert_eq!(writes.len(), files.len());
    let p_the = partition_for("the", 2);
    let p_fox = partition_for("fox", 2);
    let mut expected: Vec<u32> = vec![p_the, p_fox];
    expected.sort();
    expected.dedup();
    let got: Vec<u32> = files.iter().map(|e| e.0).collect();
    assert_eq!(got, expected);
    for (k, w) in files.iter().zip(writes.iter()) {
        assert_eq!(w.final_name, format!("out/mr-3-{}", k.0));
        assert_eq!(w.temp_name, format!("out/mr-3-{}.tmp", k.0));
        assert_eq!(k.1, w.final_name);
        assert!(!w.contents.is_empty());
    }
}

#[test]
fn empty_input_writes_nothing() {
    let (writes, files) = run_map(0, "f0", "", 4, "out");
    assert!(writes.is_empty());
    assert!(files.is_empty());
}

#[test]
fn reduce_task_output_is_sorted_and_named() {
    let contents = vec!["the,1;\n".to_string(), "fox,1;\nthe,1;\n".to_string()];
    let w = run_reduce(1, &contents, "out");
    assert_eq!(w.final_name, "out/mr-out-1");
    assert_eq!(w.temp_name, "out/mr-out-1.tmp");
    assert_eq!(w.contents, "fox 1\nthe 2\n");
}

#[test]
fn rerunning_a_map_task_is_byte_identical() {
    let (w1, f1) = run_map(0, "f0", "the fox the dog", 3, "out");
    let (w2, f2) = run_map(0, "f0", "the fox the dog", 3, "out");
    assert_eq!(f1, f2);
    assert_eq!(w1.len(), w2.len());
    for (a, b) in w1.iter().zip(w2.iter()) {
        assert_eq!(a.temp_name, b.temp_name);
        assert_eq!(a.final_name, b.final_name);
        assert_eq!(a.contents, b.contents);
    }
}

#[test]
fn rerunning_a_reduce_task_is_byte_identical() {
    let contents = vec!["a,1;\nb,2;\n".to_string(), "a,4;\n".to_string()];
    let w1 = run_reduce(2, &contents, "out");
    let w2 = run_reduce(2, &contents, "out");
    assert_eq!(w1.final_name, w2.final_name);
    assert_eq!(w1.temp_name, w2.temp_name);
    assert_eq!(w1.contents, w2.contents);
    assert_eq!(w1.contents, "a 5\nb 2\n");
}

#[test]
fn worker_runs_its_task_kind() {
    let data = TaskData {
        task_id: 0,
        input_files: vec!["f0".to_string()],
        n_reduce: 2,
        output_path: "out".to_string(),
    };
    let w = Worker::new(data, TaskType::MapTask);
    let (writes, report) = w.run(&vec!["the fox".to_string()]);
    match report {
        Report::MapDone { taskid, files } => {
            assert_eq!(taskid, 0);
            assert_eq!(files.len(), writes.len());
        }
        _ => panic!("expected MapDone"),
    }

    let data = TaskData {
        task_id: 1,
        input_files: vec![],
        n_reduce: 2,
        output_path: "out".to_string(),
    };
    let w = Worker::new(data, TaskType::ReduceTask);
    let (writes, report) = w.run(&vec!["the,1;\n".to_string()]);
    assert_eq!(writes.len(), 1);
    assert_eq!(writes[0].contents, "the 1\n");
    assert!(matches!(report, Report::ReducerDone { taskid: 1 }));

    let data = TaskData {
        task_id: 0,
        input_files: vec![],
        n_reduce: 0,
        output_path: String::new(),
    };
    let w = Worker::new(data, TaskType::Exit);
    let (writes, report) = w.run(&Vec::new());
    assert!(writes.is_empty());
    assert!(matches!(report, Report::Exit));
}
