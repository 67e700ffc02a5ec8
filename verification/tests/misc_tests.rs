use diffuzzer::feedback::{bucket, coverage_is_novel, CoverageFeedback, DummyCoverageFeedback, FeedbackOpinion};
use diffuzzer::outcome::{
    dash_diff, DashEntry, DashObjective, DiffCompleted, Fingerprint, TraceObjective,
};
use diffuzzer::reducer::{diffs_equal, ReduceAction, ReduceOutcome, Reducer};
use diffuzzer::trace::{Trace, TraceRow};

fn row(command: &str, return_code: i32, errno: &str) -> TraceRow {
    TraceRow {
        index: 1,
        command: command.to_owned(),
        return_code,
        errno: errno.to_owned(),
    }
}

#[test]
fn trace_objective_compares_projection() {
    let objective = TraceObjective::new();
    let a = Trace { rows: vec![row("Create", 0, "Success(0)")] };
    let b = Trace { rows: vec![row("Create", 0, "Success(0)")] };
    assert!(!objective.is_interesting(&a, &b));
    let c = Trace { rows: vec![row("Create", -1, "Error(2)")] };
    assert!(objective.is_interesting(&a, &c));
    let longer = Trace {
        rows: vec![row("Create", 0, "Success(0)"), row("Remove", 0, "Success(0)")],
    };
    assert!(objective.is_interesting(&a, &longer));
}

fn entry(path: &str, size: u64) -> DashEntry {
    DashEntry {
        path: path.to_owned(),
        print: Fingerprint { size, nlink: 1, mode: 0o644, content_hash: size * 7 },
    }
}

#[test]
fn dash_objective_compares_trees() {
    let objective = DashObjective::new();
    let a = vec![entry("/x", 3), entry("/y", 5)];
    let b = vec![entry("/x", 3), entry("/y", 5)];
    assert!(!objective.is_interesting(&a, &b));
    let c = vec![entry("/x", 3), entry("/y", 6)];
    assert!(objective.is_interesting(&a, &c));
    let d = vec![entry("/x", 3)];
    assert!(objective.is_interesting(&a, &d));
    assert_eq!(0, dash_diff(&a, &b).len());
    assert_eq!(2, dash_diff(&a, &c).len());
}

#[test]
fn diff_outcome_combines_verdicts() {
    let quiet = DiffCompleted {
        fst_trace: Trace { rows: vec![] },
        snd_trace: Trace { rows: vec![] },
        trace_diff: false,
        dash_diff: vec![],
    };
    assert!(!quiet.any_interesting());
    let loud = DiffCompleted {
        fst_trace: Trace { rows: vec![] },
        snd_trace: Trace { rows: vec![] },
        trace_diff: true,
        dash_diff: vec![],
    };
    assert!(loud.trace_interesting());
    assert!(loud.any_interesting());
    assert!(!loud.dash_interesting());
}

#[test]
fn coverage_buckets_and_novelty() {
    assert_eq!(0, bucket(0));
    assert_eq!(1, bucket(1));
    assert_eq!(2, bucket(2));
    assert_eq!(2, bucket(3));
    assert_eq!(3, bucket(4));
    assert!(coverage_is_novel(&vec![0, 0], &vec![0, 1]));
    assert!(coverage_is_novel(&vec![1, 2], &vec![1, 4]));
    assert!(!coverage_is_novel(&vec![1, 3], &vec![1, 2]));
    assert!(!coverage_is_novel(&vec![4, 4], &vec![4, 4]));
}

#[test]
fn dummy_feedback_never_interested() {
    let mut feedback = DummyCoverageFeedback::new();
    let opinion = feedback.opinion(&vec![]);
    assert!(matches!(opinion, FeedbackOpinion::NotInteresting(_)));
    assert!(!opinion.is_interesting());
}

#[test]
fn reducer_walks_indices_backwards() {
    let mut rng = diffuzzer::generator::rng_from_seed(7);
    let w = diffuzzer::generator::generate_new(&mut rng, 6);
    let mut reducer = Reducer::new(w);
    let mut rounds = 0usize;
    loop {
        match reducer.next_candidate() {
            ReduceAction::Try(candidate) => {
                let mut exec = diffuzzer::executor::AbstractExecutor::new();
                exec.replay(&candidate).unwrap();
                reducer.report(candidate, ReduceOutcome::OtherBehaviour);
            }
            ReduceAction::Done => break,
        }
        rounds += 1;
        assert!(rounds <= 64);
    }
}

#[test]
fn diff_lists_compare_exactly() {
    let a = dash_diff(&vec![entry("/x", 3)], &vec![entry("/x", 4)]);
    let b = dash_diff(&vec![entry("/x", 3)], &vec![entry("/x", 4)]);
    let c = dash_diff(&vec![entry("/x", 3)], &vec![entry("/x", 3)]);
    assert!(diffs_equal(&a, &b));
    assert!(!diffs_equal(&a, &c));
}

#[test]
fn filesystem_table() {
    let names = diffuzzer::filesystems::filesystems_available();
    assert_eq!(6, names.len());
    assert_eq!("ext4".to_owned(), names[0]);
    assert!(diffuzzer::filesystems::filesystem_known("btrfs"));
    assert!(!diffuzzer::filesystems::filesystem_known("unknownfs"));
}

#[test]
fn stats_counters() {
    let mut stats = diffuzzer::stats::Stats::new();
    assert_eq!(0, stats.executions);
    stats.count_execution();
    stats.count_crash();
    assert_eq!(1, stats.executions);
    assert_eq!(1, stats.crashes);
}

#[test]
fn corpus_round_robin() {
    let seed = diffuzzer::workload::Workload::new();
    let mut corpus = diffuzzer::corpus::Corpus::new(seed);
    corpus.add(diffuzzer::workload::Workload::new());
    corpus.add(diffuzzer::workload::Workload::new());
    assert_eq!(3, corpus.len());
    assert_eq!(0, corpus.select());
    assert_eq!(1, corpus.select());
    assert_eq!(2, corpus.select());
    assert_eq!(0, corpus.select());
}

#[test]
fn coverage_merge_keeps_larger() {
    let mut map = vec![1u64, 5, 0];
    diffuzzer::corpus::merge_coverage(&mut map, &vec![3, 2, 0]);
    assert_eq!(vec![3u64, 5, 0], map);
}
