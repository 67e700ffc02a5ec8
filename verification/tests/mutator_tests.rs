use diffuzzer::generator::{generate_new, rng_from_seed};
use diffuzzer::mutator::{insert, remove};
use diffuzzer::operation::{Operation, OperationKind, OperationWeights};
use diffuzzer::pathname::PathName;
use diffuzzer::workload::Workload;

#[test]
fn test_remove() {
    let w = Workload {
        ops: vec![
            Operation::MkDir { path: PathName::from_str("/foobar"), mode: vec![] },
            Operation::Create { path: PathName::from_str("/foobar/boo"), mode: vec![] },
            Operation::Create { path: PathName::from_str("/foobar/zoo"), mode: vec![] },
        ],
    };
    assert_eq!(None, remove(&w, 0));
    assert_eq!(
        Some(Workload {
            ops: vec![
                Operation::MkDir { path: PathName::from_str("/foobar"), mode: vec![] },
                Operation::Create { path: PathName::from_str("/foobar/zoo"), mode: vec![] },
            ],
        }),
        remove(&w, 1)
    );
}

#[test]
fn insert_keeps_replayability() {
    let mut rng = rng_from_seed(123);
    let w = Workload {
        ops: vec![
            Operation::MkDir { path: PathName::from_str("/foobar"), mode: vec![] },
            Operation::Create { path: PathName::from_str("/foobar/boo"), mode: vec![] },
            Operation::Remove { path: PathName::from_str("/foobar/boo") },
        ],
    };
    let weights = OperationWeights::new(vec![(OperationKind::Remove, 100)]);
    assert_eq!(None, insert(&mut rng, &w, 1, &weights));
    for at in [0usize, 2, 3] {
        if let Some(edited) = insert(&mut rng, &w, at, &weights) {
            let mut exec = diffuzzer::executor::AbstractExecutor::new();
            exec.replay(&edited).unwrap();
            assert_eq!(edited, exec.recording);
        }
    }
}

#[test]
fn generate_new_replays() {
    for seed in 0..5u64 {
        let mut rng = rng_from_seed(seed);
        let w = generate_new(&mut rng, 30);
        let mut exec = diffuzzer::executor::AbstractExecutor::new();
        exec.replay(&w).unwrap();
        assert_eq!(w, exec.recording);
    }
}

#[test]
fn smoke_mutations_stay_valid() {
    let mut rng = rng_from_seed(123);
    let mut w = generate_new(&mut rng, 10);
    let weights = OperationWeights::uniform();
    for round in 0..30usize {
        if w.ops.is_empty() || round % 2 == 0 {
            let index = round % (w.ops.len() + 1);
            if let Some(edited) = insert(&mut rng, &w, index, &weights) {
                w = edited;
            }
        } else {
            let index = round % w.ops.len();
            if let Some(edited) = remove(&w, index) {
                w = edited;
            }
        }
        let mut exec = diffuzzer::executor::AbstractExecutor::new();
        exec.replay(&w).unwrap();
        assert_eq!(w, exec.recording);
    }
}

#[test]
fn insert_remove_exact_outcome() {
    let mut rng = rng_from_seed(123);
    let w = Workload {
        ops: vec![
            Operation::MkDir { path: PathName::from_str("/foobar"), mode: vec![] },
            Operation::Create { path: PathName::from_str("/foobar/boo"), mode: vec![] },
            Operation::Remove { path: PathName::from_str("/foobar/boo") },
        ],
    };
    let weights = OperationWeights::new(vec![(OperationKind::Remove, 100)]);
    assert_eq!(None, insert(&mut rng, &w, 1, &weights));
    let mut expected_ops = w.ops.clone();
    expected_ops.push(Operation::Remove { path: PathName::from_str("/foobar") });
    assert_eq!(
        Some(Workload { ops: expected_ops }),
        insert(&mut rng, &w, 3, &weights)
    );
}

#[test]
fn generate_new_exact_length() {
    let mut rng = rng_from_seed(11);
    let w = generate_new(&mut rng, 25);
    assert_eq!(25, w.ops.len());
}
