use xim::{MemoryPlanner, OpCode, PipelineExecutor, XimError, XimGraph};

fn planned(ops: &[OpCode]) -> XimGraph {
    let mut g = XimGraph::new();
    for op in ops {
        g.add_instruction(*op);
    }
    MemoryPlanner::plan(&mut g);
    g
}

// Layer 1 adds its parameters to the token, layer 2 doubles the token
// (multiplication by 2.0 in Q8.8).
fn two_layers() -> PipelineExecutor {
    let add_params = planned(&[
        OpCode::LoadVarVec(0, 0, 4),
        OpCode::AddVec(0, 2, 4, 2),
        OpCode::StoreVec(4, 0, 2),
    ]);
    let double = planned(&[
        OpCode::LoadVarVec(0, 0, 2),
        OpCode::MulScalarVec(0, 512, 3, 2),
        OpCode::StoreVec(3, 0, 2),
    ]);
    PipelineExecutor::new(vec![add_params, double], vec![vec![10, 20], vec![7]], vec![2, 2], vec![2, 2])
}

#[test]
fn pipeline_runs_layers_in_order() {
    let p = two_layers();
    let out = p.execute(&[1, 2, 3, 4], 2).unwrap();
    assert_eq!(out, vec![22, 44, 26, 48]);
}

#[test]
fn pipeline_ignores_inputs_past_the_batch() {
    let p = two_layers();
    let out = p.execute(&[1, 2, 3, 4, 5, 6], 1).unwrap();
    assert_eq!(out, vec![22, 44]);
}

#[test]
fn pipeline_with_empty_batch_is_empty() {
    let p = two_layers();
    assert_eq!(p.execute(&[1, 2], 0).unwrap(), Vec::<i16>::new());
}

#[test]
fn pipeline_without_layers_returns_its_input() {
    let p = PipelineExecutor::new(vec![], vec![], vec![], vec![]);
    assert_eq!(p.execute(&[5, -6, 7], 3).unwrap(), vec![5, -6, 7]);
}

#[test]
fn pipeline_reports_short_input() {
    let p = two_layers();
    match p.execute(&[1, 2, 3], 2) {
        Err(XimError::ShapeMismatch { expected, found }) => {
            assert_eq!(expected, 4);
            assert_eq!(found, 3);
        }
        other => panic!("unexpected result {:?}", other),
    }
}

#[test]
fn pipeline_reports_mismatched_layer_sizes() {
    let g1 = planned(&[OpCode::LoadVarVec(0, 0, 2), OpCode::StoreVec(0, 0, 2)]);
    let g2 = planned(&[OpCode::LoadVarVec(0, 0, 3), OpCode::StoreVec(0, 0, 3)]);
    let p = PipelineExecutor::new(vec![g1, g2], vec![vec![], vec![]], vec![2, 3], vec![2, 3]);
    match p.execute(&[1, 2], 1) {
        Err(XimError::ShapeMismatch { expected, found }) => {
            assert_eq!(expected, 3);
            assert_eq!(found, 2);
        }
        other => panic!("unexpected result {:?}", other),
    }
}

#[test]
fn pipeline_reports_missing_layer_info() {
    let g = planned(&[OpCode::LoadVarVec(0, 0, 2), OpCode::StoreVec(0, 0, 2)]);
    let p = PipelineExecutor::new(vec![g], vec![], vec![2], vec![2]);
    assert!(matches!(p.execute(&[1, 2], 1), Err(XimError::InvalidGraph(_))));
}

#[test]
fn pipeline_reports_layer_fault() {
    // The layer reads past its input buffer.
    let g = planned(&[OpCode::LoadVarVec(0, 0, 4), OpCode::StoreVec(0, 0, 2)]);
    let p = PipelineExecutor::new(vec![g], vec![vec![]], vec![2], vec![2]);
    assert!(matches!(p.execute(&[1, 2], 1), Err(XimError::ShapeMismatch { expected: 4, found: 2 })));
}

#[test]
fn layer_runner_keeps_its_machine_between_tokens() {
    let p = two_layers();
    let mut r = p.layer_runner(0).unwrap();
    assert_eq!(r.in_size(), 2);
    assert_eq!(r.run_token(&[1, 2]).unwrap(), vec![11, 22]);
    assert_eq!(r.run_token(&[3, 4]).unwrap(), vec![13, 24]);
    assert!(p.layer_runner(2).is_none());
}

#[test]
fn split_batch_checks_and_splits() {
    let p = two_layers();
    assert_eq!(p.layer_count(), 2);
    assert_eq!(p.split_batch(&[1, 2, 3, 4, 5], 2).unwrap(), vec![vec![1, 2], vec![3, 4]]);
    assert!(matches!(p.split_batch(&[1, 2, 3], 2), Err(XimError::ShapeMismatch { expected: 4, found: 3 })));
    assert!(p.split_batch(&[], 0).unwrap().is_empty());
}
