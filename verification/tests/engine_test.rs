use xim::engine::EngineBuffers;
use xim::{Executor, MemoryPlanner, OpCode, XimError, XimGraph};

#[test]
fn parameters_are_staged_by_increasing_id() {
    let mut b = EngineBuffers::new();
    b.set_parameter(7, vec![70, 71]);
    b.set_parameter(2, vec![20]);
    b.set_parameter(5, vec![50, 51, 52]);
    assert_eq!(b.total_param_len(), Some(6));
    b.stage_inputs(&[1, 2]).unwrap();
    assert_eq!(b.input_buffer, vec![1, 2, 20, 50, 51, 52, 70, 71]);
    let ids: Vec<u32> = b.parameters.iter().map(|p| p.0).collect();
    assert_eq!(ids, vec![2, 5, 7]);
}

#[test]
fn setting_a_parameter_again_replaces_it() {
    let mut b = EngineBuffers::new();
    b.set_parameter(1, vec![10]);
    b.set_parameter(1, vec![11, 12]);
    assert_eq!(b.parameters.len(), 1);
    assert_eq!(b.parameters[0], (1, vec![11, 12]));
}

#[test]
fn staged_parameters_stay_while_the_length_holds() {
    let mut b = EngineBuffers::new();
    b.set_parameter(0, vec![5, 6]);
    b.stage_inputs(&[1]).unwrap();
    assert_eq!(b.input_buffer, vec![1, 5, 6]);
    // Same total length: only the inputs are rewritten.
    b.set_parameter(0, vec![8, 9]);
    b.stage_inputs(&[3]).unwrap();
    assert_eq!(b.input_buffer, vec![3, 5, 6]);
    // A new length restages the parameters.
    b.stage_inputs(&[3, 4]).unwrap();
    assert_eq!(b.input_buffer, vec![3, 4, 8, 9]);
}

#[test]
fn outputs_are_resized_with_zeros() {
    let mut b = EngineBuffers::new();
    b.prepare_outputs(3);
    assert_eq!(b.output_buffer, vec![0, 0, 0]);
    b.output_buffer[0] = 9;
    b.prepare_outputs(2);
    assert_eq!(b.output_buffer, vec![9, 0]);
}

#[test]
fn interpreter_runs_on_staged_buffers() {
    let mut g = XimGraph::new();
    g.add_instruction(OpCode::LoadVarVec(0, 0, 4));
    g.add_instruction(OpCode::AddVec(0, 2, 4, 2));
    g.add_instruction(OpCode::StoreVec(4, 0, 2));
    MemoryPlanner::plan(&mut g);
    let mut b = EngineBuffers::new();
    b.set_parameter(3, vec![100, 200]);
    b.stage_inputs(&[1, 2]).unwrap();
    b.prepare_outputs(2);
    let mut ex = Executor::new(g.memory_size);
    b.run_interpreter(&mut ex, &g).unwrap();
    assert_eq!(b.output_buffer, vec![101, 202]);
}

#[test]
fn interpreter_reports_short_output_buffer() {
    let mut g = XimGraph::new();
    g.add_instruction(OpCode::LoadVarVec(0, 0, 2));
    g.add_instruction(OpCode::StoreVec(0, 0, 2));
    MemoryPlanner::plan(&mut g);
    let mut b = EngineBuffers::new();
    b.stage_inputs(&[1, 2]).unwrap();
    b.prepare_outputs(1);
    let mut ex = Executor::new(g.memory_size);
    assert!(matches!(b.run_interpreter(&mut ex, &g), Err(XimError::ShapeMismatch { expected: 2, found: 1 })));
}
