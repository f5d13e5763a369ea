use xim::demo::{inference_graph, train, training_graph, DEMO_TENSOR_LEN};
use xim::loader::i16_count;
use xim::{Executor, MemoryPlanner, OpCode, XimError, XimGraph};

#[test]
fn benchmark_graphs_are_planned() {
    let g = inference_graph(false);
    assert_eq!(g.instructions.len(), 6);
    assert_eq!(g.memory_size, 5_000_000);
    assert_eq!(g.instructions[4].op, OpCode::MulVec(3_000_000, 2_000_000, 4_000_000, DEMO_TENSOR_LEN));
    assert_eq!(inference_graph(true).memory_size, 5_000_000);
    let t = training_graph(true);
    assert_eq!(t.memory_size, 4_000_000);
    assert_eq!(t.instructions[4].op, OpCode::AIOStep(0, 1_000_000, 2_000_000, 3_000_000, DEMO_TENSOR_LEN, 2));
    assert_eq!(training_graph(false).instructions[4].op, OpCode::AdamWStep(0, 1_000_000, 2_000_000, 3_000_000, DEMO_TENSOR_LEN));
}

#[test]
fn train_feeds_outputs_back() {
    let mut g = XimGraph::new();
    g.add_instruction(OpCode::LoadVarVec(0, 0, 2));
    g.add_instruction(OpCode::AddScalarVec(0, 3, 2, 2));
    g.add_instruction(OpCode::StoreVec(2, 0, 2));
    MemoryPlanner::plan(&mut g);
    let mut ex = Executor::new(g.memory_size);
    let mut inputs = vec![10i16, 20, 99];
    let mut outputs = vec![0i16; 2];
    train(&mut ex, &g, &mut inputs, &mut outputs, 5).unwrap();
    assert_eq!(inputs, vec![25, 35, 99]);
    assert_eq!(outputs, vec![25, 35]);
}

#[test]
fn train_stops_at_a_failing_run() {
    let mut g = XimGraph::new();
    g.add_instruction(OpCode::LoadVarVec(0, 0, 4));
    g.memory_size = 4;
    let mut ex = Executor::new(4);
    let mut inputs = vec![1i16, 2];
    let mut outputs = vec![0i16; 1];
    assert!(matches!(
        train(&mut ex, &g, &mut inputs, &mut outputs, 3),
        Err(XimError::ShapeMismatch { expected: 4, found: 2 })
    ));
    assert_eq!(inputs, vec![1, 2]);
}

#[test]
fn training_demo_step_on_small_tensors() {
    // The AIO step with i32 moments, on a 4-element slice of the
    // benchmark layout scaled down.
    let mut g = XimGraph::new();
    g.add_instruction(OpCode::LoadVarVec(0, 0, 4));
    g.add_instruction(OpCode::LoadVarVec(4, 4, 4));
    g.add_instruction(OpCode::AIOStep(0, 4, 8, 12, 4, 2));
    g.add_instruction(OpCode::StoreVec(0, 0, 4));
    g.memory_size = 16;
    let mut ex = Executor::new(16);
    let mut inputs = vec![128i16, 128, 128, 128, 3, 3, 2, 2];
    let mut outputs = vec![0i16; 4];
    train(&mut ex, &g, &mut inputs, &mut outputs, 1).unwrap();
    // m = (0 * 900 + g * 124) >> 10 = 0 for these gradients: the weights stay.
    assert_eq!(outputs, vec![128, 128, 128, 128]);
}

#[test]
fn mapped_files_hold_whole_i16_values() {
    assert_eq!(i16_count(8).unwrap(), 4);
    assert_eq!(i16_count(0).unwrap(), 0);
    assert!(matches!(i16_count(7), Err(XimError::Io(_))));
}
