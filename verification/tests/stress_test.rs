use xim::{Executor, Instruction, MemoryPlanner, OpCode, XimGraph};

fn adamw_graph(tensor_len: u32, store_moment: bool) -> XimGraph {
    let mut graph = XimGraph::new();
    graph.instructions = vec![
        Instruction { op: OpCode::LoadVarVec(0, 0, tensor_len) },   // W
        Instruction { op: OpCode::LoadVarVec(10, 10, tensor_len) }, // G
        Instruction { op: OpCode::LoadVarVec(20, 20, tensor_len) }, // M
        Instruction { op: OpCode::LoadVarVec(30, 30, tensor_len) }, // V
        Instruction { op: OpCode::AdamWStep(0, 10, 20, 30, tensor_len) },
        Instruction { op: OpCode::StoreVec(0, 0, tensor_len) }, // new W
    ];
    if store_moment {
        graph.instructions.push(Instruction { op: OpCode::StoreVec(20, 10, tensor_len) });
    }
    assert!(MemoryPlanner::extents_fit(&graph));
    MemoryPlanner::plan(&mut graph);
    graph
}

#[test]
fn test_adamw_convergence_mock() {
    let tensor_len = 10;
    let mut graph = XimGraph::new();

    graph.instructions = vec![
        Instruction { op: OpCode::LoadVarVec(0, 0, tensor_len) },   // W
        Instruction { op: OpCode::LoadVarVec(10, 10, tensor_len) }, // G
        Instruction { op: OpCode::LoadVarVec(20, 20, tensor_len) }, // M
        Instruction { op: OpCode::LoadVarVec(30, 30, tensor_len) }, // V
        Instruction { op: OpCode::AdamWStep(0, 10, 20, 30, tensor_len) },
        Instruction { op: OpCode::StoreVec(0, 0, tensor_len) }, // Output new W
    ];
    MemoryPlanner::plan(&mut graph);

    let mut executor = Executor::new(graph.memory_size);
    let mut inputs = vec![0i16; 40];

    // Init weights to 1.0 (256 in Q8.8)
    for i in 0..10 {
        inputs[i] = 256;
    }

    // Provide a constant positive gradient: 0.1 in Q8.8, rounded (~26)
    let grad_val = (0.1f32 * 256.0).round().clamp(i16::MIN as f32, i16::MAX as f32) as i16;
    for i in 10..20 {
        inputs[i] = grad_val;
    }

    let mut outputs = vec![0i16; 10];

    // Run AdamW step
    for _ in 0..10 {
        executor.execute(&graph, &inputs, &mut outputs).unwrap();
        // Feedback W
        inputs[0..10].copy_from_slice(&outputs);
    }

    // W should have decreased
    assert!(outputs[0] < 256, "Weight should decrease: {}", outputs[0]);
}

// Feeding the first moment back lets it grow: 2, 4, 6, 8, 9, ..., 16 at the
// twelfth run (a step of 1 each), then 17 (a step of 2 each).
#[test]
fn adamw_with_carried_moment_decreases_weight() {
    let graph = adamw_graph(10, true);
    let mut executor = Executor::new(graph.memory_size);
    let mut inputs = vec![0i16; 40];
    for i in 0..10 {
        inputs[i] = 256;
    }
    for i in 10..20 {
        inputs[i] = 26;
    }
    let mut outputs = vec![0i16; 20];
    for _ in 0..20 {
        executor.execute(&graph, &inputs, &mut outputs).unwrap();
        inputs[0..10].copy_from_slice(&outputs[0..10]);
        inputs[20..30].copy_from_slice(&outputs[10..20]);
    }
    assert!(outputs[0] < 256, "Weight should decrease: {}", outputs[0]);
    assert_eq!(outputs[0], 228);
    assert_eq!(outputs[10], 17);
}
