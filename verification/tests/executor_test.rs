use xim::{Executor, Instruction, MemoryPlanner, OpCode, XimError, XimGraph};

fn graph_of(ops: &[OpCode], memory_size: usize) -> XimGraph {
    let mut g = XimGraph::new();
    for op in ops {
        g.add_instruction(*op);
    }
    g.memory_size = memory_size;
    g
}

#[test]
fn test_abc_example() {
    // (A + B) * C with A = 1.2, B = 2.3, C = 0.5 in Q8.8.
    let mut graph = graph_of(
        &[
            OpCode::LoadVarVec(0, 0, 4),
            OpCode::LoadVarVec(4, 4, 4),
            OpCode::LoadVarVec(8, 8, 4),
            OpCode::AddVec(0, 4, 12, 4),
            OpCode::MulVec(12, 8, 16, 4),
            OpCode::StoreVec(16, 0, 4),
        ],
        0,
    );
    MemoryPlanner::plan(&mut graph);
    assert_eq!(graph.memory_size, 20);
    let mut inputs = vec![307i16; 4];
    inputs.extend_from_slice(&[589; 4]);
    inputs.extend_from_slice(&[128; 4]);
    let mut outputs = vec![0i16; 4];
    let mut ex = Executor::new(graph.memory_size);
    ex.execute(&graph, &inputs, &mut outputs).unwrap();
    assert_eq!(outputs, vec![448; 4]);
}

#[test]
fn test_scalar_saturation_and_floor() {
    let graph = graph_of(
        &[
            OpCode::LoadVar(0, 0),
            OpCode::LoadVar(1, 1),
            OpCode::LoadVar(2, 4),
            OpCode::Add(0, 1, 2),
            OpCode::Mul(0, 1, 3),
            OpCode::Sub(4, 0, 5),
            OpCode::LoadVar(3, 6),
            OpCode::LoadVar(4, 7),
            OpCode::Mul(6, 7, 6),
            OpCode::Store(2, 0),
            OpCode::Store(3, 1),
            OpCode::Store(5, 2),
            OpCode::Store(6, 3),
        ],
        8,
    );
    let inputs = vec![32000i16, 32000, -32000, -1, 1];
    let mut outputs = vec![0i16; 4];
    let mut ex = Executor::new(graph.memory_size);
    ex.execute(&graph, &inputs, &mut outputs).unwrap();
    assert_eq!(outputs, vec![32767, 32767, -32768, -1]);
}

#[test]
fn test_q8_unit_multiplication() {
    let graph = graph_of(&[OpCode::LoadVarVec(0, 0, 3), OpCode::MulScalarVec(0, 256, 3, 3), OpCode::StoreVec(3, 0, 3)], 6);
    let inputs = vec![-32768i16, 12345, 32767];
    let mut outputs = vec![0i16; 3];
    let mut ex = Executor::new(6);
    ex.execute(&graph, &inputs, &mut outputs).unwrap();
    assert_eq!(outputs, inputs);
}

#[test]
fn test_load_store_roundtrip() {
    let graph = graph_of(&[OpCode::LoadVarVec(1, 2, 3), OpCode::StoreVec(2, 1, 3)], 5);
    let inputs = vec![9i16, 1, 2, 3, 9];
    let mut outputs = vec![7i16; 5];
    let mut ex = Executor::new(5);
    ex.execute(&graph, &inputs, &mut outputs).unwrap();
    assert_eq!(outputs, vec![7, 1, 2, 3, 7]);
}

#[test]
fn test_fill_and_scalar_ops() {
    let mut graph = graph_of(
        &[
            OpCode::FillVec(100, 0, 4),
            OpCode::AddScalarVec(0, 32700, 4, 4),
            OpCode::MulScalarVec(0, 512, 8, 4),
            OpCode::StoreVec(4, 0, 8),
        ],
        0,
    );
    MemoryPlanner::plan(&mut graph);
    assert_eq!(graph.memory_size, 12);
    let mut outputs = vec![0i16; 8];
    let mut ex = Executor::new(graph.memory_size);
    ex.execute(&graph, &[], &mut outputs).unwrap();
    assert_eq!(outputs, vec![32767, 32767, 32767, 32767, 200, 200, 200, 200]);
}

#[test]
fn test_i8_path() {
    let graph = graph_of(
        &[
            OpCode::LoadVarVec8(0, 0, 2),
            OpCode::LoadVarVec8(2, 2, 2),
            OpCode::AddVec8(0, 2, 4, 2),
            OpCode::MulVec8(0, 2, 6, 2),
            OpCode::StoreVec8(4, 0, 2),
            OpCode::StoreVec8(6, 2, 2),
        ],
        8,
    );
    let inputs = vec![256i16, -256, 256, 512];
    let mut outputs = vec![0i16; 4];
    let mut ex = Executor::new(8);
    ex.execute(&graph, &inputs, &mut outputs).unwrap();
    assert_eq!(ex.memory_i8.len(), 8);
    assert_eq!(outputs, vec![508, 252, 256, -508]);
}

#[test]
fn test_adamw_step_values() {
    let graph = graph_of(
        &[
            OpCode::LoadVarVec(0, 0, 2),
            OpCode::LoadVarVec(2, 2, 2),
            OpCode::LoadVarVec(4, 4, 2),
            OpCode::AdamWStep(0, 2, 4, 6, 2),
            OpCode::StoreVec(0, 0, 2),
        ],
        8,
    );
    // w, g, m; v starts at 0
    let inputs = vec![1000i16, 1000, 256, -256, 1000, -1000];
    let mut outputs = vec![0i16; 2];
    let mut ex = Executor::new(8);
    ex.execute(&graph, &inputs, &mut outputs).unwrap();
    // m = (1000 * 230 + 256 * 26) >> 8 = 924, w = 1000 - ceil(924 / 16) = 942
    // m = (-1000 * 230 - 256 * 26) >> 8 = -925, w = 1000 - floor(-925 / 16) = 1058
    assert_eq!(outputs, vec![942, 1058]);
    assert_eq!(ex.memory[4], 924);
    assert_eq!(ex.memory[5], -925);
    // v = (0 + ((256 * 256) >> 8)) >> 8 = 1
    assert_eq!(ex.memory[6], 1);
    assert_eq!(ex.memory[7], 1);
}

#[test]
fn test_aio_step_i16() {
    let graph = graph_of(
        &[
            OpCode::LoadVarVec(0, 0, 2),
            OpCode::LoadVarVec(2, 2, 2),
            OpCode::AIOStep(0, 2, 4, 6, 2, 0),
            OpCode::StoreVec(0, 0, 2),
        ],
        8,
    );
    let inputs = vec![1000i16, 1000, 256, -256];
    let mut outputs = vec![0i16; 2];
    let mut ex = Executor::new(8);
    ex.execute(&graph, &inputs, &mut outputs).unwrap();
    assert_eq!(outputs, vec![999, 1002]);
    assert_eq!(&ex.memory[4..8], &[26, -26, 1, 1]);
}

#[test]
fn test_aio_step_i32() {
    let graph = graph_of(
        &[
            OpCode::LoadVarVec(0, 0, 2),
            OpCode::LoadVarVec(2, 2, 2),
            OpCode::AIOStep(0, 2, 0, 4, 2, 2),
            OpCode::StoreVec(0, 0, 2),
        ],
        8,
    );
    let inputs = vec![1000i16, 1000, 256, -256];
    let mut outputs = vec![0i16; 2];
    let mut ex = Executor::new(8);
    ex.execute(&graph, &inputs, &mut outputs).unwrap();
    assert_eq!(ex.memory_i32.len(), 8);
    assert_eq!(&ex.memory_i32[0..2], &[31, -31]);
    assert_eq!(outputs, vec![1000, 1001]);
}

#[test]
fn test_aio_step_i32_overflow_is_reported() {
    let graph = graph_of(&[OpCode::AIOStep(0, 2, 0, 4, 2, 2)], 8);
    let mut outputs = vec![0i16; 2];
    let mut ex = Executor::new(8);
    ex.memory_i32 = vec![i32::MAX; 8];
    let r = ex.execute(&graph, &[], &mut outputs);
    assert!(matches!(r, Err(XimError::Execution(_))));
}

#[test]
fn test_out_of_bounds_is_reported() {
    let graph = graph_of(&[OpCode::LoadVar(5, 0)], 1);
    let mut outputs = vec![0i16; 1];
    let mut ex = Executor::new(1);
    let r = ex.execute(&graph, &[1], &mut outputs);
    assert!(matches!(r, Err(XimError::ShapeMismatch { expected: 6, found: 1 })));

    let graph = graph_of(&[OpCode::LoadVarVec(0, u32::MAX, 2)], 1);
    let r = ex.execute(&graph, &[1, 2], &mut outputs);
    assert!(matches!(r, Err(XimError::Memory(_))));

    let graph = graph_of(&[OpCode::LoadVarVec(0, 1, 2)], 2);
    let r = ex.execute(&graph, &[1, 2], &mut outputs);
    assert!(matches!(r, Err(XimError::Memory(_))));

    let graph = graph_of(&[OpCode::StoreVec(0, 0, 2)], 4);
    let r = ex.execute(&graph, &[], &mut outputs);
    assert!(matches!(r, Err(XimError::ShapeMismatch { expected: 2, found: 1 })));

    let graph = graph_of(&[OpCode::LoadVarVec(0, 0, 4)], 4);
    let r = ex.execute(&graph, &[1, 2], &mut outputs);
    assert!(matches!(r, Err(XimError::ShapeMismatch { expected: 4, found: 2 })));
}

#[test]
fn test_refused_instruction_leaves_machine_unchanged() {
    let mut ex = Executor::new(4);
    ex.memory = vec![1, 2, 3, 4];
    let mut outputs = vec![5i16; 2];
    let r = ex.execute_instruction(OpCode::AddVec(0, 1, 3, 2), &[], &mut outputs);
    assert!(matches!(r, Err(XimError::Memory(_))));
    assert_eq!(ex.memory, vec![1, 2, 3, 4]);
    assert_eq!(outputs, vec![5, 5]);
    ex.execute_instruction(OpCode::AddVec(0, 1, 2, 2), &[], &mut outputs).unwrap();
    assert_eq!(ex.memory, vec![1, 2, 3, 5]);
}

#[test]
fn test_block_scale() {
    let graph = graph_of(&[OpCode::LoadVarVec(0, 0, 40), OpCode::BlockScale(0, 0, 40)], 64);
    let inputs: Vec<i16> = (0..40).map(|i| i as i16 - 20).collect();
    let mut outputs = vec![0i16; 1];
    let mut ex = Executor::new(64);
    ex.execute(&graph, &inputs, &mut outputs).unwrap();
    assert_eq!(ex.block_scales.len(), 3);
    assert_eq!(ex.block_scale(0), Some(20));
    assert_eq!(ex.block_scale(1), Some(19));
    assert_eq!(ex.block_scale(2), Some(0));
    assert_eq!(ex.block_scale(3), None);

    let graph = graph_of(&[OpCode::BlockScale(0, 0, 8)], 64);
    let mut ex = Executor::new(64);
    ex.execute(&graph, &[], &mut outputs).unwrap();
    assert_eq!(ex.block_scale(0), Some(1));
}

#[test]
fn test_block_scale_rejects_minimum() {
    let graph = graph_of(&[OpCode::LoadVar(0, 3), OpCode::BlockScale(0, 0, 8)], 64);
    let mut outputs = vec![0i16; 1];
    let mut ex = Executor::new(64);
    let r = ex.execute(&graph, &[i16::MIN], &mut outputs);
    assert!(matches!(r, Err(XimError::Execution(_))));
}

#[test]
fn test_block_step_needs_host() {
    let graph = graph_of(&[OpCode::AIOStepBlock(0, 0, 0, 0, 0, 0)], 4);
    let mut outputs = vec![0i16; 1];
    let mut ex = Executor::new(4);
    let r = ex.execute(&graph, &[], &mut outputs);
    assert!(matches!(r, Err(XimError::Execution(_))));
}

#[test]
fn test_execute_block_step() {
    let mut ex = Executor::new(128);
    for i in 0..32 {
        ex.memory[i] = 100;
    }
    ex.block_scales = vec![32767];
    let op = OpCode::AIOStepBlock(0, 32, 64, 96, 0, 32);
    let grads = vec![512i32; 32];
    ex.execute_block_step(op, &grads).unwrap();
    assert_eq!(ex.memory[0], 97);
    assert_eq!(ex.memory[64], 52);
    assert_eq!(ex.memory[96], 4);

    let r = ex.execute_block_step(op, &grads[0..31]);
    assert!(matches!(r, Err(XimError::Memory(_))));
    let r = ex.execute_block_step(op, &vec![i32::MAX; 32]);
    assert!(matches!(r, Err(XimError::Execution(_))));
    let r = ex.execute_block_step(OpCode::LoadVar(0, 0), &grads);
    assert!(matches!(r, Err(XimError::Execution(_))));
    assert_eq!(ex.memory[0], 97);
}

#[test]
fn test_execute_i8() {
    let graph = graph_of(&[OpCode::AddVec8(0, 1, 2, 1), OpCode::MulVec8(0, 1, 3, 1), OpCode::LoadVar(9, 9)], 0);
    let mut ex = Executor::new(0);
    ex.memory_i8 = vec![10, 20, 0, 0];
    let mut out8 = vec![0i8; 1];
    ex.execute_i8(&graph, &[], &mut out8).unwrap();
    assert_eq!(ex.memory_i8, vec![10, 20, 30, 3]);

    let graph = graph_of(&[OpCode::AddVec8(0, 1, 3, 2)], 0);
    let r = ex.execute_i8(&graph, &[], &mut out8);
    assert!(matches!(r, Err(XimError::Memory(_))));
}

#[test]
fn test_prepare_sizes_buffers() {
    let graph = graph_of(&[OpCode::AddVec8(0, 0, 0, 0), OpCode::AIOStep(0, 0, 0, 0, 0, 2), OpCode::BlockScale(0, 0, 0)], 70);
    let mut ex = Executor::new(10);
    ex.prepare(&graph);
    assert_eq!(ex.memory.len(), 70);
    assert_eq!(ex.memory_i8.len(), 70);
    assert_eq!(ex.memory_i32.len(), 70);
    assert_eq!(ex.block_scales.len(), 3);
    ex.prepare(&graph);
    assert_eq!(ex.memory.len(), 70);
    assert_eq!(ex.block_scales.len(), 3);
}

#[test]
fn test_instruction_struct() {
    let i = Instruction { op: OpCode::Add(1, 2, 3) };
    assert_eq!(i.op, OpCode::Add(1, 2, 3));
}

#[test]
fn failed_run_keeps_what_earlier_instructions_did() {
    let graph = graph_of(
        &[OpCode::FillVec(5, 0, 2), OpCode::StoreVec(0, 0, 2), OpCode::AddVec(0, 0, 10, 4), OpCode::FillVec(9, 2, 2)],
        4,
    );
    let mut outputs = vec![0i16; 2];
    let mut ex = Executor::new(4);
    assert!(ex.execute(&graph, &[], &mut outputs).is_err());
    assert_eq!(outputs, vec![5, 5]);
    assert_eq!(ex.memory, vec![5, 5, 0, 0]);
}

#[test]
fn host_steps_are_found() {
    let plain = graph_of(&[OpCode::FillVec(1, 0, 4), OpCode::AIOStep(0, 4, 8, 12, 4, 1)], 16);
    assert!(!Executor::graph_needs_host(&plain));
    let block = graph_of(&[OpCode::FillVec(1, 0, 4), OpCode::AIOStepBlock(0, 32, 64, 96, 0, 32)], 128);
    assert!(Executor::graph_needs_host(&block));
    assert_eq!(Executor::host_gradients(OpCode::AIOStepBlock(0, 32, 64, 96, 5, 32)), Some((32, 5, 32)));
    assert_eq!(Executor::host_gradients(OpCode::FillVec(1, 0, 4)), None);
}
