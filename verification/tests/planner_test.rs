use xim::{
    FusedOp, Instruction, KernelFuser, LoopFuser, MemoryPlanner, OpCode, OptimizedInstruction,
    SuperFuser, XimBuilder, XimGraph,
};

fn instrs(ops: &[OpCode]) -> Vec<Instruction> {
    ops.iter().map(|op| Instruction { op: *op }).collect()
}

fn fused(instr: &OptimizedInstruction) -> (Vec<FusedOp>, u32) {
    match instr {
        OptimizedInstruction::FusedLoop { ops, len } => (ops.clone(), *len),
        OptimizedInstruction::Raw(op) => panic!("expected a fused loop, found {:?}", op),
    }
}

fn raw(instr: &OptimizedInstruction) -> OpCode {
    match instr {
        OptimizedInstruction::Raw(op) => *op,
        OptimizedInstruction::FusedLoop { .. } => panic!("expected a raw instruction"),
    }
}

#[test]
fn fuse_merges_consecutive_vector_ops() {
    let program = instrs(&[
        OpCode::LoadVarVec(0, 0, 4),
        OpCode::AddVec(0, 4, 8, 4),
        OpCode::MulVec(8, 4, 12, 4),
        OpCode::StoreVec(12, 0, 4),
    ]);
    let out = LoopFuser::fuse(&program);
    assert_eq!(out.len(), 3);
    assert_eq!(raw(&out[0]), OpCode::LoadVarVec(0, 0, 4));
    let (ops, len) = fused(&out[1]);
    assert_eq!(len, 4);
    assert_eq!(
        ops,
        vec![
            FusedOp::Load(0, 0),
            FusedOp::Load(4, 1),
            FusedOp::Add(0, 1, 2),
            FusedOp::Store(2, 8),
            FusedOp::Mul(2, 1, 3),
            FusedOp::Store(3, 12),
        ]
    );
    assert_eq!(raw(&out[2]), OpCode::StoreVec(12, 0, 4));
}

#[test]
fn fuse_scalar_ops_load_constants() {
    let out = LoopFuser::fuse(&instrs(&[OpCode::AddScalarVec(0, 5, 4, 8), OpCode::MulScalarVec(4, -3, 12, 8)]));
    assert_eq!(out.len(), 1);
    let (ops, len) = fused(&out[0]);
    assert_eq!(len, 8);
    assert_eq!(
        ops,
        vec![
            FusedOp::Load(0, 0),
            FusedOp::LoadConst(5, 1),
            FusedOp::Add(0, 1, 2),
            FusedOp::Store(2, 4),
            FusedOp::LoadConst(-3, 3),
            FusedOp::Mul(2, 3, 4),
            FusedOp::Store(4, 12),
        ]
    );
}

#[test]
fn fuse_adamw_loads_and_stores_all_tensors() {
    let out = LoopFuser::fuse(&instrs(&[OpCode::AdamWStep(0, 10, 20, 30, 10)]));
    assert_eq!(out.len(), 1);
    let (ops, len) = fused(&out[0]);
    assert_eq!(len, 10);
    assert_eq!(
        ops,
        vec![
            FusedOp::Load(0, 0),
            FusedOp::Load(10, 1),
            FusedOp::Load(20, 2),
            FusedOp::Load(30, 3),
            FusedOp::AdamWStep { w: 0, g: 1, m: 2, v: 3 },
            FusedOp::Store(0, 0),
            FusedOp::Store(2, 20),
            FusedOp::Store(3, 30),
        ]
    );
}

#[test]
fn fuse_splits_groups_of_different_lengths() {
    let out = LoopFuser::fuse(&instrs(&[
        OpCode::AddVec(0, 4, 8, 4),
        OpCode::AddVec(0, 4, 8, 2),
        OpCode::Add(0, 1, 2),
        OpCode::MulVec(0, 0, 16, 2),
    ]));
    assert_eq!(out.len(), 4);
    assert_eq!(fused(&out[0]).1, 4);
    assert_eq!(fused(&out[1]).1, 2);
    assert_eq!(raw(&out[2]), OpCode::Add(0, 1, 2));
    let (ops, _) = fused(&out[3]);
    // The same offset read twice shares its register.
    assert_eq!(ops, vec![FusedOp::Load(0, 0), FusedOp::Mul(0, 0, 1), FusedOp::Store(1, 16)]);
}

#[test]
fn fuse_of_empty_program_is_empty() {
    assert!(LoopFuser::fuse(&[]).is_empty());
}

#[test]
fn fuse_kernels_merges_across_scalar_arithmetic() {
    let stage1 = LoopFuser::fuse(&instrs(&[
        OpCode::AddVec(0, 4, 8, 4),
        OpCode::Add(0, 1, 2),
        OpCode::MulVec(8, 4, 12, 4),
        OpCode::StoreVec(12, 0, 4),
    ]));
    assert_eq!(stage1.len(), 4);
    let stage2 = KernelFuser::fuse_kernels(stage1);
    assert_eq!(stage2.len(), 3);
    let (ops, len) = fused(&stage2[0]);
    assert_eq!(len, 4);
    // The second loop's registers are shifted past the first loop's
    // highest register (2) plus one.
    assert_eq!(
        ops,
        vec![
            FusedOp::Load(0, 0),
            FusedOp::Load(4, 1),
            FusedOp::Add(0, 1, 2),
            FusedOp::Store(2, 8),
            FusedOp::Load(8, 3),
            FusedOp::Load(4, 4),
            FusedOp::Mul(3, 4, 5),
            FusedOp::Store(5, 12),
        ]
    );
    // The scalar addition passed over follows the merged loop.
    assert_eq!(raw(&stage2[1]), OpCode::Add(0, 1, 2));
    assert_eq!(raw(&stage2[2]), OpCode::StoreVec(12, 0, 4));
}

#[test]
fn fuse_kernels_keeps_loops_of_other_lengths_apart() {
    let stage1 = LoopFuser::fuse(&instrs(&[OpCode::AddVec(0, 4, 8, 4), OpCode::AddVec(0, 4, 8, 2)]));
    let stage2 = KernelFuser::fuse_kernels(stage1);
    assert_eq!(stage2.len(), 2);
    assert_eq!(fused(&stage2[0]).1, 4);
    assert_eq!(fused(&stage2[1]).1, 2);
}

#[test]
fn optimize_keeps_instructions() {
    let mut stage = KernelFuser::fuse_kernels(LoopFuser::fuse(&instrs(&[
        OpCode::LoadVarVec(0, 0, 4),
        OpCode::AddVec(0, 4, 8, 4),
        OpCode::MulVec(8, 8, 12, 4),
    ])));
    let before: Vec<String> = stage.iter().map(|i| format!("{:?}", i)).collect();
    SuperFuser::optimize(&mut stage);
    let after: Vec<String> = stage.iter().map(|i| format!("{:?}", i)).collect();
    assert_eq!(before, after);
}

#[test]
fn optimize_promotes_reloaded_offsets() {
    let mut stage = KernelFuser::fuse_kernels(LoopFuser::fuse(&instrs(&[
        OpCode::AddVec(0, 4, 8, 4),
        OpCode::MulVec(8, 4, 12, 4),
        OpCode::Add(0, 1, 2),
        OpCode::AddVec(12, 0, 16, 4),
    ])));
    SuperFuser::optimize(&mut stage);
    assert_eq!(stage.len(), 2);
    let (ops, len) = fused(&stage[0]);
    assert_eq!(len, 4);
    // Offset 8 is in register 2 after its store and offsets 12, 0 and 4
    // stay in registers 3, 0 and 1: the reloads of the merged loops are
    // dropped and their registers renamed.
    assert_eq!(
        ops,
        vec![
            FusedOp::Load(0, 0),
            FusedOp::Load(4, 1),
            FusedOp::Add(0, 1, 2),
            FusedOp::Store(2, 8),
            FusedOp::Mul(2, 1, 3),
            FusedOp::Store(3, 12),
            FusedOp::Add(3, 0, 6),
            FusedOp::Store(6, 16),
        ]
    );
    assert_eq!(raw(&stage[1]), OpCode::Add(0, 1, 2));
}

#[test]
fn optimize_reloads_tensors_updated_in_place() {
    let mut stage = KernelFuser::fuse_kernels(LoopFuser::fuse(&instrs(&[
        OpCode::AdamWStep(0, 10, 20, 30, 10),
        OpCode::Add(0, 1, 2),
        OpCode::AdamWStep(0, 10, 20, 30, 10),
    ])));
    SuperFuser::optimize(&mut stage);
    assert_eq!(stage.len(), 2);
    let (ops, _) = fused(&stage[0]);
    // The weight and moments change in place and are loaded again; the
    // gradient stays in register 1.
    assert_eq!(
        ops,
        vec![
            FusedOp::Load(0, 0),
            FusedOp::Load(10, 1),
            FusedOp::Load(20, 2),
            FusedOp::Load(30, 3),
            FusedOp::AdamWStep { w: 0, g: 1, m: 2, v: 3 },
            FusedOp::Store(0, 0),
            FusedOp::Store(2, 20),
            FusedOp::Store(3, 30),
            FusedOp::Load(0, 4),
            FusedOp::Load(20, 6),
            FusedOp::Load(30, 7),
            FusedOp::AdamWStep { w: 4, g: 1, m: 6, v: 7 },
            FusedOp::Store(4, 0),
            FusedOp::Store(6, 20),
            FusedOp::Store(7, 30),
        ]
    );
}

#[test]
fn optimize_drops_reload_of_offset_stored_after_adamw() {
    let mut stage = KernelFuser::fuse_kernels(LoopFuser::fuse(&instrs(&[
        OpCode::AdamWStep(0, 10, 20, 30, 4),
        OpCode::Add(0, 1, 2),
        OpCode::AddVec(0, 40, 48, 4),
    ])));
    SuperFuser::optimize(&mut stage);
    let (ops, _) = fused(&stage[0]);
    // Register 0 holds offset 0 once the updated weight is stored, and no
    // later step changes it: the reload of offset 0 is dropped.
    assert_eq!(
        ops,
        vec![
            FusedOp::Load(0, 0),
            FusedOp::Load(10, 1),
            FusedOp::Load(20, 2),
            FusedOp::Load(30, 3),
            FusedOp::AdamWStep { w: 0, g: 1, m: 2, v: 3 },
            FusedOp::Store(0, 0),
            FusedOp::Store(2, 20),
            FusedOp::Store(3, 30),
            FusedOp::Load(40, 5),
            FusedOp::Add(0, 5, 6),
            FusedOp::Store(6, 48),
        ]
    );
}

#[test]
fn plan_takes_largest_vector_extent() {
    let mut graph = XimGraph::new();
    graph.instructions = instrs(&[
        OpCode::LoadVarVec(0, 0, 4),
        OpCode::AddScalarVec(2, 1, 30, 5),
        OpCode::MulVec(4, 40, 8, 2),
        OpCode::StoreVec(8, 0, 4),
        OpCode::Store(100, 0),
    ]);
    assert!(MemoryPlanner::extents_fit(&graph));
    MemoryPlanner::plan(&mut graph);
    // The scalar store reads offset 100.
    assert_eq!(graph.memory_size, 101);
}

#[test]
fn plan_covers_every_instruction() {
    let mut graph = XimGraph::new();
    graph.add_instruction(OpCode::LoadVar(0, 7));
    graph.add_instruction(OpCode::Store(7, 0));
    MemoryPlanner::plan(&mut graph);
    assert_eq!(graph.memory_size, 8);
    let mut fill = XimGraph::new();
    fill.add_instruction(OpCode::FillVec(7, 0, 8));
    MemoryPlanner::plan(&mut fill);
    assert_eq!(fill.memory_size, 8);
    let mut step = XimGraph::new();
    step.add_instruction(OpCode::AIOStep(0, 4, 40, 8, 4, 2));
    step.add_instruction(OpCode::MulVec8(1, 2, 50, 6));
    MemoryPlanner::plan(&mut step);
    assert_eq!(step.memory_size, 56);
}

#[test]
fn extents_beyond_u32_are_planned() {
    let mut graph = XimGraph::new();
    graph.add_instruction(OpCode::FillVec(0, u32::MAX, 2));
    graph.add_instruction(OpCode::LoadVarVec(0, 7, 3));
    assert!(MemoryPlanner::extents_fit(&graph));
    MemoryPlanner::plan(&mut graph);
    assert_eq!(graph.memory_size, u32::MAX as usize + 2);
}

#[test]
fn builder_finalize_plans_memory() {
    let mut b = XimBuilder::new();
    b.add_op(OpCode::LoadVarVec(0, 0, 8));
    b.add_op(OpCode::MulScalarVec(0, 512, 8, 8));
    b.add_op(OpCode::StoreVec(8, 0, 8));
    assert_eq!(b.graph.instructions.len(), 3);
    let g = b.finalize();
    assert_eq!(g.memory_size, 16);
    assert_eq!(g.instructions[1].op, OpCode::MulScalarVec(0, 512, 8, 8));
    assert!(g.variable_map.is_empty());
}
