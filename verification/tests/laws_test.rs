use xim::{Executor, FusedOp, Instruction, KernelFuser, LoopFuser, OpCode, OptimizedInstruction, SuperFuser, XimGraph};

fn graph_of(ops: &[OpCode], memory_size: usize) -> XimGraph {
    let mut g = XimGraph::new();
    for op in ops {
        g.add_instruction(*op);
    }
    g.memory_size = memory_size;
    g
}

#[test]
fn sums_and_products_commute() {
    let g = graph_of(
        &[
            OpCode::LoadVarVec(0, 0, 3),
            OpCode::LoadVarVec(3, 3, 3),
            OpCode::AddVec(0, 3, 6, 3),
            OpCode::AddVec(3, 0, 9, 3),
            OpCode::MulVec(0, 3, 12, 3),
            OpCode::MulVec(3, 0, 15, 3),
            OpCode::StoreVec(6, 0, 12),
        ],
        18,
    );
    let inputs = vec![30000i16, -300, 77, 5000, -32768, -9];
    let mut out = vec![0i16; 12];
    Executor::new(18).execute(&g, &inputs, &mut out).unwrap();
    assert_eq!(out[0..3], out[3..6]);
    assert_eq!(out[6..9], out[9..12]);
    assert_eq!(out[0..3], [32767, -32768, 68]);
}

#[test]
fn narrowing_then_widening_keeps_quarter_multiples() {
    let g = graph_of(&[OpCode::LoadVarVec8(0, 0, 4), OpCode::StoreVec8(0, 0, 4)], 4);
    let inputs = vec![-512i16, 508, 4, -4];
    let mut out = vec![0i16; 4];
    let mut ex = Executor::new(4);
    ex.execute(&g, &inputs, &mut out).unwrap();
    assert_eq!(out, inputs);
}

#[test]
fn preparing_twice_changes_nothing() {
    let g = graph_of(&[OpCode::BlockScale(0, 0, 64), OpCode::AIOStep(0, 0, 0, 0, 1, 2)], 40);
    let mut ex = Executor::new(3);
    ex.memory[1] = 9;
    ex.prepare(&g);
    let (a, b, c, d) = (ex.memory.clone(), ex.memory_i8.clone(), ex.memory_i32.clone(), ex.block_scales.clone());
    ex.prepare(&g);
    assert_eq!((a, b, c, d), (ex.memory.clone(), ex.memory_i8.clone(), ex.memory_i32.clone(), ex.block_scales.clone()));
    assert_eq!(ex.memory.len(), 40);
    assert_eq!(ex.memory[1], 9);
    assert_eq!(ex.memory_i32.len(), 40);
    assert_eq!(ex.block_scales.len(), 2);
}

#[test]
fn fused_loops_read_only_written_registers() {
    let program: Vec<Instruction> = [
        OpCode::AddVec(0, 4, 8, 4),
        OpCode::Sub(0, 1, 2),
        OpCode::MulScalarVec(8, 3, 12, 4),
        OpCode::AdamWStep(12, 16, 20, 24, 4),
    ]
    .iter()
    .map(|op| Instruction { op: *op })
    .collect();
    let out = KernelFuser::fuse_kernels(LoopFuser::fuse(&program));
    for instr in &out {
        if let OptimizedInstruction::FusedLoop { ops, .. } = instr {
            let mut written = std::collections::HashSet::new();
            for op in ops {
                let reads: Vec<usize> = match *op {
                    FusedOp::Add(l, r, _) | FusedOp::Mul(l, r, _) => vec![l, r],
                    FusedOp::Store(r, _) => vec![r],
                    FusedOp::AdamWStep { w, g, m, v } => vec![w, g, m, v],
                    _ => vec![],
                };
                for r in reads {
                    assert!(written.contains(&r), "register {} read before written", r);
                }
                match *op {
                    FusedOp::Load(_, d) | FusedOp::LoadConst(_, d) | FusedOp::Add(_, _, d) | FusedOp::Mul(_, _, d) => {
                        assert!(written.insert(d), "register {} written twice", d);
                    }
                    _ => {}
                }
            }
        }
    }
}

#[test]
fn fused_loops_load_each_offset_once() {
    let program: Vec<Instruction> = [
        OpCode::AddVec(0, 4, 8, 4),
        OpCode::MulVec(8, 0, 12, 4),
        OpCode::AddVec(12, 4, 0, 4),
        OpCode::MulVec(0, 4, 16, 4),
    ]
    .iter()
    .map(|op| Instruction { op: *op })
    .collect();
    let out = LoopFuser::fuse(&program);
    assert_eq!(out.len(), 1);
    if let OptimizedInstruction::FusedLoop { ops, .. } = &out[0] {
        let loads: Vec<u32> = ops
            .iter()
            .filter_map(|op| if let FusedOp::Load(a, _) = *op { Some(a) } else { None })
            .collect();
        assert_eq!(loads, vec![0, 4]);
    } else {
        panic!("expected a fused loop");
    }
}

#[test]
fn promotion_keeps_loops_well_formed_and_drops_reloads() {
    let program: Vec<Instruction> = [
        OpCode::AddVec(0, 4, 8, 4),
        OpCode::Sub(0, 1, 2),
        OpCode::MulVec(8, 4, 12, 4),
    ]
    .iter()
    .map(|op| Instruction { op: *op })
    .collect();
    let mut out = KernelFuser::fuse_kernels(LoopFuser::fuse(&program));
    SuperFuser::optimize(&mut out);
    if let OptimizedInstruction::FusedLoop { ops, .. } = &out[0] {
        let loads = ops.iter().filter(|op| matches!(op, FusedOp::Load(..))).count();
        assert_eq!(loads, 2);
        let mut written = std::collections::HashSet::new();
        for op in ops {
            match *op {
                FusedOp::Mul(l, r, _) | FusedOp::Add(l, r, _) => {
                    assert!(written.contains(&l) && written.contains(&r));
                }
                FusedOp::Store(r, _) => assert!(written.contains(&r)),
                _ => {}
            }
            if let FusedOp::Load(_, d) | FusedOp::LoadConst(_, d) | FusedOp::Add(_, _, d) | FusedOp::Mul(_, _, d) = *op {
                assert!(written.insert(d));
            }
        }
    } else {
        panic!("expected a fused loop");
    }
}

#[test]
fn run_changes_only_stored_outputs() {
    let g = graph_of(&[OpCode::LoadVarVec(0, 0, 2), OpCode::StoreVec(0, 1, 2)], 2);
    let mut outputs = vec![99i16; 5];
    Executor::new(2).execute(&g, &[7, -8], &mut outputs).unwrap();
    assert_eq!(outputs, vec![99, 7, -8, 99, 99]);
}

#[test]
fn execute_grows_scratchpad_and_never_shrinks_it() {
    let g = graph_of(&[OpCode::FillVec(3, 0, 10)], 10);
    let mut small = Executor::new(4);
    small.execute(&g, &[], &mut []).unwrap();
    assert_eq!(small.memory.len(), 10);
    let mut large = Executor::new(20);
    large.execute(&g, &[], &mut []).unwrap();
    assert_eq!(large.memory.len(), 20);
    assert_eq!(large.memory[9], 3);
    assert_eq!(large.memory[10], 0);
}

#[test]
fn vector_instruction_in_program_reads_memory_before_it() {
    let g = graph_of(
        &[
            OpCode::FillVec(256, 0, 3),
            OpCode::FillVec(-512, 3, 3),
            OpCode::MulVec(0, 3, 6, 3),
            OpCode::AddScalarVec(6, 100, 0, 2),
        ],
        10,
    );
    let mut ex = Executor::new(10);
    ex.execute(&g, &[], &mut []).unwrap();
    assert_eq!(ex.memory, vec![-412, -412, 256, -512, -512, -512, -512, -512, -512, 0]);
}

#[test]
fn kernel_fusion_twice_is_kernel_fusion_once() {
    let program: Vec<Instruction> = [
        OpCode::AddVec(0, 4, 8, 4),
        OpCode::Add(0, 1, 2),
        OpCode::MulVec(8, 4, 12, 4),
        OpCode::Mul(3, 4, 5),
        OpCode::AddVec(0, 4, 8, 2),
        OpCode::StoreVec(12, 0, 4),
        OpCode::MulScalarVec(0, 3, 16, 4),
    ]
    .iter()
    .map(|op| Instruction { op: *op })
    .collect();
    let once = KernelFuser::fuse_kernels(LoopFuser::fuse(&program));
    let twice = KernelFuser::fuse_kernels(once.clone());
    assert_eq!(format!("{:?}", once), format!("{:?}", twice));
}

#[test]
fn promotion_twice_is_promotion_once() {
    let program: Vec<Instruction> = [
        OpCode::AdamWStep(0, 10, 20, 30, 4),
        OpCode::Add(0, 1, 2),
        OpCode::AdamWStep(0, 10, 20, 30, 4),
        OpCode::Mul(0, 1, 2),
        OpCode::AddVec(0, 10, 40, 4),
        OpCode::MulVec(40, 10, 44, 4),
    ]
    .iter()
    .map(|op| Instruction { op: *op })
    .collect();
    let mut once = KernelFuser::fuse_kernels(LoopFuser::fuse(&program));
    SuperFuser::optimize(&mut once);
    let mut twice = once.clone();
    SuperFuser::optimize(&mut twice);
    assert_eq!(format!("{:?}", once), format!("{:?}", twice));
}

#[test]
fn kernel_fusion_keeps_every_fused_operation() {
    let program: Vec<Instruction> = [
        OpCode::AddVec(0, 4, 8, 4),
        OpCode::Add(0, 1, 2),
        OpCode::MulVec(8, 4, 12, 4),
        OpCode::AddVec(0, 4, 8, 2),
        OpCode::MulScalarVec(0, 3, 16, 2),
    ]
    .iter()
    .map(|op| Instruction { op: *op })
    .collect();
    let count = |p: &Vec<OptimizedInstruction>| -> usize {
        p.iter()
            .map(|i| match i {
                OptimizedInstruction::FusedLoop { ops, .. } => ops.len(),
                OptimizedInstruction::Raw(_) => 0,
            })
            .sum()
    };
    let stage1 = LoopFuser::fuse(&program);
    let before = count(&stage1);
    let stage2 = KernelFuser::fuse_kernels(stage1);
    assert_eq!(count(&stage2), before);
    assert_eq!(before, 4 + 4 + 7);
}

/// The registers an operation names.
fn registers(op: &FusedOp) -> Vec<usize> {
    match *op {
        FusedOp::Load(_, r) | FusedOp::LoadConst(_, r) | FusedOp::Store(r, _) => vec![r],
        FusedOp::Add(l, r, d) | FusedOp::Mul(l, r, d) => vec![l, r, d],
        FusedOp::AdamWStep { w, g, m, v } => vec![w, g, m, v],
        FusedOp::Copy(_, _) => vec![],
    }
}

#[test]
fn absorbed_loop_registers_lie_above_the_absorbing_loop() {
    let program: Vec<Instruction> = [
        OpCode::AdamWStep(0, 4, 8, 12, 4),
        OpCode::Add(0, 1, 2),
        OpCode::MulVec(16, 16, 20, 4),
    ]
    .iter()
    .map(|op| Instruction { op: *op })
    .collect();
    let first = match &LoopFuser::fuse(&program[..1])[0] {
        OptimizedInstruction::FusedLoop { ops, .. } => ops.len(),
        other => panic!("expected a loop, found {:?}", other),
    };
    let out = KernelFuser::fuse_kernels(LoopFuser::fuse(&program));
    assert_eq!(out.len(), 2);
    let ops = match &out[0] {
        OptimizedInstruction::FusedLoop { ops, len } => {
            assert_eq!(*len, 4);
            ops.clone()
        }
        other => panic!("expected a loop, found {:?}", other),
    };
    let top = ops[..first].iter().flat_map(registers).max().unwrap();
    assert_eq!(top, 3);
    assert!(ops.len() > first);
    assert!(ops[first..].iter().flat_map(registers).all(|r| r > top));
    assert_eq!(ops[first], FusedOp::Load(16, 4));
}
