use xim::jit::KernelOp::{
    AdamW, AddSat, Const, CopyMem, EndLoop, Load, LoadInput, Loop, MulQ8, Store, StoreOutput, SubSat,
};
use xim::jit::{build_kernel, emit_fused_loop, emit_raw_op, jit_plan, KernelOp};
use xim::{Executor, FusedOp, Instruction, OpCode, OptimizedInstruction, XimGraph};

fn graph(ops: &[OpCode]) -> XimGraph {
    let mut g = XimGraph::new();
    g.instructions = ops.iter().map(|op| Instruction { op: *op }).collect();
    g
}

#[test]
fn jit_plan_runs_all_fusion_stages() {
    let g = graph(&[
        OpCode::LoadVarVec(0, 0, 4),
        OpCode::AddVec(0, 4, 8, 4),
        OpCode::Mul(0, 1, 2),
        OpCode::MulVec(8, 4, 12, 4),
        OpCode::StoreVec(12, 0, 4),
    ]);
    let plan = jit_plan(&g);
    match &plan[1] {
        OptimizedInstruction::FusedLoop { ops, len } => {
            assert_eq!(*len, 4);
            // The two loops are merged and the reloads of offsets 8 and 4
            // are promoted to the registers that already hold them.
            assert_eq!(
                *ops,
                vec![
                    FusedOp::Load(0, 0),
                    FusedOp::Load(4, 1),
                    FusedOp::Add(0, 1, 2),
                    FusedOp::Store(2, 8),
                    FusedOp::Mul(2, 1, 5),
                    FusedOp::Store(5, 12),
                ]
            );
        }
        other => panic!("expected a fused loop, found {:?}", other),
    }
    assert_eq!(plan.len(), 4);
    assert!(matches!(plan[2], OptimizedInstruction::Raw(OpCode::Mul(0, 1, 2))));
}

#[test]
fn kernel_of_small_graph() {
    let g = graph(&[OpCode::LoadVarVec(0, 0, 4), OpCode::AddVec(0, 0, 4, 4), OpCode::StoreVec(4, 1, 4)]);
    assert_eq!(
        build_kernel(&g).unwrap(),
        vec![
            Loop(4),
            LoadInput(0, 0),
            Store(0, 0),
            EndLoop,
            Loop(4),
            Load(0, 0),
            AddSat(0, 0, 1),
            Store(1, 4),
            EndLoop,
            Loop(4),
            Load(4, 0),
            StoreOutput(0, 1),
            EndLoop,
        ]
    );
}

#[test]
fn fused_loop_maps_each_operation() {
    let mut code = vec![KernelOp::EndLoop];
    let ops = vec![
        FusedOp::Load(0, 0),
        FusedOp::LoadConst(-3, 1),
        FusedOp::Mul(0, 1, 2),
        FusedOp::AdamWStep { w: 0, g: 1, m: 2, v: 3 },
        FusedOp::Copy(4, 8),
    ];
    emit_fused_loop(&mut code, &ops, 7);
    assert_eq!(
        code,
        vec![EndLoop, Loop(7), Load(0, 0), Const(-3, 1), MulQ8(0, 1, 2), AdamW { w: 0, g: 1, m: 2, v: 3 }, CopyMem(4, 8), EndLoop]
    );
}

#[test]
fn raw_ops_become_loops() {
    let mut code = Vec::new();
    emit_raw_op(&mut code, OpCode::Sub(1, 2, 3));
    assert_eq!(code, vec![Loop(1), Load(1, 0), Load(2, 1), SubSat(0, 1, 2), Store(2, 3), EndLoop]);
    let mut code = Vec::new();
    emit_raw_op(&mut code, OpCode::FillVec(9, 5, 3));
    assert_eq!(code, vec![Loop(3), Const(9, 0), Store(0, 5), EndLoop]);
    let mut code = Vec::new();
    emit_raw_op(&mut code, OpCode::AIOStep(0, 1, 2, 3, 4, 2));
    assert!(code.is_empty());
}

#[test]
fn kernel_of_empty_graph_is_empty() {
    assert!(build_kernel(&graph(&[])).unwrap().is_empty());
}

/// Runs a kernel program on the scratchpad and the outputs, as its
/// operations document.
fn run_kernel(code: &[KernelOp], mem: &mut Vec<i16>, inputs: &[i16], outputs: &mut Vec<i16>) {
    let mut k = 0;
    while k < code.len() {
        let len = match code[k] {
            Loop(len) => len as usize,
            other => panic!("expected a loop, found {:?}", other),
        };
        let end = k + 1 + code[k + 1..].iter().position(|op| *op == EndLoop).unwrap();
        for i in 0..len {
            let mut regs = std::collections::HashMap::new();
            for op in &code[k + 1..end] {
                match *op {
                    Load(off, r) => {
                        regs.insert(r, mem[off as usize + i]);
                    }
                    LoadInput(off, r) => {
                        regs.insert(r, inputs[off as usize + i]);
                    }
                    Store(r, off) => mem[off as usize + i] = regs[&r],
                    StoreOutput(r, off) => outputs[off as usize + i] = regs[&r],
                    Const(v, r) => {
                        regs.insert(r, v);
                    }
                    AddSat(a, b, d) => {
                        let x = regs[&a].saturating_add(regs[&b]);
                        regs.insert(d, x);
                    }
                    SubSat(a, b, d) => {
                        let x = regs[&a].saturating_sub(regs[&b]);
                        regs.insert(d, x);
                    }
                    MulQ8(a, b, d) => {
                        let p = ((regs[&a] as i32 * regs[&b] as i32) >> 8).clamp(i16::MIN as i32, i16::MAX as i32);
                        regs.insert(d, p as i16);
                    }
                    AdamW { w, g, m, v } => {
                        let (wv, gv, mv, vv) = (regs[&w] as i32, regs[&g] as i32, regs[&m] as i32, regs[&v] as i32);
                        let clamp = |x: i32| x.clamp(i16::MIN as i32, i16::MAX as i32) as i16;
                        let m_new = (mv * 230 + gv * 26) >> 8;
                        let v_new = (vv * 255 + ((gv * gv) >> 8)) >> 8;
                        let step = if m_new > 0 { (m_new + 15) >> 4 } else { m_new >> 4 };
                        regs.insert(m, clamp(m_new));
                        regs.insert(v, clamp(v_new));
                        regs.insert(w, clamp(wv - step));
                    }
                    other => panic!("unexpected {:?}", other),
                }
            }
        }
        k = end + 1;
    }
}

#[test]
fn kernel_of_raw_program_matches_interpreter() {
    let g = {
        let mut g = graph(&[
            OpCode::LoadVarVec(0, 0, 4),
            OpCode::LoadVar(4, 4),
            OpCode::GradAdd(0, 0, 5, 4),
            OpCode::GradMul(5, 0, 9, 4),
            OpCode::Sub(9, 4, 13),
            OpCode::Add(13, 13, 14),
            OpCode::Mul(14, 4, 15),
            OpCode::FillVec(-7, 16, 2),
            OpCode::StoreVec(9, 0, 4),
            OpCode::Store(15, 4),
            OpCode::StoreVec(16, 5, 2),
        ]);
        g.memory_size = 18;
        g
    };
    let inputs: Vec<i16> = vec![300, -1200, 32000, 5, 640];
    let mut expected = vec![0i16; 7];
    Executor::new(18).execute(&g, &inputs, &mut expected).unwrap();
    let mut mem = vec![0i16; 18];
    let mut outputs = vec![0i16; 7];
    run_kernel(&build_kernel(&g).unwrap(), &mut mem, &inputs, &mut outputs);
    assert_eq!(outputs, expected);
    assert_eq!(outputs[5..], [-7, -7]);
}

#[test]
fn kernel_of_fused_group_matches_interpreter() {
    let mut g = graph(&[
        OpCode::LoadVarVec(0, 0, 4),
        OpCode::LoadVarVec(4, 4, 4),
        OpCode::AddVec(0, 4, 8, 4),
        OpCode::MulVec(8, 4, 12, 4),
        OpCode::AddScalarVec(12, 100, 16, 4),
        OpCode::MulScalarVec(16, -300, 8, 4),
        OpCode::StoreVec(8, 0, 4),
        OpCode::StoreVec(16, 4, 4),
    ]);
    g.memory_size = 20;
    let inputs: Vec<i16> = vec![256, -512, 30000, 7, 128, 1024, 30000, -9];
    let mut expected = vec![0i16; 8];
    Executor::new(20).execute(&g, &inputs, &mut expected).unwrap();
    let code = build_kernel(&g).unwrap();
    // The four vector instructions run in one loop.
    assert_eq!(code.iter().filter(|op| matches!(op, Loop(_))).count(), 5);
    let mut mem = vec![0i16; 20];
    let mut outputs = vec![0i16; 8];
    run_kernel(&code, &mut mem, &inputs, &mut outputs);
    assert_eq!(outputs, expected);
}

#[test]
fn kernel_of_merged_loops_matches_interpreter() {
    let mut g = graph(&[
        OpCode::LoadVarVec(0, 0, 4),
        OpCode::LoadVarVec(4, 4, 4),
        OpCode::AddVec(0, 4, 8, 4),
        OpCode::Add(0, 1, 16),
        OpCode::MulVec(8, 4, 12, 4),
        OpCode::StoreVec(12, 0, 4),
        OpCode::Store(16, 4),
    ]);
    g.memory_size = 17;
    let inputs: Vec<i16> = vec![256, -512, 30000, 7, 128, 1024, 30000, -9];
    let mut expected = vec![0i16; 5];
    Executor::new(17).execute(&g, &inputs, &mut expected).unwrap();
    // The two loops of length 4 merge across the scalar sum, which follows
    // the merged loop.
    let plan = jit_plan(&g);
    assert_eq!(plan.len(), 6);
    assert!(matches!(plan[3], OptimizedInstruction::Raw(OpCode::Add(0, 1, 16))));
    let code = build_kernel(&g).unwrap();
    assert_eq!(code.iter().filter(|op| matches!(op, Loop(_))).count(), 6);
    let mut mem = vec![0i16; 17];
    let mut outputs = vec![0i16; 5];
    run_kernel(&code, &mut mem, &inputs, &mut outputs);
    assert_eq!(outputs, expected);
    assert_eq!(outputs[4], -256);
}

#[test]
fn kernel_of_training_step_matches_interpreter() {
    let mut g = graph(&[
        OpCode::LoadVarVec(0, 0, 3),
        OpCode::LoadVarVec(3, 3, 3),
        OpCode::LoadVarVec(6, 6, 3),
        OpCode::LoadVarVec(9, 9, 3),
        OpCode::AdamWStep(0, 3, 6, 9, 3),
        OpCode::AddVec(0, 3, 12, 3),
        OpCode::StoreVec(0, 0, 3),
        OpCode::StoreVec(6, 3, 3),
        OpCode::StoreVec(12, 6, 3),
    ]);
    g.memory_size = 15;
    let inputs: Vec<i16> = vec![256, -300, 32000, 26, -2000, 30000, 17, -5, 0, 40, 3, 900];
    let mut expected = vec![0i16; 9];
    Executor::new(15).execute(&g, &inputs, &mut expected).unwrap();
    let code = build_kernel(&g).unwrap();
    let mut mem = vec![0i16; 15];
    let mut outputs = vec![0i16; 9];
    run_kernel(&code, &mut mem, &inputs, &mut outputs);
    assert_eq!(outputs, expected);
}

fn kernel_of(program: &[OptimizedInstruction]) -> Vec<KernelOp> {
    let mut code = Vec::new();
    for instr in program {
        match instr {
            OptimizedInstruction::FusedLoop { ops, len } => emit_fused_loop(&mut code, ops, *len),
            OptimizedInstruction::Raw(op) => emit_raw_op(&mut code, *op),
        }
    }
    code
}

#[test]
fn promotion_keeps_what_the_kernel_computes() {
    let program: Vec<Instruction> = [
        OpCode::LoadVarVec(0, 0, 4),
        OpCode::AddVec(0, 0, 4, 4),
        OpCode::Mul(1, 2, 3),
        OpCode::MulVec(4, 0, 8, 4),
        OpCode::StoreVec(8, 0, 4),
    ]
    .iter()
    .map(|op| Instruction { op: *op })
    .collect();
    let mut merged = xim::KernelFuser::fuse_kernels(xim::LoopFuser::fuse(&program));
    let before = kernel_of(&merged);
    xim::SuperFuser::optimize(&mut merged);
    let after = kernel_of(&merged);
    assert!(after.len() < before.len());
    let inputs: Vec<i16> = vec![300, -7, 20000, 512];
    let (mut m1, mut o1) = (vec![0i16; 12], vec![0i16; 4]);
    let (mut m2, mut o2) = (vec![0i16; 12], vec![0i16; 4]);
    run_kernel(&before, &mut m1, &inputs, &mut o1);
    run_kernel(&after, &mut m2, &inputs, &mut o2);
    assert_eq!(m1, m2);
    assert_eq!(o1, o2);
}

#[test]
fn promotion_after_adamw_keeps_what_the_kernel_computes() {
    let program: Vec<Instruction> = [
        OpCode::LoadVarVec(0, 0, 16),
        OpCode::AdamWStep(0, 4, 8, 12, 4),
        OpCode::Add(0, 1, 2),
        OpCode::AddVec(0, 4, 16, 4),
        OpCode::StoreVec(0, 0, 4),
        OpCode::StoreVec(16, 4, 4),
    ]
    .iter()
    .map(|op| Instruction { op: *op })
    .collect();
    let mut merged = xim::KernelFuser::fuse_kernels(xim::LoopFuser::fuse(&program));
    let before = kernel_of(&merged);
    xim::SuperFuser::optimize(&mut merged);
    let after = kernel_of(&merged);
    assert!(after.len() < before.len());
    let inputs: Vec<i16> = vec![256, -300, 32000, 26, -2000, 30000, 17, -5, 0, 40, 3, 900, 5, 6, 7, 8];
    let (mut m1, mut o1) = (vec![0i16; 20], vec![0i16; 8]);
    let (mut m2, mut o2) = (vec![0i16; 20], vec![0i16; 8]);
    run_kernel(&before, &mut m1, &inputs, &mut o1);
    run_kernel(&after, &mut m2, &inputs, &mut o2);
    assert_eq!(m1, m2);
    assert_eq!(o1, o2);
}

#[test]
fn kernel_refuses_instructions_it_cannot_run() {
    let g = graph(&[OpCode::LoadVarVec8(0, 0, 4), OpCode::AddVec8(0, 0, 4, 4)]);
    assert!(matches!(build_kernel(&g), Err(xim::XimError::Execution(_))));
    let g = graph(&[OpCode::BlockScale(0, 0, 32)]);
    assert!(build_kernel(&g).is_err());
}
