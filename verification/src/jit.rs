use vstd::prelude::*;
use crate::ir::{OpCode, XimGraph};
use crate::error::XimError;
use crate::kernels::{BinKind, bin16, clamp_i16};
use crate::machine::{
    adamw_m, adamw_v, adamw_w, in_range, write_range, map_bin16, MachineState, step, bin_result, cell_result,
};
use crate::planner::{
    FusedOp, KernelFuser, LoopFuser, OptView, OptimizedInstruction, SuperFuser, fuse_from, fuse_kernels_from,
    loops_well_formed, opt_view, promote_all, lemma_promote_all_wf, lemma_fuse_from_span, lemma_fuse_from_well_formed,
    lemma_fuse_kernels_from_wf,
};

verus! {

// The JIT kernel as a program of element-wise loops over registers.  Each
// loop runs its body once per element index `i` of `0..len`; its registers
// are i16 values that live for one iteration.  The arithmetic is that of
// the interpreter (`kernels`): Q8.8 saturating sums and products, and the
// AdamW step of `machine`.  The host lowers each operation to native code.

/// An operation of a JIT kernel.
#[derive(Debug, Clone, Copy, PartialEq, Eq, Structural)]
pub enum KernelOp {
    /// Loop(len): the operations up to the matching `EndLoop` run for each
    /// `i` in `0..len`.
    Loop(u32),
    EndLoop,
    /// Load(off, r): `r = mem[off + i]`.
    Load(u32, usize),
    /// LoadInput(off, r): `r = inputs[off + i]`.
    LoadInput(u32, usize),
    /// Store(r, off): `mem[off + i] = r`.
    Store(usize, u32),
    /// StoreOutput(r, off): `outputs[off + i] = r`.
    StoreOutput(usize, u32),
    /// Const(value, r): `r = value`.
    Const(i16, usize),
    /// AddSat(l, r, d): `d = sat_add16(l, r)`.
    AddSat(usize, usize, usize),
    /// SubSat(l, r, d): `d = sat_sub16(l, r)`.
    SubSat(usize, usize, usize),
    /// MulQ8(l, r, d): `d = mul_q8(l, r)`.
    MulQ8(usize, usize, usize),
    /// The AdamW step on registers: `m`, `v` and `w` take the values
    /// `clamp(adamw_m)`, `clamp(adamw_v)` and `adamw_w` of `machine`.
    AdamW { w: usize, g: usize, m: usize, v: usize },
    /// CopyMem(src, dst): `mem[dst + i] = mem[src + i]`.
    CopyMem(u32, u32),
}

/// The kernel operation of a fused operation.
pub open spec fn kernel_op(op: FusedOp) -> KernelOp {
    match op {
        FusedOp::Load(off, r) => KernelOp::Load(off, r),
        FusedOp::Store(r, off) => KernelOp::Store(r, off),
        FusedOp::Add(l, r, d) => KernelOp::AddSat(l, r, d),
        FusedOp::Mul(l, r, d) => KernelOp::MulQ8(l, r, d),
        FusedOp::LoadConst(v, r) => KernelOp::Const(v, r),
        FusedOp::Copy(s, d) => KernelOp::CopyMem(s, d),
        FusedOp::AdamWStep { w, g, m, v } => KernelOp::AdamW { w, g, m, v },
    }
}

/// A fused loop: its operations, one kernel operation each, in one loop.
pub open spec fn fused_loop_ir(ops: Seq<FusedOp>, len: u32) -> Seq<KernelOp> {
    seq![KernelOp::Loop(len)] + ops.map_values(|op: FusedOp| kernel_op(op)) + seq![KernelOp::EndLoop]
}

/// The loop that applies a binary operation to `len` elements.
pub open spec fn binary_loop(l: u32, r: u32, d: u32, len: u32, op: KernelOp) -> Seq<KernelOp> {
    seq![KernelOp::Loop(len), KernelOp::Load(l, 0), KernelOp::Load(r, 1), op, KernelOp::Store(2, d), KernelOp::EndLoop]
}

/// A raw instruction: loads and stores between the buffers, element-wise
/// i16 arithmetic and fills become loops; the i8, AIO and block-scaling
/// instructions have no kernel form and give nothing (`build_kernel`
/// refuses a program that holds one).
pub open spec fn raw_op_ir(op: OpCode) -> Seq<KernelOp> {
    match op {
        OpCode::LoadVar(var, dst) => seq![
            KernelOp::Loop(1),
            KernelOp::LoadInput(var, 0),
            KernelOp::Store(0, dst),
            KernelOp::EndLoop,
        ],
        OpCode::Store(src, out_id) => seq![
            KernelOp::Loop(1),
            KernelOp::Load(src, 0),
            KernelOp::StoreOutput(0, out_id),
            KernelOp::EndLoop,
        ],
        OpCode::LoadVarVec(var, dst, len) => seq![
            KernelOp::Loop(len),
            KernelOp::LoadInput(var, 0),
            KernelOp::Store(0, dst),
            KernelOp::EndLoop,
        ],
        OpCode::StoreVec(src, out_id, len) => seq![
            KernelOp::Loop(len),
            KernelOp::Load(src, 0),
            KernelOp::StoreOutput(0, out_id),
            KernelOp::EndLoop,
        ],
        OpCode::Add(l, r, d) => binary_loop(l, r, d, 1, KernelOp::AddSat(0, 1, 2)),
        OpCode::Sub(l, r, d) => binary_loop(l, r, d, 1, KernelOp::SubSat(0, 1, 2)),
        OpCode::Mul(l, r, d) => binary_loop(l, r, d, 1, KernelOp::MulQ8(0, 1, 2)),
        OpCode::AddVec(l, r, d, len) => binary_loop(l, r, d, len, KernelOp::AddSat(0, 1, 2)),
        OpCode::GradAdd(l, r, d, len) => binary_loop(l, r, d, len, KernelOp::AddSat(0, 1, 2)),
        OpCode::MulVec(l, r, d, len) => binary_loop(l, r, d, len, KernelOp::MulQ8(0, 1, 2)),
        OpCode::GradMul(l, r, d, len) => binary_loop(l, r, d, len, KernelOp::MulQ8(0, 1, 2)),
        OpCode::FillVec(val, dst, len) => seq![
            KernelOp::Loop(len),
            KernelOp::Const(val, 0),
            KernelOp::Store(0, dst),
            KernelOp::EndLoop,
        ],
        _ => Seq::empty(),
    }
}

/// The kernel of one instruction of the JIT program.
pub open spec fn instr_ir(i: OptView) -> Seq<KernelOp> {
    match i {
        OptView::Fused(ops, len) => fused_loop_ir(ops, len),
        OptView::Raw(op) => raw_op_ir(op),
    }
}

/// The kernel of a JIT program: its instructions' kernels in order.
pub open spec fn kernel_ir(ins: Seq<OptView>) -> Seq<KernelOp>
    decreases ins.len(),
{
    if ins.len() == 0 {
        Seq::empty()
    } else {
        kernel_ir(ins.drop_last()) + instr_ir(ins.last())
    }
}

/// The program the JIT compiles for a graph: local loop fusion, then
/// kernel fusion, then memory promotion.
pub open spec fn jit_program(graph: XimGraph) -> Seq<OptView> {
    promote_all(fuse_kernels_from(fuse_from(graph.ops(), 0), 0))
}

/// Appends the kernel operation of `op`.
fn push_kernel_op(code: &mut Vec<KernelOp>, op: FusedOp)
    ensures
        final(code)@ == old(code)@.push(kernel_op(op)),
{
    let k = match op {
        FusedOp::Load(off, r) => KernelOp::Load(off, r),
        FusedOp::Store(r, off) => KernelOp::Store(r, off),
        FusedOp::Add(l, r, d) => KernelOp::AddSat(l, r, d),
        FusedOp::Mul(l, r, d) => KernelOp::MulQ8(l, r, d),
        FusedOp::LoadConst(v, r) => KernelOp::Const(v, r),
        FusedOp::Copy(s, d) => KernelOp::CopyMem(s, d),
        FusedOp::AdamWStep { w, g, m, v } => KernelOp::AdamW { w, g, m, v },
    };
    code.push(k);
}

/// Appends a fused loop: one iteration per element, each iteration running
/// the operations on registers loaded from and stored to the scratchpad.
pub fn emit_fused_loop(code: &mut Vec<KernelOp>, ops: &Vec<FusedOp>, len: u32)
    ensures
        final(code)@ == old(code)@ + fused_loop_ir(ops@, len),
{
    let ghost start = code@;
    code.push(KernelOp::Loop(len));
    let mut k: usize = 0;
    while k < ops.len()
        invariant
            k <= ops@.len(),
            code@ == start + seq![KernelOp::Loop(len)] + ops@.take(k as int).map_values(|op: FusedOp| kernel_op(op)),
        decreases ops.len() - k,
    {
        push_kernel_op(code, ops[k]);
        k += 1;
        assert(code@ =~= start + seq![KernelOp::Loop(len)] + ops@.take(k as int).map_values(
            |op: FusedOp| kernel_op(op),
        ));
    }
    code.push(KernelOp::EndLoop);
    assert(ops@.take(k as int) =~= ops@);
    assert(code@ =~= start + fused_loop_ir(ops@, len));
}

/// Appends the loop that applies `op` to `len` elements.
fn push_binary_loop(code: &mut Vec<KernelOp>, l: u32, r: u32, d: u32, len: u32, op: KernelOp)
    ensures
        final(code)@ == old(code)@ + binary_loop(l, r, d, len, op),
{
    let ghost start = code@;
    code.push(KernelOp::Loop(len));
    code.push(KernelOp::Load(l, 0));
    code.push(KernelOp::Load(r, 1));
    code.push(op);
    code.push(KernelOp::Store(2, d));
    code.push(KernelOp::EndLoop);
    assert(code@ =~= start + binary_loop(l, r, d, len, op));
}

/// Appends the kernel of a raw instruction (see `raw_op_ir`).
pub fn emit_raw_op(code: &mut Vec<KernelOp>, op: OpCode)
    ensures
        final(code)@ == old(code)@ + raw_op_ir(op),
{
    let ghost start = code@;
    match op {
        OpCode::LoadVar(var, dst) => {
            code.push(KernelOp::Loop(1));
            code.push(KernelOp::LoadInput(var, 0));
            code.push(KernelOp::Store(0, dst));
            code.push(KernelOp::EndLoop);
        },
        OpCode::Store(src, out_id) => {
            code.push(KernelOp::Loop(1));
            code.push(KernelOp::Load(src, 0));
            code.push(KernelOp::StoreOutput(0, out_id));
            code.push(KernelOp::EndLoop);
        },
        OpCode::LoadVarVec(var, dst, len) => {
            code.push(KernelOp::Loop(len));
            code.push(KernelOp::LoadInput(var, 0));
            code.push(KernelOp::Store(0, dst));
            code.push(KernelOp::EndLoop);
        },
        OpCode::StoreVec(src, out_id, len) => {
            code.push(KernelOp::Loop(len));
            code.push(KernelOp::Load(src, 0));
            code.push(KernelOp::StoreOutput(0, out_id));
            code.push(KernelOp::EndLoop);
        },
        OpCode::Add(l, r, d) => push_binary_loop(code, l, r, d, 1, KernelOp::AddSat(0, 1, 2)),
        OpCode::Sub(l, r, d) => push_binary_loop(code, l, r, d, 1, KernelOp::SubSat(0, 1, 2)),
        OpCode::Mul(l, r, d) => push_binary_loop(code, l, r, d, 1, KernelOp::MulQ8(0, 1, 2)),
        OpCode::AddVec(l, r, d, len) => push_binary_loop(code, l, r, d, len, KernelOp::AddSat(0, 1, 2)),
        OpCode::GradAdd(l, r, d, len) => push_binary_loop(code, l, r, d, len, KernelOp::AddSat(0, 1, 2)),
        OpCode::MulVec(l, r, d, len) => push_binary_loop(code, l, r, d, len, KernelOp::MulQ8(0, 1, 2)),
        OpCode::GradMul(l, r, d, len) => push_binary_loop(code, l, r, d, len, KernelOp::MulQ8(0, 1, 2)),
        OpCode::FillVec(val, dst, len) => {
            code.push(KernelOp::Loop(len));
            code.push(KernelOp::Const(val, 0));
            code.push(KernelOp::Store(0, dst));
            code.push(KernelOp::EndLoop);
        },
        _ => {},
    }
    assert(code@ =~= start + raw_op_ir(op));
}

/// The program the JIT compiles for a graph: local loop fusion, then
/// kernel fusion, then memory promotion.
pub fn jit_plan(graph: &XimGraph) -> (r: Vec<OptimizedInstruction>)
    requires
        graph.instructions@.len() <= usize::MAX / 8,
    ensures
        opt_view(r@) == jit_program(*graph),
        loops_well_formed(opt_view(r@)),
{
    proof {
        lemma_fuse_from_span(graph.ops(), 0);
        lemma_fuse_from_well_formed(graph.ops(), 0);
        lemma_fuse_kernels_from_wf(fuse_from(graph.ops(), 0), 0);
        lemma_promote_all_wf(fuse_kernels_from(fuse_from(graph.ops(), 0), 0));
    }
    let local_optimized = LoopFuser::fuse(graph.instructions.as_slice());
    let mut optimized = KernelFuser::fuse_kernels(local_optimized);
    SuperFuser::optimize(&mut optimized);
    optimized
}

/// Every raw instruction of the program has a kernel loop.
pub open spec fn kernel_supported(ins: Seq<OptView>) -> bool {
    forall|k: int| 0 <= k < ins.len() ==> (#[trigger] ins[k] matches OptView::Raw(op) ==> has_kernel_form(op))
}

/// Whether `op` has a kernel loop (see `has_kernel_form`).
fn has_kernel_form_exec(op: OpCode) -> (b: bool)
    ensures
        b == has_kernel_form(op),
{
    match op {
        OpCode::LoadVar(..) | OpCode::Store(..) | OpCode::LoadVarVec(..) | OpCode::StoreVec(..) | OpCode::Add(..)
        | OpCode::Sub(..) | OpCode::Mul(..) | OpCode::AddVec(..) | OpCode::GradAdd(..) | OpCode::MulVec(..)
        | OpCode::GradMul(..) | OpCode::FillVec(..) => true,
        _ => false,
    }
}

/// The kernel for `graph`: the kernels of the instructions of its JIT
/// program, in order.  Every loop of the program reads only registers
/// written before in the same loop.  Fails with an execution error exactly
/// when the program holds an instruction with no kernel loop (the i8, AIO
/// and block-scaling instructions), which the interpreter runs instead.
pub fn build_kernel(graph: &XimGraph) -> (r: Result<Vec<KernelOp>, XimError>)
    requires
        graph.instructions@.len() <= usize::MAX / 8,
    ensures
        r is Ok <==> kernel_supported(jit_program(*graph)),
        r matches Ok(code) ==> code@ == kernel_ir(jit_program(*graph)),
        r is Err ==> r matches Err(XimError::Execution(_)),
        loops_well_formed(jit_program(*graph)),
{
    let optimized = jit_plan(graph);
    let ghost ins = opt_view(optimized@);
    let mut code: Vec<KernelOp> = Vec::new();
    let mut k: usize = 0;
    while k < optimized.len()
        invariant
            ins == opt_view(optimized@),
            ins == jit_program(*graph),
            loops_well_formed(ins),
            k <= optimized@.len(),
            code@ == kernel_ir(ins.take(k as int)),
            forall|j: int| 0 <= j < k ==> (#[trigger] ins[j] matches OptView::Raw(op) ==> has_kernel_form(op)),
        decreases optimized.len() - k,
    {
        assert(ins[k as int] == optimized@[k as int]@);
        match &optimized[k] {
            OptimizedInstruction::FusedLoop { ops, len } => {
                emit_fused_loop(&mut code, ops, *len);
            },
            OptimizedInstruction::Raw(op) => {
                if !has_kernel_form_exec(*op) {
                    return Err(XimError::Execution("instruction has no JIT kernel".to_string()));
                }
                emit_raw_op(&mut code, *op);
            },
        }
        assert(ins.take(k + 1).drop_last() =~= ins.take(k as int));
        k += 1;
    }
    assert(ins.take(k as int) =~= ins);
    Ok(code)
}

// ---------------------------------------------------------------------------
// The meaning of a kernel
// ---------------------------------------------------------------------------

/// The buffers a kernel works on: the i16 scratchpad and the outputs.
pub struct KernelState {
    pub mem: Seq<i16>,
    pub out: Seq<i16>,
}

/// One operation of a loop body at element `i`, on the buffers and the
/// registers of the iteration; `None` where it reads a register not yet
/// written or an element outside its buffer.
pub open spec fn body_op(
    x: (KernelState, Map<usize, i16>),
    op: KernelOp,
    inp: Seq<i16>,
    i: int,
) -> Option<(KernelState, Map<usize, i16>)> {
    let (s, regs) = x;
    match op {
        KernelOp::Load(off, r) => if off + i < s.mem.len() {
            Some((s, regs.insert(r, s.mem[off + i])))
        } else {
            None
        },
        KernelOp::LoadInput(off, r) => if off + i < inp.len() {
            Some((s, regs.insert(r, inp[off + i])))
        } else {
            None
        },
        KernelOp::Store(r, off) => if regs.contains_key(r) && off + i < s.mem.len() {
            Some((KernelState { mem: s.mem.update(off + i, regs[r]), out: s.out }, regs))
        } else {
            None
        },
        KernelOp::StoreOutput(r, off) => if regs.contains_key(r) && off + i < s.out.len() {
            Some((KernelState { mem: s.mem, out: s.out.update(off + i, regs[r]) }, regs))
        } else {
            None
        },
        KernelOp::Const(v, r) => Some((s, regs.insert(r, v))),
        KernelOp::AddSat(a, b, d) => if regs.contains_key(a) && regs.contains_key(b) {
            Some((s, regs.insert(d, bin16(BinKind::Add, regs[a], regs[b]))))
        } else {
            None
        },
        KernelOp::SubSat(a, b, d) => if regs.contains_key(a) && regs.contains_key(b) {
            Some((s, regs.insert(d, bin16(BinKind::Sub, regs[a], regs[b]))))
        } else {
            None
        },
        KernelOp::MulQ8(a, b, d) => if regs.contains_key(a) && regs.contains_key(b) {
            Some((s, regs.insert(d, bin16(BinKind::Mul, regs[a], regs[b]))))
        } else {
            None
        },
        KernelOp::AdamW { w, g, m, v } => if regs.contains_key(w) && regs.contains_key(g) && regs.contains_key(m)
            && regs.contains_key(v) {
            Some(
                (
                    s,
                    regs.insert(m, clamp_i16(adamw_m(regs[m], regs[g])) as i16).insert(
                        v,
                        clamp_i16(adamw_v(regs[v], regs[g])) as i16,
                    ).insert(w, adamw_w(regs[w], regs[m], regs[g])),
                ),
            )
        } else {
            None
        },
        KernelOp::CopyMem(src, dst) => if src + i < s.mem.len() && dst + i < s.mem.len() {
            Some((KernelState { mem: s.mem.update(dst + i, s.mem[src + i]), out: s.out }, regs))
        } else {
            None
        },
        KernelOp::Loop(_) => None,
        KernelOp::EndLoop => None,
    }
}

/// A loop body at element `i`, in order.
pub open spec fn run_body(
    body: Seq<KernelOp>,
    x: (KernelState, Map<usize, i16>),
    inp: Seq<i16>,
    i: int,
) -> Option<(KernelState, Map<usize, i16>)>
    decreases body.len(),
{
    if body.len() == 0 {
        Some(x)
    } else {
        match run_body(body.drop_last(), x, inp, i) {
            Some(y) => body_op(y, body.last(), inp, i),
            None => None,
        }
    }
}

/// The first `n` iterations of a loop, each starting with no registers.
pub open spec fn run_loop(body: Seq<KernelOp>, n: nat, s: KernelState, inp: Seq<i16>) -> Option<KernelState>
    decreases n,
{
    if n == 0 {
        Some(s)
    } else {
        match run_loop(body, (n - 1) as nat, s, inp) {
            Some(t) => match run_body(body, (t, Map::empty()), inp, n - 1) {
                Some(y) => Some(y.0),
                None => None,
            },
            None => None,
        }
    }
}

/// The position of the last `Loop` of `code` before position `k`, or -1.
pub open spec fn last_loop_before(code: Seq<KernelOp>, k: int) -> int
    decreases k,
{
    if k <= 0 {
        -1
    } else if code[k - 1] is Loop {
        k - 1
    } else {
        last_loop_before(code, k - 1)
    }
}

pub proof fn lemma_last_loop_before(code: Seq<KernelOp>, k: int)
    ensures
        -1 <= last_loop_before(code, k) < if k > 0 { k } else { 0 },
    decreases k,
{
    if k > 0 && !(code[k - 1] is Loop) {
        lemma_last_loop_before(code, k - 1);
    }
}

/// A kernel: its loops in order; `None` where it is not a sequence of
/// loops or a loop fails.
pub open spec fn run_code(code: Seq<KernelOp>, s: KernelState, inp: Seq<i16>) -> Option<KernelState>
    decreases code.len(),
{
    if code.len() == 0 {
        Some(s)
    } else {
        let p = last_loop_before(code, code.len() - 1);
        proof {
            lemma_last_loop_before(code, code.len() - 1);
        }
        if code.last() is EndLoop && 0 <= p {
            match code[p] {
                KernelOp::Loop(len) => match run_code(code.take(p), s, inp) {
                    Some(t) => run_loop(code.subrange(p + 1, code.len() - 1), len as nat, t, inp),
                    None => None,
                },
                _ => None,
            }
        } else {
            None
        }
    }
}

/// A loop of `len` iterations around `body`.
pub open spec fn loop_ir(len: u32, body: Seq<KernelOp>) -> Seq<KernelOp> {
    seq![KernelOp::Loop(len)] + body + seq![KernelOp::EndLoop]
}

/// `body` holds no `Loop`.
pub open spec fn loop_free(body: Seq<KernelOp>) -> bool {
    forall|k: int| 0 <= k < body.len() ==> !(#[trigger] body[k] is Loop)
}

proof fn lemma_last_loop_at(code: Seq<KernelOp>, p: int, k: int)
    requires
        0 <= p < k <= code.len(),
        code[p] is Loop,
        forall|j: int| p < j < k ==> !(#[trigger] code[j] is Loop),
    ensures
        last_loop_before(code, k) == p,
    decreases k,
{
    if k - 1 > p {
        lemma_last_loop_at(code, p, k - 1);
    }
}

/// A kernel that ends in a loop runs what comes before, then the loop.
pub proof fn lemma_run_code_loop(a: Seq<KernelOp>, len: u32, body: Seq<KernelOp>, s: KernelState, inp: Seq<i16>)
    requires
        loop_free(body),
    ensures
        run_code(a + loop_ir(len, body), s, inp) == match run_code(a, s, inp) {
            Some(t) => run_loop(body, len as nat, t, inp),
            None => None,
        },
{
    let code = a + loop_ir(len, body);
    let p = a.len() as int;
    assert(code[p] == KernelOp::Loop(len));
    assert forall|j: int| p < j < code.len() - 1 implies !(#[trigger] code[j] is Loop) by {
        assert(code[j] == body[j - p - 1]);
    }
    lemma_last_loop_at(code, p, code.len() - 1);
    assert(code.last() == KernelOp::EndLoop);
    assert(code.take(p) =~= a);
    assert(code.subrange(p + 1, code.len() - 1) =~= body);
}

/// Appending an operation to a body runs it after the body.
pub proof fn lemma_run_body_push(
    body: Seq<KernelOp>,
    op: KernelOp,
    x: (KernelState, Map<usize, i16>),
    inp: Seq<i16>,
    i: int,
)
    ensures
        run_body(body.push(op), x, inp, i) == match run_body(body, x, inp, i) {
            Some(y) => body_op(y, op, inp, i),
            None => None,
        },
{
    assert(body.push(op).drop_last() =~= body);
}

/// The kernel operation of an element-wise i16 operation on registers 0
/// and 1 into register 2.
pub open spec fn kind_op(kind: BinKind) -> KernelOp {
    match kind {
        BinKind::Add => KernelOp::AddSat(0, 1, 2),
        BinKind::Sub => KernelOp::SubSat(0, 1, 2),
        BinKind::Mul => KernelOp::MulQ8(0, 1, 2),
    }
}

/// The body of the loop that applies `op` to two ranges.
pub open spec fn binary_body(l: u32, r: u32, d: u32, op: KernelOp) -> Seq<KernelOp> {
    seq![KernelOp::Load(l, 0), KernelOp::Load(r, 1), op, KernelOp::Store(2, d)]
}

/// `d` does not start inside `[s, s + len)` after `s`: an element-wise loop
/// from `s` to `d` reads each element before writing over it.
pub open spec fn reads_before_writes(s: u32, d: u32, len: u32) -> bool {
    !(s < d && d < s + len)
}

/// One iteration of the binary loop at element `i`.
proof fn lemma_binary_iter(l: u32, r: u32, d: u32, kind: BinKind, t: KernelState, inp: Seq<i16>, i: int)
    requires
        0 <= i,
        l + i < t.mem.len(),
        r + i < t.mem.len(),
        d + i < t.mem.len(),
    ensures
        run_body(binary_body(l, r, d, kind_op(kind)), (t, Map::empty()), inp, i) is Some,
        run_body(binary_body(l, r, d, kind_op(kind)), (t, Map::empty()), inp, i).unwrap().0 == (KernelState {
            mem: t.mem.update(d + i, bin16(kind, t.mem[l + i], t.mem[r + i])),
            out: t.out,
        }),
{
    let e = Map::<usize, i16>::empty();
    let a = t.mem[l + i];
    let b = t.mem[r + i];
    let r0 = e.insert(0, a);
    let r1 = r0.insert(1, b);
    let r2 = r1.insert(2, bin16(kind, a, b));
    let b0 = Seq::<KernelOp>::empty();
    let b1 = b0.push(KernelOp::Load(l, 0));
    let b2 = b1.push(KernelOp::Load(r, 1));
    let b3 = b2.push(kind_op(kind));
    assert(binary_body(l, r, d, kind_op(kind)) =~= b3.push(KernelOp::Store(2, d)));
    lemma_run_body_push(b0, KernelOp::Load(l, 0), (t, e), inp, i);
    assert(run_body(b1, (t, e), inp, i) == Some((t, r0)));
    lemma_run_body_push(b1, KernelOp::Load(r, 1), (t, e), inp, i);
    assert(run_body(b2, (t, e), inp, i) == Some((t, r1)));
    assert(r1[0] == a && r1[1] == b && r1.contains_key(0) && r1.contains_key(1));
    lemma_run_body_push(b2, kind_op(kind), (t, e), inp, i);
    assert(body_op((t, r1), kind_op(kind), inp, i) == Some((t, r2)));
    assert(run_body(b3, (t, e), inp, i) == Some((t, r2)));
    assert(r2.contains_key(2) && r2[2] == bin16(kind, a, b));
    lemma_run_body_push(b3, KernelOp::Store(2, d), (t, e), inp, i);
}

/// The first `n` iterations of the binary loop write the first `n` results
/// of the element-wise operation, computed from the scratchpad as it was.
pub proof fn lemma_binary_loop(
    l: u32,
    r: u32,
    d: u32,
    len: u32,
    kind: BinKind,
    s: KernelState,
    inp: Seq<i16>,
    n: nat,
)
    requires
        n <= len,
        in_range(l as int, len as int, s.mem.len() as int),
        in_range(r as int, len as int, s.mem.len() as int),
        in_range(d as int, len as int, s.mem.len() as int),
        reads_before_writes(l, d, len),
        reads_before_writes(r, d, len),
    ensures
        run_loop(binary_body(l, r, d, kind_op(kind)), n, s, inp) == Some(
            KernelState { mem: write_range(s.mem, d as int, map_bin16(s.mem, l as int, r as int, n, kind)), out: s.out },
        ),
    decreases n,
{
    if n == 0 {
        assert(write_range(s.mem, d as int, map_bin16(s.mem, l as int, r as int, 0, kind)) =~= s.mem);
    } else {
        let i = n - 1;
        lemma_binary_loop(l, r, d, len, kind, s, inp, (n - 1) as nat);
        let w = write_range(s.mem, d as int, map_bin16(s.mem, l as int, r as int, (n - 1) as nat, kind));
        let t = KernelState { mem: w, out: s.out };
        assert(w[l + i] == s.mem[l + i]);
        assert(w[r + i] == s.mem[r + i]);
        lemma_binary_iter(l, r, d, kind, t, inp, i);
        assert(write_range(s.mem, d as int, map_bin16(s.mem, l as int, r as int, n, kind)) =~= w.update(
            d + i,
            bin16(kind, s.mem[l + i], s.mem[r + i]),
        ));
    }
}

/// The body of the loop that copies inputs into the scratchpad.
pub open spec fn load_input_body(var: u32, dst: u32) -> Seq<KernelOp> {
    seq![KernelOp::LoadInput(var, 0), KernelOp::Store(0, dst)]
}

/// The body of the loop that copies the scratchpad into the outputs.
pub open spec fn store_output_body(src: u32, out_id: u32) -> Seq<KernelOp> {
    seq![KernelOp::Load(src, 0), KernelOp::StoreOutput(0, out_id)]
}

/// The body of the loop that fills the scratchpad with a constant.
pub open spec fn fill_body(val: i16, dst: u32) -> Seq<KernelOp> {
    seq![KernelOp::Const(val, 0), KernelOp::Store(0, dst)]
}

/// The first `n` iterations of the input loop copy `n` inputs.
pub proof fn lemma_load_input_loop(var: u32, dst: u32, len: u32, s: KernelState, inp: Seq<i16>, n: nat)
    requires
        n <= len,
        in_range(var as int, len as int, inp.len() as int),
        in_range(dst as int, len as int, s.mem.len() as int),
    ensures
        run_loop(load_input_body(var, dst), n, s, inp) == Some(
            KernelState { mem: write_range(s.mem, dst as int, inp.subrange(var as int, var + n)), out: s.out },
        ),
    decreases n,
{
    if n == 0 {
        assert(write_range(s.mem, dst as int, inp.subrange(var as int, var as int)) =~= s.mem);
    } else {
        let i = n - 1;
        lemma_load_input_loop(var, dst, len, s, inp, (n - 1) as nat);
        let w = write_range(s.mem, dst as int, inp.subrange(var as int, var + i));
        let t = KernelState { mem: w, out: s.out };
        let e = Map::<usize, i16>::empty();
        let b0 = Seq::<KernelOp>::empty();
        let b1 = b0.push(KernelOp::LoadInput(var, 0));
        assert(load_input_body(var, dst) =~= b1.push(KernelOp::Store(0, dst)));
        lemma_run_body_push(b0, KernelOp::LoadInput(var, 0), (t, e), inp, i);
        assert(run_body(b1, (t, e), inp, i) == Some((t, e.insert(0, inp[var + i]))));
        lemma_run_body_push(b1, KernelOp::Store(0, dst), (t, e), inp, i);
        assert(write_range(s.mem, dst as int, inp.subrange(var as int, var + n)) =~= w.update(dst + i, inp[var + i]));
    }
}

/// One iteration of the output loop at element `i`.
proof fn lemma_store_output_iter(src: u32, out_id: u32, t: KernelState, inp: Seq<i16>, i: int)
    requires
        0 <= i,
        src + i < t.mem.len(),
        out_id + i < t.out.len(),
    ensures
        run_body(store_output_body(src, out_id), (t, Map::empty()), inp, i) is Some,
        run_body(store_output_body(src, out_id), (t, Map::empty()), inp, i).unwrap().0 == (KernelState {
            mem: t.mem,
            out: t.out.update(out_id + i, t.mem[src + i]),
        }),
{
    let e = Map::<usize, i16>::empty();
    let b0 = Seq::<KernelOp>::empty();
    let b1 = b0.push(KernelOp::Load(src, 0));
    assert(store_output_body(src, out_id) =~= b1.push(KernelOp::StoreOutput(0, out_id)));
    lemma_run_body_push(b0, KernelOp::Load(src, 0), (t, e), inp, i);
    assert(run_body(b1, (t, e), inp, i) == Some((t, e.insert(0, t.mem[src + i]))));
    lemma_run_body_push(b1, KernelOp::StoreOutput(0, out_id), (t, e), inp, i);
}

/// The first `n` iterations of the output loop copy `n` elements.
pub proof fn lemma_store_output_loop(src: u32, out_id: u32, len: u32, s: KernelState, inp: Seq<i16>, n: nat)
    requires
        n <= len,
        in_range(src as int, len as int, s.mem.len() as int),
        in_range(out_id as int, len as int, s.out.len() as int),
    ensures
        run_loop(store_output_body(src, out_id), n, s, inp) == Some(
            KernelState { mem: s.mem, out: write_range(s.out, out_id as int, s.mem.subrange(src as int, src + n)) },
        ),
    decreases n,
{
    if n == 0 {
        assert(write_range(s.out, out_id as int, s.mem.subrange(src as int, src as int)) =~= s.out);
    } else {
        let i = n - 1;
        lemma_store_output_loop(src, out_id, len, s, inp, (n - 1) as nat);
        let o = write_range(s.out, out_id as int, s.mem.subrange(src as int, src + i));
        lemma_store_output_iter(src, out_id, KernelState { mem: s.mem, out: o }, inp, i);
        assert(write_range(s.out, out_id as int, s.mem.subrange(src as int, src + n)) =~= o.update(
            out_id + i,
            s.mem[src + i],
        ));
    }
}

/// The first `n` iterations of the fill loop write `n` copies of `val`.
pub proof fn lemma_fill_loop(val: i16, dst: u32, len: u32, s: KernelState, inp: Seq<i16>, n: nat)
    requires
        n <= len,
        in_range(dst as int, len as int, s.mem.len() as int),
    ensures
        run_loop(fill_body(val, dst), n, s, inp) == Some(
            KernelState { mem: write_range(s.mem, dst as int, Seq::new(n, |k: int| val)), out: s.out },
        ),
    decreases n,
{
    if n == 0 {
        assert(write_range(s.mem, dst as int, Seq::new(0, |k: int| val)) =~= s.mem);
    } else {
        let i = n - 1;
        lemma_fill_loop(val, dst, len, s, inp, (n - 1) as nat);
        let w = write_range(s.mem, dst as int, Seq::new((n - 1) as nat, |k: int| val));
        let t = KernelState { mem: w, out: s.out };
        let e = Map::<usize, i16>::empty();
        let b0 = Seq::<KernelOp>::empty();
        let b1 = b0.push(KernelOp::Const(val, 0));
        assert(fill_body(val, dst) =~= b1.push(KernelOp::Store(0, dst)));
        lemma_run_body_push(b0, KernelOp::Const(val, 0), (t, e), inp, i);
        assert(run_body(b1, (t, e), inp, i) == Some((t, e.insert(0, val))));
        lemma_run_body_push(b1, KernelOp::Store(0, dst), (t, e), inp, i);
        assert(write_range(s.mem, dst as int, Seq::new(n, |k: int| val)) =~= w.update(dst + i, val));
    }
}

/// The instructions whose raw kernel is a loop.
pub open spec fn has_kernel_form(op: OpCode) -> bool {
    match op {
        OpCode::LoadVar(..) | OpCode::Store(..) | OpCode::LoadVarVec(..) | OpCode::StoreVec(..) | OpCode::Add(..)
        | OpCode::Sub(..) | OpCode::Mul(..) | OpCode::AddVec(..) | OpCode::GradAdd(..) | OpCode::MulVec(..)
        | OpCode::GradMul(..) | OpCode::FillVec(..) => true,
        _ => false,
    }
}

/// The element-wise loop of `op` reads each element before it writes over
/// it: its destination does not start inside a source range after that
/// source's start.
pub open spec fn reads_first(op: OpCode) -> bool {
    match op {
        OpCode::AddVec(l, r, d, len) | OpCode::GradAdd(l, r, d, len) | OpCode::MulVec(l, r, d, len)
        | OpCode::GradMul(l, r, d, len) => reads_before_writes(l, d, len) && reads_before_writes(r, d, len),
        _ => true,
    }
}

/// The buffers of a machine state that a kernel works on.
pub open spec fn kernel_state(s: MachineState) -> KernelState {
    KernelState { mem: s.mem, out: s.out }
}

/// The kernel loop of a binary instruction computes the interpreter's step.
proof fn lemma_binary_kernel(l: u32, r: u32, d: u32, len: u32, kind: BinKind, s: MachineState, inp: Seq<i16>)
    requires
        bin_result(s.mem, l, r, d, len, kind) is Ok,
        reads_before_writes(l, d, len),
        reads_before_writes(r, d, len),
    ensures
        run_code(binary_loop(l, r, d, len, kind_op(kind)), kernel_state(s), inp) == Some(
            KernelState { mem: bin_result(s.mem, l, r, d, len, kind)->Ok_0, out: s.out },
        ),
{
    assert(binary_loop(l, r, d, len, kind_op(kind)) =~= Seq::<KernelOp>::empty() + loop_ir(
        len,
        binary_body(l, r, d, kind_op(kind)),
    ));
    lemma_run_code_loop(Seq::empty(), len, binary_body(l, r, d, kind_op(kind)), kernel_state(s), inp);
    lemma_binary_loop(l, r, d, len, kind, kernel_state(s), inp, len as nat);
}

/// The kernel loop of a scalar binary instruction computes the
/// interpreter's step.
proof fn lemma_cell_kernel(l: u32, r: u32, d: u32, kind: BinKind, s: MachineState, inp: Seq<i16>)
    requires
        cell_result(s.mem, l, r, d, kind) is Ok,
    ensures
        run_code(binary_loop(l, r, d, 1, kind_op(kind)), kernel_state(s), inp) == Some(
            KernelState { mem: cell_result(s.mem, l, r, d, kind)->Ok_0, out: s.out },
        ),
{
    assert(binary_loop(l, r, d, 1, kind_op(kind)) =~= Seq::<KernelOp>::empty() + loop_ir(
        1,
        binary_body(l, r, d, kind_op(kind)),
    ));
    lemma_run_code_loop(Seq::empty(), 1, binary_body(l, r, d, kind_op(kind)), kernel_state(s), inp);
    lemma_binary_loop(l, r, d, 1, kind, kernel_state(s), inp, 1);
    assert(write_range(s.mem, d as int, map_bin16(s.mem, l as int, r as int, 1, kind)) =~= s.mem.update(
        d as int,
        bin16(kind, s.mem[l as int], s.mem[r as int]),
    ));
}

proof fn lemma_load_kernel(var: u32, dst: u32, len: u32, s: MachineState, inp: Seq<i16>)
    requires
        in_range(var as int, len as int, inp.len() as int),
        in_range(dst as int, len as int, s.mem.len() as int),
    ensures
        run_code(loop_ir(len, load_input_body(var, dst)), kernel_state(s), inp) == Some(
            KernelState { mem: write_range(s.mem, dst as int, inp.subrange(var as int, var + len)), out: s.out },
        ),
{
    assert(loop_ir(len, load_input_body(var, dst)) =~= Seq::<KernelOp>::empty() + loop_ir(len, load_input_body(var, dst)));
    lemma_run_code_loop(Seq::empty(), len, load_input_body(var, dst), kernel_state(s), inp);
    lemma_load_input_loop(var, dst, len, kernel_state(s), inp, len as nat);
}

proof fn lemma_store_kernel(src: u32, out_id: u32, len: u32, s: MachineState, inp: Seq<i16>)
    requires
        in_range(src as int, len as int, s.mem.len() as int),
        in_range(out_id as int, len as int, s.out.len() as int),
    ensures
        run_code(loop_ir(len, store_output_body(src, out_id)), kernel_state(s), inp) == Some(
            KernelState { mem: s.mem, out: write_range(s.out, out_id as int, s.mem.subrange(src as int, src + len)) },
        ),
{
    assert(loop_ir(len, store_output_body(src, out_id)) =~= Seq::<KernelOp>::empty() + loop_ir(
        len,
        store_output_body(src, out_id),
    ));
    lemma_run_code_loop(Seq::empty(), len, store_output_body(src, out_id), kernel_state(s), inp);
    lemma_store_output_loop(src, out_id, len, kernel_state(s), inp, len as nat);
}

proof fn lemma_fill_kernel(val: i16, dst: u32, len: u32, s: MachineState, inp: Seq<i16>)
    requires
        in_range(dst as int, len as int, s.mem.len() as int),
    ensures
        run_code(loop_ir(len, fill_body(val, dst)), kernel_state(s), inp) == Some(
            KernelState { mem: write_range(s.mem, dst as int, Seq::new(len as nat, |i: int| val)), out: s.out },
        ),
{
    assert(loop_ir(len, fill_body(val, dst)) =~= Seq::<KernelOp>::empty() + loop_ir(len, fill_body(val, dst)));
    lemma_run_code_loop(Seq::empty(), len, fill_body(val, dst), kernel_state(s), inp);
    lemma_fill_loop(val, dst, len, kernel_state(s), inp, len as nat);
    assert(Seq::new(len as nat, |k: int| val) =~= Seq::new(len as nat, |i: int| val));
}

/// The raw kernel of an instruction computes what the interpreter's step
/// computes, on the scratchpad and the outputs.
#[verifier::rlimit(30)]
pub proof fn lemma_raw_op_kernel(op: OpCode, s: MachineState, inp: Seq<i16>)
    requires
        has_kernel_form(op),
        reads_first(op),
        step(s, op, inp) is Ok,
    ensures
        run_code(raw_op_ir(op), kernel_state(s), inp) == Some(kernel_state(step(s, op, inp)->Ok_0)),
{
    reveal(step);
    match op {
        OpCode::LoadVar(var, dst) => {
            assert(raw_op_ir(op) == loop_ir(1, load_input_body(var, dst)));
            lemma_load_kernel(var, dst, 1, s, inp);
            assert(write_range(s.mem, dst as int, inp.subrange(var as int, var + 1)) =~= s.mem.update(
                dst as int,
                inp[var as int],
            ));
        },
        OpCode::Store(src, out_id) => {
            assert(raw_op_ir(op) == loop_ir(1, store_output_body(src, out_id)));
            lemma_store_kernel(src, out_id, 1, s, inp);
            assert(write_range(s.out, out_id as int, s.mem.subrange(src as int, src + 1)) =~= s.out.update(
                out_id as int,
                s.mem[src as int],
            ));
        },
        OpCode::LoadVarVec(var, dst, len) => {
            assert(raw_op_ir(op) == loop_ir(len, load_input_body(var, dst)));
            lemma_load_kernel(var, dst, len, s, inp);
        },
        OpCode::StoreVec(src, out_id, len) => {
            assert(raw_op_ir(op) == loop_ir(len, store_output_body(src, out_id)));
            lemma_store_kernel(src, out_id, len, s, inp);
        },
        OpCode::FillVec(val, dst, len) => {
            assert(raw_op_ir(op) == loop_ir(len, fill_body(val, dst)));
            lemma_fill_kernel(val, dst, len, s, inp);
        },
        OpCode::Add(l, r, d) => lemma_cell_kernel(l, r, d, BinKind::Add, s, inp),
        OpCode::Sub(l, r, d) => lemma_cell_kernel(l, r, d, BinKind::Sub, s, inp),
        OpCode::Mul(l, r, d) => lemma_cell_kernel(l, r, d, BinKind::Mul, s, inp),
        OpCode::AddVec(l, r, d, len) => lemma_binary_kernel(l, r, d, len, BinKind::Add, s, inp),
        OpCode::GradAdd(l, r, d, len) => lemma_binary_kernel(l, r, d, len, BinKind::Add, s, inp),
        OpCode::MulVec(l, r, d, len) => lemma_binary_kernel(l, r, d, len, BinKind::Mul, s, inp),
        OpCode::GradMul(l, r, d, len) => lemma_binary_kernel(l, r, d, len, BinKind::Mul, s, inp),
        _ => {},
    }
}

/// The loop length and body of the raw kernel of an instruction with a
/// kernel form.
pub open spec fn raw_shape(op: OpCode) -> (u32, Seq<KernelOp>) {
    match op {
        OpCode::LoadVar(var, dst) => (1, load_input_body(var, dst)),
        OpCode::Store(src, out_id) => (1, store_output_body(src, out_id)),
        OpCode::LoadVarVec(var, dst, len) => (len, load_input_body(var, dst)),
        OpCode::StoreVec(src, out_id, len) => (len, store_output_body(src, out_id)),
        OpCode::Add(l, r, d) => (1, binary_body(l, r, d, kind_op(BinKind::Add))),
        OpCode::Sub(l, r, d) => (1, binary_body(l, r, d, kind_op(BinKind::Sub))),
        OpCode::Mul(l, r, d) => (1, binary_body(l, r, d, kind_op(BinKind::Mul))),
        OpCode::AddVec(l, r, d, len) => (len, binary_body(l, r, d, kind_op(BinKind::Add))),
        OpCode::GradAdd(l, r, d, len) => (len, binary_body(l, r, d, kind_op(BinKind::Add))),
        OpCode::MulVec(l, r, d, len) => (len, binary_body(l, r, d, kind_op(BinKind::Mul))),
        OpCode::GradMul(l, r, d, len) => (len, binary_body(l, r, d, kind_op(BinKind::Mul))),
        OpCode::FillVec(val, dst, len) => (len, fill_body(val, dst)),
        _ => (0, Seq::empty()),
    }
}

pub proof fn lemma_raw_shape(op: OpCode)
    requires
        has_kernel_form(op),
    ensures
        raw_op_ir(op) == loop_ir(raw_shape(op).0, raw_shape(op).1),
        loop_free(raw_shape(op).1),
{
    let body = raw_shape(op).1;
    assert(raw_op_ir(op) =~= loop_ir(raw_shape(op).0, body));
    assert forall|k: int| 0 <= k < body.len() implies !(#[trigger] body[k] is Loop) by {
        if body.len() == 4 {
            assert(body[2] == kind_op(BinKind::Add) || body[2] == kind_op(BinKind::Sub) || body[2] == kind_op(
                BinKind::Mul,
            ));
        }
    }
}

} // verus!
