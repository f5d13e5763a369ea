use vstd::prelude::*;
use std::collections::HashMap;
use crate::ir::{Instruction, OpCode, XimGraph, ops_of};

verus! {

broadcast use vstd::std_specs::hash::group_hash_axioms;

/// An operation of a fused loop.  A fused loop runs its operations once per
/// element index `i`; memory offsets are offsets of element 0, registers hold
/// the element being processed.
#[derive(Debug, Clone, Copy, PartialEq, Eq, Structural)]
pub enum FusedOp {
    /// Load(src_off, reg)
    Load(u32, usize),
    /// Store(reg, dst_off)
    Store(usize, u32),
    /// Add(l_reg, r_reg, d_reg)
    Add(usize, usize, usize),
    /// Mul(l_reg, r_reg, d_reg)
    Mul(usize, usize, usize),
    /// LoadConst(value, reg)
    LoadConst(i16, usize),
    /// Copy(src_off, dst_off)
    Copy(u32, u32),
    /// AdamW update of the weight, first and second moment registers.
    AdamWStep { w: usize, g: usize, m: usize, v: usize },
}

/// An instruction after loop fusion.
#[derive(Debug, Clone)]
pub enum OptimizedInstruction {
    Raw(OpCode),
    FusedLoop { ops: Vec<FusedOp>, len: u32 },
}

/// The mathematical value of an `OptimizedInstruction`.
pub enum OptView {
    Raw(OpCode),
    Fused(Seq<FusedOp>, u32),
}

impl View for OptimizedInstruction {
    type V = OptView;

    open spec fn view(&self) -> OptView {
        match self {
            OptimizedInstruction::Raw(op) => OptView::Raw(*op),
            OptimizedInstruction::FusedLoop { ops, len } => OptView::Fused(ops@, *len),
        }
    }
}

/// The values of a sequence of optimized instructions.
pub open spec fn opt_view(v: Seq<OptimizedInstruction>) -> Seq<OptView> {
    v.map_values(|x: OptimizedInstruction| x@)
}

// ---------------------------------------------------------------------------
// Stage 1: local fusion
// ---------------------------------------------------------------------------

/// The element count of a fusable vector instruction.
pub open spec fn vec_len(op: OpCode) -> Option<u32> {
    match op {
        OpCode::AddVec(_, _, _, len) => Some(len),
        OpCode::MulVec(_, _, _, len) => Some(len),
        OpCode::AddScalarVec(_, _, _, len) => Some(len),
        OpCode::MulScalarVec(_, _, _, len) => Some(len),
        OpCode::AdamWStep(_, _, _, _, len) => Some(len),
        _ => None,
    }
}

/// The state of the compiler of one fusion group: the operations emitted,
/// the register that holds each memory offset, the next free register.
pub struct GroupState {
    pub ops: Seq<FusedOp>,
    pub regs: Map<u32, usize>,
    pub next: nat,
}

pub open spec fn group_init() -> GroupState {
    GroupState { ops: Seq::empty(), regs: Map::empty(), next: 0 }
}

/// The register holding memory offset `off`; loads it into a fresh register
/// when no register holds it yet.
pub open spec fn reg_for(st: GroupState, off: u32) -> (usize, GroupState) {
    if st.regs.contains_key(off) {
        (st.regs[off], st)
    } else {
        (
            st.next as usize,
            GroupState {
                ops: st.ops.push(FusedOp::Load(off, st.next as usize)),
                regs: st.regs.insert(off, st.next as usize),
                next: st.next + 1,
            },
        )
    }
}

/// A binary operation on two registers into a fresh register, stored to `d`.
pub open spec fn emit_binary(st: GroupState, lr: usize, rr: usize, d: u32, mul: bool) -> GroupState {
    let dr = st.next as usize;
    let op = if mul { FusedOp::Mul(lr, rr, dr) } else { FusedOp::Add(lr, rr, dr) };
    GroupState { ops: st.ops.push(op).push(FusedOp::Store(dr, d)), regs: st.regs.insert(d, dr), next: st.next + 1 }
}

/// Compiles one vector instruction into the group.
pub open spec fn compile_op(st: GroupState, op: OpCode) -> GroupState {
    match op {
        OpCode::AddVec(l, r, d, _) => {
            let (lr, s1) = reg_for(st, l);
            let (rr, s2) = reg_for(s1, r);
            emit_binary(s2, lr, rr, d, false)
        },
        OpCode::MulVec(l, r, d, _) => {
            let (lr, s1) = reg_for(st, l);
            let (rr, s2) = reg_for(s1, r);
            emit_binary(s2, lr, rr, d, true)
        },
        OpCode::AddScalarVec(l, val, d, _) => {
            let (lr, s1) = reg_for(st, l);
            let sr = s1.next as usize;
            let s2 = GroupState { ops: s1.ops.push(FusedOp::LoadConst(val, sr)), regs: s1.regs, next: s1.next + 1 };
            emit_binary(s2, lr, sr, d, false)
        },
        OpCode::MulScalarVec(l, val, d, _) => {
            let (lr, s1) = reg_for(st, l);
            let sr = s1.next as usize;
            let s2 = GroupState { ops: s1.ops.push(FusedOp::LoadConst(val, sr)), regs: s1.regs, next: s1.next + 1 };
            emit_binary(s2, lr, sr, d, true)
        },
        OpCode::AdamWStep(w, g, m, v, _) => {
            let (wr, s1) = reg_for(st, w);
            let (gr, s2) = reg_for(s1, g);
            let (mr, s3) = reg_for(s2, m);
            let (vr, s4) = reg_for(s3, v);
            GroupState {
                ops: s4.ops.push(FusedOp::AdamWStep { w: wr, g: gr, m: mr, v: vr }).push(FusedOp::Store(wr, w)).push(
                    FusedOp::Store(mr, m),
                ).push(FusedOp::Store(vr, v)),
                regs: s4.regs,
                next: s4.next,
            }
        },
        _ => st,
    }
}

/// Compiles a group of vector instructions, in order.
pub open spec fn compile_group(ops: Seq<OpCode>) -> GroupState
    decreases ops.len(),
{
    if ops.len() == 0 {
        group_init()
    } else {
        compile_op(compile_group(ops.drop_last()), ops.last())
    }
}

/// The end of the run of vector instructions of length `len` that starts at `i`.
pub open spec fn run_end(ops: Seq<OpCode>, i: int, len: u32) -> int
    decreases ops.len() - i,
{
    if 0 <= i < ops.len() && vec_len(ops[i]) == Some(len) {
        run_end(ops, i + 1, len)
    } else {
        i
    }
}

pub proof fn lemma_run_end(ops: Seq<OpCode>, i: int, len: u32)
    requires
        0 <= i,
    ensures
        i <= run_end(ops, i, len),
        i < ops.len() ==> run_end(ops, i, len) <= ops.len(),
        i < ops.len() && vec_len(ops[i]) == Some(len) ==> i < run_end(ops, i, len),
        forall|k: int| i <= k < run_end(ops, i, len) ==> vec_len(#[trigger] ops[k]) == Some(len),
    decreases ops.len() - i,
{
    if 0 <= i < ops.len() && vec_len(ops[i]) == Some(len) {
        lemma_run_end(ops, i + 1, len);
    }
}

/// Stage 1 from position `i` on: each maximal run of vector instructions of
/// one length becomes a fused loop, every other instruction stays raw.
pub open spec fn fuse_from(ops: Seq<OpCode>, i: int) -> Seq<OptView>
    decreases ops.len() - i,
{
    if i < 0 || i >= ops.len() {
        Seq::empty()
    } else {
        match vec_len(ops[i]) {
            Some(len) => {
                let j = run_end(ops, i, len);
                proof {
                    lemma_run_end(ops, i, len);
                }
                seq![OptView::Fused(compile_group(ops.subrange(i, j)).ops, len)] + fuse_from(ops, j)
            },
            None => seq![OptView::Raw(ops[i])] + fuse_from(ops, i + 1),
        }
    }
}

/// Compiling a vector instruction emits at least two operations and takes
/// at most four registers; the operations already emitted stay.
pub proof fn lemma_compile_op_growth(st: GroupState, op: OpCode)
    ensures
        compile_op(st, op).next <= st.next + 4,
        st.next <= compile_op(st, op).next,
        compile_op(st, op).ops.len() >= st.ops.len(),
        vec_len(op) is Some ==> compile_op(st, op).ops.len() >= st.ops.len() + 2,
{
    match op {
        OpCode::AddVec(l, r, d, _) | OpCode::MulVec(l, r, d, _) => {
            let (lr, s1) = reg_for(st, l);
            lemma_reg_for(st, l);
            lemma_reg_for(s1, r);
        },
        OpCode::AddScalarVec(l, val, d, _) | OpCode::MulScalarVec(l, val, d, _) => {
            lemma_reg_for(st, l);
        },
        OpCode::AdamWStep(w, g, m, v, _) => {
            let (wr, s1) = reg_for(st, w);
            let (gr, s2) = reg_for(s1, g);
            let (mr, s3) = reg_for(s2, m);
            lemma_reg_for(st, w);
            lemma_reg_for(s1, g);
            lemma_reg_for(s2, m);
            lemma_reg_for(s3, v);
        },
        _ => {},
    }
}

pub proof fn lemma_reg_for(st: GroupState, off: u32)
    ensures
        st.next <= reg_for(st, off).1.next <= st.next + 1,
        st.ops.len() <= reg_for(st, off).1.ops.len(),
{
}

pub proof fn lemma_compile_group_growth(ops: Seq<OpCode>)
    ensures
        compile_group(ops).next <= 4 * ops.len(),
    decreases ops.len(),
{
    if ops.len() > 0 {
        lemma_compile_group_growth(ops.drop_last());
        lemma_compile_op_growth(compile_group(ops.drop_last()), ops.last());
    }
}

/// The compiler of one fusion group.
struct GroupBuilder {
    ops: Vec<FusedOp>,
    regs: HashMap<u32, usize>,
    next: usize,
}

impl View for GroupBuilder {
    type V = GroupState;

    closed spec fn view(&self) -> GroupState {
        GroupState { ops: self.ops@, regs: self.regs@, next: self.next as nat }
    }
}

impl GroupBuilder {
    fn new() -> (b: Self)
        ensures
            b@ == group_init(),
    {
        GroupBuilder { ops: Vec::new(), regs: HashMap::new(), next: 0 }
    }

    fn reg_for(&mut self, off: u32) -> (r: usize)
        requires
            old(self)@.next < usize::MAX,
        ensures
            (r, final(self)@) == reg_for(old(self)@, off),
    {
        match self.regs.get(&off) {
            Some(reg) => *reg,
            None => {
                let reg = self.next;
                self.next = self.next + 1;
                self.ops.push(FusedOp::Load(off, reg));
                self.regs.insert(off, reg);
                reg
            },
        }
    }

    fn emit_binary(&mut self, lr: usize, rr: usize, d: u32, mul: bool)
        requires
            old(self)@.next < usize::MAX,
        ensures
            final(self)@ == emit_binary(old(self)@, lr, rr, d, mul),
    {
        let dr = self.next;
        self.next = self.next + 1;
        if mul {
            self.ops.push(FusedOp::Mul(lr, rr, dr));
        } else {
            self.ops.push(FusedOp::Add(lr, rr, dr));
        }
        self.ops.push(FusedOp::Store(dr, d));
        self.regs.insert(d, dr);
    }

    fn load_const(&mut self, val: i16) -> (r: usize)
        requires
            old(self)@.next < usize::MAX,
        ensures
            r == old(self)@.next as usize,
            final(self)@ == (GroupState {
                ops: old(self)@.ops.push(FusedOp::LoadConst(val, r)),
                regs: old(self)@.regs,
                next: old(self)@.next + 1,
            }),
    {
        let sr = self.next;
        self.next = self.next + 1;
        self.ops.push(FusedOp::LoadConst(val, sr));
        sr
    }

    fn compile(&mut self, op: OpCode)
        requires
            old(self)@.next + 4 <= usize::MAX,
        ensures
            final(self)@ == compile_op(old(self)@, op),
    {
        match op {
            OpCode::AddVec(l, r, d, _) => {
                let lr = self.reg_for(l);
                let rr = self.reg_for(r);
                self.emit_binary(lr, rr, d, false);
            },
            OpCode::MulVec(l, r, d, _) => {
                let lr = self.reg_for(l);
                let rr = self.reg_for(r);
                self.emit_binary(lr, rr, d, true);
            },
            OpCode::AddScalarVec(l, val, d, _) => {
                let lr = self.reg_for(l);
                let sr = self.load_const(val);
                self.emit_binary(lr, sr, d, false);
            },
            OpCode::MulScalarVec(l, val, d, _) => {
                let lr = self.reg_for(l);
                let sr = self.load_const(val);
                self.emit_binary(lr, sr, d, true);
            },
            OpCode::AdamWStep(w, g, m, v, _) => {
                let wr = self.reg_for(w);
                let gr = self.reg_for(g);
                let mr = self.reg_for(m);
                let vr = self.reg_for(v);
                self.ops.push(FusedOp::AdamWStep { w: wr, g: gr, m: mr, v: vr });
                self.ops.push(FusedOp::Store(wr, w));
                self.ops.push(FusedOp::Store(mr, m));
                self.ops.push(FusedOp::Store(vr, v));
            },
            _ => {},
        }
    }
}

/// `op` is a vector instruction of `len` elements.
fn has_vector_len(op: &OpCode, len: u32) -> (b: bool)
    ensures
        b == (vec_len(*op) == Some(len)),
{
    match LoopFuser::get_vector_len(op) {
        Some(l) => l == len,
        None => false,
    }
}

pub struct LoopFuser;

impl LoopFuser {
    /// Stage 1: Local Fusion (Consecutive Ops)
    pub fn fuse(instructions: &[Instruction]) -> (r: Vec<OptimizedInstruction>)
        requires
            instructions@.len() <= usize::MAX / 8,
        ensures
            opt_view(r@) == fuse_from(ops_of(instructions@), 0),
    {
        let ghost ops = ops_of(instructions@);
        let n = instructions.len();
        let mut optimized: Vec<OptimizedInstruction> = Vec::new();
        let mut i: usize = 0;
        while i < n
            invariant
                n == instructions@.len(),
                n <= usize::MAX / 8,
                ops == ops_of(instructions@),
                i <= n,
                opt_view(optimized@) + fuse_from(ops, i as int) == fuse_from(ops, 0),
            decreases n - i,
        {
            let instr_op = instructions[i].op;
            assert(ops[i as int] == instr_op);
            match Self::get_vector_len(&instr_op) {
                Some(len) => {
                    let mut group = GroupBuilder::new();
                    let mut j: usize = i;
                    proof {
                        lemma_run_end(ops, i as int, len);
                        assert(ops.subrange(i as int, i as int) =~= Seq::<OpCode>::empty());
                    }
                    while j < n && has_vector_len(&instructions[j].op, len)
                        invariant
                            n == instructions@.len(),
                            n <= usize::MAX / 8,
                            ops == ops_of(instructions@),
                            i <= j <= n,
                            i < n,
                            vec_len(ops[i as int]) == Some(len),
                            group@ == compile_group(ops.subrange(i as int, j as int)),
                            run_end(ops, i as int, len) == run_end(ops, j as int, len),
                        decreases n - j,
                    {
                        let ghost g0 = ops.subrange(i as int, j as int);
                        proof {
                            lemma_compile_group_growth(g0);
                        }
                        assert(ops[j as int] == instructions@[j as int].op);
                        group.compile(instructions[j].op);
                        assert(ops.subrange(i as int, j + 1).drop_last() =~= g0);
                        j += 1;
                    }
                    proof {
                        lemma_run_end(ops, i as int, len);
                        assert(j == run_end(ops, j as int, len));
                        assert(i < j) by {
                            if j == i {
                                assert(vec_len(ops[j as int]) == Some(len));
                            }
                        }
                        let g = ops.subrange(i as int, j as int);
                        assert(g.drop_last().len() + 1 == g.len());
                        lemma_compile_op_growth(compile_group(g.drop_last()), g.last());
                        assert(vec_len(g.last()) == Some(len));
                    }
                    let GroupBuilder { ops: fused, regs: _, next: _ } = group;
                    if fused.len() > 1 {
                        let ghost before = opt_view(optimized@);
                        optimized.push(OptimizedInstruction::FusedLoop { ops: fused, len });
                        assert(opt_view(optimized@) =~= before.push(OptView::Fused(compile_group(ops.subrange(i as int, j as int)).ops, len)));
                        i = j;
                    } else {
                        optimized.push(OptimizedInstruction::Raw(instr_op));
                        i += 1;
                    }
                },
                None => {
                    let ghost before = opt_view(optimized@);
                    optimized.push(OptimizedInstruction::Raw(instr_op));
                    assert(opt_view(optimized@) =~= before.push(OptView::Raw(instr_op)));
                    i += 1;
                },
            }
        }
        assert(opt_view(optimized@) + fuse_from(ops, i as int) =~= opt_view(optimized@));
        optimized
    }

    fn get_vector_len(op: &OpCode) -> (r: Option<u32>)
        ensures
            r == vec_len(*op),
    {
        match op {
            OpCode::AddVec(_, _, _, len) => Some(*len),
            OpCode::MulVec(_, _, _, len) => Some(*len),
            OpCode::AddScalarVec(_, _, _, len) => Some(*len),
            OpCode::MulScalarVec(_, _, _, len) => Some(*len),
            OpCode::AdamWStep(_, _, _, _, len) => Some(*len),
            _ => None,
        }
    }
}


// ---------------------------------------------------------------------------
// Stage 2: inter-kernel fusion
// ---------------------------------------------------------------------------

/// The register an operation contributes to the highest-register count
/// (the destination, for arithmetic; none for a copy).
pub open spec fn op_reg(op: FusedOp) -> Option<usize> {
    match op {
        FusedOp::Load(_, r) => Some(r),
        FusedOp::LoadConst(_, r) => Some(r),
        FusedOp::Add(_, _, r) => Some(r),
        FusedOp::Mul(_, _, r) => Some(r),
        FusedOp::Store(r, _) => Some(r),
        FusedOp::AdamWStep { w, g, m, v } => Some(
            vstd::math::max(vstd::math::max(vstd::math::max(w as int, g as int), m as int), v as int) as usize,
        ),
        FusedOp::Copy(_, _) => None,
    }
}

/// The highest register counted by `op_reg`, 0 for none.
pub open spec fn reg_top(ops: Seq<FusedOp>) -> nat
    decreases ops.len(),
{
    if ops.len() == 0 {
        0
    } else {
        let t = reg_top(ops.drop_last());
        match op_reg(ops.last()) {
            Some(r) => if r > t { r as nat } else { t },
            None => t,
        }
    }
}

/// The largest register an operation names, 0 for none.
pub open spec fn op_max_reg(op: FusedOp) -> nat {
    match op {
        FusedOp::Load(_, r) => r as nat,
        FusedOp::LoadConst(_, r) => r as nat,
        FusedOp::Add(l, r, d) => vstd::math::max(vstd::math::max(l as int, r as int), d as int) as nat,
        FusedOp::Mul(l, r, d) => vstd::math::max(vstd::math::max(l as int, r as int), d as int) as nat,
        FusedOp::Store(r, _) => r as nat,
        FusedOp::AdamWStep { w, g, m, v } => vstd::math::max(
            vstd::math::max(vstd::math::max(w as int, g as int), m as int),
            v as int,
        ) as nat,
        FusedOp::Copy(_, _) => 0,
    }
}

/// Every register of `ops` is at most `b`.
pub open spec fn regs_below(ops: Seq<FusedOp>, b: int) -> bool {
    forall|k: int| 0 <= k < ops.len() ==> #[trigger] op_max_reg(ops[k]) <= b
}

/// `op` with `off` added to each of its registers.
pub open spec fn shift_op(op: FusedOp, off: int) -> FusedOp {
    match op {
        FusedOp::Load(a, r) => FusedOp::Load(a, (r + off) as usize),
        FusedOp::LoadConst(v, r) => FusedOp::LoadConst(v, (r + off) as usize),
        FusedOp::Store(r, a) => FusedOp::Store((r + off) as usize, a),
        FusedOp::Add(l, r, d) => FusedOp::Add((l + off) as usize, (r + off) as usize, (d + off) as usize),
        FusedOp::Mul(l, r, d) => FusedOp::Mul((l + off) as usize, (r + off) as usize, (d + off) as usize),
        FusedOp::AdamWStep { w, g, m, v } => FusedOp::AdamWStep {
            w: (w + off) as usize,
            g: (g + off) as usize,
            m: (m + off) as usize,
            v: (v + off) as usize,
        },
        FusedOp::Copy(a, b) => FusedOp::Copy(a, b),
    }
}

pub open spec fn shift_ops(ops: Seq<FusedOp>, off: int) -> Seq<FusedOp> {
    ops.map_values(|op: FusedOp| shift_op(op, off))
}

/// Merges into `acc` the fused loops of length `len` that follow from
/// position `j` on, renumbering each loop's registers above those of `acc`
/// and passing over the scalar `Add`/`Mul` instructions between them.
/// Returns the merged operations and the position where merging stopped.
pub open spec fn merge_from(ins: Seq<OptView>, j: int, acc: Seq<FusedOp>, len: u32) -> (Seq<FusedOp>, int)
    decreases ins.len() - j,
{
    if 0 <= j < ins.len() {
        match ins[j] {
            OptView::Fused(next, l2) => {
                if l2 == len {
                    merge_from(ins, j + 1, acc + shift_ops(next, reg_top(acc) + 1int), len)
                } else {
                    (acc, j)
                }
            },
            OptView::Raw(op) => match op {
                OpCode::Add(..) | OpCode::Mul(..) => merge_from(ins, j + 1, acc, len),
                _ => (acc, j),
            },
        }
    } else {
        (acc, j)
    }
}

pub proof fn lemma_merge_from_end(ins: Seq<OptView>, j: int, acc: Seq<FusedOp>, len: u32)
    requires
        0 <= j,
    ensures
        j <= merge_from(ins, j, acc, len).1,
        j <= ins.len() ==> merge_from(ins, j, acc, len).1 <= ins.len(),
    decreases ins.len() - j,
{
    if 0 <= j < ins.len() {
        match ins[j] {
            OptView::Fused(next, l2) => {
                if l2 == len {
                    lemma_merge_from_end(ins, j + 1, acc + shift_ops(next, reg_top(acc) + 1int), len);
                }
            },
            OptView::Raw(op) => match op {
                OpCode::Add(..) | OpCode::Mul(..) => lemma_merge_from_end(ins, j + 1, acc, len),
                _ => {},
            },
        }
    }
}

/// The raw instructions among `ins[a..b]`, in order.
pub open spec fn raws_between(ins: Seq<OptView>, a: int, b: int) -> Seq<OptView>
    decreases b - a,
{
    if a >= b {
        Seq::empty()
    } else {
        raws_between(ins, a, b - 1) + (if ins[b - 1] is Raw { seq![ins[b - 1]] } else { Seq::empty() })
    }
}

/// Only raw instructions are collected.
pub proof fn lemma_raws_between_raw(ins: Seq<OptView>, a: int, b: int)
    ensures
        forall|k: int| 0 <= k < raws_between(ins, a, b).len() ==> #[trigger] raws_between(ins, a, b)[k] is Raw,
    decreases b - a,
{
    if a < b {
        lemma_raws_between_raw(ins, a, b - 1);
        let r = raws_between(ins, a, b);
        assert forall|k: int| 0 <= k < r.len() implies #[trigger] r[k] is Raw by {
            if k < raws_between(ins, a, b - 1).len() {
                assert(r[k] == raws_between(ins, a, b - 1)[k]);
            }
        }
    }
}

/// Stage 2 from position `i` on: each fused loop absorbs the fused loops of
/// the same length that follow it (see `merge_from`), and the scalar
/// instructions it passed over follow the merged loop, in order; other
/// instructions stay.
pub open spec fn fuse_kernels_from(ins: Seq<OptView>, i: int) -> Seq<OptView>
    decreases ins.len() - i,
{
    if i < 0 || i >= ins.len() {
        Seq::empty()
    } else {
        match ins[i] {
            OptView::Fused(ops, len) => {
                let (combined, j) = merge_from(ins, i + 1, ops, len);
                proof {
                    lemma_merge_from_end(ins, i + 1, ops, len);
                }
                seq![OptView::Fused(combined, len)] + raws_between(ins, i + 1, j) + fuse_kernels_from(ins, j)
            },
            OptView::Raw(op) => seq![OptView::Raw(op)] + fuse_kernels_from(ins, i + 1),
        }
    }
}

/// The register span of an instruction: its largest register plus one for
/// a fused loop, 0 for a raw instruction.
pub open spec fn span(x: OptView) -> nat {
    match x {
        OptView::Fused(ops, _) => (max_reg_all(ops) + 1) as nat,
        OptView::Raw(_) => 0,
    }
}

/// The largest register of a sequence of operations, 0 for none.
pub open spec fn max_reg_all(ops: Seq<FusedOp>) -> nat
    decreases ops.len(),
{
    if ops.len() == 0 {
        0
    } else {
        vstd::math::max(max_reg_all(ops.drop_last()) as int, op_max_reg(ops.last()) as int) as nat
    }
}

/// The total register span of `ins[a..b]`.
pub open spec fn span_sum(ins: Seq<OptView>, a: int, b: int) -> nat
    decreases b - a,
{
    if a >= b {
        0
    } else {
        span_sum(ins, a, b - 1) + span(ins[b - 1])
    }
}

pub proof fn lemma_reg_top_le_max(ops: Seq<FusedOp>)
    ensures
        reg_top(ops) <= max_reg_all(ops),
    decreases ops.len(),
{
    if ops.len() > 0 {
        lemma_reg_top_le_max(ops.drop_last());
    }
}

pub proof fn lemma_max_reg_all_bounds(ops: Seq<FusedOp>)
    ensures
        regs_below(ops, max_reg_all(ops) as int),
    decreases ops.len(),
{
    if ops.len() > 0 {
        lemma_max_reg_all_bounds(ops.drop_last());
        assert forall|k: int| 0 <= k < ops.len() implies #[trigger] op_max_reg(ops[k]) <= max_reg_all(ops) by {
            if k < ops.len() - 1 {
                assert(ops.drop_last()[k] == ops[k]);
            }
        }
    }
}

/// A sequence whose registers are all at most `b` has its largest register
/// at most `b`.
pub proof fn lemma_max_reg_all_le(ops: Seq<FusedOp>, b: int)
    requires
        0 <= b,
        regs_below(ops, b),
    ensures
        max_reg_all(ops) <= b,
    decreases ops.len(),
{
    if ops.len() > 0 {
        assert(regs_below(ops.drop_last(), b)) by {
            assert forall|k: int| 0 <= k < ops.drop_last().len() implies #[trigger] op_max_reg(ops.drop_last()[k]) <= b by {
                assert(ops.drop_last()[k] == ops[k]);
            }
        }
        lemma_max_reg_all_le(ops.drop_last(), b);
        assert(op_max_reg(ops[ops.len() - 1]) <= b);
    }
}

pub proof fn lemma_span_sum_split(ins: Seq<OptView>, a: int, b: int, c: int)
    requires
        a <= b <= c,
    ensures
        span_sum(ins, a, c) == span_sum(ins, a, b) + span_sum(ins, b, c),
    decreases c - b,
{
    if b < c {
        lemma_span_sum_split(ins, a, b, c - 1);
    }
}

/// The highest register of `op`.
fn op_reg_exec(op: &FusedOp) -> (r: Option<usize>)
    ensures
        r == op_reg(*op),
{
    match op {
        FusedOp::Load(_, r) | FusedOp::LoadConst(_, r) | FusedOp::Add(_, _, r) | FusedOp::Mul(_, _, r) | FusedOp::Store(
            r,
            _,
        ) => Some(*r),
        FusedOp::AdamWStep { w, g, m, v } => Some(*w.max(g).max(m).max(v)),
        _ => None,
    }
}

/// The highest register counted by `op_reg`, 0 for none.
fn reg_top_exec(ops: &Vec<FusedOp>) -> (r: usize)
    ensures
        r == reg_top(ops@),
{
    let mut top: usize = 0;
    let mut k: usize = 0;
    while k < ops.len()
        invariant
            k <= ops.len(),
            top == reg_top(ops@.take(k as int)),
        decreases ops.len() - k,
    {
        assert(ops@.take(k + 1).drop_last() =~= ops@.take(k as int));
        assert(ops@.take(k + 1).last() == ops@[k as int]);
        match op_reg_exec(&ops[k]) {
            Some(r) => {
                if r > top {
                    top = r;
                }
            },
            None => {},
        }
        k += 1;
    }
    assert(ops@.take(k as int) =~= ops@);
    top
}

/// `op` with `off` added to each of its registers.
fn shift_exec(op: FusedOp, off: usize) -> (r: FusedOp)
    requires
        op_max_reg(op) + off <= usize::MAX,
    ensures
        r == shift_op(op, off as int),
        op !is Copy ==> op_max_reg(r) == op_max_reg(op) + off,
        op is Copy ==> op_max_reg(r) == 0,
{
    match op {
        FusedOp::Load(a, r) => FusedOp::Load(a, r + off),
        FusedOp::LoadConst(v, r) => FusedOp::LoadConst(v, r + off),
        FusedOp::Store(r, a) => FusedOp::Store(r + off, a),
        FusedOp::Add(l, r, d) => FusedOp::Add(l + off, r + off, d + off),
        FusedOp::Mul(l, r, d) => FusedOp::Mul(l + off, r + off, d + off),
        FusedOp::AdamWStep { w, g, m, v } => FusedOp::AdamWStep { w: w + off, g: g + off, m: m + off, v: v + off },
        FusedOp::Copy(a, b) => FusedOp::Copy(a, b),
    }
}

pub proof fn lemma_shift_max(op: FusedOp, off: int)
    requires
        0 <= off,
        op_max_reg(op) + off <= usize::MAX,
    ensures
        op_max_reg(shift_op(op, off)) <= op_max_reg(op) + off,
{
}

/// The largest register of `acc` followed by `next` shifted by `off`.
pub proof fn lemma_max_reg_concat_shift(acc: Seq<FusedOp>, next: Seq<FusedOp>, off: int)
    requires
        0 <= off,
        max_reg_all(next) + off <= usize::MAX,
    ensures
        max_reg_all(acc + shift_ops(next, off)) <= vstd::math::max(max_reg_all(acc) as int, max_reg_all(next) + off),
{
    let all = acc + shift_ops(next, off);
    let b = vstd::math::max(max_reg_all(acc) as int, max_reg_all(next) + off);
    lemma_max_reg_all_bounds(acc);
    lemma_max_reg_all_bounds(next);
    assert forall|k: int| 0 <= k < all.len() implies #[trigger] op_max_reg(all[k]) <= b by {
        if k < acc.len() {
            assert(all[k] == acc[k]);
        } else {
            assert(all[k] == shift_op(next[k - acc.len()], off));
            assert(op_max_reg(next[k - acc.len()]) <= max_reg_all(next));
            lemma_shift_max(next[k - acc.len()], off);
        }
    }
    lemma_max_reg_all_le(all, b);
}

/// Copies a sequence of fused operations.
fn copy_ops(ops: &Vec<FusedOp>) -> (r: Vec<FusedOp>)
    ensures
        r@ == ops@,
{
    let mut r: Vec<FusedOp> = Vec::new();
    let mut k: usize = 0;
    while k < ops.len()
        invariant
            k <= ops.len(),
            r@ == ops@.take(k as int),
        decreases ops.len() - k,
    {
        r.push(ops[k]);
        k += 1;
        assert(r@ =~= ops@.take(k as int));
    }
    assert(ops@.take(k as int) =~= ops@);
    r
}

pub struct KernelFuser;

impl KernelFuser {
    /// Stage 2: Global / Inter-Kernel Fusion
    pub fn fuse_kernels(instructions: Vec<OptimizedInstruction>) -> (r: Vec<OptimizedInstruction>)
        requires
            span_sum(opt_view(instructions@), 0, instructions@.len() as int) <= usize::MAX,
        ensures
            opt_view(r@) == fuse_kernels_from(opt_view(instructions@), 0),
    {
        let ghost ins = opt_view(instructions@);
        let n = instructions.len();
        let mut final_instrs: Vec<OptimizedInstruction> = Vec::new();
        let mut i: usize = 0;
        while i < n
            invariant
                n == instructions@.len(),
                ins == opt_view(instructions@),
                i <= n,
                span_sum(ins, 0, n as int) <= usize::MAX,
                opt_view(final_instrs@) + fuse_kernels_from(ins, i as int) == fuse_kernels_from(ins, 0),
            decreases n - i,
        {
            let current = &instructions[i];
            assert(ins[i as int] == current@);
            match current {
                OptimizedInstruction::FusedLoop { ops, len } => {
                    let ghost ops0 = ops@;
                    let mut combined = copy_ops(ops);
                    let group_len = *len;
                    let mut j: usize = i + 1;
                    let mut go = true;
                    let mut skipped: Vec<OptimizedInstruction> = Vec::new();
                    assert(opt_view(skipped@) =~= raws_between(ins, i + 1, j as int));
                    proof {
                        lemma_span_sum_split(ins, 0, i as int, n as int);
                        lemma_span_sum_split(ins, i as int, i + 1, n as int);
                        assert(span_sum(ins, i as int, i as int) == 0);
                        assert(span_sum(ins, i as int, i + 1) == span_sum(ins, i as int, i as int) + span(ins[i as int]));
                        assert(span(ins[i as int]) == max_reg_all(ops0) + 1);
                    }
                    while go && j < n
                        invariant
                            n == instructions@.len(),
                            ins == opt_view(instructions@),
                            i < j <= n,
                            ins[i as int] == OptView::Fused(ops0, group_len),
                            span_sum(ins, 0, n as int) <= usize::MAX,
                            span_sum(ins, i as int, n as int) <= span_sum(ins, 0, n as int),
                            go ==> merge_from(ins, i + 1, ops0, group_len) == merge_from(ins, j as int, combined@, group_len),
                            !go ==> merge_from(ins, i + 1, ops0, group_len) == (combined@, j as int),
                            max_reg_all(combined@) + 1 <= span_sum(ins, i as int, j as int),
                            opt_view(skipped@) == raws_between(ins, i + 1, j as int),
                        decreases 2 * (n - j) + (if go { 1int } else { 0int }),
                    {
                        proof {
                            lemma_span_sum_split(ins, i as int, j as int, n as int);
                            lemma_span_sum_split(ins, i as int, j as int, j + 1);
                            lemma_span_sum_split(ins, j as int, j + 1, n as int);
                        }
                        let next_instr = &instructions[j];
                        assert(ins[j as int] == next_instr@);
                        match next_instr {
                            OptimizedInstruction::FusedLoop { ops: next_ops, len: next_len } => {
                                if *next_len == group_len {
                                    let ghost acc0 = combined@;
                                    let ghost next0 = next_ops@;
                                    proof {
                                        lemma_reg_top_le_max(acc0);
                                        lemma_max_reg_all_bounds(next0);
                                        assert(span(ins[j as int]) == max_reg_all(next0) + 1);
                                    }
                                    let max_reg = reg_top_exec(&combined) + 1;
                                    let mut k: usize = 0;
                                    while k < next_ops.len()
                                        invariant
                                            k <= next_ops.len(),
                                            next0 == next_ops@,
                                            max_reg == reg_top(acc0) + 1,
                                            regs_below(next0, max_reg_all(next0) as int),
                                            max_reg_all(next0) + max_reg <= usize::MAX,
                                            combined@ == acc0 + shift_ops(next0.take(k as int), max_reg as int),
                                        decreases next_ops.len() - k,
                                    {
                                        assert(op_max_reg(next0[k as int]) <= max_reg_all(next0));
                                        combined.push(shift_exec(next_ops[k], max_reg));
                                        k += 1;
                                        assert(combined@ =~= acc0 + shift_ops(next0.take(k as int), max_reg as int));
                                    }
                                    assert(next0.take(k as int) =~= next0);
                                    proof {
                                        lemma_max_reg_concat_shift(acc0, next0, max_reg as int);
                                    }
                                    assert(raws_between(ins, i + 1, j + 1) =~= raws_between(ins, i + 1, j as int));
                                    j += 1;
                                } else {
                                    go = false;
                                }
                            },
                            OptimizedInstruction::Raw(op) => {
                                match op {
                                    OpCode::Add(..) | OpCode::Mul(..) => {
                                        let ghost sk0 = opt_view(skipped@);
                                        skipped.push(OptimizedInstruction::Raw(*op));
                                        assert(opt_view(skipped@) =~= sk0.push(OptView::Raw(*op)));
                                        assert(raws_between(ins, i + 1, j + 1) =~= sk0 + seq![ins[j as int]]);
                                        j += 1;
                                    },
                                    _ => {
                                        go = false;
                                    },
                                }
                            },
                        }
                    }
                    proof {
                        lemma_merge_from_end(ins, i + 1, ops0, group_len);
                    }
                    let ghost before = opt_view(final_instrs@);
                    final_instrs.push(OptimizedInstruction::FusedLoop { ops: combined, len: group_len });
                    assert(opt_view(final_instrs@) =~= before.push(OptView::Fused(merge_from(ins, i + 1, ops0, group_len).0, group_len)));
                    let ghost mid = opt_view(final_instrs@);
                    let ghost sk = opt_view(skipped@);
                    proof {
                        lemma_raws_between_raw(ins, i + 1, j as int);
                    }
                    let mut t: usize = 0;
                    while t < skipped.len()
                        invariant
                            t <= skipped@.len(),
                            sk == opt_view(skipped@),
                            forall|k: int| 0 <= k < sk.len() ==> #[trigger] sk[k] is Raw,
                            opt_view(final_instrs@) == mid + sk.take(t as int),
                        decreases skipped.len() - t,
                    {
                        assert(sk[t as int] == skipped@[t as int]@);
                        match &skipped[t] {
                            OptimizedInstruction::Raw(op) => {
                                let ghost f0 = opt_view(final_instrs@);
                                final_instrs.push(OptimizedInstruction::Raw(*op));
                                assert(opt_view(final_instrs@) =~= f0.push(OptView::Raw(*op)));
                                assert(sk[t as int] == OptView::Raw(*op));
                            },
                            OptimizedInstruction::FusedLoop { .. } => {
                                assert(sk[t as int] is Raw);
                            },
                        }
                        assert(sk.take(t + 1) =~= sk.take(t as int).push(sk[t as int]));
                        t += 1;
                        assert(opt_view(final_instrs@) =~= mid + sk.take(t as int));
                    }
                    assert(sk.take(t as int) =~= sk);
                    i = j;
                },
                OptimizedInstruction::Raw(op) => {
                    let ghost before = opt_view(final_instrs@);
                    final_instrs.push(OptimizedInstruction::Raw(*op));
                    assert(opt_view(final_instrs@) =~= before.push(OptView::Raw(*op)));
                    i += 1;
                },
            }
        }
        assert(opt_view(final_instrs@) + fuse_kernels_from(ins, i as int) =~= opt_view(final_instrs@));
        final_instrs
    }
}

// ---------------------------------------------------------------------------
// Stage 3: memory promotion
// ---------------------------------------------------------------------------

/// The state of memory promotion over a loop: the operations kept, the
/// register that holds each scratchpad offset, and the register each
/// dropped load's register stands for.
pub struct PromoteState {
    pub out: Seq<FusedOp>,
    pub addr: Map<u32, usize>,
    pub ren: Map<usize, usize>,
}

/// `op` updates register `r` in place (the weight and moments of an AdamW
/// step).
pub open spec fn in_place_at(op: FusedOp, r: usize) -> bool {
    match op {
        FusedOp::AdamWStep { w, g, m, v } => w == r || m == r || v == r,
        _ => false,
    }
}

/// Some operation of `ops` after position `k` updates register `r` in
/// place.
pub open spec fn updated_after(ops: Seq<FusedOp>, k: int, r: usize) -> bool {
    exists|j: int| k < j < ops.len() && #[trigger] in_place_at(ops[j], r)
}

/// The register `r` stands for after the dropped loads.
pub open spec fn renamed(ren: Map<usize, usize>, r: usize) -> usize {
    if ren.contains_key(r) {
        ren[r]
    } else {
        r
    }
}

/// Operation `k` of memory promotion in the loop `all`.  A load of an
/// offset that a register already holds is dropped and its register stands
/// for the holder from then on; reads go to the registers they stand for; a
/// load or a store makes its register the holder of its offset; a copy
/// forgets its destination offset.  A register that a later operation
/// updates in place (the weight and moments of an AdamW step) holds no
/// offset and stands for no other: its value is about to change.
pub open spec fn promote_op(all: Seq<FusedOp>, k: int, st: PromoteState, op: FusedOp) -> PromoteState {
    match op {
        FusedOp::Load(a, r) => {
            if st.addr.contains_key(a) && !updated_after(all, k, r) {
                PromoteState { out: st.out, addr: st.addr, ren: st.ren.insert(r, st.addr[a]) }
            } else {
                PromoteState {
                    out: st.out.push(op),
                    addr: if updated_after(all, k, r) { st.addr } else { st.addr.insert(a, r) },
                    ren: st.ren,
                }
            }
        },
        FusedOp::Store(r, a) => {
            let x = renamed(st.ren, r);
            PromoteState {
                out: st.out.push(FusedOp::Store(x, a)),
                addr: if updated_after(all, k, x) { st.addr.remove(a) } else { st.addr.insert(a, x) },
                ren: st.ren,
            }
        },
        FusedOp::Add(l, r, d) => PromoteState {
            out: st.out.push(FusedOp::Add(renamed(st.ren, l), renamed(st.ren, r), d)),
            addr: st.addr,
            ren: st.ren,
        },
        FusedOp::Mul(l, r, d) => PromoteState {
            out: st.out.push(FusedOp::Mul(renamed(st.ren, l), renamed(st.ren, r), d)),
            addr: st.addr,
            ren: st.ren,
        },
        FusedOp::LoadConst(v, r) => PromoteState { out: st.out.push(op), addr: st.addr, ren: st.ren },
        FusedOp::AdamWStep { w, g, m, v } => PromoteState {
            out: st.out.push(
                FusedOp::AdamWStep {
                    w: renamed(st.ren, w),
                    g: renamed(st.ren, g),
                    m: renamed(st.ren, m),
                    v: renamed(st.ren, v),
                },
            ),
            addr: st.addr,
            ren: st.ren,
        },
        FusedOp::Copy(src, dst) => PromoteState { out: st.out.push(op), addr: st.addr.remove(dst), ren: st.ren },
    }
}

/// Memory promotion over the first `k` operations of `all`.
pub open spec fn promote_prefix(all: Seq<FusedOp>, k: nat) -> PromoteState
    decreases k,
{
    if k == 0 || k > all.len() {
        PromoteState { out: Seq::empty(), addr: Map::empty(), ren: Map::empty() }
    } else {
        promote_op(all, k - 1, promote_prefix(all, (k - 1) as nat), all[k - 1])
    }
}

/// A loop after memory promotion.
pub open spec fn promote(ops: Seq<FusedOp>) -> Seq<FusedOp> {
    promote_prefix(ops, ops.len()).out
}

/// An instruction after memory promotion.
pub open spec fn promote_view(x: OptView) -> OptView {
    match x {
        OptView::Fused(ops, len) => OptView::Fused(promote(ops), len),
        OptView::Raw(op) => OptView::Raw(op),
    }
}

/// A program after memory promotion.
pub open spec fn promote_all(ins: Seq<OptView>) -> Seq<OptView> {
    ins.map_values(|x: OptView| promote_view(x))
}

pub struct SuperFuser;

impl SuperFuser {
    /// Stage 3: Tertiary Optimization (Memory Promotion & Redundancy Elimination)
    pub fn optimize(instructions: &mut Vec<OptimizedInstruction>)
        ensures
            opt_view(final(instructions)@) == promote_all(opt_view(old(instructions)@)),
    {
        let ghost orig = opt_view(instructions@);
        let mut pending: Vec<OptimizedInstruction> = Vec::new();
        std::mem::swap(instructions, &mut pending);
        let mut reversed: Vec<OptimizedInstruction> = Vec::new();
        while pending.len() > 0
            invariant
                opt_view(pending@) + opt_view(reversed@).reverse() == orig,
            decreases pending.len(),
        {
            let ghost p0 = opt_view(pending@);
            let ghost r0 = opt_view(reversed@);
            let item = pending.pop().unwrap();
            reversed.push(item);
            assert(opt_view(pending@) =~= p0.drop_last());
            assert(opt_view(reversed@) =~= r0.push(p0.last()));
            assert(opt_view(reversed@).reverse() =~= seq![p0.last()] + r0.reverse());
            assert(p0 =~= p0.drop_last() + seq![p0.last()]);
        }
        assert(opt_view(reversed@).reverse() == orig);
        let mut out: Vec<OptimizedInstruction> = Vec::new();
        while reversed.len() > 0
            invariant
                promote_all(opt_view(reversed@).reverse()) + Seq::<OptView>::empty() == promote_all(opt_view(reversed@).reverse()),
                opt_view(out@) + promote_all(opt_view(reversed@).reverse()) == promote_all(orig),
            decreases reversed.len(),
        {
            let ghost o0 = opt_view(out@);
            let ghost r0 = opt_view(reversed@);
            let item = reversed.pop().unwrap();
            let done = match item {
                OptimizedInstruction::FusedLoop { mut ops, len } => {
                    Self::promote_memory_to_regs(&mut ops);
                    OptimizedInstruction::FusedLoop { ops, len }
                },
                OptimizedInstruction::Raw(op) => OptimizedInstruction::Raw(op),
            };
            assert(done@ == promote_view(r0.last()));
            out.push(done);
            assert(opt_view(out@) =~= o0.push(promote_view(r0.last())));
            assert(opt_view(reversed@) =~= r0.drop_last());
            assert(r0.reverse() =~= seq![r0.last()] + r0.drop_last().reverse());
            assert(promote_all(r0.reverse()) =~= seq![promote_view(r0.last())] + promote_all(r0.drop_last().reverse()));
        }
        assert(opt_view(reversed@).reverse() =~= Seq::<OptView>::empty());
        assert(opt_view(out@) =~= promote_all(orig));
        *instructions = out;
    }

    /// Promotes scratchpad offsets to registers (see `promote_op`): drops
    /// the loads of offsets a register already holds.
    fn promote_memory_to_regs(ops: &mut Vec<FusedOp>)
        ensures
            final(ops)@ == promote(old(ops)@),
    {
        let mut addr_to_reg: HashMap<u32, usize> = HashMap::new();
        let mut ren: HashMap<usize, usize> = HashMap::new();
        let mut pending: Vec<FusedOp> = Vec::new();
        std::mem::swap(ops, &mut pending);
        let ghost all = pending@;
        let mut final_ops: Vec<FusedOp> = Vec::new();
        let mut i: usize = 0;
        assert(promote_prefix(all, 0) =~= (PromoteState { out: final_ops@, addr: addr_to_reg@, ren: ren@ }));
        while i < pending.len()
            invariant
                all == pending@,
                i <= pending.len(),
                promote_prefix(all, i as nat) == (PromoteState { out: final_ops@, addr: addr_to_reg@, ren: ren@ }),
            decreases pending.len() - i,
        {
            let op = pending[i];
            let ghost st = promote_prefix(all, i as nat);
            match op {
                FusedOp::Load(addr, reg) => {
                    let in_place = updated_after_exec(&pending, i, reg);
                    match addr_to_reg.get(&addr) {
                        Some(prev) => {
                            if in_place {
                                final_ops.push(op);
                            } else {
                                ren.insert(reg, *prev);
                            }
                        },
                        None => {
                            if !in_place {
                                addr_to_reg.insert(addr, reg);
                            }
                            final_ops.push(op);
                        },
                    }
                },
                FusedOp::Store(reg, addr) => {
                    let x = renamed_exec(&ren, reg);
                    if updated_after_exec(&pending, i, x) {
                        addr_to_reg.remove(&addr);
                    } else {
                        addr_to_reg.insert(addr, x);
                    }
                    final_ops.push(FusedOp::Store(x, addr));
                },
                FusedOp::Add(l, r, d) => {
                    let nl = renamed_exec(&ren, l);
                    let nr = renamed_exec(&ren, r);
                    final_ops.push(FusedOp::Add(nl, nr, d));
                },
                FusedOp::Mul(l, r, d) => {
                    let nl = renamed_exec(&ren, l);
                    let nr = renamed_exec(&ren, r);
                    final_ops.push(FusedOp::Mul(nl, nr, d));
                },
                FusedOp::LoadConst(..) => final_ops.push(op),
                FusedOp::AdamWStep { w, g, m, v } => {
                    let nw = renamed_exec(&ren, w);
                    let ng = renamed_exec(&ren, g);
                    let nm = renamed_exec(&ren, m);
                    let nv = renamed_exec(&ren, v);
                    final_ops.push(FusedOp::AdamWStep { w: nw, g: ng, m: nm, v: nv });
                },
                FusedOp::Copy(_, dst) => {
                    addr_to_reg.remove(&dst);
                    final_ops.push(op);
                },
            }
            assert(all[i as int] == op);
            i += 1;
            assert(promote_prefix(all, i as nat) =~~= (PromoteState { out: final_ops@, addr: addr_to_reg@, ren: ren@ }));
        }
        *ops = final_ops;
    }
}

/// Whether some operation of `ops` after position `k` updates register `r`
/// in place.
fn updated_after_exec(ops: &Vec<FusedOp>, k: usize, r: usize) -> (b: bool)
    requires
        k < ops.len(),
    ensures
        b == updated_after(ops@, k as int, r),
{
    let mut j: usize = k + 1;
    while j < ops.len()
        invariant
            k < j <= ops@.len(),
            forall|u: int| k < u < j ==> !#[trigger] in_place_at(ops@[u], r),
        decreases ops.len() - j,
    {
        let hit = match ops[j] {
            FusedOp::AdamWStep { w, g, m, v } => w == r || m == r || v == r,
            _ => false,
        };
        if hit {
            assert(in_place_at(ops@[j as int], r));
            return true;
        }
        j += 1;
    }
    false
}

/// The register `r` stands for.
fn renamed_exec(ren: &HashMap<usize, usize>, r: usize) -> (x: usize)
    ensures
        x == renamed(ren@, r),
{
    match ren.get(&r) {
        Some(x) => *x,
        None => r,
    }
}

// ---------------------------------------------------------------------------
// Memory planning
// ---------------------------------------------------------------------------

/// The end of the scratchpad range an instruction reads or writes: one
/// past the highest element of any of its scratchpad operands (the i8 and
/// i32 scratchpads are sized like the i16 one).
pub open spec fn plan_extent(op: OpCode) -> int {
    match op {
        OpCode::LoadVar(_, dst) => dst + 1,
        OpCode::Store(src, _) => src + 1,
        OpCode::Add(l, r, d) | OpCode::Sub(l, r, d) | OpCode::Mul(l, r, d) => max3(l, r, d) + 1,
        OpCode::AddVec(l, r, d, len) | OpCode::MulVec(l, r, d, len) | OpCode::GradAdd(l, r, d, len)
        | OpCode::GradMul(l, r, d, len) | OpCode::AddVec8(l, r, d, len) | OpCode::MulVec8(l, r, d, len) => max3(l, r, d) + len,
        OpCode::LoadVarVec(_, dst, len) | OpCode::LoadVarVec8(_, dst, len) => dst + len,
        OpCode::StoreVec(src, _, len) | OpCode::StoreVec8(src, _, len) => src + len,
        OpCode::AdamWStep(w, g, m, v, len) | OpCode::AIOStep(w, g, m, v, len, _)
        | OpCode::AIOStepBlock(w, g, m, v, _, len) => vstd::math::max(max3(w, g, m), v as int) + len,
        OpCode::BlockScale(src, _, len) => src + len,
        OpCode::FillVec(_, dst, len) => dst + len,
        OpCode::AddScalarVec(l, _, d, len) | OpCode::MulScalarVec(l, _, d, len) => vstd::math::max(l as int, d as int) + len,
    }
}

/// The largest of three offsets.
pub open spec fn max3(a: u32, b: u32, c: u32) -> int {
    vstd::math::max(vstd::math::max(a as int, b as int), c as int)
}

/// Every extent fits in `usize`, the type of a memory size (always so
/// where `usize` has 64 bits).
pub open spec fn extents_fit(ops: Seq<OpCode>) -> bool {
    forall|k: int| 0 <= k < ops.len() ==> #[trigger] plan_extent(ops[k]) <= usize::MAX
}

/// The largest extent of the program, 0 for none.
pub open spec fn planned_size(ops: Seq<OpCode>) -> int
    decreases ops.len(),
{
    if ops.len() == 0 {
        0
    } else {
        vstd::math::max(planned_size(ops.drop_last()), plan_extent(ops.last()))
    }
}

pub struct MemoryPlanner;

impl MemoryPlanner {
    /// Sets the graph's memory size to the largest extent of its
    /// instructions.
    pub fn plan(graph: &mut XimGraph)
        requires
            extents_fit(old(graph).ops()),
        ensures
            final(graph).memory_size == planned_size(old(graph).ops()),
            final(graph).instructions@ == old(graph).instructions@,
            final(graph).variable_map@ == old(graph).variable_map@,
    {
        let ghost ops = graph.ops();
        let mut max_off: usize = 0;
        let mut i: usize = 0;
        while i < graph.instructions.len()
            invariant
                ops == graph.ops(),
                ops.len() == graph.instructions.len(),
                extents_fit(ops),
                i <= ops.len(),
                max_off == planned_size(ops.take(i as int)),
            decreases graph.instructions.len() - i,
        {
            let op = graph.instructions[i].op;
            assert(ops[i as int] == op);
            assert(plan_extent(ops[i as int]) <= usize::MAX);
            let end = Self::extent(op);
            if end > max_off {
                max_off = end;
            }
            assert(ops.take(i + 1).drop_last() =~= ops.take(i as int));
            i += 1;
        }
        assert(ops.take(i as int) =~= ops);
        graph.memory_size = max_off;
    }

    /// The end of the scratchpad range `op` covers, as a memory size.
    fn extent(op: OpCode) -> (r: usize)
        requires
            plan_extent(op) <= usize::MAX,
        ensures
            r == plan_extent(op),
    {
        Self::extent64(op) as usize
    }

    /// The end of the scratchpad range `op` covers, in u64.
    fn extent64(op: OpCode) -> (r: u64)
        ensures
            r == plan_extent(op),
    {
        match op {
            OpCode::LoadVar(_, dst) => dst as u64 + 1,
            OpCode::Store(src, _) => src as u64 + 1,
            OpCode::Add(l, r, d) | OpCode::Sub(l, r, d) | OpCode::Mul(l, r, d) => l.max(r).max(d) as u64 + 1,
            OpCode::AddVec(l, r, d, len) | OpCode::MulVec(l, r, d, len) | OpCode::GradAdd(l, r, d, len)
            | OpCode::GradMul(l, r, d, len) | OpCode::AddVec8(l, r, d, len) | OpCode::MulVec8(l, r, d, len) => l.max(
                r,
            ).max(d) as u64 + len as u64,
            OpCode::LoadVarVec(_, dst, len) | OpCode::LoadVarVec8(_, dst, len) => dst as u64 + len as u64,
            OpCode::StoreVec(src, _, len) | OpCode::StoreVec8(src, _, len) => src as u64 + len as u64,
            OpCode::AdamWStep(w, g, m, v, len) | OpCode::AIOStep(w, g, m, v, len, _)
            | OpCode::AIOStepBlock(w, g, m, v, _, len) => w.max(g).max(m).max(v) as u64 + len as u64,
            OpCode::BlockScale(src, _, len) => src as u64 + len as u64,
            OpCode::FillVec(_, dst, len) => dst as u64 + len as u64,
            OpCode::AddScalarVec(l, _, d, len) | OpCode::MulScalarVec(l, _, d, len) => l.max(d) as u64 + len as u64,
        }
    }

    /// Whether every extent of the graph fits in `usize`, which `plan` needs.
    pub fn extents_fit(graph: &XimGraph) -> (b: bool)
        ensures
            b == extents_fit(graph.ops()),
    {
        let ghost ops = graph.ops();
        let mut i: usize = 0;
        while i < graph.instructions.len()
            invariant
                ops == graph.ops(),
                ops.len() == graph.instructions.len(),
                i <= ops.len(),
                forall|k: int| 0 <= k < i ==> #[trigger] plan_extent(ops[k]) <= usize::MAX,
            decreases graph.instructions.len() - i,
        {
            let op = graph.instructions[i].op;
            assert(ops[i as int] == op);
            if !Self::extent_fits(op) {
                return false;
            }
            i += 1;
        }
        true
    }

    fn extent_fits(op: OpCode) -> (b: bool)
        ensures
            b == (plan_extent(op) <= usize::MAX),
    {
        let e = Self::extent64(op);
        e <= usize::MAX as u64
    }
}

// ---------------------------------------------------------------------------
// Register discipline of fused loops
// ---------------------------------------------------------------------------

/// `op` writes register `r`.
pub open spec fn op_defines(op: FusedOp, r: usize) -> bool {
    match op {
        FusedOp::Load(_, x) => x == r,
        FusedOp::LoadConst(_, x) => x == r,
        FusedOp::Add(_, _, x) => x == r,
        FusedOp::Mul(_, _, x) => x == r,
        _ => false,
    }
}

/// `op` reads register `r`.
pub open spec fn op_uses(op: FusedOp, r: usize) -> bool {
    match op {
        FusedOp::Add(a, b, _) => a == r || b == r,
        FusedOp::Mul(a, b, _) => a == r || b == r,
        FusedOp::Store(x, _) => x == r,
        FusedOp::AdamWStep { w, g, m, v } => w == r || g == r || m == r || v == r,
        _ => false,
    }
}

/// Some operation of `ops` writes register `r`.
pub open spec fn defined(ops: Seq<FusedOp>, r: usize) -> bool {
    exists|j: int| 0 <= j < ops.len() && #[trigger] op_defines(ops[j], r)
}

/// Every register an operation reads is written by an earlier operation.
pub open spec fn regs_wf(ops: Seq<FusedOp>) -> bool {
    forall|k: int, r: usize| 0 <= k < ops.len() && #[trigger] op_uses(ops[k], r) ==> defined(ops.take(k), r)
}

/// No register is written twice.
pub open spec fn regs_ssa(ops: Seq<FusedOp>) -> bool {
    forall|j: int, k: int, r: usize|
        0 <= j < k < ops.len() && #[trigger] op_defines(ops[j], r) ==> !#[trigger] op_defines(ops[k], r)
}

/// The invariant of the group compiler: its loop is well formed, every
/// register it maps an offset to is written, every written register is
/// below the next free one.
pub open spec fn group_inv(st: GroupState) -> bool {
    &&& regs_wf(st.ops)
    &&& regs_ssa(st.ops)
    &&& forall|off: u32| #[trigger] st.regs.contains_key(off) ==> defined(st.ops, st.regs[off])
    &&& forall|j: int, r: usize| 0 <= j < st.ops.len() && #[trigger] op_defines(st.ops[j], r) ==> r < st.next
    &&& st.next <= usize::MAX
}

pub proof fn lemma_defined_push(ops: Seq<FusedOp>, x: FusedOp, r: usize)
    ensures
        defined(ops, r) ==> defined(ops.push(x), r),
        op_defines(x, r) ==> defined(ops.push(x), r),
        defined(ops.push(x), r) ==> defined(ops, r) || op_defines(x, r),
{
    if defined(ops, r) {
        let j = choose|j: int| 0 <= j < ops.len() && #[trigger] op_defines(ops[j], r);
        assert(ops.push(x)[j] == ops[j]);
    }
    if op_defines(x, r) {
        assert(ops.push(x)[ops.len() as int] == x);
    }
    if defined(ops.push(x), r) {
        let j = choose|j: int| 0 <= j < ops.push(x).len() && #[trigger] op_defines(ops.push(x)[j], r);
        if j < ops.len() {
            assert(ops.push(x)[j] == ops[j]);
        }
    }
}

/// Appending an operation whose reads are written, and whose write (if any)
/// is a fresh register below `next`, keeps the group invariant.
pub proof fn lemma_push_op(st: GroupState, x: FusedOp, new_next: nat)
    requires
        group_inv(st),
        st.next <= new_next <= usize::MAX,
        forall|r: usize| #[trigger] op_uses(x, r) ==> defined(st.ops, r),
        forall|r: usize| #[trigger] op_defines(x, r) ==> st.next <= r < new_next,
    ensures
        group_inv(GroupState { ops: st.ops.push(x), regs: st.regs, next: new_next }),
{
    let ops2 = st.ops.push(x);
    assert forall|k: int, r: usize| 0 <= k < ops2.len() && #[trigger] op_uses(ops2[k], r) implies defined(ops2.take(k), r) by {
        if k < st.ops.len() {
            assert(ops2[k] == st.ops[k]);
            assert(ops2.take(k) =~= st.ops.take(k));
        } else {
            assert(ops2.take(k) =~= st.ops);
        }
    }
    assert forall|j: int, k: int, r: usize|
        0 <= j < k < ops2.len() && #[trigger] op_defines(ops2[j], r) implies !#[trigger] op_defines(ops2[k], r) by {
        assert(ops2[j] == st.ops[j]);
        if k < st.ops.len() {
            assert(ops2[k] == st.ops[k]);
        }
    }
    assert forall|off: u32| #[trigger] st.regs.contains_key(off) implies defined(ops2, st.regs[off]) by {
        lemma_defined_push(st.ops, x, st.regs[off]);
    }
    assert forall|j: int, r: usize| 0 <= j < ops2.len() && #[trigger] op_defines(ops2[j], r) implies r < new_next by {
        if j < st.ops.len() {
            assert(ops2[j] == st.ops[j]);
        }
    }
}

pub proof fn lemma_reg_for_inv(st: GroupState, off: u32)
    requires
        group_inv(st),
        st.next + 1 <= usize::MAX,
    ensures
        group_inv(reg_for(st, off).1),
        defined(reg_for(st, off).1.ops, reg_for(st, off).0),
        st.ops.is_prefix_of(reg_for(st, off).1.ops),
        st.next <= reg_for(st, off).1.next <= st.next + 1,
{
    if !st.regs.contains_key(off) {
        let x = FusedOp::Load(off, st.next as usize);
        lemma_push_op(st, x, st.next + 1);
        let st2 = GroupState { ops: st.ops.push(x), regs: st.regs, next: st.next + 1 };
        lemma_defined_push(st.ops, x, st.next as usize);
        assert forall|o: u32| #[trigger] st.regs.insert(off, st.next as usize).contains_key(o) implies defined(
            st.ops.push(x),
            st.regs.insert(off, st.next as usize)[o],
        ) by {
            if o != off {
                lemma_defined_push(st.ops, x, st.regs[o]);
            }
        }
    }
}

/// Registers written by a prefix are written by the whole sequence.
pub proof fn lemma_defined_prefix(a: Seq<FusedOp>, b: Seq<FusedOp>, r: usize)
    requires
        a.is_prefix_of(b),
        defined(a, r),
    ensures
        defined(b, r),
{
    let j = choose|j: int| 0 <= j < a.len() && #[trigger] op_defines(a[j], r);
    assert(b[j] == a[j]);
}

pub proof fn lemma_emit_binary_inv(st: GroupState, lr: usize, rr: usize, d: u32, mul: bool)
    requires
        group_inv(st),
        st.next + 1 <= usize::MAX,
        defined(st.ops, lr),
        defined(st.ops, rr),
    ensures
        group_inv(emit_binary(st, lr, rr, d, mul)),
        st.ops.is_prefix_of(emit_binary(st, lr, rr, d, mul).ops),
{
    let dr = st.next as usize;
    let op = if mul { FusedOp::Mul(lr, rr, dr) } else { FusedOp::Add(lr, rr, dr) };
    lemma_push_op(st, op, st.next + 1);
    let st1 = GroupState { ops: st.ops.push(op), regs: st.regs, next: st.next + 1 };
    lemma_defined_push(st.ops, op, dr);
    lemma_push_op(st1, FusedOp::Store(dr, d), st.next + 1);
    let st2 = GroupState { ops: st1.ops.push(FusedOp::Store(dr, d)), regs: st.regs, next: st.next + 1 };
    lemma_defined_push(st1.ops, FusedOp::Store(dr, d), dr);
    assert forall|o: u32| #[trigger] st.regs.insert(d, dr).contains_key(o) implies defined(st2.ops, st.regs.insert(d, dr)[o]) by {
        if o != d {
            assert(st.regs.contains_key(o));
            lemma_defined_push(st.ops, op, st.regs[o]);
            lemma_defined_push(st1.ops, FusedOp::Store(dr, d), st.regs[o]);
        }
    }
    assert(st.ops.is_prefix_of(st2.ops)) by {
        assert forall|i: int| 0 <= i < st.ops.len() implies st2.ops[i] == st.ops[i] by {}
    }
}

pub proof fn lemma_prefix_trans(a: Seq<FusedOp>, b: Seq<FusedOp>, c: Seq<FusedOp>)
    requires
        a.is_prefix_of(b),
        b.is_prefix_of(c),
    ensures
        a.is_prefix_of(c),
{
    assert forall|i: int| 0 <= i < a.len() implies c[i] == a[i] by {
        assert(b[i] == a[i]);
    }
}

/// Compiling an instruction keeps the group invariant.
pub proof fn lemma_compile_op_inv(st: GroupState, op: OpCode)
    requires
        group_inv(st),
        st.next + 4 <= usize::MAX,
    ensures
        group_inv(compile_op(st, op)),
{
    match op {
        OpCode::AddVec(l, r, d, _) | OpCode::MulVec(l, r, d, _) => {
            let (lr, s1) = reg_for(st, l);
            lemma_reg_for_inv(st, l);
            let (rr, s2) = reg_for(s1, r);
            lemma_reg_for_inv(s1, r);
            lemma_defined_prefix(s1.ops, s2.ops, lr);
            lemma_emit_binary_inv(s2, lr, rr, d, op is MulVec);
        },
        OpCode::AddScalarVec(l, val, d, _) | OpCode::MulScalarVec(l, val, d, _) => {
            let (lr, s1) = reg_for(st, l);
            lemma_reg_for_inv(st, l);
            let sr = s1.next as usize;
            let x = FusedOp::LoadConst(val, sr);
            lemma_push_op(s1, x, s1.next + 1);
            let s2 = GroupState { ops: s1.ops.push(x), regs: s1.regs, next: s1.next + 1 };
            lemma_defined_push(s1.ops, x, lr);
            lemma_defined_push(s1.ops, x, sr);
            lemma_emit_binary_inv(s2, lr, sr, d, op is MulScalarVec);
        },
        OpCode::AdamWStep(w, g, m, v, _) => {
            let (wr, s1) = reg_for(st, w);
            lemma_reg_for_inv(st, w);
            let (gr, s2) = reg_for(s1, g);
            lemma_reg_for_inv(s1, g);
            let (mr, s3) = reg_for(s2, m);
            lemma_reg_for_inv(s2, m);
            let (vr, s4) = reg_for(s3, v);
            lemma_reg_for_inv(s3, v);
            lemma_prefix_trans(s1.ops, s2.ops, s3.ops);
            lemma_prefix_trans(s1.ops, s3.ops, s4.ops);
            lemma_prefix_trans(s2.ops, s3.ops, s4.ops);
            lemma_defined_prefix(s1.ops, s4.ops, wr);
            lemma_defined_prefix(s2.ops, s4.ops, gr);
            lemma_defined_prefix(s3.ops, s4.ops, mr);
            let a = FusedOp::AdamWStep { w: wr, g: gr, m: mr, v: vr };
            lemma_push_op(s4, a, s4.next);
            let t1 = GroupState { ops: s4.ops.push(a), regs: s4.regs, next: s4.next };
            lemma_defined_push(s4.ops, a, wr);
            lemma_defined_push(s4.ops, a, mr);
            lemma_defined_push(s4.ops, a, vr);
            let x1 = FusedOp::Store(wr, w);
            lemma_push_op(t1, x1, s4.next);
            let t2 = GroupState { ops: t1.ops.push(x1), regs: s4.regs, next: s4.next };
            lemma_defined_push(t1.ops, x1, mr);
            lemma_defined_push(t1.ops, x1, vr);
            let x2 = FusedOp::Store(mr, m);
            lemma_push_op(t2, x2, s4.next);
            let t3 = GroupState { ops: t2.ops.push(x2), regs: s4.regs, next: s4.next };
            lemma_defined_push(t2.ops, x2, vr);
            let x3 = FusedOp::Store(vr, v);
            lemma_push_op(t3, x3, s4.next);
        },
        _ => {},
    }
}

/// The compiler of a fusion group keeps its invariant throughout.
pub proof fn lemma_compile_group_inv(ops: Seq<OpCode>)
    requires
        4 * ops.len() <= usize::MAX,
    ensures
        group_inv(compile_group(ops)),
    decreases ops.len(),
{
    if ops.len() == 0 {
        let st = group_init();
        assert(st.ops.len() == 0);
    } else {
        lemma_compile_group_inv(ops.drop_last());
        lemma_compile_group_growth(ops.drop_last());
        lemma_compile_op_inv(compile_group(ops.drop_last()), ops.last());
    }
}

/// Every fused loop of the program is well formed and writes each register
/// once.
pub open spec fn loops_well_formed(ins: Seq<OptView>) -> bool {
    forall|k: int| 0 <= k < ins.len() ==> (#[trigger] ins[k] matches OptView::Fused(ops, _) ==> regs_wf(ops) && regs_ssa(ops))
}

pub proof fn lemma_fuse_from_well_formed(ops: Seq<OpCode>, i: int)
    requires
        0 <= i,
        ops.len() <= usize::MAX / 8,
    ensures
        loops_well_formed(fuse_from(ops, i)),
    decreases ops.len() - i,
{
    if 0 <= i < ops.len() {
        match vec_len(ops[i]) {
            Some(len) => {
                let j = run_end(ops, i, len);
                lemma_run_end(ops, i, len);
                lemma_fuse_from_well_formed(ops, j);
                let g = ops.subrange(i, j);
                lemma_compile_group_inv(g);
                let head = seq![OptView::Fused(compile_group(g).ops, len)];
                let out = head + fuse_from(ops, j);
                assert forall|k: int| 0 <= k < out.len() implies (#[trigger] out[k] matches OptView::Fused(o, _) ==> regs_wf(o)
                    && regs_ssa(o)) by {
                    if k > 0 {
                        assert(out[k] == fuse_from(ops, j)[k - 1]);
                    }
                }
            },
            None => {
                lemma_fuse_from_well_formed(ops, i + 1);
                let out = seq![OptView::Raw(ops[i])] + fuse_from(ops, i + 1);
                assert forall|k: int| 0 <= k < out.len() implies (#[trigger] out[k] matches OptView::Fused(o, _) ==> regs_wf(o)
                    && regs_ssa(o)) by {
                    if k > 0 {
                        assert(out[k] == fuse_from(ops, i + 1)[k - 1]);
                    }
                }
            },
        }
    }
}

/// The registers a shifted operation writes and reads are those of the
/// operation, shifted.
pub proof fn lemma_shift_op_regs(op: FusedOp, off: int, r: usize)
    requires
        0 <= off,
        op_max_reg(op) + off <= usize::MAX,
    ensures
        op_defines(shift_op(op, off), r) == (r >= off && op_defines(op, (r - off) as usize)),
        op_uses(shift_op(op, off), r) == (r >= off && op_uses(op, (r - off) as usize)),
{
}

/// Every register a sequence writes is counted by `reg_top`.
pub proof fn lemma_defs_le_reg_top(ops: Seq<FusedOp>)
    ensures
        forall|j: int, r: usize| 0 <= j < ops.len() && #[trigger] op_defines(ops[j], r) ==> r <= reg_top(ops),
    decreases ops.len(),
{
    if ops.len() > 0 {
        lemma_defs_le_reg_top(ops.drop_last());
        assert forall|j: int, r: usize| 0 <= j < ops.len() && #[trigger] op_defines(ops[j], r) implies r <= reg_top(ops) by {
            if j < ops.len() - 1 {
                assert(ops.drop_last()[j] == ops[j]);
            }
        }
    }
}

/// Appending a well formed loop with its registers moved above those of a
/// well formed loop gives a well formed loop.
pub proof fn lemma_concat_shift_wf(acc: Seq<FusedOp>, next: Seq<FusedOp>, off: int)
    requires
        regs_wf(acc),
        regs_ssa(acc),
        regs_wf(next),
        regs_ssa(next),
        off == reg_top(acc) + 1,
        max_reg_all(next) + off <= usize::MAX,
    ensures
        regs_wf(acc + shift_ops(next, off)),
        regs_ssa(acc + shift_ops(next, off)),
{
    let sh = shift_ops(next, off);
    let all = acc + sh;
    let n = acc.len() as int;
    lemma_max_reg_all_bounds(next);
    lemma_defs_le_reg_top(acc);
    assert forall|k: int, r: usize| 0 <= k < all.len() && #[trigger] op_uses(all[k], r) implies defined(all.take(k), r) by {
        if k < n {
            assert(all[k] == acc[k]);
            assert(all.take(k) =~= acc.take(k));
        } else {
            let k2 = k - n;
            assert(all[k] == shift_op(next[k2], off));
            lemma_shift_op_regs(next[k2], off, r);
            let u = (r - off) as usize;
            assert(op_uses(next[k2], u));
            assert(defined(next.take(k2), u));
            let j2 = choose|j2: int| 0 <= j2 < next.take(k2).len() && #[trigger] op_defines(next.take(k2)[j2], u);
            assert(next.take(k2)[j2] == next[j2]);
            lemma_shift_op_regs(next[j2], off, r);
            assert(all.take(k)[n + j2] == all[n + j2]);
            assert(all[n + j2] == shift_op(next[j2], off));
            assert(op_defines(all.take(k)[n + j2], r));
        }
    }
    assert forall|j: int, k: int, r: usize|
        0 <= j < k < all.len() && #[trigger] op_defines(all[j], r) implies !#[trigger] op_defines(all[k], r) by {
        if k < n {
            assert(all[j] == acc[j]);
            assert(all[k] == acc[k]);
        } else if j < n {
            assert(all[j] == acc[j]);
            assert(r <= reg_top(acc));
            assert(all[k] == shift_op(next[k - n], off));
            lemma_shift_op_regs(next[k - n], off, r);
        } else {
            assert(all[j] == shift_op(next[j - n], off));
            assert(all[k] == shift_op(next[k - n], off));
            lemma_shift_op_regs(next[j - n], off, r);
            lemma_shift_op_regs(next[k - n], off, r);
        }
    }
}

/// Merging keeps loops well formed.
pub proof fn lemma_merge_from_wf(ins: Seq<OptView>, j: int, acc: Seq<FusedOp>, len: u32)
    requires
        0 <= j <= ins.len(),
        loops_well_formed(ins),
        regs_wf(acc),
        regs_ssa(acc),
        max_reg_all(acc) + 1 + span_sum(ins, j, ins.len() as int) <= usize::MAX,
    ensures
        regs_wf(merge_from(ins, j, acc, len).0),
        regs_ssa(merge_from(ins, j, acc, len).0),
    decreases ins.len() - j,
{
    if j < ins.len() {
        lemma_span_sum_split(ins, j, j + 1, ins.len() as int);
        assert(span_sum(ins, j, j) == 0);
        assert(span_sum(ins, j, j + 1) == span(ins[j]));
        match ins[j] {
            OptView::Fused(next, l2) => {
                if l2 == len {
                    let off: int = reg_top(acc) + 1int;
                    lemma_reg_top_le_max(acc);
                    assert(ins[j] matches OptView::Fused(o, _) ==> regs_wf(o) && regs_ssa(o));
                    lemma_concat_shift_wf(acc, next, off);
                    lemma_max_reg_concat_shift(acc, next, off);
                    lemma_merge_from_wf(ins, j + 1, acc + shift_ops(next, off), len);
                }
            },
            OptView::Raw(op) => match op {
                OpCode::Add(..) | OpCode::Mul(..) => lemma_merge_from_wf(ins, j + 1, acc, len),
                _ => {},
            },
        }
    }
}

/// Stage 2 keeps fused loops well formed.
pub proof fn lemma_fuse_kernels_from_wf(ins: Seq<OptView>, i: int)
    requires
        0 <= i <= ins.len(),
        loops_well_formed(ins),
        span_sum(ins, i, ins.len() as int) <= usize::MAX,
    ensures
        loops_well_formed(fuse_kernels_from(ins, i)),
    decreases ins.len() - i,
{
    if i < ins.len() {
        lemma_span_sum_split(ins, i, i + 1, ins.len() as int);
        assert(span_sum(ins, i, i) == 0);
        assert(span_sum(ins, i, i + 1) == span(ins[i]));
        match ins[i] {
            OptView::Fused(ops, len) => {
                assert(ins[i] matches OptView::Fused(o, _) ==> regs_wf(o) && regs_ssa(o));
                lemma_merge_from_wf(ins, i + 1, ops, len);
                lemma_merge_from_end(ins, i + 1, ops, len);
                let (combined, j) = merge_from(ins, i + 1, ops, len);
                lemma_span_sum_split(ins, i + 1, j, ins.len() as int);
                lemma_fuse_kernels_from_wf(ins, j);
                lemma_raws_between_raw(ins, i + 1, j);
                let rb = raws_between(ins, i + 1, j);
                let out = seq![OptView::Fused(combined, len)] + rb + fuse_kernels_from(ins, j);
                assert forall|k: int| 0 <= k < out.len() implies (#[trigger] out[k] matches OptView::Fused(o, _) ==> regs_wf(o)
                    && regs_ssa(o)) by {
                    if k > rb.len() {
                        assert(out[k] == fuse_kernels_from(ins, j)[k - 1 - rb.len()]);
                    } else if k > 0 {
                        assert(out[k] == rb[k - 1]);
                    }
                }
            },
            OptView::Raw(op) => {
                lemma_fuse_kernels_from_wf(ins, i + 1);
                let out = seq![OptView::Raw(op)] + fuse_kernels_from(ins, i + 1);
                assert forall|k: int| 0 <= k < out.len() implies (#[trigger] out[k] matches OptView::Fused(o, _) ==> regs_wf(o)
                    && regs_ssa(o)) by {
                    if k > 0 {
                        assert(out[k] == fuse_kernels_from(ins, i + 1)[k - 1]);
                    }
                }
            },
        }
    }
}

/// A non-empty group has taken at least one register.
pub proof fn lemma_compile_group_nonempty(ops: Seq<OpCode>)
    requires
        ops.len() > 0,
        vec_len(ops[0]) is Some,
    ensures
        compile_group(ops).next >= 1,
    decreases ops.len(),
{
    if ops.len() == 1 {
        assert(ops.drop_last() =~= Seq::<OpCode>::empty());
        let st = group_init();
        match ops.last() {
            OpCode::AddVec(l, r, d, _) | OpCode::MulVec(l, r, d, _) => {
                lemma_reg_for(st, l);
                lemma_reg_for(reg_for(st, l).1, r);
            },
            OpCode::AddScalarVec(l, _, _, _) | OpCode::MulScalarVec(l, _, _, _) => {
                lemma_reg_for(st, l);
            },
            OpCode::AdamWStep(w, g, m, v, _) => {
                let s1 = reg_for(st, w).1;
                let s2 = reg_for(s1, g).1;
                let s3 = reg_for(s2, m).1;
                lemma_reg_for(s1, g);
                lemma_reg_for(s2, m);
                lemma_reg_for(s3, v);
            },
            _ => {},
        }
    } else {
        assert(ops.drop_last()[0] == ops[0]);
        lemma_compile_group_nonempty(ops.drop_last());
        lemma_compile_op_growth(compile_group(ops.drop_last()), ops.last());
    }
}

/// Every register of a compiled group is below the next free register.
pub proof fn lemma_group_regs_below(st: GroupState)
    requires
        group_inv(st),
        st.next >= 1,
    ensures
        regs_below(st.ops, st.next - 1),
{
    assert forall|k: int| 0 <= k < st.ops.len() implies #[trigger] op_max_reg(st.ops[k]) <= st.next - 1 by {
        let op = st.ops[k];
        assert forall|r: usize| op_uses(op, r) implies r < st.next by {
            assert(op_uses(st.ops[k], r));
            assert(defined(st.ops.take(k), r));
            let j = choose|j: int| 0 <= j < st.ops.take(k).len() && #[trigger] op_defines(st.ops.take(k)[j], r);
            assert(st.ops.take(k)[j] == st.ops[j]);
        }
        match op {
            FusedOp::Load(_, r) => assert(op_defines(st.ops[k], r)),
            FusedOp::LoadConst(_, r) => assert(op_defines(st.ops[k], r)),
            FusedOp::Add(a, b, d) => {
                assert(op_defines(st.ops[k], d));
                assert(op_uses(op, a));
                assert(op_uses(op, b));
            },
            FusedOp::Mul(a, b, d) => {
                assert(op_defines(st.ops[k], d));
                assert(op_uses(op, a));
                assert(op_uses(op, b));
            },
            FusedOp::Store(r, _) => assert(op_uses(op, r)),
            FusedOp::AdamWStep { w, g, m, v } => {
                assert(op_uses(op, w));
                assert(op_uses(op, g));
                assert(op_uses(op, m));
                assert(op_uses(op, v));
            },
            FusedOp::Copy(..) => {},
        }
    }
}

pub proof fn lemma_span_sum_append(a: Seq<OptView>, b: Seq<OptView>, k: int)
    requires
        0 <= k <= b.len(),
    ensures
        span_sum(a + b, a.len() as int, a.len() + k) == span_sum(b, 0, k),
    decreases k,
{
    if k > 0 {
        lemma_span_sum_append(a, b, k - 1);
        assert((a + b)[a.len() + k - 1] == b[k - 1]);
    }
}

/// The register span of the loops of stage 1 is at most four per
/// instruction.
pub proof fn lemma_fuse_from_span(ops: Seq<OpCode>, i: int)
    requires
        0 <= i,
        ops.len() <= usize::MAX / 8,
    ensures
        span_sum(fuse_from(ops, i), 0, fuse_from(ops, i).len() as int) <= 4 * (ops.len() - i) || i >= ops.len(),
        i >= ops.len() ==> span_sum(fuse_from(ops, i), 0, fuse_from(ops, i).len() as int) == 0,
    decreases ops.len() - i,
{
    let out = fuse_from(ops, i);
    if 0 <= i < ops.len() {
        match vec_len(ops[i]) {
            Some(len) => {
                let j = run_end(ops, i, len);
                lemma_run_end(ops, i, len);
                lemma_fuse_from_span(ops, j);
                let g = ops.subrange(i, j);
                lemma_compile_group_inv(g);
                lemma_compile_group_growth(g);
                assert(g[0] == ops[i]);
                lemma_compile_group_nonempty(g);
                lemma_group_regs_below(compile_group(g));
                lemma_max_reg_all_le(compile_group(g).ops, compile_group(g).next - 1);
                let head = seq![OptView::Fused(compile_group(g).ops, len)];
                let rest = fuse_from(ops, j);
                assert(out == head + rest);
                lemma_span_sum_split(out, 0, 1, out.len() as int);
                lemma_span_sum_append(head, rest, rest.len() as int);
                assert(span_sum(out, 0, 0) == 0);
                assert(out[0] == head[0]);
            },
            None => {
                lemma_fuse_from_span(ops, i + 1);
                let head = seq![OptView::Raw(ops[i])];
                let rest = fuse_from(ops, i + 1);
                assert(out == head + rest);
                lemma_span_sum_split(out, 0, 1, out.len() as int);
                lemma_span_sum_append(head, rest, rest.len() as int);
                assert(span_sum(out, 0, 0) == 0);
                assert(out[0] == head[0]);
            },
        }
    } else {
        assert(out.len() == 0);
    }
}

/// The raw instructions of a fused program, in order.
pub open spec fn raw_ops(outs: Seq<OptView>) -> Seq<OpCode>
    decreases outs.len(),
{
    if outs.len() == 0 {
        Seq::empty()
    } else {
        (match outs[0] {
            OptView::Raw(op) => seq![op],
            OptView::Fused(_, _) => Seq::empty(),
        }) + raw_ops(outs.drop_first())
    }
}

/// The instructions of `ops` from `i` on that are not fusable vector
/// instructions, in order.
pub open spec fn non_vector_from(ops: Seq<OpCode>, i: int) -> Seq<OpCode>
    decreases ops.len() - i,
{
    if i < 0 || i >= ops.len() {
        Seq::empty()
    } else {
        (if vec_len(ops[i]) is None { seq![ops[i]] } else { Seq::empty() }) + non_vector_from(ops, i + 1)
    }
}

pub proof fn lemma_skip_vector(ops: Seq<OpCode>, i: int, j: int)
    requires
        0 <= i <= j <= ops.len(),
        forall|k: int| i <= k < j ==> vec_len(#[trigger] ops[k]) is Some,
    ensures
        non_vector_from(ops, i) == non_vector_from(ops, j),
    decreases j - i,
{
    if i < j {
        lemma_skip_vector(ops, i + 1, j);
        assert(Seq::<OpCode>::empty() + non_vector_from(ops, i + 1) =~= non_vector_from(ops, i + 1));
    }
}

pub proof fn lemma_fuse_from_raw(ops: Seq<OpCode>, i: int)
    requires
        0 <= i,
    ensures
        raw_ops(fuse_from(ops, i)) == non_vector_from(ops, i),
    decreases ops.len() - i,
{
    if 0 <= i < ops.len() {
        match vec_len(ops[i]) {
            Some(len) => {
                let j = run_end(ops, i, len);
                lemma_run_end(ops, i, len);
                lemma_fuse_from_raw(ops, j);
                lemma_skip_vector(ops, i, j);
                let out = fuse_from(ops, i);
                assert(out.drop_first() =~= fuse_from(ops, j));
                assert(raw_ops(out) =~= raw_ops(fuse_from(ops, j)));
            },
            None => {
                lemma_fuse_from_raw(ops, i + 1);
                let out = fuse_from(ops, i);
                assert(out.drop_first() =~= fuse_from(ops, i + 1));
            },
        }
    }
}

/// The raw instructions of a concatenation are those of its parts.
pub proof fn lemma_raw_ops_concat(a: Seq<OptView>, b: Seq<OptView>)
    ensures
        raw_ops(a + b) == raw_ops(a) + raw_ops(b),
    decreases a.len(),
{
    if a.len() == 0 {
        assert(a + b =~= b);
    } else {
        assert((a + b).drop_first() =~= a.drop_first() + b);
        assert((a + b)[0] == a[0]);
        lemma_raw_ops_concat(a.drop_first(), b);
    }
}

/// The raw instructions of one instruction.
pub proof fn lemma_raw_ops_single(x: OptView)
    ensures
        raw_ops(seq![x]) == (match x {
            OptView::Raw(op) => seq![op],
            OptView::Fused(_, _) => Seq::<OpCode>::empty(),
        }),
{
    assert(seq![x].drop_first() =~= Seq::<OptView>::empty());
    assert(raw_ops(Seq::<OptView>::empty()) =~= Seq::<OpCode>::empty());
    match x {
        OptView::Raw(op) => {
            assert(raw_ops(seq![x]) =~= seq![op] + raw_ops(Seq::<OptView>::empty()));
        },
        OptView::Fused(_, _) => {
            assert(raw_ops(seq![x]) =~= Seq::<OpCode>::empty() + raw_ops(Seq::<OptView>::empty()));
        },
    }
}

/// Collecting the raw instructions of a range keeps their opcodes.
pub proof fn lemma_raws_between_ops(ins: Seq<OptView>, a: int, b: int)
    requires
        0 <= a <= b <= ins.len(),
    ensures
        raw_ops(raws_between(ins, a, b)) == raw_ops(ins.subrange(a, b)),
    decreases b - a,
{
    if a == b {
        assert(ins.subrange(a, b) =~= Seq::<OptView>::empty());
    } else {
        lemma_raws_between_ops(ins, a, b - 1);
        let x = ins[b - 1];
        let tail: Seq<OptView> = if x is Raw { seq![x] } else { Seq::empty() };
        lemma_raw_ops_concat(raws_between(ins, a, b - 1), tail);
        assert(ins.subrange(a, b) =~= ins.subrange(a, b - 1) + seq![x]);
        lemma_raw_ops_concat(ins.subrange(a, b - 1), seq![x]);
        lemma_raw_ops_single(x);
        if x is Raw {
            lemma_raw_ops_single(x);
        } else {
            assert(tail =~= Seq::<OptView>::empty());
            assert(raw_ops(tail) =~= Seq::<OpCode>::empty());
        }
    }
}

/// Stage 2 from `i` on keeps the raw instructions of `ins[i..]`, in order.
pub proof fn lemma_fuse_kernels_from_raw(ins: Seq<OptView>, i: int)
    requires
        0 <= i <= ins.len(),
    ensures
        raw_ops(fuse_kernels_from(ins, i)) == raw_ops(ins.subrange(i, ins.len() as int)),
    decreases ins.len() - i,
{
    let n = ins.len() as int;
    if i == n {
        assert(ins.subrange(i, n) =~= Seq::<OptView>::empty());
    } else {
        assert(ins.subrange(i, n) =~= seq![ins[i]] + ins.subrange(i + 1, n));
        lemma_raw_ops_concat(seq![ins[i]], ins.subrange(i + 1, n));
        lemma_raw_ops_single(ins[i]);
        match ins[i] {
            OptView::Fused(ops, len) => {
                lemma_merge_from_end(ins, i + 1, ops, len);
                let (combined, j) = merge_from(ins, i + 1, ops, len);
                lemma_fuse_kernels_from_raw(ins, j);
                lemma_raws_between_ops(ins, i + 1, j);
                let rb = raws_between(ins, i + 1, j);
                let rest = fuse_kernels_from(ins, j);
                assert(fuse_kernels_from(ins, i) == seq![OptView::Fused(combined, len)] + rb + rest);
                lemma_raw_ops_concat(seq![OptView::Fused(combined, len)] + rb, rest);
                lemma_raw_ops_concat(seq![OptView::Fused(combined, len)], rb);
                lemma_raw_ops_single(OptView::Fused(combined, len));
                assert(ins.subrange(i + 1, n) =~= ins.subrange(i + 1, j) + ins.subrange(j, n));
                lemma_raw_ops_concat(ins.subrange(i + 1, j), ins.subrange(j, n));
                assert(raw_ops(seq![OptView::Fused(combined, len)]) + raw_ops(rb) =~= raw_ops(rb));
                assert(raw_ops(seq![ins[i]]) + raw_ops(ins.subrange(i + 1, n)) =~= raw_ops(ins.subrange(i + 1, n)));
            },
            OptView::Raw(op) => {
                lemma_fuse_kernels_from_raw(ins, i + 1);
                lemma_raw_ops_concat(seq![OptView::Raw(op)], fuse_kernels_from(ins, i + 1));
            },
        }
    }
}

/// What memory promotion keeps true after the first `k` operations of a
/// well-formed loop: every register it records holds a value written in
/// the kept operations, every register of the
/// prefix stands for a written one, the kept operations are well formed,
/// and they write only registers the prefix writes.
pub open spec fn promote_inv(all: Seq<FusedOp>, k: int, st: PromoteState) -> bool {
    &&& forall|a: u32| #[trigger] st.addr.contains_key(a) ==> defined(st.out, st.addr[a])
    &&& forall|r: usize| #[trigger] st.ren.contains_key(r) ==> defined(st.out, st.ren[r]) && defined(all.take(k), r)
    &&& forall|r: usize| #[trigger] defined(all.take(k), r) ==> defined(st.out, renamed(st.ren, r))
    &&& forall|r: usize| #[trigger] defined(st.out, r) ==> defined(all.take(k), r)
    &&& regs_wf(st.out)
    &&& regs_ssa(st.out)
}

/// Appending an operation adds at most its own written registers.
pub proof fn lemma_defined_push_all(s: Seq<FusedOp>, op: FusedOp)
    ensures
        forall|r: usize| #[trigger] defined(s.push(op), r) <==> (defined(s, r) || op_defines(op, r)),
{
    let t = s.push(op);
    assert forall|r: usize| #[trigger] defined(t, r) <==> (defined(s, r) || op_defines(op, r)) by {
        if defined(s, r) {
            let j = choose|j: int| 0 <= j < s.len() && #[trigger] op_defines(s[j], r);
            assert(t[j] == s[j]);
        }
        if op_defines(op, r) {
            assert(t[s.len() as int] == op);
        }
        if defined(t, r) {
            let j = choose|j: int| 0 <= j < t.len() && #[trigger] op_defines(t[j], r);
            if j < s.len() {
                assert(t[j] == s[j]);
            }
        }
    }
}

/// Appending an operation that reads written registers and writes fresh
/// ones keeps a loop well formed.
pub proof fn lemma_wf_push(s: Seq<FusedOp>, op: FusedOp)
    requires
        regs_wf(s),
        regs_ssa(s),
        forall|u: usize| #[trigger] op_uses(op, u) ==> defined(s, u),
        forall|r: usize| #[trigger] op_defines(op, r) ==> !defined(s, r),
    ensures
        regs_wf(s.push(op)),
        regs_ssa(s.push(op)),
{
    let t = s.push(op);
    assert(t.take(s.len() as int) =~= s);
    assert forall|k: int, r: usize| 0 <= k < t.len() && #[trigger] op_uses(t[k], r) implies defined(t.take(k), r) by {
        if k < s.len() {
            assert(t[k] == s[k]);
            assert(t.take(k) =~= s.take(k));
        }
    }
    assert forall|j: int, k: int, r: usize| 0 <= j < k < t.len() && #[trigger] op_defines(t[j], r) implies !#[trigger] op_defines(t[k], r) by {
        assert(t[j] == s[j]);
        if k < s.len() {
            assert(t[k] == s[k]);
        } else if op_defines(t[k], r) {
            assert(defined(s, r));
        }
    }
}

/// One promotion step keeps the invariant.
pub proof fn lemma_promote_step(all: Seq<FusedOp>, k: int, st: PromoteState)
    requires
        0 <= k < all.len(),
        regs_wf(all),
        regs_ssa(all),
        promote_inv(all, k, st),
    ensures
        promote_inv(all, k + 1, promote_op(all, k, st, all[k])),
{
    let op = all[k];
    let st2 = promote_op(all, k, st, op);
    let pre = all.take(k);
    let pre2 = all.take(k + 1);
    assert(pre2 =~= pre.push(op));
    lemma_defined_push_all(pre, op);
    lemma_defined_push_all(st.out, st2.out.last());
    // Registers read by `op` hold values; registers it writes are fresh.
    assert forall|u: usize| #[trigger] op_uses(op, u) implies defined(pre, u) by {
        assert(op_uses(all[k], u));
    }
    assert forall|r: usize| #[trigger] op_defines(op, r) implies !defined(pre, r) by {
        if defined(pre, r) {
            let j = choose|j: int| 0 <= j < pre.len() && #[trigger] op_defines(pre[j], r);
            assert(pre[j] == all[j]);
            assert(op_defines(all[j], r));
        }
    }
    match op {
        FusedOp::Load(a, r) => {
            assert(op_defines(op, r));
            if st.addr.contains_key(a) && !updated_after(all, k, r) {
                assert(!st.ren.contains_key(r));
                assert forall|x: usize| #[trigger] defined(pre2, x) implies defined(st2.out, renamed(st2.ren, x)) by {
                    if x != r {
                        assert(defined(pre, x));
                    }
                }
                assert forall|x: usize| #[trigger] st2.ren.contains_key(x) implies defined(st2.out, st2.ren[x]) && defined(pre2, x) by {
                    if x != r {
                        assert(st.ren.contains_key(x));
                    }
                }
            } else {
                lemma_wf_push(st.out, op);
                lemma_defined_push_all(st.out, op);
                assert(!st.ren.contains_key(r));
            }
        },
        FusedOp::Store(r, a) => {
            let x = renamed(st.ren, r);
            assert(op_uses(op, r));
            assert(defined(st.out, x));
            lemma_wf_push(st.out, FusedOp::Store(x, a));
            lemma_defined_push_all(st.out, FusedOp::Store(x, a));
        },
        FusedOp::Add(l, r, d) => {
            assert(op_uses(op, l) && op_uses(op, r));
            assert(op_defines(op, d));
            let o = FusedOp::Add(renamed(st.ren, l), renamed(st.ren, r), d);
            assert(!st.ren.contains_key(d));
            assert(!defined(st.out, d));
            lemma_wf_push(st.out, o);
            lemma_defined_push_all(st.out, o);
        },
        FusedOp::Mul(l, r, d) => {
            assert(op_uses(op, l) && op_uses(op, r));
            assert(op_defines(op, d));
            let o = FusedOp::Mul(renamed(st.ren, l), renamed(st.ren, r), d);
            assert(!st.ren.contains_key(d));
            assert(!defined(st.out, d));
            lemma_wf_push(st.out, o);
            lemma_defined_push_all(st.out, o);
        },
        FusedOp::LoadConst(v, r) => {
            assert(op_defines(op, r));
            assert(!st.ren.contains_key(r));
            assert(!defined(st.out, r));
            lemma_wf_push(st.out, op);
            lemma_defined_push_all(st.out, op);
        },
        FusedOp::AdamWStep { w, g, m, v } => {
            assert(op_uses(op, w) && op_uses(op, g) && op_uses(op, m) && op_uses(op, v));
            let o = FusedOp::AdamWStep {
                w: renamed(st.ren, w),
                g: renamed(st.ren, g),
                m: renamed(st.ren, m),
                v: renamed(st.ren, v),
            };
            lemma_wf_push(st.out, o);
            lemma_defined_push_all(st.out, o);
        },
        FusedOp::Copy(src, dst) => {
            lemma_wf_push(st.out, op);
            lemma_defined_push_all(st.out, op);
        },
    }
}

/// Promotion over every prefix keeps the invariant.
pub proof fn lemma_promote_prefix(all: Seq<FusedOp>, k: nat)
    requires
        k <= all.len(),
        regs_wf(all),
        regs_ssa(all),
    ensures
        promote_inv(all, k as int, promote_prefix(all, k)),
    decreases k,
{
    if k == 0 {
        assert(all.take(0) =~= Seq::<FusedOp>::empty());
        let st = promote_prefix(all, 0);
        assert forall|r: usize| #[trigger] defined(st.out, r) implies defined(all.take(0), r) by {}
    } else {
        lemma_promote_prefix(all, (k - 1) as nat);
        lemma_promote_step(all, k - 1, promote_prefix(all, (k - 1) as nat));
    }
}

/// Memory promotion keeps a loop well formed.
pub proof fn lemma_promote_wf(ops: Seq<FusedOp>)
    requires
        regs_wf(ops),
        regs_ssa(ops),
    ensures
        regs_wf(promote(ops)),
        regs_ssa(promote(ops)),
{
    lemma_promote_prefix(ops, ops.len());
}

/// Memory promotion keeps every loop of a program well formed.
pub proof fn lemma_promote_all_wf(ins: Seq<OptView>)
    requires
        loops_well_formed(ins),
    ensures
        loops_well_formed(promote_all(ins)),
{
    let p = promote_all(ins);
    assert forall|k: int| 0 <= k < p.len() implies (#[trigger] p[k] matches OptView::Fused(o, _) ==> regs_wf(o) && regs_ssa(o)) by {
        match ins[k] {
            OptView::Fused(ops, len) => {
                assert(ins[k] matches OptView::Fused(o, _) ==> regs_wf(o) && regs_ssa(o));
                lemma_promote_wf(ops);
            },
            OptView::Raw(_) => {},
        }
    }
}

/// Once a load of offset `a` or a store to it has been promoted, and no
/// register is updated in place after it, some register holds `a` until a
/// copy to `a`.
pub proof fn lemma_promote_holds(all: Seq<FusedOp>, i: int, a: u32, t: int)
    requires
        0 <= i < t <= all.len(),
        (all[i] matches FusedOp::Load(x, _) && x == a) || (all[i] matches FusedOp::Store(_, y) && y == a),
        forall|u: int| i < u < all.len() ==> !(#[trigger] all[u] is AdamWStep),
        forall|u: int| i < u < t ==> !(#[trigger] all[u] matches FusedOp::Copy(_, y) && y == a),
    ensures
        promote_prefix(all, t as nat).addr.contains_key(a),
    decreases t - i,
{
    assert forall|k: int, x: usize| i <= k implies !updated_after(all, k, x) by {
        if updated_after(all, k, x) {
            let u = choose|u: int| k < u < all.len() && #[trigger] in_place_at(all[u], x);
            assert(all[u] is AdamWStep);
        }
    }
    if t > i + 1 {
        lemma_promote_holds(all, i, a, t - 1);
        assert(!(all[t - 1] matches FusedOp::Copy(_, y) && y == a));
    }
}

// ---------------------------------------------------------------------------
// Stage 1 loads each offset once per loop
// ---------------------------------------------------------------------------

/// The offset a load reads.
pub open spec fn load_offset(op: FusedOp) -> Option<u32> {
    match op {
        FusedOp::Load(a, _) => Some(a),
        _ => None,
    }
}

/// No two loads of `ops` read one offset.
pub open spec fn loads_distinct(ops: Seq<FusedOp>) -> bool {
    forall|j: int, k: int|
        #![trigger load_offset(ops[j]), load_offset(ops[k])]
        0 <= j < k < ops.len() && load_offset(ops[j]) is Some ==> load_offset(ops[j]) != load_offset(ops[k])
}

/// Every loop of the program loads each offset at most once.
pub open spec fn loops_load_once(ins: Seq<OptView>) -> bool {
    forall|k: int| 0 <= k < ins.len() ==> (#[trigger] ins[k] matches OptView::Fused(ops, _) ==> loads_distinct(ops))
}

/// The group compiler loads each offset once, and maps every offset it
/// loaded to a register.
pub open spec fn loads_inv(st: GroupState) -> bool {
    &&& loads_distinct(st.ops)
    &&& forall|j: int|
        0 <= j < st.ops.len() && (#[trigger] load_offset(st.ops[j])) is Some ==> st.regs.contains_key(
            load_offset(st.ops[j]).unwrap(),
        )
}

/// Appending an operation that loads no offset already mapped, with a map
/// that keeps every offset and maps the one loaded, keeps the invariant.
pub proof fn lemma_loads_push(st: GroupState, x: FusedOp, st2: GroupState)
    requires
        loads_inv(st),
        st2.ops == st.ops.push(x),
        forall|off: u32| #[trigger] st.regs.contains_key(off) ==> st2.regs.contains_key(off),
        load_offset(x) is Some ==> !st.regs.contains_key(load_offset(x).unwrap()) && st2.regs.contains_key(
            load_offset(x).unwrap(),
        ),
    ensures
        loads_inv(st2),
{
    let n = st.ops.len() as int;
    assert forall|j: int, k: int|
        #![trigger load_offset(st2.ops[j]), load_offset(st2.ops[k])]
        0 <= j < k < st2.ops.len() && load_offset(st2.ops[j]) is Some implies load_offset(st2.ops[j]) != load_offset(
            st2.ops[k],
        ) by {
        assert(st2.ops[j] == st.ops[j]);
        if k < n {
            assert(st2.ops[k] == st.ops[k]);
        } else {
            assert(st2.ops[k] == x);
            assert(st.regs.contains_key(load_offset(st.ops[j]).unwrap()));
        }
    }
    assert forall|j: int|
        0 <= j < st2.ops.len() && (#[trigger] load_offset(st2.ops[j])) is Some implies st2.regs.contains_key(
            load_offset(st2.ops[j]).unwrap(),
        ) by {
        if j < n {
            assert(st2.ops[j] == st.ops[j]);
            assert(st.regs.contains_key(load_offset(st.ops[j]).unwrap()));
        }
    }
}

pub proof fn lemma_reg_for_loads(st: GroupState, off: u32)
    requires
        loads_inv(st),
    ensures
        loads_inv(reg_for(st, off).1),
        forall|o: u32| #[trigger] st.regs.contains_key(o) ==> reg_for(st, off).1.regs.contains_key(o),
{
    if !st.regs.contains_key(off) {
        lemma_loads_push(st, FusedOp::Load(off, st.next as usize), reg_for(st, off).1);
    }
}

pub proof fn lemma_emit_binary_loads(st: GroupState, lr: usize, rr: usize, d: u32, mul: bool)
    requires
        loads_inv(st),
    ensures
        loads_inv(emit_binary(st, lr, rr, d, mul)),
        forall|o: u32| #[trigger] st.regs.contains_key(o) ==> emit_binary(st, lr, rr, d, mul).regs.contains_key(o),
{
    let dr = st.next as usize;
    let op = if mul { FusedOp::Mul(lr, rr, dr) } else { FusedOp::Add(lr, rr, dr) };
    let st1 = GroupState { ops: st.ops.push(op), regs: st.regs, next: st.next };
    lemma_loads_push(st, op, st1);
    lemma_loads_push(st1, FusedOp::Store(dr, d), emit_binary(st, lr, rr, d, mul));
}

/// Compiling an instruction loads no offset twice.
pub proof fn lemma_compile_op_loads(st: GroupState, op: OpCode)
    requires
        loads_inv(st),
    ensures
        loads_inv(compile_op(st, op)),
{
    match op {
        OpCode::AddVec(l, r, d, _) | OpCode::MulVec(l, r, d, _) => {
            let (lr, s1) = reg_for(st, l);
            lemma_reg_for_loads(st, l);
            let (rr, s2) = reg_for(s1, r);
            lemma_reg_for_loads(s1, r);
            lemma_emit_binary_loads(s2, lr, rr, d, op is MulVec);
        },
        OpCode::AddScalarVec(l, val, d, _) | OpCode::MulScalarVec(l, val, d, _) => {
            let (lr, s1) = reg_for(st, l);
            lemma_reg_for_loads(st, l);
            let sr = s1.next as usize;
            let x = FusedOp::LoadConst(val, sr);
            let s2 = GroupState { ops: s1.ops.push(x), regs: s1.regs, next: s1.next + 1 };
            lemma_loads_push(s1, x, s2);
            lemma_emit_binary_loads(s2, lr, sr, d, op is MulScalarVec);
        },
        OpCode::AdamWStep(w, g, m, v, _) => {
            let (wr, s1) = reg_for(st, w);
            lemma_reg_for_loads(st, w);
            let (gr, s2) = reg_for(s1, g);
            lemma_reg_for_loads(s1, g);
            let (mr, s3) = reg_for(s2, m);
            lemma_reg_for_loads(s2, m);
            let (vr, s4) = reg_for(s3, v);
            lemma_reg_for_loads(s3, v);
            let a = FusedOp::AdamWStep { w: wr, g: gr, m: mr, v: vr };
            let t1 = GroupState { ops: s4.ops.push(a), regs: s4.regs, next: s4.next };
            lemma_loads_push(s4, a, t1);
            let x1 = FusedOp::Store(wr, w);
            let t2 = GroupState { ops: t1.ops.push(x1), regs: s4.regs, next: s4.next };
            lemma_loads_push(t1, x1, t2);
            let x2 = FusedOp::Store(mr, m);
            let t3 = GroupState { ops: t2.ops.push(x2), regs: s4.regs, next: s4.next };
            lemma_loads_push(t2, x2, t3);
            lemma_loads_push(t3, FusedOp::Store(vr, v), compile_op(st, op));
        },
        _ => {},
    }
}

pub proof fn lemma_compile_group_loads(ops: Seq<OpCode>)
    ensures
        loads_inv(compile_group(ops)),
    decreases ops.len(),
{
    if ops.len() > 0 {
        lemma_compile_group_loads(ops.drop_last());
        lemma_compile_op_loads(compile_group(ops.drop_last()), ops.last());
    }
}

pub proof fn lemma_fuse_from_loads(ops: Seq<OpCode>, i: int)
    requires
        0 <= i,
    ensures
        loops_load_once(fuse_from(ops, i)),
    decreases ops.len() - i,
{
    if 0 <= i < ops.len() {
        match vec_len(ops[i]) {
            Some(len) => {
                let j = run_end(ops, i, len);
                lemma_run_end(ops, i, len);
                lemma_fuse_from_loads(ops, j);
                lemma_compile_group_loads(ops.subrange(i, j));
                let out = seq![OptView::Fused(compile_group(ops.subrange(i, j)).ops, len)] + fuse_from(ops, j);
                assert forall|k: int| 0 <= k < out.len() implies (#[trigger] out[k] matches OptView::Fused(o, _)
                    ==> loads_distinct(o)) by {
                    if k > 0 {
                        assert(out[k] == fuse_from(ops, j)[k - 1]);
                    }
                }
            },
            None => {
                lemma_fuse_from_loads(ops, i + 1);
                let out = seq![OptView::Raw(ops[i])] + fuse_from(ops, i + 1);
                assert forall|k: int| 0 <= k < out.len() implies (#[trigger] out[k] matches OptView::Fused(o, _)
                    ==> loads_distinct(o)) by {
                    if k > 0 {
                        assert(out[k] == fuse_from(ops, i + 1)[k - 1]);
                    }
                }
            },
        }
    }
}

} // verus!
