use vstd::prelude::*;
use crate::ir::OpCode;
use crate::kernels::{BinKind, bin16, clamp_i16};
use crate::jit::{
    KernelOp, KernelState, kernel_op, body_op, run_body, run_loop, run_code, fused_loop_ir, loop_ir, kernel_state,
    lemma_run_body_push, lemma_run_code_loop, kernel_ir, has_kernel_form, lemma_raw_shape,
    raw_shape, raw_op_ir,
};
use crate::machine::{
    Fault, MachineState, run, step, in_range, write_range, map_bin16, map_scalar16, adamw_m, adamw_v, adamw_w, adamw_update,
};
use crate::planner::{
    FusedOp, GroupState, OptView, vec_len, compile_group, fuse_from, run_end, lemma_run_end,
    fuse_kernels_from, merge_from, raws_between, promote, promote_prefix, promote_op, promote_all,
    promote_view,
    compile_op, reg_for, emit_binary, shift_ops, reg_top, group_inv, op_defines, PromoteState, defined, renamed, updated_after,
    in_place_at, regs_ssa, lemma_defined_push,
    lemma_reg_for_inv, lemma_compile_group_inv, lemma_compile_group_growth,
};

verus! {

// What a stage-1 loop means.  A vector instruction of length `n` computes
// element `i` from the elements `i` of its operands; a fused loop runs, for
// each `i` in turn, every instruction of its group on element `i`.  Where
// the group's ranges are equal or apart, the two orders give one result.

/// The element-wise i16 instructions that stage 1 fuses.
pub open spec fn elementwise(op: OpCode) -> bool {
    match op {
        OpCode::AddVec(..) | OpCode::MulVec(..) | OpCode::AddScalarVec(..) | OpCode::MulScalarVec(..)
        | OpCode::AdamWStep(..) => true,
        _ => false,
    }
}

/// `mem` with element `p` set to `v`, where `p` lies inside it.
pub open spec fn set_at(mem: Seq<i16>, p: int, v: i16) -> Seq<i16> {
    if 0 <= p < mem.len() {
        mem.update(p, v)
    } else {
        mem
    }
}

/// Element `i` of an element-wise instruction.
pub open spec fn elem_step(mem: Seq<i16>, op: OpCode, i: int) -> Seq<i16> {
    match op {
        OpCode::AddVec(l, r, d, _) => set_at(mem, d + i, bin16(BinKind::Add, mem[l + i], mem[r + i])),
        OpCode::MulVec(l, r, d, _) => set_at(mem, d + i, bin16(BinKind::Mul, mem[l + i], mem[r + i])),
        OpCode::AddScalarVec(l, v, d, _) => set_at(mem, d + i, bin16(BinKind::Add, mem[l + i], v)),
        OpCode::MulScalarVec(l, v, d, _) => set_at(mem, d + i, bin16(BinKind::Mul, mem[l + i], v)),
        OpCode::AdamWStep(w, g, m, v, _) => {
            let (wo, go, mo, vo) = (mem[w + i], mem[g + i], mem[m + i], mem[v + i]);
            set_at(
                set_at(set_at(mem, m + i, clamp_i16(adamw_m(mo, go)) as i16), v + i, clamp_i16(adamw_v(vo, go)) as i16),
                w + i,
                adamw_w(wo, mo, go),
            )
        },
        _ => mem,
    }
}

/// Element `i` of each instruction of `ops`, in order.
pub open spec fn elem_run(mem: Seq<i16>, ops: Seq<OpCode>, i: int) -> Seq<i16>
    decreases ops.len(),
{
    if ops.len() == 0 {
        mem
    } else {
        elem_step(elem_run(mem, ops.drop_last(), i), ops.last(), i)
    }
}

/// Offset `a` is an operand or the destination of `op`.
pub open spec fn uses_offset(op: OpCode, a: u32) -> bool {
    match op {
        OpCode::AddVec(l, r, d, _) | OpCode::MulVec(l, r, d, _) => a == l || a == r || a == d,
        OpCode::AddScalarVec(l, _, d, _) | OpCode::MulScalarVec(l, _, d, _) => a == l || a == d,
        OpCode::AdamWStep(w, g, m, v, _) => a == w || a == g || a == m || a == v,
        _ => false,
    }
}

/// The kernel operations of a fused loop's body.
pub open spec fn kernel_body(ops: Seq<FusedOp>) -> Seq<KernelOp> {
    ops.map_values(|op: FusedOp| kernel_op(op))
}

/// Every offset the group compiler maps is held, at element `i`, by its
/// register.
pub open spec fn regs_hold(st: GroupState, regs: Map<usize, i16>, mem: Seq<i16>, i: int) -> bool {
    forall|a: u32|
        #[trigger] st.regs.contains_key(a) && a + i < mem.len() ==> regs.contains_key(st.regs[a]) && regs[st.regs[a]]
            == mem[a + i]
}

proof fn lemma_kernel_body_push(ops: Seq<FusedOp>, x: FusedOp)
    ensures
        kernel_body(ops.push(x)) == kernel_body(ops).push(kernel_op(x)),
{
    assert(kernel_body(ops.push(x)) =~= kernel_body(ops).push(kernel_op(x)));
}

/// Every register the compiler maps an offset to is below the next free one.
proof fn lemma_mapped_below(st: GroupState, a: u32)
    requires
        group_inv(st),
        st.regs.contains_key(a),
    ensures
        st.regs[a] < st.next,
{
    let j = choose|j: int| 0 <= j < st.ops.len() && #[trigger] op_defines(st.ops[j], st.regs[a]);
}

/// Running the body of a state that maps `off` at element `i`: `reg_for`
/// adds at most a load of `off` into a fresh register.
proof fn lemma_reg_for_body(
    st: GroupState,
    off: u32,
    k0: KernelState,
    k: KernelState,
    regs: Map<usize, i16>,
    inp: Seq<i16>,
    i: int,
) -> (regs2: Map<usize, i16>)
    requires
        group_inv(st),
        st.next + 1 <= usize::MAX,
        0 <= i,
        off + i < k.mem.len(),
        run_body(kernel_body(st.ops), (k0, Map::empty()), inp, i) == Some((k, regs)),
        regs_hold(st, regs, k.mem, i),
    ensures
        run_body(kernel_body(reg_for(st, off).1.ops), (k0, Map::empty()), inp, i) == Some((k, regs2)),
        regs_hold(reg_for(st, off).1, regs2, k.mem, i),
        regs2.contains_key(reg_for(st, off).0),
        regs2[reg_for(st, off).0] == k.mem[off + i],
        forall|a: u32| #[trigger] st.regs.contains_key(a) ==> reg_for(st, off).1.regs.contains_key(a)
            && reg_for(st, off).1.regs[a] == st.regs[a],
{
    if st.regs.contains_key(off) {
        regs
    } else {
        let r = st.next as usize;
        let x = FusedOp::Load(off, r);
        lemma_kernel_body_push(st.ops, x);
        lemma_run_body_push(kernel_body(st.ops), kernel_op(x), (k0, Map::empty()), inp, i);
        let regs2 = regs.insert(r, k.mem[off + i]);
        assert forall|a: u32| #[trigger] reg_for(st, off).1.regs.contains_key(a) && a + i < k.mem.len() implies regs2.contains_key(
            reg_for(st, off).1.regs[a],
        ) && regs2[reg_for(st, off).1.regs[a]] == k.mem[a + i] by {
            if a != off {
                lemma_mapped_below(st, a);
            }
        }
        regs2
    }
}

/// Running the body of `emit_binary` at element `i`: the operation on the
/// two registers into a fresh one, stored to `d`.
proof fn lemma_emit_binary_body(
    st: GroupState,
    lr: usize,
    rr: usize,
    d: u32,
    mul: bool,
    k0: KernelState,
    k: KernelState,
    regs: Map<usize, i16>,
    inp: Seq<i16>,
    i: int,
) -> (regs2: Map<usize, i16>)
    requires
        group_inv(st),
        st.next + 1 <= usize::MAX,
        0 <= i,
        d + i < k.mem.len(),
        run_body(kernel_body(st.ops), (k0, Map::empty()), inp, i) == Some((k, regs)),
        regs_hold(st, regs, k.mem, i),
        regs.contains_key(lr),
        regs.contains_key(rr),
    ensures
        ({
            let kind = if mul { BinKind::Mul } else { BinKind::Add };
            let k2 = KernelState { mem: k.mem.update(d + i, bin16(kind, regs[lr], regs[rr])), out: k.out };
            &&& run_body(kernel_body(emit_binary(st, lr, rr, d, mul).ops), (k0, Map::empty()), inp, i) == Some(
                (k2, regs2),
            )
            &&& regs_hold(emit_binary(st, lr, rr, d, mul), regs2, k2.mem, i)
        }),
{
    let kind = if mul { BinKind::Mul } else { BinKind::Add };
    let dr = st.next as usize;
    let op = if mul { FusedOp::Mul(lr, rr, dr) } else { FusedOp::Add(lr, rr, dr) };
    let v = bin16(kind, regs[lr], regs[rr]);
    let regs2 = regs.insert(dr, v);
    let ops1 = st.ops.push(op);
    lemma_kernel_body_push(st.ops, op);
    lemma_run_body_push(kernel_body(st.ops), kernel_op(op), (k0, Map::empty()), inp, i);
    assert(run_body(kernel_body(ops1), (k0, Map::empty()), inp, i) == Some((k, regs2)));
    lemma_kernel_body_push(ops1, FusedOp::Store(dr, d));
    lemma_run_body_push(kernel_body(ops1), kernel_op(FusedOp::Store(dr, d)), (k0, Map::empty()), inp, i);
    let k2 = KernelState { mem: k.mem.update(d + i, v), out: k.out };
    assert(emit_binary(st, lr, rr, d, mul).ops == ops1.push(FusedOp::Store(dr, d)));
    let st2 = emit_binary(st, lr, rr, d, mul);
    assert forall|a: u32| #[trigger] st2.regs.contains_key(a) && a + i < k2.mem.len() implies regs2.contains_key(st2.regs[a])
        && regs2[st2.regs[a]] == k2.mem[a + i] by {
        if a != d {
            lemma_mapped_below(st, a);
        }
    }
    regs2
}

/// Distinct offsets are held by distinct registers.
pub open spec fn regs_injective(st: GroupState) -> bool {
    forall|a: u32, b: u32|
        #[trigger] st.regs.contains_key(a) && #[trigger] st.regs.contains_key(b) && a != b ==> st.regs[a] != st.regs[b]
}

proof fn lemma_reg_for_inj(st: GroupState, off: u32)
    requires
        group_inv(st),
        regs_injective(st),
    ensures
        regs_injective(reg_for(st, off).1),
{
    if !st.regs.contains_key(off) {
        let st2 = reg_for(st, off).1;
        assert forall|a: u32, b: u32|
            #[trigger] st2.regs.contains_key(a) && #[trigger] st2.regs.contains_key(b) && a != b implies st2.regs[a]
            != st2.regs[b] by {
            if a != off {
                lemma_mapped_below(st, a);
            }
            if b != off {
                lemma_mapped_below(st, b);
            }
        }
    }
}

proof fn lemma_emit_binary_inj(st: GroupState, lr: usize, rr: usize, d: u32, mul: bool)
    requires
        group_inv(st),
        regs_injective(st),
    ensures
        regs_injective(emit_binary(st, lr, rr, d, mul)),
{
    let st2 = emit_binary(st, lr, rr, d, mul);
    assert forall|a: u32, b: u32|
        #[trigger] st2.regs.contains_key(a) && #[trigger] st2.regs.contains_key(b) && a != b implies st2.regs[a]
        != st2.regs[b] by {
        if a != d {
            lemma_mapped_below(st, a);
        }
        if b != d {
            lemma_mapped_below(st, b);
        }
    }
}

/// Compiling an instruction keeps distinct offsets in distinct registers.
proof fn lemma_compile_op_inj(st: GroupState, op: OpCode)
    requires
        group_inv(st),
        regs_injective(st),
        st.next + 4 <= usize::MAX,
    ensures
        regs_injective(compile_op(st, op)),
{
    match op {
        OpCode::AddVec(l, r, d, _) | OpCode::MulVec(l, r, d, _) => {
            let (lr, s1) = reg_for(st, l);
            lemma_reg_for_inj(st, l);
            lemma_reg_for_inv(st, l);
            let (rr, s2) = reg_for(s1, r);
            lemma_reg_for_inj(s1, r);
            lemma_reg_for_inv(s1, r);
            lemma_emit_binary_inj(s2, lr, rr, d, op is MulVec);
        },
        OpCode::AddScalarVec(l, val, d, _) | OpCode::MulScalarVec(l, val, d, _) => {
            let (lr, s1) = reg_for(st, l);
            lemma_reg_for_inj(st, l);
            lemma_reg_for_inv(st, l);
            let sr = s1.next as usize;
            let x = FusedOp::LoadConst(val, sr);
            let s2 = GroupState { ops: s1.ops.push(x), regs: s1.regs, next: s1.next + 1 };
            crate::planner::lemma_push_op(s1, x, s1.next + 1);
            lemma_emit_binary_inj(s2, lr, sr, d, op is MulScalarVec);
        },
        OpCode::AdamWStep(w, g, m, v, _) => {
            let (wr, s1) = reg_for(st, w);
            lemma_reg_for_inj(st, w);
            lemma_reg_for_inv(st, w);
            let (gr, s2) = reg_for(s1, g);
            lemma_reg_for_inj(s1, g);
            lemma_reg_for_inv(s1, g);
            let (mr, s3) = reg_for(s2, m);
            lemma_reg_for_inj(s2, m);
            lemma_reg_for_inv(s2, m);
            lemma_reg_for_inj(s3, v);
        },
        _ => {},
    }
}

pub proof fn lemma_compile_group_inj(ops: Seq<OpCode>)
    requires
        4 * ops.len() <= usize::MAX,
    ensures
        regs_injective(compile_group(ops)),
    decreases ops.len(),
{
    if ops.len() > 0 {
        lemma_compile_group_inj(ops.drop_last());
        lemma_compile_group_inv(ops.drop_last());
        lemma_compile_group_growth(ops.drop_last());
        lemma_compile_op_inj(compile_group(ops.drop_last()), ops.last());
    }
}

/// Running the body of a compiled AdamW step at element `i` computes
/// element `i` of the step.
#[verifier::rlimit(100)]
proof fn lemma_adamw_body(
    st: GroupState,
    w: u32,
    g: u32,
    m: u32,
    v: u32,
    n: u32,
    k0: KernelState,
    k: KernelState,
    regs: Map<usize, i16>,
    inp: Seq<i16>,
    i: int,
) -> (regs2: Map<usize, i16>)
    requires
        group_inv(st),
        regs_injective(st),
        st.next + 4 <= usize::MAX,
        0 <= i,
        w + i < k.mem.len(),
        g + i < k.mem.len(),
        m + i < k.mem.len(),
        v + i < k.mem.len(),
        run_body(kernel_body(st.ops), (k0, Map::empty()), inp, i) == Some((k, regs)),
        regs_hold(st, regs, k.mem, i),
    ensures
        run_body(kernel_body(compile_op(st, OpCode::AdamWStep(w, g, m, v, n)).ops), (k0, Map::empty()), inp, i) == Some(
            (KernelState { mem: elem_step(k.mem, OpCode::AdamWStep(w, g, m, v, n), i), out: k.out }, regs2),
        ),
        regs_hold(compile_op(st, OpCode::AdamWStep(w, g, m, v, n)), regs2, elem_step(
            k.mem,
            OpCode::AdamWStep(w, g, m, v, n),
            i,
        ), i),
{
    let op = OpCode::AdamWStep(w, g, m, v, n);
    let (wr, s1) = reg_for(st, w);
    let r1 = lemma_reg_for_body(st, w, k0, k, regs, inp, i);
    lemma_reg_for_inv(st, w);
    lemma_reg_for_inj(st, w);
    let (gr, s2) = reg_for(s1, g);
    let r2 = lemma_reg_for_body(s1, g, k0, k, r1, inp, i);
    lemma_reg_for_inv(s1, g);
    lemma_reg_for_inj(s1, g);
    let (mr, s3) = reg_for(s2, m);
    let r3 = lemma_reg_for_body(s2, m, k0, k, r2, inp, i);
    lemma_reg_for_inv(s2, m);
    lemma_reg_for_inj(s2, m);
    let (vr, s4) = reg_for(s3, v);
    let r4 = lemma_reg_for_body(s3, v, k0, k, r3, inp, i);
    lemma_reg_for_inj(s3, v);
    assert(s4.regs.contains_key(w) && s4.regs[w] == wr);
    assert(s4.regs.contains_key(g) && s4.regs[g] == gr);
    assert(s4.regs.contains_key(m) && s4.regs[m] == mr);
    assert(s4.regs.contains_key(v) && s4.regs[v] == vr);
    let (wo, go, mo, vo) = (k.mem[w + i], k.mem[g + i], k.mem[m + i], k.mem[v + i]);
    assert(r4.contains_key(wr) && r4[wr] == wo);
    assert(r4.contains_key(gr) && r4[gr] == go);
    assert(r4.contains_key(mr) && r4[mr] == mo);
    assert(r4.contains_key(vr) && r4[vr] == vo);
    let mn = clamp_i16(adamw_m(mo, go)) as i16;
    let vn = clamp_i16(adamw_v(vo, go)) as i16;
    let wn = adamw_w(wo, mo, go);
    let r5 = r4.insert(mr, mn).insert(vr, vn).insert(wr, wn);
    let a = FusedOp::AdamWStep { w: wr, g: gr, m: mr, v: vr };
    let o1 = s4.ops.push(a);
    lemma_kernel_body_push(s4.ops, a);
    lemma_run_body_push(kernel_body(s4.ops), kernel_op(a), (k0, Map::empty()), inp, i);
    assert(run_body(kernel_body(o1), (k0, Map::empty()), inp, i) == Some((k, r5)));
    let x1 = FusedOp::Store(wr, w);
    let o2 = o1.push(x1);
    lemma_kernel_body_push(o1, x1);
    lemma_run_body_push(kernel_body(o1), kernel_op(x1), (k0, Map::empty()), inp, i);
    let k1 = KernelState { mem: k.mem.update(w + i, r5[wr]), out: k.out };
    assert(run_body(kernel_body(o2), (k0, Map::empty()), inp, i) == Some((k1, r5)));
    let x2 = FusedOp::Store(mr, m);
    let o3 = o2.push(x2);
    lemma_kernel_body_push(o2, x2);
    lemma_run_body_push(kernel_body(o2), kernel_op(x2), (k0, Map::empty()), inp, i);
    let k2 = KernelState { mem: k1.mem.update(m + i, r5[mr]), out: k.out };
    assert(run_body(kernel_body(o3), (k0, Map::empty()), inp, i) == Some((k2, r5)));
    let x3 = FusedOp::Store(vr, v);
    lemma_kernel_body_push(o3, x3);
    lemma_run_body_push(kernel_body(o3), kernel_op(x3), (k0, Map::empty()), inp, i);
    let k3 = KernelState { mem: k2.mem.update(v + i, r5[vr]), out: k.out };
    assert(compile_op(st, op).ops == o3.push(x3));
    assert(compile_op(st, op).regs == s4.regs);
    // Registers are equal exactly where offsets are.
    assert((wr == mr) == (w == m));
    assert((wr == vr) == (w == v));
    assert((mr == vr) == (m == v));
    assert((gr == wr) == (g == w));
    assert((gr == mr) == (g == m));
    assert((gr == vr) == (g == v));
    assert(k3.mem =~= elem_step(k.mem, op, i));
    assert forall|b: u32| #[trigger] s4.regs.contains_key(b) && b + i < k3.mem.len() implies r5.contains_key(s4.regs[b])
        && r5[s4.regs[b]] == k3.mem[b + i] by {
        if b != w && b != m && b != v {
            assert(s4.regs[b] != wr && s4.regs[b] != mr && s4.regs[b] != vr);
        }
    }
    r5
}

/// Running the body of one compiled instruction at element `i` computes
/// element `i` of the instruction.
proof fn lemma_compile_op_body(
    st: GroupState,
    op: OpCode,
    k0: KernelState,
    k: KernelState,
    regs: Map<usize, i16>,
    inp: Seq<i16>,
    i: int,
) -> (regs2: Map<usize, i16>)
    requires
        group_inv(st),
        regs_injective(st),
        st.next + 4 <= usize::MAX,
        0 <= i,
        elementwise(op),
        forall|a: u32| #[trigger] uses_offset(op, a) ==> a + i < k.mem.len(),
        run_body(kernel_body(st.ops), (k0, Map::empty()), inp, i) == Some((k, regs)),
        regs_hold(st, regs, k.mem, i),
    ensures
        run_body(kernel_body(compile_op(st, op).ops), (k0, Map::empty()), inp, i) == Some(
            (KernelState { mem: elem_step(k.mem, op, i), out: k.out }, regs2),
        ),
        regs_hold(compile_op(st, op), regs2, elem_step(k.mem, op, i), i),
{
    match op {
        OpCode::AddVec(l, r, d, _) | OpCode::MulVec(l, r, d, _) => {
            assert(uses_offset(op, l) && uses_offset(op, r) && uses_offset(op, d));
            let (lr, s1) = reg_for(st, l);
            let r1 = lemma_reg_for_body(st, l, k0, k, regs, inp, i);
            lemma_reg_for_inv(st, l);
            let (rr, s2) = reg_for(s1, r);
            let r2 = lemma_reg_for_body(s1, r, k0, k, r1, inp, i);
            lemma_reg_for_inv(s1, r);
            assert(s1.regs.contains_key(l) && s1.regs[l] == lr);
            assert(s2.regs.contains_key(l) && s2.regs[l] == lr);
            assert(r2[lr] == k.mem[l + i]);
            lemma_emit_binary_body(s2, lr, rr, d, op is MulVec, k0, k, r2, inp, i)
        },
        OpCode::AddScalarVec(l, val, d, _) | OpCode::MulScalarVec(l, val, d, _) => {
            assert(uses_offset(op, l) && uses_offset(op, d));
            let (lr, s1) = reg_for(st, l);
            let r1 = lemma_reg_for_body(st, l, k0, k, regs, inp, i);
            lemma_reg_for_inv(st, l);
            let sr = s1.next as usize;
            let x = FusedOp::LoadConst(val, sr);
            let s2 = GroupState { ops: s1.ops.push(x), regs: s1.regs, next: s1.next + 1 };
            crate::planner::lemma_push_op(s1, x, s1.next + 1);
            lemma_kernel_body_push(s1.ops, x);
            lemma_run_body_push(kernel_body(s1.ops), kernel_op(x), (k0, Map::empty()), inp, i);
            let r2 = r1.insert(sr, val);
            assert forall|a: u32| #[trigger] s2.regs.contains_key(a) && a + i < k.mem.len() implies r2.contains_key(s2.regs[a])
                && r2[s2.regs[a]] == k.mem[a + i] by {
                lemma_mapped_below(s1, a);
            }
            assert(r2[lr] == k.mem[l + i]) by {
                lemma_mapped_below(s1, l);
            }
            lemma_emit_binary_body(s2, lr, sr, d, op is MulScalarVec, k0, k, r2, inp, i)
        },
        OpCode::AdamWStep(w, g, m, v, n) => {
            assert(uses_offset(op, w) && uses_offset(op, g) && uses_offset(op, m) && uses_offset(op, v));
            lemma_adamw_body(st, w, g, m, v, n, k0, k, regs, inp, i)
        },
        _ => regs,
    }
}

/// Element steps keep the length of the scratchpad.
pub proof fn lemma_elem_run_len(mem: Seq<i16>, ops: Seq<OpCode>, i: int)
    ensures
        elem_run(mem, ops, i).len() == mem.len(),
    decreases ops.len(),
{
    if ops.len() > 0 {
        lemma_elem_run_len(mem, ops.drop_last(), i);
    }
}

/// The body of a stage-1 loop, run at element `i`, computes element `i` of
/// each instruction of its group in order.
pub proof fn lemma_group_body(g: Seq<OpCode>, k0: KernelState, inp: Seq<i16>, i: int) -> (regs: Map<usize, i16>)
    requires
        forall|j: int| 0 <= j < g.len() ==> elementwise(#[trigger] g[j]),
        4 * g.len() <= usize::MAX,
        0 <= i,
        forall|j: int, a: u32| 0 <= j < g.len() && #[trigger] uses_offset(g[j], a) ==> a + i < k0.mem.len(),
    ensures
        run_body(kernel_body(compile_group(g).ops), (k0, Map::empty()), inp, i) == Some(
            (KernelState { mem: elem_run(k0.mem, g, i), out: k0.out }, regs),
        ),
        regs_hold(compile_group(g), regs, elem_run(k0.mem, g, i), i),
    decreases g.len(),
{
    if g.len() == 0 {
        assert(kernel_body(compile_group(g).ops) =~= Seq::<KernelOp>::empty());
        Map::empty()
    } else {
        let pre = g.drop_last();
        assert forall|j: int, a: u32| 0 <= j < pre.len() && #[trigger] uses_offset(pre[j], a) implies a + i
            < k0.mem.len() by {
            assert(pre[j] == g[j]);
        }
        assert forall|j: int| 0 <= j < pre.len() implies elementwise(#[trigger] pre[j]) by {
            assert(pre[j] == g[j]);
        }
        let r0 = lemma_group_body(pre, k0, inp, i);
        lemma_compile_group_inv(pre);
        lemma_compile_group_inj(pre);
        lemma_compile_group_growth(pre);
        lemma_elem_run_len(k0.mem, pre, i);
        let last = g.last();
        assert(elementwise(g[g.len() - 1]));
        assert forall|a: u32| #[trigger] uses_offset(last, a) implies a + i < elem_run(k0.mem, pre, i).len() by {
            assert(uses_offset(g[g.len() - 1], a));
        }
        lemma_compile_op_body(
            compile_group(pre),
            last,
            k0,
            KernelState { mem: elem_run(k0.mem, pre, i), out: k0.out },
            r0,
            inp,
            i,
        )
    }
}

/// Element `i` of the instructions changes no element outside column `i`:
/// none at an offset plus `i`.
pub proof fn lemma_elem_run_frame(mem: Seq<i16>, ops: Seq<OpCode>, i: int, p: int)
    requires
        0 <= p < mem.len(),
        forall|j: int, a: u32| 0 <= j < ops.len() && #[trigger] uses_offset(ops[j], a) ==> p != a + i,
    ensures
        elem_run(mem, ops, i)[p] == mem[p],
    decreases ops.len(),
{
    if ops.len() > 0 {
        let pre = ops.drop_last();
        assert forall|j: int, a: u32| 0 <= j < pre.len() && #[trigger] uses_offset(pre[j], a) implies p != a + i by {
            assert(pre[j] == ops[j]);
        }
        lemma_elem_run_frame(mem, pre, i, p);
        lemma_elem_run_len(mem, pre, i);
        match ops.last() {
            OpCode::AddVec(_, _, d, _) | OpCode::MulVec(_, _, d, _) | OpCode::AddScalarVec(_, _, d, _)
            | OpCode::MulScalarVec(_, _, d, _) => {
                assert(uses_offset(ops[ops.len() - 1], d));
            },
            OpCode::AdamWStep(w, _, m, v, _) => {
                assert(uses_offset(ops[ops.len() - 1], w));
                assert(uses_offset(ops[ops.len() - 1], m));
                assert(uses_offset(ops[ops.len() - 1], v));
            },
            _ => {},
        }
    }
}

/// Element `i` of the instructions reads only column `i`: from two
/// scratchpads that agree there, it leaves two that agree there.
pub proof fn lemma_elem_run_local(m1: Seq<i16>, m2: Seq<i16>, ops: Seq<OpCode>, i: int)
    requires
        m1.len() == m2.len(),
        0 <= i,
        forall|j: int, a: u32| 0 <= j < ops.len() && #[trigger] uses_offset(ops[j], a) ==> a + i < m1.len(),
        forall|j: int, a: u32| 0 <= j < ops.len() && #[trigger] uses_offset(ops[j], a) ==> m1[a + i] == m2[a + i],
    ensures
        forall|j: int, a: u32|
            0 <= j < ops.len() && #[trigger] uses_offset(ops[j], a) ==> elem_run(m1, ops, i)[a + i] == elem_run(
                m2,
                ops,
                i,
            )[a + i],
    decreases ops.len(),
{
    if ops.len() > 0 {
        let pre = ops.drop_last();
        let last = ops.last();
        assert forall|j: int, a: u32| 0 <= j < pre.len() && #[trigger] uses_offset(pre[j], a) implies a + i < m1.len()
            && m1[a + i] == m2[a + i] by {
            assert(pre[j] == ops[j]);
        }
        lemma_elem_run_local(m1, m2, pre, i);
        lemma_elem_run_len(m1, pre, i);
        lemma_elem_run_len(m2, pre, i);
        let e1 = elem_run(m1, pre, i);
        let e2 = elem_run(m2, pre, i);
        // Before the last instruction the two agree on column `i` of the
        // whole program.
        assert forall|j: int, a: u32| 0 <= j < ops.len() && #[trigger] uses_offset(ops[j], a) implies e1[a + i]
            == e2[a + i] by {
            if exists|k: int, b: u32| 0 <= k < pre.len() && #[trigger] uses_offset(pre[k], b) && b == a {
                let (k, b) = choose|k: int, b: u32| 0 <= k < pre.len() && #[trigger] uses_offset(pre[k], b) && b == a;
                assert(pre[k] == ops[k]);
            } else {
                assert forall|k: int, b: u32| 0 <= k < pre.len() && #[trigger] uses_offset(pre[k], b) implies a + i
                    != b + i by {}
                lemma_elem_run_frame(m1, pre, i, a + i);
                lemma_elem_run_frame(m2, pre, i, a + i);
            }
        }
        match last {
            OpCode::AddVec(l, r, d, _) | OpCode::MulVec(l, r, d, _) => {
                assert(uses_offset(ops[ops.len() - 1], l) && uses_offset(ops[ops.len() - 1], r));
                assert(uses_offset(ops[ops.len() - 1], d));
            },
            OpCode::AddScalarVec(l, _, d, _) | OpCode::MulScalarVec(l, _, d, _) => {
                assert(uses_offset(ops[ops.len() - 1], l));
                assert(uses_offset(ops[ops.len() - 1], d));
            },
            OpCode::AdamWStep(w, g, m, v, _) => {
                assert(uses_offset(ops[ops.len() - 1], w));
                assert(uses_offset(ops[ops.len() - 1], g));
                assert(uses_offset(ops[ops.len() - 1], m));
                assert(uses_offset(ops[ops.len() - 1], v));
            },
            _ => {},
        }
    }
}

/// Every instruction of the group is element-wise and of length `n`.
pub open spec fn group_of_len(g: Seq<OpCode>, n: u32) -> bool {
    forall|j: int| 0 <= j < g.len() ==> elementwise(#[trigger] g[j]) && vec_len(g[j]) == Some(n)
}

/// The ranges of length `n` that the group's instructions use are equal or
/// apart.
pub open spec fn separated(g: Seq<OpCode>, n: u32) -> bool {
    forall|j: int, k: int, a: u32, b: u32|
        0 <= j < g.len() && 0 <= k < g.len() && #[trigger] uses_offset(g[j], a) && #[trigger] uses_offset(g[k], b)
            ==> a == b || a + n <= b || b + n <= a
}

/// Element `p` lies in no range of length `n` that the instructions use.
pub open spec fn outside(ops: Seq<OpCode>, p: int, n: u32) -> bool {
    forall|j: int, a: u32| 0 <= j < ops.len() && #[trigger] uses_offset(ops[j], a) ==> !(a <= p < a + n)
}

/// `u` holds, on each column `i < n` of the instructions, element `i` of
/// the instructions run on `m`, and elsewhere what `m` holds.
pub open spec fn columns_match(u: Seq<i16>, m: Seq<i16>, ops: Seq<OpCode>, n: u32) -> bool {
    &&& u.len() == m.len()
    &&& forall|i: int, j: int, a: u32|
        #![trigger uses_offset(ops[j], a), elem_run(m, ops, i)]
        0 <= i < n && 0 <= j < ops.len() && uses_offset(ops[j], a) ==> u[a + i] == elem_run(m, ops, i)[a + i]
    &&& forall|p: int| 0 <= p < m.len() && #[trigger] outside(ops, p, n) ==> u[p] == m[p]
}

proof fn lemma_group_prefix(g: Seq<OpCode>, n: u32)
    requires
        g.len() > 0,
        group_of_len(g, n),
        separated(g, n),
    ensures
        group_of_len(g.drop_last(), n),
        separated(g.drop_last(), n),
{
    let pre = g.drop_last();
    assert forall|j: int| 0 <= j < pre.len() implies elementwise(#[trigger] pre[j]) && vec_len(pre[j]) == Some(n) by {
        assert(pre[j] == g[j]);
    }
    assert forall|j: int, k: int, a: u32, b: u32|
        0 <= j < pre.len() && 0 <= k < pre.len() && #[trigger] uses_offset(pre[j], a) && #[trigger] uses_offset(
            pre[k],
            b,
        ) implies a == b || a + n <= b || b + n <= a by {
        assert(pre[j] == g[j]);
        assert(pre[k] == g[k]);
    }
}

/// Column `i` of an AdamW step on ranges that are equal or apart: element
/// `i` of the step, on the elements before it.
proof fn lemma_adamw_column(
    t: Seq<i16>,
    e: Seq<i16>,
    w: u32,
    g: u32,
    m: u32,
    v: u32,
    n: u32,
    i: int,
    a: u32,
)
    requires
        t.len() == e.len(),
        0 <= i < n,
        in_range(w as int, n as int, t.len() as int),
        in_range(g as int, n as int, t.len() as int),
        in_range(m as int, n as int, t.len() as int),
        in_range(v as int, n as int, t.len() as int),
        a + i < t.len(),
        t[w + i] == e[w + i],
        t[g + i] == e[g + i],
        t[m + i] == e[m + i],
        t[v + i] == e[v + i],
        t[a + i] == e[a + i],
        a == w || a + n <= w || w + n <= a,
        a == m || a + n <= m || m + n <= a,
        a == v || a + n <= v || v + n <= a,
    ensures
        adamw_update(t, w as int, g as int, m as int, v as int, n as nat)[a + i] == elem_step(
            e,
            OpCode::AdamWStep(w, g, m, v, n),
            i,
        )[a + i],
{
}

/// Running a group instruction by instruction puts, on each column `i`,
/// element `i` of the instructions, and leaves every other element alone.
#[verifier::rlimit(50)]
pub proof fn lemma_run_columns(s: MachineState, g: Seq<OpCode>, n: u32, inp: Seq<i16>)
    requires
        group_of_len(g, n),
        separated(g, n),
        run(s, g, inp) is Ok,
    ensures
        columns_match(run(s, g, inp)->Ok_0.mem, s.mem, g, n),
        run(s, g, inp)->Ok_0.out == s.out,
        run(s, g, inp)->Ok_0.mem8 == s.mem8,
        run(s, g, inp)->Ok_0.mem32 == s.mem32,
        run(s, g, inp)->Ok_0.scales == s.scales,
        forall|j: int, a: u32| 0 <= j < g.len() && #[trigger] uses_offset(g[j], a) ==> a + n <= s.mem.len(),
    decreases g.len(),
{
    if g.len() == 0 {
        return;
    }
    let pre = g.drop_last();
    let last = g.last();
    lemma_group_prefix(g, n);
    assert(run(s, pre, inp) is Ok);
    lemma_run_columns(s, pre, n, inp);
    let t = run(s, pre, inp)->Ok_0;
    let u = run(s, g, inp)->Ok_0;
    assert(elementwise(g[g.len() - 1]) && vec_len(g[g.len() - 1]) == Some(n));
    reveal(step);
    assert forall|j: int, a: u32| 0 <= j < pre.len() && #[trigger] uses_offset(pre[j], a) implies uses_offset(g[j], a) by {
        assert(pre[j] == g[j]);
    }
    assert forall|j: int, a: u32| 0 <= j < g.len() && #[trigger] uses_offset(g[j], a) implies a + n <= s.mem.len() by {
        if j < pre.len() {
            assert(pre[j] == g[j]);
            assert(uses_offset(pre[j], a));
        } else {
            match last {
                OpCode::AddVec(l, r, d, _) | OpCode::MulVec(l, r, d, _) => {
                    assert(in_range(l as int, n as int, t.mem.len() as int) && in_range(r as int, n as int, t.mem.len() as int)
                        && in_range(d as int, n as int, t.mem.len() as int));
                },
                OpCode::AddScalarVec(l, _, d, _) | OpCode::MulScalarVec(l, _, d, _) => {
                    assert(in_range(l as int, n as int, t.mem.len() as int) && in_range(d as int, n as int, t.mem.len() as int));
                },
                OpCode::AdamWStep(w, gg, m, v, _) => {
                    assert(in_range(w as int, n as int, t.mem.len() as int) && in_range(gg as int, n as int, t.mem.len() as int)
                        && in_range(m as int, n as int, t.mem.len() as int) && in_range(v as int, n as int, t.mem.len() as int));
                },
                _ => {},
            }
        }
    }
    if let OpCode::AdamWStep(w, gg, m, v, _) = last {
        assert(uses_offset(g[g.len() - 1], w) && uses_offset(g[g.len() - 1], gg));
        assert(uses_offset(g[g.len() - 1], m) && uses_offset(g[g.len() - 1], v));
        assert(u.mem == adamw_update(t.mem, w as int, gg as int, m as int, v as int, n as nat));
        lemma_columns_before_last(s, g, n, inp);
        assert forall|i: int, j: int, a: u32|
            #![trigger uses_offset(g[j], a), elem_run(s.mem, g, i)]
            0 <= i < n && 0 <= j < g.len() && uses_offset(g[j], a) implies u.mem[a + i] == elem_run(s.mem, g, i)[a
            + i] by {
            let e = elem_run(s.mem, pre, i);
            lemma_elem_run_len(s.mem, pre, i);
            assert(elem_run(s.mem, g, i) == elem_step(e, last, i));
            assert(t.mem[w + i] == e[w + i]);
            assert(t.mem[gg + i] == e[gg + i]);
            assert(t.mem[m + i] == e[m + i]);
            assert(t.mem[v + i] == e[v + i]);
            assert(t.mem[a + i] == e[a + i]);
            lemma_adamw_column(t.mem, e, w, gg, m, v, n, i, a);
        }
        assert forall|p: int| 0 <= p < s.mem.len() && #[trigger] outside(g, p, n) implies u.mem[p] == s.mem[p] by {
            assert forall|k: int, b: u32| 0 <= k < pre.len() && #[trigger] uses_offset(pre[k], b) implies !(b <= p < b
                + n) by {
                assert(uses_offset(g[k], b));
            }
            assert(outside(pre, p, n));
        }
    } else {
        lemma_last_columns_binary(s, g, n, inp);
    }
}

/// Before the last instruction of a group, every column holds element `i`
/// of the instructions before it.
proof fn lemma_columns_before_last(s: MachineState, g: Seq<OpCode>, n: u32, inp: Seq<i16>)
    requires
        g.len() > 0,
        group_of_len(g, n),
        separated(g, n),
        run(s, g.drop_last(), inp) is Ok,
        columns_match(run(s, g.drop_last(), inp)->Ok_0.mem, s.mem, g.drop_last(), n),
        forall|j: int, a: u32| 0 <= j < g.len() && #[trigger] uses_offset(g[j], a) ==> a + n <= s.mem.len(),
    ensures
        forall|i: int, j: int, x: u32|
            #![trigger uses_offset(g[j], x), elem_run(s.mem, g.drop_last(), i)]
            0 <= i < n && 0 <= j < g.len() && uses_offset(g[j], x) ==> run(s, g.drop_last(), inp)->Ok_0.mem[x + i]
                == elem_run(s.mem, g.drop_last(), i)[x + i],
{
    let pre = g.drop_last();
    let t = run(s, pre, inp)->Ok_0;
    assert forall|i: int, j: int, x: u32|
        #![trigger uses_offset(g[j], x), elem_run(s.mem, pre, i)]
        0 <= i < n && 0 <= j < g.len() && uses_offset(g[j], x) implies t.mem[x + i] == elem_run(s.mem, pre, i)[x
        + i] by {
        if exists|k: int| 0 <= k < pre.len() && #[trigger] uses_offset(pre[k], x) {
            let k = choose|k: int| 0 <= k < pre.len() && #[trigger] uses_offset(pre[k], x);
            assert(uses_offset(pre[k], x));
        } else {
            assert forall|k: int, b: u32| 0 <= k < pre.len() && #[trigger] uses_offset(pre[k], b) implies !(b <= x + i
                < b + n) && x + i != b + i by {
                assert(pre[k] == g[k]);
                assert(uses_offset(g[k], b));
            }
            assert(outside(pre, x + i, n));
            lemma_elem_run_frame(s.mem, pre, i, x + i);
        }
    }
}

/// The last instruction of a group, a sum or product, on the columns.
#[verifier::rlimit(40)]
proof fn lemma_last_columns_binary(s: MachineState, g: Seq<OpCode>, n: u32, inp: Seq<i16>)
    requires
        g.len() > 0,
        !(g.last() is AdamWStep),
        group_of_len(g, n),
        separated(g, n),
        run(s, g, inp) is Ok,
        run(s, g.drop_last(), inp) is Ok,
        columns_match(run(s, g.drop_last(), inp)->Ok_0.mem, s.mem, g.drop_last(), n),
        forall|j: int, a: u32| 0 <= j < g.len() && #[trigger] uses_offset(g[j], a) ==> a + n <= s.mem.len(),
        forall|j: int, a: u32| 0 <= j < g.len() - 1 && #[trigger] uses_offset(g.drop_last()[j], a) ==> uses_offset(g[j], a),
    ensures
        columns_match(run(s, g, inp)->Ok_0.mem, s.mem, g, n),
{
    let pre = g.drop_last();
    let last = g.last();
    let t = run(s, pre, inp)->Ok_0;
    let u = run(s, g, inp)->Ok_0;
    assert(elementwise(g[g.len() - 1]) && vec_len(g[g.len() - 1]) == Some(n));
    reveal(step);
    let (l, r, d, kind, scalar, val) = match last {
        OpCode::AddVec(l, r, d, _) => (l, r, d, BinKind::Add, false, 0i16),
        OpCode::MulVec(l, r, d, _) => (l, r, d, BinKind::Mul, false, 0i16),
        OpCode::AddScalarVec(l, v, d, _) => (l, l, d, BinKind::Add, true, v),
        OpCode::MulScalarVec(l, v, d, _) => (l, l, d, BinKind::Mul, true, v),
        _ => (0u32, 0u32, 0u32, BinKind::Add, false, 0i16),
    };
    assert(uses_offset(g[g.len() - 1], l) && uses_offset(g[g.len() - 1], r) && uses_offset(g[g.len() - 1], d));
    assert(in_range(l as int, n as int, t.mem.len() as int));
    assert(in_range(r as int, n as int, t.mem.len() as int));
    assert(in_range(d as int, n as int, t.mem.len() as int));
    assert(u.mem == write_range(
        t.mem,
        d as int,
        if scalar {
            map_scalar16(t.mem, l as int, val, n as nat, kind)
        } else {
            map_bin16(t.mem, l as int, r as int, n as nat, kind)
        },
    ));
    lemma_columns_before_last(s, g, n, inp);
    assert forall|i: int, j: int, a: u32|
        #![trigger uses_offset(g[j], a), elem_run(s.mem, g, i)]
        0 <= i < n && 0 <= j < g.len() && uses_offset(g[j], a) implies u.mem[a + i] == elem_run(s.mem, g, i)[a + i] by {
        let e = elem_run(s.mem, pre, i);
        lemma_elem_run_len(s.mem, pre, i);
        assert(elem_run(s.mem, g, i) == elem_step(e, last, i));
        assert(t.mem[l + i] == e[l + i]);
        assert(t.mem[r + i] == e[r + i]);
        assert(t.mem[a + i] == e[a + i]);
        if a != d {
            assert(uses_offset(g[g.len() - 1], d));
        }
    }
    assert forall|p: int| 0 <= p < s.mem.len() && #[trigger] outside(g, p, n) implies u.mem[p] == s.mem[p] by {
        assert(uses_offset(g[g.len() - 1], d));
        assert forall|k: int, b: u32| 0 <= k < pre.len() && #[trigger] uses_offset(pre[k], b) implies !(b <= p < b
            + n) by {
            assert(pre[k] == g[k]);
            assert(uses_offset(g[k], b));
        }
        assert(outside(pre, p, n));
    }
}

/// Every range of length `n` that the instructions of `g` use lies inside
/// a scratchpad of `len` elements.
pub open spec fn fits_ranges(g: Seq<OpCode>, n: u32, len: nat) -> bool {
    forall|j: int, a: u32| 0 <= j < g.len() && #[trigger] uses_offset(g[j], a) ==> a + n <= len
}

/// The loop body `body`, run at element `i < n` from no registers on a
/// scratchpad that holds every range of `g`, computes element `i` of the
/// instructions of `g` and leaves the outputs alone.
pub open spec fn body_computes(body: Seq<KernelOp>, g: Seq<OpCode>, n: u32, inp: Seq<i16>) -> bool {
    forall|k: KernelState, i: int|
        #![trigger run_body(body, (k, Map::<usize, i16>::empty()), inp, i)]
        0 <= i < n && fits_ranges(g, n, k.mem.len()) ==> (run_body(body, (k, Map::<usize, i16>::empty()), inp, i)
            matches Some(y) && y.0 == (KernelState { mem: elem_run(k.mem, g, i), out: k.out }))
}

/// The body stage 1 compiles for a group computes the group's elements.
pub proof fn lemma_group_computes(g: Seq<OpCode>, n: u32, inp: Seq<i16>)
    requires
        group_of_len(g, n),
        4 * g.len() <= usize::MAX,
    ensures
        body_computes(kernel_body(compile_group(g).ops), g, n, inp),
{
    let body = kernel_body(compile_group(g).ops);
    assert forall|k: KernelState, i: int| 0 <= i < n && fits_ranges(g, n, k.mem.len()) implies (#[trigger] run_body(
        body,
        (k, Map::<usize, i16>::empty()),
        inp,
        i,
    ) matches Some(y) && y.0 == (KernelState { mem: elem_run(k.mem, g, i), out: k.out })) by {
        assert forall|j: int| 0 <= j < g.len() implies elementwise(#[trigger] g[j]) by {}
        assert forall|j: int, a: u32| 0 <= j < g.len() && #[trigger] uses_offset(g[j], a) implies a + i < k.mem.len() by {}
        lemma_group_body(g, k, inp, i);
    }
}

/// The first `t` iterations of a loop whose body computes the elements of
/// `g` put, on each column `i < t`, element `i` of the group's
/// instructions, and leave every element outside those columns alone.
pub proof fn lemma_loop_columns(body: Seq<KernelOp>, g: Seq<OpCode>, n: u32, k0: KernelState, inp: Seq<i16>, t: nat)
    requires
        body_computes(body, g, n, inp),
        separated(g, n),
        t <= n,
        fits_ranges(g, n, k0.mem.len()),
    ensures
        run_loop(body, t, k0, inp) is Some,
        ({
            let kt = run_loop(body, t, k0, inp)->0;
            &&& kt.out == k0.out
            &&& kt.mem.len() == k0.mem.len()
            &&& forall|i: int, j: int, a: u32|
                #![trigger uses_offset(g[j], a), elem_run(k0.mem, g, i)]
                0 <= i < t && 0 <= j < g.len() && uses_offset(g[j], a) ==> kt.mem[a + i] == elem_run(k0.mem, g, i)[a
                    + i]
            &&& forall|p: int| 0 <= p < k0.mem.len() && #[trigger] outside(g, p, t as u32) ==> kt.mem[p] == k0.mem[p]
        }),
    decreases t,
{
    if t == 0 {
        return;
    }
    lemma_loop_columns(body, g, n, k0, inp, (t - 1) as nat);
    let k1 = run_loop(body, (t - 1) as nat, k0, inp)->0;
    let c = t - 1;
    assert(fits_ranges(g, n, k1.mem.len()));
    assert(run_body(body, (k1, Map::<usize, i16>::empty()), inp, c) matches Some(y) && y.0 == (KernelState {
        mem: elem_run(k1.mem, g, c),
        out: k1.out,
    }));
    let m2 = elem_run(k1.mem, g, c);
    lemma_elem_run_len(k1.mem, g, c);
    let kt = run_loop(body, t, k0, inp)->0;
    assert(kt == KernelState { mem: m2, out: k0.out });
    // Column `c` was untouched before this iteration.
    assert forall|j: int, a: u32| 0 <= j < g.len() && #[trigger] uses_offset(g[j], a) implies k1.mem[a + c]
        == k0.mem[a + c] by {
        assert forall|k: int, b: u32| 0 <= k < g.len() && #[trigger] uses_offset(g[k], b) implies !(b <= a + c < b
            + c) by {}
        assert(outside(g, a + c, c as u32));
    }
    lemma_elem_run_local(k1.mem, k0.mem, g, c);
    assert forall|i: int, j: int, a: u32|
        #![trigger uses_offset(g[j], a), elem_run(k0.mem, g, i)]
        0 <= i < t && 0 <= j < g.len() && uses_offset(g[j], a) implies kt.mem[a + i] == elem_run(k0.mem, g, i)[a
        + i] by {
        if i < c {
            assert forall|k: int, b: u32| 0 <= k < g.len() && #[trigger] uses_offset(g[k], b) implies a + i != b + c by {}
            lemma_elem_run_frame(k1.mem, g, c, a + i);
        }
    }
    assert forall|p: int| 0 <= p < k0.mem.len() && #[trigger] outside(g, p, t as u32) implies kt.mem[p] == k0.mem[p] by {
        assert forall|k: int, b: u32| 0 <= k < g.len() && #[trigger] uses_offset(g[k], b) implies !(b <= p < b + c)
            && p != b + c by {
            assert(!(b <= p < b + t));
        }
        assert(outside(g, p, c as u32));
        lemma_elem_run_frame(k1.mem, g, c, p);
    }
}

/// A loop of `n` iterations whose body computes the elements of a group of
/// vector instructions of length `n`, whose ranges are equal or apart,
/// computes on the scratchpad and the outputs what the interpreter computes
/// running them one after another.
pub proof fn lemma_loop_matches(body: Seq<KernelOp>, g: Seq<OpCode>, n: u32, s: MachineState, inp: Seq<i16>)
    requires
        body_computes(body, g, n, inp),
        group_of_len(g, n),
        separated(g, n),
        run(s, g, inp) is Ok,
    ensures
        run_loop(body, n as nat, kernel_state(s), inp) == Some(kernel_state(run(s, g, inp)->Ok_0)),
{
    let u = run(s, g, inp)->Ok_0;
    lemma_run_columns(s, g, n, inp);
    let k0 = kernel_state(s);
    lemma_loop_columns(body, g, n, k0, inp, n as nat);
    let kt = run_loop(body, n as nat, k0, inp)->0;
    assert forall|p: int| 0 <= p < s.mem.len() implies kt.mem[p] == u.mem[p] by {
        if exists|j: int, a: u32| 0 <= j < g.len() && #[trigger] uses_offset(g[j], a) && a <= p < a + n {
            let (j, a) = choose|j: int, a: u32| 0 <= j < g.len() && #[trigger] uses_offset(g[j], a) && a <= p < a + n;
            let i = p - a;
            assert(k0.mem == s.mem);
            assert(kt.mem[a + i] == elem_run(k0.mem, g, i)[a + i]);
            assert(u.mem[a + i] == elem_run(s.mem, g, i)[a + i]);
        } else {
            assert(outside(g, p, n));
            assert(outside(g, p, (n as nat) as u32));
        }
    }
    assert(kt.mem =~= u.mem);
}

/// Stage 1 keeps the meaning of a group: for vector instructions of one
/// length `n` whose ranges are equal or apart, the kernel of the loop
/// that stage 1 builds computes, on the scratchpad and the outputs, what the
/// interpreter computes running them one after another.
pub proof fn lemma_fused_loop_matches(g: Seq<OpCode>, n: u32, s: MachineState, inp: Seq<i16>)
    requires
        group_of_len(g, n),
        separated(g, n),
        4 * g.len() <= usize::MAX,
        run(s, g, inp) is Ok,
    ensures
        run_code(fused_loop_ir(compile_group(g).ops, n), kernel_state(s), inp) == Some(
            kernel_state(run(s, g, inp)->Ok_0),
        ),
{
    let ops = compile_group(g).ops;
    let body = kernel_body(ops);
    lemma_group_computes(g, n, inp);
    lemma_loop_matches(body, g, n, s, inp);
    assert(fused_loop_ir(ops, n) =~= Seq::<KernelOp>::empty() + loop_ir(n, body));
    assert forall|k: int| 0 <= k < body.len() implies !(#[trigger] body[k] is Loop) by {
        assert(body[k] == kernel_op(ops[k]));
    }
    lemma_run_code_loop(Seq::empty(), n, body, kernel_state(s), inp);
}

// ---------------------------------------------------------------------------
// Programs after stage 1
// ---------------------------------------------------------------------------

/// Running two programs one after the other runs their concatenation.
pub proof fn lemma_run_concat(s: MachineState, a: Seq<OpCode>, b: Seq<OpCode>, inp: Seq<i16>)
    ensures
        run(s, a + b, inp) == match run(s, a, inp) {
            Ok(t) => run(t, b, inp),
            Err(f) => Err(f),
        },
    decreases b.len(),
{
    if b.len() == 0 {
        assert(a + b =~= a);
    } else {
        lemma_run_concat(s, a, b.drop_last(), inp);
        assert((a + b).drop_last() =~= a + b.drop_last());
        assert((a + b).last() == b.last());
    }
}

/// A one-instruction program runs its instruction.
pub proof fn lemma_run_single(s: MachineState, op: OpCode, inp: Seq<i16>)
    ensures
        run(s, seq![op], inp) == step(s, op, inp),
{
    assert(seq![op].drop_last() =~= Seq::<OpCode>::empty());
    assert(seq![op].last() == op);
    assert(run(s, Seq::<OpCode>::empty(), inp) == Ok::<MachineState, crate::machine::Fault>(s));
}

// ---------------------------------------------------------------------------
// What stage 2 merges across
// ---------------------------------------------------------------------------

/// The length of a fused loop.
pub open spec fn loop_len(x: OptView) -> Option<u32> {
    match x {
        OptView::Fused(_, len) => Some(len),
        OptView::Raw(_) => None,
    }
}

/// A scalar sum or product, which stage 2 merges loops across.
pub open spec fn scalar_arith(x: OptView) -> bool {
    match x {
        OptView::Raw(OpCode::Add(..)) | OptView::Raw(OpCode::Mul(..)) => true,
        _ => false,
    }
}

/// Where every instruction of `ins[a..b]` is raw, the raw ones are all of them.
proof fn lemma_raws_between_all(ins: Seq<OptView>, a: int, b: int)
    requires
        0 <= a <= b <= ins.len(),
        forall|k: int| a <= k < b ==> #[trigger] ins[k] is Raw,
    ensures
        raws_between(ins, a, b) == ins.subrange(a, b),
    decreases b - a,
{
    if a < b {
        lemma_raws_between_all(ins, a, b - 1);
        assert(ins.subrange(a, b) =~= ins.subrange(a, b - 1) + seq![ins[b - 1]]);
    } else {
        assert(ins.subrange(a, b) =~= Seq::<OptView>::empty());
    }
}

// ---------------------------------------------------------------------------
// Memory promotion keeps the meaning of a loop
// ---------------------------------------------------------------------------

/// What memory promotion keeps true, at element `i`, after the first `k`
/// operations of the loop `c`: the scratchpads agree; every register of the
/// loop holds its value in the register it stands for; every offset that
/// promotion holds is in its register; and the registers it holds offsets
/// in, or renames to, are written before and never updated in place.
pub open spec fn promote_holds(
    c: Seq<FusedOp>,
    k: int,
    st: PromoteState,
    k1: KernelState,
    r1: Map<usize, i16>,
    k2: KernelState,
    r2: Map<usize, i16>,
    i: int,
) -> bool {
    &&& k1 == k2
    &&& forall|r: usize|
        #[trigger] r1.contains_key(r) ==> defined(c.take(k), r) && r2.contains_key(renamed(st.ren, r)) && r2[renamed(
            st.ren,
            r,
        )] == r1[r]
    &&& forall|a: u32|
        #[trigger] st.addr.contains_key(a) ==> defined(c.take(k), st.addr[a]) && !updated_after(c, k - 1, st.addr[a]) && (
        a + i < k2.mem.len() ==> r2.contains_key(st.addr[a]) && r2[st.addr[a]] == k2.mem[a + i])
    &&& forall|r: usize|
        #[trigger] st.ren.contains_key(r) ==> defined(c.take(k), r) && !updated_after(c, k - 1, r) && defined(
            c.take(k),
            st.ren[r],
        ) && !updated_after(c, k - 1, st.ren[r])
}

/// A register an operation writes is written by no operation before it.
proof fn lemma_fresh(c: Seq<FusedOp>, k: int, d: usize)
    requires
        regs_ssa(c),
        0 <= k < c.len(),
        op_defines(c[k], d),
    ensures
        !defined(c.take(k), d),
{
    if defined(c.take(k), d) {
        let j = choose|j: int| 0 <= j < c.take(k).len() && #[trigger] op_defines(c.take(k)[j], d);
        assert(c.take(k)[j] == c[j]);
    }
}

/// One operation of memory promotion keeps what it keeps true.
#[verifier::rlimit(100)]
proof fn lemma_promote_holds_step(
    c: Seq<FusedOp>,
    k: int,
    k0: KernelState,
    inp: Seq<i16>,
    i: int,
    k1: KernelState,
    r1: Map<usize, i16>,
    k2: KernelState,
    r2: Map<usize, i16>,
) -> (res: (KernelState, Map<usize, i16>, Map<usize, i16>))
    requires
        regs_ssa(c),
        0 <= k < c.len(),
        0 <= i,
        run_body(kernel_body(c.take(k)), (k0, Map::empty()), inp, i) == Some((k1, r1)),
        run_body(kernel_body(promote_prefix(c, k as nat).out), (k0, Map::empty()), inp, i) == Some((k2, r2)),
        promote_holds(c, k, promote_prefix(c, k as nat), k1, r1, k2, r2, i),
        run_body(kernel_body(c.take(k + 1)), (k0, Map::empty()), inp, i) is Some,
    ensures
        run_body(kernel_body(c.take(k + 1)), (k0, Map::empty()), inp, i) == Some((res.0, res.1)),
        run_body(kernel_body(promote_prefix(c, (k + 1) as nat).out), (k0, Map::empty()), inp, i) == Some(
            (res.0, res.2),
        ),
        promote_holds(c, k + 1, promote_prefix(c, (k + 1) as nat), res.0, res.1, res.0, res.2, i),
{
    let st = promote_prefix(c, k as nat);
    let op = c[k];
    let e = Map::<usize, i16>::empty();
    assert(c.take(k + 1) =~= c.take(k).push(op));
    lemma_kernel_body_push(c.take(k), op);
    lemma_run_body_push(kernel_body(c.take(k)), kernel_op(op), (k0, e), inp, i);
    let (n1, q1) = body_op((k1, r1), kernel_op(op), inp, i)->0;
    assert(promote_prefix(c, (k + 1) as nat) == promote_op(c, k, st, op));
    let st2 = promote_op(c, k, st, op);
    assert forall|r: usize| defined(c.take(k), r) implies defined(c.take(k + 1), r) by {
        lemma_defined_push(c.take(k), op, r);
    }
    assert forall|r: usize| op_defines(op, r) implies defined(c.take(k + 1), r) && !defined(c.take(k), r) by {
        lemma_defined_push(c.take(k), op, r);
        lemma_fresh(c, k, r);
    }
    // An operation updating a register in place makes it written in place.
    assert forall|r: usize| in_place_at(op, r) implies updated_after(c, k - 1, r) by {}
    assert forall|r: usize| !updated_after(c, k - 1, r) implies !updated_after(c, k, r) by {
        if updated_after(c, k, r) {
            let u = choose|u: int| k < u < c.len() && #[trigger] in_place_at(c[u], r);
        }
    }
    // The registers that promotion holds or renames to were written before.
    assert forall|r: usize| #[trigger] r1.contains_key(r) implies defined(c.take(k), renamed(st.ren, r)) by {}
    let (n2, q2) = if st2.out == st.out {
        (k2, r2)
    } else {
        let x = st2.out.last();
        assert(st2.out == st.out.push(x));
        lemma_kernel_body_push(st.out, x);
        lemma_run_body_push(kernel_body(st.out), kernel_op(x), (k0, e), inp, i);
        body_op((k2, r2), kernel_op(x), inp, i)->0
    };
    match op {
        FusedOp::Load(a, r) => {
            assert(op_defines(op, r));
            if st.addr.contains_key(a) && !updated_after(c, k, r) {
                assert forall|q: usize| #[trigger] q1.contains_key(q) implies defined(c.take(k + 1), q) && q2.contains_key(
                    renamed(st2.ren, q),
                ) && q2[renamed(st2.ren, q)] == q1[q] by {
                    if q != r {
                        assert(r1.contains_key(q));
                    }
                }
            } else {
                assert(!st.ren.contains_key(r));
                assert forall|q: usize| #[trigger] q1.contains_key(q) implies defined(c.take(k + 1), q) && q2.contains_key(
                    renamed(st2.ren, q),
                ) && q2[renamed(st2.ren, q)] == q1[q] by {
                    if q != r {
                        assert(r1.contains_key(q));
                        assert(renamed(st.ren, q) != r);
                    }
                }
                assert forall|b: u32| #[trigger] st2.addr.contains_key(b) implies defined(c.take(k + 1), st2.addr[b])
                    && !updated_after(c, k, st2.addr[b]) && (b + i < n2.mem.len() ==> q2.contains_key(st2.addr[b])
                    && q2[st2.addr[b]] == n2.mem[b + i]) by {
                    if st.addr.contains_key(b) && st2.addr[b] == st.addr[b] {
                        assert(st.addr[b] != r);
                    }
                }
            }
        },
        FusedOp::Store(r, a) => {
            assert(r1.contains_key(r));
            let x = renamed(st.ren, r);
            assert forall|b: u32| #[trigger] st2.addr.contains_key(b) implies defined(c.take(k + 1), st2.addr[b])
                && !updated_after(c, k, st2.addr[b]) && (b + i < n2.mem.len() ==> q2.contains_key(st2.addr[b])
                && q2[st2.addr[b]] == n2.mem[b + i]) by {
                if b != a {
                    assert(st.addr.contains_key(b));
                }
            }
        },
        FusedOp::Add(l, rr, d) | FusedOp::Mul(l, rr, d) => {
            assert(op_defines(op, d));
            assert(r1.contains_key(l) && r1.contains_key(rr));
            assert(!st.ren.contains_key(d));
            assert forall|q: usize| #[trigger] q1.contains_key(q) implies defined(c.take(k + 1), q) && q2.contains_key(
                renamed(st2.ren, q),
            ) && q2[renamed(st2.ren, q)] == q1[q] by {
                if q != d {
                    assert(r1.contains_key(q));
                    assert(renamed(st.ren, q) != d);
                }
            }
            assert forall|b: u32| #[trigger] st2.addr.contains_key(b) implies defined(c.take(k + 1), st2.addr[b])
                && !updated_after(c, k, st2.addr[b]) && (b + i < n2.mem.len() ==> q2.contains_key(st2.addr[b])
                && q2[st2.addr[b]] == n2.mem[b + i]) by {
                assert(st2.addr[b] != d);
            }
        },
        FusedOp::LoadConst(v, r) => {
            assert(op_defines(op, r));
            assert(!st.ren.contains_key(r));
            assert forall|q: usize| #[trigger] q1.contains_key(q) implies defined(c.take(k + 1), q) && q2.contains_key(
                renamed(st2.ren, q),
            ) && q2[renamed(st2.ren, q)] == q1[q] by {
                if q != r {
                    assert(r1.contains_key(q));
                    assert(renamed(st.ren, q) != r);
                }
            }
            assert forall|b: u32| #[trigger] st2.addr.contains_key(b) implies defined(c.take(k + 1), st2.addr[b])
                && !updated_after(c, k, st2.addr[b]) && (b + i < n2.mem.len() ==> q2.contains_key(st2.addr[b])
                && q2[st2.addr[b]] == n2.mem[b + i]) by {
                assert(st2.addr[b] != r);
            }
        },
        FusedOp::AdamWStep { w, g, m, v } => {
            assert(in_place_at(op, w) && in_place_at(op, m) && in_place_at(op, v));
            assert(!st.ren.contains_key(w) && !st.ren.contains_key(m) && !st.ren.contains_key(v));
            assert(r1.contains_key(w) && r1.contains_key(g) && r1.contains_key(m) && r1.contains_key(v));
            assert forall|q: usize| #[trigger] q1.contains_key(q) implies defined(c.take(k + 1), q) && q2.contains_key(
                renamed(st2.ren, q),
            ) && q2[renamed(st2.ren, q)] == q1[q] by {
                assert(r1.contains_key(q));
                if q != w && q != m && q != v {
                    assert(renamed(st.ren, q) != w && renamed(st.ren, q) != m && renamed(st.ren, q) != v);
                }
            }
            assert forall|b: u32| #[trigger] st2.addr.contains_key(b) implies defined(c.take(k + 1), st2.addr[b])
                && !updated_after(c, k, st2.addr[b]) && (b + i < n2.mem.len() ==> q2.contains_key(st2.addr[b])
                && q2[st2.addr[b]] == n2.mem[b + i]) by {
                assert(st2.addr[b] != w && st2.addr[b] != m && st2.addr[b] != v);
            }
        },
        FusedOp::Copy(src, dst) => {
            assert forall|b: u32| #[trigger] st2.addr.contains_key(b) implies defined(c.take(k + 1), st2.addr[b])
                && !updated_after(c, k, st2.addr[b]) && (b + i < n2.mem.len() ==> q2.contains_key(st2.addr[b])
                && q2[st2.addr[b]] == n2.mem[b + i]) by {
                assert(st.addr.contains_key(b));
            }
        },
    }
    (n1, q1, q2)
}

/// Memory promotion over the first `k` operations of a loop whose
/// registers are written once: wherever those operations run at element
/// `i`, the promoted ones run too and leave the same scratchpad and outputs.
proof fn lemma_promote_body(c: Seq<FusedOp>, k: nat, k0: KernelState, inp: Seq<i16>, i: int) -> (res: (
    KernelState,
    Map<usize, i16>,
    Map<usize, i16>,
))
    requires
        regs_ssa(c),
        k <= c.len(),
        0 <= i,
        run_body(kernel_body(c.take(k as int)), (k0, Map::empty()), inp, i) is Some,
    ensures
        run_body(kernel_body(c.take(k as int)), (k0, Map::empty()), inp, i) == Some((res.0, res.1)),
        run_body(kernel_body(promote_prefix(c, k).out), (k0, Map::empty()), inp, i) == Some((res.0, res.2)),
        promote_holds(c, k as int, promote_prefix(c, k), res.0, res.1, res.0, res.2, i),
    decreases k,
{
    let e = Map::<usize, i16>::empty();
    if k == 0 {
        assert(c.take(0) =~= Seq::<FusedOp>::empty());
        assert(kernel_body(Seq::<FusedOp>::empty()) =~= Seq::<KernelOp>::empty());
        assert(promote_prefix(c, 0).out == Seq::<FusedOp>::empty());
        (k0, e, e)
    } else {
        let j = (k - 1) as int;
        assert(c.take(k as int) =~= c.take(j).push(c[j]));
        lemma_kernel_body_push(c.take(j), c[j]);
        lemma_run_body_push(kernel_body(c.take(j)), kernel_op(c[j]), (k0, e), inp, i);
        let (k1, r1, r2) = lemma_promote_body(c, j as nat, k0, inp, i);
        lemma_promote_holds_step(c, j, k0, inp, i, k1, r1, k1, r2)
    }
}

/// Memory promotion keeps the meaning of a loop whose registers are written
/// once: wherever its first `n` iterations run, the promoted loop's run too
/// and leave the same scratchpad and outputs.
pub proof fn lemma_promote_loop(c: Seq<FusedOp>, n: nat, k0: KernelState, inp: Seq<i16>)
    requires
        regs_ssa(c),
        run_loop(kernel_body(c), n, k0, inp) is Some,
    ensures
        run_loop(kernel_body(promote(c)), n, k0, inp) == run_loop(kernel_body(c), n, k0, inp),
    decreases n,
{
    if n > 0 {
        assert(run_loop(kernel_body(c), (n - 1) as nat, k0, inp) is Some);
        lemma_promote_loop(c, (n - 1) as nat, k0, inp);
        let t = run_loop(kernel_body(c), (n - 1) as nat, k0, inp)->0;
        assert(c.take(c.len() as int) =~= c);
        lemma_promote_body(c, c.len(), t, inp, n - 1);
    }
}

/// Memory promotion keeps the meaning of a program whose loops write each
/// register once: wherever its kernel runs, the promoted program's kernel
/// runs too and leaves the same scratchpad and outputs.
pub proof fn lemma_promote_program(ins: Seq<OptView>, s: KernelState, inp: Seq<i16>)
    requires
        forall|k: int| 0 <= k < ins.len() ==> (#[trigger] ins[k] matches OptView::Fused(ops, _) ==> regs_ssa(ops)),
        run_code(kernel_ir(ins), s, inp) is Some,
    ensures
        run_code(kernel_ir(promote_all(ins)), s, inp) == run_code(kernel_ir(ins), s, inp),
    decreases ins.len(),
{
    if ins.len() == 0 {
        assert(promote_all(ins) =~= ins);
        return;
    }
    let pre = ins.drop_last();
    let last = ins.last();
    let p = promote_all(ins);
    assert(p.drop_last() =~= promote_all(pre));
    assert(p.last() == promote_view(last));
    assert forall|k: int| 0 <= k < pre.len() implies (#[trigger] pre[k] matches OptView::Fused(ops, _) ==> regs_ssa(ops)) by {
        assert(pre[k] == ins[k]);
    }
    match last {
        OptView::Fused(ops, len) => {
            assert(ins[ins.len() - 1] == last);
            let body = kernel_body(ops);
            let pbody = kernel_body(promote(ops));
            assert(fused_loop_ir(ops, len) =~= loop_ir(len, body));
            assert(fused_loop_ir(promote(ops), len) =~= loop_ir(len, pbody));
            assert forall|k: int| 0 <= k < body.len() implies !(#[trigger] body[k] is Loop) by {
                assert(body[k] == kernel_op(ops[k]));
            }
            assert forall|k: int| 0 <= k < pbody.len() implies !(#[trigger] pbody[k] is Loop) by {
                assert(pbody[k] == kernel_op(promote(ops)[k]));
            }
            lemma_run_code_loop(kernel_ir(pre), len, body, s, inp);
            lemma_run_code_loop(kernel_ir(promote_all(pre)), len, pbody, s, inp);
            lemma_promote_program(pre, s, inp);
            let t = run_code(kernel_ir(pre), s, inp)->0;
            lemma_promote_loop(ops, len as nat, t, inp);
        },
        OptView::Raw(op) => {
            assert(promote_view(last) == last);
            if has_kernel_form(op) {
                lemma_raw_shape(op);
                let (len, body) = raw_shape(op);
                lemma_run_code_loop(kernel_ir(pre), len, body, s, inp);
                lemma_run_code_loop(kernel_ir(promote_all(pre)), len, body, s, inp);
            } else {
                assert(raw_op_ir(op) == Seq::<KernelOp>::empty());
                assert(kernel_ir(ins) =~= kernel_ir(pre));
                assert(kernel_ir(p) =~= kernel_ir(promote_all(pre)));
            }
            lemma_promote_program(pre, s, inp);
        },
    }
}

// ---------------------------------------------------------------------------
// Programs after stage 1, run on the machine
// ---------------------------------------------------------------------------

/// A program after fusion, run on the machine: a raw instruction as the
/// interpreter runs it, a fused loop as its kernel loop runs on the
/// scratchpad and the outputs (a loop that cannot run is out of bounds).
pub open spec fn run_fused(s: MachineState, ins: Seq<OptView>, inp: Seq<i16>) -> Result<MachineState, Fault>
    decreases ins.len(),
{
    if ins.len() == 0 {
        Ok(s)
    } else {
        match run_fused(s, ins.drop_last(), inp) {
            Ok(t) => match ins.last() {
                OptView::Raw(op) => step(t, op, inp),
                OptView::Fused(ops, len) => match run_loop(kernel_body(ops), len as nat, kernel_state(t), inp) {
                    Some(k) => Ok(MachineState { mem: k.mem, mem8: t.mem8, mem32: t.mem32, scales: t.scales, out: k.out }),
                    None => Err(Fault::OutOfBounds),
                },
            },
            Err(f) => Err(f),
        }
    }
}

/// Running two fused programs one after the other runs their concatenation.
pub proof fn lemma_run_fused_concat(s: MachineState, a: Seq<OptView>, b: Seq<OptView>, inp: Seq<i16>)
    ensures
        run_fused(s, a + b, inp) == match run_fused(s, a, inp) {
            Ok(t) => run_fused(t, b, inp),
            Err(f) => Err(f),
        },
    decreases b.len(),
{
    if b.len() == 0 {
        assert(a + b =~= a);
    } else {
        lemma_run_fused_concat(s, a, b.drop_last(), inp);
        assert((a + b).drop_last() =~= a + b.drop_last());
        assert((a + b).last() == b.last());
    }
}

/// Every run of vector instructions of one length uses ranges that are
/// equal or do not overlap.
pub open spec fn runs_separated(ops: Seq<OpCode>) -> bool {
    forall|i: int|
        0 <= i < ops.len() && (#[trigger] vec_len(ops[i])) is Some ==> separated(
            ops.subrange(i, run_end(ops, i, vec_len(ops[i]).unwrap())),
            vec_len(ops[i]).unwrap(),
        )
}

pub proof fn lemma_run_fused_single(s: MachineState, x: OptView, inp: Seq<i16>)
    ensures
        run_fused(s, seq![x], inp) == match x {
            OptView::Raw(op) => step(s, op, inp),
            OptView::Fused(ops, len) => match run_loop(kernel_body(ops), len as nat, kernel_state(s), inp) {
                Some(k) => Ok(MachineState { mem: k.mem, mem8: s.mem8, mem32: s.mem32, scales: s.scales, out: k.out }),
                None => Err(Fault::OutOfBounds),
            },
        },
{
    assert(seq![x].drop_last() =~= Seq::<OptView>::empty());
    assert(seq![x].last() == x);
    assert(run_fused(s, Seq::<OptView>::empty(), inp) == Ok::<MachineState, Fault>(s));
}

/// The program stage 1 builds from position `i` on computes what the
/// interpreter computes for the instructions from `i` on.
#[verifier::rlimit(40)]
pub proof fn lemma_stage1_runs(ops: Seq<OpCode>, i: int, s: MachineState, inp: Seq<i16>)
    requires
        runs_separated(ops),
        0 <= i <= ops.len(),
        4 * ops.len() <= usize::MAX,
        run(s, ops.subrange(i, ops.len() as int), inp) is Ok,
    ensures
        run_fused(s, fuse_from(ops, i), inp) == run(s, ops.subrange(i, ops.len() as int), inp),
    decreases ops.len() - i,
{
    let all = ops.subrange(i, ops.len() as int);
    if i == ops.len() {
        assert(all =~= Seq::<OpCode>::empty());
        return;
    }
    let op = ops[i];
    match vec_len(op) {
        Some(len) => {
            let j = run_end(ops, i, len);
            lemma_run_end(ops, i, len);
            let g = ops.subrange(i, j);
            assert forall|k: int| 0 <= k < g.len() implies elementwise(#[trigger] g[k]) && vec_len(g[k]) == Some(len) by {
                assert(g[k] == ops[i + k]);
                assert(vec_len(ops[i + k]) == Some(len));
            }
            assert(separated(g, len));
            assert(all =~= g + ops.subrange(j, ops.len() as int));
            lemma_run_concat(s, g, ops.subrange(j, ops.len() as int), inp);
            let t = run(s, g, inp)->Ok_0;
            lemma_fused_loop_matches(g, len, s, inp);
            lemma_run_columns(s, g, len, inp);
            let body = kernel_body(compile_group(g).ops);
            assert(fused_loop_ir(compile_group(g).ops, len) =~= Seq::<KernelOp>::empty() + loop_ir(len, body));
            assert forall|k: int| 0 <= k < body.len() implies !(#[trigger] body[k] is Loop) by {
                assert(body[k] == kernel_op(compile_group(g).ops[k]));
            }
            lemma_run_code_loop(Seq::empty(), len, body, kernel_state(s), inp);
            lemma_stage1_runs(ops, j, t, inp);
            let head = OptView::Fused(compile_group(g).ops, len);
            assert(fuse_from(ops, i) == seq![head] + fuse_from(ops, j));
            lemma_run_fused_concat(s, seq![head], fuse_from(ops, j), inp);
            lemma_run_fused_single(s, head, inp);
        },
        None => {
            let one = seq![op];
            assert(all =~= one + ops.subrange(i + 1, ops.len() as int));
            lemma_run_concat(s, one, ops.subrange(i + 1, ops.len() as int), inp);
            lemma_run_single(s, op, inp);
            let t = run(s, one, inp)->Ok_0;
            lemma_stage1_runs(ops, i + 1, t, inp);
            let head = OptView::Raw(op);
            assert(fuse_from(ops, i) == seq![head] + fuse_from(ops, i + 1));
            lemma_run_fused_concat(s, seq![head], fuse_from(ops, i + 1), inp);
            lemma_run_fused_single(s, head, inp);
        },
    }
}

// ---------------------------------------------------------------------------
// Stage 2 run twice
// ---------------------------------------------------------------------------

/// An instruction that ends the merging of loops of length `len`: a loop of
/// another length, or a raw instruction other than a scalar sum or product.
pub open spec fn stops_merge(x: OptView, len: u32) -> bool {
    match x {
        OptView::Fused(_, l2) => l2 != len,
        OptView::Raw(_) => !scalar_arith(x),
    }
}

/// Merging passes only over loops of its length and scalar sums and
/// products, and stops at the end or at an instruction that ends it.
pub proof fn lemma_merge_stop(ins: Seq<OptView>, j0: int, acc: Seq<FusedOp>, len: u32)
    requires
        0 <= j0,
    ensures
        j0 <= merge_from(ins, j0, acc, len).1,
        j0 <= ins.len() ==> merge_from(ins, j0, acc, len).1 <= ins.len(),
        forall|k: int|
            j0 <= k < merge_from(ins, j0, acc, len).1 ==> #[trigger] loop_len(ins[k]) == Some(len) || scalar_arith(
                ins[k],
            ),
        merge_from(ins, j0, acc, len).1 < ins.len() ==> stops_merge(ins[merge_from(ins, j0, acc, len).1], len),
    decreases ins.len() - j0,
{
    if 0 <= j0 < ins.len() {
        match ins[j0] {
            OptView::Fused(next, l2) => {
                if l2 == len {
                    lemma_merge_stop(ins, j0 + 1, acc + shift_ops(next, reg_top(acc) + 1int), len);
                }
            },
            OptView::Raw(op) => {
                if scalar_arith(ins[j0]) {
                    lemma_merge_stop(ins, j0 + 1, acc, len);
                }
            },
        }
    }
}

/// Where everything from `j0` to `e` is a scalar sum or product and `e` is
/// the end or ends the merge, merging absorbs nothing and stops at `e`.
proof fn lemma_merge_passes(ins: Seq<OptView>, j0: int, e: int, acc: Seq<FusedOp>, len: u32)
    requires
        0 <= j0 <= e <= ins.len(),
        forall|k: int| j0 <= k < e ==> scalar_arith(#[trigger] ins[k]),
        e < ins.len() ==> stops_merge(ins[e], len),
    ensures
        merge_from(ins, j0, acc, len) == (acc, e),
    decreases e - j0,
{
    if j0 < e {
        lemma_merge_passes(ins, j0 + 1, e, acc, len);
    }
}

/// The raw instructions a merge passed over are scalar sums and products.
proof fn lemma_raws_between_scalar(ins: Seq<OptView>, a: int, b: int)
    requires
        0 <= a <= b <= ins.len(),
        forall|k: int| a <= k < b ==> #[trigger] loop_len(ins[k]) is Some || scalar_arith(ins[k]),
    ensures
        forall|k: int| 0 <= k < raws_between(ins, a, b).len() ==> scalar_arith(#[trigger] raws_between(ins, a, b)[k]),
    decreases b - a,
{
    if a < b {
        lemma_raws_between_scalar(ins, a, b - 1);
        let r = raws_between(ins, a, b);
        assert forall|k: int| 0 <= k < r.len() implies scalar_arith(#[trigger] r[k]) by {
            if k < raws_between(ins, a, b - 1).len() {
                assert(r[k] == raws_between(ins, a, b - 1)[k]);
            } else {
                assert(loop_len(ins[b - 1]) is Some || scalar_arith(ins[b - 1]));
                assert(ins[b - 1] is Raw);
                assert(r[k] == ins[b - 1]);
            }
        }
    }
}

/// Stage 2 from position `j` on reads only the instructions from `j` on.
pub proof fn lemma_merge_from_suffix(ins: Seq<OptView>, d: int, j: int, acc: Seq<FusedOp>, len: u32)
    requires
        0 <= d <= j,
        d <= ins.len(),
    ensures
        merge_from(ins, j, acc, len) == (
            merge_from(ins.subrange(d, ins.len() as int), j - d, acc, len).0,
            merge_from(ins.subrange(d, ins.len() as int), j - d, acc, len).1 + d,
        ),
    decreases ins.len() - j,
{
    let t = ins.subrange(d, ins.len() as int);
    if j < ins.len() {
        assert(t[j - d] == ins[j]);
        match ins[j] {
            OptView::Fused(next, l2) => {
                if l2 == len {
                    lemma_merge_from_suffix(ins, d, j + 1, acc + shift_ops(next, reg_top(acc) + 1int), len);
                }
            },
            OptView::Raw(op) => {
                lemma_merge_from_suffix(ins, d, j + 1, acc, len);
            },
        }
    }
}

pub proof fn lemma_raws_between_suffix(ins: Seq<OptView>, d: int, a: int, b: int)
    requires
        0 <= d <= a,
        b <= ins.len(),
        d <= ins.len(),
    ensures
        raws_between(ins, a, b) == raws_between(ins.subrange(d, ins.len() as int), a - d, b - d),
    decreases b - a,
{
    if a < b {
        lemma_raws_between_suffix(ins, d, a, b - 1);
        assert(ins.subrange(d, ins.len() as int)[b - 1 - d] == ins[b - 1]);
    }
}

/// Stage 2 from position `i` on is stage 2 of the instructions from `i` on.
pub proof fn lemma_fuse_kernels_suffix(ins: Seq<OptView>, d: int, i: int)
    requires
        0 <= d <= i,
        d <= ins.len(),
    ensures
        fuse_kernels_from(ins, i) == fuse_kernels_from(ins.subrange(d, ins.len() as int), i - d),
    decreases ins.len() - i,
{
    let t = ins.subrange(d, ins.len() as int);
    if i < ins.len() {
        assert(t[i - d] == ins[i]);
        match ins[i] {
            OptView::Fused(ops, len) => {
                lemma_merge_from_suffix(ins, d, i + 1, ops, len);
                lemma_merge_stop(ins, i + 1, ops, len);
                let j = merge_from(ins, i + 1, ops, len).1;
                lemma_raws_between_suffix(ins, d, i + 1, j);
                lemma_fuse_kernels_suffix(ins, d, j);
            },
            OptView::Raw(op) => {
                lemma_fuse_kernels_suffix(ins, d, i + 1);
            },
        }
    }
}

/// Stage 2 run on its own result changes nothing.
pub proof fn lemma_fuse_kernels_idempotent(ins: Seq<OptView>, i: int)
    requires
        0 <= i <= ins.len(),
    ensures
        fuse_kernels_from(fuse_kernels_from(ins, i), 0) == fuse_kernels_from(ins, i),
    decreases ins.len() - i,
{
    let out = fuse_kernels_from(ins, i);
    if i == ins.len() {
        assert(out =~= Seq::<OptView>::empty());
        return;
    }
    match ins[i] {
        OptView::Fused(ops, len) => {
            let (x, j) = merge_from(ins, i + 1, ops, len);
            lemma_merge_stop(ins, i + 1, ops, len);
            let r = raws_between(ins, i + 1, j);
            let rest = fuse_kernels_from(ins, j);
            lemma_fuse_kernels_idempotent(ins, j);
            assert forall|k: int| i + 1 <= k < j implies #[trigger] loop_len(ins[k]) is Some || scalar_arith(ins[k]) by {
                assert(loop_len(ins[k]) == Some(len) || scalar_arith(ins[k]));
            }
            lemma_raws_between_scalar(ins, i + 1, j);
            assert(out == seq![OptView::Fused(x, len)] + r + rest);
            let e: int = 1 + r.len() as int;
            assert forall|k: int| 1 <= k < e implies scalar_arith(#[trigger] out[k]) by {
                assert(out[k] == r[k - 1]);
            }
            if e < out.len() {
                // The first instruction after the merged loop's scalars ends
                // the merge, as the one stage 2 stopped at did.
                assert(j < ins.len());
                assert(out[e] == rest[0]);
                match ins[j] {
                    OptView::Fused(o2, l2) => {
                        assert(rest[0] == OptView::Fused(merge_from(ins, j + 1, o2, l2).0, l2));
                    },
                    OptView::Raw(op) => {
                        assert(rest[0] == OptView::Raw(op));
                    },
                }
            }
            lemma_merge_passes(out, 1, e, x, len);
            assert forall|k: int| 1 <= k < e implies #[trigger] out[k] is Raw by {
                assert(scalar_arith(out[k]));
            }
            lemma_raws_between_all(out, 1, e);
            assert(out.subrange(1, e) =~= r);
            lemma_fuse_kernels_suffix(out, e, e);
            assert(out.subrange(e, out.len() as int) =~= rest);
            assert(fuse_kernels_from(out, 0) == seq![OptView::Fused(x, len)] + r + fuse_kernels_from(out, e));
            assert(fuse_kernels_from(out, 0) =~= out);
        },
        OptView::Raw(op) => {
            let rest = fuse_kernels_from(ins, i + 1);
            lemma_fuse_kernels_idempotent(ins, i + 1);
            assert(out == seq![OptView::Raw(op)] + rest);
            lemma_fuse_kernels_suffix(out, 1, 1);
            assert(out.subrange(1, out.len() as int) =~= rest);
        },
    }
}

// ---------------------------------------------------------------------------
// Memory promotion run twice
// ---------------------------------------------------------------------------

/// Some operation of `ops` updates register `x` in place.
pub open spec fn updates_in_place(ops: Seq<FusedOp>, x: usize) -> bool {
    exists|j: int| 0 <= j < ops.len() && #[trigger] in_place_at(ops[j], x)
}

proof fn lemma_updated_after_suffix(c: Seq<FusedOp>, k: int, x: usize)
    requires
        -1 <= k < c.len(),
    ensures
        updated_after(c, k, x) == updates_in_place(c.subrange(k + 1, c.len() as int), x),
{
    let t = c.subrange(k + 1, c.len() as int);
    if updated_after(c, k, x) {
        let u = choose|u: int| k < u < c.len() && #[trigger] in_place_at(c[u], x);
        assert(t[u - k - 1] == c[u]);
    }
    if updates_in_place(t, x) {
        let j = choose|j: int| 0 <= j < t.len() && #[trigger] in_place_at(t[j], x);
        assert(t[j] == c[j + k + 1]);
    }
}

/// Promotion only appends: an earlier output is a prefix of a later one.
proof fn lemma_promote_out_prefix(c: Seq<FusedOp>, k: nat, m: nat)
    requires
        k <= m <= c.len(),
    ensures
        promote_prefix(c, k).out.len() <= promote_prefix(c, m).out.len(),
        promote_prefix(c, m).out.subrange(0, promote_prefix(c, k).out.len() as int) == promote_prefix(c, k).out,
    decreases m - k,
{
    if k == m {
        assert(promote_prefix(c, m).out.subrange(0, promote_prefix(c, k).out.len() as int) =~= promote_prefix(c, k).out);
    } else {
        lemma_promote_out_prefix(c, k, (m - 1) as nat);
        let a = promote_prefix(c, (m - 1) as nat).out;
        let b = promote_prefix(c, m).out;
        assert(b == a || b == a.push(b.last()));
        assert(b.subrange(0, promote_prefix(c, k).out.len() as int) =~= a.subrange(0, promote_prefix(c, k).out.len() as int));
    }
}

/// A register that promotion renames is never updated in place from then on.
proof fn lemma_promote_ren_kept(c: Seq<FusedOp>, m: nat)
    requires
        m <= c.len(),
    ensures
        forall|r: usize| #[trigger] promote_prefix(c, m).ren.contains_key(r) ==> !updated_after(c, m - 1, r),
    decreases m,
{
    if m > 0 {
        lemma_promote_ren_kept(c, (m - 1) as nat);
        let k = m - 1;
        assert forall|r: usize| #[trigger] promote_prefix(c, m).ren.contains_key(r) implies !updated_after(c, k, r) by {
            if promote_prefix(c, (m - 1) as nat).ren.contains_key(r) {
                if updated_after(c, k, r) {
                    let u = choose|u: int| k < u < c.len() && #[trigger] in_place_at(c[u], r);
                    assert(k - 1 < u);
                }
            }
        }
    }
}

/// The operation promotion keeps for an operation updates in place what
/// the operation does.
proof fn lemma_promote_keeps_in_place(c: Seq<FusedOp>, k: int, x: usize)
    requires
        0 <= k < c.len(),
        promote_prefix(c, (k + 1) as nat).out.len() == promote_prefix(c, k as nat).out.len() + 1,
    ensures
        in_place_at(promote_prefix(c, (k + 1) as nat).out.last(), x) == in_place_at(c[k], x),
{
    lemma_promote_ren_kept(c, k as nat);
    let st = promote_prefix(c, k as nat);
    assert(promote_prefix(c, (k + 1) as nat) == promote_op(c, k, st, c[k]));
    if let FusedOp::AdamWStep { w, g, m, v } = c[k] {
        assert forall|r: usize| in_place_at(c[k], r) implies !st.ren.contains_key(r) by {
            if st.ren.contains_key(r) {
                assert(!updated_after(c, k - 1, r));
            }
        }
    }
}

/// The operations promotion emits after step `k` update in place the
/// registers that the operations of the loop after `k` do.
proof fn lemma_promote_suffix_in_place(c: Seq<FusedOp>, k: nat, m: nat, x: usize)
    requires
        k <= m <= c.len(),
    ensures
        promote_prefix(c, k).out.len() <= promote_prefix(c, m).out.len(),
        updates_in_place(
            promote_prefix(c, m).out.subrange(promote_prefix(c, k).out.len() as int, promote_prefix(c, m).out.len() as int),
            x,
        ) == updates_in_place(c.subrange(k as int, m as int), x),
    decreases m - k,
{
    lemma_promote_out_prefix(c, k, m);
    let base = promote_prefix(c, k).out.len() as int;
    if k == m {
        assert(promote_prefix(c, m).out.subrange(base, base) =~= Seq::<FusedOp>::empty());
        assert(c.subrange(k as int, k as int) =~= Seq::<FusedOp>::empty());
    } else {
        let j = (m - 1) as nat;
        lemma_promote_suffix_in_place(c, k, j, x);
        lemma_promote_out_prefix(c, j, m);
        let a = promote_prefix(c, j).out;
        let b = promote_prefix(c, m).out;
        let sa = a.subrange(base, a.len() as int);
        let sb = b.subrange(base, b.len() as int);
        let ca = c.subrange(k as int, j as int);
        let cb = c.subrange(k as int, m as int);
        assert(cb =~= ca.push(c[j as int]));
        assert(promote_prefix(c, m) == promote_op(c, j as int, promote_prefix(c, j), c[j as int]));
        if b.len() == a.len() {
            assert(b == a);
            assert(sb =~= sa);
            assert(!in_place_at(c[j as int], x)) by {
                assert(c[j as int] is Load);
            }
        } else {
            assert(b == a.push(b.last()));
            assert(sb =~= sa.push(b.last()));
            lemma_promote_keeps_in_place(c, j as int, x);
        }
        if updates_in_place(sb, x) {
            let u = choose|u: int| 0 <= u < sb.len() && #[trigger] in_place_at(sb[u], x);
            if u < sa.len() {
                assert(sb[u] == sa[u]);
            } else {
                assert(cb[cb.len() - 1] == c[j as int]);
            }
        }
        if updates_in_place(cb, x) {
            let u = choose|u: int| 0 <= u < cb.len() && #[trigger] in_place_at(cb[u], x);
            if u < ca.len() {
                assert(cb[u] == ca[u]);
            } else {
                assert(sb[sb.len() - 1] == b.last());
            }
        }
        if updates_in_place(sa, x) {
            let u = choose|u: int| 0 <= u < sa.len() && #[trigger] in_place_at(sa[u], x);
            assert(sb[u] == sa[u]);
        }
        if updates_in_place(ca, x) {
            let u = choose|u: int| 0 <= u < ca.len() && #[trigger] in_place_at(ca[u], x);
            assert(cb[u] == ca[u]);
        }
    }
}

/// Promoting the promoted loop walks the same states: after the operations
/// it kept from the first `k`, it holds the same offsets, renames nothing
/// and has kept them all.
#[verifier::rlimit(40)]
proof fn lemma_promote_twice(c: Seq<FusedOp>, k: nat)
    requires
        k <= c.len(),
    ensures
        promote_prefix(c, k).out.len() <= promote(c).len(),
        promote_prefix(promote(c), promote_prefix(c, k).out.len()) == (PromoteState {
            out: promote_prefix(c, k).out,
            addr: promote_prefix(c, k).addr,
            ren: Map::empty(),
        }),
    decreases k,
{
    let cp = promote(c);
    let n = c.len();
    lemma_promote_out_prefix(c, k, n);
    if k == 0 {
        return;
    }
    let j = (k - 1) as nat;
    lemma_promote_twice(c, j);
    let st0 = promote_prefix(c, j);
    let st = promote_prefix(c, k);
    let op = c[j as int];
    assert(st == promote_op(c, j as int, st0, op));
    let l0 = st0.out.len();
    if st.out.len() != l0 {
        assert(st.out == st0.out.push(st.out.last()));
        lemma_promote_out_prefix(c, k, n);
        assert(cp[l0 as int] == st.out[l0 as int]);
        let sp = promote_prefix(cp, l0);
        assert(promote_prefix(cp, (l0 + 1) as nat) == promote_op(cp, l0 as int, sp, cp[l0 as int]));
        assert forall|x: usize| updated_after(cp, l0 as int, x) == updated_after(c, j as int, x) by {
            lemma_updated_after_suffix(cp, l0 as int, x);
            lemma_promote_suffix_in_place(c, k, n, x);
            lemma_updated_after_suffix(c, j as int, x);
            assert(c.subrange(k as int, n as int) == c.subrange(j as int + 1, n as int));
        }
        assert(promote_op(cp, l0 as int, sp, cp[l0 as int]) =~~= (PromoteState { out: st.out, addr: st.addr, ren: Map::empty() }));
    }
}

/// Memory promotion run on its own result changes nothing.
pub proof fn lemma_promote_idempotent(c: Seq<FusedOp>)
    ensures
        promote(promote(c)) == promote(c),
{
    lemma_promote_twice(c, c.len());
    let cp = promote(c);
    assert(promote_prefix(c, c.len()).out == cp);
}

// ---------------------------------------------------------------------------
// Stage 2 keeps every fused operation
// ---------------------------------------------------------------------------

/// The number of operations of the fused loops among `ins[a..b]`.
pub open spec fn fused_count(ins: Seq<OptView>, a: int, b: int) -> nat
    decreases b - a,
{
    if a >= b {
        0
    } else {
        fused_count(ins, a, b - 1) + match ins[b - 1] {
            OptView::Fused(ops, _) => ops.len(),
            OptView::Raw(_) => 0,
        }
    }
}

proof fn lemma_fused_count_split(ins: Seq<OptView>, a: int, m: int, b: int)
    requires
        a <= m <= b,
    ensures
        fused_count(ins, a, b) == fused_count(ins, a, m) + fused_count(ins, m, b),
    decreases b - m,
{
    if m < b {
        lemma_fused_count_split(ins, a, m, b - 1);
    }
}

proof fn lemma_fused_count_concat(x: Seq<OptView>, y: Seq<OptView>)
    ensures
        fused_count(x + y, 0, (x + y).len() as int) == fused_count(x, 0, x.len() as int) + fused_count(
            y,
            0,
            y.len() as int,
        ),
    decreases y.len(),
{
    if y.len() > 0 {
        let y0 = y.drop_last();
        lemma_fused_count_concat(x, y0);
        assert((x + y).drop_last() =~= x + y0);
        assert(fused_count(x + y, 0, (x + y).len() as int - 1) == fused_count(x + y0, 0, (x + y0).len() as int)) by {
            lemma_fused_count_prefix(x + y, (x + y).len() as int - 1);
        }
        assert(fused_count(y, 0, y.len() as int - 1) == fused_count(y0, 0, y0.len() as int)) by {
            lemma_fused_count_prefix(y, y.len() as int - 1);
        }
    } else {
        assert(x + y =~= x);
    }
}

/// Counting over a prefix counts over the shorter sequence.
proof fn lemma_fused_count_prefix(x: Seq<OptView>, b: int)
    requires
        0 <= b <= x.len(),
    ensures
        fused_count(x, 0, b) == fused_count(x.take(b), 0, b),
    decreases b,
{
    if b > 0 {
        lemma_fused_count_prefix(x, b - 1);
        lemma_fused_count_take(x, b, b - 1);
        assert(x.take(b)[b - 1] == x[b - 1]);
    }
}

proof fn lemma_fused_count_take(x: Seq<OptView>, t: int, b: int)
    requires
        0 <= b <= t <= x.len(),
    ensures
        fused_count(x.take(t), 0, b) == fused_count(x.take(b), 0, b),
    decreases b,
{
    if b > 0 {
        lemma_fused_count_take(x, t, b - 1);
        lemma_fused_count_take(x, b, b - 1);
        assert(x.take(t)[b - 1] == x.take(b)[b - 1]);
    }
}

/// Where every instruction in `ins[a..b]` is raw, the raw ones hold no
/// fused operation.
proof fn lemma_raws_count(ins: Seq<OptView>, a: int, b: int)
    requires
        0 <= a <= b <= ins.len(),
    ensures
        fused_count(raws_between(ins, a, b), 0, raws_between(ins, a, b).len() as int) == 0,
    decreases b - a,
{
    if a < b {
        lemma_raws_count(ins, a, b - 1);
        let r0 = raws_between(ins, a, b - 1);
        let tail = if ins[b - 1] is Raw { seq![ins[b - 1]] } else { Seq::<OptView>::empty() };
        lemma_fused_count_concat(r0, tail);
        assert(raws_between(ins, a, b) == r0 + tail);
        assert(fused_count(tail, 0, 0) == 0);
        assert(fused_count(tail, 0, tail.len() as int) == 0);
    }
}

/// Merging adds to the accumulated operations those of the loops it absorbs.
proof fn lemma_merge_count(ins: Seq<OptView>, j0: int, acc: Seq<FusedOp>, len: u32)
    requires
        0 <= j0 <= ins.len(),
    ensures
        merge_from(ins, j0, acc, len).0.len() == acc.len() + fused_count(ins, j0, merge_from(ins, j0, acc, len).1),
    decreases ins.len() - j0,
{
    lemma_merge_stop(ins, j0, acc, len);
    let e = merge_from(ins, j0, acc, len).1;
    if j0 < ins.len() {
        match ins[j0] {
            OptView::Fused(next, l2) => {
                if l2 == len {
                    let acc2 = acc + shift_ops(next, reg_top(acc) + 1int);
                    lemma_merge_count(ins, j0 + 1, acc2, len);
                    lemma_merge_stop(ins, j0 + 1, acc2, len);
                    lemma_fused_count_split(ins, j0, j0 + 1, e);
                    assert(shift_ops(next, reg_top(acc) + 1int).len() == next.len());
                    assert(fused_count(ins, j0, j0) == 0);
                    assert(fused_count(ins, j0, j0 + 1) == next.len());
                } else {
                    assert(fused_count(ins, j0, j0) == 0);
                }
            },
            OptView::Raw(op) => {
                if scalar_arith(ins[j0]) {
                    lemma_merge_count(ins, j0 + 1, acc, len);
                    lemma_merge_stop(ins, j0 + 1, acc, len);
                    lemma_fused_count_split(ins, j0, j0 + 1, e);
                    assert(fused_count(ins, j0, j0) == 0);
                    assert(fused_count(ins, j0, j0 + 1) == 0);
                } else {
                    assert(fused_count(ins, j0, j0) == 0);
                }
            },
        }
    } else {
        assert(fused_count(ins, j0, j0) == 0);
    }
}

/// Stage 2 keeps every fused operation: its loops hold as many operations
/// as the loops it merged.
pub proof fn lemma_fuse_kernels_count(ins: Seq<OptView>, i: int)
    requires
        0 <= i <= ins.len(),
    ensures
        fused_count(fuse_kernels_from(ins, i), 0, fuse_kernels_from(ins, i).len() as int) == fused_count(
            ins,
            i,
            ins.len() as int,
        ),
    decreases ins.len() - i,
{
    if i == ins.len() {
        return;
    }
    match ins[i] {
        OptView::Fused(ops, len) => {
            let (x, j) = merge_from(ins, i + 1, ops, len);
            lemma_merge_stop(ins, i + 1, ops, len);
            lemma_merge_count(ins, i + 1, ops, len);
            lemma_fuse_kernels_count(ins, j);
            let h = seq![OptView::Fused(x, len)];
            let r = raws_between(ins, i + 1, j);
            let rest = fuse_kernels_from(ins, j);
            lemma_fused_count_concat(h + r, rest);
            lemma_fused_count_concat(h, r);
            lemma_raws_count(ins, i + 1, j);
            lemma_fused_count_split(ins, i, i + 1, ins.len() as int);
            lemma_fused_count_split(ins, i + 1, j, ins.len() as int);
            assert(fused_count(h, 0, 0) == 0);
            assert(fused_count(h, 0, 1) == x.len());
            assert(fused_count(ins, i, i) == 0);
            assert(fused_count(ins, i, i + 1) == ops.len());
            assert(fuse_kernels_from(ins, i) == h + r + rest);
        },
        OptView::Raw(op) => {
            lemma_fuse_kernels_count(ins, i + 1);
            lemma_fused_count_concat(seq![OptView::Raw(op)], fuse_kernels_from(ins, i + 1));
            lemma_fused_count_split(ins, i, i + 1, ins.len() as int);
            assert(fused_count(seq![OptView::Raw(op)], 0, 0) == 0);
            assert(fused_count(seq![OptView::Raw(op)], 0, 1) == 0);
            assert(fused_count(ins, i, i) == 0);
            assert(fused_count(ins, i, i + 1) == 0);
            assert(fuse_kernels_from(ins, i) == seq![OptView::Raw(op)] + fuse_kernels_from(ins, i + 1));
        },
    }
}

} // verus!
