use vstd::prelude::*;
use crate::ir::OpCode;
use crate::aot::{kernel_source, body_text, raw_text, decimal, KERNEL_HEADER, KERNEL_END};
use crate::kernels::{sat_add16, sat_sub16, sat_add8, mul_q8, widen_q6, narrow_q8, BinKind, bin16};
use crate::machine::{
    MachineState, Fault, run, step, run_i8, aio16_m, aio16_v, aio_moments_ok, step_block_host, prepared, in_range, write_range, adamw_w, with_mem, writes_output, lemma_run_frame,
};
use crate::quant::{crunch_spec};
use crate::autograd::{seed_state, xorshift32_iter, lemma_xorshift32_step_nonzero};
use crate::planner::{
    plan_extent, planned_size, fuse_from, fuse_kernels_from, loops_well_formed, span_sum, raw_ops, non_vector_from,
    lemma_fuse_from_well_formed, lemma_fuse_kernels_from_wf, lemma_fuse_from_span, lemma_fuse_from_raw, OptView,
    lemma_fuse_kernels_from_raw, promote_prefix, lemma_promote_holds, promote_all,
    lemma_promote_all_wf, FusedOp, loops_load_once, lemma_fuse_from_loads, compile_group, regs_ssa, regs_wf,
    regs_below, reg_top, max_reg_all, shift_ops, shift_op, op_uses, op_defines, op_max_reg, lemma_max_reg_all_bounds,
};
use crate::ir::{Instruction, ops_of, XimGraph};
use crate::jit::{
    run_code, kernel_ir, jit_program, kernel_state, fused_loop_ir, KernelState,
};
use crate::fusion::{
    group_of_len, separated, lemma_fused_loop_matches,
    lemma_promote_program, runs_separated, run_fused, lemma_stage1_runs, lemma_fuse_kernels_idempotent,
    lemma_promote_idempotent, fused_count, lemma_fuse_kernels_count,
};
use crate::merge::{
    raws_ready_from, windows_separated, crossings_clear, lemma_stage2_runs, lemma_fused_kernel, lemma_wf_regs_below,
};
use crate::engine::{
    keys_increasing, key_rank, set_param, param_lookup, lemma_rank_splits, lemma_set_param_increasing, lemma_lookup_at,
    lemma_lookup_absent,
};

verus! {

// ---------------------------------------------------------------------------
// Fixed-point arithmetic
// ---------------------------------------------------------------------------

/// 256 is 1.0 in Q8.8: multiplying by it gives the value back.
pub proof fn law_q8_unit(a: i16)
    ensures
        mul_q8(a, 256) == a,
        mul_q8(256, a) == a,
{
    assert(a * 256 / 256 == a) by (nonlinear_arith);
    assert(256 * a / 256 == a) by (nonlinear_arith);
}

/// Saturating addition and Q8.8 multiplication do not depend on the order
/// of their operands.
pub proof fn law_commutative(a: i16, b: i16)
    ensures
        sat_add16(a, b) == sat_add16(b, a),
        mul_q8(a, b) == mul_q8(b, a),
{
    assert(a * b == b * a) by (nonlinear_arith);
}

/// The i16 and i8 operations saturate: a sum or difference inside the
/// range is exact and outside it is the nearest bound; a Q8.8 product is
/// the product divided by 256 rounded down, or the nearest bound; an i8
/// sum is exact or the nearest bound; narrowing to Q2.6 divides by 4
/// rounding down, or gives the nearest bound; widening multiplies by 4.
pub proof fn law_fixed_point_saturates(a: i16, b: i16, x: i8, y: i8)
    ensures
        i16::MIN <= a + b <= i16::MAX ==> sat_add16(a, b) == a + b,
        a + b > i16::MAX ==> sat_add16(a, b) == i16::MAX,
        a + b < i16::MIN ==> sat_add16(a, b) == i16::MIN,
        i16::MIN <= a - b <= i16::MAX ==> sat_sub16(a, b) == a - b,
        a - b > i16::MAX ==> sat_sub16(a, b) == i16::MAX,
        a - b < i16::MIN ==> sat_sub16(a, b) == i16::MIN,
        a * b >= 32768 * 256 ==> mul_q8(a, b) == i16::MAX,
        a * b < -32768 * 256 ==> mul_q8(a, b) == i16::MIN,
        -32768 * 256 <= a * b < 32768 * 256 ==> 256 * mul_q8(a, b) <= a * b < 256 * mul_q8(a, b) + 256,
        i8::MIN <= x + y <= i8::MAX ==> sat_add8(x, y) == x + y,
        x + y > i8::MAX ==> sat_add8(x, y) == i8::MAX,
        x + y < i8::MIN ==> sat_add8(x, y) == i8::MIN,
        a >= 512 ==> narrow_q8(a) == i8::MAX,
        a < -512 ==> narrow_q8(a) == i8::MIN,
        -512 <= a < 512 ==> 4 * narrow_q8(a) <= a < 4 * narrow_q8(a) + 4,
        widen_q6(x) == 4 * x,
{
}

/// A Q8.8 value that is a multiple of 4 within the Q2.6 range survives
/// narrowing to Q2.6 and widening back.
pub proof fn law_narrow_widen_roundtrip(x: i16)
    requires
        x % 4 == 0,
        -512 <= x <= 508,
    ensures
        widen_q6(narrow_q8(x)) == x,
{
}

/// Crunching a Q8.8 value to Q2.6 is off by at most half a Q2.6 step
/// (two Q8.8 steps) inside the Q2.6 range.
pub proof fn law_crunch_error(v: i16)
    requires
        -514 <= v <= 509,
    ensures
        -2 <= crunch_spec(v) * 4 - v <= 2,
{
}

// ---------------------------------------------------------------------------
// The machine
// ---------------------------------------------------------------------------

/// What a vector store reads back is what a vector load wrote: loading
/// `len` inputs into the scratchpad and storing the same range puts exactly
/// those inputs into the output buffer, and leaves the rest of it alone.
pub proof fn law_load_store_roundtrip(s: MachineState, inp: Seq<i16>, var: u32, dst: u32, out_id: u32, len: u32)
    requires
        var + len <= u32::MAX,
        dst + len <= u32::MAX,
        out_id + len <= u32::MAX,
        in_range(var as int, len as int, inp.len() as int),
        in_range(dst as int, len as int, s.mem.len() as int),
        in_range(out_id as int, len as int, s.out.len() as int),
    ensures
        run(s, seq![OpCode::LoadVarVec(var, dst, len), OpCode::StoreVec(dst, out_id, len)], inp) matches Ok(t)
            && t.out == write_range(s.out, out_id as int, inp.subrange(var as int, var + len)),
{
    reveal(step);
    let ops = seq![OpCode::LoadVarVec(var, dst, len), OpCode::StoreVec(dst, out_id, len)];
    assert(ops.drop_last() =~= seq![OpCode::LoadVarVec(var, dst, len)]);
    assert(ops.drop_last().drop_last() =~= Seq::<OpCode>::empty());
    let m1 = write_range(s.mem, dst as int, inp.subrange(var as int, var + len));
    assert(m1.subrange(dst as int, dst + len) =~= inp.subrange(var as int, var + len));
    let s1 = with_mem(s, m1);
    assert(run(s, ops.drop_last().drop_last(), inp) == Ok::<MachineState, Fault>(s));
    assert(run(s, ops.drop_last(), inp) == step(s, OpCode::LoadVarVec(var, dst, len), inp));
    assert(step(s, OpCode::LoadVarVec(var, dst, len), inp) == Ok::<MachineState, Fault>(s1));
    assert(run(s, ops, inp) == step(s1, OpCode::StoreVec(dst, out_id, len), inp));
}

/// A positive gradient with a non-negative first moment never raises a
/// weight in an AdamW step, and from a gradient of 10 (about 0.04) on it
/// lowers every weight above the minimum.
pub proof fn law_adamw_descends(w: i16, m: i16, g: i16)
    requires
        g > 0,
        m >= 0,
    ensures
        adamw_w(w, m, g) <= w,
        g >= 10 && w > i16::MIN ==> adamw_w(w, m, g) < w,
{
}

/// The AdamW step on disjoint weight, gradient and moment ranges: a
/// positive gradient and a non-negative first moment never raise the weight.
pub proof fn law_adamw_step_descends(s: MachineState, inp: Seq<i16>, w: u32, g: u32, m: u32, v: u32, len: u32, i: int)
    requires
        in_range(w as int, len as int, s.mem.len() as int),
        in_range(g as int, len as int, s.mem.len() as int),
        in_range(m as int, len as int, s.mem.len() as int),
        in_range(v as int, len as int, s.mem.len() as int),
        w + len <= m || m + len <= w,
        w + len <= v || v + len <= w,
        0 <= i < len,
        s.mem[g + i] > 0,
        s.mem[m + i] >= 0,
    ensures
        step(s, OpCode::AdamWStep(w, g, m, v, len), inp) matches Ok(t) && t.mem[w + i] <= s.mem[w + i],
{
    reveal(step);
    law_adamw_descends(s.mem[w + i], s.mem[m + i], s.mem[g + i]);
}

/// Sizing the buffers a second time changes nothing.
pub proof fn law_prepare_idempotent(s: MachineState, ops: Seq<OpCode>, size: nat)
    ensures
        prepared(prepared(s, ops, size), ops, size) == prepared(s, ops, size),
{
}

/// Sizing never shrinks a buffer and never changes what it holds.
pub proof fn law_prepare_keeps_contents(s: MachineState, ops: Seq<OpCode>, size: nat)
    ensures
        prepared(s, ops, size).mem.len() >= size,
        prepared(s, ops, size).mem.subrange(0, s.mem.len() as int) == s.mem,
        prepared(s, ops, size).mem8.subrange(0, s.mem8.len() as int) == s.mem8,
        prepared(s, ops, size).mem32.subrange(0, s.mem32.len() as int) == s.mem32,
        prepared(s, ops, size).scales.subrange(0, s.scales.len() as int) == s.scales,
        prepared(s, ops, size).out == s.out,
{
    let p = prepared(s, ops, size);
    assert(p.mem.subrange(0, s.mem.len() as int) =~= s.mem);
    assert(p.mem8.subrange(0, s.mem8.len() as int) =~= s.mem8);
    assert(p.mem32.subrange(0, s.mem32.len() as int) =~= s.mem32);
    assert(p.scales.subrange(0, s.scales.len() as int) =~= s.scales);
}

// ---------------------------------------------------------------------------
// Memory planning and execution
// ---------------------------------------------------------------------------

/// The planned size covers every extent the planner sizes for, and is the
/// largest of them (or 0).
pub proof fn law_planned_size_is_max(ops: Seq<OpCode>)
    ensures
        forall|k: int| 0 <= k < ops.len() ==> #[trigger] plan_extent(ops[k]) <= planned_size(ops),
        planned_size(ops) == 0 || exists|k: int| 0 <= k < ops.len() && planned_size(ops) == #[trigger] plan_extent(ops[k]),
    decreases ops.len(),
{
    if ops.len() > 0 {
        law_planned_size_is_max(ops.drop_last());
        assert forall|k: int| 0 <= k < ops.len() implies #[trigger] plan_extent(ops[k]) <= planned_size(ops) by {
            if k < ops.len() - 1 {
                assert(ops.drop_last()[k] == ops[k]);
            }
        }
        if planned_size(ops) != 0 {
            if planned_size(ops) == plan_extent(ops.last()) {
                assert(plan_extent(ops[ops.len() - 1]) == planned_size(ops));
            } else {
                let k = choose|k: int| 0 <= k < ops.drop_last().len() && planned_size(ops.drop_last()) == #[trigger] plan_extent(ops.drop_last()[k]);
                assert(ops.drop_last()[k] == ops[k]);
            }
        }
    }
}

/// In a graph whose memory size is planned, every scratchpad range an
/// instruction reads or writes (up to its `plan_extent`) lies inside the
/// scratchpad that `execute` prepares; in particular the vector ranges.
pub proof fn law_planned_ranges_fit(s: MachineState, ops: Seq<OpCode>, k: int)
    requires
        0 <= k < ops.len(),
    ensures
        plan_extent(ops[k]) <= prepared(s, ops, planned_size(ops) as nat).mem.len(),
        ({
            let n = prepared(s, ops, planned_size(ops) as nat).mem.len() as int;
            match ops[k] {
                OpCode::LoadVarVec(_, dst, len) => in_range(dst as int, len as int, n),
                OpCode::StoreVec(src, _, len) => in_range(src as int, len as int, n),
                OpCode::AddVec(l, r, d, len) | OpCode::MulVec(l, r, d, len) => in_range(l as int, len as int, n)
                    && in_range(r as int, len as int, n) && in_range(d as int, len as int, n),
                OpCode::AddScalarVec(l, _, d, len) | OpCode::MulScalarVec(l, _, d, len) => in_range(
                    l as int,
                    len as int,
                    n,
                ) && in_range(d as int, len as int, n),
                _ => true,
            }
        }),
{
    law_planned_size_is_max(ops);
    assert(plan_extent(ops[k]) <= planned_size(ops));
    law_prepare_keeps_contents(s, ops, planned_size(ops) as nat);
}

// ---------------------------------------------------------------------------
// Loop fusion
// ---------------------------------------------------------------------------

/// Stage 1 keeps every instruction that is not a fusable vector instruction,
/// in order, as a raw instruction (and nothing else is raw).
pub proof fn law_fuse_keeps_other_instructions(instrs: Seq<Instruction>)
    ensures
        raw_ops(fuse_from(ops_of(instrs), 0)) == non_vector_from(ops_of(instrs), 0),
{
    lemma_fuse_from_raw(ops_of(instrs), 0);
}

/// Every loop stage 1 builds reads only registers written before and
/// writes each register once.
pub proof fn law_fused_loops_well_formed(instrs: Seq<Instruction>)
    requires
        instrs.len() <= usize::MAX / 8,
    ensures
        loops_well_formed(fuse_from(ops_of(instrs), 0)),
{
    lemma_fuse_from_well_formed(ops_of(instrs), 0);
}

/// Every loop stage 1 builds loads each scratchpad offset at most once: a
/// later read of an offset uses the register that already holds it.
pub proof fn law_fused_loops_load_each_offset_once(instrs: Seq<Instruction>)
    ensures
        loops_load_once(fuse_from(ops_of(instrs), 0)),
{
    lemma_fuse_from_loads(ops_of(instrs), 0);
}

/// Stage 2 keeps every raw instruction, in order: the scalar instructions
/// between merged loops follow the merged loop.
pub proof fn law_fuse_kernels_keeps_raw_instructions(ins: Seq<OptView>)
    ensures
        raw_ops(fuse_kernels_from(ins, 0)) == raw_ops(ins),
{
    lemma_fuse_kernels_from_raw(ins, 0);
    assert(ins.subrange(0, ins.len() as int) =~= ins);
}

/// Memory promotion drops a reload: a load of an offset that an earlier
/// load or store of the loop used, with no copy to that offset between them
/// and no register updated in place after the earlier one, adds no
/// operation (its uses go to the register that holds the offset).
pub proof fn law_promote_drops_reloads(all: Seq<FusedOp>, i: int, j: int, a: u32)
    requires
        0 <= i < j < all.len(),
        (all[i] matches FusedOp::Load(x, _) && x == a) || (all[i] matches FusedOp::Store(_, y) && y == a),
        all[j] matches FusedOp::Load(x, _) && x == a,
        forall|u: int| i < u < all.len() ==> !(#[trigger] all[u] is AdamWStep),
        forall|u: int| i < u < j ==> !(#[trigger] all[u] matches FusedOp::Copy(_, y) && y == a),
    ensures
        promote_prefix(all, (j + 1) as nat).out == promote_prefix(all, j as nat).out,
{
    lemma_promote_holds(all, i, a, j);
    lemma_promote_holds(all, i, a, j + 1);
}

/// Memory promotion keeps every loop well formed.
pub proof fn law_promote_keeps_loops_well_formed(ins: Seq<OptView>)
    requires
        loops_well_formed(ins),
    ensures
        loops_well_formed(promote_all(ins)),
{
    lemma_promote_all_wf(ins);
}

/// Stage 2 keeps loops well formed: merged loops still read only registers
/// written before and write each register once.
pub proof fn law_fuse_kernels_keeps_loops_well_formed(ins: Seq<OptView>)
    requires
        loops_well_formed(ins),
        span_sum(ins, 0, ins.len() as int) <= usize::MAX,
    ensures
        loops_well_formed(fuse_kernels_from(ins, 0)),
{
    lemma_fuse_kernels_from_wf(ins, 0);
}

/// For any program of at most `usize::MAX / 8` instructions, stage 2 can run
/// on the output of stage 1, and every loop after both stages is well formed.
pub proof fn law_fusion_pipeline_well_formed(instrs: Seq<Instruction>)
    requires
        instrs.len() <= usize::MAX / 8,
    ensures
        span_sum(fuse_from(ops_of(instrs), 0), 0, fuse_from(ops_of(instrs), 0).len() as int) <= usize::MAX,
        loops_well_formed(fuse_kernels_from(fuse_from(ops_of(instrs), 0), 0)),
{
    let ops = ops_of(instrs);
    lemma_fuse_from_span(ops, 0);
    lemma_fuse_from_well_formed(ops, 0);
    lemma_fuse_kernels_from_wf(fuse_from(ops, 0), 0);
}

// ---------------------------------------------------------------------------
// Engine parameters
// ---------------------------------------------------------------------------

/// Setting a parameter acts as a map update: afterwards `id` holds `data`,
/// every other id holds what it held, and the ids still increase.
pub proof fn law_set_parameter_updates(ps: Seq<(u32, Seq<i16>)>, id: u32, data: Seq<i16>)
    requires
        keys_increasing(ps),
    ensures
        keys_increasing(set_param(ps, id, data)),
        param_lookup(set_param(ps, id, data), id) == Some(data),
        forall|k: u32| k != id ==> #[trigger] param_lookup(set_param(ps, id, data), k) == param_lookup(ps, k),
{
    lemma_rank_splits(ps, id);
    let p = key_rank(ps, id);
    lemma_set_param_increasing(ps, id, data, p);
    let q = set_param(ps, id, data);
    if p < ps.len() && ps[p].0 == id {
        lemma_lookup_at(q, p);
        assert forall|k: u32| k != id implies #[trigger] param_lookup(q, k) == param_lookup(ps, k) by {
            if exists|i: int| 0 <= i < ps.len() && #[trigger] ps[i].0 == k {
                let i = choose|i: int| 0 <= i < ps.len() && #[trigger] ps[i].0 == k;
                lemma_lookup_at(ps, i);
                assert(q[i] == ps[i]);
                lemma_lookup_at(q, i);
            } else {
                lemma_lookup_absent(ps, k);
                assert forall|i: int| 0 <= i < q.len() implies #[trigger] q[i].0 != k by {
                    if i != p {
                        assert(q[i] == ps[i]);
                    }
                }
                lemma_lookup_absent(q, k);
            }
        }
    } else {
        lemma_lookup_at(q, p);
        assert forall|k: u32| k != id implies #[trigger] param_lookup(q, k) == param_lookup(ps, k) by {
            if exists|i: int| 0 <= i < ps.len() && #[trigger] ps[i].0 == k {
                let i = choose|i: int| 0 <= i < ps.len() && #[trigger] ps[i].0 == k;
                lemma_lookup_at(ps, i);
                if i < p {
                    assert(q[i] == ps[i]);
                    lemma_lookup_at(q, i);
                } else {
                    assert(q[i + 1] == ps[i]);
                    lemma_lookup_at(q, i + 1);
                }
            } else {
                lemma_lookup_absent(ps, k);
                assert forall|i: int| 0 <= i < q.len() implies #[trigger] q[i].0 != k by {
                    if i < p {
                        assert(q[i] == ps[i]);
                    } else if i > p {
                        assert(q[i] == ps[i - 1]);
                    }
                }
                lemma_lookup_absent(q, k);
            }
        }
    }
}

/// The JIT kernel of a graph computes, on the scratchpad and the outputs,
/// what the interpreter computes wherever the interpreter succeeds, for a
/// graph whose instructions other than vector ones have loop kernels that
/// read their operands before writing over them, whose stretches that
/// stage 2 merges into one loop (vector instructions of one length, with
/// scalar sums and products between them) use ranges that are equal or do
/// not overlap, and whose scalar sums and products that stage 2 moves after
/// a merged loop touch no element of the vector instructions they are moved
/// past.
pub proof fn law_jit_kernel_matches_interpreter(graph: XimGraph, s: MachineState, inp: Seq<i16>)
    requires
        raws_ready_from(graph.ops(), 0),
        windows_separated(graph.ops()),
        crossings_clear(graph.ops()),
        graph.ops().len() <= usize::MAX / 8,
        run(s, graph.ops(), inp) is Ok,
    ensures
        run_code(kernel_ir(jit_program(graph)), kernel_state(s), inp) == Some(
            kernel_state(run(s, graph.ops(), inp)->Ok_0),
        ),
{
    let ops = graph.ops();
    let f = fuse_from(ops, 0);
    let f2 = fuse_kernels_from(f, 0);
    assert(ops.subrange(0, ops.len() as int) =~= ops);
    lemma_stage2_runs(ops, 0, s, inp);
    lemma_fused_kernel(f2, s, inp);
    lemma_fuse_from_well_formed(ops, 0);
    lemma_fuse_from_span(ops, 0);
    lemma_fuse_kernels_from_wf(f, 0);
    assert forall|k: int| 0 <= k < f2.len() implies (#[trigger] f2[k] matches OptView::Fused(o, _) ==> regs_ssa(o)) by {}
    lemma_promote_program(f2, kernel_state(s), inp);
}

/// Stage 2 moves the registers of each loop it absorbs up by one more than
/// the highest register the loop so far writes.  In a loop that reads only
/// registers written before, every register named is at most that highest
/// one, so every register the absorbed loop reads or writes lies above
/// every register of the loop that absorbs it.
pub proof fn law_absorbed_loop_registers_above(acc: Seq<FusedOp>, next: Seq<FusedOp>)
    requires
        regs_wf(acc),
        max_reg_all(next) + reg_top(acc) + 1 <= usize::MAX,
    ensures
        regs_below(acc, reg_top(acc) as int),
        forall|k: int, r: usize|
            0 <= k < next.len() && #[trigger] op_uses(shift_ops(next, reg_top(acc) + 1int)[k], r) ==> reg_top(acc) < r,
        forall|k: int, r: usize|
            0 <= k < next.len() && #[trigger] op_defines(shift_ops(next, reg_top(acc) + 1int)[k], r) ==> reg_top(acc)
                < r,
{
    lemma_wf_regs_below(acc);
    lemma_max_reg_all_bounds(next);
    let o = reg_top(acc) + 1int;
    assert forall|k: int, r: usize|
        0 <= k < next.len() && #[trigger] op_uses(shift_ops(next, o)[k], r) implies reg_top(acc) < r by {
        assert(shift_ops(next, o)[k] == shift_op(next[k], o));
        assert(op_max_reg(next[k]) <= max_reg_all(next));
    }
    assert forall|k: int, r: usize|
        0 <= k < next.len() && #[trigger] op_defines(shift_ops(next, o)[k], r) implies reg_top(acc) < r by {
        assert(shift_ops(next, o)[k] == shift_op(next[k], o));
        assert(op_max_reg(next[k]) <= max_reg_all(next));
    }
}

/// Stage 2 keeps the meaning of the program stage 1 builds: run with its
/// raw instructions as the interpreter runs them and its loops as their
/// kernel loops, the program after both stages computes what the
/// interpreter computes wherever the interpreter succeeds, for every graph
/// whose stretches that stage 2 merges into one loop use ranges that are
/// equal or do not overlap, and whose scalar sums and products that stage 2
/// moves after a merged loop touch no element of the vector instructions
/// they are moved past.
pub proof fn law_stage2_program_matches_interpreter(ops: Seq<OpCode>, s: MachineState, inp: Seq<i16>)
    requires
        windows_separated(ops),
        crossings_clear(ops),
        ops.len() <= usize::MAX / 8,
        run(s, ops, inp) is Ok,
    ensures
        run_fused(s, fuse_kernels_from(fuse_from(ops, 0), 0), inp) == run(s, ops, inp),
{
    assert(ops.subrange(0, ops.len() as int) =~= ops);
    lemma_stage2_runs(ops, 0, s, inp);
}

/// The program stage 1 builds keeps the meaning of the graph: run with its
/// raw instructions as the interpreter runs them and its fused loops as
/// their kernel loops, it computes what the interpreter computes wherever
/// the interpreter succeeds, for every graph whose runs of vector
/// instructions (sums, products, AdamW steps) use ranges that are equal or
/// do not overlap.
pub proof fn law_stage1_program_matches_interpreter(ops: Seq<OpCode>, s: MachineState, inp: Seq<i16>)
    requires
        runs_separated(ops),
        4 * ops.len() <= usize::MAX,
        run(s, ops, inp) is Ok,
    ensures
        run_fused(s, fuse_from(ops, 0), inp) == run(s, ops, inp),
{
    assert(ops.subrange(0, ops.len() as int) =~= ops);
    lemma_stage1_runs(ops, 0, s, inp);
}

/// A successful run keeps the length of the scratchpad and changes the
/// outputs only where one of its stores writes.
pub proof fn law_run_changes_only_stored_outputs(s: MachineState, ops: Seq<OpCode>, inp: Seq<i16>)
    ensures
        run(s, ops, inp) matches Ok(t) ==> {
            &&& t.mem.len() == s.mem.len()
            &&& t.out.len() == s.out.len()
            &&& forall|k: int|
                0 <= k < s.out.len() && (forall|j: int| 0 <= j < ops.len() ==> !writes_output(#[trigger] ops[j], k))
                    ==> t.out[k] == s.out[k]
        },
{
    lemma_run_frame(s, ops, inp);
    crate::machine::lemma_run_out_len(s, ops, inp);
}

/// Executing a graph grows the scratchpad to the graph's memory size and
/// never shrinks it.
pub proof fn law_execute_grows_scratchpad(s: MachineState, ops: Seq<OpCode>, size: nat, inp: Seq<i16>)
    ensures
        run(prepared(s, ops, size), ops, inp) matches Ok(t) ==> t.mem.len() == if s.mem.len() < size {
            size as int
        } else {
            s.mem.len() as int
        },
{
    lemma_run_frame(prepared(s, ops, size), ops, inp);
}

/// An element-wise i16 instruction at any position of a successful run:
/// each of its `n` results is the operation on the elements of the
/// scratchpad as the instructions before it left it, and every other element
/// stays.
pub proof fn law_binary_vector_in_program(
    s: MachineState,
    ops: Seq<OpCode>,
    inp: Seq<i16>,
    j: int,
    l: u32,
    r: u32,
    d: u32,
    n: u32,
    kind: BinKind,
)
    requires
        0 <= j < ops.len(),
        ops[j] == OpCode::AddVec(l, r, d, n) && kind == BinKind::Add || ops[j] == OpCode::GradAdd(l, r, d, n) && kind
            == BinKind::Add || ops[j] == OpCode::MulVec(l, r, d, n) && kind == BinKind::Mul || ops[j]
            == OpCode::GradMul(l, r, d, n) && kind == BinKind::Mul,
        run(s, ops.take(j + 1), inp) is Ok,
    ensures
        run(s, ops.take(j), inp) is Ok,
        ({
            let t = run(s, ops.take(j), inp)->Ok_0;
            let u = run(s, ops.take(j + 1), inp)->Ok_0;
            &&& u.mem.len() == t.mem.len()
            &&& forall|k: int| 0 <= k < n ==> u.mem[d + k] == bin16(kind, #[trigger] t.mem[l + k], t.mem[r + k])
            &&& forall|p: int| 0 <= p < t.mem.len() && !(d <= p < d + n) ==> u.mem[p] == #[trigger] t.mem[p]
        }),
{
    reveal(step);
    assert(ops.take(j + 1).drop_last() =~= ops.take(j));
    assert(ops.take(j + 1).last() == ops[j]);
}

/// An element-wise i16 instruction with a scalar at any position of a
/// successful run: each of its `n` results is the operation on an element
/// of the scratchpad as the instructions before it left it and the scalar,
/// and every other element stays.
pub proof fn law_scalar_vector_in_program(
    s: MachineState,
    ops: Seq<OpCode>,
    inp: Seq<i16>,
    j: int,
    l: u32,
    val: i16,
    d: u32,
    n: u32,
    kind: BinKind,
)
    requires
        0 <= j < ops.len(),
        ops[j] == OpCode::AddScalarVec(l, val, d, n) && kind == BinKind::Add || ops[j] == OpCode::MulScalarVec(
            l,
            val,
            d,
            n,
        ) && kind == BinKind::Mul,
        run(s, ops.take(j + 1), inp) is Ok,
    ensures
        run(s, ops.take(j), inp) is Ok,
        ({
            let t = run(s, ops.take(j), inp)->Ok_0;
            let u = run(s, ops.take(j + 1), inp)->Ok_0;
            &&& u.mem.len() == t.mem.len()
            &&& forall|k: int| 0 <= k < n ==> u.mem[d + k] == bin16(kind, #[trigger] t.mem[l + k], val)
            &&& forall|p: int| 0 <= p < t.mem.len() && !(d <= p < d + n) ==> u.mem[p] == #[trigger] t.mem[p]
        }),
{
    reveal(step);
    assert(ops.take(j + 1).drop_last() =~= ops.take(j));
    assert(ops.take(j + 1).last() == ops[j]);
}

/// Stage 1 keeps the meaning of the instructions it fuses: for a group of
/// vector instructions of one length `n` (sums and products of two ranges or
/// of a range and a scalar, AdamW steps) whose ranges are equal or do not
/// overlap, the kernel of the loop stage 1 builds computes, on the scratchpad
/// and the outputs, what the interpreter computes running the group one
/// instruction after another.
pub proof fn law_fused_loop_matches_interpreter(g: Seq<OpCode>, n: u32, s: MachineState, inp: Seq<i16>)
    requires
        group_of_len(g, n),
        separated(g, n),
        4 * g.len() <= usize::MAX,
        run(s, g, inp) is Ok,
    ensures
        run_code(fused_loop_ir(compile_group(g).ops, n), kernel_state(s), inp) == Some(
            kernel_state(run(s, g, inp)->Ok_0),
        ),
{
    lemma_fused_loop_matches(g, n, s, inp);
}

/// Memory promotion (stage 3) keeps the meaning of every program whose
/// loops are well formed: wherever the program's kernel runs, the kernel of
/// the promoted program runs too and leaves the same scratchpad and outputs.
pub proof fn law_promotion_keeps_meaning(ins: Seq<OptView>, s: KernelState, inp: Seq<i16>)
    requires
        loops_well_formed(ins),
        run_code(kernel_ir(ins), s, inp) is Some,
    ensures
        run_code(kernel_ir(promote_all(ins)), s, inp) == run_code(kernel_ir(ins), s, inp),
{
    assert forall|k: int| 0 <= k < ins.len() implies (#[trigger] ins[k] matches OptView::Fused(ops, _) ==> regs_ssa(ops)) by {}
    lemma_promote_program(ins, s, inp);
}

/// A xorshift32 generator never reaches the zero state: from any seed,
/// every state it passes through (each the xorshift step of the one
/// before) is nonzero.
pub proof fn law_xorshift_never_zero(seed: u32, n: nat)
    ensures
        xorshift32_iter(seed_state(seed), n) != 0,
    decreases n,
{
    if n > 0 {
        law_xorshift_never_zero(seed, (n - 1) as nat);
        lemma_xorshift32_step_nonzero(xorshift32_iter(seed_state(seed), (n - 1) as nat));
    }
}

/// Generators, and so stochastic quantizers, made from equal seeds, or from
/// seeds 0 and 1, pass through the same states: they draw the same samples.
pub proof fn law_equal_seeds_draw_alike(s1: u32, s2: u32, n: nat)
    requires
        s1 == s2 || (s1 == 0 && s2 == 1) || (s1 == 1 && s2 == 0),
    ensures
        xorshift32_iter(seed_state(s1), n) == xorshift32_iter(seed_state(s2), n),
{
}

/// Stage 2 run on its own result changes nothing.
pub proof fn law_fuse_kernels_idempotent(ins: Seq<OptView>)
    ensures
        fuse_kernels_from(fuse_kernels_from(ins, 0), 0) == fuse_kernels_from(ins, 0),
{
    lemma_fuse_kernels_idempotent(ins, 0);
}

/// Memory promotion (stage 3) run on its own result changes nothing.
pub proof fn law_promotion_idempotent(ins: Seq<OptView>)
    ensures
        promote_all(promote_all(ins)) == promote_all(ins),
{
    assert forall|k: int| 0 <= k < ins.len() implies #[trigger] promote_all(promote_all(ins))[k] == promote_all(ins)[k] by {
        if let OptView::Fused(ops, len) = ins[k] {
            lemma_promote_idempotent(ops);
        }
    }
    assert(promote_all(promote_all(ins)) =~= promote_all(ins));
}

/// Stage 2 loses and repeats no fused operation: the loops of its result
/// hold as many operations as the loops it was given.
pub proof fn law_fuse_kernels_keeps_every_operation(ins: Seq<OptView>)
    ensures
        fused_count(fuse_kernels_from(ins, 0), 0, fuse_kernels_from(ins, 0).len() as int) == fused_count(
            ins,
            0,
            ins.len() as int,
        ),
{
    lemma_fuse_kernels_count(ins, 0);
}

// ---------------------------------------------------------------------------
// The arithmetic of single instructions, stated by its bounds
// ---------------------------------------------------------------------------

/// The AOT kernel of a graph whose only instruction is a vector load is one
/// block copy whose source is the input buffer at `var_id` and whose
/// destination is the scratchpad at `dst`, over `len` elements, as the
/// interpreter's vector load reads `inputs[var_id..]` into `mem[dst..]`.
pub proof fn law_aot_vector_load_copies_inputs(var_id: u32, dst: u32, len: u32)
    ensures
        kernel_source(fuse_from(seq![OpCode::LoadVarVec(var_id, dst, len)], 0)) == KERNEL_HEADER@
            + "\n    // LoadVarVec\n    std::ptr::copy_nonoverlapping((inputs_usize as *const i16).add("@ + decimal(
            var_id as nat,
        ) + "), (mem_usize as *mut i16).add("@ + decimal(dst as nat) + "), "@ + decimal(len as nat) + ");\n"@
            + KERNEL_END@,
{
    let ops = seq![OpCode::LoadVarVec(var_id, dst, len)];
    let x = OptView::Raw(OpCode::LoadVarVec(var_id, dst, len));
    assert(fuse_from(ops, 1) =~= Seq::<OptView>::empty());
    assert(fuse_from(ops, 0) =~= seq![x]);
    assert(seq![x].drop_last() =~= Seq::<OptView>::empty());
    assert(seq![x].last() == x);
    assert(body_text(Seq::<OptView>::empty()) == Seq::<char>::empty());
    assert(body_text(seq![x]) =~= raw_text(OpCode::LoadVarVec(var_id, dst, len)));
}

/// The AOT kernel of a graph whose only instruction is a vector store is one
/// block copy whose source is the scratchpad at `src` and whose destination
/// is the output buffer at `out_id`, over `len` elements, as the
/// interpreter's vector store writes `mem[src..]` into `outputs[out_id..]`.
pub proof fn law_aot_vector_store_copies_to_outputs(src: u32, out_id: u32, len: u32)
    ensures
        kernel_source(fuse_from(seq![OpCode::StoreVec(src, out_id, len)], 0)) == KERNEL_HEADER@
            + "\n    // StoreVec\n    std::ptr::copy_nonoverlapping((mem_usize as *const i16).add("@ + decimal(src as nat)
            + "), (outputs_usize as *mut i16).add("@ + decimal(out_id as nat) + "), "@ + decimal(len as nat)
            + ");\n"@ + KERNEL_END@,
{
    let ops = seq![OpCode::StoreVec(src, out_id, len)];
    let x = OptView::Raw(OpCode::StoreVec(src, out_id, len));
    assert(fuse_from(ops, 1) =~= Seq::<OptView>::empty());
    assert(fuse_from(ops, 0) =~= seq![x]);
    assert(seq![x].drop_last() =~= Seq::<OptView>::empty());
    assert(seq![x].last() == x);
    assert(body_text(Seq::<OptView>::empty()) == Seq::<char>::empty());
    assert(body_text(seq![x]) =~= raw_text(OpCode::StoreVec(src, out_id, len)));
}

/// A Q2.6 product of a vector product of i8 values (`MulVec8`, as run by
/// the interpreter and by `execute_i8`) is the product of the two elements
/// divided by 64, rounded down and saturated: above the range it is 127,
/// below it -128, and inside it the largest `q` with `64 * q <= a * b`.
pub proof fn law_q6_product_saturates(s: MachineState, inp: Seq<i16>, l: u32, r: u32, d: u32, len: u32, i: int)
    requires
        in_range(l as int, len as int, s.mem8.len() as int),
        in_range(r as int, len as int, s.mem8.len() as int),
        in_range(d as int, len as int, s.mem8.len() as int),
        0 <= i < len,
    ensures
        step(s, OpCode::MulVec8(l, r, d, len), inp) matches Ok(t) && {
            let p = s.mem8[l + i] * s.mem8[r + i];
            let q = t.mem8[d + i];
            &&& p >= 128 * 64 ==> q == 127
            &&& p < -128 * 64 ==> q == -128
            &&& -128 * 64 <= p < 128 * 64 ==> 64 * q <= p < 64 * q + 64
        },
        run_i8(s.mem8, seq![OpCode::MulVec8(l, r, d, len)]) == Ok::<Seq<i8>, Fault>(
            step(s, OpCode::MulVec8(l, r, d, len), inp)->Ok_0.mem8,
        ),
{
    reveal(step);
    let a = s.mem8[l + i];
    let b = s.mem8[r + i];
    assert(-128 * 128 <= a * b <= 128 * 128) by (nonlinear_arith)
        requires
            -128 <= a <= 127,
            -128 <= b <= 127,
    ;
    let one = seq![OpCode::MulVec8(l, r, d, len)];
    assert(one.drop_last() =~= Seq::<OpCode>::empty());
    assert(one.last() == OpCode::MulVec8(l, r, d, len));
    assert(run_i8(s.mem8, Seq::<OpCode>::empty()) == Ok::<Seq<i8>, Fault>(s.mem8));
}

/// The AIO step with i16 moments (`AIOStep` of precision other than 2) on
/// weight, moment and second-moment ranges that do not overlap: the new
/// first moment is the weighted average `(m * 230 + g * 26) >> 8` of the old
/// one and the gradient; where the weight does not saturate it moves down by
/// the new moment shifted right by 4; and the new second moment is
/// `(v * 255 + ((g * g) >> 8)) >> 8`, that is `(v * 65280 + g * g) >> 16`,
/// where that fits in 16 bits.
pub proof fn law_aio16_step_averages(
    s: MachineState,
    inp: Seq<i16>,
    w: u32,
    g: u32,
    m: u32,
    v: u32,
    len: u32,
    p: u8,
    i: int,
)
    requires
        p != 2,
        in_range(w as int, len as int, s.mem.len() as int),
        in_range(g as int, len as int, s.mem.len() as int),
        aio_moments_ok(m as int, v as int, len as int, s.mem.len() as int),
        w + len <= m || m + len <= w,
        w + len <= v || v + len <= w,
        0 <= i < len,
    ensures
        step(s, OpCode::AIOStep(w, g, m, v, len, p), inp) matches Ok(t) && {
            let (wo, go, mo, vo) = (s.mem[w + i], s.mem[g + i], s.mem[m + i], s.mem[v + i]);
            let (wn, mn, vn) = (t.mem[w + i], t.mem[m + i], t.mem[v + i]);
            &&& 256 * mn <= mo * 230 + go * 26 < 256 * mn + 256
            &&& i16::MIN < wn < i16::MAX ==> 16 * (wo - wn) <= mn < 16 * (wo - wn) + 16
            &&& vo * 65280 + go * go < 32768 * 65536 ==> 65536 * vn <= vo * 65280 + go * go < 65536 * vn + 65536
        },
{
    reveal(step);
    let (wo, go, mo, vo) = (s.mem[w + i], s.mem[g + i], s.mem[m + i], s.mem[v + i]);
    assert(0 <= go * go <= 32768 * 32768) by (nonlinear_arith)
        requires
            -32768 <= go <= 32767,
    ;
    let x = (mo * 230 + go * 26) / 256;
    assert(-32768 <= x <= 32767);
    assert(aio16_m(mo, go) == x);
    let y = (vo * 255 + (go * go) / 256) / 256;
    assert(y < 32768 ==> aio16_v(vo, go) == y);
}

/// The AdamW step (`AdamWStep`) on weight, moment and second-moment ranges
/// that do not overlap: the new first moment is the weighted average
/// `(m * 230 + g * 26) >> 8` of the old one and the gradient, and the new
/// second moment the weighted average `(v * 255 + ((g * g) >> 8)) >> 8`,
/// that is `(v * 65280 + g * g) >> 16`, of the old one and the squared
/// gradient, saturated at 32767.  Where the weight does not saturate it
/// moves down by the new first moment divided by 16, rounded away from zero
/// for a positive moment and down otherwise.
pub proof fn law_adamw_step_averages(s: MachineState, inp: Seq<i16>, w: u32, g: u32, m: u32, v: u32, len: u32, i: int)
    requires
        in_range(w as int, len as int, s.mem.len() as int),
        in_range(g as int, len as int, s.mem.len() as int),
        in_range(m as int, len as int, s.mem.len() as int),
        in_range(v as int, len as int, s.mem.len() as int),
        w + len <= m || m + len <= w,
        w + len <= v || v + len <= w,
        m + len <= v || v + len <= m,
        0 <= i < len,
    ensures
        step(s, OpCode::AdamWStep(w, g, m, v, len), inp) matches Ok(t) && {
            let (wo, go, mo, vo) = (s.mem[w + i], s.mem[g + i], s.mem[m + i], s.mem[v + i]);
            let (wn, mn, vn) = (t.mem[w + i], t.mem[m + i], t.mem[v + i]);
            &&& 256 * mn <= mo * 230 + go * 26 < 256 * mn + 256
            &&& i16::MIN < wn < i16::MAX && mn > 0 ==> 16 * (wo - wn) - 16 < mn <= 16 * (wo - wn)
            &&& i16::MIN < wn < i16::MAX && mn <= 0 ==> 16 * (wo - wn) <= mn < 16 * (wo - wn) + 16
            &&& vo * 65280 + go * go >= 32768 * 65536 ==> vn == 32767
            &&& vo * 65280 + go * go < 32768 * 65536 ==> 65536 * vn <= vo * 65280 + go * go < 65536 * vn + 65536
        },
{
    reveal(step);
    let (go, mo, vo) = (s.mem[g + i], s.mem[m + i], s.mem[v + i]);
    assert(0 <= go * go <= 32768 * 32768) by (nonlinear_arith)
        requires
            -32768 <= go <= 32767,
    ;
}

/// The AIO step on blocks with host gradients (`AIOStepBlock`, run by
/// `Executor::execute_block_step`) on weight, moment and second-moment
/// ranges that do not overlap: where it succeeds, the new first moment of
/// element `i` is the weighted average `(m * 230 + gr * 26) >> 8` of the old
/// one and the scaled gradient, saturated to 16 bits; where neither
/// saturates the weight moves down by the new moment shifted right by 4;
/// and the new second moment is `(v * 255 + ((gr * gr) >> 8)) >> 8`, that
/// is `(v * 65280 + gr * gr) >> 16`, saturated at 32767.
pub proof fn law_block_step_averages(s: MachineState, grads: Seq<i32>, w: u32, g: u32, m: u32, v: u32, sc: u32, len: u32, i: int)
    requires
        w + len <= m || m + len <= w,
        w + len <= v || v + len <= w,
        m + len <= v || v + len <= m,
        0 <= i < (len / 32) * 32,
    ensures
        step_block_host(s, OpCode::AIOStepBlock(w, g, m, v, sc, len), grads) matches Ok(t) ==> {
            let (wo, mo, vo, gr) = (s.mem[w + i], s.mem[m + i], s.mem[v + i], grads[i]);
            let (wn, mn, vn) = (t.mem[w + i], t.mem[m + i], t.mem[v + i]);
            let x = mo * 230 + gr * 26;
            let y = vo * 65280 + gr * gr;
            &&& y >= 32768 * 65536 ==> vn == 32767
            &&& y < 32768 * 65536 ==> 65536 * vn <= y < 65536 * vn + 65536
            &&& x >= 32768 * 256 ==> mn == 32767
            &&& x < -32768 * 256 ==> mn == -32768
            &&& -32768 * 256 <= x < 32768 * 256 ==> 256 * mn <= x < 256 * mn + 256
            &&& -32768 * 256 <= x < 32768 * 256 && i16::MIN < wn < i16::MAX ==> 16 * (wo - wn) <= mn < 16 * (wo
                - wn) + 16
        },
{
    let gr = grads[i];
    assert(0 <= gr * gr) by (nonlinear_arith);
}

} // verus!
