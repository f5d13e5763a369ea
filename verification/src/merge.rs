use vstd::prelude::*;
use crate::ir::OpCode;
use crate::kernels::{BinKind, bin16};
use crate::jit::{
    KernelOp, KernelState, kernel_op, body_op, run_body, run_code, fused_loop_ir, loop_ir, kernel_state,
    lemma_run_code_loop, kernel_ir, instr_ir, has_kernel_form, lemma_raw_shape, reads_first,
    lemma_raw_op_kernel, raw_shape, raw_op_ir,
};
use crate::machine::{MachineState, run, step, with_mem};
use crate::planner::{
    FusedOp, OptView, vec_len, compile_group, fuse_from, run_end, lemma_run_end, fuse_kernels_from, merge_from,
    raws_between, shift_ops, shift_op, reg_top, max_reg_all, op_max_reg, span_sum, span, op_reg, regs_below, regs_wf,
    op_uses, op_defines, defined, lemma_reg_top_le_max, lemma_max_reg_concat_shift, lemma_span_sum_split, lemma_fuse_from_span,
};
use crate::fusion::{
    elementwise, uses_offset, elem_run, kernel_body, group_of_len, separated, outside, fits_ranges, body_computes,
    run_fused, lemma_run_columns, lemma_elem_run_local, lemma_elem_run_len, lemma_group_computes, lemma_loop_matches,
    lemma_run_concat, lemma_run_single, lemma_run_fused_concat, lemma_run_fused_single, lemma_merge_from_suffix,
    lemma_raws_between_suffix, lemma_fuse_kernels_suffix,
};

verus! {

// Stage 2 merges the fused loops of one length that stand with only scalar
// sums and products between them, and moves those scalar instructions after
// the merged loop.  The merged loop runs, element by element, the
// instructions of every loop it absorbed.  That keeps the meaning of the
// program where the ranges of all these instructions are equal or apart, and
// where each scalar instruction that is moved touches no element of the
// loops it is moved past.

/// A sum or product of single cells.
pub open spec fn scalar_op(op: OpCode) -> bool {
    match op {
        OpCode::Add(..) | OpCode::Mul(..) => true,
        _ => false,
    }
}

/// Cell `p` is an operand or the destination of a scalar sum or product.
pub open spec fn scalar_cell(op: OpCode, p: int) -> bool {
    match op {
        OpCode::Add(l, r, d) | OpCode::Mul(l, r, d) => p == l || p == r || p == d,
        _ => false,
    }
}

/// An instruction that stage 2 takes into a loop of length `n` (a vector
/// instruction of that length) or moves past one (a scalar sum or product).
pub open spec fn mergeable(op: OpCode, n: u32) -> bool {
    vec_len(op) == Some(n) || scalar_op(op)
}

/// `ops[a..b]` starts with a vector instruction of length `n` and holds
/// only instructions that stage 2 takes into that loop or moves past it.
pub open spec fn merge_window(ops: Seq<OpCode>, a: int, b: int, n: u32) -> bool {
    &&& 0 <= a < b <= ops.len()
    &&& vec_len(ops[a]) == Some(n)
    &&& forall|k: int| a <= k < b ==> mergeable(#[trigger] ops[k], n)
}

/// Every stretch of instructions that stage 2 can merge into one loop uses
/// ranges that are equal or apart.
pub open spec fn windows_separated(ops: Seq<OpCode>) -> bool {
    forall|a: int, b: int, n: u32| #[trigger] merge_window(ops, a, b, n) ==> separated(ops.subrange(a, b), n)
}

/// Every scalar sum or product that stage 2 moves past loops touches no
/// element of a range of the vector instructions after it in its stretch.
pub open spec fn crossings_clear(ops: Seq<OpCode>) -> bool {
    forall|a: int, b: int, n: u32, k: int, p: int|
        #[trigger] merge_window(ops, a, b, n) && a < k < b && #[trigger] scalar_cell(ops[k], p) ==> outside(
            ops.subrange(k + 1, b),
            p,
            n,
        )
}

/// The vector instructions of `ops[a..b]`, in order.
pub open spec fn vec_part(ops: Seq<OpCode>, a: int, b: int) -> Seq<OpCode>
    decreases b - a,
{
    if b <= a {
        Seq::empty()
    } else {
        vec_part(ops, a, b - 1) + if vec_len(ops[b - 1]) is Some {
            seq![ops[b - 1]]
        } else {
            Seq::empty()
        }
    }
}

/// The other instructions of `ops[a..b]`, in order.
pub open spec fn scalar_part(ops: Seq<OpCode>, a: int, b: int) -> Seq<OpCode>
    decreases b - a,
{
    if b <= a {
        Seq::empty()
    } else {
        scalar_part(ops, a, b - 1) + if vec_len(ops[b - 1]) is None {
            seq![ops[b - 1]]
        } else {
            Seq::empty()
        }
    }
}

proof fn lemma_parts_split(ops: Seq<OpCode>, a: int, b: int, c: int)
    requires
        a <= b <= c,
    ensures
        vec_part(ops, a, c) == vec_part(ops, a, b) + vec_part(ops, b, c),
        scalar_part(ops, a, c) == scalar_part(ops, a, b) + scalar_part(ops, b, c),
    decreases c - b,
{
    if b < c {
        lemma_parts_split(ops, a, b, c - 1);
        assert(vec_part(ops, a, c) =~= vec_part(ops, a, b) + vec_part(ops, b, c));
        assert(scalar_part(ops, a, c) =~= scalar_part(ops, a, b) + scalar_part(ops, b, c));
    } else {
        assert(vec_part(ops, a, c) =~= vec_part(ops, a, b) + vec_part(ops, b, c));
        assert(scalar_part(ops, a, c) =~= scalar_part(ops, a, b) + scalar_part(ops, b, c));
    }
}

/// Where every instruction is a vector instruction, the vector part is all
/// of them.
proof fn lemma_parts_all_vec(ops: Seq<OpCode>, a: int, b: int)
    requires
        0 <= a <= b <= ops.len(),
        forall|k: int| a <= k < b ==> vec_len(#[trigger] ops[k]) is Some,
    ensures
        vec_part(ops, a, b) == ops.subrange(a, b),
        scalar_part(ops, a, b) == Seq::<OpCode>::empty(),
    decreases b - a,
{
    if a < b {
        lemma_parts_all_vec(ops, a, b - 1);
        assert(vec_len(ops[b - 1]) is Some);
        assert(ops.subrange(a, b) =~= ops.subrange(a, b - 1) + seq![ops[b - 1]]);
        assert(scalar_part(ops, a, b) =~= Seq::<OpCode>::empty());
    } else {
        assert(ops.subrange(a, b) =~= Seq::<OpCode>::empty());
    }
}

/// `x` is a vector instruction of `ops[a..b]`.
pub open spec fn vec_in(ops: Seq<OpCode>, a: int, b: int, x: OpCode) -> bool {
    exists|k: int| a <= k < b && #[trigger] ops[k] == x && vec_len(ops[k]) is Some
}

/// `x` is an instruction of `ops[a..b]` other than a vector instruction.
pub open spec fn scalar_in(ops: Seq<OpCode>, a: int, b: int, x: OpCode) -> bool {
    exists|k: int| a <= k < b && #[trigger] ops[k] == x && vec_len(ops[k]) is None
}

/// Each instruction of either part is an instruction of `ops[a..b]` of its
/// kind.
proof fn lemma_parts_from(ops: Seq<OpCode>, a: int, b: int)
    requires
        0 <= a <= b <= ops.len(),
    ensures
        forall|q: int| 0 <= q < vec_part(ops, a, b).len() ==> vec_in(ops, a, b, #[trigger] vec_part(ops, a, b)[q]),
        forall|q: int|
            0 <= q < scalar_part(ops, a, b).len() ==> scalar_in(ops, a, b, #[trigger] scalar_part(ops, a, b)[q]),
    decreases b - a,
{
    if a < b {
        lemma_parts_from(ops, a, b - 1);
        let v0 = vec_part(ops, a, b - 1);
        let s0 = scalar_part(ops, a, b - 1);
        let v = vec_part(ops, a, b);
        let s = scalar_part(ops, a, b);
        assert forall|q: int| 0 <= q < v.len() implies vec_in(ops, a, b, #[trigger] v[q]) by {
            if q < v0.len() {
                assert(v[q] == v0[q]);
                assert(vec_in(ops, a, b - 1, v0[q]));
                let k = choose|k: int| a <= k < b - 1 && #[trigger] ops[k] == v0[q] && vec_len(ops[k]) is Some;
                assert(a <= k < b && ops[k] == v[q] && vec_len(ops[k]) is Some);
            } else {
                assert(vec_len(ops[b - 1]) is Some);
                assert(a <= b - 1 < b && ops[b - 1] == v[q] && vec_len(ops[b - 1]) is Some);
            }
        }
        assert forall|q: int| 0 <= q < s.len() implies scalar_in(ops, a, b, #[trigger] s[q]) by {
            if q < s0.len() {
                assert(s[q] == s0[q]);
                assert(scalar_in(ops, a, b - 1, s0[q]));
                let k = choose|k: int| a <= k < b - 1 && #[trigger] ops[k] == s0[q] && vec_len(ops[k]) is None;
                assert(a <= k < b && ops[k] == s[q] && vec_len(ops[k]) is None);
            } else {
                assert(vec_len(ops[b - 1]) is None);
                assert(a <= b - 1 < b && ops[b - 1] == s[q] && vec_len(ops[b - 1]) is None);
            }
        }
    }
}

/// The vector part of a stretch stage 2 merges is a group of vector
/// instructions of its length whose ranges are equal or apart.
proof fn lemma_vec_part_group(ops: Seq<OpCode>, a: int, b: int, n: u32)
    requires
        merge_window(ops, a, b, n),
        windows_separated(ops),
    ensures
        group_of_len(vec_part(ops, a, b), n),
        separated(vec_part(ops, a, b), n),
{
    lemma_parts_from(ops, a, b);
    let v = vec_part(ops, a, b);
    let w = ops.subrange(a, b);
    assert(separated(w, n));
    assert forall|q: int| 0 <= q < v.len() implies elementwise(#[trigger] v[q]) && vec_len(v[q]) == Some(n) by {
        assert(vec_in(ops, a, b, v[q]));
        let k = choose|k: int| a <= k < b && #[trigger] ops[k] == v[q] && vec_len(ops[k]) is Some;
        assert(mergeable(ops[k], n));
        assert(vec_len(ops[k]) is Some ==> elementwise(ops[k]));
    }
    assert forall|q1: int, q2: int, x: u32, y: u32|
        0 <= q1 < v.len() && 0 <= q2 < v.len() && #[trigger] uses_offset(v[q1], x) && #[trigger] uses_offset(v[q2], y)
            implies x == y || x + n <= y || y + n <= x by {
        assert(vec_in(ops, a, b, v[q1]) && vec_in(ops, a, b, v[q2]));
        let k1 = choose|k: int| a <= k < b && #[trigger] ops[k] == v[q1] && vec_len(ops[k]) is Some;
        let k2 = choose|k: int| a <= k < b && #[trigger] ops[k] == v[q2] && vec_len(ops[k]) is Some;
        assert(w[k1 - a] == ops[k1]);
        assert(w[k2 - a] == ops[k2]);
        assert(uses_offset(w[k1 - a], x));
        assert(uses_offset(w[k2 - a], y));
    }
}

proof fn lemma_run_pair(t: MachineState, x: OpCode, y: OpCode, inp: Seq<i16>)
    ensures
        run(t, seq![x, y], inp) == match step(t, x, inp) {
            Ok(t1) => step(t1, y, inp),
            Err(f) => Err(f),
        },
{
    assert(seq![x, y].drop_last() =~= seq![x]);
    assert(seq![x, y].last() == y);
    lemma_run_single(t, x, inp);
}

/// A scalar sum or product and a vector instruction none of whose ranges
/// holds a cell of it give the same result in either order.
#[verifier::rlimit(60)]
proof fn lemma_commute_one(t: MachineState, c: OpCode, v: OpCode, n: u32, inp: Seq<i16>)
    requires
        scalar_op(c),
        group_of_len(seq![v], n),
        separated(seq![v], n),
        forall|p: int| #[trigger] scalar_cell(c, p) ==> outside(seq![v], p, n),
        run(t, seq![c, v], inp) is Ok,
    ensures
        run(t, seq![v, c], inp) == run(t, seq![c, v], inp),
{
    let g = seq![v];
    assert(g[0] == v);
    lemma_run_pair(t, c, v, inp);
    lemma_run_pair(t, v, c, inp);
    let (l, r, d, kind) = match c {
        OpCode::Add(l, r, d) => (l, r, d, BinKind::Add),
        OpCode::Mul(l, r, d) => (l, r, d, BinKind::Mul),
        _ => (0u32, 0u32, 0u32, BinKind::Add),
    };
    assert(scalar_cell(c, l as int) && scalar_cell(c, r as int) && scalar_cell(c, d as int));
    let t1 = step(t, c, inp)->Ok_0;
    assert(l < t.mem.len() && r < t.mem.len() && d < t.mem.len() && t1 == with_mem(
        t,
        t.mem.update(d as int, bin16(kind, t.mem[l as int], t.mem[r as int])),
    )) by {
        reveal(step);
    }
    lemma_run_single(t1, v, inp);
    lemma_run_columns(t1, g, n, inp);
    let u1 = step(t1, v, inp)->Ok_0;
    assert(step(t, v, inp) is Ok) by {
        reveal(step);
        assert(elementwise(g[0]) && vec_len(g[0]) == Some(n));
        match v {
            OpCode::AddVec(a, b, e, _) | OpCode::MulVec(a, b, e, _) => {
                assert(uses_offset(g[0], a) && uses_offset(g[0], b) && uses_offset(g[0], e));
            },
            OpCode::AddScalarVec(a, _, e, _) | OpCode::MulScalarVec(a, _, e, _) => {
                assert(uses_offset(g[0], a) && uses_offset(g[0], e));
            },
            OpCode::AdamWStep(w, gg, m, vv, _) => {
                assert(uses_offset(g[0], w) && uses_offset(g[0], gg) && uses_offset(g[0], m) && uses_offset(g[0], vv));
            },
            _ => {},
        }
    }
    lemma_run_single(t, v, inp);
    lemma_run_columns(t, g, n, inp);
    let t2 = step(t, v, inp)->Ok_0;
    assert(outside(g, l as int, n) && outside(g, r as int, n) && outside(g, d as int, n));
    assert(t2.mem[l as int] == t.mem[l as int]);
    assert(t2.mem[r as int] == t.mem[r as int]);
    assert(step(t2, c, inp) is Ok && step(t2, c, inp)->Ok_0 == with_mem(
        t2,
        t2.mem.update(d as int, bin16(kind, t2.mem[l as int], t2.mem[r as int])),
    )) by {
        reveal(step);
    }
    let u2 = step(t2, c, inp)->Ok_0;
    assert forall|p: int| 0 <= p < u1.mem.len() implies u1.mem[p] == u2.mem[p] by {
        if exists|x: u32| #[trigger] uses_offset(v, x) && x <= p < x + n {
            let x = choose|x: u32| #[trigger] uses_offset(v, x) && x <= p < x + n;
            let i = p - x;
            assert(uses_offset(g[0], x));
            assert forall|j: int, a: u32| 0 <= j < g.len() && #[trigger] uses_offset(g[j], a) implies a + i < t1.mem.len()
                && t1.mem[a + i] == t.mem[a + i] by {
                assert(j == 0);
                assert(!(a <= d < a + n));
            }
            lemma_elem_run_local(t1.mem, t.mem, g, i);
            assert(u1.mem[x + i] == elem_run(t1.mem, g, i)[x + i]);
            assert(t2.mem[x + i] == elem_run(t.mem, g, i)[x + i]);
            assert(p != d);
        } else {
            assert(outside(g, p, n));
        }
    }
    assert(u1.mem =~= u2.mem);
}

/// A vector instruction moves in front of scalar sums and products none of
/// whose cells lies in its ranges.
proof fn lemma_commute_scalars(t: MachineState, sc: Seq<OpCode>, v: OpCode, n: u32, inp: Seq<i16>)
    requires
        forall|q: int| 0 <= q < sc.len() ==> scalar_op(#[trigger] sc[q]),
        forall|q: int, p: int| 0 <= q < sc.len() && #[trigger] scalar_cell(sc[q], p) ==> outside(seq![v], p, n),
        group_of_len(seq![v], n),
        separated(seq![v], n),
        run(t, sc + seq![v], inp) is Ok,
    ensures
        run(t, seq![v] + sc, inp) == run(t, sc + seq![v], inp),
    decreases sc.len(),
{
    if sc.len() == 0 {
        assert(seq![v] + sc =~= sc + seq![v]);
        return;
    }
    let pre = sc.drop_last();
    let c = sc.last();
    assert(sc + seq![v] =~= pre + seq![c, v]);
    lemma_run_concat(t, pre, seq![c, v], inp);
    let t0 = run(t, pre, inp)->Ok_0;
    assert(scalar_op(sc[sc.len() - 1]));
    assert forall|p: int| #[trigger] scalar_cell(c, p) implies outside(seq![v], p, n) by {
        assert(scalar_cell(sc[sc.len() - 1], p));
    }
    lemma_commute_one(t0, c, v, n, inp);
    lemma_run_concat(t, pre, seq![v, c], inp);
    assert(seq![v] + seq![c] =~= seq![v, c]);
    lemma_run_concat(t0, seq![v], seq![c], inp);
    lemma_run_concat(t, pre, seq![v], inp);
    assert forall|q: int| 0 <= q < pre.len() implies scalar_op(#[trigger] pre[q]) by {
        assert(pre[q] == sc[q]);
    }
    assert forall|q: int, p: int| 0 <= q < pre.len() && #[trigger] scalar_cell(pre[q], p) implies outside(seq![v], p, n) by {
        assert(pre[q] == sc[q]);
    }
    lemma_commute_scalars(t, pre, v, n, inp);
    assert(seq![v] + sc =~= (seq![v] + pre) + seq![c]);
    assert(pre + seq![v, c] =~= (pre + seq![v]) + seq![c]);
    lemma_run_concat(t, seq![v] + pre, seq![c], inp);
    lemma_run_concat(t, pre + seq![v], seq![c], inp);
}

/// A stretch that stage 2 merges runs as its vector instructions followed by
/// its scalar ones.
proof fn lemma_window_reorder(ops: Seq<OpCode>, a: int, b: int, n: u32, s: MachineState, inp: Seq<i16>)
    requires
        merge_window(ops, a, b, n),
        windows_separated(ops),
        crossings_clear(ops),
        run(s, ops.subrange(a, b), inp) is Ok,
    ensures
        run(s, ops.subrange(a, b), inp) == run(s, vec_part(ops, a, b) + scalar_part(ops, a, b), inp),
    decreases b - a,
{
    if b == a + 1 {
        assert(vec_part(ops, a, a) =~= Seq::<OpCode>::empty());
        assert(scalar_part(ops, a, a) =~= Seq::<OpCode>::empty());
        assert(ops.subrange(a, b) =~= vec_part(ops, a, b) + scalar_part(ops, a, b));
        return;
    }
    let x = ops[b - 1];
    assert(merge_window(ops, a, b - 1, n));
    assert(ops.subrange(a, b) =~= ops.subrange(a, b - 1) + seq![x]);
    lemma_run_concat(s, ops.subrange(a, b - 1), seq![x], inp);
    lemma_window_reorder(ops, a, b - 1, n, s, inp);
    let v0 = vec_part(ops, a, b - 1);
    let s0 = scalar_part(ops, a, b - 1);
    lemma_run_concat(s, v0 + s0, seq![x], inp);
    if vec_len(x) is Some {
        assert(vec_part(ops, a, b) == v0 + seq![x]);
        assert(scalar_part(ops, a, b) =~= s0);
        assert(v0 + (s0 + seq![x]) =~= (v0 + s0) + seq![x]);
        lemma_run_concat(s, v0, s0 + seq![x], inp);
        lemma_run_concat(s, v0, s0, inp);
        let t = run(s, v0, inp)->Ok_0;
        lemma_parts_from(ops, a, b - 1);
        assert(mergeable(ops[b - 1], n));
        assert(group_of_len(seq![x], n)) by {
            assert(seq![x][0] == x);
            assert(vec_len(x) is Some ==> elementwise(x));
        }
        assert(separated(seq![x], n)) by {
            let w = ops.subrange(a, b);
            assert(separated(w, n));
            assert(w[b - 1 - a] == x);
            assert forall|j: int, k: int, p: u32, q: u32|
                0 <= j < 1 && 0 <= k < 1 && #[trigger] uses_offset(seq![x][j], p) && #[trigger] uses_offset(
                    seq![x][k],
                    q,
                ) implies p == q || p + n <= q || q + n <= p by {
                assert(seq![x][j] == w[b - 1 - a]);
                assert(seq![x][k] == w[b - 1 - a]);
            }
        }
        assert forall|q: int| 0 <= q < s0.len() implies scalar_op(#[trigger] s0[q]) by {
            assert(scalar_in(ops, a, b - 1, s0[q]));
            let k = choose|k: int| a <= k < b - 1 && #[trigger] ops[k] == s0[q] && vec_len(ops[k]) is None;
            assert(mergeable(ops[k], n));
        }
        assert forall|q: int, p: int| 0 <= q < s0.len() && #[trigger] scalar_cell(s0[q], p) implies outside(
            seq![x],
            p,
            n,
        ) by {
            assert(scalar_in(ops, a, b - 1, s0[q]));
            let k = choose|k: int| a <= k < b - 1 && #[trigger] ops[k] == s0[q] && vec_len(ops[k]) is None;
            assert(k != a);
            assert(scalar_cell(ops[k], p));
            let rest = ops.subrange(k + 1, b);
            assert(outside(rest, p, n));
            assert(rest[b - 1 - (k + 1)] == x);
            assert forall|j: int, o: u32| 0 <= j < 1 && #[trigger] uses_offset(seq![x][j], o) implies !(o <= p < o + n) by {
                assert(seq![x][j] == rest[b - 1 - (k + 1)]);
            }
        }
        lemma_commute_scalars(t, s0, x, n, inp);
        assert(v0 + (seq![x] + s0) =~= (v0 + seq![x]) + s0);
        lemma_run_concat(s, v0, seq![x] + s0, inp);
    } else {
        assert(vec_part(ops, a, b) =~= v0);
        assert(scalar_part(ops, a, b) == s0 + seq![x]);
        assert(v0 + (s0 + seq![x]) =~= (v0 + s0) + seq![x]);
    }
}

// ---------------------------------------------------------------------------
// A merged loop body
// ---------------------------------------------------------------------------

/// Each register of `r` stands, `o` higher, in `r2` with the same value.
pub open spec fn regs_shifted(r: Map<usize, i16>, r2: Map<usize, i16>, o: int) -> bool {
    forall|x: usize|
        #[trigger] r.contains_key(x) ==> x + o <= usize::MAX && r2.contains_key((x + o) as usize) && r2[(x + o) as usize]
            == r[x]
}

proof fn lemma_shifted_insert(r: Map<usize, i16>, r2: Map<usize, i16>, o: int, x: usize, val: i16)
    requires
        0 <= o,
        x + o <= usize::MAX,
        regs_shifted(r, r2, o),
    ensures
        regs_shifted(r.insert(x, val), r2.insert((x + o) as usize, val), o),
{
    let ra = r.insert(x, val);
    let rb = r2.insert((x + o) as usize, val);
    assert forall|y: usize| #[trigger] ra.contains_key(y) implies y + o <= usize::MAX && rb.contains_key((y + o) as usize)
        && rb[(y + o) as usize] == ra[y] by {
        if y != x {
            assert(r.contains_key(y));
            assert((y + o) as usize != (x + o) as usize);
        }
    }
}

/// One operation with its registers moved `o` higher does, on registers
/// that stand `o` higher, what the operation does.
proof fn lemma_shift_op_body(op: FusedOp, k: KernelState, r: Map<usize, i16>, r2: Map<usize, i16>, o: int, inp: Seq<i16>, i: int)
    requires
        0 <= o,
        op_max_reg(op) + o <= usize::MAX,
        regs_shifted(r, r2, o),
        body_op((k, r), kernel_op(op), inp, i) is Some,
    ensures
        body_op((k, r2), kernel_op(shift_op(op, o)), inp, i) matches Some(ys) && ys.0 == body_op(
            (k, r),
            kernel_op(op),
            inp,
            i,
        ).unwrap().0 && regs_shifted(body_op((k, r), kernel_op(op), inp, i).unwrap().1, ys.1, o),
{
    match op {
        FusedOp::Load(off, x) => {
            lemma_shifted_insert(r, r2, o, x, k.mem[off + i]);
        },
        FusedOp::LoadConst(v, x) => {
            lemma_shifted_insert(r, r2, o, x, v);
        },
        FusedOp::Store(x, off) => {
            assert(r.contains_key(x));
        },
        FusedOp::Add(a, b, d) => {
            assert(r.contains_key(a) && r.contains_key(b));
            lemma_shifted_insert(r, r2, o, d, bin16(BinKind::Add, r[a], r[b]));
        },
        FusedOp::Mul(a, b, d) => {
            assert(r.contains_key(a) && r.contains_key(b));
            lemma_shifted_insert(r, r2, o, d, bin16(BinKind::Mul, r[a], r[b]));
        },
        FusedOp::AdamWStep { w, g, m, v } => {
            assert(r.contains_key(w) && r.contains_key(g) && r.contains_key(m) && r.contains_key(v));
            let mv = crate::kernels::clamp_i16(crate::machine::adamw_m(r[m], r[g])) as i16;
            let vv = crate::kernels::clamp_i16(crate::machine::adamw_v(r[v], r[g])) as i16;
            let wv = crate::machine::adamw_w(r[w], r[m], r[g]);
            lemma_shifted_insert(r, r2, o, m, mv);
            lemma_shifted_insert(r.insert(m, mv), r2.insert((m + o) as usize, mv), o, v, vv);
            lemma_shifted_insert(
                r.insert(m, mv).insert(v, vv),
                r2.insert((m + o) as usize, mv).insert((v + o) as usize, vv),
                o,
                w,
                wv,
            );
        },
        FusedOp::Copy(_, _) => {},
    }
}

/// A loop body with its registers moved `o` higher runs, on registers that
/// stand `o` higher, as the body runs.
proof fn lemma_shift_body(b: Seq<FusedOp>, k: KernelState, r: Map<usize, i16>, r2: Map<usize, i16>, o: int, inp: Seq<i16>, i: int)
    requires
        0 <= o,
        max_reg_all(b) + o <= usize::MAX,
        regs_shifted(r, r2, o),
        run_body(kernel_body(b), (k, r), inp, i) is Some,
    ensures
        run_body(kernel_body(shift_ops(b, o)), (k, r2), inp, i) matches Some(ys) && ys.0 == run_body(
            kernel_body(b),
            (k, r),
            inp,
            i,
        ).unwrap().0 && regs_shifted(run_body(kernel_body(b), (k, r), inp, i).unwrap().1, ys.1, o),
    decreases b.len(),
{
    let kb = kernel_body(b);
    let sb = kernel_body(shift_ops(b, o));
    if b.len() == 0 {
        assert(kb =~= Seq::<KernelOp>::empty());
        assert(sb =~= Seq::<KernelOp>::empty());
        return;
    }
    let pre = b.drop_last();
    assert(kb.drop_last() =~= kernel_body(pre));
    assert(kb.last() == kernel_op(b.last()));
    assert(sb.drop_last() =~= kernel_body(shift_ops(pre, o)));
    assert(sb.last() == kernel_op(shift_op(b.last(), o)));
    assert(max_reg_all(pre) <= max_reg_all(b));
    assert(op_max_reg(b.last()) <= max_reg_all(b));
    lemma_shift_body(pre, k, r, r2, o, inp, i);
    let y = run_body(kernel_body(pre), (k, r), inp, i)->0;
    let ys = run_body(kernel_body(shift_ops(pre, o)), (k, r2), inp, i)->0;
    lemma_shift_op_body(b.last(), y.0, y.1, ys.1, o, inp, i);
}

/// A body made of two parts runs the first part, then the second.
pub proof fn lemma_run_body_concat(a: Seq<KernelOp>, b: Seq<KernelOp>, x: (KernelState, Map<usize, i16>), inp: Seq<i16>, i: int)
    ensures
        run_body(a + b, x, inp, i) == match run_body(a, x, inp, i) {
            Some(y) => run_body(b, y, inp, i),
            None => None,
        },
    decreases b.len(),
{
    if b.len() == 0 {
        assert(a + b =~= a);
    } else {
        lemma_run_body_concat(a, b.drop_last(), x, inp, i);
        assert((a + b).drop_last() =~= a + b.drop_last());
        assert((a + b).last() == b.last());
    }
}

/// Element `i` of two groups in a row is element `i` of the one, then of
/// the other.
pub proof fn lemma_elem_run_concat(mem: Seq<i16>, g1: Seq<OpCode>, g2: Seq<OpCode>, i: int)
    ensures
        elem_run(mem, g1 + g2, i) == elem_run(elem_run(mem, g1, i), g2, i),
    decreases g2.len(),
{
    if g2.len() == 0 {
        assert(g1 + g2 =~= g1);
    } else {
        lemma_elem_run_concat(mem, g1, g2.drop_last(), i);
        assert((g1 + g2).drop_last() =~= g1 + g2.drop_last());
        assert((g1 + g2).last() == g2.last());
    }
}

/// Appending a loop body, its registers moved above those of the first,
/// gives a body that computes the elements of both groups in turn.
proof fn lemma_merge_computes(acc: Seq<FusedOp>, c: Seq<FusedOp>, big: Seq<OpCode>, g: Seq<OpCode>, n: u32, inp: Seq<i16>)
    requires
        body_computes(kernel_body(acc), big, n, inp),
        body_computes(kernel_body(c), g, n, inp),
        max_reg_all(c) + reg_top(acc) + 1 <= usize::MAX,
    ensures
        body_computes(kernel_body(acc + shift_ops(c, reg_top(acc) + 1int)), big + g, n, inp),
{
    let o = reg_top(acc) + 1int;
    let sh = shift_ops(c, o);
    let body = kernel_body(acc + sh);
    assert(body =~= kernel_body(acc) + kernel_body(sh));
    assert forall|k: KernelState, i: int| 0 <= i < n && fits_ranges(big + g, n, k.mem.len()) implies (#[trigger] run_body(
        body,
        (k, Map::<usize, i16>::empty()),
        inp,
        i,
    ) matches Some(y) && y.0 == (KernelState { mem: elem_run(k.mem, big + g, i), out: k.out })) by {
        assert(fits_ranges(big, n, k.mem.len())) by {
            assert forall|j: int, a: u32| 0 <= j < big.len() && #[trigger] uses_offset(big[j], a) implies a + n
                <= k.mem.len() by {
                assert((big + g)[j] == big[j]);
            }
        }
        lemma_run_body_concat(kernel_body(acc), kernel_body(sh), (k, Map::<usize, i16>::empty()), inp, i);
        assert(run_body(kernel_body(acc), (k, Map::<usize, i16>::empty()), inp, i) matches Some(y) && y.0 == (
        KernelState { mem: elem_run(k.mem, big, i), out: k.out }));
        let yf = run_body(kernel_body(acc), (k, Map::<usize, i16>::empty()), inp, i)->0;
        let k1 = yf.0;
        lemma_elem_run_len(k.mem, big, i);
        assert(fits_ranges(g, n, k1.mem.len())) by {
            assert forall|j: int, a: u32| 0 <= j < g.len() && #[trigger] uses_offset(g[j], a) implies a + n
                <= k1.mem.len() by {
                assert((big + g)[big.len() + j] == g[j]);
            }
        }
        assert(run_body(kernel_body(c), (k1, Map::<usize, i16>::empty()), inp, i) matches Some(y) && y.0 == (
        KernelState { mem: elem_run(k1.mem, g, i), out: k1.out }));
        assert(regs_shifted(Map::<usize, i16>::empty(), yf.1, o));
        lemma_shift_body(c, k1, Map::<usize, i16>::empty(), yf.1, o, inp, i);
        assert(yf == (k1, yf.1));
        lemma_elem_run_concat(k.mem, big, g, i);
    }
}

// ---------------------------------------------------------------------------
// Stage 2 on the program stage 1 builds
// ---------------------------------------------------------------------------

/// Where the stretch of instructions that stage 2 takes into, or moves
/// past, a loop of length `n` ends, from position `j` on.
pub open spec fn merge_end(ops: Seq<OpCode>, j: int, n: u32) -> int
    decreases ops.len() - j,
{
    if 0 <= j < ops.len() && mergeable(ops[j], n) {
        merge_end(ops, j + 1, n)
    } else {
        j
    }
}

proof fn lemma_merge_end(ops: Seq<OpCode>, j: int, n: u32)
    requires
        0 <= j <= ops.len(),
    ensures
        j <= merge_end(ops, j, n) <= ops.len(),
        forall|k: int| j <= k < merge_end(ops, j, n) ==> mergeable(#[trigger] ops[k], n),
    decreases ops.len() - j,
{
    if j < ops.len() && mergeable(ops[j], n) {
        lemma_merge_end(ops, j + 1, n);
    }
}

proof fn lemma_merge_end_skip(ops: Seq<OpCode>, j: int, j2: int, n: u32)
    requires
        0 <= j <= j2 <= ops.len(),
        forall|k: int| j <= k < j2 ==> mergeable(#[trigger] ops[k], n),
    ensures
        merge_end(ops, j, n) == merge_end(ops, j2, n),
    decreases j2 - j,
{
    if j < j2 {
        assert(mergeable(ops[j], n));
        lemma_merge_end_skip(ops, j + 1, j2, n);
    }
}

/// Instructions, each as a raw instruction of a fused program.
pub open spec fn raw_views(ops: Seq<OpCode>) -> Seq<OptView> {
    ops.map_values(|op: OpCode| OptView::Raw(op))
}

proof fn lemma_span_sum_suffix(ins: Seq<OptView>, d: int, a: int, b: int)
    requires
        0 <= d <= a <= b <= ins.len(),
    ensures
        span_sum(ins, a, b) == span_sum(ins.subrange(d, ins.len() as int), a - d, b - d),
    decreases b - a,
{
    if a < b {
        lemma_span_sum_suffix(ins, d, a, b - 1);
        assert(ins.subrange(d, ins.len() as int)[b - 1 - d] == ins[b - 1]);
    }
}

proof fn lemma_raws_between_split(ins: Seq<OptView>, a: int, b: int, c: int)
    requires
        a <= b <= c,
    ensures
        raws_between(ins, a, c) == raws_between(ins, a, b) + raws_between(ins, b, c),
    decreases c - b,
{
    if b < c {
        lemma_raws_between_split(ins, a, b, c - 1);
        assert(raws_between(ins, a, c) =~= raws_between(ins, a, b) + raws_between(ins, b, c));
    } else {
        assert(raws_between(ins, a, c) =~= raws_between(ins, a, b) + raws_between(ins, b, c));
    }
}

/// The head of the program stage 1 builds from a vector instruction.
proof fn lemma_fuse_from_loop(ops: Seq<OpCode>, j: int, n: u32)
    requires
        0 <= j < ops.len(),
        vec_len(ops[j]) == Some(n),
    ensures
        j < run_end(ops, j, n) <= ops.len(),
        fuse_from(ops, j) == seq![OptView::Fused(compile_group(ops.subrange(j, run_end(ops, j, n))).ops, n)]
            + fuse_from(ops, run_end(ops, j, n)),
        group_of_len(ops.subrange(j, run_end(ops, j, n)), n),
        forall|k: int| j <= k < run_end(ops, j, n) ==> vec_len(#[trigger] ops[k]) == Some(n),
{
    lemma_run_end(ops, j, n);
    let g = ops.subrange(j, run_end(ops, j, n));
    assert forall|k: int| 0 <= k < g.len() implies elementwise(#[trigger] g[k]) && vec_len(g[k]) == Some(n) by {
        assert(g[k] == ops[j + k]);
        assert(vec_len(ops[j + k]) == Some(n));
        assert(vec_len(g[k]) is Some ==> elementwise(g[k]));
    }
}

/// Stage 2 walking from the start of the program stage 1 builds from
/// position `j` on, with the loop `acc` of length `n` so far: it stops at
/// the stage-1 program of the end of the stretch, passes over the stretch's
/// scalar instructions, and its loop computes the elements of the
/// stretch's vector instructions after those of `acc`.
#[verifier::rlimit(60)]
proof fn lemma_merge_walk(ops: Seq<OpCode>, j: int, n: u32, acc: Seq<FusedOp>, big: Seq<OpCode>, inp: Seq<i16>)
    requires
        0 <= j <= ops.len(),
        ops.len() <= usize::MAX / 8,
        body_computes(kernel_body(acc), big, n, inp),
        max_reg_all(acc) + span_sum(fuse_from(ops, j), 0, fuse_from(ops, j).len() as int) <= usize::MAX,
    ensures
        ({
            let y = fuse_from(ops, j);
            let stop = merge_from(y, 0, acc, n).1;
            let e = merge_end(ops, j, n);
            &&& 0 <= stop <= y.len()
            &&& y.subrange(stop, y.len() as int) == fuse_from(ops, e)
            &&& raws_between(y, 0, stop) == raw_views(scalar_part(ops, j, e))
            &&& body_computes(kernel_body(merge_from(y, 0, acc, n).0), big + vec_part(ops, j, e), n, inp)
        }),
    decreases ops.len() - j,
{
    let y = fuse_from(ops, j);
    lemma_merge_end(ops, j, n);
    let e = merge_end(ops, j, n);
    if j == ops.len() || !mergeable(ops[j], n) {
        assert(e == j);
        assert(vec_part(ops, j, j) =~= Seq::<OpCode>::empty());
        assert(big + vec_part(ops, j, j) =~= big);
        assert(scalar_part(ops, j, j) =~= Seq::<OpCode>::empty());
        assert(raw_views(scalar_part(ops, j, j)) =~= Seq::<OptView>::empty());
        if j < ops.len() {
            match vec_len(ops[j]) {
                Some(l2) => {
                    lemma_fuse_from_loop(ops, j, l2);
                },
                None => {
                    assert(y == seq![OptView::Raw(ops[j])] + fuse_from(ops, j + 1));
                },
            }
            assert(merge_from(y, 0, acc, n) == (acc, 0int));
        } else {
            assert(y =~= Seq::<OptView>::empty());
        }
        assert(y.subrange(0, y.len() as int) =~= y);
        return;
    }
    let op = ops[j];
    lemma_span_sum_split(y, 0, 1, y.len() as int);
    if vec_len(op) == Some(n) {
        lemma_fuse_from_loop(ops, j, n);
        let j2 = run_end(ops, j, n);
        let g = ops.subrange(j, j2);
        let c = compile_group(g).ops;
        let y2 = fuse_from(ops, j2);
        assert(y[0] == OptView::Fused(c, n));
        assert(y.subrange(1, y.len() as int) =~= y2);
        lemma_span_sum_suffix(y, 1, 1, y.len() as int);
        assert(span_sum(y, 0, 0) == 0);
        assert(span_sum(y, 0, 1) == span(y[0]));
        let o = reg_top(acc) + 1int;
        let acc2 = acc + shift_ops(c, o);
        lemma_reg_top_le_max(acc);
        lemma_max_reg_concat_shift(acc, c, o);
        lemma_group_computes(g, n, inp);
        lemma_merge_computes(acc, c, big, g, n, inp);
        lemma_merge_walk(ops, j2, n, acc2, big + g, inp);
        lemma_merge_from_suffix(y, 1, 1, acc2, n);
        let stop2 = merge_from(y2, 0, acc2, n).1;
        assert(merge_from(y, 0, acc, n) == merge_from(y, 1, acc2, n));
        assert forall|k: int| j <= k < j2 implies mergeable(#[trigger] ops[k], n) by {}
        lemma_merge_end_skip(ops, j, j2, n);
        lemma_merge_end(ops, j2, n);
        lemma_parts_split(ops, j, j2, e);
        lemma_parts_all_vec(ops, j, j2);
        assert(big + vec_part(ops, j, e) =~= (big + g) + vec_part(ops, j2, e));
        assert(scalar_part(ops, j, e) =~= scalar_part(ops, j2, e));
        lemma_raws_between_split(y, 0, 1, stop2 + 1);
        assert(raws_between(y, 0, 0) =~= Seq::<OptView>::empty());
        assert(raws_between(y, 0, 1) =~= Seq::<OptView>::empty());
        lemma_raws_between_suffix(y, 1, 1, stop2 + 1);
        assert(raws_between(y, 0, stop2 + 1) =~= raws_between(y2, 0, stop2));
        assert(y.subrange(stop2 + 1, y.len() as int) =~= y2.subrange(stop2, y2.len() as int));
    } else {
        assert(scalar_op(op));
        assert(vec_len(op) is None);
        let y2 = fuse_from(ops, j + 1);
        assert(y == seq![OptView::Raw(op)] + y2);
        assert(y[0] == OptView::Raw(op));
        assert(y.subrange(1, y.len() as int) =~= y2);
        lemma_span_sum_suffix(y, 1, 1, y.len() as int);
        assert(span_sum(y, 0, 0) == 0);
        assert(span_sum(y, 0, 1) == span(y[0]));
        lemma_merge_walk(ops, j + 1, n, acc, big, inp);
        lemma_merge_from_suffix(y, 1, 1, acc, n);
        let stop2 = merge_from(y2, 0, acc, n).1;
        assert(merge_from(y, 0, acc, n) == merge_from(y, 1, acc, n));
        assert(e == merge_end(ops, j + 1, n));
        lemma_parts_split(ops, j, j + 1, e);
        assert(vec_part(ops, j, j) =~= Seq::<OpCode>::empty());
        assert(scalar_part(ops, j, j) =~= Seq::<OpCode>::empty());
        assert(vec_part(ops, j, j + 1) =~= Seq::<OpCode>::empty());
        assert(scalar_part(ops, j, j + 1) =~= seq![op]);
        assert(big + vec_part(ops, j, e) =~= big + vec_part(ops, j + 1, e));
        assert(raw_views(scalar_part(ops, j, e)) =~= seq![OptView::Raw(op)] + raw_views(scalar_part(ops, j + 1, e)));
        lemma_raws_between_split(y, 0, 1, stop2 + 1);
        assert(raws_between(y, 0, 0) =~= Seq::<OptView>::empty());
        assert(raws_between(y, 0, 1) =~= seq![OptView::Raw(op)]);
        lemma_raws_between_suffix(y, 1, 1, stop2 + 1);
        assert(y.subrange(stop2 + 1, y.len() as int) =~= y2.subrange(stop2, y2.len() as int));
    }
}

/// Raw instructions, run as a fused program, run as the interpreter runs
/// them.
proof fn lemma_run_fused_raws(t: MachineState, sc: Seq<OpCode>, inp: Seq<i16>)
    ensures
        run_fused(t, raw_views(sc), inp) == run(t, sc, inp),
    decreases sc.len(),
{
    if sc.len() == 0 {
        assert(raw_views(sc) =~= Seq::<OptView>::empty());
    } else {
        lemma_run_fused_raws(t, sc.drop_last(), inp);
        assert(raw_views(sc).drop_last() =~= raw_views(sc.drop_last()));
        assert(raw_views(sc).last() == OptView::Raw(sc.last()));
    }
}

/// Every raw instruction of a fused program has a loop kernel that reads
/// each element before it writes over it.
pub open spec fn raws_ready(ins: Seq<OptView>) -> bool {
    forall|k: int|
        0 <= k < ins.len() ==> (#[trigger] ins[k] matches OptView::Raw(op) ==> has_kernel_form(op) && reads_first(op))
}

/// Every instruction of `ops` from `i` on other than a vector instruction
/// has a loop kernel that reads each element before it writes over it.
pub open spec fn raws_ready_from(ops: Seq<OpCode>, i: int) -> bool {
    forall|k: int| i <= k < ops.len() && vec_len(#[trigger] ops[k]) is None ==> has_kernel_form(ops[k]) && reads_first(ops[k])
}

/// Stage 2 keeps the meaning of the program stage 1 builds from position
/// `i` on: run with its raw instructions as the interpreter runs them and
/// its loops as their kernel loops, it computes what the interpreter
/// computes for the instructions from `i` on.
#[verifier::rlimit(80)]
pub proof fn lemma_stage2_runs(ops: Seq<OpCode>, i: int, s: MachineState, inp: Seq<i16>)
    requires
        windows_separated(ops),
        crossings_clear(ops),
        0 <= i <= ops.len(),
        ops.len() <= usize::MAX / 8,
        run(s, ops.subrange(i, ops.len() as int), inp) is Ok,
    ensures
        run_fused(s, fuse_kernels_from(fuse_from(ops, i), 0), inp) == run(s, ops.subrange(i, ops.len() as int), inp),
        raws_ready_from(ops, i) ==> raws_ready(fuse_kernels_from(fuse_from(ops, i), 0)),
    decreases ops.len() - i,
{
    let all = ops.subrange(i, ops.len() as int);
    let x = fuse_from(ops, i);
    if i == ops.len() {
        assert(x =~= Seq::<OptView>::empty());
        assert(all =~= Seq::<OpCode>::empty());
        assert(fuse_kernels_from(x, 0) =~= Seq::<OptView>::empty());
        return;
    }
    let op = ops[i];
    match vec_len(op) {
        None => {
            let x2 = fuse_from(ops, i + 1);
            assert(x == seq![OptView::Raw(op)] + x2);
            assert(x[0] == OptView::Raw(op));
            lemma_fuse_kernels_suffix(x, 1, 1);
            assert(x.subrange(1, x.len() as int) =~= x2);
            let f2 = fuse_kernels_from(x2, 0);
            assert(fuse_kernels_from(x, 0) == seq![OptView::Raw(op)] + f2);
            let one = seq![op];
            assert(all =~= one + ops.subrange(i + 1, ops.len() as int));
            lemma_run_concat(s, one, ops.subrange(i + 1, ops.len() as int), inp);
            lemma_run_single(s, op, inp);
            let t = run(s, one, inp)->Ok_0;
            lemma_stage2_runs(ops, i + 1, t, inp);
            lemma_run_fused_concat(s, seq![OptView::Raw(op)], f2, inp);
            lemma_run_fused_single(s, OptView::Raw(op), inp);
            if raws_ready_from(ops, i) {
                assert(raws_ready_from(ops, i + 1));
                let h = seq![OptView::Raw(op)] + f2;
                assert forall|k: int| 0 <= k < h.len() implies (#[trigger] h[k] matches OptView::Raw(o) ==> has_kernel_form(
                    o,
                ) && reads_first(o)) by {
                    if k > 0 {
                        assert(h[k] == f2[k - 1]);
                    }
                }
            }
        },
        Some(n) => {
            lemma_fuse_from_loop(ops, i, n);
            let j1 = run_end(ops, i, n);
            let g1 = ops.subrange(i, j1);
            let c1 = compile_group(g1).ops;
            let x2 = fuse_from(ops, j1);
            assert(x[0] == OptView::Fused(c1, n));
            assert(x.subrange(1, x.len() as int) =~= x2);
            lemma_group_computes(g1, n, inp);
            lemma_fuse_from_span(ops, i);
            lemma_span_sum_split(x, 0, 1, x.len() as int);
            lemma_span_sum_suffix(x, 1, 1, x.len() as int);
            assert(span_sum(x, 0, 0) == 0);
            assert(span_sum(x, 0, 1) == span(x[0]));
            lemma_merge_walk(ops, j1, n, c1, g1, inp);
            lemma_merge_end(ops, j1, n);
            let e = merge_end(ops, j1, n);
            let comb = merge_from(x2, 0, c1, n).0;
            let stop2 = merge_from(x2, 0, c1, n).1;
            lemma_merge_from_suffix(x, 1, 1, c1, n);
            lemma_raws_between_suffix(x, 1, 1, stop2 + 1);
            lemma_fuse_kernels_suffix(x, stop2 + 1, stop2 + 1);
            assert(x.subrange(stop2 + 1, x.len() as int) =~= x2.subrange(stop2, x2.len() as int));
            let sc = scalar_part(ops, j1, e);
            let vv = g1 + vec_part(ops, j1, e);
            let rest = fuse_kernels_from(fuse_from(ops, e), 0);
            let head = OptView::Fused(comb, n);
            assert(fuse_kernels_from(x, 0) == seq![head] + raw_views(sc) + rest);
            // The stretch from `i` to `e` is one that stage 2 merges.
            assert forall|k: int| i <= k < e implies mergeable(#[trigger] ops[k], n) by {
                if k < j1 {
                    assert(vec_len(ops[k]) == Some(n));
                }
            }
            assert(merge_window(ops, i, e, n));
            lemma_parts_split(ops, i, j1, e);
            lemma_parts_all_vec(ops, i, j1);
            assert(vec_part(ops, i, e) =~= vv);
            assert(scalar_part(ops, i, e) =~= sc);
            assert(all =~= ops.subrange(i, e) + ops.subrange(e, ops.len() as int));
            lemma_run_concat(s, ops.subrange(i, e), ops.subrange(e, ops.len() as int), inp);
            lemma_window_reorder(ops, i, e, n, s, inp);
            lemma_run_concat(s, vv, sc, inp);
            let t = run(s, vv, inp)->Ok_0;
            let u = run(t, sc, inp)->Ok_0;
            // The merged loop.
            lemma_vec_part_group(ops, i, e, n);
            lemma_loop_matches(kernel_body(comb), vv, n, s, inp);
            lemma_run_columns(s, vv, n, inp);
            lemma_run_fused_single(s, head, inp);
            assert(run_fused(s, seq![head], inp) == Ok::<MachineState, crate::machine::Fault>(t));
            // Its scalar instructions, then the rest.
            lemma_run_fused_raws(t, sc, inp);
            lemma_stage2_runs(ops, e, u, inp);
            assert(seq![head] + raw_views(sc) + rest =~= seq![head] + (raw_views(sc) + rest));
            lemma_run_fused_concat(s, seq![head], raw_views(sc) + rest, inp);
            lemma_run_fused_concat(t, raw_views(sc), rest, inp);
            if raws_ready_from(ops, i) {
                assert(raws_ready_from(ops, e));
                lemma_parts_from(ops, j1, e);
                let h = seq![head] + raw_views(sc) + rest;
                assert forall|k: int| 0 <= k < h.len() implies (#[trigger] h[k] matches OptView::Raw(o) ==> has_kernel_form(
                    o,
                ) && reads_first(o)) by {
                    if 1 <= k < 1 + sc.len() {
                        assert(h[k] == OptView::Raw(sc[k - 1]));
                        assert(scalar_in(ops, j1, e, sc[k - 1]));
                        let m = choose|m: int| j1 <= m < e && #[trigger] ops[m] == sc[k - 1] && vec_len(ops[m]) is None;
                        assert(mergeable(ops[m], n));
                    } else if k >= 1 + sc.len() {
                        assert(h[k] == rest[k - 1 - sc.len()]);
                    }
                }
            }
        },
    }
}

/// The kernel of a fused program whose raw instructions have loop kernels
/// that read before they write computes what the program computes,
/// wherever the program runs.
pub proof fn lemma_fused_kernel(ins: Seq<OptView>, s: MachineState, inp: Seq<i16>)
    requires
        raws_ready(ins),
        run_fused(s, ins, inp) is Ok,
    ensures
        run_code(kernel_ir(ins), kernel_state(s), inp) == Some(kernel_state(run_fused(s, ins, inp)->Ok_0)),
    decreases ins.len(),
{
    if ins.len() == 0 {
        return;
    }
    let pre = ins.drop_last();
    let last = ins.last();
    assert forall|k: int| 0 <= k < pre.len() implies (#[trigger] pre[k] matches OptView::Raw(op) ==> has_kernel_form(op)
        && reads_first(op)) by {
        assert(pre[k] == ins[k]);
    }
    lemma_fused_kernel(pre, s, inp);
    let t = run_fused(s, pre, inp)->Ok_0;
    assert(kernel_ir(ins) == kernel_ir(pre) + instr_ir(last));
    match last {
        OptView::Raw(op) => {
            assert(ins[ins.len() - 1] == last);
            lemma_raw_shape(op);
            let (len, body) = raw_shape(op);
            lemma_run_code_loop(kernel_ir(pre), len, body, kernel_state(s), inp);
            lemma_run_code_loop(Seq::empty(), len, body, kernel_state(t), inp);
            assert(Seq::<KernelOp>::empty() + loop_ir(len, body) =~= raw_op_ir(op));
            lemma_raw_op_kernel(op, t, inp);
        },
        OptView::Fused(ops, len) => {
            let body = kernel_body(ops);
            assert(fused_loop_ir(ops, len) =~= loop_ir(len, body));
            assert forall|k: int| 0 <= k < body.len() implies !(#[trigger] body[k] is Loop) by {
                assert(body[k] == kernel_op(ops[k]));
            }
            lemma_run_code_loop(kernel_ir(pre), len, body, kernel_state(s), inp);
        },
    }
}

// ---------------------------------------------------------------------------
// The registers of an absorbed loop
// ---------------------------------------------------------------------------

/// Every register an operation of `ops` writes (as counted by `op_reg`) is
/// at most `reg_top(ops)`.
proof fn lemma_reg_top_bounds(ops: Seq<FusedOp>)
    ensures
        forall|j: int| 0 <= j < ops.len() ==> (#[trigger] op_reg(ops[j]) matches Some(x) ==> x <= reg_top(ops)),
    decreases ops.len(),
{
    if ops.len() > 0 {
        let pre = ops.drop_last();
        lemma_reg_top_bounds(pre);
        assert forall|j: int| 0 <= j < ops.len() implies (#[trigger] op_reg(ops[j]) matches Some(x) ==> x <= reg_top(
            ops,
        )) by {
            if j < pre.len() {
                assert(ops[j] == pre[j]);
            }
        }
    }
}

/// In a loop whose operations read only registers written before them,
/// every register named is at most the highest register written.
pub proof fn lemma_wf_regs_below(ops: Seq<FusedOp>)
    requires
        regs_wf(ops),
    ensures
        regs_below(ops, reg_top(ops) as int),
{
    lemma_reg_top_bounds(ops);
    assert forall|k: int| 0 <= k < ops.len() implies #[trigger] op_max_reg(ops[k]) <= reg_top(ops) by {
        assert(op_reg(ops[k]) matches Some(x) ==> x <= reg_top(ops));
        match ops[k] {
            FusedOp::Add(l, r, d) | FusedOp::Mul(l, r, d) => {
                assert(op_uses(ops[k], l) && op_uses(ops[k], r));
                assert(defined(ops.take(k), l));
                let j1 = choose|j: int| 0 <= j < ops.take(k).len() && #[trigger] op_defines(ops.take(k)[j], l);
                assert(ops.take(k)[j1] == ops[j1]);
                assert(op_reg(ops[j1]) == Some(l));
                assert(defined(ops.take(k), r));
                let j2 = choose|j: int| 0 <= j < ops.take(k).len() && #[trigger] op_defines(ops.take(k)[j], r);
                assert(ops.take(k)[j2] == ops[j2]);
                assert(op_reg(ops[j2]) == Some(r));
            },
            _ => {},
        }
    }
}

} // verus!
