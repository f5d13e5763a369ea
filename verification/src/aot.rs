use vstd::prelude::*;
use crate::ir::{OpCode, XimGraph};
use crate::planner::{FusedOp, LoopFuser, OptView, OptimizedInstruction, fuse_from, opt_view};

verus! {

// ---------------------------------------------------------------------------
// Text of the generated kernel
// ---------------------------------------------------------------------------

/// The opening of the kernel: the exported entry point and its buffers.
pub const KERNEL_HEADER: &'static str = "\nuse std::thread;\n\n#[no_mangle]\npub unsafe extern \"C\" fn xim_aot_execute(mem_ptr: *mut i16, inputs_ptr: *const i16, outputs_ptr: *mut i16) {\n    let mem_usize = mem_ptr as usize;\n    let inputs_usize = inputs_ptr as usize;\n    let outputs_usize = outputs_ptr as usize;\n";

/// The end of the kernel.
pub const KERNEL_END: &'static str = "}\n";

/// A fused loop up to its element count.
pub const LOOP_HEAD: &'static str = "\n    // Fused Loop (XLA-style)\n    let num_threads = std::thread::available_parallelism().map(|n| n.get()).unwrap_or(1);\n    let chunk_size = ";

/// A fused loop from the chunk size to the bound of the last chunk.
pub const LOOP_CHUNKS: &'static str = " / num_threads + 1;\n    thread::scope(|s| {\n        for t in 0..num_threads {\n            s.spawn(move || {\n                let m = mem_usize as *mut i16;\n                let start = t * chunk_size;\n                let end = (start + chunk_size).min(";

/// A fused loop from the bound of the last chunk to its body.
pub const LOOP_BODY: &'static str = ");\n                if start < end {\n                    for i in start..end {\n                        let mut regs = [0i16; 64]; // Virtual registers for fusion\n";

/// The end of a fused loop.
pub const LOOP_END: &'static str = "                    }\n                }\n            });\n        }\n    });\n";

/// The indentation and first register of a line of a loop body.
pub const LINE_REG: &'static str = "                        regs[";

/// The indentation and first store of a line of a loop body.
pub const LINE_STORE: &'static str = "                        *m.add(";

pub const LOAD_FROM: &'static str = "] = *m.add(";
pub const PLUS_I_END: &'static str = " + i);\n";
pub const ASSIGN_REG: &'static str = "] = regs[";
pub const SATURATING_ADD: &'static str = "].saturating_add(regs[";
pub const CLOSE_REG_LINE: &'static str = "]);\n";
pub const MUL_OPEN: &'static str = "] = (((regs[";
pub const MUL_TIMES: &'static str = "] as i32) * (regs[";
pub const MUL_CLOSE: &'static str = "] as i32)) >> 8).clamp(-32768, 32767) as i16;\n";
pub const STORE_FROM: &'static str = " + i) = regs[";
pub const REG_LINE_END: &'static str = "];\n";

pub const LOAD_VEC_HEAD: &'static str = "\n    // LoadVarVec\n    std::ptr::copy_nonoverlapping((inputs_usize as *const i16).add(";
pub const LOAD_VEC_DST: &'static str = "), (mem_usize as *mut i16).add(";
pub const STORE_VEC_HEAD: &'static str = "\n    // StoreVec\n    std::ptr::copy_nonoverlapping((mem_usize as *const i16).add(";
pub const STORE_VEC_DST: &'static str = "), (outputs_usize as *mut i16).add(";
pub const COPY_LEN: &'static str = "), ";
pub const COPY_END: &'static str = ");\n";
pub const RAW_COMMENT: &'static str = "    // Raw Op: ";
pub const NEWLINE: &'static str = "\n";

pub const OPEN_PAREN: &'static str = "(";
pub const CLOSE_PAREN: &'static str = ")";
pub const COMMA: &'static str = ", ";
pub const MINUS: &'static str = "-";

/// The text of a decimal digit.
pub open spec fn digit_text(d: nat) -> Seq<char> {
    if d == 0 { "0"@ } else if d == 1 { "1"@ } else if d == 2 { "2"@ } else if d == 3 { "3"@ }
    else if d == 4 { "4"@ } else if d == 5 { "5"@ } else if d == 6 { "6"@ } else if d == 7 { "7"@ }
    else if d == 8 { "8"@ } else { "9"@ }
}

/// The decimal text of `n`, without leading zeros.
pub open spec fn decimal(n: nat) -> Seq<char>
    decreases n,
{
    if n < 10 {
        digit_text(n)
    } else {
        decimal(n / 10) + digit_text(n % 10)
    }
}

/// The decimal text of `x`, with a minus sign when negative.
pub open spec fn signed_decimal(x: int) -> Seq<char> {
    if x < 0 { MINUS@ + decimal((-x) as nat) } else { decimal(x as nat) }
}

/// The arguments of a tuple variant, separated by commas.
pub open spec fn args_text(args: Seq<int>) -> Seq<char>
    decreases args.len(),
{
    if args.len() == 0 {
        Seq::empty()
    } else if args.len() == 1 {
        signed_decimal(args[0])
    } else {
        args_text(args.drop_last()) + COMMA@ + signed_decimal(args.last())
    }
}

/// The variant name of an opcode.
pub open spec fn op_name(op: OpCode) -> Seq<char> {
    match op {
        OpCode::LoadVar(..) => "LoadVar"@,
        OpCode::Store(..) => "Store"@,
        OpCode::Add(..) => "Add"@,
        OpCode::Sub(..) => "Sub"@,
        OpCode::Mul(..) => "Mul"@,
        OpCode::AddVec(..) => "AddVec"@,
        OpCode::MulVec(..) => "MulVec"@,
        OpCode::LoadVarVec(..) => "LoadVarVec"@,
        OpCode::StoreVec(..) => "StoreVec"@,
        OpCode::GradAdd(..) => "GradAdd"@,
        OpCode::GradMul(..) => "GradMul"@,
        OpCode::AdamWStep(..) => "AdamWStep"@,
        OpCode::LoadVarVec8(..) => "LoadVarVec8"@,
        OpCode::StoreVec8(..) => "StoreVec8"@,
        OpCode::AddVec8(..) => "AddVec8"@,
        OpCode::MulVec8(..) => "MulVec8"@,
        OpCode::AIOStep(..) => "AIOStep"@,
        OpCode::BlockScale(..) => "BlockScale"@,
        OpCode::AIOStepBlock(..) => "AIOStepBlock"@,
        OpCode::FillVec(..) => "FillVec"@,
        OpCode::AddScalarVec(..) => "AddScalarVec"@,
        OpCode::MulScalarVec(..) => "MulScalarVec"@,
    }
}

/// The operands of an opcode, in order.
pub open spec fn op_args(op: OpCode) -> Seq<int> {
    match op {
        OpCode::LoadVar(a, b) => seq![a as int, b as int],
        OpCode::Store(a, b) => seq![a as int, b as int],
        OpCode::Add(a, b, c) => seq![a as int, b as int, c as int],
        OpCode::Sub(a, b, c) => seq![a as int, b as int, c as int],
        OpCode::Mul(a, b, c) => seq![a as int, b as int, c as int],
        OpCode::AddVec(a, b, c, d) => seq![a as int, b as int, c as int, d as int],
        OpCode::MulVec(a, b, c, d) => seq![a as int, b as int, c as int, d as int],
        OpCode::LoadVarVec(a, b, c) => seq![a as int, b as int, c as int],
        OpCode::StoreVec(a, b, c) => seq![a as int, b as int, c as int],
        OpCode::GradAdd(a, b, c, d) => seq![a as int, b as int, c as int, d as int],
        OpCode::GradMul(a, b, c, d) => seq![a as int, b as int, c as int, d as int],
        OpCode::AdamWStep(a, b, c, d, e) => seq![a as int, b as int, c as int, d as int, e as int],
        OpCode::LoadVarVec8(a, b, c) => seq![a as int, b as int, c as int],
        OpCode::StoreVec8(a, b, c) => seq![a as int, b as int, c as int],
        OpCode::AddVec8(a, b, c, d) => seq![a as int, b as int, c as int, d as int],
        OpCode::MulVec8(a, b, c, d) => seq![a as int, b as int, c as int, d as int],
        OpCode::AIOStep(a, b, c, d, e, f) => seq![a as int, b as int, c as int, d as int, e as int, f as int],
        OpCode::BlockScale(a, b, c) => seq![a as int, b as int, c as int],
        OpCode::AIOStepBlock(a, b, c, d, e, f) => seq![a as int, b as int, c as int, d as int, e as int, f as int],
        OpCode::FillVec(a, b, c) => seq![a as int, b as int, c as int],
        OpCode::AddScalarVec(a, b, c, d) => seq![a as int, b as int, c as int, d as int],
        OpCode::MulScalarVec(a, b, c, d) => seq![a as int, b as int, c as int, d as int],
    }
}

/// The debug text of an opcode: its variant name and its operands in
/// brackets, as `LoadVar(3, 7)`.
pub open spec fn debug_text(op: OpCode) -> Seq<char> {
    op_name(op) + OPEN_PAREN@ + args_text(op_args(op)) + CLOSE_PAREN@
}

/// The line a fused operation compiles to: loads, stores and the Q8.8
/// arithmetic on registers; the other operations compile to nothing.
pub open spec fn fused_op_text(op: FusedOp) -> Seq<char> {
    match op {
        FusedOp::Load(off, reg) => LINE_REG@ + decimal(reg as nat) + LOAD_FROM@ + decimal(off as nat) + PLUS_I_END@,
        FusedOp::Add(l, r, d) => LINE_REG@ + decimal(d as nat) + ASSIGN_REG@ + decimal(l as nat) + SATURATING_ADD@
            + decimal(r as nat) + CLOSE_REG_LINE@,
        FusedOp::Mul(l, r, d) => LINE_REG@ + decimal(d as nat) + MUL_OPEN@ + decimal(l as nat) + MUL_TIMES@
            + decimal(r as nat) + MUL_CLOSE@,
        FusedOp::Store(reg, off) => LINE_STORE@ + decimal(off as nat) + STORE_FROM@ + decimal(reg as nat) + REG_LINE_END@,
        _ => Seq::empty(),
    }
}

/// The lines of a sequence of fused operations.
pub open spec fn fused_ops_text(ops: Seq<FusedOp>) -> Seq<char>
    decreases ops.len(),
{
    if ops.len() == 0 {
        Seq::empty()
    } else {
        fused_ops_text(ops.drop_last()) + fused_op_text(ops.last())
    }
}

/// A fused loop over `len` elements, split in chunks over threads.
pub open spec fn loop_text(ops: Seq<FusedOp>, len: u32) -> Seq<char> {
    LOOP_HEAD@ + decimal(len as nat) + LOOP_CHUNKS@ + decimal(len as nat) + LOOP_BODY@ + fused_ops_text(ops) + LOOP_END@
}

/// A raw instruction: vector loads and stores become block copies, the
/// other instructions a comment that names them.
pub open spec fn raw_text(op: OpCode) -> Seq<char> {
    match op {
        OpCode::LoadVarVec(var_id, dst, len) => LOAD_VEC_HEAD@ + decimal(var_id as nat) + LOAD_VEC_DST@
            + decimal(dst as nat) + COPY_LEN@ + decimal(len as nat) + COPY_END@,
        OpCode::StoreVec(src, out_id, len) => STORE_VEC_HEAD@ + decimal(src as nat) + STORE_VEC_DST@
            + decimal(out_id as nat) + COPY_LEN@ + decimal(len as nat) + COPY_END@,
        _ => RAW_COMMENT@ + debug_text(op) + NEWLINE@,
    }
}

/// The text of one optimized instruction.
pub open spec fn instr_text(i: OptView) -> Seq<char> {
    match i {
        OptView::Fused(ops, len) => loop_text(ops, len),
        OptView::Raw(op) => raw_text(op),
    }
}

/// The text of a sequence of optimized instructions.
pub open spec fn body_text(ins: Seq<OptView>) -> Seq<char>
    decreases ins.len(),
{
    if ins.len() == 0 {
        Seq::empty()
    } else {
        body_text(ins.drop_last()) + instr_text(ins.last())
    }
}

/// The kernel source for a sequence of optimized instructions.
pub open spec fn kernel_source(ins: Seq<OptView>) -> Seq<char> {
    KERNEL_HEADER@ + body_text(ins) + KERNEL_END@
}

// ---------------------------------------------------------------------------
// Writing the text
// ---------------------------------------------------------------------------

fn digit_str(d: u64) -> (r: &'static str)
    requires
        d < 10,
    ensures
        r@ == digit_text(d as nat),
{
    if d == 0 { "0" } else if d == 1 { "1" } else if d == 2 { "2" } else if d == 3 { "3" }
    else if d == 4 { "4" } else if d == 5 { "5" } else if d == 6 { "6" } else if d == 7 { "7" }
    else if d == 8 { "8" } else { "9" }
}

/// Appends the decimal text of `n`.
fn push_decimal(s: &mut String, n: u64)
    ensures
        final(s)@ == old(s)@ + decimal(n as nat),
    decreases n,
{
    if n >= 10 {
        push_decimal(s, n / 10);
    }
    s.append(digit_str(n % 10));
    proof {
        if n >= 10 {
            assert(old(s)@ + decimal(n as nat)
                =~= old(s)@ + decimal((n / 10) as nat) + digit_text((n % 10) as nat));
        }
    }
}

/// Appends the decimal text of `x`, with a minus sign when negative.
fn push_signed(s: &mut String, x: i64)
    requires
        x > i64::MIN,
    ensures
        final(s)@ == old(s)@ + signed_decimal(x as int),
{
    if x < 0 {
        s.append(MINUS);
        push_decimal(s, (-x) as u64);
        assert(final(s)@ =~= old(s)@ + signed_decimal(x as int));
    } else {
        push_decimal(s, x as u64);
    }
}

fn op_name_str(op: OpCode) -> (r: &'static str)
    ensures
        r@ == op_name(op),
{
    match op {
        OpCode::LoadVar(..) => "LoadVar",
        OpCode::Store(..) => "Store",
        OpCode::Add(..) => "Add",
        OpCode::Sub(..) => "Sub",
        OpCode::Mul(..) => "Mul",
        OpCode::AddVec(..) => "AddVec",
        OpCode::MulVec(..) => "MulVec",
        OpCode::LoadVarVec(..) => "LoadVarVec",
        OpCode::StoreVec(..) => "StoreVec",
        OpCode::GradAdd(..) => "GradAdd",
        OpCode::GradMul(..) => "GradMul",
        OpCode::AdamWStep(..) => "AdamWStep",
        OpCode::LoadVarVec8(..) => "LoadVarVec8",
        OpCode::StoreVec8(..) => "StoreVec8",
        OpCode::AddVec8(..) => "AddVec8",
        OpCode::MulVec8(..) => "MulVec8",
        OpCode::AIOStep(..) => "AIOStep",
        OpCode::BlockScale(..) => "BlockScale",
        OpCode::AIOStepBlock(..) => "AIOStepBlock",
        OpCode::FillVec(..) => "FillVec",
        OpCode::AddScalarVec(..) => "AddScalarVec",
        OpCode::MulScalarVec(..) => "MulScalarVec",
    }
}

fn op_args_vec(op: OpCode) -> (r: Vec<i64>)
    ensures
        r@.len() == op_args(op).len(),
        forall|k: int| 0 <= k < r@.len() ==> #[trigger] r@[k] as int == op_args(op)[k],
        forall|k: int| 0 <= k < r@.len() ==> #[trigger] r@[k] >= i16::MIN,
{
    match op {
        OpCode::LoadVar(a, b) => vec![a as i64, b as i64],
        OpCode::Store(a, b) => vec![a as i64, b as i64],
        OpCode::Add(a, b, c) => vec![a as i64, b as i64, c as i64],
        OpCode::Sub(a, b, c) => vec![a as i64, b as i64, c as i64],
        OpCode::Mul(a, b, c) => vec![a as i64, b as i64, c as i64],
        OpCode::AddVec(a, b, c, d) => vec![a as i64, b as i64, c as i64, d as i64],
        OpCode::MulVec(a, b, c, d) => vec![a as i64, b as i64, c as i64, d as i64],
        OpCode::LoadVarVec(a, b, c) => vec![a as i64, b as i64, c as i64],
        OpCode::StoreVec(a, b, c) => vec![a as i64, b as i64, c as i64],
        OpCode::GradAdd(a, b, c, d) => vec![a as i64, b as i64, c as i64, d as i64],
        OpCode::GradMul(a, b, c, d) => vec![a as i64, b as i64, c as i64, d as i64],
        OpCode::AdamWStep(a, b, c, d, e) => vec![a as i64, b as i64, c as i64, d as i64, e as i64],
        OpCode::LoadVarVec8(a, b, c) => vec![a as i64, b as i64, c as i64],
        OpCode::StoreVec8(a, b, c) => vec![a as i64, b as i64, c as i64],
        OpCode::AddVec8(a, b, c, d) => vec![a as i64, b as i64, c as i64, d as i64],
        OpCode::MulVec8(a, b, c, d) => vec![a as i64, b as i64, c as i64, d as i64],
        OpCode::AIOStep(a, b, c, d, e, f) => vec![a as i64, b as i64, c as i64, d as i64, e as i64, f as i64],
        OpCode::BlockScale(a, b, c) => vec![a as i64, b as i64, c as i64],
        OpCode::AIOStepBlock(a, b, c, d, e, f) => vec![a as i64, b as i64, c as i64, d as i64, e as i64, f as i64],
        OpCode::FillVec(a, b, c) => vec![a as i64, b as i64, c as i64],
        OpCode::AddScalarVec(a, b, c, d) => vec![a as i64, b as i64, c as i64, d as i64],
        OpCode::MulScalarVec(a, b, c, d) => vec![a as i64, b as i64, c as i64, d as i64],
    }
}

/// Appends the debug text of `op`.
fn push_debug(s: &mut String, op: OpCode)
    ensures
        final(s)@ == old(s)@ + debug_text(op),
{
    let ghost args = op_args(op);
    let a = op_args_vec(op);
    s.append(op_name_str(op));
    s.append(OPEN_PAREN);
    let ghost start = s@;
    let mut k: usize = 0;
    while k < a.len()
        invariant
            a@.len() == args.len(),
            forall|j: int| 0 <= j < a@.len() ==> #[trigger] a@[j] as int == args[j],
            forall|j: int| 0 <= j < a@.len() ==> #[trigger] a@[j] >= i16::MIN,
            k <= a.len(),
            s@ == start + args_text(args.take(k as int)),
        decreases a.len() - k,
    {
        let ghost before = s@;
        if k > 0 {
            s.append(COMMA);
        }
        assert(a@[k as int] as int == args[k as int]);
        push_signed(s, a[k]);
        proof {
            let t = args.take(k + 1);
            assert(t.drop_last() =~= args.take(k as int));
            assert(t.last() == args[k as int]);
            if k == 0 {
                assert(args.take(0) =~= Seq::<int>::empty());
                assert(s@ =~= start + args_text(t));
            } else {
                assert(s@ =~= start + args_text(t));
            }
        }
        k += 1;
    }
    assert(args.take(a.len() as int) =~= args);
    s.append(CLOSE_PAREN);
}

/// Appends the line of one fused operation.
fn push_fused_op(s: &mut String, op: FusedOp)
    ensures
        final(s)@ == old(s)@ + fused_op_text(op),
{
    match op {
        FusedOp::Load(off, reg) => {
            s.append(LINE_REG);
            push_decimal(s, reg as u64);
            s.append(LOAD_FROM);
            push_decimal(s, off as u64);
            s.append(PLUS_I_END);
        },
        FusedOp::Add(l, r, d) => {
            s.append(LINE_REG);
            push_decimal(s, d as u64);
            s.append(ASSIGN_REG);
            push_decimal(s, l as u64);
            s.append(SATURATING_ADD);
            push_decimal(s, r as u64);
            s.append(CLOSE_REG_LINE);
        },
        FusedOp::Mul(l, r, d) => {
            s.append(LINE_REG);
            push_decimal(s, d as u64);
            s.append(MUL_OPEN);
            push_decimal(s, l as u64);
            s.append(MUL_TIMES);
            push_decimal(s, r as u64);
            s.append(MUL_CLOSE);
        },
        FusedOp::Store(reg, off) => {
            s.append(LINE_STORE);
            push_decimal(s, off as u64);
            s.append(STORE_FROM);
            push_decimal(s, reg as u64);
            s.append(REG_LINE_END);
        },
        _ => {},
    }
    assert(final(s)@ =~= old(s)@ + fused_op_text(op));
}

/// Appends a fused loop.
fn push_loop(s: &mut String, ops: &Vec<FusedOp>, len: u32)
    ensures
        final(s)@ == old(s)@ + loop_text(ops@, len),
{
    s.append(LOOP_HEAD);
    push_decimal(s, len as u64);
    s.append(LOOP_CHUNKS);
    push_decimal(s, len as u64);
    s.append(LOOP_BODY);
    let ghost start = s@;
    let mut k: usize = 0;
    while k < ops.len()
        invariant
            k <= ops@.len(),
            s@ == start + fused_ops_text(ops@.take(k as int)),
        decreases ops.len() - k,
    {
        push_fused_op(s, ops[k]);
        proof {
            let t = ops@.take(k + 1);
            assert(t.drop_last() =~= ops@.take(k as int));
            assert(s@ =~= start + fused_ops_text(t));
        }
        k += 1;
    }
    assert(ops@.take(ops.len() as int) =~= ops@);
    s.append(LOOP_END);
    assert(final(s)@ =~= old(s)@ + loop_text(ops@, len));
}

/// Appends a raw instruction.
fn push_raw(s: &mut String, op: OpCode)
    ensures
        final(s)@ == old(s)@ + raw_text(op),
{
    match op {
        OpCode::LoadVarVec(var_id, dst, len) => {
            s.append(LOAD_VEC_HEAD);
            push_decimal(s, var_id as u64);
            s.append(LOAD_VEC_DST);
            push_decimal(s, dst as u64);
            s.append(COPY_LEN);
            push_decimal(s, len as u64);
            s.append(COPY_END);
        },
        OpCode::StoreVec(src, out_id, len) => {
            s.append(STORE_VEC_HEAD);
            push_decimal(s, src as u64);
            s.append(STORE_VEC_DST);
            push_decimal(s, out_id as u64);
            s.append(COPY_LEN);
            push_decimal(s, len as u64);
            s.append(COPY_END);
        },
        _ => {
            s.append(RAW_COMMENT);
            push_debug(s, op);
            s.append(NEWLINE);
        },
    }
    assert(final(s)@ =~= old(s)@ + raw_text(op));
}

/// Compiles graphs ahead of time to a native kernel.
pub struct AotCompiler;

impl AotCompiler {
    /// The Rust source of the kernel for `graph`: the program after local
    /// loop fusion, each fused loop split in chunks over threads, vector
    /// loads and stores as block copies.  A loop body holds its loads,
    /// sums, products and stores only: constant loads, copies and AdamW
    /// steps emit no line, so the kernel of a graph that needs them does not
    /// compute what the interpreter computes.
    pub fn generate_source(graph: &XimGraph) -> (code: String)
        requires
            graph.instructions@.len() <= usize::MAX / 8,
        ensures
            code@ == kernel_source(fuse_from(graph.ops(), 0)),
    {
        let optimized = LoopFuser::fuse(graph.instructions.as_slice());
        let ghost ins = opt_view(optimized@);
        let mut code = String::new();
        code.append(KERNEL_HEADER);
        let mut k: usize = 0;
        while k < optimized.len()
            invariant
                ins == opt_view(optimized@),
                k <= optimized@.len(),
                code@ == KERNEL_HEADER@ + body_text(ins.take(k as int)),
            decreases optimized.len() - k,
        {
            assert(ins[k as int] == optimized@[k as int]@);
            match &optimized[k] {
                OptimizedInstruction::FusedLoop { ops, len } => push_loop(&mut code, ops, *len),
                OptimizedInstruction::Raw(op) => push_raw(&mut code, *op),
            }
            proof {
                let t = ins.take(k + 1);
                assert(t.drop_last() =~= ins.take(k as int));
                assert(code@ =~= KERNEL_HEADER@ + body_text(t));
            }
            k += 1;
        }
        assert(ins.take(optimized.len() as int) =~= ins);
        code.append(KERNEL_END);
        code
    }
}

} // verus!
