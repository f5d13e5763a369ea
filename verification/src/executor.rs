use vstd::prelude::*;
use crate::error::XimError;
use crate::ir::{OpCode, XimGraph};
use crate::kernels::{BinKind, clamp16, clamp_i16, lemma_shr8_i32, lemma_shr4_i32};
use crate::machine::{
    Fault, MachineState, in_range, write_range, grow, is_i8_op, is_i32_op, is_scale_op, uses_i8, uses_i32,
    uses_scales, prepared, step, run, run_i8, step_block_host, block_fits, block_m, block_v, block_w, fits_i32,
    bin8_result, last_state, lemma_last_state_ok, lemma_last_state_fault,
};
use crate::exec_ops::{
    range_ok, write_vec, exec_cell, exec_bin, exec_scalar, exec_bin8, exec_adamw, exec_aio16, exec_aio32,
    exec_block_scale, exec_load_var, exec_store, exec_load_vec, exec_store_vec, exec_load_vec8, exec_store_vec8,
    exec_fill,
};

verus! {

/// The error that reports `fault`.
pub open spec fn reports(e: XimError, fault: Fault) -> bool {
    match fault {
        Fault::OutOfBounds => e is Memory,
        Fault::Overflow => e is Execution,
        Fault::NeedsHost => e is Execution,
        Fault::ShortBuffer(needed, have) => e matches XimError::ShapeMismatch { expected, found }
            && expected == (if needed > usize::MAX { usize::MAX as int } else { needed as int }) && found == have,
    }
}

fn fault_error(fault: Fault) -> (e: XimError)
    ensures
        reports(e, fault),
{
    match fault {
        Fault::OutOfBounds => XimError::Memory("instruction operand outside its buffer".to_string()),
        Fault::Overflow => XimError::Execution("arithmetic overflow in instruction".to_string()),
        Fault::NeedsHost => XimError::Execution("block step needs host gradients".to_string()),
        Fault::ShortBuffer(needed, have) => XimError::ShapeMismatch {
            expected: if needed > usize::MAX as u64 { usize::MAX } else { needed as usize },
            found: have,
        },
    }
}

/// `s` extended with `z` up to length `n`.
fn grow_vec<T: Copy>(v: &mut Vec<T>, n: usize, z: T)
    ensures
        final(v)@ == grow(old(v)@, n as nat, z),
{
    if v.len() < n {
        let ghost v0 = v@;
        while v.len() < n
            invariant
                v0.len() <= v.len() <= n,
                v@ == v0 + Seq::new((v.len() - v0.len()) as nat, |i: int| z),
            decreases n - v.len(),
        {
            v.push(z);
            assert(v@ =~= v0 + Seq::new((v.len() - v0.len()) as nat, |i: int| z));
        }
        assert(v@ =~= grow(v0, n as nat, z));
    }
}

/// A program whose prefix of `k` instructions faults faults as a whole.
proof fn lemma_run_stops(s: MachineState, ops: Seq<OpCode>, inp: Seq<i16>, k: nat)
    requires
        k <= ops.len(),
        run(s, ops.take(k as int), inp) is Err,
    ensures
        run(s, ops, inp) == run(s, ops.take(k as int), inp),
    decreases ops.len() - k,
{
    if k < ops.len() {
        assert(ops.take((k + 1) as int).drop_last() =~= ops.take(k as int));
        lemma_run_stops(s, ops, inp, k + 1);
    } else {
        assert(ops.take(k as int) =~= ops);
    }
}

/// A program whose prefix of `k` instructions faults faults as a whole.
proof fn lemma_run_i8_stops(s: Seq<i8>, ops: Seq<OpCode>, k: nat)
    requires
        k <= ops.len(),
        run_i8(s, ops.take(k as int)) is Err,
    ensures
        run_i8(s, ops) == run_i8(s, ops.take(k as int)),
    decreases ops.len() - k,
{
    if k < ops.len() {
        assert(ops.take((k + 1) as int).drop_last() =~= ops.take(k as int));
        lemma_run_i8_stops(s, ops, k + 1);
    } else {
        assert(ops.take(k as int) =~= ops);
    }
}

/// One element of the block AIO step: new first and second moments and new
/// weight, when no i32 intermediate overflows.
fn block_elem(m: i16, v: i16, w: i16, gr: i32) -> (r: Option<(i16, i16, i16)>)
    ensures
        r is Some <==> block_fits(m, v, gr),
        r matches Some(t) ==> t.0 == clamp_i16(block_m(m, gr)) as i16 && t.1 == clamp_i16(block_v(v, gr)) as i16
            && t.2 == block_w(w, m, gr),
{
    let a: i64 = gr as i64 * 26;
    if a < i32::MIN as i64 || a > i32::MAX as i64 {
        return None;
    }
    let b: i64 = m as i64 * 230 + a;
    if b < i32::MIN as i64 || b > i32::MAX as i64 {
        return None;
    }
    assert(0 <= gr * gr <= 0x4000_0000_0000_0000) by (nonlinear_arith)
        requires
            -0x8000_0000 <= gr <= 0x7fff_ffff,
    ;
    let gg: i64 = gr as i64 * gr as i64;
    if gg > i32::MAX as i64 {
        return None;
    }
    assert(0 <= gr * gr) by (nonlinear_arith);
    let gg32 = gg as i32;
    proof {
        lemma_shr8_i32(gg32);
    }
    let c: i64 = v as i64 * 255 + (gg32 >> 8u32) as i64;
    if c < i32::MIN as i64 || c > i32::MAX as i64 {
        return None;
    }
    let b32 = b as i32;
    let c32 = c as i32;
    proof {
        lemma_shr8_i32(b32);
        lemma_shr8_i32(c32);
    }
    let m_val = b32 >> 8u32;
    let v_val = c32 >> 8u32;
    proof {
        lemma_shr4_i32(m_val);
    }
    let w_new = clamp16(w as i32 - (#[verifier::truncate] ((m_val >> 4u32) as i16)) as i32);
    Some((clamp16(m_val), clamp16(v_val), w_new))
}

/// Which extra buffers an instruction uses: i8, i32, block scales.
fn op_buffer_needs(op: OpCode) -> (r: (bool, bool, bool))
    ensures
        r.0 == is_i8_op(op),
        r.1 == is_i32_op(op),
        r.2 == is_scale_op(op),
{
    match op {
        OpCode::LoadVarVec8(..) | OpCode::StoreVec8(..) | OpCode::AddVec8(..) | OpCode::MulVec8(..) => (true, false, false),
        OpCode::AIOStep(_, _, _, _, _, p) => (false, p == 2, false),
        OpCode::BlockScale(..) | OpCode::AIOStepBlock(..) => (false, false, true),
        _ => (false, false, false),
    }
}

/// The interpreter of XIM programs over i16 (Q8.8), i8 (Q2.6) and i32
/// scratchpads.
pub struct Executor {
    /// Internal memory (scratchpad) for i16 VM
    pub memory: Vec<i16>,
    /// Internal memory (scratchpad) for i8 VM
    pub memory_i8: Vec<i8>,
    /// Internal memory (scratchpad) for i32 VM (High Dynamic Range)
    pub memory_i32: Vec<i32>,
    /// Block scale table: the largest magnitude of each block of 32 values;
    /// the block's f32 scale is that magnitude over 32767.
    pub block_scales: Vec<i16>,
}

impl Executor {
    /// The machine state of the executor with output buffer `out`.
    pub open spec fn state(&self, out: Seq<i16>) -> MachineState {
        MachineState {
            mem: self.memory@,
            mem8: self.memory_i8@,
            mem32: self.memory_i32@,
            scales: self.block_scales@,
            out,
        }
    }

    pub fn new(memory_size: usize) -> (e: Self)
        ensures
            e.memory@ == Seq::new(memory_size as nat, |i: int| 0i16),
            e.memory_i8@ == Seq::<i8>::empty(),
            e.memory_i32@ == Seq::<i32>::empty(),
            e.block_scales@ == Seq::<i16>::empty(),
    {
        let mut memory: Vec<i16> = Vec::new();
        grow_vec(&mut memory, memory_size, 0i16);
        assert(memory@ =~= Seq::new(memory_size as nat, |i: int| 0i16));
        Executor { memory, memory_i8: Vec::new(), memory_i32: Vec::new(), block_scales: Vec::new() }
    }

    /// Entry `index` of the block scale table.
    pub fn block_scale(&self, index: usize) -> (r: Option<i16>)
        ensures
            r == (if index < self.block_scales@.len() { Some(self.block_scales@[index as int]) } else { None::<i16> }),
    {
        if index < self.block_scales.len() {
            Some(self.block_scales[index])
        } else {
            None
        }
    }

    /// Sizes the buffers for `graph` (see `prepared`).
    pub fn prepare(&mut self, graph: &XimGraph)
        ensures
            forall|out: Seq<i16>| final(self).state(out) == #[trigger] prepared(old(self).state(out), graph.ops(), graph.memory_size as nat),
    {
        let size = graph.memory_size;
        grow_vec(&mut self.memory, size, 0i16);
        let mut needs_i8 = false;
        let mut needs_i32 = false;
        let mut needs_f32 = false;
        let ghost ops = graph.ops();
        let mut i: usize = 0;
        while i < graph.instructions.len()
            invariant
                i <= graph.instructions.len(),
                ops == graph.ops(),
                ops.len() == graph.instructions.len(),
                needs_i8 == (exists|k: int| 0 <= k < i && #[trigger] is_i8_op(ops[k])),
                needs_i32 == (exists|k: int| 0 <= k < i && #[trigger] is_i32_op(ops[k])),
                needs_f32 == (exists|k: int| 0 <= k < i && #[trigger] is_scale_op(ops[k])),
            decreases graph.instructions.len() - i,
        {
            let op = graph.instructions[i].op;
            assert(ops[i as int] == op);
            let (a, b, c) = op_buffer_needs(op);
            needs_i8 = needs_i8 || a;
            needs_i32 = needs_i32 || b;
            needs_f32 = needs_f32 || c;
            i += 1;
        }
        if needs_i8 {
            grow_vec(&mut self.memory_i8, size, 0i8);
        }
        if needs_i32 {
            grow_vec(&mut self.memory_i32, size, 0i32);
        }
        if needs_f32 {
            grow_vec(&mut self.block_scales, size / 32 + 1, 0i16);
        }
    }

    /// Runs one instruction (all but `AIOStepBlock`, whose gradients the
    /// host computes; see `execute_block_step`).  A refused instruction
    /// leaves the machine unchanged.
    #[verifier::rlimit(80)]
    fn step_fault(&mut self, op: OpCode, inputs: &[i16], outputs: &mut [i16]) -> (r: Result<(), Fault>)
        ensures
            match step(old(self).state(old(outputs)@), op, inputs@) {
                Ok(s) => r is Ok && final(self).state(final(outputs)@) == s,
                Err(f) => r == Err::<(), Fault>(f) && final(self).state(final(outputs)@) == old(self).state(old(outputs)@),
            },
    {
        proof {
            reveal(step);
        }
        match op {
            OpCode::LoadVar(var, dst) => exec_load_var(&mut self.memory, inputs, var, dst),
            OpCode::Store(src, out_id) => exec_store(&self.memory, outputs, src, out_id),
            OpCode::Add(l, r, d) => exec_cell(&mut self.memory, l, r, d, BinKind::Add),
            OpCode::Sub(l, r, d) => exec_cell(&mut self.memory, l, r, d, BinKind::Sub),
            OpCode::Mul(l, r, d) => exec_cell(&mut self.memory, l, r, d, BinKind::Mul),
            OpCode::AddVec(l, r, d, len) => exec_bin(&mut self.memory, l, r, d, len, BinKind::Add),
            OpCode::GradAdd(l, r, d, len) => exec_bin(&mut self.memory, l, r, d, len, BinKind::Add),
            OpCode::MulVec(l, r, d, len) => exec_bin(&mut self.memory, l, r, d, len, BinKind::Mul),
            OpCode::GradMul(l, r, d, len) => exec_bin(&mut self.memory, l, r, d, len, BinKind::Mul),
            OpCode::LoadVarVec(var, dst, len) => exec_load_vec(&mut self.memory, inputs, var, dst, len),
            OpCode::StoreVec(src, out_id, len) => exec_store_vec(&self.memory, outputs, src, out_id, len),
            OpCode::AdamWStep(w, g, m, v, len) => exec_adamw(&mut self.memory, w, g, m, v, len),
            OpCode::LoadVarVec8(var, dst, len) => exec_load_vec8(&mut self.memory_i8, inputs, var, dst, len),
            OpCode::StoreVec8(src, out_id, len) => exec_store_vec8(&self.memory_i8, outputs, src, out_id, len),
            OpCode::AddVec8(l, r, d, len) => exec_bin8(&mut self.memory_i8, l, r, d, len, false),
            OpCode::MulVec8(l, r, d, len) => exec_bin8(&mut self.memory_i8, l, r, d, len, true),
            OpCode::AIOStep(w, g, m, v, len, precision) => {
                if precision == 2 {
                    exec_aio32(&mut self.memory, &mut self.memory_i32, w, g, m, v, len)
                } else {
                    exec_aio16(&mut self.memory, w, g, m, v, len)
                }
            },
            OpCode::BlockScale(src, _dst, len) => exec_block_scale(&self.memory, &mut self.block_scales, src, len),
            OpCode::AIOStepBlock(..) => Err(Fault::NeedsHost),
            OpCode::FillVec(val, dst, len) => exec_fill(&mut self.memory, val, dst, len),
            OpCode::AddScalarVec(l, val, d, len) => exec_scalar(&mut self.memory, l, val, d, len, BinKind::Add),
            OpCode::MulScalarVec(l, val, d, len) => exec_scalar(&mut self.memory, l, val, d, len, BinKind::Mul),
        }
    }

    /// Runs one instruction on the executor's buffers as they stand (they
    /// are not resized).  Fails, leaving the machine unchanged, exactly when
    /// `step` faults; `AIOStepBlock` always fails here.
    pub fn execute_instruction(&mut self, op: OpCode, inputs: &[i16], outputs: &mut [i16]) -> (r: Result<(), XimError>)
        ensures
            match step(old(self).state(old(outputs)@), op, inputs@) {
                Ok(s) => r is Ok && final(self).state(final(outputs)@) == s,
                Err(f) => r matches Err(e) && reports(e, f) && final(self).state(final(outputs)@) == old(self).state(old(outputs)@),
            },
    {
        match self.step_fault(op, inputs, outputs) {
            Ok(()) => Ok(()),
            Err(f) => Err(fault_error(f)),
        }
    }

    /// Executes the graph using the provided inputs and writes to the output
    /// buffer: sizes the buffers for the graph (`prepare`), then runs the
    /// instructions in order.  Fails exactly when the program faults.
    pub fn execute(&mut self, graph: &XimGraph, inputs: &[i16], outputs: &mut [i16]) -> (r: Result<(), XimError>)
        ensures
            match run(prepared(old(self).state(old(outputs)@), graph.ops(), graph.memory_size as nat), graph.ops(), inputs@) {
                Ok(s) => r is Ok && final(self).state(final(outputs)@) == s,
                Err(f) => r matches Err(e) && reports(e, f),
            },
            final(self).state(final(outputs)@) == last_state(
                prepared(old(self).state(old(outputs)@), graph.ops(), graph.memory_size as nat),
                graph.ops(),
                inputs@,
            ),
    {
        self.prepare(graph);
        let ghost s0 = self.state(outputs@);
        let ghost ops = graph.ops();
        assert(s0 == prepared(old(self).state(old(outputs)@), ops, graph.memory_size as nat));
        let mut pc: usize = 0;
        while pc < graph.instructions.len()
            invariant
                pc <= graph.instructions.len(),
                ops == graph.ops(),
                ops.len() == graph.instructions.len(),
                s0 == prepared(old(self).state(old(outputs)@), ops, graph.memory_size as nat),
                run(s0, ops.take(pc as int), inputs@) == Ok::<MachineState, Fault>(self.state(outputs@)),
            decreases graph.instructions.len() - pc,
        {
            let op = graph.instructions[pc].op;
            assert(ops.take(pc + 1).drop_last() =~= ops.take(pc as int));
            assert(ops.take(pc + 1).last() == op);
            match self.step_fault(op, inputs, outputs) {
                Ok(()) => {},
                Err(f) => {
                    proof {
                        lemma_run_stops(s0, ops, inputs@, (pc + 1) as nat);
                        lemma_last_state_fault(s0, ops, inputs@, pc as int, ops.len() as int);
                        assert(ops.take(ops.len() as int) =~= ops);
                    }
                    return Err(fault_error(f));
                },
            }
            pc += 1;
        }
        assert(ops.take(pc as int) =~= ops);
        proof {
            lemma_last_state_ok(s0, ops, inputs@);
        }
        Ok(())
    }

    /// Where `op` is a block-scaled optimizer step, which runs on gradients
    /// the host computes: its gradient offset, scale offset and length.
    pub fn host_gradients(op: OpCode) -> (r: Option<(u32, u32, u32)>)
        ensures
            match op {
                OpCode::AIOStepBlock(_, g, _, _, s, len) => r == Some((g, s, len)),
                _ => r is None,
            },
    {
        match op {
            OpCode::AIOStepBlock(_, g, _, _, s, len) => Some((g, s, len)),
            _ => None,
        }
    }

    /// Whether some instruction of `graph` needs gradients from the host.
    pub fn graph_needs_host(graph: &XimGraph) -> (b: bool)
        ensures
            b <==> exists|k: int| 0 <= k < graph.ops().len() && #[trigger] graph.ops()[k] is AIOStepBlock,
    {
        let ghost ops = graph.ops();
        let mut k: usize = 0;
        while k < graph.instructions.len()
            invariant
                ops == graph.ops(),
                ops.len() == graph.instructions.len(),
                k <= ops.len(),
                forall|j: int| 0 <= j < k ==> !(#[trigger] ops[j] is AIOStepBlock),
            decreases graph.instructions.len() - k,
        {
            assert(ops[k as int] == graph.instructions[k as int].op);
            if let OpCode::AIOStepBlock(..) = graph.instructions[k].op {
                return true;
            }
            k += 1;
        }
        false
    }

    /// The AIO step on blocks of 32 (`AIOStepBlock`) with the scaled
    /// gradients computed by the host from the block scale table.  Fails,
    /// leaving the machine unchanged, exactly when `step_block_host` faults.
    pub fn execute_block_step(&mut self, op: OpCode, grads: &[i32]) -> (r: Result<(), XimError>)
        ensures
            forall|out: Seq<i16>|
                match #[trigger] step_block_host(old(self).state(out), op, grads@) {
                    Ok(s) => r is Ok && final(self).state(out) == s,
                    Err(f) => r matches Err(e) && reports(e, f) && final(self).state(out) == old(self).state(out),
                },
    {
        match op {
            OpCode::AIOStepBlock(w, g, m, v, sc, len) => {
                let n = self.memory.len();
                let (w, g, m, v, sc, len) = (w as usize, g as usize, m as usize, v as usize, sc as usize, len as usize);
                let cnt = (len / 32) * 32;
                if !(range_ok(w, len, n) && range_ok(g, len, n) && range_ok(m, len, n) && range_ok(v, len, n)
                    && sc <= self.block_scales.len() && len / 32 <= self.block_scales.len() - sc && grads.len() == cnt) {
                    return Err(fault_error(Fault::OutOfBounds));
                }
                let ghost s = self.memory@;
                let mut mn: Vec<i16> = Vec::new();
                let mut vn: Vec<i16> = Vec::new();
                let mut wn: Vec<i16> = Vec::new();
                let mut i: usize = 0;
                #[verifier::loop_isolation(false)]
                while i < cnt
                    invariant
                        s == self.memory@,
                        n == self.memory.len(),
                        cnt <= len,
                        grads@.len() == cnt,
                        i <= cnt,
                        forall|k: int| 0 <= k < i ==> #[trigger] block_fits(s[m + k], s[v + k], grads@[k]),
                        mn@ =~= Seq::new(i as nat, |k: int| clamp_i16(block_m(s[m + k], grads@[k])) as i16),
                        vn@ =~= Seq::new(i as nat, |k: int| clamp_i16(block_v(s[v + k], grads@[k])) as i16),
                        wn@ =~= Seq::new(i as nat, |k: int| block_w(s[w + k], s[m + k], grads@[k])),
                    decreases cnt - i,
                {
                    match block_elem(self.memory[m + i], self.memory[v + i], self.memory[w + i], grads[i]) {
                        None => {
                            assert(!block_fits(s[m + i], s[v + i], grads@[i as int]));
                            return Err(fault_error(Fault::Overflow));
                        },
                        Some((m_new, v_new, w_new)) => {
                            mn.push(m_new);
                            vn.push(v_new);
                            wn.push(w_new);
                        },
                    }
                    i += 1;
                }
                write_vec(&mut self.memory, m, &mn);
                write_vec(&mut self.memory, v, &vn);
                write_vec(&mut self.memory, w, &wn);
                Ok(())
            },
            _ => Err(fault_error(Fault::NeedsHost)),
        }
    }

    /// Runs the i8 sums and products of `graph` on the i8 scratchpad as it
    /// stands; other instructions are skipped, inputs and outputs unused.
    pub fn execute_i8(&mut self, graph: &XimGraph, _inputs: &[i8], _outputs: &mut [i8]) -> (r: Result<(), XimError>)
        ensures
            match run_i8(old(self).memory_i8@, graph.ops()) {
                Ok(m8) => r is Ok && final(self).memory_i8@ == m8,
                Err(f) => r matches Err(e) && reports(e, f),
            },
            final(self).memory@ == old(self).memory@,
            final(self).memory_i32@ == old(self).memory_i32@,
            final(self).block_scales@ == old(self).block_scales@,
            final(_outputs)@ == old(_outputs)@,
    {
        let ghost m0 = self.memory_i8@;
        let ghost ops = graph.ops();
        let mut pc: usize = 0;
        while pc < graph.instructions.len()
            invariant
                pc <= graph.instructions.len(),
                ops == graph.ops(),
                ops.len() == graph.instructions.len(),
                m0 == old(self).memory_i8@,
                run_i8(m0, ops.take(pc as int)) == Ok::<Seq<i8>, Fault>(self.memory_i8@),
                self.memory@ == old(self).memory@,
                self.memory_i32@ == old(self).memory_i32@,
                self.block_scales@ == old(self).block_scales@,
            decreases graph.instructions.len() - pc,
        {
            let op = graph.instructions[pc].op;
            assert(ops.take(pc + 1).drop_last() =~= ops.take(pc as int));
            assert(ops.take(pc + 1).last() == op);
            let res = match op {
                OpCode::AddVec8(l, r, d, len) => exec_bin8(&mut self.memory_i8, l, r, d, len, false),
                OpCode::MulVec8(l, r, d, len) => exec_bin8(&mut self.memory_i8, l, r, d, len, true),
                _ => Ok(()),
            };
            match res {
                Ok(()) => {},
                Err(f) => {
                    proof {
                        lemma_run_i8_stops(m0, ops, (pc + 1) as nat);
                    }
                    return Err(fault_error(f));
                },
            }
            pc += 1;
        }
        assert(ops.take(pc as int) =~= ops);
        Ok(())
    }
}

} // verus!
