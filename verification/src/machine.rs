use vstd::prelude::*;
use crate::ir::OpCode;
use crate::kernels::{BinKind, bin16, bin8, clamp_i16, narrow_q8, widen_q6};

verus! {

// The semantics of XIM programs.
//
// A vector instruction reads all of its operands before it writes its
// results; where its destination ranges overlap, the range written last
// (weights after second moments after first moments) wins.

/// Why an instruction cannot run.
#[derive(Debug, Clone, Copy, PartialEq, Eq, Structural)]
pub enum Fault {
    /// An operand range lies outside its buffer, or an offset sum leaves u32.
    OutOfBounds,
    /// An intermediate value leaves the range of its integer type.
    Overflow,
    /// The instruction needs f32 block gradients computed by the host.
    NeedsHost,
    /// The input or output buffer is shorter than an instruction needs:
    /// the length it needs, the length it has.
    ShortBuffer(u64, usize),
}

/// The fault of a buffer of `have` elements where `needed` are read or
/// written.
pub open spec fn short(needed: int, have: nat) -> Fault {
    Fault::ShortBuffer(needed as u64, have as usize)
}

/// The state of the machine: the i16, i8 and i32 scratchpads, the block scale
/// table (the largest magnitude of each block) and the output buffer.
pub struct MachineState {
    pub mem: Seq<i16>,
    pub mem8: Seq<i8>,
    pub mem32: Seq<i32>,
    pub scales: Seq<i16>,
    pub out: Seq<i16>,
}

/// `[off, off + len)` lies inside a buffer of `n` elements.
pub open spec fn in_range(off: int, len: int, n: int) -> bool {
    0 <= off && 0 <= len && off + len <= n
}

/// `s` with `vals` written from position `off` on.
pub open spec fn write_range<T>(s: Seq<T>, off: int, vals: Seq<T>) -> Seq<T> {
    Seq::new(s.len(), |k: int| if off <= k < off + vals.len() { vals[k - off] } else { s[k] })
}

/// `s` extended with `z` up to length `n` (unchanged when already as long).
pub open spec fn grow<T>(s: Seq<T>, n: nat, z: T) -> Seq<T> {
    if s.len() < n {
        s + Seq::new((n - s.len()) as nat, |i: int| z)
    } else {
        s
    }
}

/// Elementwise `kind` of two ranges of `s`.
pub open spec fn map_bin16(s: Seq<i16>, l: int, r: int, len: nat, kind: BinKind) -> Seq<i16> {
    Seq::new(len, |i: int| bin16(kind, s[l + i], s[r + i]))
}

/// Elementwise `kind` of a range of `s` and a scalar.
pub open spec fn map_scalar16(s: Seq<i16>, l: int, val: i16, len: nat, kind: BinKind) -> Seq<i16> {
    Seq::new(len, |i: int| bin16(kind, s[l + i], val))
}

/// Elementwise i8 operation of two ranges of `s`.
pub open spec fn map_bin8(s: Seq<i8>, l: int, r: int, len: nat, mul: bool) -> Seq<i8> {
    Seq::new(len, |i: int| bin8(mul, s[l + i], s[r + i]))
}

// ---- AdamW step (i16 moments, saturated) ----

/// The new first moment before saturation: `(m * 230 + g * 26) >> 8`.
pub open spec fn adamw_m(m: i16, g: i16) -> int {
    (m * 230 + g * 26) / 256
}

/// The new second moment before saturation: `(v * 255 + ((g * g) >> 8)) >> 8`.
pub open spec fn adamw_v(v: i16, g: i16) -> int {
    (v * 255 + (g * g) / 256) / 256
}

/// The new weight: `w` minus the new first moment shifted right by 4, saturated.
/// The AdamW weight step for a new first moment `mv`: `mv / 16` rounded
/// away from zero, so that any nonzero moment moves the weight.
pub open spec fn adamw_step(mv: int) -> int {
    if mv > 0 {
        (mv + 15) / 16
    } else {
        mv / 16
    }
}

pub open spec fn adamw_w(w: i16, m: i16, g: i16) -> i16 {
    clamp_i16(w - adamw_step(adamw_m(m, g))) as i16
}

pub open spec fn adamw_update(s: Seq<i16>, w: int, g: int, m: int, v: int, len: nat) -> Seq<i16> {
    let mn = Seq::new(len, |i: int| clamp_i16(adamw_m(s[m + i], s[g + i])) as i16);
    let vn = Seq::new(len, |i: int| clamp_i16(adamw_v(s[v + i], s[g + i])) as i16);
    let wn = Seq::new(len, |i: int| adamw_w(s[w + i], s[m + i], s[g + i]));
    write_range(write_range(write_range(s, m, mn), v, vn), w, wn)
}

// ---- AIO step with i16 moments (moments truncated to i16) ----

pub open spec fn aio16_m(m: i16, g: i16) -> i16 {
    ((m * 230 + g * 26) / 256) as i16
}

pub open spec fn aio16_v(v: i16, g: i16) -> i16 {
    ((v * 255 + (g * g) / 256) / 256) as i16
}

pub open spec fn aio16_w(w: i16, m: i16, g: i16) -> i16 {
    clamp_i16(w - aio16_m(m, g) / 16) as i16
}

pub open spec fn aio16_update(s: Seq<i16>, w: int, g: int, m: int, v: int, len: nat) -> Seq<i16> {
    let mn = Seq::new(len, |i: int| aio16_m(s[m + i], s[g + i]));
    let vn = Seq::new(len, |i: int| aio16_v(s[v + i], s[g + i]));
    let wn = Seq::new(len, |i: int| aio16_w(s[w + i], s[m + i], s[g + i]));
    write_range(write_range(write_range(s, m, mn), v, vn), w, wn)
}

/// The moment ranges of an AIO step, `m_s = buf[m..v][..len]` and
/// `v_s = buf[v..][..len]`, exist in a buffer of `n` elements.
pub open spec fn aio_moments_ok(m: int, v: int, len: int, n: int) -> bool {
    if v >= m {
        v <= n && m + len <= v && v + len <= n
    } else {
        len == 0 && m <= n
    }
}

// ---- AIO step with i32 moments (checked) ----

pub open spec fn fits_i32(x: int) -> bool {
    i32::MIN <= x <= i32::MAX
}

pub open spec fn aio32_m(m: i32, g: i16) -> int {
    (m * 900 + g * 124) / 1024
}

pub open spec fn aio32_v(v: i32, g: i16) -> int {
    (v * 999 + (g * g) / 256) / 1024
}

/// No i32 intermediate of the step overflows.
pub open spec fn aio32_fits(m: i32, v: i32, g: i16) -> bool {
    &&& fits_i32(m * 900)
    &&& fits_i32(m * 900 + g * 124)
    &&& fits_i32(v * 999)
    &&& fits_i32(v * 999 + (g * g) / 256)
}

pub open spec fn aio32_w(w: i16, m: i32, g: i16) -> i16 {
    clamp_i16(w - ((aio32_m(m, g) / 256) as i16)) as i16
}


// ---- block scaling ----

pub open spec fn abs16(x: i16) -> int {
    if x < 0 {
        -x
    } else {
        x as int
    }
}

/// The largest magnitude among `s[off..off + n]`, at least 1.
pub open spec fn block_max(s: Seq<i16>, off: int, n: nat) -> int
    decreases n,
{
    if n == 0 {
        1
    } else {
        let prev = block_max(s, off, (n - 1) as nat);
        let a = abs16(s[off + n - 1]);
        if a > prev {
            a
        } else {
            prev
        }
    }
}

/// The number of blocks of 32 that cover `len` values.
pub open spec fn num_blocks(len: nat) -> nat {
    (len + 31) / 32
}

/// The block maxima of `s[src..src + len]`, one per block of 32.
pub open spec fn block_maxima(s: Seq<i16>, src: int, len: nat) -> Seq<i16> {
    Seq::new(
        num_blocks(len),
        |k: int| block_max(s, src + 32 * k, (if len - 32 * k < 32 { len - 32 * k } else { 32 }) as nat) as i16,
    )
}

// ---- AIO step with host block gradients ----

pub open spec fn block_m(m: i16, gr: i32) -> int {
    (m * 230 + gr * 26) / 256
}

pub open spec fn block_v(v: i16, gr: i32) -> int {
    (v * 255 + (gr * gr) / 256) / 256
}

pub open spec fn block_fits(m: i16, v: i16, gr: i32) -> bool {
    &&& fits_i32(gr * 26)
    &&& fits_i32(m * 230 + gr * 26)
    &&& fits_i32(gr * gr)
    &&& fits_i32(v * 255 + (gr * gr) / 256)
}

pub open spec fn block_w(w: i16, m: i16, gr: i32) -> i16 {
    clamp_i16(w - ((block_m(m, gr) / 16) as i16)) as i16
}

// ---- machine steps ----

pub open spec fn with_mem(s: MachineState, mem: Seq<i16>) -> MachineState {
    MachineState { mem, mem8: s.mem8, mem32: s.mem32, scales: s.scales, out: s.out }
}

pub open spec fn with_mem8(s: MachineState, mem8: Seq<i8>) -> MachineState {
    MachineState { mem: s.mem, mem8, mem32: s.mem32, scales: s.scales, out: s.out }
}

pub open spec fn with_out(s: MachineState, out: Seq<i16>) -> MachineState {
    MachineState { mem: s.mem, mem8: s.mem8, mem32: s.mem32, scales: s.scales, out }
}

pub open spec fn with_mem_mem32(s: MachineState, mem: Seq<i16>, mem32: Seq<i32>) -> MachineState {
    MachineState { mem, mem8: s.mem8, mem32, scales: s.scales, out: s.out }
}

pub open spec fn with_scales(s: MachineState, scales: Seq<i16>) -> MachineState {
    MachineState { mem: s.mem, mem8: s.mem8, mem32: s.mem32, scales, out: s.out }
}

/// A scalar i16 operation on three memory cells.
pub open spec fn cell_result(mem: Seq<i16>, l: u32, r: u32, d: u32, kind: BinKind) -> Result<Seq<i16>, Fault> {
    if l < mem.len() && r < mem.len() && d < mem.len() {
        Ok(mem.update(d as int, bin16(kind, mem[l as int], mem[r as int])))
    } else {
        Err(Fault::OutOfBounds)
    }
}

/// Elementwise i16 operation of two memory ranges.
pub open spec fn bin_result(mem: Seq<i16>, l: u32, r: u32, d: u32, len: u32, kind: BinKind) -> Result<Seq<i16>, Fault> {
    let n = mem.len() as int;
    if in_range(l as int, len as int, n) && in_range(r as int, len as int, n) && in_range(d as int, len as int, n) {
        Ok(write_range(mem, d as int, map_bin16(mem, l as int, r as int, len as nat, kind)))
    } else {
        Err(Fault::OutOfBounds)
    }
}

/// Elementwise i16 operation of a memory range and a scalar.
pub open spec fn scalar_result(mem: Seq<i16>, l: u32, val: i16, d: u32, len: u32, kind: BinKind) -> Result<Seq<i16>, Fault> {
    let n = mem.len() as int;
    if in_range(l as int, len as int, n) && in_range(d as int, len as int, n) {
        Ok(write_range(mem, d as int, map_scalar16(mem, l as int, val, len as nat, kind)))
    } else {
        Err(Fault::OutOfBounds)
    }
}

/// Elementwise i8 operation of two i8 memory ranges.
pub open spec fn bin8_result(mem8: Seq<i8>, l: u32, r: u32, d: u32, len: u32, mul: bool) -> Result<Seq<i8>, Fault> {
    let n = mem8.len() as int;
    if in_range(l as int, len as int, n) && in_range(r as int, len as int, n) && in_range(d as int, len as int, n) {
        Ok(write_range(mem8, d as int, map_bin8(mem8, l as int, r as int, len as nat, mul)))
    } else {
        Err(Fault::OutOfBounds)
    }
}

pub open spec fn adamw_result(mem: Seq<i16>, w: u32, g: u32, m: u32, v: u32, len: u32) -> Result<Seq<i16>, Fault> {
    let n = mem.len() as int;
    if in_range(w as int, len as int, n) && in_range(g as int, len as int, n) && in_range(m as int, len as int, n)
        && in_range(v as int, len as int, n) {
        Ok(adamw_update(mem, w as int, g as int, m as int, v as int, len as nat))
    } else {
        Err(Fault::OutOfBounds)
    }
}

pub open spec fn aio16_result(mem: Seq<i16>, w: u32, g: u32, m: u32, v: u32, len: u32) -> Result<Seq<i16>, Fault> {
    let n = mem.len() as int;
    if in_range(w as int, len as int, n) && in_range(g as int, len as int, n) && aio_moments_ok(m as int, v as int, len as int, n) {
        Ok(aio16_update(mem, w as int, g as int, m as int, v as int, len as nat))
    } else {
        Err(Fault::OutOfBounds)
    }
}

pub open spec fn aio32_all_fit(mem: Seq<i16>, mem32: Seq<i32>, g: int, m: int, v: int, len: nat) -> bool {
    forall|i: int| 0 <= i < len ==> #[trigger] aio32_fits(mem32[m + i], mem32[v + i], mem[g + i])
}

pub open spec fn aio32_result(mem: Seq<i16>, mem32: Seq<i32>, w: u32, g: u32, m: u32, v: u32, len: u32) -> Result<(Seq<i16>, Seq<i32>), Fault> {
    let n = mem.len() as int;
    let l = len as nat;
    if !(in_range(w as int, len as int, n) && in_range(g as int, len as int, n)
        && aio_moments_ok(m as int, v as int, len as int, mem32.len() as int)) {
        Err(Fault::OutOfBounds)
    } else if !aio32_all_fit(mem, mem32, g as int, m as int, v as int, l) {
        Err(Fault::Overflow)
    } else {
        let mn = Seq::new(l, |i: int| aio32_m(mem32[m + i], mem[g + i]) as i32);
        let vn = Seq::new(l, |i: int| aio32_v(mem32[v + i], mem[g + i]) as i32);
        let wn = Seq::new(l, |i: int| aio32_w(mem[w + i], mem32[m + i], mem[g + i]));
        Ok((write_range(mem, w as int, wn), write_range(write_range(mem32, m as int, mn), v as int, vn)))
    }
}

pub open spec fn no_min16(s: Seq<i16>, off: int, len: int) -> bool {
    forall|k: int| off <= k < off + len ==> s[k] != i16::MIN
}

pub open spec fn block_scale_result(mem: Seq<i16>, scales: Seq<i16>, src: u32, len: u32) -> Result<Seq<i16>, Fault> {
    if !(in_range(src as int, len as int, mem.len() as int) && num_blocks(len as nat) <= scales.len()) {
        Err(Fault::OutOfBounds)
    } else if !no_min16(mem, src as int, len as int) {
        Err(Fault::Overflow)
    } else {
        Ok(write_range(scales, 0, block_maxima(mem, src as int, len as nat)))
    }
}

pub open spec fn load_var_result(mem: Seq<i16>, inp: Seq<i16>, var: u32, dst: u32) -> Result<Seq<i16>, Fault> {
    if !(var < inp.len()) {
        Err(short(var + 1, inp.len()))
    } else if dst < mem.len() {
        Ok(mem.update(dst as int, inp[var as int]))
    } else {
        Err(Fault::OutOfBounds)
    }
}

pub open spec fn store_result(out: Seq<i16>, mem: Seq<i16>, src: u32, out_id: u32) -> Result<Seq<i16>, Fault> {
    if !(out_id < out.len()) {
        Err(short(out_id + 1, out.len()))
    } else if src < mem.len() {
        Ok(out.update(out_id as int, mem[src as int]))
    } else {
        Err(Fault::OutOfBounds)
    }
}

pub open spec fn load_vec_result(mem: Seq<i16>, inp: Seq<i16>, var: u32, dst: u32, len: u32) -> Result<Seq<i16>, Fault> {
    if !(var + len <= u32::MAX && dst + len <= u32::MAX) {
        Err(Fault::OutOfBounds)
    } else if !in_range(var as int, len as int, inp.len() as int) {
        Err(short(var + len, inp.len()))
    } else if in_range(dst as int, len as int, mem.len() as int) {
        Ok(write_range(mem, dst as int, inp.subrange(var as int, var + len)))
    } else {
        Err(Fault::OutOfBounds)
    }
}

pub open spec fn store_vec_result(out: Seq<i16>, mem: Seq<i16>, src: u32, out_id: u32, len: u32) -> Result<Seq<i16>, Fault> {
    if !(out_id + len <= u32::MAX && src + len <= u32::MAX) {
        Err(Fault::OutOfBounds)
    } else if !in_range(out_id as int, len as int, out.len() as int) {
        Err(short(out_id + len, out.len()))
    } else if in_range(src as int, len as int, mem.len() as int) {
        Ok(write_range(out, out_id as int, mem.subrange(src as int, src + len)))
    } else {
        Err(Fault::OutOfBounds)
    }
}

pub open spec fn load_vec8_result(mem8: Seq<i8>, inp: Seq<i16>, var: u32, dst: u32, len: u32) -> Result<Seq<i8>, Fault> {
    if !in_range(var as int, len as int, inp.len() as int) {
        Err(short(var + len, inp.len()))
    } else if in_range(dst as int, len as int, mem8.len() as int) {
        Ok(write_range(mem8, dst as int, Seq::new(len as nat, |i: int| narrow_q8(inp[var + i]))))
    } else {
        Err(Fault::OutOfBounds)
    }
}

pub open spec fn store_vec8_result(out: Seq<i16>, mem8: Seq<i8>, src: u32, out_id: u32, len: u32) -> Result<Seq<i16>, Fault> {
    if !in_range(out_id as int, len as int, out.len() as int) {
        Err(short(out_id + len, out.len()))
    } else if in_range(src as int, len as int, mem8.len() as int) {
        Ok(write_range(out, out_id as int, Seq::new(len as nat, |i: int| widen_q6(mem8[src + i]))))
    } else {
        Err(Fault::OutOfBounds)
    }
}

pub open spec fn fill_result(mem: Seq<i16>, val: i16, dst: u32, len: u32) -> Result<Seq<i16>, Fault> {
    if dst + len <= u32::MAX && in_range(dst as int, len as int, mem.len() as int) {
        Ok(write_range(mem, dst as int, Seq::new(len as nat, |i: int| val)))
    } else {
        Err(Fault::OutOfBounds)
    }
}

pub open spec fn lift_mem(s: MachineState, r: Result<Seq<i16>, Fault>) -> Result<MachineState, Fault> {
    match r {
        Ok(mem) => Ok(with_mem(s, mem)),
        Err(f) => Err(f),
    }
}

pub open spec fn lift_mem8(s: MachineState, r: Result<Seq<i8>, Fault>) -> Result<MachineState, Fault> {
    match r {
        Ok(mem8) => Ok(with_mem8(s, mem8)),
        Err(f) => Err(f),
    }
}

pub open spec fn lift_out(s: MachineState, r: Result<Seq<i16>, Fault>) -> Result<MachineState, Fault> {
    match r {
        Ok(out) => Ok(with_out(s, out)),
        Err(f) => Err(f),
    }
}

pub open spec fn lift_scales(s: MachineState, r: Result<Seq<i16>, Fault>) -> Result<MachineState, Fault> {
    match r {
        Ok(scales) => Ok(with_scales(s, scales)),
        Err(f) => Err(f),
    }
}

pub open spec fn lift_mem_mem32(s: MachineState, r: Result<(Seq<i16>, Seq<i32>), Fault>) -> Result<MachineState, Fault> {
    match r {
        Ok(p) => Ok(with_mem_mem32(s, p.0, p.1)),
        Err(f) => Err(f),
    }
}

/// The effect of one instruction.
#[verifier::opaque]
pub open spec fn step(s: MachineState, op: OpCode, inp: Seq<i16>) -> Result<MachineState, Fault> {
    match op {
        OpCode::LoadVar(var, dst) => lift_mem(s, load_var_result(s.mem, inp, var, dst)),
        OpCode::Store(src, out_id) => lift_out(s, store_result(s.out, s.mem, src, out_id)),
        OpCode::Add(l, r, d) => lift_mem(s, cell_result(s.mem, l, r, d, BinKind::Add)),
        OpCode::Sub(l, r, d) => lift_mem(s, cell_result(s.mem, l, r, d, BinKind::Sub)),
        OpCode::Mul(l, r, d) => lift_mem(s, cell_result(s.mem, l, r, d, BinKind::Mul)),
        OpCode::AddVec(l, r, d, len) => lift_mem(s, bin_result(s.mem, l, r, d, len, BinKind::Add)),
        OpCode::GradAdd(l, r, d, len) => lift_mem(s, bin_result(s.mem, l, r, d, len, BinKind::Add)),
        OpCode::MulVec(l, r, d, len) => lift_mem(s, bin_result(s.mem, l, r, d, len, BinKind::Mul)),
        OpCode::GradMul(l, r, d, len) => lift_mem(s, bin_result(s.mem, l, r, d, len, BinKind::Mul)),
        OpCode::LoadVarVec(var, dst, len) => lift_mem(s, load_vec_result(s.mem, inp, var, dst, len)),
        OpCode::StoreVec(src, out_id, len) => lift_out(s, store_vec_result(s.out, s.mem, src, out_id, len)),
        OpCode::AdamWStep(w, g, m, v, len) => lift_mem(s, adamw_result(s.mem, w, g, m, v, len)),
        OpCode::LoadVarVec8(var, dst, len) => lift_mem8(s, load_vec8_result(s.mem8, inp, var, dst, len)),
        OpCode::StoreVec8(src, out_id, len) => lift_out(s, store_vec8_result(s.out, s.mem8, src, out_id, len)),
        OpCode::AddVec8(l, r, d, len) => lift_mem8(s, bin8_result(s.mem8, l, r, d, len, false)),
        OpCode::MulVec8(l, r, d, len) => lift_mem8(s, bin8_result(s.mem8, l, r, d, len, true)),
        OpCode::AIOStep(w, g, m, v, len, precision) => {
            if precision == 2 {
                lift_mem_mem32(s, aio32_result(s.mem, s.mem32, w, g, m, v, len))
            } else {
                lift_mem(s, aio16_result(s.mem, w, g, m, v, len))
            }
        },
        OpCode::BlockScale(src, _dst, len) => lift_scales(s, block_scale_result(s.mem, s.scales, src, len)),
        OpCode::AIOStepBlock(_w, _g, _m, _v, _s, _len) => Err(Fault::NeedsHost),
        OpCode::FillVec(val, dst, len) => lift_mem(s, fill_result(s.mem, val, dst, len)),
        OpCode::AddScalarVec(l, val, d, len) => lift_mem(s, scalar_result(s.mem, l, val, d, len, BinKind::Add)),
        OpCode::MulScalarVec(l, val, d, len) => lift_mem(s, scalar_result(s.mem, l, val, d, len, BinKind::Mul)),
    }
}

/// The effect of a program: its instructions in order, stopping at the
/// first fault.
pub open spec fn run(s: MachineState, ops: Seq<OpCode>, inp: Seq<i16>) -> Result<MachineState, Fault>
    decreases ops.len(),
{
    if ops.len() == 0 {
        Ok(s)
    } else {
        match run(s, ops.drop_last(), inp) {
            Ok(t) => step(t, ops.last(), inp),
            Err(f) => Err(f),
        }
    }
}

/// The AIO step on blocks of 32 with gradients supplied by the host:
/// `grads[b * 32 + i]` is the scaled gradient of element `i` of block `b`.
pub open spec fn step_block_host(s: MachineState, op: OpCode, grads: Seq<i32>) -> Result<MachineState, Fault> {
    match op {
        OpCode::AIOStepBlock(w, g, m, v, sc, len) => {
            let n = s.mem.len() as int;
            let cnt = ((len / 32) * 32) as nat;
            if !(in_range(w as int, len as int, n) && in_range(g as int, len as int, n) && in_range(m as int, len as int, n)
                && in_range(v as int, len as int, n) && sc <= s.scales.len() && sc + len / 32 <= s.scales.len()
                && grads.len() == cnt) {
                Err(Fault::OutOfBounds)
            } else if !(forall|i: int| 0 <= i < cnt ==> #[trigger] block_fits(s.mem[m + i], s.mem[v + i], grads[i])) {
                Err(Fault::Overflow)
            } else {
                let mn = Seq::new(cnt, |i: int| clamp_i16(block_m(s.mem[m + i], grads[i])) as i16);
                let vn = Seq::new(cnt, |i: int| clamp_i16(block_v(s.mem[v + i], grads[i])) as i16);
                let wn = Seq::new(cnt, |i: int| block_w(s.mem[w + i], s.mem[m + i], grads[i]));
                Ok(with_mem(s, write_range(write_range(write_range(s.mem, m as int, mn), v as int, vn), w as int, wn)))
            }
        },
        _ => Err(Fault::NeedsHost),
    }
}

/// The i8 program of `execute_i8`: i8 sums and products, all else skipped.
pub open spec fn run_i8(s: Seq<i8>, ops: Seq<OpCode>) -> Result<Seq<i8>, Fault>
    decreases ops.len(),
{
    if ops.len() == 0 {
        Ok(s)
    } else {
        match run_i8(s, ops.drop_last()) {
            Ok(t) => match ops.last() {
                OpCode::AddVec8(l, r, d, len) => bin8_result(t, l, r, d, len, false),
                OpCode::MulVec8(l, r, d, len) => bin8_result(t, l, r, d, len, true),
                _ => Ok(t),
            },
            Err(f) => Err(f),
        }
    }
}

// ---- buffer preparation ----

pub open spec fn is_i8_op(op: OpCode) -> bool {
    match op {
        OpCode::LoadVarVec8(..) | OpCode::StoreVec8(..) | OpCode::AddVec8(..) | OpCode::MulVec8(..) => true,
        _ => false,
    }
}

pub open spec fn is_i32_op(op: OpCode) -> bool {
    match op {
        OpCode::AIOStep(_, _, _, _, _, p) => p == 2,
        _ => false,
    }
}

pub open spec fn is_scale_op(op: OpCode) -> bool {
    match op {
        OpCode::BlockScale(..) | OpCode::AIOStepBlock(..) => true,
        _ => false,
    }
}

/// Some instruction of `ops` uses the i8 scratchpad.
pub open spec fn uses_i8(ops: Seq<OpCode>) -> bool {
    exists|k: int| 0 <= k < ops.len() && #[trigger] is_i8_op(ops[k])
}

/// Some instruction of `ops` uses the i32 scratchpad.
pub open spec fn uses_i32(ops: Seq<OpCode>) -> bool {
    exists|k: int| 0 <= k < ops.len() && #[trigger] is_i32_op(ops[k])
}

/// Some instruction of `ops` uses the block scale table.
pub open spec fn uses_scales(ops: Seq<OpCode>) -> bool {
    exists|k: int| 0 <= k < ops.len() && #[trigger] is_scale_op(ops[k])
}

/// The buffers after `execute` sizes them for a graph of `size` cells:
/// the i16 scratchpad always, the i8 and i32 ones and the scale table
/// (one entry per block of 32, plus one) where the program uses them.
pub open spec fn prepared(s: MachineState, ops: Seq<OpCode>, size: nat) -> MachineState {
    MachineState {
        mem: grow(s.mem, size, 0i16),
        mem8: if uses_i8(ops) { grow(s.mem8, size, 0i8) } else { s.mem8 },
        mem32: if uses_i32(ops) { grow(s.mem32, size, 0i32) } else { s.mem32 },
        scales: if uses_scales(ops) { grow(s.scales, size / 32 + 1, 0i16) } else { s.scales },
        out: s.out,
    }
}

/// An instruction keeps the length of the output buffer.
pub proof fn lemma_step_out_len(s: MachineState, op: OpCode, inp: Seq<i16>)
    ensures
        step(s, op, inp) matches Ok(t) ==> t.out.len() == s.out.len(),
{
    reveal(step);
}

/// A program keeps the length of the output buffer.
pub proof fn lemma_run_out_len(s: MachineState, ops: Seq<OpCode>, inp: Seq<i16>)
    ensures
        run(s, ops, inp) matches Ok(t) ==> t.out.len() == s.out.len(),
    decreases ops.len(),
{
    if ops.len() > 0 {
        lemma_run_out_len(s, ops.drop_last(), inp);
        if let Ok(t) = run(s, ops.drop_last(), inp) {
            lemma_step_out_len(t, ops.last(), inp);
        }
    }
}

/// Output element `k` is one that `op` writes.
pub open spec fn writes_output(op: OpCode, k: int) -> bool {
    match op {
        OpCode::Store(_, o) => k == o,
        OpCode::StoreVec(_, o, n) => o <= k < o + n,
        OpCode::StoreVec8(_, o, n) => o <= k < o + n,
        _ => false,
    }
}

/// An instruction keeps the length of the scratchpad and changes the
/// outputs only where it stores.
#[verifier::rlimit(30)]
pub proof fn lemma_step_frame(s: MachineState, op: OpCode, inp: Seq<i16>)
    ensures
        step(s, op, inp) matches Ok(t) ==> {
            &&& t.mem.len() == s.mem.len()
            &&& forall|k: int| 0 <= k < s.out.len() && !writes_output(op, k) ==> t.out[k] == s.out[k]
        },
{
    reveal(step);
}

/// A program keeps the length of the scratchpad and changes the outputs
/// only where one of its stores writes.
pub proof fn lemma_run_frame(s: MachineState, ops: Seq<OpCode>, inp: Seq<i16>)
    ensures
        run(s, ops, inp) matches Ok(t) ==> {
            &&& t.mem.len() == s.mem.len()
            &&& forall|k: int|
                0 <= k < s.out.len() && (forall|j: int| 0 <= j < ops.len() ==> !writes_output(#[trigger] ops[j], k))
                    ==> t.out[k] == s.out[k]
        },
    decreases ops.len(),
{
    if ops.len() > 0 {
        let pre = ops.drop_last();
        lemma_run_frame(s, pre, inp);
        lemma_run_out_len(s, pre, inp);
        if let Ok(u) = run(s, pre, inp) {
            lemma_step_frame(u, ops.last(), inp);
            if let Ok(t) = run(s, ops, inp) {
                assert forall|k: int|
                    0 <= k < s.out.len() && (forall|j: int| 0 <= j < ops.len() ==> !writes_output(#[trigger] ops[j], k))
                        implies t.out[k] == s.out[k] by {
                    assert(!writes_output(ops[ops.len() - 1], k));
                    assert forall|j: int| 0 <= j < pre.len() implies !writes_output(#[trigger] pre[j], k) by {
                        assert(pre[j] == ops[j]);
                        assert(!writes_output(ops[j], k));
                    }
                }
            }
        }
    }
}

/// The state a program leaves: the state after all of its instructions, or,
/// where one faults, the state before the first that faults.
pub open spec fn last_state(s: MachineState, ops: Seq<OpCode>, inp: Seq<i16>) -> MachineState
    decreases ops.len(),
{
    if ops.len() == 0 {
        s
    } else {
        match run(s, ops.drop_last(), inp) {
            Ok(t) => match step(t, ops.last(), inp) {
                Ok(u) => u,
                Err(_) => t,
            },
            Err(_) => last_state(s, ops.drop_last(), inp),
        }
    }
}

/// A successful program leaves the state it computes.
pub proof fn lemma_last_state_ok(s: MachineState, ops: Seq<OpCode>, inp: Seq<i16>)
    requires
        run(s, ops, inp) is Ok,
    ensures
        last_state(s, ops, inp) == run(s, ops, inp)->Ok_0,
{
}

/// Where the instruction at `k` is the first to fault, every longer prefix
/// of the program leaves the state before it.
pub proof fn lemma_last_state_fault(s: MachineState, ops: Seq<OpCode>, inp: Seq<i16>, k: int, m: int)
    requires
        0 <= k < m <= ops.len(),
        run(s, ops.take(k), inp) is Ok,
        step(run(s, ops.take(k), inp)->Ok_0, ops[k], inp) is Err,
    ensures
        run(s, ops.take(m), inp) is Err,
        last_state(s, ops.take(m), inp) == run(s, ops.take(k), inp)->Ok_0,
    decreases m,
{
    assert(ops.take(m).drop_last() =~= ops.take(m - 1));
    assert(ops.take(m).last() == ops[m - 1]);
    if m > k + 1 {
        lemma_last_state_fault(s, ops, inp, k, m - 1);
    }
}

} // verus!
