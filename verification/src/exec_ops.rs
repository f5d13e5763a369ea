use vstd::prelude::*;
use crate::kernels::{
    BinKind, bin16_exec, bin8_exec, clamp16, narrow_q8_exec, widen_q6_exec, clamp_i16, lemma_shr8_i32,
    lemma_shr4_i32, lemma_shr10_i32, lemma_shr4_i16,
};
use crate::machine::{
    Fault, in_range, write_range, map_bin16, map_scalar16, map_bin8, cell_result, bin_result, scalar_result,
    bin8_result, adamw_m, adamw_v, adamw_w, adamw_update, adamw_result, aio16_m, aio16_v, aio16_w, aio16_update,
    aio16_result, aio_moments_ok, fits_i32, aio32_m, aio32_v, aio32_fits, aio32_w, aio32_all_fit, aio32_result,
    abs16, block_max, num_blocks, block_maxima, no_min16, block_scale_result, load_var_result, store_result,
    load_vec_result, store_vec_result, load_vec8_result, store_vec8_result, fill_result,
};

verus! {

// Executable forms of the instruction semantics of `machine`.  Every
// instruction reads its operands before it writes, and leaves its buffers
// untouched when it faults.

/// `[off, off + len)` lies inside a buffer of `n` elements.
pub fn range_ok(off: usize, len: usize, n: usize) -> (b: bool)
    ensures
        b == in_range(off as int, len as int, n as int),
{
    off <= n && len <= n - off
}

/// `a + b` stays within u32.
fn u32_sum_ok(a: u32, b: u32) -> (r: bool)
    ensures
        r == (a + b <= u32::MAX),
{
    b <= u32::MAX - a
}

/// Writes `vals` into `v` from position `off` on.
pub fn write_vec<T: Copy>(v: &mut Vec<T>, off: usize, vals: &Vec<T>)
    requires
        off + vals.len() <= old(v).len(),
    ensures
        final(v)@ == write_range(old(v)@, off as int, vals@),
{
    let ghost v0 = v@;
    let mut i: usize = 0;
    while i < vals.len()
        invariant
            off + vals.len() <= v0.len(),
            i <= vals.len(),
            v@.len() == v0.len(),
            v.len() == v0.len(),
            forall|k: int| 0 <= k < v0.len() ==> #[trigger] v@[k] == (if off <= k < off + i { vals@[k - off] } else { v0[k] }),
        decreases vals.len() - i,
    {
        v.set(off + i, vals[i]);
        i += 1;
    }
    assert(v@ =~= write_range(v0, off as int, vals@));
}

/// Writes `vals` into the slice `v` from position `off` on.
pub fn write_slice(v: &mut [i16], off: usize, vals: &Vec<i16>)
    requires
        off + vals.len() <= old(v)@.len(),
    ensures
        final(v)@ == write_range(old(v)@, off as int, vals@),
{
    let ghost v0 = v@;
    let mut i: usize = 0;
    while i < vals.len()
        invariant
            off + vals.len() <= v0.len(),
            i <= vals.len(),
            v@.len() == v0.len(),
            v.len() == v0.len(),
            forall|k: int| 0 <= k < v0.len() ==> #[trigger] v@[k] == (if off <= k < off + i { vals@[k - off] } else { v0[k] }),
        decreases vals.len() - i,
    {
        v[off + i] = vals[i];
        i += 1;
    }
    assert(v@ =~= write_range(v0, off as int, vals@));
}

/// Copies `s[off..off + len]`.
fn copy_range(s: &[i16], off: usize, len: usize) -> (r: Vec<i16>)
    requires
        off + len <= s@.len(),
    ensures
        r@ == s@.subrange(off as int, off + len),
{
    let mut r: Vec<i16> = Vec::new();
    let mut i: usize = 0;
    while i < len
        invariant
            off + len <= s.len(),
            i <= len,
            r@ == s@.subrange(off as int, off + i),
        decreases len - i,
    {
        r.push(s[off + i]);
        i += 1;
        assert(r@ =~= s@.subrange(off as int, off + i));
    }
    r
}

pub fn exec_cell(mem: &mut Vec<i16>, l: u32, r: u32, d: u32, kind: BinKind) -> (res: Result<(), Fault>)
    ensures
        match cell_result(old(mem)@, l, r, d, kind) {
            Ok(m2) => res is Ok && final(mem)@ == m2,
            Err(f) => res == Err::<(), Fault>(f) && final(mem)@ == old(mem)@,
        },
{
    let n = mem.len();
    if (l as usize) < n && (r as usize) < n && (d as usize) < n {
        let x = bin16_exec(kind, mem[l as usize], mem[r as usize]);
        mem.set(d as usize, x);
        Ok(())
    } else {
        Err(Fault::OutOfBounds)
    }
}

pub fn exec_bin(mem: &mut Vec<i16>, l: u32, r: u32, d: u32, len: u32, kind: BinKind) -> (res: Result<(), Fault>)
    ensures
        match bin_result(old(mem)@, l, r, d, len, kind) {
            Ok(m2) => res is Ok && final(mem)@ == m2,
            Err(f) => res == Err::<(), Fault>(f) && final(mem)@ == old(mem)@,
        },
{
    let n = mem.len();
    let (l, r, d, len) = (l as usize, r as usize, d as usize, len as usize);
    if !(range_ok(l, len, n) && range_ok(r, len, n) && range_ok(d, len, n)) {
        return Err(Fault::OutOfBounds);
    }
    let mut vals: Vec<i16> = Vec::new();
    let mut i: usize = 0;
    while i < len
        invariant
            n == mem.len(),
            l + len <= n,
            r + len <= n,
            i <= len,
            vals@ =~= map_bin16(mem@, l as int, r as int, i as nat, kind),
        decreases len - i,
    {
        vals.push(bin16_exec(kind, mem[l + i], mem[r + i]));
        i += 1;
    }
    write_vec(mem, d, &vals);
    Ok(())
}

pub fn exec_scalar(mem: &mut Vec<i16>, l: u32, val: i16, d: u32, len: u32, kind: BinKind) -> (res: Result<(), Fault>)
    ensures
        match scalar_result(old(mem)@, l, val, d, len, kind) {
            Ok(m2) => res is Ok && final(mem)@ == m2,
            Err(f) => res == Err::<(), Fault>(f) && final(mem)@ == old(mem)@,
        },
{
    let n = mem.len();
    let (l, d, len) = (l as usize, d as usize, len as usize);
    if !(range_ok(l, len, n) && range_ok(d, len, n)) {
        return Err(Fault::OutOfBounds);
    }
    let mut vals: Vec<i16> = Vec::new();
    let mut i: usize = 0;
    while i < len
        invariant
            n == mem.len(),
            l + len <= n,
            i <= len,
            vals@ =~= map_scalar16(mem@, l as int, val, i as nat, kind),
        decreases len - i,
    {
        vals.push(bin16_exec(kind, mem[l + i], val));
        i += 1;
    }
    write_vec(mem, d, &vals);
    Ok(())
}

pub fn exec_bin8(mem8: &mut Vec<i8>, l: u32, r: u32, d: u32, len: u32, mul: bool) -> (res: Result<(), Fault>)
    ensures
        match bin8_result(old(mem8)@, l, r, d, len, mul) {
            Ok(m2) => res is Ok && final(mem8)@ == m2,
            Err(f) => res == Err::<(), Fault>(f) && final(mem8)@ == old(mem8)@,
        },
{
    let n = mem8.len();
    let (l, r, d, len) = (l as usize, r as usize, d as usize, len as usize);
    if !(range_ok(l, len, n) && range_ok(r, len, n) && range_ok(d, len, n)) {
        return Err(Fault::OutOfBounds);
    }
    let mut vals: Vec<i8> = Vec::new();
    let mut i: usize = 0;
    while i < len
        invariant
            n == mem8.len(),
            l + len <= n,
            r + len <= n,
            i <= len,
            vals@ =~= map_bin8(mem8@, l as int, r as int, i as nat, mul),
        decreases len - i,
    {
        vals.push(bin8_exec(mul, mem8[l + i], mem8[r + i]));
        i += 1;
    }
    write_vec(mem8, d, &vals);
    Ok(())
}

/// `(m * 230 + g * 26) >> 8`
fn adamw_m_exec(m: i16, g: i16) -> (r: i32)
    ensures
        r as int == adamw_m(m, g),
        -32768 <= r <= 32767,
{
    let x: i32 = m as i32 * 230 + g as i32 * 26;
    proof {
        lemma_shr8_i32(x);
    }
    x >> 8u32
}

/// `(v * 255 + ((g * g) >> 8)) >> 8`
fn adamw_v_exec(v: i16, g: i16) -> (r: i32)
    ensures
        r as int == adamw_v(v, g),
{
    assert(0 <= g * g <= 32768 * 32768) by (nonlinear_arith)
        requires
            -32768 <= g <= 32767,
    ;
    let gg: i32 = g as i32 * g as i32;
    proof {
        lemma_shr8_i32(gg);
    }
    let x: i32 = v as i32 * 255 + (gg >> 8u32);
    proof {
        lemma_shr8_i32(x);
    }
    x >> 8u32
}

pub fn exec_adamw(mem: &mut Vec<i16>, w: u32, g: u32, m: u32, v: u32, len: u32) -> (res: Result<(), Fault>)
    ensures
        match adamw_result(old(mem)@, w, g, m, v, len) {
            Ok(m2) => res is Ok && final(mem)@ == m2,
            Err(f) => res == Err::<(), Fault>(f) && final(mem)@ == old(mem)@,
        },
{
    let n = mem.len();
    let (w, g, m, v, len) = (w as usize, g as usize, m as usize, v as usize, len as usize);
    if !(range_ok(w, len, n) && range_ok(g, len, n) && range_ok(m, len, n) && range_ok(v, len, n)) {
        return Err(Fault::OutOfBounds);
    }
    let ghost s = mem@;
    let mut mn: Vec<i16> = Vec::new();
    let mut vn: Vec<i16> = Vec::new();
    let mut wn: Vec<i16> = Vec::new();
    let mut i: usize = 0;
    while i < len
        invariant
            n == mem.len(),
            s == mem@,
            w + len <= n,
            g + len <= n,
            m + len <= n,
            v + len <= n,
            i <= len,
            mn@ =~= Seq::new(i as nat, |k: int| clamp_i16(adamw_m(s[m + k], s[g + k])) as i16),
            vn@ =~= Seq::new(i as nat, |k: int| clamp_i16(adamw_v(s[v + k], s[g + k])) as i16),
            wn@ =~= Seq::new(i as nat, |k: int| adamw_w(s[w + k], s[m + k], s[g + k])),
        decreases len - i,
    {
        let gi = mem[g + i];
        let m_val = adamw_m_exec(mem[m + i], gi);
        let v_val = adamw_v_exec(mem[v + i], gi);
        assert(-40000 < m_val < 40000);
        let step: i32 = if m_val > 0 {
            let up: i32 = m_val + 15;
            proof {
                lemma_shr4_i32(up);
            }
            up >> 4u32
        } else {
            proof {
                lemma_shr4_i32(m_val);
            }
            m_val >> 4u32
        };
        let w_new = clamp16(mem[w + i] as i32 - step);
        mn.push(clamp16(m_val));
        vn.push(clamp16(v_val));
        wn.push(w_new);
        i += 1;
    }
    write_vec(mem, m, &mn);
    write_vec(mem, v, &vn);
    write_vec(mem, w, &wn);
    assert(mem@ == adamw_update(s, w as int, g as int, m as int, v as int, len as nat));
    Ok(())
}

/// The moment ranges `buf[m..v][..len]` and `buf[v..][..len]` exist.
fn aio_moments_ok_exec(m: usize, v: usize, len: usize, n: usize) -> (r: bool)
    ensures
        r == aio_moments_ok(m as int, v as int, len as int, n as int),
{
    if v >= m {
        v <= n && len <= v - m && len <= n - v
    } else {
        len == 0 && m <= n
    }
}

pub fn exec_aio16(mem: &mut Vec<i16>, w: u32, g: u32, m: u32, v: u32, len: u32) -> (res: Result<(), Fault>)
    ensures
        match aio16_result(old(mem)@, w, g, m, v, len) {
            Ok(m2) => res is Ok && final(mem)@ == m2,
            Err(f) => res == Err::<(), Fault>(f) && final(mem)@ == old(mem)@,
        },
{
    let n = mem.len();
    let (w, g, m, v, len) = (w as usize, g as usize, m as usize, v as usize, len as usize);
    if !(range_ok(w, len, n) && range_ok(g, len, n) && aio_moments_ok_exec(m, v, len, n)) {
        return Err(Fault::OutOfBounds);
    }
    let ghost s = mem@;
    let mut mn: Vec<i16> = Vec::new();
    let mut vn: Vec<i16> = Vec::new();
    let mut wn: Vec<i16> = Vec::new();
    let mut i: usize = 0;
    while i < len
        invariant
            n == mem.len(),
            s == mem@,
            w + len <= n,
            g + len <= n,
            m + len <= n,
            v + len <= n,
            i <= len,
            mn@ =~= Seq::new(i as nat, |k: int| aio16_m(s[m + k], s[g + k])),
            vn@ =~= Seq::new(i as nat, |k: int| aio16_v(s[v + k], s[g + k])),
            wn@ =~= Seq::new(i as nat, |k: int| aio16_w(s[w + k], s[m + k], s[g + k])),
        decreases len - i,
    {
        let gi = mem[g + i];
        let m_new = adamw_m_exec(mem[m + i], gi) as i16;
        let v_new = #[verifier::truncate] (adamw_v_exec(mem[v + i], gi) as i16);
        proof {
            lemma_shr4_i16(m_new);
        }
        let w_new = clamp16(mem[w + i] as i32 - (m_new >> 4u32) as i32);
        mn.push(m_new);
        vn.push(v_new);
        wn.push(w_new);
        i += 1;
    }
    write_vec(mem, m, &mn);
    write_vec(mem, v, &vn);
    write_vec(mem, w, &wn);
    assert(mem@ == aio16_update(s, w as int, g as int, m as int, v as int, len as nat));
    Ok(())
}

/// One element of the i32 AIO step: the new moments, when no intermediate
/// overflows.
fn aio32_elem(m: i32, v: i32, g: i16) -> (r: Option<(i32, i32)>)
    ensures
        r is Some <==> aio32_fits(m, v, g),
        r matches Some(p) ==> p.0 as int == aio32_m(m, g) && p.1 as int == aio32_v(v, g),
{
    let a: i64 = m as i64 * 900;
    if a < i32::MIN as i64 || a > i32::MAX as i64 {
        return None;
    }
    let b: i64 = a + g as i64 * 124;
    if b < i32::MIN as i64 || b > i32::MAX as i64 {
        return None;
    }
    let c: i64 = v as i64 * 999;
    if c < i32::MIN as i64 || c > i32::MAX as i64 {
        return None;
    }
    assert(0 <= g * g <= 32768 * 32768) by (nonlinear_arith)
        requires
            -32768 <= g <= 32767,
    ;
    let gg: i32 = g as i32 * g as i32;
    proof {
        lemma_shr8_i32(gg);
    }
    let d: i64 = c + (gg >> 8u32) as i64;
    if d < i32::MIN as i64 || d > i32::MAX as i64 {
        return None;
    }
    let b32 = b as i32;
    let d32 = d as i32;
    proof {
        lemma_shr10_i32(b32);
        lemma_shr10_i32(d32);
    }
    Some((b32 >> 10u32, d32 >> 10u32))
}

pub fn exec_aio32(mem: &mut Vec<i16>, mem32: &mut Vec<i32>, w: u32, g: u32, m: u32, v: u32, len: u32) -> (res: Result<(), Fault>)
    ensures
        match aio32_result(old(mem)@, old(mem32)@, w, g, m, v, len) {
            Ok(p) => res is Ok && final(mem)@ == p.0 && final(mem32)@ == p.1,
            Err(f) => res == Err::<(), Fault>(f) && final(mem)@ == old(mem)@ && final(mem32)@ == old(mem32)@,
        },
{
    let n = mem.len();
    let n32 = mem32.len();
    let (w, g, m, v, len) = (w as usize, g as usize, m as usize, v as usize, len as usize);
    if !(range_ok(w, len, n) && range_ok(g, len, n) && aio_moments_ok_exec(m, v, len, n32)) {
        return Err(Fault::OutOfBounds);
    }
    let ghost s = mem@;
    let ghost s32 = mem32@;
    let mut mn: Vec<i32> = Vec::new();
    let mut vn: Vec<i32> = Vec::new();
    let mut wn: Vec<i16> = Vec::new();
    let mut i: usize = 0;
    #[verifier::loop_isolation(false)]
    while i < len
        invariant
            n == mem.len(),
            n32 == mem32.len(),
            s == mem@,
            s32 == mem32@,
            w + len <= n,
            g + len <= n,
            m + len <= n32,
            v + len <= n32,
            aio_moments_ok(m as int, v as int, len as int, n32 as int),
            i <= len,
            forall|k: int| 0 <= k < i ==> #[trigger] aio32_fits(s32[m + k], s32[v + k], s[g + k]),
            mn@ =~= Seq::new(i as nat, |k: int| aio32_m(s32[m + k], s[g + k]) as i32),
            vn@ =~= Seq::new(i as nat, |k: int| aio32_v(s32[v + k], s[g + k]) as i32),
            wn@ =~= Seq::new(i as nat, |k: int| aio32_w(s[w + k], s32[m + k], s[g + k])),
        decreases len - i,
    {
        let gi = mem[g + i];
        match aio32_elem(mem32[m + i], mem32[v + i], gi) {
            None => {
                assert(!aio32_fits(s32[m + i], s32[v + i], s[g + i]));
                assert(!aio32_all_fit(s, s32, g as int, m as int, v as int, len as nat));
                return Err(Fault::Overflow);
            },
            Some((m_new, v_new)) => {
                proof {
                    lemma_shr8_i32(m_new);
                }
                let w_new = clamp16(mem[w + i] as i32 - (#[verifier::truncate] ((m_new >> 8u32) as i16)) as i32);
                mn.push(m_new);
                vn.push(v_new);
                wn.push(w_new);
            },
        }
        i += 1;
    }
    write_vec(mem32, m, &mn);
    write_vec(mem32, v, &vn);
    write_vec(mem, w, &wn);
    Ok(())
}

fn abs16_exec(x: i16) -> (r: i16)
    requires
        x != i16::MIN,
    ensures
        r as int == abs16(x),
{
    if x < 0 {
        -x
    } else {
        x
    }
}

/// The block maxima of `mem[src..src + len]`.
fn block_maxima_exec(mem: &Vec<i16>, src: usize, len: usize) -> (r: Vec<i16>)
    requires
        src + len <= mem.len(),
        no_min16(mem@, src as int, len as int),
    ensures
        r@ == block_maxima(mem@, src as int, len as nat),
{
    let nb: usize = len / 32 + if len % 32 == 0 { 0 } else { 1 };
    assert(nb == num_blocks(len as nat));
    let mut r: Vec<i16> = Vec::new();
    let mut k: usize = 0;
    while k < nb
        invariant
            src + len <= mem.len(),
            no_min16(mem@, src as int, len as int),
            nb == num_blocks(len as nat),
            k <= nb,
            r@ =~= block_maxima(mem@, src as int, len as nat).subrange(0, k as int),
        decreases nb - k,
    {
        let start = 32 * k;
        let cnt: usize = if len - start < 32 { len - start } else { 32 };
        let mut best: i16 = 1;
        let mut j: usize = 0;
        while j < cnt
            invariant
                src + len <= mem.len(),
                no_min16(mem@, src as int, len as int),
                start + cnt <= len,
                j <= cnt,
                best as int == block_max(mem@, src + start, j as nat),
                1 <= best,
            decreases cnt - j,
        {
            let a = abs16_exec(mem[src + start + j]);
            if a > best {
                best = a;
            }
            j += 1;
        }
        r.push(best);
        k += 1;
    }
    r
}

pub fn exec_block_scale(mem: &Vec<i16>, scales: &mut Vec<i16>, src: u32, len: u32) -> (res: Result<(), Fault>)
    ensures
        match block_scale_result(mem@, old(scales)@, src, len) {
            Ok(s2) => res is Ok && final(scales)@ == s2,
            Err(f) => res == Err::<(), Fault>(f) && final(scales)@ == old(scales)@,
        },
{
    let n = mem.len();
    let (src, len) = (src as usize, len as usize);
    let nb: usize = len / 32 + if len % 32 == 0 { 0 } else { 1 };
    assert(nb == num_blocks(len as nat));
    if !(range_ok(src, len, n) && nb <= scales.len()) {
        return Err(Fault::OutOfBounds);
    }
    let mut i: usize = 0;
    #[verifier::loop_isolation(false)]
    while i < len
        invariant
            src + len <= n == mem.len(),
            nb == num_blocks(len as nat),
            nb <= scales.len(),
            i <= len,
            no_min16(mem@, src as int, i as int),
        decreases len - i,
    {
        if mem[src + i] == i16::MIN {
            assert(mem@[src + i] == i16::MIN);
            assert(!no_min16(mem@, src as int, len as int));
            return Err(Fault::Overflow);
        }
        i += 1;
    }
    let maxima = block_maxima_exec(mem, src, len);
    write_vec(scales, 0, &maxima);
    Ok(())
}

pub fn exec_load_var(mem: &mut Vec<i16>, inputs: &[i16], var: u32, dst: u32) -> (res: Result<(), Fault>)
    ensures
        match load_var_result(old(mem)@, inputs@, var, dst) {
            Ok(m2) => res is Ok && final(mem)@ == m2,
            Err(f) => res == Err::<(), Fault>(f) && final(mem)@ == old(mem)@,
        },
{
    if (var as usize) >= inputs.len() {
        Err(Fault::ShortBuffer(var as u64 + 1, inputs.len()))
    } else if (dst as usize) < mem.len() {
        mem.set(dst as usize, inputs[var as usize]);
        Ok(())
    } else {
        Err(Fault::OutOfBounds)
    }
}

pub fn exec_store(mem: &Vec<i16>, outputs: &mut [i16], src: u32, out_id: u32) -> (res: Result<(), Fault>)
    ensures
        match store_result(old(outputs)@, mem@, src, out_id) {
            Ok(o2) => res is Ok && final(outputs)@ == o2,
            Err(f) => res == Err::<(), Fault>(f) && final(outputs)@ == old(outputs)@,
        },
{
    if (out_id as usize) >= outputs.len() {
        Err(Fault::ShortBuffer(out_id as u64 + 1, outputs.len()))
    } else if (src as usize) < mem.len() {
        outputs[out_id as usize] = mem[src as usize];
        Ok(())
    } else {
        Err(Fault::OutOfBounds)
    }
}

pub fn exec_load_vec(mem: &mut Vec<i16>, inputs: &[i16], var: u32, dst: u32, len: u32) -> (res: Result<(), Fault>)
    ensures
        match load_vec_result(old(mem)@, inputs@, var, dst, len) {
            Ok(m2) => res is Ok && final(mem)@ == m2,
            Err(f) => res == Err::<(), Fault>(f) && final(mem)@ == old(mem)@,
        },
{
    if !(u32_sum_ok(var, len) && u32_sum_ok(dst, len)) {
        return Err(Fault::OutOfBounds);
    }
    if !range_ok(var as usize, len as usize, inputs.len()) {
        return Err(Fault::ShortBuffer(var as u64 + len as u64, inputs.len()));
    }
    if !range_ok(dst as usize, len as usize, mem.len()) {
        return Err(Fault::OutOfBounds);
    }
    let vals = copy_range(inputs, var as usize, len as usize);
    write_vec(mem, dst as usize, &vals);
    Ok(())
}

pub fn exec_store_vec(mem: &Vec<i16>, outputs: &mut [i16], src: u32, out_id: u32, len: u32) -> (res: Result<(), Fault>)
    ensures
        match store_vec_result(old(outputs)@, mem@, src, out_id, len) {
            Ok(o2) => res is Ok && final(outputs)@ == o2,
            Err(f) => res == Err::<(), Fault>(f) && final(outputs)@ == old(outputs)@,
        },
{
    if !(u32_sum_ok(out_id, len) && u32_sum_ok(src, len)) {
        return Err(Fault::OutOfBounds);
    }
    if !range_ok(out_id as usize, len as usize, outputs.len()) {
        return Err(Fault::ShortBuffer(out_id as u64 + len as u64, outputs.len()));
    }
    if !range_ok(src as usize, len as usize, mem.len()) {
        return Err(Fault::OutOfBounds);
    }
    let vals = copy_range(mem.as_slice(), src as usize, len as usize);
    write_slice(outputs, out_id as usize, &vals);
    Ok(())
}

pub fn exec_load_vec8(mem8: &mut Vec<i8>, inputs: &[i16], var: u32, dst: u32, len: u32) -> (res: Result<(), Fault>)
    ensures
        match load_vec8_result(old(mem8)@, inputs@, var, dst, len) {
            Ok(m2) => res is Ok && final(mem8)@ == m2,
            Err(f) => res == Err::<(), Fault>(f) && final(mem8)@ == old(mem8)@,
        },
{
    if !range_ok(var as usize, len as usize, inputs.len()) {
        return Err(Fault::ShortBuffer(var as u64 + len as u64, inputs.len()));
    }
    let (var, dst, len) = (var as usize, dst as usize, len as usize);
    if !range_ok(dst, len, mem8.len()) {
        return Err(Fault::OutOfBounds);
    }
    let mut vals: Vec<i8> = Vec::new();
    let mut i: usize = 0;
    while i < len
        invariant
            var + len <= inputs.len(),
            i <= len,
            vals@ =~= Seq::new(i as nat, |k: int| crate::kernels::narrow_q8(inputs@[var + k])),
        decreases len - i,
    {
        vals.push(narrow_q8_exec(inputs[var + i]));
        i += 1;
    }
    write_vec(mem8, dst, &vals);
    Ok(())
}

pub fn exec_store_vec8(mem8: &Vec<i8>, outputs: &mut [i16], src: u32, out_id: u32, len: u32) -> (res: Result<(), Fault>)
    ensures
        match store_vec8_result(old(outputs)@, mem8@, src, out_id, len) {
            Ok(o2) => res is Ok && final(outputs)@ == o2,
            Err(f) => res == Err::<(), Fault>(f) && final(outputs)@ == old(outputs)@,
        },
{
    if !range_ok(out_id as usize, len as usize, outputs.len()) {
        return Err(Fault::ShortBuffer(out_id as u64 + len as u64, outputs.len()));
    }
    let (src, out_id, len) = (src as usize, out_id as usize, len as usize);
    if !range_ok(src, len, mem8.len()) {
        return Err(Fault::OutOfBounds);
    }
    let mut vals: Vec<i16> = Vec::new();
    let mut i: usize = 0;
    while i < len
        invariant
            src + len <= mem8.len(),
            i <= len,
            vals@ =~= Seq::new(i as nat, |k: int| crate::kernels::widen_q6(mem8@[src + k])),
        decreases len - i,
    {
        vals.push(widen_q6_exec(mem8[src + i]));
        i += 1;
    }
    write_slice(outputs, out_id, &vals);
    Ok(())
}

pub fn exec_fill(mem: &mut Vec<i16>, val: i16, dst: u32, len: u32) -> (res: Result<(), Fault>)
    ensures
        match fill_result(old(mem)@, val, dst, len) {
            Ok(m2) => res is Ok && final(mem)@ == m2,
            Err(f) => res == Err::<(), Fault>(f) && final(mem)@ == old(mem)@,
        },
{
    if !(u32_sum_ok(dst, len) && range_ok(dst as usize, len as usize, mem.len())) {
        return Err(Fault::OutOfBounds);
    }
    let mut vals: Vec<i16> = Vec::new();
    let mut i: u32 = 0;
    while i < len
        invariant
            i <= len,
            vals@ =~= Seq::new(i as nat, |k: int| val),
        decreases len - i,
    {
        vals.push(val);
        i += 1;
    }
    write_vec(mem, dst as usize, &vals);
    Ok(())
}

} // verus!
