use vstd::prelude::*;

verus! {

/// One step of the xorshift32 generator (shifts 13, 17, 5).
pub open spec fn xorshift32_step(x: u32) -> u32 {
    let a = x ^ (x << 13u32);
    let b = a ^ (a >> 17u32);
    b ^ (b << 5u32)
}

/// The state of a generator made from `seed`: seed 0 starts at 1.
pub open spec fn seed_state(seed: u32) -> u32 {
    if seed == 0 {
        1
    } else {
        seed
    }
}

/// The state after `n` steps from `x`.
pub open spec fn xorshift32_iter(x: u32, n: nat) -> u32
    decreases n,
{
    if n == 0 {
        x
    } else {
        xorshift32_step(xorshift32_iter(x, (n - 1) as nat))
    }
}

/// A xorshift32 pseudo random generator.
pub struct Xorshift32 {
    state: u32,
}

impl View for Xorshift32 {
    type V = u32;

    closed spec fn view(&self) -> u32 {
        self.state
    }
}

/// The xorshift step maps a nonzero state to a nonzero state.
pub proof fn lemma_xorshift32_step_nonzero(x: u32)
    requires
        x != 0,
    ensures
        xorshift32_step(x) != 0,
{
    assert(x != 0 ==> (x ^ (x << 13u32)) != 0) by (bit_vector);
    let a = x ^ (x << 13u32);
    assert(a != 0 ==> (a ^ (a >> 17u32)) != 0) by (bit_vector);
    let b = a ^ (a >> 17u32);
    assert(b != 0 ==> (b ^ (b << 5u32)) != 0) by (bit_vector);
}

impl Xorshift32 {
    /// The generator's state is never zero.
    pub closed spec fn wf(&self) -> bool {
        self.state != 0
    }

    pub fn new(seed: u32) -> (r: Self)
        ensures
            r@ == seed_state(seed),
            r.wf(),
    {
        Xorshift32 { state: if seed == 0 { 1 } else { seed } }
    }

    /// Advances the generator and returns the new state.
    pub fn next(&mut self) -> (r: u32)
        ensures
            r == xorshift32_step(old(self)@),
            final(self)@ == r,
            old(self)@ != 0 ==> r != 0,
            old(self).wf() ==> final(self).wf(),
    {
        let mut x = self.state;
        x ^= x << 13;
        x ^= x >> 17;
        x ^= x << 5;
        proof {
            if self.state != 0 {
                lemma_xorshift32_step_nonzero(self.state);
            }
        }
        self.state = x;
        x
    }

    /// Advances the generator and returns the low 24 bits of the new state,
    /// the integer sample behind a uniform draw in [0, 1] (sample / 0xFFFFFF).
    pub fn next_u24(&mut self) -> (r: u32)
        ensures
            r == xorshift32_step(old(self)@) & 0xFFFFFFu32,
            r <= 0xFFFFFF,
            final(self)@ == xorshift32_step(old(self)@),
            old(self).wf() ==> final(self).wf(),
    {
        let x = self.next();
        assert(x & 0xFFFFFFu32 <= 0xFFFFFF) by (bit_vector);
        x & 0xFFFFFF
    }
}

/// Stochastic rounding driven by a xorshift32 generator.
pub struct StochasticQuantizer {
    rng: Xorshift32,
}

impl View for StochasticQuantizer {
    type V = u32;

    closed spec fn view(&self) -> u32 {
        self.rng@
    }
}

impl StochasticQuantizer {
    pub fn new(seed: u32) -> (r: Self)
        ensures
            r@ == seed_state(seed),
    {
        StochasticQuantizer { rng: Xorshift32::new(seed) }
    }

    /// Draws the next 24-bit sample of the rounding generator.
    pub fn next_sample(&mut self) -> (r: u32)
        ensures
            r == xorshift32_step(old(self)@) & 0xFFFFFFu32,
            r <= 0xFFFFFF,
            final(self)@ == xorshift32_step(old(self)@),
    {
        self.rng.next_u24()
    }
}

} // verus!
