use vstd::prelude::*;
use vstd::wrapping::u64_specs;

verus! {

/// A permuted-congruential pseudorandom generator: a linear-congruential
/// state update combined with a bit-mixing output permutation applied to
/// the pre-update state.  One machine word of state, mutated on every
/// draw; all arithmetic wraps by design.
pub struct PCG {
    state: u64,
}

/// The linear-congruential state update: multiply-add over the full word
/// width, with wraparound.
pub closed spec fn pcg_advance(s: u64) -> u64 {
    u64_specs::wrapping_add(
        0x14057b7ef767814f,
        u64_specs::wrapping_mul(s, 0x5851f42d4c957f2d),
    )
}

/// The output permutation of the pre-update state: xor-shift folding, a
/// rotation whose amount comes from the top bits, then two
/// xor-shift-multiply mixing rounds.
pub closed spec fn pcg_output(prev: u64) -> u64 {
    let shifted = ((prev >> 18u64) ^ prev) >> 27u64;
    let rot = prev >> 59u64;
    let lsh = u64_specs::wrapping_sub(0, rot) & 31;
    let x0 = (shifted >> rot) | (shifted << lsh);
    let x1 = u64_specs::wrapping_mul(x0 ^ (x0 >> 30u64), 0xbf58476d1ce4e5b9);
    let x2 = u64_specs::wrapping_mul(x1 ^ (x1 >> 27u64), 0x94d049bb133111eb);
    x2 ^ (x2 >> 31u64)
}

/// The state after `n` consecutive draws from state `s`.
pub open spec fn pcg_advance_n(s: u64, n: nat) -> u64
    decreases n,
{
    if n == 0 {
        s
    } else {
        pcg_advance(pcg_advance_n(s, (n - 1) as nat))
    }
}

impl View for PCG {
    type V = u64;

    closed spec fn view(&self) -> u64 {
        self.state
    }
}

impl PCG {
    /// Relies on `std::time::SystemTime::now`: the wall-clock time, read
    /// here as whole milliseconds since the epoch (zero if the clock
    /// precedes it).  The value depends on the clock alone, so nothing is
    /// stated of it.
    #[verifier::external_body]
    fn now_millis() -> u64 {
        std::time::SystemTime::now()
            .duration_since(std::time::SystemTime::UNIX_EPOCH)
            .map(|d| d.as_millis() as u64)
            .unwrap_or(0)
    }

    /// The default engine, seeded from the wall clock; runs are therefore
    /// not reproducible across processes.
    pub fn new() -> PCG {
        PCG { state: Self::now_millis() }
    }

    /// An explicitly seeded engine, for reproducible draws.
    pub fn seeded(seed: u64) -> (r: PCG)
        ensures
            r@ == seed,
    {
        PCG { state: seed }
    }

    /// One full-width draw: advances the state and mixes the pre-update
    /// state into the output.
    pub fn internal(&mut self) -> (r: u64)
        ensures
            final(self)@ == pcg_advance(old(self)@),
            r == pcg_output(old(self)@),
    {
        let prev = self.state;
        self.state = 0x14057b7ef767814fu64.wrapping_add(prev.wrapping_mul(0x5851f42d4c957f2d));
        let shifted = ((prev >> 18u64) ^ prev) >> 27u64;
        let rot = prev >> 59u64;
        proof {
            assert(prev >> 59u64 < 32) by (bit_vector);
        }
        let lsh = 0u64.wrapping_sub(rot) & 31;
        proof {
            let w = u64_specs::wrapping_sub(0, rot);
            assert(w & 31 < 32) by (bit_vector);
        }
        let x0 = (shifted >> rot) | (shifted << lsh);
        let x1 = (x0 ^ (x0 >> 30u64)).wrapping_mul(0xbf58476d1ce4e5b9);
        let x2 = (x1 ^ (x1 >> 27u64)).wrapping_mul(0x94d049bb133111eb);
        x2 ^ (x2 >> 31u64)
    }

    /// A draw reduced into `[0, range)` by modulo; the reduction is biased
    /// for ranges that do not divide the word range, which is acceptable
    /// for statistical simulation.
    pub fn rand_int(&mut self, range: usize) -> (r: usize)
        requires
            range >= 1,
        ensures
            final(self)@ == pcg_advance(old(self)@),
            r as u64 == pcg_output(old(self)@) % (range as u64),
            r < range,
    {
        let raw = self.internal();
        (raw % (range as u64)) as usize
    }

    /// A boolean draw: the parity of one full-width draw.
    pub fn rand_bool(&mut self) -> (r: bool)
        ensures
            final(self)@ == pcg_advance(old(self)@),
            r == (pcg_output(old(self)@) & 1 == 0),
    {
        self.internal() & 1 == 0
    }
}

} // verus!
