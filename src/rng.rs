use vstd::prelude::*;

verus! {

/// The golden-ratio increment of splitmix64, also used to spread phase indices.
pub const GOLDEN: u64 = 0x9E37_79B9_7F4A_7C15;

/// The splitmix64 finaliser applied to a state, cut to its low 32 bits.
pub open spec fn splitmix_out(s: u64) -> u32 {
    let z1 = (s ^ (s >> 30u64)).wrapping_mul(0xBF58_476D_1CE4_E5B9u64);
    let z2 = (z1 ^ (z1 >> 27u64)).wrapping_mul(0x94D0_49BB_1331_11EBu64);
    (z2 ^ (z2 >> 31u64)) as u32
}

/// The state after `n` steps from `s`.
pub open spec fn splitmix_state(s: u64, n: nat) -> u64
    decreases n,
{
    if n == 0 {
        s
    } else {
        splitmix_state(s, (n - 1) as nat).wrapping_add(GOLDEN)
    }
}

/// A small deterministic generator (splitmix64) whose whole state is one word.
#[derive(Clone, Copy, Debug, PartialEq, Eq, Structural)]
pub struct Rng64 {
    pub state: u64,
}

impl Rng64 {
    pub fn new(seed: u64) -> (r: Rng64)
        ensures
            r.state == seed,
    {
        Rng64 { state: seed }
    }

    /// Advances the state by one step and returns the mixed value.
    pub fn next_u32(&mut self) -> (r: u32)
        ensures
            final(self).state == old(self).state.wrapping_add(GOLDEN),
            r == splitmix_out(final(self).state),
    {
        self.state = self.state.wrapping_add(GOLDEN);
        let z = self.state;
        let z = (z ^ (z >> 30u64)).wrapping_mul(0xBF58_476D_1CE4_E5B9u64);
        let z = (z ^ (z >> 27u64)).wrapping_mul(0x94D0_49BB_1331_11EBu64);
        (z ^ (z >> 31u64)) as u32
    }

    /// A value in `lo ..= hi`; `lo` itself when the range is empty or a single value.
    pub fn range_i32(&mut self, lo: i32, hi: i32) -> (r: i32)
        ensures
            hi <= lo ==> r == lo && *final(self) == *old(self),
            lo < hi ==> final(self).state == old(self).state.wrapping_add(GOLDEN)
                && r == lo + (splitmix_out(final(self).state) as int) % (hi - lo + 1),
            lo <= hi ==> lo <= r <= hi,
    {
        if hi <= lo {
            return lo;
        }
        let span: u64 = (hi as i64 - lo as i64 + 1) as u64;
        let v = self.next_u32();
        let off: u64 = (v as u64) % span;
        (lo as i64 + off as i64) as i32
    }

    /// An index below `len`, or 0 when `len` is 0 (which draws nothing).
    pub fn choose_idx(&mut self, len: usize) -> (r: usize)
        ensures
            len == 0 ==> r == 0 && *final(self) == *old(self),
            len > 0 ==> final(self).state == old(self).state.wrapping_add(GOLDEN)
                && r == (splitmix_out(final(self).state) as int) % (len as int),
            len > 0 ==> r < len,
    {
        if len == 0 {
            0
        } else {
            let v = self.next_u32();
            ((v as u64) % (len as u64)) as usize
        }
    }

    /// The same draw as `choose_idx`, under the name the placement code uses.
    pub fn range_usize(&mut self, hi_excl: usize) -> (r: usize)
        ensures
            hi_excl == 0 ==> r == 0 && *final(self) == *old(self),
            hi_excl > 0 ==> final(self).state == old(self).state.wrapping_add(GOLDEN)
                && r == (splitmix_out(final(self).state) as int) % (hi_excl as int),
            hi_excl > 0 ==> r < hi_excl,
    {
        self.choose_idx(hi_excl)
    }

    /// A value in `0 ..= 1000`, a fraction in thousandths.
    pub fn permille(&mut self) -> (r: i32)
        ensures
            final(self).state == old(self).state.wrapping_add(GOLDEN),
            r == (splitmix_out(final(self).state) as int) % 1001,
            0 <= r <= 1000,
    {
        let v = self.next_u32();
        ((v as u64) % 1001) as i32
    }
}

/// The seed of generation phase `phase` under base seed `base`.
pub open spec fn phase_seed_of(base: u64, phase: u64) -> u64 {
    base ^ phase.wrapping_mul(GOLDEN)
}

/// A base seed from which each generation phase takes a stream of its own.
#[derive(Clone, Copy, Debug, PartialEq, Eq, Structural)]
pub struct RngSeq {
    pub base: u64,
}

impl RngSeq {
    pub fn new(seed: u64) -> (r: RngSeq)
        ensures
            r.base == seed,
    {
        RngSeq { base: seed }
    }

    /// The seed of one phase: the base mixed with the phase index spread by `GOLDEN`.
    pub fn phase_seed(&self, phase: u64) -> (r: u64)
        ensures
            r == phase_seed_of(self.base, phase),
    {
        self.base ^ phase.wrapping_mul(GOLDEN)
    }

    /// A splitmix stream for one phase.
    pub fn stream(&self, phase: u64) -> (r: Rng64)
        ensures
            r.state == phase_seed_of(self.base, phase),
    {
        Rng64::new(self.phase_seed(phase))
    }

    /// A PCG stream for one phase, seeded with `phase_seed`.
    pub fn for_phase(&self, phase: u64) -> (r: rand_pcg::Pcg64Mcg)
        ensures
            r == pcg_seeded(phase_seed_of(self.base, phase)),
    {
        let s = self.phase_seed(phase);
        pcg_from_seed(s)
    }
}

#[verifier::external_type_specification]
#[verifier::external_body]
pub struct ExPcg64Mcg(rand_pcg::Mcg128Xsl64);

/// The PCG generator that a seed word gives.
pub uninterp spec fn pcg_seeded(seed: u64) -> rand_pcg::Pcg64Mcg;

/// Relies on `rand::SeedableRng::seed_from_u64` for `Pcg64Mcg`: the generator
/// is built from the seed alone, so equal seeds give equal generators.
#[verifier::external_body]
fn pcg_from_seed(seed: u64) -> (r: rand_pcg::Pcg64Mcg)
    ensures
        r == pcg_seeded(seed),
{
    <rand_pcg::Pcg64Mcg as rand::SeedableRng>::seed_from_u64(seed)
}

} // verus!
