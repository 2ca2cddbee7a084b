use rand::SeedableRng;
use vstd::prelude::*;

verus! {

#[verifier::external_type_specification]
#[verifier::external_body]
pub struct ExStdRng(rand::rngs::StdRng);

/// Seed for trial `trial_index` derived from the base `seed` with the
/// SplitMix64 finaliser, all arithmetic modulo 2^64.
pub open spec fn mixed_trial_seed(seed: u64, trial_index: u64) -> u64 {
    let z0 = ((seed + trial_index * 0x9E37_79B9_7F4A_7C15u64) % 0x1_0000_0000_0000_0000) as u64;
    let z1 = (((z0 ^ (z0 >> 30u64)) * 0xBF58_476D_1CE4_E5B9u64) % 0x1_0000_0000_0000_0000) as u64;
    let z2 = (((z1 ^ (z1 >> 27u64)) * 0x94D0_49BB_1331_11EBu64) % 0x1_0000_0000_0000_0000) as u64;
    z2 ^ (z2 >> 31u64)
}

/// Controls how query-trial sampling generators are initialised.
#[derive(Debug, Clone, Copy, PartialEq, Eq, Structural, Hash)]
pub enum RngMode {
    /// Seed each trial from fresh system randomness.
    Random,
    /// Derive one deterministic seed per trial from the supplied base seed.
    Seeded(u64),
}

/// The generator that `StdRng::seed_from_u64` builds from `seed`.
pub uninterp spec fn seeded_std_rng(seed: u64) -> rand::rngs::StdRng;

/// `rand::rngs::StdRng::seed_from_u64`: the generator is a function of
/// `seed` alone, named `seeded_std_rng`; nothing more is stated of it.
#[verifier::external_body]
fn std_rng_from_seed(seed: u64) -> (res: rand::rngs::StdRng)
    ensures
        res == seeded_std_rng(seed),
{
    rand::rngs::StdRng::seed_from_u64(seed)
}

/// `StdRng::try_from_rng(&mut SysRng)`: a generator seeded from system
/// randomness, or `None` when the system could not supply it. Nothing is
/// stated of the generator, nor of when the system fails.
#[verifier::external_body]
fn std_rng_from_system() -> (res: Option<rand::rngs::StdRng>) {
    rand::rngs::StdRng::try_from_rng(&mut rand::rngs::SysRng).ok()
}

impl RngMode {
    /// Sampling generator for trial `trial_index`: seeded from
    /// `trial_seed(seed, trial_index)` in `Seeded` mode, which always
    /// succeeds; from system randomness otherwise, `None` when the system
    /// cannot supply it.
    pub fn rng_for_trial(self, trial_index: usize) -> (res: Option<rand::rngs::StdRng>)
        ensures
            self matches RngMode::Seeded(seed) ==> res == Some(
                seeded_std_rng(mixed_trial_seed(seed, trial_index as u64)),
            ),
    {
        match self {
            RngMode::Random => std_rng_from_system(),
            RngMode::Seeded(seed) => Some(std_rng_from_seed(Self::trial_seed(seed, trial_index))),
        }
    }

    /// Deterministic per-trial seed: distinct trials of one base seed get
    /// well-mixed, independent-looking seeds.
    pub fn trial_seed(seed: u64, trial_index: usize) -> (res: u64)
        ensures
            res == mixed_trial_seed(seed, trial_index as u64),
    {
        let index = trial_index as u64;
        let product = index.wrapping_mul(0x9E37_79B9_7F4A_7C15);
        let mut z = seed.wrapping_add(product);
        proof {
            assert(z == ((seed + index * 0x9E37_79B9_7F4A_7C15u64) % 0x1_0000_0000_0000_0000) as u64)
                by (nonlinear_arith)
                requires
                    product == ((index as nat * 0x9E37_79B9_7F4A_7C15u64 as nat) % 0x1_0000_0000_0000_0000 as nat) as u64,
                    z == (if seed + product > u64::MAX {
                        (seed + product - 0x1_0000_0000_0000_0000) as u64
                    } else {
                        (seed + product) as u64
                    }),
            ;
        }
        z = (z ^ (z >> 30)).wrapping_mul(0xBF58_476D_1CE4_E5B9);
        z = (z ^ (z >> 27)).wrapping_mul(0x94D0_49BB_1331_11EB);
        z ^ (z >> 31)
    }
}

} // verus!
