//! Sources of values and of randomness for the growth layers.
use vstd::prelude::*;
use crate::fixed::PPM;

verus! {

/// Something that produces values of one type.
pub trait Sampler {
    type SampleType;

    fn sample(&self) -> Self::SampleType;
}

/// Something that produces values from given parameters.
pub trait ParameterizedSampler {
    type Params;

    type SampleType;

    fn sample_with_params(&self, params: &Self::Params) -> Self::SampleType;
}

/// A sampler that always produces the same value.
pub struct UniformSampler<T> where T: Copy {
    value: T,
}

impl<T: Copy> UniformSampler<T> {
    pub closed spec fn spec_value(&self) -> T {
        self.value
    }

    pub fn new(value: T) -> (r: UniformSampler<T>)
        ensures
            r.spec_value() == value,
    {
        UniformSampler { value }
    }
}

impl<T: Copy> Sampler for UniformSampler<T> {
    type SampleType = T;

    fn sample(&self) -> (r: T)
        ensures
            r == self.spec_value(),
    {
        self.value
    }
}

/// The random draws that the growth layers make. Probabilities are in parts
/// per million; the layers pass a fresh draw of each kind where they need one.
pub trait RandomSource {
    /// A Bernoulli trial that succeeds with probability `ppm / 1_000_000`:
    /// never at zero, always from one million on.
    fn chance(&mut self, ppm: u64) -> (r: bool)
        ensures
            ppm == 0 ==> !r,
            ppm >= PPM ==> r,
    ;

    /// A uniform index below `n`.
    fn pick(&mut self, n: usize) -> (r: usize)
        requires
            n > 0,
        ensures
            r < n,
    ;

    /// A draw from the normal distribution with the given mean and standard
    /// deviation; a zero deviation gives the mean itself.
    fn normal(&mut self, mean: i64, std_dev: i64) -> (r: i64)
        requires
            std_dev >= 0,
        ensures
            std_dev == 0 ==> r == mean,
    ;
}

#[verifier::external_type_specification]
#[verifier::external_body]
pub struct ExStdRng(rand::rngs::StdRng);

/// Relies on rand's `SeedableRng::seed_from_u64`: the standard generator
/// started from a `u64` seed. Nothing is stated of it.
#[verifier::external_body]
fn seeded_rng(seed: u64) -> rand::rngs::StdRng {
    <rand::rngs::StdRng as rand::SeedableRng>::seed_from_u64(seed)
}

/// Relies on rand's `Rng::gen_range` over `0..n`: a value below `n`; it
/// panics only on an empty range, which `n > 0` excludes.
#[verifier::external_body]
fn uniform_below(rng: &mut rand::rngs::StdRng, n: u64) -> (r: u64)
    requires
        n > 0,
    ensures
        r < n,
{
    rand::Rng::gen_range(rng, 0..n)
}

/// A deterministic source: rand's standard generator started from a seed,
/// so that a growth run can be replayed. Normal draws are approximated by
/// the sum of twelve uniform draws, since the library holds no floating
/// point.
pub struct SeededSource {
    rng: rand::rngs::StdRng,
}

impl SeededSource {
    /// A source started from `seed`.
    pub fn new(seed: u64) -> (r: SeededSource) {
        SeededSource { rng: seeded_rng(seed) }
    }

    fn next_below(&mut self, n: u64) -> (r: u64)
        requires
            n > 0,
        ensures
            r < n,
    {
        uniform_below(&mut self.rng, n)
    }
}

impl RandomSource for SeededSource {
    fn chance(&mut self, ppm: u64) -> (r: bool) {
        let u = self.next_below(PPM as u64);
        u < ppm
    }

    fn pick(&mut self, n: usize) -> (r: usize) {
        self.next_below(n as u64) as usize
    }

    fn normal(&mut self, mean: i64, std_dev: i64) -> (r: i64) {
        if std_dev == 0 {
            return mean;
        }
        let mut sum: u64 = 0;
        let mut k: u64 = 0;
        while k < 12
            invariant
                k <= 12,
                sum <= k * 1_000_000,
            decreases 12 - k,
        {
            sum = sum + self.next_below(1_000_000);
            k = k + 1;
        }
        let spread: u128 = if sum >= 6_000_000 {
            (sum - 6_000_000) as u128
        } else {
            (6_000_000 - sum) as u128
        };
        assert(spread <= 6_000_000);
        assert((std_dev as u128) * spread <= 0x7fff_ffff_ffff_ffff * 6_000_000) by (nonlinear_arith)
            requires
                0 <= std_dev <= 0x7fff_ffff_ffff_ffff,
                spread <= 6_000_000,
        ;
        let product: u128 = (std_dev as u128) * spread;
        let offset = (product / 1_000_000) as i128;
        let v: i128 = if sum >= 6_000_000 {
            (mean as i128) + offset
        } else {
            (mean as i128) - offset
        };
        if v > i64::MAX as i128 {
            i64::MAX
        } else if v < i64::MIN as i128 {
            i64::MIN
        } else {
            v as i64
        }
    }
}

} // verus!
