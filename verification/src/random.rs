//! A very simple pseudo-random number generator: a Lehmer generator
//! with multiplier 16807 over the Mersenne prime modulus `2^31 - 1`.
//! Not especially good at generating truly random bits, but good
//! enough for the test harnesses in this package.

use vstd::prelude::*;

verus! {

/// The modulus `2^31 - 1`, a prime.
pub const RANDOM_M: u32 = 2147483647;

/// The multiplier.
pub const RANDOM_A: u32 = 16807;

/// The seed a generator starts from: the low 31 bits of `s`, with the
/// two bad fixed points 0 and `2^31 - 1` replaced by 1.
pub open spec fn spec_init_seed(s: u32) -> u32 {
    let masked = s & 0x7fffffff;
    if masked == 0 || masked == 2147483647 {
        1u32
    } else {
        masked
    }
}

/// The seed after one step: `seed * 16807 mod (2^31 - 1)`.
pub open spec fn spec_next_seed(seed: u32) -> u32 {
    (((seed * RANDOM_A) as int) % (RANDOM_M as int)) as u32
}

/// A generator is usable while its seed lies strictly between 0 and
/// the modulus; both endpoints are fixed points of the recurrence.
pub open spec fn seed_in_range(seed: u32) -> bool {
    1 <= seed <= 2147483646
}

pub struct Random {
    pub seed: u32,
}

impl Random {
    /// Return a random number generator seeded from `s`.
    pub fn new(s: u32) -> (r: Random)
        ensures
            r.seed == spec_init_seed(s),
            seed_in_range(r.seed),
    {
        let mut seed = s & 0x7fffffff;
        proof {
            assert(s & 0x7fffffff <= 0x7fffffff) by (bit_vector);
        }
        // Avoid bad seeds.
        if seed == 0 || seed == 2147483647 {
            seed = 1;
        }
        Random { seed }
    }

    /// Return the next random number in this generator: the seed
    /// advances by one Lehmer step and is returned.
    pub fn next(&mut self) -> (r: u32)
        requires
            seed_in_range(old(self).seed),
        ensures
            final(self).seed == spec_next_seed(old(self).seed),
            r == final(self).seed,
            seed_in_range(r),
    {
        proof {
            let s0 = old(self).seed;
            assert((s0 as u64) * 16807u64 < 0x20d380000000) by (nonlinear_arith)
                requires
                    s0 <= 0x7ffffffe,
            ;
        }
        let product: u64 = (self.seed as u64) * 16807u64;

        // Compute product % M from the halves of the product, using
        // 2^31 == 1 (mod M): the first reduction may overflow by one
        // bit, so one conditional subtraction finishes it.
        proof {
            assert(product >> 31 < 0x20000 && (product & 0x7fffffff) <= 0x7fffffff)
                by (bit_vector)
                requires
                    product < 0x20d380000000,
            ;
        }
        let hi: u32 = (product >> 31u64) as u32;
        let lo: u32 = (product & 0x7fffffff) as u32;
        proof {
            lemma_split_halves(product, hi, lo);
        }
        let mut next: u32 = hi + lo;
        if next > RANDOM_M {
            next = next - RANDOM_M;
        }
        proof {
            lemma_step_sound(old(self).seed, product, hi, lo, next);
        }
        self.seed = next;
        next
    }

    /// Returns a uniformly distributed value in the range `[0, n-1]`.
    pub fn uniform(&mut self, n: u32) -> (r: u32)
        requires
            n > 0,
            seed_in_range(old(self).seed),
        ensures
            final(self).seed == spec_next_seed(old(self).seed),
            r == spec_next_seed(old(self).seed) % n,
            seed_in_range(final(self).seed),
    {
        self.next() % n
    }

    /// Randomly returns true about one time in `n`, and false
    /// otherwise.
    pub fn one_in(&mut self, n: u32) -> (r: bool)
        requires
            n > 0,
            seed_in_range(old(self).seed),
        ensures
            final(self).seed == spec_next_seed(old(self).seed),
            r == (spec_next_seed(old(self).seed) % n == 0),
            seed_in_range(final(self).seed),
    {
        self.next() % n == 0
    }

    /// Skewed: pick a bit width uniformly from `[0, max_log]` and then
    /// draw that many random bits, biasing toward small numbers.  Two
    /// generator steps are consumed.
    pub fn skewed(&mut self, max_log: u32) -> (r: u32)
        requires
            max_log <= 31,
            seed_in_range(old(self).seed),
        ensures
            seed_in_range(final(self).seed),
            ({
                let step1 = spec_next_seed(old(self).seed);
                let width = step1 % (max_log + 1) as u32;
                &&& final(self).seed == spec_next_seed(step1)
                &&& r == spec_next_seed(step1) % (1u32 << width)
                &&& r < (1u32 << width)
            }),
    {
        let base = self.uniform(max_log + 1);
        proof {
            assert(1u32 << base >= 1) by (bit_vector)
                requires
                    base <= 31,
            ;
        }
        self.uniform(1u32 << base)
    }
}

/// The two halves of `seed * A` recombine as `product == hi * 2^31 + lo`
/// with `hi <= 16806` and `lo <= M`.
proof fn lemma_split_halves(product: u64, hi: u32, lo: u32)
    requires
        product < 0x20d380000000,
        hi == product >> 31,
        lo == product & 0x7fffffff,
    ensures
        product == hi * 0x80000000 + lo,
        hi < 0x20000,
        lo <= 0x7fffffff,
{
    assert(product == (product >> 31) * 0x80000000 + (product & 0x7fffffff) && (product >> 31)
        < 0x20000 && (product & 0x7fffffff) <= 0x7fffffff) by (bit_vector)
        requires
            product < 0x20d380000000,
    ;
}

/// The recombined halves, after one conditional subtraction, are the
/// product's residue modulo `2^31 - 1`, and that residue is never zero
/// for a seed in range.
proof fn lemma_step_sound(seed: u32, product: u64, hi: u32, lo: u32, next: u32)
    requires
        seed_in_range(seed),
        product == seed * 16807,
        product == hi * 0x80000000 + lo,
        hi < 0x20000,
        lo <= 0x7fffffff,
        next == if hi + lo > 0x7fffffff {
            (hi + lo - 0x7fffffff) as u32
        } else {
            (hi + lo) as u32
        },
    ensures
        next == ((product as int) % 0x7fffffff) as u32,
        seed_in_range(next),
{
    let m = 0x7fffffffint;
    // product == hi * m + (hi + lo), so product and hi + lo agree mod m
    assert(product == hi * m + (hi + lo));
    assert((hi * m + (hi + lo)) % m == (hi + lo) % m) by {
        vstd::arithmetic::div_mod::lemma_mod_multiples_vanish(hi as int, (hi + lo) as int, m);
    };
    // hi + lo < 2m, so one subtraction lands in [0, m]
    assert(hi + lo < 2 * m);
    if hi + lo > m {
        assert((hi + lo) % m == (hi + lo - m) % m) by {
            vstd::arithmetic::div_mod::lemma_mod_sub_multiples_vanish((hi + lo) as int, m);
        };
        assert((hi + lo - m) % m == hi + lo - m) by {
            vstd::arithmetic::div_mod::lemma_small_mod((hi + lo - m) as nat, m as nat);
        };
    } else {
        // next == hi + lo <= m; it cannot equal m, else m would divide
        // the product of two numbers smaller than the prime m
        if hi + lo == m {
            assert((hi + lo) % m == 0) by {
                vstd::arithmetic::div_mod::lemma_mod_self_0(m);
            };
            lemma_lehmer_no_zero(seed as int);
        } else {
            assert((hi + lo) % m == hi + lo) by {
                vstd::arithmetic::div_mod::lemma_small_mod((hi + lo) as nat, m as nat);
            };
        }
    }
    // the residue is nonzero, so next stays in range
    if next == 0 {
        if (product as int) % m == 0 {
            lemma_lehmer_no_zero(seed as int);
        }
    }
    assert(next <= 0x7ffffffe);
}

/// `2^31 - 1` never divides `seed * 16807` for `1 <= seed < 2^31 - 1`:
/// from a Bezout identity for the inverse of 16807, divisibility of the
/// product would force divisibility of the seed, which its range rules
/// out.
proof fn lemma_lehmer_no_zero(seed: int)
    requires
        1 <= seed <= 0x7ffffffe,
    ensures
        (seed * 16807) % 0x7fffffff != 0,
{
    let m = 0x7fffffffint;
    let product = seed * 16807;
    if product % m == 0 {
        let q = product / m;
        vstd::arithmetic::div_mod::lemma_fundamental_div_mod(product, m);
        assert(product == q * m);
        // 16807 * 1407677000 == 11017 * (2^31 - 1) + 1
        assert(16807int * 1407677000 == 11017 * m + 1);
        // multiply the identity by seed and substitute the product
        assert(seed * (16807 * 1407677000) == (seed * 16807) * 1407677000) by (nonlinear_arith);
        assert(seed * (11017 * m + 1) == (seed * 11017) * m + seed) by (nonlinear_arith);
        assert((seed * 16807) * 1407677000 == (q * m) * 1407677000) by (nonlinear_arith)
            requires
                seed * 16807 == q * m,
        ;
        assert((q * m) * 1407677000 == (q * 1407677000) * m) by (nonlinear_arith);
        // so seed == (q * 1407677000 - seed * 11017) * m
        let t = q * 1407677000 - seed * 11017;
        assert(seed == t * m) by (nonlinear_arith)
            requires
                (seed * 11017) * m + seed == (q * 1407677000) * m,
                t == q * 1407677000 - seed * 11017,
        ;
        // but m * t cannot lie strictly between 0 and m
        assert(!(1 <= t * m <= 0x7ffffffe)) by (nonlinear_arith)
            requires
                m == 0x7fffffff,
        ;
    }
}

} // verus!
