//! Continuous phases on an integer lattice of `TICKS_PER_TURN` ticks per 2π.
use vstd::prelude::*;

verus! {

/// Ticks in one full turn (2π); a power of two divisible by 8 so that
/// π/4 multiples, negation and modular sums are exact.
pub const TICKS_PER_TURN: u64 = 536870912;
/// Ticks in π/4.
pub const TICKS_PER_PI_4: u64 = 67108864;
/// Ticks in π/2.
pub const TICKS_PER_PI_2: u64 = 134217728;

/// `(a + b) mod TICKS_PER_TURN`.
pub fn add_ticks(a: u32, b: u32) -> (r: u32)
    ensures
        r == (a + b) % (TICKS_PER_TURN as int),
        r < TICKS_PER_TURN,
{
    ((a as u64 + b as u64) % TICKS_PER_TURN) as u32
}

/// `-a mod TICKS_PER_TURN`.
pub fn negate_ticks(a: u32) -> (r: u32)
    ensures
        r == (TICKS_PER_TURN - (a as int) % (TICKS_PER_TURN as int)) % (TICKS_PER_TURN as int),
        r < TICKS_PER_TURN,
{
    ((TICKS_PER_TURN - (a as u64 % TICKS_PER_TURN)) % TICKS_PER_TURN) as u32
}

/// Negation is an additive inverse on the lattice: `a + (-a) ≡ 0`.
pub proof fn lemma_negate_is_inverse(a: u32)
    ensures
        ((a as int) + (TICKS_PER_TURN - (a as int) % (TICKS_PER_TURN as int)) % (TICKS_PER_TURN as int))
            % (TICKS_PER_TURN as int) == 0,
{
    let t = TICKS_PER_TURN as int;
    let ai = a as int;
    let r = ai % t;
    let q = ai / t;
    assert(ai == q * t + r);
    if r == 0 {
        assert((t - r) % t == 0);
    } else {
        assert((t - r) % t == t - r);
        assert(ai + (t - r) == (q + 1) * t) by (nonlinear_arith) requires ai == q * t + r;
        assert(((q + 1) * t) % t == 0) by (nonlinear_arith) requires t > 0, q + 1 >= 0;
    }
}

/// Negating twice gives back the canonical residue.
pub proof fn lemma_negate_involutive(a: u32)
    ensures
        ({
            let t = TICKS_PER_TURN as int;
            let n = (t - (a as int) % t) % t;
            (t - n % t) % t == (a as int) % t
        }),
{
    let t = TICKS_PER_TURN as int;
    let r = (a as int) % t;
    if r == 0 {
        assert((t - 0) % t == 0);
    } else {
        assert((t - r) % t == t - r);
    }
}

} // verus!
