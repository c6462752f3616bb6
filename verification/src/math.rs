//! Arithmetic groundwork: power-of-two alignments and rounding an address
//! up to an alignment boundary.

use vstd::prelude::*;
use vstd::arithmetic::div_mod::{lemma_fundamental_div_mod, lemma_mod_multiples_basic};
use vstd::arithmetic::power2::{
    lemma2_to64, lemma_pow2_adds, lemma_pow2_pos, lemma_pow2_strictly_increases, pow2,
};

verus! {

/// A valid alignment: a power of two that a `usize` can hold.
pub open spec fn is_pow2(n: usize) -> bool {
    exists|k: nat| k < 64 && n == pow2(k)
}

/// Every power of two is at least one.
pub proof fn lemma_pow2_at_least_one(n: usize)
    requires
        is_pow2(n),
    ensures
        n >= 1,
{
    let k = choose|k: nat| k < 64 && n == pow2(k);
    lemma_pow2_pos(k);
}

/// A smaller power of two divides a larger one.
pub proof fn lemma_pow2_divides(a: usize, b: usize)
    requires
        is_pow2(a),
        is_pow2(b),
        a <= b,
    ensures
        b % a == 0,
{
    let i = choose|k: nat| k < 64 && a == pow2(k);
    let j = choose|k: nat| k < 64 && b == pow2(k);
    if j < i {
        lemma_pow2_strictly_increases(j, i);
        assert(false);
    }
    lemma_pow2_adds(i, (j - i) as nat);
    lemma_pow2_pos(i);
    lemma_mod_multiples_basic(pow2((j - i) as nat) as int, pow2(i) as int);
    assert(pow2(i) * pow2((j - i) as nat) == pow2((j - i) as nat) * pow2(i));
}

/// A multiple of `b` is a multiple of every divisor `a` of `b`.
pub proof fn lemma_mod_zero_transitive(x: int, a: int, b: int)
    requires
        a > 0,
        b > 0,
        x % b == 0,
        b % a == 0,
    ensures
        x % a == 0,
{
    lemma_fundamental_div_mod(x, b);
    lemma_fundamental_div_mod(b, a);
    let q = x / b;
    let m = b / a;
    assert(x == b * q);
    assert(b == a * m);
    assert(x == (m * q) * a) by (nonlinear_arith)
        requires
            x == b * q,
            b == a * m,
    ;
    lemma_mod_multiples_basic(m * q, a);
}

/// `x` rounded up to the next multiple of `a`.
pub open spec fn spec_round_up(x: int, a: int) -> int
    recommends
        a > 0,
{
    if x % a == 0 {
        x
    } else {
        x + a - x % a
    }
}

/// Rounding up lands on a multiple of `a` that is within `a` of `x`.
pub proof fn lemma_round_up(x: int, a: int)
    requires
        a > 0,
        x >= 0,
    ensures
        spec_round_up(x, a) % a == 0,
        x <= spec_round_up(x, a) < x + a,
{
    let r = x % a;
    lemma_fundamental_div_mod(x, a);
    if r != 0 {
        let q = x / a;
        assert(x + a - r == (q + 1) * a) by (nonlinear_arith)
            requires
                x == a * q + r,
        ;
        lemma_mod_multiples_basic(q + 1, a);
    }
}

/// Round `x` up to the next multiple of `align`, or `None` when that
/// multiple does not fit in a `usize`.
pub fn round_up(x: usize, align: usize) -> (r: Option<usize>)
    requires
        align >= 1,
    ensures
        match r {
            Some(v) => {
                &&& v == spec_round_up(x as int, align as int)
                &&& v % align == 0
                &&& x <= v < x + align
            },
            None => spec_round_up(x as int, align as int) > usize::MAX,
        },
{
    proof {
        lemma_round_up(x as int, align as int);
    }
    let rem = x % align;
    if rem == 0 {
        Some(x)
    } else if x <= usize::MAX - (align - rem) {
        Some(x + (align - rem))
    } else {
        None
    }
}

} // verus!
