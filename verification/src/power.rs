//! Powers of natural numbers.

use vstd::prelude::*;

verus! {

/// `b` to the power of `e`.
pub open spec fn power(b: nat, e: nat) -> nat
    decreases e,
{
    if e == 0 {
        1
    } else {
        b * power(b, (e - 1) as nat)
    }
}

/// Powers are at least one for a base that is, and grow with the exponent.
pub proof fn lemma_power_grows(b: nat, e: nat, f: nat)
    requires
        b >= 1,
        e <= f,
    ensures
        1 <= power(b, e) <= power(b, f),
    decreases f,
{
    if f > 0 {
        if e == f {
            lemma_power_grows(b, (e - 1) as nat, (f - 1) as nat);
        } else {
            lemma_power_grows(b, e, (f - 1) as nat);
        }
        assert(power(b, (f - 1) as nat) <= b * power(b, (f - 1) as nat)) by (nonlinear_arith)
            requires
                b >= 1,
                power(b, (f - 1) as nat) >= 1,
        ;
    }
}

/// `b` to the power of `e`, if it fits.
pub fn checked_power(b: usize, e: usize) -> (r: Option<usize>)
    ensures
        power(b as nat, e as nat) <= usize::MAX ==> r == Some(power(b as nat, e as nat) as usize),
        power(b as nat, e as nat) > usize::MAX ==> r is None,
{
    if e == 0 {
        return Some(1);
    }
    if b <= 1 {
        proof {
            lemma_power_small(b as nat, e as nat);
        }
        return Some(b);
    }
    let mut result: usize = 1;
    let mut i: usize = 0;
    while i < e
        invariant
            i <= e,
            b >= 2,
            result == power(b as nat, i as nat),
        decreases e - i,
    {
        proof {
            lemma_power_grows(b as nat, (i + 1) as nat, e as nat);
        }
        match result.checked_mul(b) {
            Some(next) => {
                assert(result * b == b * result) by (nonlinear_arith);
                result = next;
            },
            None => {
                assert(result * b == b * result) by (nonlinear_arith);
                return None;
            },
        }
        i += 1;
    }
    Some(result)
}

/// The powers of zero and of one.
proof fn lemma_power_small(b: nat, e: nat)
    requires
        b <= 1,
        e >= 1,
    ensures
        power(b, e) == b,
    decreases e,
{
    reveal_with_fuel(power, 2);
    if e > 1 {
        lemma_power_small(b, (e - 1) as nat);
        assert(b * b == b) by (nonlinear_arith)
            requires
                b <= 1,
        ;
    }
}

} // verus!
