//! Facts about Euclid's greatest common divisor.

use vstd::prelude::*;

verus! {

/// Greatest common divisor by Euclid's algorithm.
pub open spec fn spec_gcd(a: nat, b: nat) -> nat
    decreases b,
{
    if b == 0 {
        a
    } else {
        spec_gcd(b, a % b)
    }
}

proof fn lemma_multiple_mod(e: int, q: int)
    requires
        e > 0,
    ensures
        (e * q) % e == 0,
{
    vstd::arithmetic::div_mod::lemma_mod_multiples_basic(q, e);
    assert(e * q == q * e) by (nonlinear_arith);
}

proof fn lemma_mod_witness(x: int, e: int)
    requires
        e > 0,
        x % e == 0,
    ensures
        x == e * (x / e),
{
    vstd::arithmetic::div_mod::lemma_fundamental_div_mod(x, e);
}

/// The gcd divides both arguments and is positive unless both are zero.
pub proof fn lemma_gcd_divides(a: nat, b: nat)
    ensures
        a > 0 || b > 0 ==> spec_gcd(a, b) > 0,
        spec_gcd(a, b) > 0 ==> a % spec_gcd(a, b) == 0 && b % spec_gcd(a, b) == 0,
        spec_gcd(a, b) <= if a > b { a } else { b },
    decreases b,
{
    if b == 0 {
        if a > 0 {
            vstd::arithmetic::div_mod::lemma_mod_self_0(a as int);
        }
    } else {
        let r = a % b;
        lemma_gcd_divides(b, r);
        let g = spec_gcd(b, r);
        assert(g > 0);
        lemma_mod_witness(b as int, g as int);
        lemma_mod_witness(r as int, g as int);
        vstd::arithmetic::div_mod::lemma_fundamental_div_mod(a as int, b as int);
        let p = b as int / g as int;
        let q = r as int / g as int;
        let t = a as int / b as int;
        assert(a as int == g * (p * t + q)) by (nonlinear_arith)
            requires
                b as int == g * p,
                r as int == g * q,
                a as int == b * t + r,
        ;
        lemma_multiple_mod(g as int, p * t + q);
        assert(r < b) by {
            vstd::arithmetic::div_mod::lemma_mod_bound(a as int, b as int);
        }
    }
}

/// Every common divisor of the arguments divides their gcd.
pub proof fn lemma_common_divisor_divides_gcd(a: nat, b: nat, e: nat)
    requires
        e > 0,
        a % e == 0,
        b % e == 0,
    ensures
        spec_gcd(a, b) % e == 0,
    decreases b,
{
    if b > 0 {
        let r = a % b;
        vstd::arithmetic::div_mod::lemma_fundamental_div_mod(a as int, b as int);
        lemma_mod_witness(a as int, e as int);
        lemma_mod_witness(b as int, e as int);
        let x = a as int / e as int;
        let y = b as int / e as int;
        let t = a as int / b as int;
        assert(r as int == e * (x - y * t)) by (nonlinear_arith)
            requires
                a as int == e * x,
                b as int == e * y,
                a as int == b * t + r,
        ;
        lemma_multiple_mod(e as int, x - y * t);
        lemma_common_divisor_divides_gcd(b, r, e);
    }
}

} // verus!
