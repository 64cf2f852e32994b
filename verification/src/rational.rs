use vstd::prelude::*;
use vstd::arithmetic::div_mod::{
    lemma_fundamental_div_mod, lemma_fundamental_div_mod_converse, lemma_mod_decreases,
};

verus! {

/// Greatest common divisor; `gcd(a, 0) == a`.
pub open spec fn gcd(a: nat, b: nat) -> nat
    decreases b,
{
    if b == 0 {
        a
    } else {
        gcd(b, (a % b) as nat)
    }
}

/// `d` divides `a`.
pub open spec fn divides(d: nat, a: nat) -> bool {
    exists|k: nat| a == #[trigger] (k * d)
}

pub proof fn lemma_divides_mult(d: nat, k: nat)
    ensures
        divides(d, k * d),
{
    assert(k * d == (k as nat) * d);
}

pub proof fn lemma_gcd_divides(a: nat, b: nat)
    ensures
        divides(gcd(a, b), a),
        divides(gcd(a, b), b),
    decreases b,
{
    if b == 0 {
        assert(a == 1nat * a);
        assert(b == 0nat * a);
    } else {
        lemma_mod_decreases(a, b);
        lemma_gcd_divides(b, (a % b) as nat);
        let g = gcd(b, (a % b) as nat);
        // g divides b and a % b, hence a == (a / b) * b + a % b is a multiple of g.
        let kb = choose|k: nat| b == #[trigger] (k * g);
        let kr = choose|k: nat| (a % b) as nat == #[trigger] (k * g);
        lemma_fundamental_div_mod(a as int, b as int);
        assert(a as int == b as int * (a as int / b as int) + (a as int % b as int));
        let q = a as int / b as int;
        assert(q >= 0) by (nonlinear_arith)
            requires
                a >= 0,
                b > 0,
                q == a as int / b as int,
        ;
        assert(a as int == (kb * g) as int * q + (kr * g) as int);
        assert(a as int == (kb * q + kr) * g) by (nonlinear_arith)
            requires
                a as int == (kb * g) as int * q + (kr * g) as int,
        ;
        let ka = (kb as int * q + kr as int);
        assert(ka >= 0) by (nonlinear_arith)
            requires
                kb >= 0,
                q >= 0,
                kr >= 0,
                ka == kb as int * q + kr as int,
        ;
        assert(a == (ka as nat) * g);
    }
}

pub proof fn lemma_divides_gcd(d: nat, a: nat, b: nat)
    requires
        d > 0,
        divides(d, a),
        divides(d, b),
    ensures
        divides(d, gcd(a, b)),
    decreases b,
{
    if b == 0 {
    } else {
        // d divides a % b since a % b == a - (a / b) * b.
        let ka = choose|k: nat| a == #[trigger] (k * d);
        let kb = choose|k: nat| b == #[trigger] (k * d);
        lemma_fundamental_div_mod(a as int, b as int);
        let q = a as int / b as int;
        let r = a as int % b as int;
        assert(r == a - b * q);
        assert(r == (ka as int - kb as int * q) * d as int) by (nonlinear_arith)
            requires
                a == ka * d,
                b == kb * d,
                r == a - b * q,
        ;
        let kr = ka as int - kb as int * q;
        assert(kr * d as int >= 0);
        assert(kr >= 0) by (nonlinear_arith)
            requires
                kr * d as int >= 0,
                d > 0,
        ;
        assert((a % b) as nat == (kr as nat) * d);
        lemma_mod_decreases(a, b);
        lemma_divides_gcd(d, b, (a % b) as nat);
    }
}

pub proof fn lemma_gcd_pos(a: nat, b: nat)
    requires
        a > 0 || b > 0,
    ensures
        gcd(a, b) > 0,
    decreases b,
{
    if b == 0 {
    } else {
        lemma_mod_decreases(a, b);
        lemma_gcd_pos(b, (a % b) as nat);
    }
}

/// Dividing out the gcd is exact.
pub proof fn lemma_div_by_divisor(d: nat, a: nat)
    requires
        d > 0,
        divides(d, a),
    ensures
        (a / d) * d == a,
        a / d == choose|k: nat| a == #[trigger] (k * d),
{
    let k = choose|k: nat| a == #[trigger] (k * d);
    lemma_fundamental_div_mod_converse(a as int, d as int, k as int, 0);
}

/// After dividing both by their gcd, nothing above 1 divides both.
pub proof fn lemma_coprime_after_div(a: nat, b: nat)
    requires
        b > 0,
    ensures
        gcd(a / gcd(a, b), b / gcd(a, b)) == 1,
{
    let g = gcd(a, b);
    lemma_gcd_pos(a, b);
    lemma_gcd_divides(a, b);
    lemma_div_by_divisor(g, a);
    lemma_div_by_divisor(g, b);
    let a2 = a / g;
    let b2 = b / g;
    assert(b2 > 0) by (nonlinear_arith)
        requires
            b2 * g == b,
            b > 0,
            g > 0,
    ;
    let g2 = gcd(a2, b2);
    lemma_gcd_pos(a2, b2);
    lemma_gcd_divides(a2, b2);
    if g2 > 1 {
        let ka = choose|k: nat| a2 == #[trigger] (k * g2);
        let kb = choose|k: nat| b2 == #[trigger] (k * g2);
        // then g2 * g divides a and b, so it divides g: contradiction with g2 > 1.
        assert(a == ka * (g2 * g)) by (nonlinear_arith)
            requires
                a2 == ka * g2,
                a2 * g == a,
        ;
        assert(b == kb * (g2 * g)) by (nonlinear_arith)
            requires
                b2 == kb * g2,
                b2 * g == b,
        ;
        assert(g2 * g > 0) by (nonlinear_arith)
            requires
                g2 > 0,
                g > 0,
        ;
        lemma_divides_gcd(g2 * g, a, b);
        let kg = choose|k: nat| g == #[trigger] (k * (g2 * g));
        assert(false) by (nonlinear_arith)
            requires
                g == kg * (g2 * g),
                g > 0,
                g2 > 1,
        ;
    }
}

/// Euclid's algorithm.
pub fn gcd_u128(a: u128, b: u128) -> (r: u128)
    ensures
        r == gcd(a as nat, b as nat),
    decreases b,
{
    if b == 0 {
        a
    } else {
        proof {
            lemma_mod_decreases(a as nat, b as nat);
        }
        gcd_u128(b, a % b)
    }
}

} // verus!
