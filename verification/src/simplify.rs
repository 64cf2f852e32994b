use vstd::prelude::*;
use crate::eq::{Expression, Ratio, Term};
use crate::order::term_cmp;
use crate::rational::gcd_u128;
use crate::order::{key_lt, lemma_key_lt_antisym};
use crate::rational::{gcd, lemma_gcd_divides, lemma_gcd_pos, lemma_div_by_divisor,
    lemma_coprime_after_div};

verus! {

/// Magnitude of an integer.
pub open spec fn abs1(n: int) -> nat {
    if n >= 0 {
        n as nat
    } else {
        (-n) as nat
    }
}

/// The symmetric range of numerators and denominators that a folded
/// constant may take.
pub open spec fn fits(x: int) -> bool {
    -0x7fff_ffff_ffff_ffff <= x <= 0x7fff_ffff_ffff_ffff
}

/// Operands take part in constant folding only inside this range, so
/// that the exact intermediate products stay far from any machine bound.
pub open spec fn small_val(x: int) -> bool {
    -0x4000_0000_0000_0000 <= x <= 0x4000_0000_0000_0000
}

pub open spec fn is_num(t: Term) -> bool {
    t is Integer || t is Rational
}

/// Numerator of a numeric leaf.
pub open spec fn num_n(t: Term) -> int {
    match t {
        Term::Integer(i) => i,
        Term::Rational(n, _, _) => n,
        _ => 0,
    }
}

/// Denominator of a numeric leaf.
pub open spec fn num_d(t: Term) -> int {
    match t {
        Term::Rational(_, d, _) => d,
        _ => 1,
    }
}

/// A numeric leaf whose parts are inside the folding range.
pub open spec fn small(t: Term) -> bool {
    is_num(t) && small_val(num_n(t)) && 1 <= num_d(t) <= 0x4000_0000_0000_0000
}

/// Reduces the exact fraction `n / d` (`d >= 1`) by the greatest common
/// divisor; the result keeps `n`'s sign and a positive denominator.
pub open spec fn norm_frac(n: int, d: int) -> (int, int) {
    let g = gcd(abs1(n), d as nat);
    let an = abs1(n) / g;
    let dn = (d as nat) / g;
    (
        if n >= 0 {
            an as int
        } else {
            -(an as int)
        },
        dn as int,
    )
}

/// The canonical numeric leaf for the reduced fraction `n / d`:
/// a whole number collapses into `Integer`.
pub open spec fn rat_leaf(n: int, d: int, f: bool) -> Term {
    if d == 1 {
        Term::Integer(n)
    } else {
        Term::Rational(n, d, f)
    }
}

/// Display mode of a folded constant: a fraction-mode operand wins,
/// then a decimal-mode operand, and whole numbers prefer fractions.
pub open spec fn fold_flag(a: Term, b: Term) -> bool {
    if (a matches Term::Rational(_, _, true)) || (b matches Term::Rational(_, _, true)) {
        true
    } else if (a matches Term::Rational(_, _, false)) || (b matches Term::Rational(_, _, false)) {
        false
    } else {
        true
    }
}

/// Folds a sum, difference, product or quotient of two in-range numeric
/// leaves into one reduced leaf, when the reduced parts stay in range.
/// `n` and `d` are the exact unreduced parts, `d >= 1`.
pub open spec fn fold_result(n: int, d: int, f: bool) -> Option<Term> {
    let (n2, d2) = norm_frac(n, d);
    if fits(n2) && fits(d2) {
        Some(rat_leaf(n2, d2, f))
    } else {
        None
    }
}

pub open spec fn try_fold_add(a: Term, b: Term) -> Option<Term> {
    if small(a) && small(b) {
        fold_result(
            num_n(a) * num_d(b) + num_n(b) * num_d(a),
            num_d(a) * num_d(b),
            fold_flag(a, b),
        )
    } else {
        None
    }
}

pub open spec fn try_fold_sub(a: Term, b: Term) -> Option<Term> {
    if small(a) && small(b) {
        fold_result(
            num_n(a) * num_d(b) - num_n(b) * num_d(a),
            num_d(a) * num_d(b),
            fold_flag(a, b),
        )
    } else {
        None
    }
}

pub open spec fn try_fold_mul(a: Term, b: Term) -> Option<Term> {
    if small(a) && small(b) {
        fold_result(num_n(a) * num_n(b), num_d(a) * num_d(b), fold_flag(a, b))
    } else {
        None
    }
}

pub open spec fn try_fold_div(a: Term, b: Term) -> Option<Term> {
    if small(a) && small(b) && num_n(b) != 0 {
        let n0 = num_n(a) * num_d(b);
        let d0 = num_d(a) * num_n(b);
        if d0 < 0 {
            fold_result(-n0, -d0, fold_flag(a, b))
        } else {
            fold_result(n0, d0, fold_flag(a, b))
        }
    } else {
        None
    }
}

/// Reads a term as an integer coefficient times a non-numeric core, for
/// like-term combination. Numeric leaves take no part.
pub open spec fn decomp(t: Term) -> Option<(int, Term)> {
    match t {
        Term::Integer(_) => None,
        Term::Rational(_, _, _) => None,
        Term::Product(c, u) => match *c {
            Term::Integer(ci) => if !is_num(*u) {
                Some((ci, *u))
            } else {
                Some((1, t))
            },
            _ => Some((1, t)),
        },
        Term::Neg(u) => if !is_num(*u) {
            Some((-1, *u))
        } else {
            Some((1, t))
        },
        _ => Some((1, t)),
    }
}

/// `c` times `t`, written without a redundant coefficient.
pub open spec fn with_coeff(c: int, t: Term) -> Term {
    if c == 0 {
        Term::Integer(0)
    } else if c == 1 {
        t
    } else {
        Term::Product(Box::new(Term::Integer(c)), Box::new(t))
    }
}

pub open spec fn try_combine(a: Term, b: Term, sub: bool) -> Option<Term> {
    match (decomp(a), decomp(b)) {
        (Some((c1, t1)), Some((c2, t2))) => {
            let c = if sub {
                c1 - c2
            } else {
                c1 + c2
            };
            if t1 == t2 && fits(c) {
                Some(with_coeff(c, t1))
            } else {
                None
            }
        },
        _ => None,
    }
}

/// One rewriting step at a `Sum` node whose operands are already
/// canonical: constant folding, then `x + 0` elimination, then
/// like-term combination, then canonical ordering.
pub open spec fn simp_sum(a: Term, b: Term) -> Term {
    match try_fold_add(a, b) {
        Some(r) => r,
        None => {
            if a == Term::Integer(0) {
                b
            } else if b == Term::Integer(0) {
                a
            } else {
                match try_combine(a, b, false) {
                    Some(r) => r,
                    None => {
                        if key_lt(b, a) {
                            Term::Sum(Box::new(b), Box::new(a))
                        } else {
                            Term::Sum(Box::new(a), Box::new(b))
                        }
                    },
                }
            }
        },
    }
}

/// One rewriting step at a `Difference` node: folding, `x - 0`,
/// `0 - x` into negation, like-term combination.
pub open spec fn simp_diff(a: Term, b: Term) -> Term {
    match try_fold_sub(a, b) {
        Some(r) => r,
        None => {
            if b == Term::Integer(0) {
                a
            } else if a == Term::Integer(0) && !is_num(b) {
                match b {
                    Term::Neg(u) => *u,
                    _ => Term::Neg(Box::new(b)),
                }
            } else {
                match try_combine(a, b, true) {
                    Some(r) => r,
                    None => Term::Difference(Box::new(a), Box::new(b)),
                }
            }
        },
    }
}

/// One rewriting step at a `Product` node: folding, `x * 0`, `x * 1`,
/// equal factors into a square, canonical ordering.
pub open spec fn simp_mul(a: Term, b: Term) -> Term {
    match try_fold_mul(a, b) {
        Some(r) => r,
        None => {
            if a == Term::Integer(0) || b == Term::Integer(0) {
                Term::Integer(0)
            } else if a == Term::Integer(1) {
                b
            } else if b == Term::Integer(1) {
                a
            } else if a == b && !is_num(a) {
                Term::Power(Box::new(a), Box::new(Term::Integer(2)))
            } else {
                if key_lt(b, a) {
                    Term::Product(Box::new(b), Box::new(a))
                } else {
                    Term::Product(Box::new(a), Box::new(b))
                }
            }
        },
    }
}

/// One rewriting step at a `Quotient` node: folding and `x / 1`.
pub open spec fn simp_div(a: Term, b: Term) -> Term {
    match try_fold_div(a, b) {
        Some(r) => r,
        None => {
            if b == Term::Integer(1) {
                a
            } else {
                Term::Quotient(Box::new(a), Box::new(b))
            }
        },
    }
}

/// One rewriting step at a `Neg` node: negate a constant, cancel a
/// double negation.
pub open spec fn simp_neg(a: Term) -> Term {
    match a {
        Term::Integer(i) => if fits(-i) {
            Term::Integer(-i)
        } else {
            Term::Neg(Box::new(a))
        },
        Term::Rational(n, d, f) => if fits(-n) {
            Term::Rational(-n, d, f)
        } else {
            Term::Neg(Box::new(a))
        },
        Term::Neg(u) => *u,
        _ => Term::Neg(Box::new(a)),
    }
}

/// Canonical form of a `Rational` leaf: positive denominator, lowest
/// terms, whole values collapsed into `Integer`. A leaf whose reduced
/// parts would leave the machine range stays as it is.
pub open spec fn simp_rat(n: int, d: int, f: bool) -> Term {
    if d == 0 {
        Term::Rational(n, d, f)
    } else {
        let n1 = if d < 0 {
            -n
        } else {
            n
        };
        let d1 = if d < 0 {
            -d
        } else {
            d
        };
        let (n2, d2) = norm_frac(n1, d1);
        if fits(n2) && fits(d2) {
            rat_leaf(n2, d2, f)
        } else {
            Term::Rational(n, d, f)
        }
    }
}

/// The canonical reduced form: one bottom-up pass, rewriting each node
/// once its operands are rewritten.
pub open spec fn simp(t: Term) -> Term
    decreases t,
{
    match t {
        Term::Variable(_) => t,
        Term::Integer(_) => t,
        Term::Rational(n, d, f) => simp_rat(n, d, f),
        Term::Sum(a, b) => simp_sum(simp(*a), simp(*b)),
        Term::Difference(a, b) => simp_diff(simp(*a), simp(*b)),
        Term::Product(a, b) => simp_mul(simp(*a), simp(*b)),
        Term::Quotient(a, b) => simp_div(simp(*a), simp(*b)),
        Term::Neg(a) => simp_neg(simp(*a)),
        Term::Sqrt(a, deg) => Term::Sqrt(Box::new(simp(*a)), deg),
        Term::Power(a, b) => Term::Power(Box::new(simp(*a)), Box::new(simp(*b))),
        Term::Equal(a, b) => Term::Equal(Box::new(simp(*a)), Box::new(simp(*b))),
    }
}

/// A term is canonical when its operands are canonical and its own node
/// is left unchanged by the rewriting step.
pub open spec fn canon(t: Term) -> bool
    decreases t,
{
    match t {
        Term::Variable(_) => true,
        Term::Integer(_) => true,
        Term::Rational(n, d, f) => simp_rat(n, d, f) == t,
        Term::Sum(a, b) => canon(*a) && canon(*b) && simp_sum(*a, *b) == t,
        Term::Difference(a, b) => canon(*a) && canon(*b) && simp_diff(*a, *b) == t,
        Term::Product(a, b) => canon(*a) && canon(*b) && simp_mul(*a, *b) == t,
        Term::Quotient(a, b) => canon(*a) && canon(*b) && simp_div(*a, *b) == t,
        Term::Neg(a) => canon(*a) && simp_neg(*a) == t,
        Term::Sqrt(a, _) => canon(*a),
        Term::Power(a, b) => canon(*a) && canon(*b),
        Term::Equal(a, b) => canon(*a) && canon(*b),
    }
}

/// A canonical term is a fixed point of the rewriting pass.
pub proof fn lemma_canon_simp_id(t: Term)
    requires
        canon(t),
    ensures
        simp(t) == t,
    decreases t,
{
    match t {
        Term::Sum(a, b) => {
            lemma_canon_simp_id(*a);
            lemma_canon_simp_id(*b);
        },
        Term::Difference(a, b) => {
            lemma_canon_simp_id(*a);
            lemma_canon_simp_id(*b);
        },
        Term::Product(a, b) => {
            lemma_canon_simp_id(*a);
            lemma_canon_simp_id(*b);
        },
        Term::Quotient(a, b) => {
            lemma_canon_simp_id(*a);
            lemma_canon_simp_id(*b);
        },
        Term::Neg(a) => {
            lemma_canon_simp_id(*a);
        },
        Term::Sqrt(a, _) => {
            lemma_canon_simp_id(*a);
        },
        Term::Power(a, b) => {
            lemma_canon_simp_id(*a);
            lemma_canon_simp_id(*b);
        },
        Term::Equal(a, b) => {
            lemma_canon_simp_id(*a);
            lemma_canon_simp_id(*b);
        },
        _ => {},
    }
}

/// Reducing by the gcd is exact and leaves a coprime pair.
pub proof fn lemma_norm_props(n: int, d: int)
    requires
        d >= 1,
    ensures
        ({
            let (n2, d2) = norm_frac(n, d);
            &&& 1 <= d2 <= d
            &&& abs1(n2) <= abs1(n)
            &&& abs1(n2) == abs1(n) / gcd(abs1(n), d as nat)
            &&& gcd(abs1(n2), d2 as nat) == 1
            &&& (n >= 0 ==> n2 >= 0)
            &&& (n < 0 ==> n2 <= 0)
        }),
{
    let g = gcd(abs1(n), d as nat);
    lemma_gcd_pos(abs1(n), d as nat);
    lemma_gcd_divides(abs1(n), d as nat);
    lemma_div_by_divisor(g, abs1(n));
    lemma_div_by_divisor(g, d as nat);
    let an = abs1(n) / g;
    let dn = (d as nat) / g;
    assert(dn * g == d);
    assert(dn >= 1) by (nonlinear_arith)
        requires
            dn * g == d,
            d >= 1,
            g >= 1,
    ;
    assert(dn <= d) by (nonlinear_arith)
        requires
            dn * g == d,
            g >= 1,
            dn >= 0,
    ;
    assert(an * g == abs1(n));
    assert(an <= abs1(n)) by (nonlinear_arith)
        requires
            an * g == abs1(n),
            g >= 1,
            an >= 0,
    ;
    lemma_coprime_after_div(abs1(n), d as nat);
    let (n2, d2) = norm_frac(n, d);
    assert(abs1(n2) == an);
}

/// The reduced leaf of a coprime in-range fraction is canonical.
proof fn lemma_canon_reduced_leaf(n: int, d: int, f: bool)
    requires
        d >= 1,
        gcd(abs1(n), d as nat) == 1,
        fits(n),
        fits(d),
    ensures
        canon(rat_leaf(n, d, f)),
{
    if d != 1 {
        lemma_norm_props(n, d);
        vstd::arithmetic::div_mod::lemma_div_basics(abs1(n) as int);
        vstd::arithmetic::div_mod::lemma_div_basics(d);
        assert(abs1(n) / 1nat == abs1(n));
        assert((d as nat) / 1nat == d as nat);
        let (n2, d2) = norm_frac(n, d);
        assert(d2 == d);
        assert(abs1(n2) == abs1(n));
        assert(n2 == n);
        assert(simp_rat(n, d, f) == Term::Rational(n, d, f));
    }
}

/// What a successful fold returns is canonical.
proof fn lemma_fold_result_canon(n: int, d: int, f: bool)
    requires
        d >= 1,
    ensures
        fold_result(n, d, f) matches Some(r) ==> canon(r),
{
    if fold_result(n, d, f) is Some {
        lemma_norm_props(n, d);
        let (n2, d2) = norm_frac(n, d);
        lemma_canon_reduced_leaf(n2, d2, f);
    }
}

/// The core handed back by `decomp` on a canonical term is canonical
/// and not numeric.
proof fn lemma_decomp_canon(a: Term)
    requires
        canon(a),
        decomp(a) is Some,
    ensures
        ({
            let (c, t) = decomp(a)->Some_0;
            &&& canon(t)
            &&& !is_num(t)
        }),
{
}

/// The combined like-term node is canonical.
proof fn lemma_combine_canon(a: Term, b: Term, sub: bool)
    requires
        canon(a),
        canon(b),
        try_combine(a, b, sub) matches Some(r),
    ensures
        try_combine(a, b, sub) matches Some(r) ==> canon(r),
{
    let (c1, t1) = decomp(a)->Some_0;
    lemma_decomp_canon(a);
    let c = if sub {
        c1 - decomp(b)->Some_0.0
    } else {
        c1 + decomp(b)->Some_0.0
    };
    if c == 0 {
        assert(canon(Term::Integer(0)));
    } else if c == 1 {
        assert(with_coeff(c, t1) == t1);
        assert(canon(t1));
    } else {
        let r = Term::Product(Box::new(Term::Integer(c)), Box::new(t1));
        assert(try_fold_mul(Term::Integer(c), t1) is None);
        assert(!key_lt(t1, Term::Integer(c)));
        assert(simp_mul(Term::Integer(c), t1) == r);
        assert(canon(Term::Integer(c)));
        assert(canon(t1));
        assert(r matches Term::Product(x, y) && *x == Term::Integer(c) && *y == t1);
        assert(canon(r));
    }
}

pub proof fn lemma_sum_canon(a: Term, b: Term)
    requires
        canon(a),
        canon(b),
    ensures
        canon(simp_sum(a, b)),
{
    match try_fold_add(a, b) {
        Some(r) => {
            assert(num_d(a) * num_d(b) >= 1) by (nonlinear_arith)
                requires
                    num_d(a) >= 1,
                    num_d(b) >= 1,
            ;
            lemma_fold_result_canon(
                num_n(a) * num_d(b) + num_n(b) * num_d(a),
                num_d(a) * num_d(b),
                fold_flag(a, b),
            );
        },
        None => {
            if a == Term::Integer(0) || b == Term::Integer(0) {
            } else {
                match try_combine(a, b, false) {
                    Some(r) => {
                        lemma_combine_canon(a, b, false);
                    },
                    None => {
                        assert(num_n(a) * num_d(b) == num_d(b) * num_n(a)) by (nonlinear_arith);
                        assert(num_n(b) * num_d(a) == num_d(a) * num_n(b)) by (nonlinear_arith);
                        assert(num_d(a) * num_d(b) == num_d(b) * num_d(a)) by (nonlinear_arith);
                        assert(try_fold_add(b, a) is None);
                        assert(try_combine(b, a, false) is None);
                        if key_lt(b, a) {
                            lemma_key_lt_antisym(b, a);
                            let r = Term::Sum(Box::new(b), Box::new(a));
                            assert(simp_sum(b, a) == r);
                            assert(canon(r));
                        } else {
                            let r = Term::Sum(Box::new(a), Box::new(b));
                            assert(simp_sum(a, b) == r);
                            assert(canon(r));
                        }
                    },
                }
            }
        },
    }
}

pub proof fn lemma_diff_canon(a: Term, b: Term)
    requires
        canon(a),
        canon(b),
    ensures
        canon(simp_diff(a, b)),
{
    match try_fold_sub(a, b) {
        Some(r) => {
            assert(num_d(a) * num_d(b) >= 1) by (nonlinear_arith)
                requires
                    num_d(a) >= 1,
                    num_d(b) >= 1,
            ;
            lemma_fold_result_canon(
                num_n(a) * num_d(b) - num_n(b) * num_d(a),
                num_d(a) * num_d(b),
                fold_flag(a, b),
            );
        },
        None => {
            if b == Term::Integer(0) {
            } else if a == Term::Integer(0) && !is_num(b) {
                match b {
                    Term::Neg(u) => {},
                    _ => {
                        assert(simp_neg(b) == Term::Neg(Box::new(b)));
                    },
                }
            } else {
                match try_combine(a, b, true) {
                    Some(r) => {
                        lemma_combine_canon(a, b, true);
                    },
                    None => {},
                }
            }
        },
    }
}

pub proof fn lemma_mul_canon(a: Term, b: Term)
    requires
        canon(a),
        canon(b),
    ensures
        canon(simp_mul(a, b)),
{
    match try_fold_mul(a, b) {
        Some(r) => {
            assert(num_d(a) * num_d(b) >= 1) by (nonlinear_arith)
                requires
                    num_d(a) >= 1,
                    num_d(b) >= 1,
            ;
            lemma_fold_result_canon(num_n(a) * num_n(b), num_d(a) * num_d(b), fold_flag(a, b));
        },
        None => {
            if a == Term::Integer(0) || b == Term::Integer(0) {
            } else if a == Term::Integer(1) || b == Term::Integer(1) {
            } else if a == b && !is_num(a) {
                assert(canon(Term::Integer(2)));
                assert(simp_mul(a, b) == Term::Power(Box::new(a), Box::new(Term::Integer(2))));
                assert(canon(simp_mul(a, b)));
            } else {
                assert(num_n(a) * num_n(b) == num_n(b) * num_n(a)) by (nonlinear_arith);
                assert(num_d(a) * num_d(b) == num_d(b) * num_d(a)) by (nonlinear_arith);
                assert(try_fold_mul(b, a) is None);
                if key_lt(b, a) {
                    lemma_key_lt_antisym(b, a);
                    let r = Term::Product(Box::new(b), Box::new(a));
                    assert(simp_mul(b, a) == r);
                    assert(canon(r));
                } else {
                    let r = Term::Product(Box::new(a), Box::new(b));
                    assert(simp_mul(a, b) == r);
                    assert(canon(r));
                }
            }
        },
    }
}

pub proof fn lemma_div_canon(a: Term, b: Term)
    requires
        canon(a),
        canon(b),
    ensures
        canon(simp_div(a, b)),
{
    match try_fold_div(a, b) {
        Some(r) => {
            let n0 = num_n(a) * num_d(b);
            let d0 = num_d(a) * num_n(b);
            assert(d0 != 0) by (nonlinear_arith)
                requires
                    num_d(a) >= 1,
                    num_n(b) != 0,
                    d0 == num_d(a) * num_n(b),
            ;
            if d0 < 0 {
                lemma_fold_result_canon(-n0, -d0, fold_flag(a, b));
            } else {
                lemma_fold_result_canon(n0, d0, fold_flag(a, b));
            }
        },
        None => {},
    }
}

pub proof fn lemma_neg_canon(a: Term)
    requires
        canon(a),
    ensures
        canon(simp_neg(a)),
{
    match a {
        Term::Rational(n, d, f) => {
            if fits(-n) {
                if d == 0 {
                } else if d < 0 {
                    assert(simp_rat(n, d, f) == a);
                    assert(simp_rat(-n, d, f) == Term::Rational(-n, d, f));
                } else {
                    // canonical with positive denominator: coprime parts
                    lemma_norm_props(n, d);
                    lemma_norm_props(-n, d);
                    assert(simp_rat(-n, d, f) == Term::Rational(-n, d, f));
                }
            }
        },
        _ => {},
    }
}

/// One bottom-up pass leaves every node canonical.
pub proof fn lemma_simp_canon(t: Term)
    ensures
        canon(simp(t)),
    decreases t,
{
    match t {
        Term::Variable(_) => {},
        Term::Integer(_) => {},
        Term::Rational(n, d, f) => {
            if d != 0 {
                let n1 = if d < 0 {
                    -n
                } else {
                    n
                };
                let d1 = if d < 0 {
                    -d
                } else {
                    d
                };
                lemma_norm_props(n1, d1);
                let (n2, d2) = norm_frac(n1, d1);
                if fits(n2) && fits(d2) {
                    lemma_canon_reduced_leaf(n2, d2, f);
                }
            }
        },
        Term::Sum(a, b) => {
            lemma_simp_canon(*a);
            lemma_simp_canon(*b);
            lemma_sum_canon(simp(*a), simp(*b));
        },
        Term::Difference(a, b) => {
            lemma_simp_canon(*a);
            lemma_simp_canon(*b);
            lemma_diff_canon(simp(*a), simp(*b));
        },
        Term::Product(a, b) => {
            lemma_simp_canon(*a);
            lemma_simp_canon(*b);
            lemma_mul_canon(simp(*a), simp(*b));
        },
        Term::Quotient(a, b) => {
            lemma_simp_canon(*a);
            lemma_simp_canon(*b);
            lemma_div_canon(simp(*a), simp(*b));
        },
        Term::Neg(a) => {
            lemma_simp_canon(*a);
            lemma_neg_canon(simp(*a));
        },
        Term::Sqrt(a, _) => {
            lemma_simp_canon(*a);
        },
        Term::Power(a, b) => {
            lemma_simp_canon(*a);
            lemma_simp_canon(*b);
        },
        Term::Equal(a, b) => {
            lemma_simp_canon(*a);
            lemma_simp_canon(*b);
        },
    }
}

/// Simplification is idempotent: a second pass changes nothing.
pub proof fn lemma_simplify_idempotent(t: Term)
    ensures
        simp(simp(t)) == simp(t),
{
    lemma_simp_canon(t);
    lemma_canon_simp_id(simp(t));
}


/// Matches a numeric leaf inside the folding range, handing back its
/// numerator and denominator.
fn as_small(e: &Expression) -> (r: Option<(i64, i64)>)
    ensures
        r is Some <==> small(e@),
        r matches Some((n, d)) ==> n == num_n(e@) && d == num_d(e@),
{
    match e {
        Expression::Integer(i) => {
            if -0x4000_0000_0000_0000 <= *i && *i <= 0x4000_0000_0000_0000 {
                Some((*i, 1))
            } else {
                None
            }
        },
        Expression::Rational(rt, _) => {
            if -0x4000_0000_0000_0000 <= rt.num && rt.num <= 0x4000_0000_0000_0000 && 1 <= rt.den
                && rt.den <= 0x4000_0000_0000_0000 {
                Some((rt.num, rt.den))
            } else {
                None
            }
        },
        _ => None,
    }
}

fn is_num_exec(e: &Expression) -> (r: bool)
    ensures
        r == is_num(e@),
{
    match e {
        Expression::Integer(_) => true,
        Expression::Rational(_, _) => true,
        _ => false,
    }
}

fn is_int(e: &Expression, k: i64) -> (r: bool)
    ensures
        r == (e@ == Term::Integer(k as int)),
{
    match e {
        Expression::Integer(i) => *i == k,
        _ => false,
    }
}

fn fold_flag_exec(a: &Expression, b: &Expression) -> (r: bool)
    ensures
        r == fold_flag(a@, b@),
{
    let a_true = matches!(a, Expression::Rational(_, true));
    let b_true = matches!(b, Expression::Rational(_, true));
    let a_false = matches!(a, Expression::Rational(_, false));
    let b_false = matches!(b, Expression::Rational(_, false));
    if a_true || b_true {
        true
    } else if a_false || b_false {
        false
    } else {
        true
    }
}

/// The canonical leaf for a reduced in-range fraction.
fn make_leaf(n: i64, d: i64, f: bool) -> (r: Expression)
    ensures
        r@ == rat_leaf(n as int, d as int, f),
{
    if d == 1 {
        Expression::Integer(n)
    } else {
        Expression::Rational(Ratio { num: n, den: d }, f)
    }
}

proof fn lemma_prod_range(x: int, y: int)
    requires
        -0x4000_0000_0000_0000 <= x <= 0x4000_0000_0000_0000,
        -0x4000_0000_0000_0000 <= y <= 0x4000_0000_0000_0000,
    ensures
        -0x1000_0000_0000_0000_0000_0000_0000_0000 <= x * y
            <= 0x1000_0000_0000_0000_0000_0000_0000_0000,
{
    assert(-0x1000_0000_0000_0000_0000_0000_0000_0000 <= x * y
        <= 0x1000_0000_0000_0000_0000_0000_0000_0000) by (nonlinear_arith)
        requires
            -0x4000_0000_0000_0000 <= x <= 0x4000_0000_0000_0000,
            -0x4000_0000_0000_0000 <= y <= 0x4000_0000_0000_0000,
    ;
}

/// Reduces the exact fraction `n / d` and hands it back when both
/// reduced parts fit the leaf range.
pub fn reduce_frac(n: i128, d: i128) -> (r: Option<(i64, i64)>)
    requires
        1 <= d <= 0x4000_0000_0000_0000_0000_0000_0000_0000,
        -0x4000_0000_0000_0000_0000_0000_0000_0000 <= n
            <= 0x4000_0000_0000_0000_0000_0000_0000_0000,
    ensures
        ({
            let (n2, d2) = norm_frac(n as int, d as int);
            match r {
                Some((rn, rd)) => fits(n2) && fits(d2) && rn == n2 && rd == d2,
                None => !(fits(n2) && fits(d2)),
            }
        }),
{
    let neg = n < 0;
    let an: u128 = if n < 0 {
        (-n) as u128
    } else {
        n as u128
    };
    assert(an as nat == abs1(n as int));
    proof {
        lemma_gcd_pos(an as nat, d as nat);
    }
    let g = gcd_u128(an, d as u128);
    let n2m = an / g;
    let d2m = (d as u128) / g;
    proof {
        lemma_norm_props(n as int, d as int);
        let (n2, d2) = norm_frac(n as int, d as int);
        assert(abs1(n2) == n2m as nat);
        assert(d2 == d2m as int);
        if neg {
            assert(n2 <= 0);
            assert(n2 == -(n2m as int));
        } else {
            assert(n2 >= 0);
            assert(n2 == n2m as int);
        }
    }
    if n2m <= 0x7fff_ffff_ffff_ffff && d2m <= 0x7fff_ffff_ffff_ffff {
        let rn: i64 = if neg {
            -(n2m as i64)
        } else {
            n2m as i64
        };
        Some((rn, d2m as i64))
    } else {
        None
    }
}

/// The rewriting step at a `Sum` node.
fn node_sum(a: Expression, b: Expression) -> (r: Expression)
    ensures
        r@ == simp_sum(a@, b@),
{
    let sa = as_small(&a);
    let sb = as_small(&b);
    if let (Some((na, da)), Some((nb, db))) = (sa, sb) {
        proof {
            lemma_prod_range(na as int, db as int);
            lemma_prod_range(nb as int, da as int);
            lemma_prod_range(da as int, db as int);
        }
        let n = (na as i128) * (db as i128) + (nb as i128) * (da as i128);
        let d = (da as i128) * (db as i128);
        proof {
            assert(d >= 1) by (nonlinear_arith)
                requires
                    da >= 1,
                    db >= 1,
                    d == da as int * db as int,
            ;
        }
        if let Some((n2, d2)) = reduce_frac(n, d) {
            let f = fold_flag_exec(&a, &b);
            return make_leaf(n2, d2, f);
        }
        assert(try_fold_add(a@, b@) is None);
    }
    if is_int(&a, 0) {
        return b;
    }
    if is_int(&b, 0) {
        return a;
    }
    if let Some(r) = combine_exec(&a, &b, false) {
        return r;
    }
    if term_cmp(&b, &a) == -1 {
        Expression::Sum(Box::new(b), Box::new(a))
    } else {
        Expression::Sum(Box::new(a), Box::new(b))
    }
}

/// The rewriting step at a `Difference` node.
fn node_diff(a: Expression, b: Expression) -> (r: Expression)
    ensures
        r@ == simp_diff(a@, b@),
{
    let sa = as_small(&a);
    let sb = as_small(&b);
    if let (Some((na, da)), Some((nb, db))) = (sa, sb) {
        proof {
            lemma_prod_range(na as int, db as int);
            lemma_prod_range(nb as int, da as int);
            lemma_prod_range(da as int, db as int);
        }
        let n = (na as i128) * (db as i128) - (nb as i128) * (da as i128);
        let d = (da as i128) * (db as i128);
        proof {
            assert(d >= 1) by (nonlinear_arith)
                requires
                    da >= 1,
                    db >= 1,
                    d == da as int * db as int,
            ;
        }
        if let Some((n2, d2)) = reduce_frac(n, d) {
            let f = fold_flag_exec(&a, &b);
            return make_leaf(n2, d2, f);
        }
        assert(try_fold_sub(a@, b@) is None);
    }
    if is_int(&b, 0) {
        return a;
    }
    if is_int(&a, 0) && !is_num_exec(&b) {
        return match b {
            Expression::Neg(u) => *u,
            other => Expression::Neg(Box::new(other)),
        };
    }
    if let Some(r) = combine_exec(&a, &b, true) {
        return r;
    }
    Expression::Difference(Box::new(a), Box::new(b))
}

/// The rewriting step at a `Product` node.
fn node_mul(a: Expression, b: Expression) -> (r: Expression)
    ensures
        r@ == simp_mul(a@, b@),
{
    let sa = as_small(&a);
    let sb = as_small(&b);
    if let (Some((na, da)), Some((nb, db))) = (sa, sb) {
        proof {
            lemma_prod_range(na as int, nb as int);
            lemma_prod_range(da as int, db as int);
        }
        let n = (na as i128) * (nb as i128);
        let d = (da as i128) * (db as i128);
        proof {
            assert(d >= 1) by (nonlinear_arith)
                requires
                    da >= 1,
                    db >= 1,
                    d == da as int * db as int,
            ;
        }
        if let Some((n2, d2)) = reduce_frac(n, d) {
            let f = fold_flag_exec(&a, &b);
            return make_leaf(n2, d2, f);
        }
        assert(try_fold_mul(a@, b@) is None);
    }
    if is_int(&a, 0) || is_int(&b, 0) {
        return Expression::Integer(0);
    }
    if is_int(&a, 1) {
        return b;
    }
    if is_int(&b, 1) {
        return a;
    }
    if a.same_shape(&b) && !is_num_exec(&a) {
        let r = Expression::Power(Box::new(a), Box::new(Expression::Integer(2)));
        proof {
            reveal_with_fuel(crate::eq::term_of, 3);
        }
        assert(r@ matches Term::Power(x, y) && *y == Term::Integer(2));
        assert(simp_mul(a@, b@) matches Term::Power(x, y) && *y == Term::Integer(2));
        return r;
    }
    if term_cmp(&b, &a) == -1 {
        Expression::Product(Box::new(b), Box::new(a))
    } else {
        Expression::Product(Box::new(a), Box::new(b))
    }
}

/// The rewriting step at a `Quotient` node.
fn node_div(a: Expression, b: Expression) -> (r: Expression)
    ensures
        r@ == simp_div(a@, b@),
{
    let sa = as_small(&a);
    let sb = as_small(&b);
    if let (Some((na, da)), Some((nb, db))) = (sa, sb) {
        if nb != 0 {
            proof {
                lemma_prod_range(na as int, db as int);
                lemma_prod_range(da as int, nb as int);
            }
            let n0 = (na as i128) * (db as i128);
            let d0 = (da as i128) * (nb as i128);
            proof {
                assert(d0 != 0) by (nonlinear_arith)
                    requires
                        da >= 1,
                        nb != 0,
                        d0 == da as int * nb as int,
                ;
            }
            let (n1, d1) = if d0 < 0 {
                (-n0, -d0)
            } else {
                (n0, d0)
            };
            if let Some((n2, d2)) = reduce_frac(n1, d1) {
                let f = fold_flag_exec(&a, &b);
                return make_leaf(n2, d2, f);
            }
            assert(try_fold_div(a@, b@) is None);
        }
    }
    if is_int(&b, 1) {
        return a;
    }
    Expression::Quotient(Box::new(a), Box::new(b))
}

/// The rewriting step at a `Neg` node.
fn node_neg(a: Expression) -> (r: Expression)
    ensures
        r@ == simp_neg(a@),
{
    match a {
        Expression::Integer(i) => {
            if i != i64::MIN {
                Expression::Integer(-i)
            } else {
                Expression::Neg(Box::new(Expression::Integer(i)))
            }
        },
        Expression::Rational(rt, f) => {
            if rt.num != i64::MIN {
                Expression::Rational(Ratio { num: -rt.num, den: rt.den }, f)
            } else {
                Expression::Neg(Box::new(Expression::Rational(rt, f)))
            }
        },
        Expression::Neg(u) => *u,
        other => Expression::Neg(Box::new(other)),
    }
}

/// The rewriting step at a `Rational` leaf.
fn node_rat(rt: Ratio, f: bool) -> (r: Expression)
    ensures
        r@ == simp_rat(rt.num as int, rt.den as int, f),
{
    if rt.den == 0 {
        return Expression::Rational(rt, f);
    }
    let n1: i128 = if rt.den < 0 {
        -(rt.num as i128)
    } else {
        rt.num as i128
    };
    let d1: i128 = if rt.den < 0 {
        -(rt.den as i128)
    } else {
        rt.den as i128
    };
    match reduce_frac(n1, d1) {
        Some((n2, d2)) => make_leaf(n2, d2, f),
        None => Expression::Rational(rt, f),
    }
}

fn decomp_exec<'a>(e: &'a Expression) -> (r: Option<(i64, &'a Expression)>)
    ensures
        match r {
            Some((c, t)) => decomp(e@) == Some((c as int, t@)),
            None => decomp(e@) is None,
        },
{
    match e {
        Expression::Integer(_) => None,
        Expression::Rational(_, _) => None,
        Expression::Product(c, u) => {
            match &**c {
                Expression::Integer(ci) => {
                    if !is_num_exec(&**u) {
                        assert((**c)@ == Term::Integer(*ci as int));
                        assert(e@ matches Term::Product(x, y) && *x == Term::Integer(*ci as int)
                            && *y == (**u)@);
                        assert(!is_num((**u)@));
                        assert(decomp(e@) == Some((*ci as int, (**u)@)));
                        Some((*ci, &**u))
                    } else {
                        assert(decomp(e@) == Some((1int, e@)));
                        Some((1, e))
                    }
                },
                _ => {
                    assert(decomp(e@) == Some((1int, e@)));
                    Some((1, e))
                },
            }
        },
        Expression::Neg(u) => {
            if !is_num_exec(&**u) {
                assert(decomp(e@) == Some((-1int, (**u)@)));
                Some((-1, &**u))
            } else {
                assert(decomp(e@) == Some((1int, e@)));
                Some((1, e))
            }
        },
        _ => {
            assert(decomp(e@) == Some((1int, e@)));
            Some((1, e))
        },
    }
}

fn with_coeff_exec(c: i64, t: &Expression) -> (r: Expression)
    ensures
        r@ == with_coeff(c as int, t@),
{
    if c == 0 {
        Expression::Integer(0)
    } else if c == 1 {
        t.duplicate()
    } else {
        let r = Expression::Product(Box::new(Expression::Integer(c)), Box::new(t.duplicate()));
        proof {
            reveal_with_fuel(crate::eq::term_of, 3);
        }
        assert(r@ matches Term::Product(x, y) && *x == Term::Integer(c as int) && *y == t@);
        assert(with_coeff(c as int, t@) matches Term::Product(x, y) && *x == Term::Integer(
            c as int,
        ) && *y == t@);
        r
    }
}

fn combine_exec(a: &Expression, b: &Expression, sub: bool) -> (r: Option<Expression>)
    ensures
        match r {
            Some(x) => try_combine(a@, b@, sub) == Some(x@),
            None => try_combine(a@, b@, sub) is None,
        },
{
    let da = decomp_exec(a);
    let db = decomp_exec(b);
    match (da, db) {
        (Some((c1, t1)), Some((c2, t2))) => {
            let c = if sub {
                (c1 as i128) - (c2 as i128)
            } else {
                (c1 as i128) + (c2 as i128)
            };
            if t1.same_shape(t2) && -0x7fff_ffff_ffff_ffff <= c && c <= 0x7fff_ffff_ffff_ffff {
                Some(with_coeff_exec(c as i64, t1))
            } else {
                None
            }
        },
        _ => None,
    }
}

/// One bottom-up simplification pass over a whole tree.
fn simplify_of(e: &Expression) -> (r: Expression)
    ensures
        r@ == simp(e@),
    decreases e,
{
    match e {
        Expression::Variable(v) => Expression::Variable(v.clone()),
        Expression::Integer(i) => Expression::Integer(*i),
        Expression::Rational(rt, f) => node_rat(*rt, *f),
        Expression::Sum(a, b) => node_sum(simplify_of(a), simplify_of(b)),
        Expression::Difference(a, b) => node_diff(simplify_of(a), simplify_of(b)),
        Expression::Product(a, b) => node_mul(simplify_of(a), simplify_of(b)),
        Expression::Quotient(a, b) => node_div(simplify_of(a), simplify_of(b)),
        Expression::Neg(a) => node_neg(simplify_of(a)),
        Expression::Sqrt(a, deg) => Expression::Sqrt(Box::new(simplify_of(a)), *deg),
        Expression::Power(a, b) => Expression::Power(
            Box::new(simplify_of(a)),
            Box::new(simplify_of(b)),
        ),
        Expression::Equal(a, b) => Expression::Equal(
            Box::new(simplify_of(a)),
            Box::new(simplify_of(b)),
        ),
    }
}

impl Expression {
    /// In-place canonicalization: constant folding, identity
    /// elimination, like-term combination, rational reduction and
    /// canonical ordering, in one bottom-up pass. Idempotent:
    /// `lemma_simplify_idempotent` shows a second pass changes nothing.
    pub fn simplify(&mut self)
        ensures
            final(self)@ == simp(old(self)@),
    {
        let r = simplify_of(self);
        *self = r;
    }
}


} // verus!

