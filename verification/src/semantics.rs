use vstd::prelude::*;
use crate::eq::Term;
use crate::rational::{gcd, lemma_gcd_divides, lemma_gcd_pos, lemma_div_by_divisor};
use crate::simplify::{abs1, decomp, fits, fold_flag, fold_result, is_num, norm_frac, num_d, num_n,
    simp, simp_diff, simp_div, simp_mul, simp_neg, simp_rat, simp_sum, try_combine, try_fold_add,
    try_fold_div, try_fold_mul, try_fold_sub, with_coeff};
use crate::order::key_lt;
use crate::solve::{peel, spec_solve};
use crate::eq::occurrences;

verus! {

/// An exact rational value: `n / d` with `d` never zero.
pub ghost struct Q {
    pub n: int,
    pub d: int,
}

/// Two rational values are the same number when they cross-multiply
/// equally.
pub open spec fn q_eq(a: Q, b: Q) -> bool {
    a.n * b.d == b.n * a.d
}

pub open spec fn q_add(x: Q, y: Q) -> Q {
    Q { n: x.n * y.d + y.n * x.d, d: x.d * y.d }
}

pub open spec fn q_sub(x: Q, y: Q) -> Q {
    Q { n: x.n * y.d - y.n * x.d, d: x.d * y.d }
}

pub open spec fn q_mul(x: Q, y: Q) -> Q {
    Q { n: x.n * y.n, d: x.d * y.d }
}

pub open spec fn q_div(x: Q, y: Q) -> Q {
    Q { n: x.n * y.d, d: x.d * y.n }
}

/// The exact value of a term under an assignment of values to variable
/// names: `None` where the term has no value, that is, at an unbound
/// variable, a zero denominator, a division by zero, a root, an
/// exponent other than the literal two, or a nested equation.
pub open spec fn eval(t: Term, env: Map<Seq<char>, Q>) -> Option<Q>
    decreases t,
{
    match t {
        Term::Variable(v) => if env.contains_key(v) && env[v].d != 0 {
            Some(env[v])
        } else {
            None
        },
        Term::Integer(i) => Some(Q { n: i, d: 1 }),
        Term::Rational(n, d, _) => if d != 0 {
            Some(Q { n: n, d: d })
        } else {
            None
        },
        Term::Sum(a, b) => match (eval(*a, env), eval(*b, env)) {
            (Some(x), Some(y)) => Some(q_add(x, y)),
            _ => None,
        },
        Term::Difference(a, b) => match (eval(*a, env), eval(*b, env)) {
            (Some(x), Some(y)) => Some(q_sub(x, y)),
            _ => None,
        },
        Term::Product(a, b) => match (eval(*a, env), eval(*b, env)) {
            (Some(x), Some(y)) => Some(q_mul(x, y)),
            _ => None,
        },
        Term::Quotient(a, b) => match (eval(*a, env), eval(*b, env)) {
            (Some(x), Some(y)) => if y.n != 0 {
                Some(q_div(x, y))
            } else {
                None
            },
            _ => None,
        },
        Term::Neg(a) => match eval(*a, env) {
            Some(x) => Some(Q { n: -x.n, d: x.d }),
            None => None,
        },
        Term::Sqrt(_, _) => None,
        Term::Power(a, b) => if *b == Term::Integer(2) {
            match eval(*a, env) {
                Some(x) => Some(q_mul(x, x)),
                None => None,
            }
        } else {
            None
        },
        Term::Equal(_, _) => None,
    }
}

/// A defined value always has a nonzero denominator.
proof fn lemma_eval_wf(t: Term, env: Map<Seq<char>, Q>)
    ensures
        eval(t, env) matches Some(v) ==> v.d != 0,
    decreases t,
{
    match t {
        Term::Sum(a, b) => {
            lemma_eval_wf(*a, env);
            lemma_eval_wf(*b, env);
            if eval(t, env) is Some {
                let x = eval(*a, env)->Some_0;
                let y = eval(*b, env)->Some_0;
                lemma_nonzero_mul(x.d, y.d);
            }
        },
        Term::Difference(a, b) => {
            lemma_eval_wf(*a, env);
            lemma_eval_wf(*b, env);
            if eval(t, env) is Some {
                let x = eval(*a, env)->Some_0;
                let y = eval(*b, env)->Some_0;
                lemma_nonzero_mul(x.d, y.d);
            }
        },
        Term::Product(a, b) => {
            lemma_eval_wf(*a, env);
            lemma_eval_wf(*b, env);
            if eval(t, env) is Some {
                let x = eval(*a, env)->Some_0;
                let y = eval(*b, env)->Some_0;
                lemma_nonzero_mul(x.d, y.d);
            }
        },
        Term::Quotient(a, b) => {
            lemma_eval_wf(*a, env);
            lemma_eval_wf(*b, env);
            if eval(t, env) is Some {
                let x = eval(*a, env)->Some_0;
                let y = eval(*b, env)->Some_0;
                lemma_nonzero_mul(x.d, y.n);
            }
        },
        Term::Neg(a) => {
            lemma_eval_wf(*a, env);
        },
        Term::Power(a, b) => {
            lemma_eval_wf(*a, env);
            if eval(t, env) is Some {
                let x = eval(*a, env)->Some_0;
                lemma_nonzero_mul(x.d, x.d);
            }
        },
        _ => {},
    }
}

proof fn lemma_nonzero_mul(a: int, b: int)
    requires
        a != 0,
        b != 0,
    ensures
        a * b != 0,
{
    assert(a * b != 0) by (nonlinear_arith)
        requires
            a != 0,
            b != 0,
    ;
}

/// Exactness of gcd reduction: the reduced pair cross-multiplies back.
proof fn lemma_norm_exact(n: int, d: int)
    requires
        d >= 1,
    ensures
        ({
            let (n2, d2) = norm_frac(n, d);
            let g = gcd(abs1(n), d as nat) as int;
            &&& g >= 1
            &&& n2 * g == n
            &&& d2 * g == d
        }),
{
    let g = gcd(abs1(n), d as nat);
    lemma_gcd_pos(abs1(n), d as nat);
    lemma_gcd_divides(abs1(n), d as nat);
    lemma_div_by_divisor(g, abs1(n));
    lemma_div_by_divisor(g, d as nat);
    let an = abs1(n) / g;
    assert(an * g == abs1(n));
    let (n2, d2) = norm_frac(n, d);
    if n >= 0 {
        assert(n2 * g as int == n);
    } else {
        assert(n2 == -(an as int));
        assert((-(an as int)) * g as int == -(an as int * g as int)) by (nonlinear_arith);
        assert(n2 * g as int == n);
    }
}

/// A successful constant fold keeps the exact value.
proof fn lemma_fold_value(n: int, d: int, f: bool, env: Map<Seq<char>, Q>)
    requires
        d >= 1,
        fold_result(n, d, f) is Some,
    ensures
        ({
            let r = fold_result(n, d, f)->Some_0;
            eval(r, env) matches Some(w) && q_eq(w, Q { n: n, d: d })
        }),
{
    let (n2, d2) = norm_frac(n, d);
    crate::simplify::lemma_norm_props(n, d);
    lemma_norm_exact(n, d);
    let g = gcd(abs1(n), d as nat) as int;
    let r = fold_result(n, d, f)->Some_0;
    assert(n2 * d == n * d2) by (nonlinear_arith)
        requires
            n2 * g == n,
            d2 * g == d,
            g >= 1,
    ;
    if d2 == 1 {
        assert(r == Term::Integer(n2));
        assert(eval(r, env) == Some(Q { n: n2, d: 1 }));
    } else {
        assert(r == Term::Rational(n2, d2, f));
        assert(eval(r, env) == Some(Q { n: n2, d: d2 }));
    }
}

/// Values of the numeric leaves taking part in a fold.
proof fn lemma_small_value(a: Term, env: Map<Seq<char>, Q>)
    requires
        is_num(a),
        num_d(a) >= 1,
    ensures
        eval(a, env) == Some(Q { n: num_n(a), d: num_d(a) }),
{
}

/// What `decomp` reads off a term is its value: the coefficient times
/// the core.
proof fn lemma_decomp_value(a: Term, env: Map<Seq<char>, Q>)
    requires
        decomp(a) is Some,
        eval(a, env) is Some,
    ensures
        ({
            let (c, t) = decomp(a)->Some_0;
            eval(t, env) matches Some(u) && (eval(a, env)->Some_0.n) * u.d == (c * u.n) * (eval(
                a,
                env,
            )->Some_0.d)
        }),
{
    reveal_with_fuel(eval, 3);
    let (c, t) = decomp(a)->Some_0;
    let v = eval(a, env)->Some_0;
    match a {
        Term::Product(cb, u) => {
            if (*cb matches Term::Integer(ci)) && !is_num(*u) {
                let x = eval(*cb, env)->Some_0;
                let y = eval(*u, env)->Some_0;
                assert(x.n == c && x.d == 1);
                assert(v == q_mul(x, y));
                assert(v.n * y.d == (c * y.n) * v.d) by (nonlinear_arith)
                    requires
                        v.n == x.n * y.n,
                        v.d == x.d * y.d,
                        x.d == 1,
                        x.n == c,
                ;
            } else {
                assert(t == a && c == 1);
                assert(v.n * v.d == (1 * v.n) * v.d) by (nonlinear_arith);
            }
        },
        Term::Neg(u) => {
            if !is_num(*u) {
                let y = eval(*u, env)->Some_0;
                assert(v.n == -y.n && v.d == y.d);
                assert(v.n * y.d == ((-1) * y.n) * v.d) by (nonlinear_arith)
                    requires
                        v.n == -y.n,
                        v.d == y.d,
                ;
            } else {
                assert(t == a && c == 1);
                assert(v.n * v.d == (1 * v.n) * v.d) by (nonlinear_arith);
            }
        },
        _ => {
            assert(t == a && c == 1);
            assert(v.n * v.d == (1 * v.n) * v.d) by (nonlinear_arith);
        },
    }
}

/// The combined like-term node keeps the value of the sum or
/// difference.
proof fn lemma_combine_value(a: Term, b: Term, sub: bool, env: Map<Seq<char>, Q>)
    requires
        eval(a, env) is Some,
        eval(b, env) is Some,
        try_combine(a, b, sub) is Some,
    ensures
        ({
            let x = eval(a, env)->Some_0;
            let y = eval(b, env)->Some_0;
            let s = if sub {
                q_sub(x, y)
            } else {
                q_add(x, y)
            };
            eval(try_combine(a, b, sub)->Some_0, env) matches Some(w) && q_eq(w, s)
        }),
{
    reveal_with_fuel(eval, 3);
    let x = eval(a, env)->Some_0;
    let y = eval(b, env)->Some_0;
    let (c1, t1) = decomp(a)->Some_0;
    let (c2, t2) = decomp(b)->Some_0;
    let c = if sub {
        c1 - c2
    } else {
        c1 + c2
    };
    lemma_decomp_value(a, env);
    lemma_decomp_value(b, env);
    lemma_eval_wf(a, env);
    lemma_eval_wf(b, env);
    assert(t2 == t1);
    let u = eval(t1, env)->Some_0;
    lemma_eval_wf(t1, env);
    let s = if sub {
        q_sub(x, y)
    } else {
        q_add(x, y)
    };
    // the shared kernel: the combined numerator over the common core
    assert((x.n * y.d) * u.d == (c1 * u.n) * (x.d * y.d)) by (nonlinear_arith)
        requires
            x.n * u.d == (c1 * u.n) * x.d,
    ;
    assert((y.n * x.d) * u.d == (c2 * u.n) * (x.d * y.d)) by (nonlinear_arith)
        requires
            y.n * u.d == (c2 * u.n) * y.d,
    ;
    if sub {
        assert(s.n * u.d == c * (u.n * (x.d * y.d))) by (nonlinear_arith)
            requires
                (x.n * y.d) * u.d == (c1 * u.n) * (x.d * y.d),
                (y.n * x.d) * u.d == (c2 * u.n) * (x.d * y.d),
                s.n == x.n * y.d - y.n * x.d,
                c == c1 - c2,
        ;
    } else {
        assert(s.n * u.d == c * (u.n * (x.d * y.d))) by (nonlinear_arith)
            requires
                (x.n * y.d) * u.d == (c1 * u.n) * (x.d * y.d),
                (y.n * x.d) * u.d == (c2 * u.n) * (x.d * y.d),
                s.n == x.n * y.d + y.n * x.d,
                c == c1 + c2,
        ;
    }
    assert(s.d == x.d * y.d);
    let r = with_coeff(c, t1);
    if c == 0 {
        assert(r == Term::Integer(0));
        let w = eval(r, env)->Some_0;
        assert(w == Q { n: 0, d: 1 });
        assert(s.n * u.d == 0) by (nonlinear_arith)
            requires
                s.n * u.d == 0 * (u.n * (x.d * y.d)),
        ;
        assert(s.n == 0) by (nonlinear_arith)
            requires
                s.n * u.d == 0,
                u.d != 0,
        ;
        assert(w.n * s.d == s.n * w.d) by (nonlinear_arith)
            requires
                w.n == 0,
                w.d == 1,
                s.n == 0,
        ;
    } else if c == 1 {
        assert(r == t1);
        assert(eval(r, env) == Some(u));
        assert(u.n * s.d == s.n * u.d) by (nonlinear_arith)
            requires
                s.n * u.d == 1 * (u.n * (x.d * y.d)),
                s.d == x.d * y.d,
        ;
    } else {
        assert(r matches Term::Product(p, q) && *p == Term::Integer(c) && *q == t1);
        let w = eval(r, env)->Some_0;
        assert(w == q_mul(Q { n: c, d: 1 }, u));
        assert(w.n * s.d == s.n * w.d) by (nonlinear_arith)
            requires
                w.n == c * u.n,
                w.d == 1 * u.d,
                s.n * u.d == c * (u.n * (x.d * y.d)),
                s.d == x.d * y.d,
        ;
    }
}

/// The rewriting step at a `Sum` node keeps the value.
proof fn lemma_sum_value(a: Term, b: Term, env: Map<Seq<char>, Q>)
    requires
        eval(a, env) is Some,
        eval(b, env) is Some,
    ensures
        ({
            let x = eval(a, env)->Some_0;
            let y = eval(b, env)->Some_0;
            eval(simp_sum(a, b), env) matches Some(w) && q_eq(w, q_add(x, y))
        }),
{
    let x = eval(a, env)->Some_0;
    let y = eval(b, env)->Some_0;
    let goal = q_add(x, y);
    lemma_eval_wf(a, env);
    lemma_eval_wf(b, env);
    match try_fold_add(a, b) {
        Some(r) => {
            let n0 = num_n(a) * num_d(b) + num_n(b) * num_d(a);
            let d0 = num_d(a) * num_d(b);
            assert(d0 >= 1) by (nonlinear_arith)
                requires
                    num_d(a) >= 1,
                    num_d(b) >= 1,
                    d0 == num_d(a) * num_d(b),
            ;
            lemma_fold_value(n0, d0, fold_flag(a, b), env);
            lemma_small_value(a, env);
            lemma_small_value(b, env);
            assert(goal == Q { n: n0, d: d0 });
        },
        None => {
            if a == Term::Integer(0) {
                assert(y.n * goal.d == goal.n * y.d) by (nonlinear_arith)
                    requires
                        x.n == 0,
                        x.d == 1,
                        goal.n == x.n * y.d + y.n * x.d,
                        goal.d == x.d * y.d,
                ;
            } else if b == Term::Integer(0) {
                assert(x.n * goal.d == goal.n * x.d) by (nonlinear_arith)
                    requires
                        y.n == 0,
                        y.d == 1,
                        goal.n == x.n * y.d + y.n * x.d,
                        goal.d == x.d * y.d,
                ;
            } else {
                match try_combine(a, b, false) {
                    Some(r) => {
                        lemma_combine_value(a, b, false, env);
                    },
                    None => {
                        if key_lt(b, a) {
                            let t2 = Term::Sum(Box::new(b), Box::new(a));
                            assert(simp_sum(a, b) == t2);
                            assert(t2 matches Term::Sum(p, q) && *p == b && *q == a);
                            let w = eval(t2, env)->Some_0;
                            assert(w == q_add(y, x));
                            assert(w.n * goal.d == goal.n * w.d) by (nonlinear_arith)
                                requires
                                    w.n == y.n * x.d + x.n * y.d,
                                    w.d == y.d * x.d,
                                    goal.n == x.n * y.d + y.n * x.d,
                                    goal.d == x.d * y.d,
                            ;
                        } else {
                            let t2 = Term::Sum(Box::new(a), Box::new(b));
                            assert(simp_sum(a, b) == t2);
                            assert(t2 matches Term::Sum(p, q) && *p == a && *q == b);
                            let w = eval(t2, env)->Some_0;
                            assert(w == goal);
                            lemma_q_eq_refl(w);
                        }
                    },
                }
            }
        },
    }
}

proof fn lemma_q_eq_refl(a: Q)
    ensures
        q_eq(a, a),
{
}

/// The rewriting step at a `Difference` node keeps the value.
proof fn lemma_diff_value(a: Term, b: Term, env: Map<Seq<char>, Q>)
    requires
        eval(a, env) is Some,
        eval(b, env) is Some,
    ensures
        ({
            let x = eval(a, env)->Some_0;
            let y = eval(b, env)->Some_0;
            eval(simp_diff(a, b), env) matches Some(w) && q_eq(w, q_sub(x, y))
        }),
{
    let x = eval(a, env)->Some_0;
    let y = eval(b, env)->Some_0;
    let goal = q_sub(x, y);
    lemma_eval_wf(a, env);
    lemma_eval_wf(b, env);
    match try_fold_sub(a, b) {
        Some(r) => {
            let n0 = num_n(a) * num_d(b) - num_n(b) * num_d(a);
            let d0 = num_d(a) * num_d(b);
            assert(d0 >= 1) by (nonlinear_arith)
                requires
                    num_d(a) >= 1,
                    num_d(b) >= 1,
                    d0 == num_d(a) * num_d(b),
            ;
            lemma_fold_value(n0, d0, fold_flag(a, b), env);
            lemma_small_value(a, env);
            lemma_small_value(b, env);
            assert(goal == Q { n: n0, d: d0 });
        },
        None => {
            if b == Term::Integer(0) {
                assert(x.n * goal.d == goal.n * x.d) by (nonlinear_arith)
                    requires
                        y.n == 0,
                        y.d == 1,
                        goal.n == x.n * y.d - y.n * x.d,
                        goal.d == x.d * y.d,
                ;
            } else if a == Term::Integer(0) && !is_num(b) {
                match b {
                    Term::Neg(u) => {
                        assert(simp_diff(a, b) == *u);
                        let z = eval(*u, env)->Some_0;
                        assert(y.n == -z.n && y.d == z.d);
                        assert(z.n * goal.d == goal.n * z.d) by (nonlinear_arith)
                            requires
                                x.n == 0,
                                x.d == 1,
                                y.n == -z.n,
                                y.d == z.d,
                                goal.n == x.n * y.d - y.n * x.d,
                                goal.d == x.d * y.d,
                        ;
                    },
                    _ => {
                        let t2 = Term::Neg(Box::new(b));
                        assert(simp_diff(a, b) == t2);
                        assert(t2 matches Term::Neg(p) && *p == b);
                        let w = eval(t2, env)->Some_0;
                        assert(w.n == -y.n && w.d == y.d);
                        assert(w.n * goal.d == goal.n * w.d) by (nonlinear_arith)
                            requires
                                x.n == 0,
                                x.d == 1,
                                w.n == -y.n,
                                w.d == y.d,
                                goal.n == x.n * y.d - y.n * x.d,
                                goal.d == x.d * y.d,
                        ;
                    },
                }
            } else {
                match try_combine(a, b, true) {
                    Some(r) => {
                        lemma_combine_value(a, b, true, env);
                    },
                    None => {
                        let t2 = Term::Difference(Box::new(a), Box::new(b));
                        assert(simp_diff(a, b) == t2);
                        assert(t2 matches Term::Difference(p, q) && *p == a && *q == b);
                        let w = eval(t2, env)->Some_0;
                        assert(w == goal);
                        lemma_q_eq_refl(w);
                    },
                }
            }
        },
    }
}

/// The rewriting step at a `Product` node keeps the value.
proof fn lemma_mul_value(a: Term, b: Term, env: Map<Seq<char>, Q>)
    requires
        eval(a, env) is Some,
        eval(b, env) is Some,
    ensures
        ({
            let x = eval(a, env)->Some_0;
            let y = eval(b, env)->Some_0;
            eval(simp_mul(a, b), env) matches Some(w) && q_eq(w, q_mul(x, y))
        }),
{
    let x = eval(a, env)->Some_0;
    let y = eval(b, env)->Some_0;
    let goal = q_mul(x, y);
    lemma_eval_wf(a, env);
    lemma_eval_wf(b, env);
    match try_fold_mul(a, b) {
        Some(r) => {
            let n0 = num_n(a) * num_n(b);
            let d0 = num_d(a) * num_d(b);
            assert(d0 >= 1) by (nonlinear_arith)
                requires
                    num_d(a) >= 1,
                    num_d(b) >= 1,
                    d0 == num_d(a) * num_d(b),
            ;
            lemma_fold_value(n0, d0, fold_flag(a, b), env);
            lemma_small_value(a, env);
            lemma_small_value(b, env);
            assert(goal == Q { n: n0, d: d0 });
        },
        None => {
            if a == Term::Integer(0) || b == Term::Integer(0) {
                let w = eval(simp_mul(a, b), env)->Some_0;
                assert(w == Q { n: 0, d: 1 });
                assert(w.n * goal.d == goal.n * w.d) by (nonlinear_arith)
                    requires
                        w.n == 0,
                        w.d == 1,
                        goal.n == x.n * y.n,
                        goal.d == x.d * y.d,
                        x.n == 0 || y.n == 0,
                ;
            } else if a == Term::Integer(1) {
                assert(y.n * goal.d == goal.n * y.d) by (nonlinear_arith)
                    requires
                        x.n == 1,
                        x.d == 1,
                        goal.n == x.n * y.n,
                        goal.d == x.d * y.d,
                ;
            } else if b == Term::Integer(1) {
                assert(x.n * goal.d == goal.n * x.d) by (nonlinear_arith)
                    requires
                        y.n == 1,
                        y.d == 1,
                        goal.n == x.n * y.n,
                        goal.d == x.d * y.d,
                ;
            } else if a == b && !is_num(a) {
                let t2 = Term::Power(Box::new(a), Box::new(Term::Integer(2)));
                assert(simp_mul(a, b) == t2);
                assert(t2 matches Term::Power(p, q) && *p == a && *q == Term::Integer(2));
                let w = eval(t2, env)->Some_0;
                assert(w == q_mul(x, x));
                assert(w.n * goal.d == goal.n * w.d) by (nonlinear_arith)
                    requires
                        w.n == x.n * x.n,
                        w.d == x.d * x.d,
                        goal.n == x.n * y.n,
                        goal.d == x.d * y.d,
                        x == y,
                ;
            } else if key_lt(b, a) {
                let t2 = Term::Product(Box::new(b), Box::new(a));
                assert(simp_mul(a, b) == t2);
                assert(t2 matches Term::Product(p, q) && *p == b && *q == a);
                let w = eval(t2, env)->Some_0;
                assert(w == q_mul(y, x));
                assert(w.n * goal.d == goal.n * w.d) by (nonlinear_arith)
                    requires
                        w.n == y.n * x.n,
                        w.d == y.d * x.d,
                        goal.n == x.n * y.n,
                        goal.d == x.d * y.d,
                ;
            } else {
                let t2 = Term::Product(Box::new(a), Box::new(b));
                assert(simp_mul(a, b) == t2);
                assert(t2 matches Term::Product(p, q) && *p == a && *q == b);
                let w = eval(t2, env)->Some_0;
                assert(w == goal);
                lemma_q_eq_refl(w);
            }
        },
    }
}

/// The rewriting step at a `Quotient` node keeps the value.
proof fn lemma_div_value(a: Term, b: Term, env: Map<Seq<char>, Q>)
    requires
        eval(a, env) is Some,
        eval(b, env) is Some,
        eval(b, env)->Some_0.n != 0,
    ensures
        ({
            let x = eval(a, env)->Some_0;
            let y = eval(b, env)->Some_0;
            eval(simp_div(a, b), env) matches Some(w) && q_eq(w, q_div(x, y))
        }),
{
    let x = eval(a, env)->Some_0;
    let y = eval(b, env)->Some_0;
    let goal = q_div(x, y);
    lemma_eval_wf(a, env);
    lemma_eval_wf(b, env);
    match try_fold_div(a, b) {
        Some(r) => {
            let n0 = num_n(a) * num_d(b);
            let d0 = num_d(a) * num_n(b);
            assert(d0 != 0) by (nonlinear_arith)
                requires
                    num_d(a) >= 1,
                    num_n(b) != 0,
                    d0 == num_d(a) * num_n(b),
            ;
            lemma_small_value(a, env);
            lemma_small_value(b, env);
            assert(goal == Q { n: n0, d: d0 });
            if d0 < 0 {
                lemma_fold_value(-n0, -d0, fold_flag(a, b), env);
                let w = eval(simp_div(a, b), env)->Some_0;
                assert(w.n * (-d0) == (-n0) * w.d);
                assert(w.n * goal.d == goal.n * w.d) by (nonlinear_arith)
                    requires
                        w.n * (-d0) == (-n0) * w.d,
                        goal.n == n0,
                        goal.d == d0,
                ;
            } else {
                lemma_fold_value(n0, d0, fold_flag(a, b), env);
            }
        },
        None => {
            if b == Term::Integer(1) {
                assert(x.n * goal.d == goal.n * x.d) by (nonlinear_arith)
                    requires
                        y.n == 1,
                        y.d == 1,
                        goal.n == x.n * y.d,
                        goal.d == x.d * y.n,
                ;
            } else {
                let t2 = Term::Quotient(Box::new(a), Box::new(b));
                assert(simp_div(a, b) == t2);
                assert(t2 matches Term::Quotient(p, q) && *p == a && *q == b);
                let w = eval(t2, env)->Some_0;
                assert(w == goal);
                lemma_q_eq_refl(w);
            }
        },
    }
}

/// The rewriting step at a `Neg` node keeps the value.
proof fn lemma_neg_value(a: Term, env: Map<Seq<char>, Q>)
    requires
        eval(a, env) is Some,
    ensures
        ({
            let x = eval(a, env)->Some_0;
            eval(simp_neg(a), env) matches Some(w) && q_eq(w, Q { n: -x.n, d: x.d })
        }),
{
    let x = eval(a, env)->Some_0;
    let goal = Q { n: -x.n, d: x.d };
    lemma_eval_wf(a, env);
    match a {
        Term::Neg(u) => {
            assert(simp_neg(a) == *u);
            let z = eval(*u, env)->Some_0;
            assert(x.n == -z.n && x.d == z.d);
            assert(z.n * goal.d == goal.n * z.d) by (nonlinear_arith)
                requires
                    x.n == -z.n,
                    x.d == z.d,
                    goal.n == -x.n,
                    goal.d == x.d,
            ;
        },
        Term::Integer(i) => {
            if fits(-i) {
                lemma_q_eq_refl(goal);
            } else {
                let t2 = Term::Neg(Box::new(a));
                assert(simp_neg(a) == t2);
                assert(t2 matches Term::Neg(p) && *p == a);
                lemma_q_eq_refl(goal);
            }
        },
        Term::Rational(n, d, f) => {
            if fits(-n) {
                lemma_q_eq_refl(goal);
            } else {
                let t2 = Term::Neg(Box::new(a));
                assert(simp_neg(a) == t2);
                assert(t2 matches Term::Neg(p) && *p == a);
                lemma_q_eq_refl(goal);
            }
        },
        _ => {
            let t2 = Term::Neg(Box::new(a));
            assert(simp_neg(a) == t2);
            assert(t2 matches Term::Neg(p) && *p == a);
            lemma_q_eq_refl(goal);
        },
    }
}

/// A normalized `Rational` leaf keeps the value.
proof fn lemma_rat_value(n: int, d: int, f: bool, env: Map<Seq<char>, Q>)
    requires
        d != 0,
    ensures
        eval(simp_rat(n, d, f), env) matches Some(w) && q_eq(w, Q { n: n, d: d }),
{
    let n1 = if d < 0 {
        -n
    } else {
        n
    };
    let d1 = if d < 0 {
        -d
    } else {
        d
    };
    let (n2, d2) = norm_frac(n1, d1);
    crate::simplify::lemma_norm_props(n1, d1);
    if fits(n2) && fits(d2) {
        lemma_fold_value(n1, d1, f, env);
        assert(fold_result(n1, d1, f)->Some_0 == simp_rat(n, d, f));
        let w = eval(simp_rat(n, d, f), env)->Some_0;
        assert(w.n * d1 == n1 * w.d);
        assert(w.n * d == n * w.d) by (nonlinear_arith)
            requires
                w.n * d1 == n1 * w.d,
                d < 0 ==> n1 == -n && d1 == -d,
                d >= 0 ==> n1 == n && d1 == d,
        ;
    } else {
        assert(simp_rat(n, d, f) == Term::Rational(n, d, f));
        let w = eval(simp_rat(n, d, f), env)->Some_0;
        assert(w == Q { n: n, d: d });
        lemma_q_eq_refl(w);
    }
}

/// Simplification never changes the mathematical value: wherever a term
/// has a value under an assignment of rational values to its variables,
/// the simplified term has the same value.
#[verifier::rlimit(100)]
pub proof fn lemma_simplify_preserves_value(t: Term, env: Map<Seq<char>, Q>)
    ensures
        eval(t, env) matches Some(v) ==> eval(simp(t), env) matches Some(w) && q_eq(v, w),
    decreases t,
{
    lemma_eval_wf(t, env);
    if eval(t, env) is Some {
        let v = eval(t, env)->Some_0;
        match t {
            Term::Variable(_) => {},
            Term::Integer(_) => {},
            Term::Rational(n, d, f) => {
                lemma_rat_value(n, d, f, env);
                let w = eval(simp_rat(n, d, f), env)->Some_0;
                assert(q_eq(v, w)) by (nonlinear_arith)
                    requires
                        w.n * v.d == v.n * w.d,
                ;
            },
            Term::Sum(a, b) => {
                lemma_simplify_preserves_value(*a, env);
                lemma_simplify_preserves_value(*b, env);
                lemma_eval_wf(*a, env);
                lemma_eval_wf(*b, env);
                lemma_eval_wf(simp(*a), env);
                lemma_eval_wf(simp(*b), env);
                let x = eval(*a, env)->Some_0;
                let y = eval(*b, env)->Some_0;
                let sx = eval(simp(*a), env)->Some_0;
                let sy = eval(simp(*b), env)->Some_0;
                lemma_sum_value(simp(*a), simp(*b), env);
                lemma_eval_wf(simp(t), env);
                assert(simp(t) == simp_sum(simp(*a), simp(*b)));
                let w = eval(simp(t), env)->Some_0;
                lemma_lift_add(x, y, sx, sy, w, false);
            },
            Term::Difference(a, b) => {
                lemma_simplify_preserves_value(*a, env);
                lemma_simplify_preserves_value(*b, env);
                lemma_eval_wf(*a, env);
                lemma_eval_wf(*b, env);
                lemma_eval_wf(simp(*a), env);
                lemma_eval_wf(simp(*b), env);
                let x = eval(*a, env)->Some_0;
                let y = eval(*b, env)->Some_0;
                let sx = eval(simp(*a), env)->Some_0;
                let sy = eval(simp(*b), env)->Some_0;
                lemma_diff_value(simp(*a), simp(*b), env);
                lemma_eval_wf(simp(t), env);
                assert(simp(t) == simp_diff(simp(*a), simp(*b)));
                let w = eval(simp(t), env)->Some_0;
                lemma_lift_add(x, y, sx, sy, w, true);
            },
            Term::Product(a, b) => {
                lemma_simplify_preserves_value(*a, env);
                lemma_simplify_preserves_value(*b, env);
                lemma_eval_wf(*a, env);
                lemma_eval_wf(*b, env);
                lemma_eval_wf(simp(*a), env);
                lemma_eval_wf(simp(*b), env);
                let x = eval(*a, env)->Some_0;
                let y = eval(*b, env)->Some_0;
                let sx = eval(simp(*a), env)->Some_0;
                let sy = eval(simp(*b), env)->Some_0;
                lemma_mul_value(simp(*a), simp(*b), env);
                lemma_eval_wf(simp(t), env);
                assert(simp(t) == simp_mul(simp(*a), simp(*b)));
                let w = eval(simp(t), env)->Some_0;
                lemma_lift_mul(x, y, sx, sy, w);
            },
            Term::Quotient(a, b) => {
                lemma_simplify_preserves_value(*a, env);
                lemma_simplify_preserves_value(*b, env);
                lemma_eval_wf(*a, env);
                lemma_eval_wf(*b, env);
                lemma_eval_wf(simp(*a), env);
                lemma_eval_wf(simp(*b), env);
                let x = eval(*a, env)->Some_0;
                let y = eval(*b, env)->Some_0;
                let sx = eval(simp(*a), env)->Some_0;
                let sy = eval(simp(*b), env)->Some_0;
                assert(y.n != 0);
                assert(sy.n != 0) by (nonlinear_arith)
                    requires
                        y.n * sy.d == sy.n * y.d,
                        y.n != 0,
                        sy.d != 0,
                        y.d != 0,
                ;
                lemma_div_value(simp(*a), simp(*b), env);
                lemma_eval_wf(simp(t), env);
                assert(simp(t) == simp_div(simp(*a), simp(*b)));
                let w = eval(simp(t), env)->Some_0;
                lemma_lift_div(x, y, sx, sy, w);
            },
            Term::Neg(a) => {
                lemma_simplify_preserves_value(*a, env);
                lemma_eval_wf(*a, env);
                lemma_eval_wf(simp(*a), env);
                let x = eval(*a, env)->Some_0;
                let sx = eval(simp(*a), env)->Some_0;
                lemma_neg_value(simp(*a), env);
                assert(simp(t) == simp_neg(simp(*a)));
                let w = eval(simp(t), env)->Some_0;
                assert(v.n == -x.n && v.d == x.d);
                assert(v.n * w.d == w.n * v.d) by (nonlinear_arith)
                    requires
                        v.n == -x.n,
                        v.d == x.d,
                        x.n * sx.d == sx.n * x.d,
                        w.n * sx.d == (-sx.n) * w.d,
                        sx.d != 0,
                ;
            },
            Term::Sqrt(_, _) => {},
            Term::Power(a, b) => {
                lemma_simplify_preserves_value(*a, env);
                lemma_eval_wf(*a, env);
                lemma_eval_wf(simp(*a), env);
                assert(*b == Term::Integer(2));
                assert(simp(*b) == Term::Integer(2));
                let x = eval(*a, env)->Some_0;
                let sx = eval(simp(*a), env)->Some_0;
                assert(simp(t) == Term::Power(Box::new(simp(*a)), Box::new(Term::Integer(2))));
                assert(simp(t) matches Term::Power(p, q) && *p == simp(*a) && *q == Term::Integer(
                    2,
                ));
                let w = eval(simp(t), env)->Some_0;
                assert(w == q_mul(sx, sx));
                assert(v == q_mul(x, x));
                assert(v.n * w.d == w.n * v.d) by (nonlinear_arith)
                    requires
                        v.n == x.n * x.n,
                        v.d == x.d * x.d,
                        w.n == sx.n * sx.n,
                        w.d == sx.d * sx.d,
                        x.n * sx.d == sx.n * x.d,
                ;
            },
            Term::Equal(_, _) => {},
        }
    }
}

/// Lifts operand equivalences through a sum or difference.
proof fn lemma_lift_add(x: Q, y: Q, sx: Q, sy: Q, w: Q, sub: bool)
    requires
        x.d != 0,
        y.d != 0,
        sx.d != 0,
        sy.d != 0,
        w.d != 0,
        q_eq(x, sx),
        q_eq(y, sy),
        if sub {
            q_eq(w, q_sub(sx, sy))
        } else {
            q_eq(w, q_add(sx, sy))
        },
    ensures
        q_eq(if sub {
            q_sub(x, y)
        } else {
            q_add(x, y)
        }, w),
{
    let v = if sub {
        q_sub(x, y)
    } else {
        q_add(x, y)
    };
    let p = if sub {
        q_sub(sx, sy)
    } else {
        q_add(sx, sy)
    };
    // the unsimplified and simplified combinations cross-multiply
    assert((x.n * y.d) * (sx.d * sy.d) == (sx.n * sy.d) * (x.d * y.d)) by (nonlinear_arith)
        requires
            x.n * sx.d == sx.n * x.d,
    ;
    assert((y.n * x.d) * (sx.d * sy.d) == (sy.n * sx.d) * (x.d * y.d)) by (nonlinear_arith)
        requires
            y.n * sy.d == sy.n * y.d,
    ;
    if sub {
        assert(v.n * p.d == p.n * v.d) by (nonlinear_arith)
            requires
                (x.n * y.d) * (sx.d * sy.d) == (sx.n * sy.d) * (x.d * y.d),
                (y.n * x.d) * (sx.d * sy.d) == (sy.n * sx.d) * (x.d * y.d),
                v.n == x.n * y.d - y.n * x.d,
                v.d == x.d * y.d,
                p.n == sx.n * sy.d - sy.n * sx.d,
                p.d == sx.d * sy.d,
        ;
    } else {
        assert(v.n * p.d == p.n * v.d) by (nonlinear_arith)
            requires
                (x.n * y.d) * (sx.d * sy.d) == (sx.n * sy.d) * (x.d * y.d),
                (y.n * x.d) * (sx.d * sy.d) == (sy.n * sx.d) * (x.d * y.d),
                v.n == x.n * y.d + y.n * x.d,
                v.d == x.d * y.d,
                p.n == sx.n * sy.d + sy.n * sx.d,
                p.d == sx.d * sy.d,
        ;
    }
    assert(p.d != 0) by (nonlinear_arith)
        requires
            sx.d != 0,
            sy.d != 0,
            p.d == sx.d * sy.d,
    ;
    // then transfer across w ~ p
    assert(v.n * w.d == w.n * v.d) by (nonlinear_arith)
        requires
            v.n * p.d == p.n * v.d,
            w.n * p.d == p.n * w.d,
            p.d != 0,
    ;
}

/// Lifts operand equivalences through a product.
proof fn lemma_lift_mul(x: Q, y: Q, sx: Q, sy: Q, w: Q)
    requires
        x.d != 0,
        y.d != 0,
        sx.d != 0,
        sy.d != 0,
        w.d != 0,
        q_eq(x, sx),
        q_eq(y, sy),
        q_eq(w, q_mul(sx, sy)),
    ensures
        q_eq(q_mul(x, y), w),
{
    let v = q_mul(x, y);
    let p = q_mul(sx, sy);
    assert((x.n * y.n) * (sx.d * sy.d) == (sx.n * y.n) * (x.d * sy.d)) by (nonlinear_arith)
        requires
            x.n * sx.d == sx.n * x.d,
    ;
    assert((sx.n * y.n) * (x.d * sy.d) == (sx.n * sy.n) * (x.d * y.d)) by (nonlinear_arith)
        requires
            y.n * sy.d == sy.n * y.d,
    ;
    assert(v.n * p.d == p.n * v.d) by (nonlinear_arith)
        requires
            (x.n * y.n) * (sx.d * sy.d) == (sx.n * y.n) * (x.d * sy.d),
            (sx.n * y.n) * (x.d * sy.d) == (sx.n * sy.n) * (x.d * y.d),
            v.n == x.n * y.n,
            v.d == x.d * y.d,
            p.n == sx.n * sy.n,
            p.d == sx.d * sy.d,
    ;
    assert(p.d != 0) by (nonlinear_arith)
        requires
            sx.d != 0,
            sy.d != 0,
            p.d == sx.d * sy.d,
    ;
    assert(v.n * w.d == w.n * v.d) by (nonlinear_arith)
        requires
            v.n * p.d == p.n * v.d,
            w.n * p.d == p.n * w.d,
            p.d != 0,
    ;
}

/// Lifts operand equivalences through a quotient.
proof fn lemma_lift_div(x: Q, y: Q, sx: Q, sy: Q, w: Q)
    requires
        x.d != 0,
        y.d != 0,
        y.n != 0,
        sx.d != 0,
        sy.d != 0,
        sy.n != 0,
        w.d != 0,
        q_eq(x, sx),
        q_eq(y, sy),
        q_eq(w, q_div(sx, sy)),
    ensures
        q_eq(q_div(x, y), w),
{
    let v = q_div(x, y);
    let p = q_div(sx, sy);
    assert((x.n * y.d) * (sx.d * sy.n) == (sx.n * y.d) * (x.d * sy.n)) by (nonlinear_arith)
        requires
            x.n * sx.d == sx.n * x.d,
    ;
    assert((sx.n * y.d) * (x.d * sy.n) == (sx.n * sy.d) * (x.d * y.n)) by (nonlinear_arith)
        requires
            y.n * sy.d == sy.n * y.d,
    ;
    assert(v.n * p.d == p.n * v.d) by (nonlinear_arith)
        requires
            (x.n * y.d) * (sx.d * sy.n) == (sx.n * y.d) * (x.d * sy.n),
            (sx.n * y.d) * (x.d * sy.n) == (sx.n * sy.d) * (x.d * y.n),
            v.n == x.n * y.d,
            v.d == x.d * y.n,
            p.n == sx.n * sy.d,
            p.d == sx.d * sy.n,
    ;
    assert(p.d != 0) by (nonlinear_arith)
        requires
            sx.d != 0,
            sy.n != 0,
            p.d == sx.d * sy.n,
    ;
    assert(v.n * w.d == w.n * v.d) by (nonlinear_arith)
        requires
            v.n * p.d == p.n * v.d,
            w.n * p.d == p.n * w.d,
            p.d != 0,
    ;
}


/// Equal values stay equal across a third, as long as the middle one
/// is a genuine fraction.
proof fn lemma_q_eq_trans(a: Q, b: Q, c: Q)
    requires
        q_eq(a, b),
        q_eq(b, c),
        b.d != 0,
    ensures
        q_eq(a, c),
{
    assert(a.n * c.d == c.n * a.d) by (nonlinear_arith)
        requires
            a.n * b.d == b.n * a.d,
            b.n * c.d == c.n * b.d,
            b.d != 0,
    ;
}

proof fn lemma_q_eq_sym(a: Q, b: Q)
    requires
        q_eq(a, b),
    ensures
        q_eq(b, a),
{
}

/// Soundness of one peeling pass: wherever the current side and the
/// fully rearranged side both have values, the equation between the
/// current side and the accumulated other side holds exactly when the
/// target variable's value is the rearranged side's value.
proof fn lemma_peel_sound(cur: Term, other: Term, name: Seq<char>, env: Map<Seq<char>, Q>)
    requires
        peel(cur, other, name) is Some,
        eval(cur, env) is Some,
        eval(peel(cur, other, name)->Some_0, env) is Some,
    ensures
        eval(other, env) is Some,
        eval(Term::Variable(name), env) is Some,
        q_eq(eval(cur, env)->Some_0, eval(other, env)->Some_0) <==> q_eq(
            eval(Term::Variable(name), env)->Some_0,
            eval(peel(cur, other, name)->Some_0, env)->Some_0,
        ),
    decreases cur,
{
    reveal_with_fuel(eval, 3);
    lemma_eval_wf(cur, env);
    lemma_eval_wf(other, env);
    if cur == Term::Variable(name) {
        assert(peel(cur, other, name) == Some(other));
    } else {
        match cur {
            Term::Sum(a, b) => {
                let x = eval(*a, env)->Some_0;
                let y = eval(*b, env)->Some_0;
                let c = eval(other, env)->Some_0;
                if occurrences(*a, name) >= 1 {
                    let o2 = Term::Difference(Box::new(other), Box::new(*b));
                    assert(o2 matches Term::Difference(p, q) && *p == other && *q == *b);
                    lemma_peel_sound(*a, o2, name, env);
                    let c2 = eval(o2, env)->Some_0;
                    assert(c2 == q_sub(c, y));
                    let p1 = x.n * (y.d * c.d);
                    let p2 = y.n * (x.d * c.d);
                    let p3 = c.n * (x.d * y.d);
                    assert((x.n * y.d + y.n * x.d) * c.d == p1 + p2) by (nonlinear_arith)
                        requires
                            p1 == x.n * (y.d * c.d),
                            p2 == y.n * (x.d * c.d),
                    ;
                    assert(x.n * (c.d * y.d) == p1) by (nonlinear_arith)
                        requires
                            p1 == x.n * (y.d * c.d),
                    ;
                    assert((c.n * y.d - y.n * c.d) * x.d == p3 - p2) by (nonlinear_arith)
                        requires
                            p2 == y.n * (x.d * c.d),
                            p3 == c.n * (x.d * y.d),
                    ;
                } else {
                    let o2 = Term::Difference(Box::new(other), Box::new(*a));
                    assert(o2 matches Term::Difference(p, q) && *p == other && *q == *a);
                    lemma_peel_sound(*b, o2, name, env);
                    let c2 = eval(o2, env)->Some_0;
                    assert(c2 == q_sub(c, x));
                    let p1 = x.n * (y.d * c.d);
                    let p2 = y.n * (x.d * c.d);
                    let p3 = c.n * (x.d * y.d);
                    assert((x.n * y.d + y.n * x.d) * c.d == p1 + p2) by (nonlinear_arith)
                        requires
                            p1 == x.n * (y.d * c.d),
                            p2 == y.n * (x.d * c.d),
                    ;
                    assert(y.n * (c.d * x.d) == p2) by (nonlinear_arith)
                        requires
                            p2 == y.n * (x.d * c.d),
                    ;
                    assert((c.n * x.d - x.n * c.d) * y.d == p3 - p1) by (nonlinear_arith)
                        requires
                            p1 == x.n * (y.d * c.d),
                            p3 == c.n * (x.d * y.d),
                    ;
                }
            },
            Term::Difference(a, b) => {
                let x = eval(*a, env)->Some_0;
                let y = eval(*b, env)->Some_0;
                let c = eval(other, env)->Some_0;
                if occurrences(*a, name) >= 1 {
                    let o2 = Term::Sum(Box::new(other), Box::new(*b));
                    assert(o2 matches Term::Sum(p, q) && *p == other && *q == *b);
                    lemma_peel_sound(*a, o2, name, env);
                    let c2 = eval(o2, env)->Some_0;
                    assert(c2 == q_add(c, y));
                    let p1 = x.n * (y.d * c.d);
                    let p2 = y.n * (x.d * c.d);
                    let p3 = c.n * (x.d * y.d);
                    assert((x.n * y.d - y.n * x.d) * c.d == p1 - p2) by (nonlinear_arith)
                        requires
                            p1 == x.n * (y.d * c.d),
                            p2 == y.n * (x.d * c.d),
                    ;
                    assert(x.n * (c.d * y.d) == p1) by (nonlinear_arith)
                        requires
                            p1 == x.n * (y.d * c.d),
                    ;
                    assert((c.n * y.d + y.n * c.d) * x.d == p3 + p2) by (nonlinear_arith)
                        requires
                            p2 == y.n * (x.d * c.d),
                            p3 == c.n * (x.d * y.d),
                    ;
                } else {
                    let o2 = Term::Difference(Box::new(*a), Box::new(other));
                    assert(o2 matches Term::Difference(p, q) && *p == *a && *q == other);
                    lemma_peel_sound(*b, o2, name, env);
                    let c2 = eval(o2, env)->Some_0;
                    assert(c2 == q_sub(x, c));
                    let p1 = x.n * (y.d * c.d);
                    let p2 = y.n * (x.d * c.d);
                    let p3 = c.n * (x.d * y.d);
                    assert((x.n * y.d - y.n * x.d) * c.d == p1 - p2) by (nonlinear_arith)
                        requires
                            p1 == x.n * (y.d * c.d),
                            p2 == y.n * (x.d * c.d),
                    ;
                    assert((x.n * c.d - c.n * x.d) * y.d == p1 - p3) by (nonlinear_arith)
                        requires
                            p1 == x.n * (y.d * c.d),
                            p3 == c.n * (x.d * y.d),
                    ;
                }
            },
            Term::Product(a, b) => {
                let x = eval(*a, env)->Some_0;
                let y = eval(*b, env)->Some_0;
                let c = eval(other, env)->Some_0;
                if occurrences(*a, name) >= 1 {
                    let o2 = Term::Quotient(Box::new(other), Box::new(*b));
                    assert(o2 matches Term::Quotient(p, q) && *p == other && *q == *b);
                    lemma_peel_sound(*a, o2, name, env);
                    let c2 = eval(o2, env)->Some_0;
                    assert(y.n != 0 && c2 == q_div(c, y));
                    assert(((x.n * y.n) * c.d == c.n * (x.d * y.d)) == (x.n * (c.d * y.n) == (c.n
                        * y.d) * x.d)) by (nonlinear_arith);
                } else {
                    let o2 = Term::Quotient(Box::new(other), Box::new(*a));
                    assert(o2 matches Term::Quotient(p, q) && *p == other && *q == *a);
                    lemma_peel_sound(*b, o2, name, env);
                    let c2 = eval(o2, env)->Some_0;
                    assert(x.n != 0 && c2 == q_div(c, x));
                    assert(((x.n * y.n) * c.d == c.n * (x.d * y.d)) == (y.n * (c.d * x.n) == (c.n
                        * x.d) * y.d)) by (nonlinear_arith);
                }
            },
            Term::Quotient(a, b) => {
                let x = eval(*a, env)->Some_0;
                let y = eval(*b, env)->Some_0;
                let c = eval(other, env)->Some_0;
                if occurrences(*a, name) >= 1 {
                    let o2 = Term::Product(Box::new(other), Box::new(*b));
                    assert(o2 matches Term::Product(p, q) && *p == other && *q == *b);
                    lemma_peel_sound(*a, o2, name, env);
                    let c2 = eval(o2, env)->Some_0;
                    assert(c2 == q_mul(c, y));
                    assert(((x.n * y.d) * c.d == c.n * (x.d * y.n)) == (x.n * (c.d * y.d) == (c.n
                        * y.n) * x.d)) by (nonlinear_arith);
                } else {
                    let o2 = Term::Quotient(Box::new(*a), Box::new(other));
                    assert(o2 matches Term::Quotient(p, q) && *p == *a && *q == other);
                    lemma_peel_sound(*b, o2, name, env);
                    let c2 = eval(o2, env)->Some_0;
                    assert(c.n != 0 && c2 == q_div(x, c));
                    assert(((x.n * y.d) * c.d == c.n * (x.d * y.n)) == (y.n * (x.d * c.n) == (x.n
                        * c.d) * y.d)) by (nonlinear_arith);
                }
            },
            Term::Neg(a) => {
                let x = eval(*a, env)->Some_0;
                let c = eval(other, env)->Some_0;
                let o2 = Term::Neg(Box::new(other));
                assert(o2 matches Term::Neg(p) && *p == other);
                lemma_peel_sound(*a, o2, name, env);
                let c2 = eval(o2, env)->Some_0;
                assert(c2 == Q { n: -c.n, d: c.d });
                assert(((-x.n) * c.d == c.n * x.d) == (x.n * c.d == (-c.n) * x.d))
                    by (nonlinear_arith);
            },
            Term::Sqrt(a, deg) => {
                // a root has no value, so this path is outside the
                // stated domain
                assert(eval(cur, env) is None);
            },
            Term::Power(a, b) => {
                if occurrences(*b, name) >= 1 {
                    assert(peel(cur, other, name) is None);
                } else if *b == Term::Integer(2) {
                    // the rearranged side wraps a root, which has no
                    // value: outside the stated domain
                    let o2 = Term::Sqrt(Box::new(other), 2);
                    lemma_peel_sound(*a, o2, name, env);
                    assert(eval(o2, env) is None);
                } else {
                    assert(eval(cur, env) is None);
                }
            },
            _ => {
                assert(peel(cur, other, name) is None);
            },
        }
    }
}

/// Solver soundness, the semantic reading of substitution: wherever
/// both sides of the equation and the rearranged side all have values
/// under an assignment, the assignment satisfies the original equation
/// exactly when the target variable's value is the rearranged side's
/// value — substituting the solved side for the variable makes the
/// equation a tautology. An assignment under which a division on the
/// peeled path has a zero divisor, or under which the path runs through
/// a root, leaves the rearranged side valueless and is outside this
/// statement.
pub proof fn lemma_make_subject_sound(lhs: Term, rhs: Term, name: Seq<char>, env: Map<
    Seq<char>,
    Q,
>)
    requires
        spec_solve(lhs, rhs, name) is Ok,
        eval(lhs, env) is Some,
        eval(rhs, env) is Some,
        ({
            let (cur, other) = if occurrences(lhs, name) == 1 {
                (lhs, rhs)
            } else {
                (rhs, lhs)
            };
            eval(peel(cur, other, name)->Some_0, env) is Some
        }),
    ensures
        ({
            let (cur, other) = if occurrences(lhs, name) == 1 {
                (lhs, rhs)
            } else {
                (rhs, lhs)
            };
            let s = simp(peel(cur, other, name)->Some_0);
            &&& spec_solve(lhs, rhs, name) == Ok::<Term, crate::solve::SolveError>(
                Term::Equal(Box::new(Term::Variable(name)), Box::new(s)),
            )
            &&& eval(s, env) is Some
            &&& eval(Term::Variable(name), env) is Some
            &&& (q_eq(eval(lhs, env)->Some_0, eval(rhs, env)->Some_0) <==> q_eq(
                eval(Term::Variable(name), env)->Some_0,
                eval(s, env)->Some_0,
            ))
        }),
{
    let (cur, other) = if occurrences(lhs, name) == 1 {
        (lhs, rhs)
    } else {
        (rhs, lhs)
    };
    let o = peel(cur, other, name)->Some_0;
    let s = simp(o);
    lemma_peel_sound(cur, other, name, env);
    lemma_simplify_preserves_value(o, env);
    lemma_eval_wf(o, env);
    lemma_eval_wf(s, env);
    lemma_eval_wf(cur, env);
    lemma_eval_wf(other, env);
    let v = eval(Term::Variable(name), env)->Some_0;
    let ov = eval(o, env)->Some_0;
    let sv = eval(s, env)->Some_0;
    assert(q_eq(ov, sv));
    if q_eq(v, ov) {
        lemma_q_eq_trans(v, ov, sv);
    }
    if q_eq(v, sv) {
        lemma_q_eq_sym(ov, sv);
        lemma_q_eq_trans(v, sv, ov);
    }
    if cur == rhs && lhs != rhs {
        if q_eq(eval(lhs, env)->Some_0, eval(rhs, env)->Some_0) {
            lemma_q_eq_sym(eval(lhs, env)->Some_0, eval(rhs, env)->Some_0);
        }
        if q_eq(eval(rhs, env)->Some_0, eval(lhs, env)->Some_0) {
            lemma_q_eq_sym(eval(rhs, env)->Some_0, eval(lhs, env)->Some_0);
        }
    }
    assert(spec_solve(lhs, rhs, name) == Ok::<Term, crate::solve::SolveError>(
        Term::Equal(Box::new(Term::Variable(name)), Box::new(s)),
    )) by {
        assert(spec_solve(lhs, rhs, name) is Ok);
    }
}
} // verus!
