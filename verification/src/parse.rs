use vstd::prelude::*;
use crate::eq::{Expression, Ratio, Term, term_of};
use crate::simplify::norm_frac;

verus! {

/// Malformed input text; `position` is the character index at which the
/// parser gave up.
#[derive(Debug, Clone, Copy, PartialEq, Eq)]
pub struct ParseError {
    pub position: usize,
}

pub open spec fn is_ws(c: char) -> bool {
    c == ' ' || c == '\t' || c == '\n' || c == '\r'
}

pub open spec fn is_digit(c: char) -> bool {
    '0' <= c && c <= '9'
}

pub open spec fn is_alpha(c: char) -> bool {
    ('a' <= c && c <= 'z') || ('A' <= c && c <= 'Z')
}

pub open spec fn digit_val(c: char) -> int {
    c as int - '0' as int
}

/// First position at or after `i` holding no whitespace.
pub open spec fn sp_ws(s: Seq<char>, i: int) -> int
    decreases s.len() - i,
{
    if 0 <= i < s.len() && is_ws(s[i]) {
        sp_ws(s, i + 1)
    } else {
        i
    }
}

/// End of the run of letters starting at `i`.
pub open spec fn word_end(s: Seq<char>, i: int) -> int
    decreases s.len() - i,
{
    if 0 <= i < s.len() && is_alpha(s[i]) {
        word_end(s, i + 1)
    } else {
        i
    }
}

/// Reads a run of digits into `acc`; fails at the digit that would push
/// the value past the machine range.
pub open spec fn scan_int(s: Seq<char>, i: int, acc: int) -> Result<(int, int), int>
    decreases s.len() - i,
{
    if 0 <= i < s.len() && is_digit(s[i]) {
        let v = acc * 10 + digit_val(s[i]);
        if v > 0x7fff_ffff_ffff_ffff {
            Err(i)
        } else {
            scan_int(s, i + 1, v)
        }
    } else {
        Ok((acc, i))
    }
}

/// Reads the digits after a decimal point, scaling the denominator by
/// ten for each.
pub open spec fn scan_dec(s: Seq<char>, i: int, num: int, den: int) -> Result<(int, int, int), int>
    decreases s.len() - i,
{
    if 0 <= i < s.len() && is_digit(s[i]) {
        let v = num * 10 + digit_val(s[i]);
        let d = den * 10;
        if v > 0x7fff_ffff_ffff_ffff || d > 0x7fff_ffff_ffff_ffff {
            Err(i)
        } else {
            scan_dec(s, i + 1, v, d)
        }
    } else {
        Ok((num, den, i))
    }
}

/// A numeric literal: a whole number, a fraction `a/b` written without
/// spaces, or a decimal, which becomes an exact reduced fraction over a
/// power of ten. A fraction literal with a zero denominator is an
/// error at the denominator's position.
pub open spec fn sp_number(s: Seq<char>, i: int) -> Result<(Term, int), int> {
    match scan_int(s, i, 0) {
        Err(p) => Err(p),
        Ok((v, j)) => {
            if j < s.len() && s[j] == '/' && j + 1 < s.len() && is_digit(s[j + 1]) {
                match scan_int(s, j + 1, 0) {
                    Err(p) => Err(p),
                    Ok((d2, k)) => if d2 == 0 {
                        Err(j + 1)
                    } else {
                        Ok((Term::Rational(v, d2, true), k))
                    },
                }
            } else if j < s.len() && s[j] == '.' && j + 1 < s.len() && is_digit(s[j + 1]) {
                match scan_dec(s, j + 1, v, 1) {
                    Err(p) => Err(p),
                    Ok((num, den, k)) => {
                        let (n2, d2) = norm_frac(num, den);
                        Ok((Term::Rational(n2, d2, false), k))
                    },
                }
            } else {
                Ok((Term::Integer(v), j))
            }
        },
    }
}

/// A primary: a parenthesized sub-expression, a numeric literal, a
/// `sqrt(...)` call, or a variable name.
pub open spec fn sp_primary(s: Seq<char>, i: int, fuel: nat) -> Result<(Term, int), int>
    decreases fuel,
{
    let j = sp_ws(s, i);
    if fuel == 0 {
        Err(j)
    } else if !(j < s.len()) {
        Err(s.len() as int)
    } else if s[j] == '(' {
        match sp_sum(s, j + 1, (fuel - 1) as nat) {
            Err(p) => Err(p),
            Ok((e, k)) => {
                let k2 = sp_ws(s, k);
                if k2 < s.len() && s[k2] == ')' {
                    Ok((e, k2 + 1))
                } else {
                    Err(k2)
                }
            },
        }
    } else if is_digit(s[j]) {
        sp_number(s, j)
    } else if is_alpha(s[j]) {
        let end = word_end(s, j);
        if end - j == 4 && s[j] == 's' && s[j + 1] == 'q' && s[j + 2] == 'r' && s[j + 3] == 't' {
            let k = sp_ws(s, end);
            if k < s.len() && s[k] == '(' {
                match sp_sum(s, k + 1, (fuel - 1) as nat) {
                    Err(p) => Err(p),
                    Ok((e, m)) => {
                        let m2 = sp_ws(s, m);
                        if m2 < s.len() && s[m2] == ')' {
                            Ok((Term::Sqrt(Box::new(e), 2), m2 + 1))
                        } else {
                            Err(m2)
                        }
                    },
                }
            } else {
                Err(k)
            }
        } else {
            Ok((Term::Variable(s.subrange(j, end)), end))
        }
    } else {
        Err(j)
    }
}

/// A power: right-associative `^`, binding tighter than unary minus.
pub open spec fn sp_power(s: Seq<char>, i: int, fuel: nat) -> Result<(Term, int), int>
    decreases fuel,
{
    if fuel == 0 {
        Err(sp_ws(s, i))
    } else {
        match sp_primary(s, i, (fuel - 1) as nat) {
            Err(p) => Err(p),
            Ok((a, j)) => {
                let j2 = sp_ws(s, j);
                if j2 < s.len() && s[j2] == '^' {
                    match sp_unary(s, j2 + 1, (fuel - 1) as nat) {
                        Err(p) => Err(p),
                        Ok((b, k)) => Ok((Term::Power(Box::new(a), Box::new(b)), k)),
                    }
                } else {
                    Ok((a, j))
                }
            },
        }
    }
}

/// Unary minus.
pub open spec fn sp_unary(s: Seq<char>, i: int, fuel: nat) -> Result<(Term, int), int>
    decreases fuel,
{
    let j = sp_ws(s, i);
    if fuel == 0 {
        Err(j)
    } else if j < s.len() && s[j] == '-' {
        match sp_unary(s, j + 1, (fuel - 1) as nat) {
            Err(p) => Err(p),
            Ok((a, k)) => Ok((Term::Neg(Box::new(a)), k)),
        }
    } else {
        sp_power(s, i, (fuel - 1) as nat)
    }
}

/// The multiplicative level: `*`, `/`, and implicit multiplication
/// before a letter or an opening parenthesis, as in `2x` or `3(x+1)`.
pub open spec fn sp_mul(s: Seq<char>, i: int, fuel: nat) -> Result<(Term, int), int>
    decreases fuel,
{
    if fuel == 0 {
        Err(sp_ws(s, i))
    } else {
        match sp_unary(s, i, (fuel - 1) as nat) {
            Err(p) => Err(p),
            Ok((a, j)) => sp_mul_tail(s, a, j, (fuel - 1) as nat),
        }
    }
}

pub open spec fn sp_mul_tail(s: Seq<char>, acc: Term, i: int, fuel: nat) -> Result<
    (Term, int),
    int,
>
    decreases fuel,
{
    if fuel == 0 {
        Err(sp_ws(s, i))
    } else {
        let j = sp_ws(s, i);
        if j < s.len() && s[j] == '*' {
            match sp_unary(s, j + 1, (fuel - 1) as nat) {
                Err(p) => Err(p),
                Ok((b, k)) => sp_mul_tail(
                    s,
                    Term::Product(Box::new(acc), Box::new(b)),
                    k,
                    (fuel - 1) as nat,
                ),
            }
        } else if j < s.len() && s[j] == '/' {
            match sp_unary(s, j + 1, (fuel - 1) as nat) {
                Err(p) => Err(p),
                Ok((b, k)) => sp_mul_tail(
                    s,
                    Term::Quotient(Box::new(acc), Box::new(b)),
                    k,
                    (fuel - 1) as nat,
                ),
            }
        } else if j < s.len() && (is_alpha(s[j]) || s[j] == '(') {
            match sp_unary(s, j, (fuel - 1) as nat) {
                Err(p) => Err(p),
                Ok((b, k)) => sp_mul_tail(
                    s,
                    Term::Product(Box::new(acc), Box::new(b)),
                    k,
                    (fuel - 1) as nat,
                ),
            }
        } else {
            Ok((acc, i))
        }
    }
}

/// The additive level: `+` and `-`.
pub open spec fn sp_sum(s: Seq<char>, i: int, fuel: nat) -> Result<(Term, int), int>
    decreases fuel,
{
    if fuel == 0 {
        Err(sp_ws(s, i))
    } else {
        match sp_mul(s, i, (fuel - 1) as nat) {
            Err(p) => Err(p),
            Ok((a, j)) => sp_sum_tail(s, a, j, (fuel - 1) as nat),
        }
    }
}

pub open spec fn sp_sum_tail(s: Seq<char>, acc: Term, i: int, fuel: nat) -> Result<
    (Term, int),
    int,
>
    decreases fuel,
{
    if fuel == 0 {
        Err(sp_ws(s, i))
    } else {
        let j = sp_ws(s, i);
        if j < s.len() && s[j] == '+' {
            match sp_mul(s, j + 1, (fuel - 1) as nat) {
                Err(p) => Err(p),
                Ok((b, k)) => sp_sum_tail(
                    s,
                    Term::Sum(Box::new(acc), Box::new(b)),
                    k,
                    (fuel - 1) as nat,
                ),
            }
        } else if j < s.len() && s[j] == '-' {
            match sp_mul(s, j + 1, (fuel - 1) as nat) {
                Err(p) => Err(p),
                Ok((b, k)) => sp_sum_tail(
                    s,
                    Term::Difference(Box::new(acc), Box::new(b)),
                    k,
                    (fuel - 1) as nat,
                ),
            }
        } else {
            Ok((acc, i))
        }
    }
}

/// The whole grammar: an expression, optionally `=` another expression.
pub open spec fn sp_expr(s: Seq<char>, i: int, fuel: nat) -> Result<(Term, int), int>
    decreases fuel,
{
    if fuel == 0 {
        Err(sp_ws(s, i))
    } else {
        match sp_sum(s, i, (fuel - 1) as nat) {
            Err(p) => Err(p),
            Ok((a, j)) => {
                let j2 = sp_ws(s, j);
                if j2 < s.len() && s[j2] == '=' {
                    match sp_sum(s, j2 + 1, (fuel - 1) as nat) {
                        Err(p) => Err(p),
                        Ok((b, k)) => Ok((Term::Equal(Box::new(a), Box::new(b)), k)),
                    }
                } else {
                    Ok((a, j))
                }
            },
        }
    }
}

/// Recursion budget: generous enough that well-formed input never runs
/// out, since every eight levels of descent consume a character.
pub open spec fn parse_fuel(n: nat) -> nat {
    if n > (usize::MAX as nat - 16) / 8 {
        usize::MAX as nat
    } else {
        8 * n + 16
    }
}

/// What `parse` returns: the parsed term, or the position of the
/// offending character. In strict mode trailing input is an error;
/// otherwise it is ignored.
pub open spec fn spec_parse(s: Seq<char>, strict: bool) -> Result<Term, int> {
    match sp_expr(s, 0, parse_fuel(s.len())) {
        Err(p) => Err(p),
        Ok((e, j)) => {
            let j2 = sp_ws(s, j);
            if strict && j2 < s.len() {
                Err(j2)
            } else {
                Ok(e)
            }
        },
    }
}

fn is_ws_c(c: char) -> (r: bool)
    ensures
        r == is_ws(c),
{
    c == ' ' || c == '\t' || c == '\n' || c == '\r'
}

fn is_digit_c(c: char) -> (r: bool)
    ensures
        r == is_digit(c),
{
    '0' <= c && c <= '9'
}

fn is_alpha_c(c: char) -> (r: bool)
    ensures
        r == is_alpha(c),
{
    ('a' <= c && c <= 'z') || ('A' <= c && c <= 'Z')
}

fn ws(s: &str, i: usize) -> (r: usize)
    requires
        i <= s@.len(),
    ensures
        r == sp_ws(s@, i as int),
        i <= r <= s@.len(),
{
    let len = s.unicode_len();
    let mut r = i;
    while r < len && is_ws_c(s.get_char(r))
        invariant
            i <= r <= len,
            len == s@.len(),
            sp_ws(s@, i as int) == sp_ws(s@, r as int),
        decreases len - r,
    {
        r += 1;
    }
    r
}

fn word_end_exec(s: &str, i: usize) -> (r: usize)
    requires
        i <= s@.len(),
    ensures
        r == word_end(s@, i as int),
        i <= r <= s@.len(),
{
    let len = s.unicode_len();
    let mut r = i;
    while r < len && is_alpha_c(s.get_char(r))
        invariant
            i <= r <= len,
            len == s@.len(),
            word_end(s@, i as int) == word_end(s@, r as int),
        decreases len - r,
    {
        r += 1;
    }
    r
}

fn scan_int_exec(s: &str, i: usize, acc: i64) -> (r: Result<(i64, usize), usize>)
    requires
        i <= s@.len(),
        acc >= 0,
    ensures
        ({
            let sr = scan_int(s@, i as int, acc as int);
            match r {
                Ok((v, p)) => sr == Ok::<(int, int), int>((v as int, p as int)) && p <= s@.len()
                    && v >= 0,
                Err(p) => sr == Err::<(int, int), int>(p as int) && p <= s@.len(),
            }
        }),
    decreases s@.len() - i,
{
    let len = s.unicode_len();
    if i < len && is_digit_c(s.get_char(i)) {
        let c = s.get_char(i);
        let dv = (c as u32 - '0' as u32) as i64;
        assert(dv == digit_val(s@[i as int]));
        let v = (acc as i128) * 10 + (dv as i128);
        if v > 0x7fff_ffff_ffff_ffff {
            Err(i)
        } else {
            scan_int_exec(s, i + 1, v as i64)
        }
    } else {
        Ok((acc, i))
    }
}

fn scan_dec_exec(s: &str, i: usize, num: i64, den: i64) -> (r: Result<(i64, i64, usize), usize>)
    requires
        i <= s@.len(),
        num >= 0,
        den >= 1,
    ensures
        ({
            let sr = scan_dec(s@, i as int, num as int, den as int);
            match r {
                Ok((v, d, p)) => sr == Ok::<(int, int, int), int>((v as int, d as int, p as int))
                    && p <= s@.len() && v >= 0 && d >= 1,
                Err(p) => sr == Err::<(int, int, int), int>(p as int) && p <= s@.len(),
            }
        }),
    decreases s@.len() - i,
{
    let len = s.unicode_len();
    if i < len && is_digit_c(s.get_char(i)) {
        let c = s.get_char(i);
        let dv = (c as u32 - '0' as u32) as i64;
        assert(dv == digit_val(s@[i as int]));
        let v = (num as i128) * 10 + (dv as i128);
        let d = (den as i128) * 10;
        if v > 0x7fff_ffff_ffff_ffff || d > 0x7fff_ffff_ffff_ffff {
            Err(i)
        } else {
            scan_dec_exec(s, i + 1, v as i64, d as i64)
        }
    } else {
        Ok((num, den, i))
    }
}

fn number_exec(s: &str, i: usize) -> (r: Result<(Expression, usize), usize>)
    requires
        i <= s@.len(),
    ensures
        ({
            let sr = sp_number(s@, i as int);
            match r {
                Ok((e, p)) => sr == Ok::<(Term, int), int>((e@, p as int)) && p <= s@.len(),
                Err(p) => sr == Err::<(Term, int), int>(p as int) && p <= s@.len(),
            }
        }),
{
    let len = s.unicode_len();
    match scan_int_exec(s, i, 0) {
        Err(p) => Err(p),
        Ok((v, j)) => {
            if j < len && s.get_char(j) == '/' && j + 1 < len && is_digit_c(s.get_char(j + 1)) {
                match scan_int_exec(s, j + 1, 0) {
                    Err(p) => Err(p),
                    Ok((d2, k)) => {
                        if d2 == 0 {
                            Err(j + 1)
                        } else {
                            Ok((Expression::Rational(Ratio { num: v, den: d2 }, true), k))
                        }
                    },
                }
            } else if j < len && s.get_char(j) == '.' && j + 1 < len && is_digit_c(
                s.get_char(j + 1),
            ) {
                match scan_dec_exec(s, j + 1, v, 1) {
                    Err(p) => Err(p),
                    Ok((num, den, k)) => {
                        proof {
                            crate::simplify::lemma_norm_props(num as int, den as int);
                        }
                        match crate::simplify::reduce_frac(num as i128, den as i128) {
                            Some((n2, d2)) => Ok((
                                Expression::Rational(Ratio { num: n2, den: d2 }, false),
                                k,
                            )),
                            None => {
                                proof {
                                    assert(false);
                                }
                                Err(k)
                            },
                        }
                    },
                }
            } else {
                Ok((Expression::Integer(v), j))
            }
        },
    }
}

fn primary_exec(s: &str, i: usize, fuel: usize) -> (r: Result<(Expression, usize), usize>)
    requires
        i <= s@.len(),
    ensures
        ({
            let sr = sp_primary(s@, i as int, fuel as nat);
            match r {
                Ok((e, p)) => sr == Ok::<(Term, int), int>((e@, p as int)) && p <= s@.len(),
                Err(p) => sr == Err::<(Term, int), int>(p as int) && p <= s@.len(),
            }
        }),
    decreases fuel,
{
    let len = s.unicode_len();
    let j = ws(s, i);
    if fuel == 0 {
        return Err(j);
    }
    if !(j < len) {
        return Err(len);
    }
    let c = s.get_char(j);
    if c == '(' {
        match sum_exec(s, j + 1, fuel - 1) {
            Err(p) => Err(p),
            Ok((e, k)) => {
                let k2 = ws(s, k);
                if k2 < len && s.get_char(k2) == ')' {
                    Ok((e, k2 + 1))
                } else {
                    Err(k2)
                }
            },
        }
    } else if is_digit_c(c) {
        number_exec(s, j)
    } else if is_alpha_c(c) {
        let end = word_end_exec(s, j);
        if end - j == 4 && s.get_char(j) == 's' && s.get_char(j + 1) == 'q' && s.get_char(j + 2)
            == 'r' && s.get_char(j + 3) == 't' {
            let k = ws(s, end);
            if k < len && s.get_char(k) == '(' {
                match sum_exec(s, k + 1, fuel - 1) {
                    Err(p) => Err(p),
                    Ok((e, m)) => {
                        let m2 = ws(s, m);
                        if m2 < len && s.get_char(m2) == ')' {
                            Ok((Expression::Sqrt(Box::new(e), 2), m2 + 1))
                        } else {
                            Err(m2)
                        }
                    },
                }
            } else {
                Err(k)
            }
        } else {
            let name = s.substring_char(j, end).to_owned();
            Ok((Expression::Variable(name), end))
        }
    } else {
        Err(j)
    }
}

fn power_exec(s: &str, i: usize, fuel: usize) -> (r: Result<(Expression, usize), usize>)
    requires
        i <= s@.len(),
    ensures
        ({
            let sr = sp_power(s@, i as int, fuel as nat);
            match r {
                Ok((e, p)) => sr == Ok::<(Term, int), int>((e@, p as int)) && p <= s@.len(),
                Err(p) => sr == Err::<(Term, int), int>(p as int) && p <= s@.len(),
            }
        }),
    decreases fuel,
{
    let len = s.unicode_len();
    if fuel == 0 {
        return Err(ws(s, i));
    }
    match primary_exec(s, i, fuel - 1) {
        Err(p) => Err(p),
        Ok((a, j)) => {
            let j2 = ws(s, j);
            if j2 < len && s.get_char(j2) == '^' {
                match unary_exec(s, j2 + 1, fuel - 1) {
                    Err(p) => Err(p),
                    Ok((b, k)) => Ok((Expression::Power(Box::new(a), Box::new(b)), k)),
                }
            } else {
                Ok((a, j))
            }
        },
    }
}

fn unary_exec(s: &str, i: usize, fuel: usize) -> (r: Result<(Expression, usize), usize>)
    requires
        i <= s@.len(),
    ensures
        ({
            let sr = sp_unary(s@, i as int, fuel as nat);
            match r {
                Ok((e, p)) => sr == Ok::<(Term, int), int>((e@, p as int)) && p <= s@.len(),
                Err(p) => sr == Err::<(Term, int), int>(p as int) && p <= s@.len(),
            }
        }),
    decreases fuel,
{
    let len = s.unicode_len();
    let j = ws(s, i);
    if fuel == 0 {
        return Err(j);
    }
    if j < len && s.get_char(j) == '-' {
        match unary_exec(s, j + 1, fuel - 1) {
            Err(p) => Err(p),
            Ok((a, k)) => Ok((Expression::Neg(Box::new(a)), k)),
        }
    } else {
        power_exec(s, i, fuel - 1)
    }
}

fn mul_exec(s: &str, i: usize, fuel: usize) -> (r: Result<(Expression, usize), usize>)
    requires
        i <= s@.len(),
    ensures
        ({
            let sr = sp_mul(s@, i as int, fuel as nat);
            match r {
                Ok((e, p)) => sr == Ok::<(Term, int), int>((e@, p as int)) && p <= s@.len(),
                Err(p) => sr == Err::<(Term, int), int>(p as int) && p <= s@.len(),
            }
        }),
    decreases fuel,
{
    if fuel == 0 {
        return Err(ws(s, i));
    }
    match unary_exec(s, i, fuel - 1) {
        Err(p) => Err(p),
        Ok((a, j)) => mul_tail_exec(s, a, j, fuel - 1),
    }
}

fn mul_tail_exec(s: &str, acc: Expression, i: usize, fuel: usize) -> (r: Result<
    (Expression, usize),
    usize,
>)
    requires
        i <= s@.len(),
    ensures
        ({
            let sr = sp_mul_tail(s@, acc@, i as int, fuel as nat);
            match r {
                Ok((e, p)) => sr == Ok::<(Term, int), int>((e@, p as int)) && p <= s@.len(),
                Err(p) => sr == Err::<(Term, int), int>(p as int) && p <= s@.len(),
            }
        }),
    decreases fuel,
{
    let len = s.unicode_len();
    if fuel == 0 {
        return Err(ws(s, i));
    }
    let j = ws(s, i);
    if j < len && s.get_char(j) == '*' {
        match unary_exec(s, j + 1, fuel - 1) {
            Err(p) => Err(p),
            Ok((b, k)) => mul_tail_exec(
                s,
                Expression::Product(Box::new(acc), Box::new(b)),
                k,
                fuel - 1,
            ),
        }
    } else if j < len && s.get_char(j) == '/' {
        match unary_exec(s, j + 1, fuel - 1) {
            Err(p) => Err(p),
            Ok((b, k)) => mul_tail_exec(
                s,
                Expression::Quotient(Box::new(acc), Box::new(b)),
                k,
                fuel - 1,
            ),
        }
    } else if j < len && (is_alpha_c(s.get_char(j)) || s.get_char(j) == '(') {
        match unary_exec(s, j, fuel - 1) {
            Err(p) => Err(p),
            Ok((b, k)) => mul_tail_exec(
                s,
                Expression::Product(Box::new(acc), Box::new(b)),
                k,
                fuel - 1,
            ),
        }
    } else {
        Ok((acc, i))
    }
}

fn sum_exec(s: &str, i: usize, fuel: usize) -> (r: Result<(Expression, usize), usize>)
    requires
        i <= s@.len(),
    ensures
        ({
            let sr = sp_sum(s@, i as int, fuel as nat);
            match r {
                Ok((e, p)) => sr == Ok::<(Term, int), int>((e@, p as int)) && p <= s@.len(),
                Err(p) => sr == Err::<(Term, int), int>(p as int) && p <= s@.len(),
            }
        }),
    decreases fuel,
{
    if fuel == 0 {
        return Err(ws(s, i));
    }
    match mul_exec(s, i, fuel - 1) {
        Err(p) => Err(p),
        Ok((a, j)) => sum_tail_exec(s, a, j, fuel - 1),
    }
}

fn sum_tail_exec(s: &str, acc: Expression, i: usize, fuel: usize) -> (r: Result<
    (Expression, usize),
    usize,
>)
    requires
        i <= s@.len(),
    ensures
        ({
            let sr = sp_sum_tail(s@, acc@, i as int, fuel as nat);
            match r {
                Ok((e, p)) => sr == Ok::<(Term, int), int>((e@, p as int)) && p <= s@.len(),
                Err(p) => sr == Err::<(Term, int), int>(p as int) && p <= s@.len(),
            }
        }),
    decreases fuel,
{
    let len = s.unicode_len();
    if fuel == 0 {
        return Err(ws(s, i));
    }
    let j = ws(s, i);
    if j < len && s.get_char(j) == '+' {
        match mul_exec(s, j + 1, fuel - 1) {
            Err(p) => Err(p),
            Ok((b, k)) => sum_tail_exec(s, Expression::Sum(Box::new(acc), Box::new(b)), k, fuel - 1),
        }
    } else if j < len && s.get_char(j) == '-' {
        match mul_exec(s, j + 1, fuel - 1) {
            Err(p) => Err(p),
            Ok((b, k)) => sum_tail_exec(
                s,
                Expression::Difference(Box::new(acc), Box::new(b)),
                k,
                fuel - 1,
            ),
        }
    } else {
        Ok((acc, i))
    }
}

fn expr_exec(s: &str, i: usize, fuel: usize) -> (r: Result<(Expression, usize), usize>)
    requires
        i <= s@.len(),
    ensures
        ({
            let sr = sp_expr(s@, i as int, fuel as nat);
            match r {
                Ok((e, p)) => sr == Ok::<(Term, int), int>((e@, p as int)) && p <= s@.len(),
                Err(p) => sr == Err::<(Term, int), int>(p as int) && p <= s@.len(),
            }
        }),
    decreases fuel,
{
    let len = s.unicode_len();
    if fuel == 0 {
        return Err(ws(s, i));
    }
    match sum_exec(s, i, fuel - 1) {
        Err(p) => Err(p),
        Ok((a, j)) => {
            let j2 = ws(s, j);
            if j2 < len && s.get_char(j2) == '=' {
                match sum_exec(s, j2 + 1, fuel - 1) {
                    Err(p) => Err(p),
                    Ok((b, k)) => Ok((Expression::Equal(Box::new(a), Box::new(b)), k)),
                }
            } else {
                Ok((a, j))
            }
        },
    }
}

impl Expression {
    /// Parses arithmetic text over `+ - * / ^`, unary minus, `sqrt(..)`,
    /// parentheses, integers, fractions, decimals, variables and `=`.
    /// In strict mode trailing unconsumed input is an error; otherwise
    /// it is ignored. Pure: never panics, no side effects.
    pub fn parse(text: &str, strict: bool) -> (r: Result<Expression, ParseError>)
        ensures
            match r {
                Ok(e) => spec_parse(text@, strict) == Ok::<Term, int>(e@),
                Err(pe) => spec_parse(text@, strict) == Err::<Term, int>(pe.position as int),
            },
    {
        let len = text.unicode_len();
        let fuel: usize = if len > (usize::MAX - 16) / 8 {
            usize::MAX
        } else {
            8 * len + 16
        };
        assert(fuel as nat == parse_fuel(text@.len()));
        match expr_exec(text, 0, fuel) {
            Err(p) => Err(ParseError { position: p }),
            Ok((e, j)) => {
                let j2 = ws(text, j);
                if strict && j2 < len {
                    Err(ParseError { position: j2 })
                } else {
                    Ok(e)
                }
            },
        }
    }
}

} // verus!
