use vstd::prelude::*;
use crate::eq::{Expression, Term, term_of};
use crate::simplify::abs1;

verus! {

/// Decimal digits of a whole number, most significant first.
pub open spec fn digit_char(n: nat) -> char {
    if n == 0 {
        '0'
    } else if n == 1 {
        '1'
    } else if n == 2 {
        '2'
    } else if n == 3 {
        '3'
    } else if n == 4 {
        '4'
    } else if n == 5 {
        '5'
    } else if n == 6 {
        '6'
    } else if n == 7 {
        '7'
    } else if n == 8 {
        '8'
    } else {
        '9'
    }
}

pub open spec fn dec_str(n: nat) -> Seq<char>
    decreases n,
{
    if n < 10 {
        seq![digit_char(n)]
    } else {
        dec_str(n / 10) + seq![digit_char(n % 10)]
    }
}

/// A signed whole number in decimal.
pub open spec fn int_str(n: int) -> Seq<char> {
    if n < 0 {
        seq!['-'] + dec_str(abs1(n))
    } else {
        dec_str(n as nat)
    }
}

/// The digits after the decimal point of `r / d` (`r < d`), if the
/// expansion ends within `fuel` digits.
pub open spec fn frac_digits(r: nat, d: nat, fuel: nat) -> Option<Seq<char>>
    decreases fuel,
{
    if r == 0 {
        Some(Seq::empty())
    } else if fuel == 0 {
        None
    } else {
        let r10 = r * 10;
        match frac_digits(r10 % d, d, (fuel - 1) as nat) {
            Some(rest) => Some(seq![digit_char(r10 / d)] + rest),
            None => None,
        }
    }
}

/// A decimal-mode rational: an exact decimal when the expansion is
/// finite, the fraction form otherwise.
pub open spec fn dec_display(n: int, d: int) -> Seq<char> {
    if d >= 1 {
        let q = abs1(n) / (d as nat);
        let r = abs1(n) % (d as nat);
        match frac_digits(r, d as nat, 32) {
            Some(ds) => {
                let frac = if ds.len() == 0 {
                    seq!['0']
                } else {
                    ds
                };
                let body = dec_str(q) + seq!['.'] + frac;
                if n < 0 {
                    seq!['-'] + body
                } else {
                    body
                }
            },
            None => int_str(n) + seq!['/'] + int_str(d),
        }
    } else {
        int_str(n) + seq!['/'] + int_str(d)
    }
}

/// Binding strength of a node in the rendered text: equations bind
/// loosest, then sums, products, unary minus, powers, and finally
/// self-delimiting atoms. A negative constant renders with a leading
/// minus, so it binds like a negation.
pub open spec fn prec(t: Term) -> int {
    match t {
        Term::Equal(_, _) => 0,
        Term::Sum(_, _) => 1,
        Term::Difference(_, _) => 1,
        Term::Product(_, _) => 2,
        Term::Quotient(_, _) => 2,
        Term::Neg(_) => 3,
        Term::Power(_, _) => 4,
        Term::Sqrt(_, _) => 5,
        Term::Integer(i) => if i < 0 {
            3
        } else {
            5
        },
        Term::Rational(n, _, _) => if n < 0 {
            3
        } else {
            5
        },
        Term::Variable(_) => 5,
    }
}

/// The canonical infix rendering of a term.
pub open spec fn disp(t: Term) -> Seq<char>
    decreases t, 0int,
{
    match t {
        Term::Variable(n) => n,
        Term::Integer(i) => int_str(i),
        Term::Rational(n, d, f) => if f {
            int_str(n) + seq!['/'] + int_str(d)
        } else {
            dec_display(n, d)
        },
        Term::Sum(a, b) => disp_child(*a, 1) + seq![' ', '+', ' '] + disp_child(*b, 2),
        Term::Difference(a, b) => disp_child(*a, 1) + seq![' ', '-', ' '] + disp_child(*b, 2),
        Term::Product(a, b) => disp_child(*a, 2) + seq![' ', '*', ' '] + disp_child(*b, 3),
        Term::Quotient(a, b) => disp_child(*a, 2) + seq![' ', '/', ' '] + disp_child(*b, 3),
        Term::Neg(a) => seq!['-'] + disp_child(*a, 3),
        Term::Power(a, b) => disp_child(*a, 5) + seq![' ', '^', ' '] + disp_child(*b, 3),
        Term::Sqrt(a, deg) => if deg == 2 {
            seq!['s', 'q', 'r', 't', '('] + disp(*a) + seq![')']
        } else {
            disp_child(*a, 5) + seq!['^', '(', '1', '/'] + int_str(deg) + seq![')']
        },
        Term::Equal(a, b) => disp_child(*a, 1) + seq![' ', '=', ' '] + disp_child(*b, 1),
    }
}

/// A sub-term, wrapped in parentheses where its binding strength
/// requires them.
pub open spec fn disp_child(t: Term, need: int) -> Seq<char>
    decreases t, 1int,
{
    if prec(t) < need {
        seq!['('] + disp(t) + seq![')']
    } else {
        disp(t)
    }
}

/// One decimal digit as text.
fn digit_str(n: u64) -> (r: String)
    requires
        n < 10,
    ensures
        r@ == seq![digit_char(n as nat)],
{
    let s: &str = if n == 0 {
        "0"
    } else if n == 1 {
        "1"
    } else if n == 2 {
        "2"
    } else if n == 3 {
        "3"
    } else if n == 4 {
        "4"
    } else if n == 5 {
        "5"
    } else if n == 6 {
        "6"
    } else if n == 7 {
        "7"
    } else if n == 8 {
        "8"
    } else {
        "9"
    };
    proof {
        reveal_strlit("0");
        reveal_strlit("1");
        reveal_strlit("2");
        reveal_strlit("3");
        reveal_strlit("4");
        reveal_strlit("5");
        reveal_strlit("6");
        reveal_strlit("7");
        reveal_strlit("8");
        reveal_strlit("9");
        assert(s@ =~= seq![digit_char(n as nat)]);
    }
    s.to_owned()
}

pub fn dec_u64(n: u64) -> (r: String)
    ensures
        r@ == dec_str(n as nat),
    decreases n,
{
    if n < 10 {
        digit_str(n)
    } else {
        let mut out = dec_u64(n / 10);
        let last = digit_str(n % 10);
        out.append(last.as_str());
        proof {
            assert(out@ =~= dec_str(n as nat));
        }
        out
    }
}

pub fn int_i64(n: i64) -> (r: String)
    ensures
        r@ == int_str(n as int),
{
    if n >= 0 {
        dec_u64(n as u64)
    } else {
        let mag: u64 = if n == i64::MIN {
            0x8000_0000_0000_0000u64
        } else {
            (-n) as u64
        };
        assert(mag as nat == abs1(n as int));
        let mut out = String::new();
        proof {
            reveal_strlit("-");
        }
        out.append("-");
        let digits = dec_u64(mag);
        out.append(digits.as_str());
        proof {
            assert(out@ =~= int_str(n as int));
        }
        out
    }
}

fn frac_digits_exec(r: u64, d: u64, fuel: u64) -> (res: Option<String>)
    requires
        1 <= d,
        r < d,
    ensures
        match res {
            Some(s) => frac_digits(r as nat, d as nat, fuel as nat) == Some(s@),
            None => frac_digits(r as nat, d as nat, fuel as nat) is None,
        },
    decreases fuel,
{
    if r == 0 {
        Some(String::new())
    } else if fuel == 0 {
        None
    } else {
        let r10: u128 = (r as u128) * 10;
        let digit = (r10 / (d as u128)) as u64;
        let rem = (r10 % (d as u128)) as u64;
        proof {
            assert(r10 / (d as u128) < 10) by (nonlinear_arith)
                requires
                    r < d,
                    1 <= d,
                    r10 == r as int * 10,
            ;
            assert(r10 % (d as u128) < d) by (nonlinear_arith)
                requires
                    1 <= d,
                    r10 >= 0,
            ;
        }
        match frac_digits_exec(rem, d, fuel - 1) {
            Some(rest) => {
                let mut out = digit_str(digit);
                out.append(rest.as_str());
                proof {
                    assert(out@ =~= frac_digits(r as nat, d as nat, fuel as nat)->Some_0);
                }
                Some(out)
            },
            None => None,
        }
    }
}

fn dec_display_exec(n: i64, d: i64) -> (r: String)
    ensures
        r@ == dec_display(n as int, d as int),
{
    if d >= 1 {
        let mag: u64 = if n == i64::MIN {
            0x8000_0000_0000_0000u64
        } else if n < 0 {
            (-n) as u64
        } else {
            n as u64
        };
        assert(mag as nat == abs1(n as int));
        let q = mag / (d as u64);
        let rem = mag % (d as u64);
        match frac_digits_exec(rem, d as u64, 32) {
            Some(ds) => {
                let mut out = String::new();
                if n < 0 {
                    proof {
                        reveal_strlit("-");
                    }
                    out.append("-");
                }
                let qs = dec_u64(q);
                out.append(qs.as_str());
                proof {
                    reveal_strlit(".");
                }
                out.append(".");
                if ds.as_str().unicode_len() == 0 {
                    proof {
                        reveal_strlit("0");
                    }
                    out.append("0");
                } else {
                    out.append(ds.as_str());
                }
                proof {
                    assert(out@ =~= dec_display(n as int, d as int));
                }
                out
            },
            None => {
                let mut out = int_i64(n);
                proof {
                    reveal_strlit("/");
                }
                out.append("/");
                let dd = int_i64(d);
                out.append(dd.as_str());
                proof {
                    assert(out@ =~= dec_display(n as int, d as int));
                }
                out
            },
        }
    } else {
        let mut out = int_i64(n);
        proof {
            reveal_strlit("/");
        }
        out.append("/");
        let dd = int_i64(d);
        out.append(dd.as_str());
        proof {
            assert(out@ =~= dec_display(n as int, d as int));
        }
        out
    }
}

fn prec_exec(e: &Expression) -> (r: i8)
    ensures
        r == prec(e@),
{
    match e {
        Expression::Equal(_, _) => 0,
        Expression::Sum(_, _) => 1,
        Expression::Difference(_, _) => 1,
        Expression::Product(_, _) => 2,
        Expression::Quotient(_, _) => 2,
        Expression::Neg(_) => 3,
        Expression::Power(_, _) => 4,
        Expression::Sqrt(_, _) => 5,
        Expression::Integer(i) => if *i < 0 {
            3
        } else {
            5
        },
        Expression::Rational(rt, _) => if rt.num < 0 {
            3
        } else {
            5
        },
        Expression::Variable(_) => 5,
    }
}

fn disp_exec(e: &Expression) -> (r: String)
    ensures
        r@ == disp(e@),
    decreases e, 0int,
{
    proof {
        reveal_strlit(" + ");
        reveal_strlit(" - ");
        reveal_strlit(" * ");
        reveal_strlit(" / ");
        reveal_strlit(" ^ ");
        reveal_strlit(" = ");
        reveal_strlit("-");
        reveal_strlit("/");
        reveal_strlit("sqrt(");
        reveal_strlit(")");
        reveal_strlit("^(1/");
    }
    match e {
        Expression::Variable(v) => v.clone(),
        Expression::Integer(i) => int_i64(*i),
        Expression::Rational(rt, f) => {
            if *f {
                let mut out = int_i64(rt.num);
                out.append("/");
                let dd = int_i64(rt.den);
                out.append(dd.as_str());
                proof {
                    assert(out@ =~= disp(e@));
                }
                out
            } else {
                let out = dec_display_exec(rt.num, rt.den);
                out
            }
        },
        Expression::Sum(a, b) => {
            let mut out = disp_child_exec(a, 1);
            out.append(" + ");
            let rb = disp_child_exec(b, 2);
            out.append(rb.as_str());
            proof {
                assert(out@ =~= disp(e@));
            }
            out
        },
        Expression::Difference(a, b) => {
            let mut out = disp_child_exec(a, 1);
            out.append(" - ");
            let rb = disp_child_exec(b, 2);
            out.append(rb.as_str());
            proof {
                assert(out@ =~= disp(e@));
            }
            out
        },
        Expression::Product(a, b) => {
            let mut out = disp_child_exec(a, 2);
            out.append(" * ");
            let rb = disp_child_exec(b, 3);
            out.append(rb.as_str());
            proof {
                assert(out@ =~= disp(e@));
            }
            out
        },
        Expression::Quotient(a, b) => {
            let mut out = disp_child_exec(a, 2);
            out.append(" / ");
            let rb = disp_child_exec(b, 3);
            out.append(rb.as_str());
            proof {
                assert(out@ =~= disp(e@));
            }
            out
        },
        Expression::Neg(a) => {
            let mut out = String::new();
            out.append("-");
            let ra = disp_child_exec(a, 3);
            out.append(ra.as_str());
            proof {
                assert(out@ =~= disp(e@));
            }
            out
        },
        Expression::Power(a, b) => {
            let mut out = disp_child_exec(a, 5);
            out.append(" ^ ");
            let rb = disp_child_exec(b, 3);
            out.append(rb.as_str());
            proof {
                assert(out@ =~= disp(e@));
            }
            out
        },
        Expression::Sqrt(a, deg) => {
            if *deg == 2 {
                let mut out = String::new();
                out.append("sqrt(");
                let ra = disp_exec(a);
                out.append(ra.as_str());
                out.append(")");
                proof {
                    assert(out@ =~= disp(e@));
                }
                out
            } else {
                let mut out = disp_child_exec(a, 5);
                out.append("^(1/");
                let dd = int_i64(*deg as i64);
                out.append(dd.as_str());
                out.append(")");
                proof {
                    assert(out@ =~= disp(e@));
                }
                out
            }
        },
        Expression::Equal(a, b) => {
            let mut out = disp_child_exec(a, 1);
            out.append(" = ");
            let rb = disp_child_exec(b, 1);
            out.append(rb.as_str());
            proof {
                assert(out@ =~= disp(e@));
            }
            out
        },
    }
}

fn disp_child_exec(e: &Expression, need: i8) -> (r: String)
    ensures
        r@ == disp_child(e@, need as int),
    decreases e, 1int,
{
    proof {
        reveal_strlit("(");
        reveal_strlit(")");
    }
    if prec_exec(e) < need {
        let mut out = String::new();
        out.append("(");
        let inner = disp_exec(e);
        out.append(inner.as_str());
        out.append(")");
        proof {
            assert(out@ =~= disp_child(e@, need as int));
        }
        out
    } else {
        disp_exec(e)
    }
}

impl Expression {
    /// The canonical textual rendering: infix, parenthesized only where
    /// the operand would otherwise bind differently.
    pub fn to_display_string(&self) -> (r: String)
        ensures
            r@ == disp(self@),
    {
        disp_exec(self)
    }
}

} // verus!
