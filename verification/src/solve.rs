use vstd::prelude::*;
use crate::eq::{Expression, Term, occurrences, occurrences_capped, str_eq, term_of};
use crate::simplify::simp;

verus! {

/// Why a requested rearrangement cannot be produced.
#[derive(Debug, Clone, Copy, PartialEq, Eq)]
pub enum SolveError {
    /// The target variable occurs in neither side.
    NotPresent,
    /// The target variable occurs two or more times; the solver only
    /// isolates variables with exactly one occurrence.
    MultipleOccurrences,
    /// The operation surrounding the target has no single-valued
    /// inverse usable for rearrangement (a target in an exponent, or a
    /// nested equation).
    Unsupported,
}

/// The two sides of an equation.
pub open spec fn eq_sides(t: Term) -> (Term, Term) {
    match t {
        Term::Equal(a, b) => (*a, *b),
        _ => (t, t),
    }
}

/// The name of a variable term.
pub open spec fn var_name(t: Term) -> Seq<char> {
    match t {
        Term::Variable(n) => n,
        _ => Seq::empty(),
    }
}

/// Peels the outermost operation surrounding the unique occurrence of
/// `name` in `cur`, applying its inverse to `other`, until only the
/// variable is left; the result is the fully rearranged other side.
/// `None` stands for an operation without a usable inverse.
pub open spec fn peel(cur: Term, other: Term, name: Seq<char>) -> Option<Term>
    decreases cur,
{
    if cur == Term::Variable(name) {
        Some(other)
    } else {
        match cur {
            Term::Sum(a, b) => if occurrences(*a, name) >= 1 {
                peel(*a, Term::Difference(Box::new(other), b), name)
            } else {
                peel(*b, Term::Difference(Box::new(other), a), name)
            },
            Term::Difference(a, b) => if occurrences(*a, name) >= 1 {
                peel(*a, Term::Sum(Box::new(other), b), name)
            } else {
                peel(*b, Term::Difference(a, Box::new(other)), name)
            },
            Term::Product(a, b) => if occurrences(*a, name) >= 1 {
                peel(*a, Term::Quotient(Box::new(other), b), name)
            } else {
                peel(*b, Term::Quotient(Box::new(other), a), name)
            },
            Term::Quotient(a, b) => if occurrences(*a, name) >= 1 {
                peel(*a, Term::Product(Box::new(other), b), name)
            } else {
                peel(*b, Term::Quotient(a, Box::new(other)), name)
            },
            Term::Neg(a) => peel(*a, Term::Neg(Box::new(other)), name),
            Term::Sqrt(a, deg) => peel(*a, Term::Power(Box::new(other), Box::new(Term::Integer(deg))), name),
            Term::Power(a, b) => if occurrences(*b, name) >= 1 {
                None
            } else if *b == Term::Integer(2) {
                peel(*a, Term::Sqrt(Box::new(other), 2), name)
            } else {
                peel(
                    *a,
                    Term::Power(
                        Box::new(other),
                        Box::new(Term::Quotient(Box::new(Term::Integer(1)), b)),
                    ),
                    name,
                )
            },
            _ => None,
        }
    }
}

/// What `make_subject` produces for the equation `lhs = rhs` and the
/// target variable `name`.
pub open spec fn spec_solve(lhs: Term, rhs: Term, name: Seq<char>) -> Result<Term, SolveError> {
    let total = occurrences(lhs, name) + occurrences(rhs, name);
    if total == 0 {
        Err(SolveError::NotPresent)
    } else if total >= 2 {
        Err(SolveError::MultipleOccurrences)
    } else {
        let (cur, other) = if occurrences(lhs, name) == 1 {
            (lhs, rhs)
        } else {
            (rhs, lhs)
        };
        match peel(cur, other, name) {
            Some(o) => Ok(Term::Equal(Box::new(Term::Variable(name)), Box::new(simp(o)))),
            None => Err(SolveError::Unsupported),
        }
    }
}

fn peel_exec(cur: &Expression, other: Expression, name: &str) -> (r: Option<Expression>)
    ensures
        match r {
            Some(x) => peel(cur@, other@, name@) == Some(x@),
            None => peel(cur@, other@, name@) is None,
        },
    decreases cur,
{
    proof {
        reveal_with_fuel(term_of, 3);
    }
    match cur {
        Expression::Variable(v) => {
            if str_eq(v.as_str(), name) {
                Some(other)
            } else {
                None
            }
        },
        Expression::Sum(a, b) => {
            if a.count_variable(name) >= 1 {
                peel_exec(
                    a,
                    Expression::Difference(Box::new(other), Box::new(b.duplicate())),
                    name,
                )
            } else {
                peel_exec(
                    b,
                    Expression::Difference(Box::new(other), Box::new(a.duplicate())),
                    name,
                )
            }
        },
        Expression::Difference(a, b) => {
            if a.count_variable(name) >= 1 {
                peel_exec(a, Expression::Sum(Box::new(other), Box::new(b.duplicate())), name)
            } else {
                peel_exec(
                    b,
                    Expression::Difference(Box::new(a.duplicate()), Box::new(other)),
                    name,
                )
            }
        },
        Expression::Product(a, b) => {
            if a.count_variable(name) >= 1 {
                peel_exec(a, Expression::Quotient(Box::new(other), Box::new(b.duplicate())), name)
            } else {
                peel_exec(b, Expression::Quotient(Box::new(other), Box::new(a.duplicate())), name)
            }
        },
        Expression::Quotient(a, b) => {
            if a.count_variable(name) >= 1 {
                peel_exec(a, Expression::Product(Box::new(other), Box::new(b.duplicate())), name)
            } else {
                peel_exec(b, Expression::Quotient(Box::new(a.duplicate()), Box::new(other)), name)
            }
        },
        Expression::Neg(a) => peel_exec(a, Expression::Neg(Box::new(other)), name),
        Expression::Sqrt(a, deg) => {
            peel_exec(
                a,
                Expression::Power(Box::new(other), Box::new(Expression::Integer(*deg as i64))),
                name,
            )
        },
        Expression::Power(a, b) => {
            if b.count_variable(name) >= 1 {
                None
            } else {
                let two = Expression::Integer(2);
                if b.same_shape(&two) {
                    peel_exec(a, Expression::Sqrt(Box::new(other), 2), name)
                } else {
                    peel_exec(
                        a,
                        Expression::Power(
                            Box::new(other),
                            Box::new(Expression::Quotient(
                                Box::new(Expression::Integer(1)),
                                Box::new(b.duplicate()),
                            )),
                        ),
                        name,
                    )
                }
            }
        },
        _ => None,
    }
}

impl Expression {
    /// Rearranges the equation `self` so that the target variable
    /// stands alone on the left. Fails with `NotPresent` when the
    /// variable occurs in neither side, with `MultipleOccurrences` when
    /// it occurs two or more times, and with `Unsupported` when an
    /// operation on the way to it has no usable inverse. Never mutates
    /// its input. `lemma_make_subject_sound` shows the rearrangement
    /// sound: an assignment satisfies the original equation exactly
    /// when the target's value is the solved side's value.
    pub fn make_subject(&self, target: &Expression) -> (r: Result<Expression, SolveError>)
        requires
            self@ is Equal,
            target@ is Variable,
        ensures
            ({
                let (l, rr) = eq_sides(self@);
                let nm = var_name(target@);
                &&& (match r {
                    Ok(x) => spec_solve(l, rr, nm) == Ok::<Term, SolveError>(x@),
                    Err(e) => spec_solve(l, rr, nm) == Err::<Term, SolveError>(e),
                })
                &&& (occurrences(l, nm) + occurrences(rr, nm) == 0 <==> r == Err::<
                    Expression,
                    SolveError,
                >(SolveError::NotPresent))
                &&& (occurrences(l, nm) + occurrences(rr, nm) >= 2 <==> r == Err::<
                    Expression,
                    SolveError,
                >(SolveError::MultipleOccurrences))
            }),
    {
        match (self, target) {
            (Expression::Equal(lhs, rhs), Expression::Variable(v)) => {
                let name: &str = v.as_str();
                let cl = lhs.count_variable(name);
                let cr = rhs.count_variable(name);
                if cl + cr == 0 {
                    return Err(SolveError::NotPresent);
                }
                if cl + cr >= 2 {
                    return Err(SolveError::MultipleOccurrences);
                }
                let (cur, other): (&Expression, &Expression) = if cl == 1 {
                    (&**lhs, &**rhs)
                } else {
                    (&**rhs, &**lhs)
                };
                match peel_exec(cur, other.duplicate(), name) {
                    Some(o) => {
                        let mut o = o;
                        o.simplify();
                        let r = Expression::Equal(Box::new(target.duplicate()), Box::new(o));
                        proof {
                            reveal_with_fuel(term_of, 2);
                        }
                        Ok(r)
                    },
                    None => Err(SolveError::Unsupported),
                }
            },
            _ => {
                proof {
                    assert(false);
                }
                Err(SolveError::Unsupported)
            },
        }
    }
}

} // verus!
