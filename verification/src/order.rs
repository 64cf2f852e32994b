use vstd::prelude::*;
use crate::eq::{Expression, Term, str_eq};

verus! {

/// Lexicographic order on character sequences, read from position `i`.
pub open spec fn seq_lt_at(a: Seq<char>, b: Seq<char>, i: int) -> bool
    decreases a.len() - i,
{
    if i >= a.len() {
        i < b.len()
    } else if i >= b.len() {
        false
    } else if a[i] != b[i] {
        a[i] < b[i]
    } else {
        seq_lt_at(a, b, i + 1)
    }
}

/// Lexicographic order on names.
pub open spec fn seq_lt(a: Seq<char>, b: Seq<char>) -> bool {
    seq_lt_at(a, b, 0)
}

proof fn lemma_seq_lt_at_irrefl(a: Seq<char>, i: int)
    ensures
        !seq_lt_at(a, a, i),
    decreases a.len() - i,
{
    if i < a.len() {
        lemma_seq_lt_at_irrefl(a, i + 1);
    }
}

proof fn lemma_seq_lt_at_antisym(a: Seq<char>, b: Seq<char>, i: int)
    requires
        seq_lt_at(a, b, i),
    ensures
        !seq_lt_at(b, a, i),
    decreases a.len() - i,
{
    if i < a.len() && i < b.len() && a[i] == b[i] {
        lemma_seq_lt_at_antisym(a, b, i + 1);
    }
}

pub proof fn lemma_seq_lt_antisym(a: Seq<char>, b: Seq<char>)
    ensures
        seq_lt(a, b) ==> !seq_lt(b, a),
        !(seq_lt(a, a)),
{
    if seq_lt(a, b) {
        lemma_seq_lt_at_antisym(a, b, 0);
    }
    lemma_seq_lt_at_irrefl(a, 0);
}

/// Three-way comparison of two names; -1 means the first is smaller.
pub fn str_cmp(a: &str, b: &str) -> (r: i8)
    ensures
        (r == -1) == seq_lt(a@, b@),
        (r == 0) == (a@ == b@),
        (r == 1) == seq_lt(b@, a@),
{
    let a_len = a.unicode_len();
    let b_len = b.unicode_len();
    let n = if a_len < b_len {
        a_len
    } else {
        b_len
    };
    let mut i: usize = 0;
    while i < n
        invariant
            0 <= i <= n,
            a_len == a@.len(),
            b_len == b@.len(),
            n == if a_len < b_len {
                a_len
            } else {
                b_len
            },
            forall|j: int| 0 <= j < i ==> a@[j] == b@[j],
            seq_lt_at(a@, b@, 0) == seq_lt_at(a@, b@, i as int),
            seq_lt_at(b@, a@, 0) == seq_lt_at(b@, a@, i as int),
        decreases n - i,
    {
        let ca = a.get_char(i);
        let cb = b.get_char(i);
        if ca != cb {
            proof {
                lemma_seq_lt_at_antisym(
                    if ca < cb {
                        a@
                    } else {
                        b@
                    },
                    if ca < cb {
                        b@
                    } else {
                        a@
                    },
                    i as int,
                );
                assert(a@ != b@) by {
                    assert(a@[i as int] != b@[i as int]);
                }
            }
            return if ca < cb {
                -1
            } else {
                1
            };
        }
        i += 1;
    }
    if a_len < b_len {
        proof {
            lemma_seq_lt_at_antisym(a@, b@, n as int);
        }
        assert(a@ != b@);
        -1
    } else if b_len < a_len {
        proof {
            lemma_seq_lt_at_antisym(b@, a@, n as int);
        }
        assert(a@ != b@);
        1
    } else {
        assert(a@ =~= b@);
        0
    }
}

/// Rank of a node for the canonical operand order: numeric constants
/// first, then variables, then composite terms.
pub open spec fn rank(t: Term) -> int {
    match t {
        Term::Integer(_) => 0,
        Term::Rational(_, _, _) => 1,
        Term::Variable(_) => 2,
        Term::Sum(_, _) => 3,
        Term::Difference(_, _) => 4,
        Term::Product(_, _) => 5,
        Term::Quotient(_, _) => 6,
        Term::Neg(_) => 7,
        Term::Sqrt(_, _) => 8,
        Term::Power(_, _) => 9,
        Term::Equal(_, _) => 10,
    }
}

/// The stable total order used to arrange commutative operands:
/// by rank, then structurally.
pub open spec fn key_lt(a: Term, b: Term) -> bool
    decreases a,
{
    if rank(a) != rank(b) {
        rank(a) < rank(b)
    } else {
        match (a, b) {
            (Term::Integer(x), Term::Integer(y)) => x < y,
            (Term::Rational(nx, dx, fx), Term::Rational(ny, dy, fy)) => {
                nx < ny || (nx == ny && (dx < dy || (dx == dy && !fx && fy)))
            },
            (Term::Variable(x), Term::Variable(y)) => seq_lt(x, y),
            (Term::Sum(a1, a2), Term::Sum(b1, b2)) => {
                key_lt(*a1, *b1) || (*a1 == *b1 && key_lt(*a2, *b2))
            },
            (Term::Difference(a1, a2), Term::Difference(b1, b2)) => {
                key_lt(*a1, *b1) || (*a1 == *b1 && key_lt(*a2, *b2))
            },
            (Term::Product(a1, a2), Term::Product(b1, b2)) => {
                key_lt(*a1, *b1) || (*a1 == *b1 && key_lt(*a2, *b2))
            },
            (Term::Quotient(a1, a2), Term::Quotient(b1, b2)) => {
                key_lt(*a1, *b1) || (*a1 == *b1 && key_lt(*a2, *b2))
            },
            (Term::Neg(a1), Term::Neg(b1)) => key_lt(*a1, *b1),
            (Term::Sqrt(a1, dx), Term::Sqrt(b1, dy)) => {
                key_lt(*a1, *b1) || (*a1 == *b1 && dx < dy)
            },
            (Term::Power(a1, a2), Term::Power(b1, b2)) => {
                key_lt(*a1, *b1) || (*a1 == *b1 && key_lt(*a2, *b2))
            },
            (Term::Equal(a1, a2), Term::Equal(b1, b2)) => {
                key_lt(*a1, *b1) || (*a1 == *b1 && key_lt(*a2, *b2))
            },
            _ => false,
        }
    }
}

pub proof fn lemma_key_lt_irrefl(a: Term)
    ensures
        !key_lt(a, a),
    decreases a,
{
    match a {
        Term::Variable(x) => {
            lemma_seq_lt_antisym(x, x);
        },
        Term::Sum(a1, a2) => {
            lemma_key_lt_irrefl(*a1);
            lemma_key_lt_irrefl(*a2);
        },
        Term::Difference(a1, a2) => {
            lemma_key_lt_irrefl(*a1);
            lemma_key_lt_irrefl(*a2);
        },
        Term::Product(a1, a2) => {
            lemma_key_lt_irrefl(*a1);
            lemma_key_lt_irrefl(*a2);
        },
        Term::Quotient(a1, a2) => {
            lemma_key_lt_irrefl(*a1);
            lemma_key_lt_irrefl(*a2);
        },
        Term::Neg(a1) => {
            lemma_key_lt_irrefl(*a1);
        },
        Term::Sqrt(a1, _) => {
            lemma_key_lt_irrefl(*a1);
        },
        Term::Power(a1, a2) => {
            lemma_key_lt_irrefl(*a1);
            lemma_key_lt_irrefl(*a2);
        },
        Term::Equal(a1, a2) => {
            lemma_key_lt_irrefl(*a1);
            lemma_key_lt_irrefl(*a2);
        },
        _ => {},
    }
}

pub proof fn lemma_key_lt_antisym(a: Term, b: Term)
    requires
        key_lt(a, b),
    ensures
        !key_lt(b, a),
        a != b,
    decreases a,
{
    lemma_key_lt_irrefl(a);
    if rank(a) == rank(b) {
        match (a, b) {
            (Term::Variable(x), Term::Variable(y)) => {
                lemma_seq_lt_antisym(x, y);
            },
            (Term::Sum(a1, a2), Term::Sum(b1, b2)) => {
                if key_lt(*a1, *b1) {
                    lemma_key_lt_antisym(*a1, *b1);
                } else {
                    lemma_key_lt_antisym(*a2, *b2);
                }
            },
            (Term::Difference(a1, a2), Term::Difference(b1, b2)) => {
                if key_lt(*a1, *b1) {
                    lemma_key_lt_antisym(*a1, *b1);
                } else {
                    lemma_key_lt_antisym(*a2, *b2);
                }
            },
            (Term::Product(a1, a2), Term::Product(b1, b2)) => {
                if key_lt(*a1, *b1) {
                    lemma_key_lt_antisym(*a1, *b1);
                } else {
                    lemma_key_lt_antisym(*a2, *b2);
                }
            },
            (Term::Quotient(a1, a2), Term::Quotient(b1, b2)) => {
                if key_lt(*a1, *b1) {
                    lemma_key_lt_antisym(*a1, *b1);
                } else {
                    lemma_key_lt_antisym(*a2, *b2);
                }
            },
            (Term::Neg(a1), Term::Neg(b1)) => {
                lemma_key_lt_antisym(*a1, *b1);
            },
            (Term::Sqrt(a1, _), Term::Sqrt(b1, _)) => {
                if key_lt(*a1, *b1) {
                    lemma_key_lt_antisym(*a1, *b1);
                }
            },
            (Term::Power(a1, a2), Term::Power(b1, b2)) => {
                if key_lt(*a1, *b1) {
                    lemma_key_lt_antisym(*a1, *b1);
                } else {
                    lemma_key_lt_antisym(*a2, *b2);
                }
            },
            (Term::Equal(a1, a2), Term::Equal(b1, b2)) => {
                if key_lt(*a1, *b1) {
                    lemma_key_lt_antisym(*a1, *b1);
                } else {
                    lemma_key_lt_antisym(*a2, *b2);
                }
            },
            _ => {},
        }
    }
}

fn rank_of(e: &Expression) -> (r: i8)
    ensures
        r == rank(e@),
{
    match e {
        Expression::Integer(_) => 0,
        Expression::Rational(_, _) => 1,
        Expression::Variable(_) => 2,
        Expression::Sum(_, _) => 3,
        Expression::Difference(_, _) => 4,
        Expression::Product(_, _) => 5,
        Expression::Quotient(_, _) => 6,
        Expression::Neg(_) => 7,
        Expression::Sqrt(_, _) => 8,
        Expression::Power(_, _) => 9,
        Expression::Equal(_, _) => 10,
    }
}

/// Three-way comparison under the canonical key; -1 means the first
/// operand sorts earlier.
pub fn term_cmp(a: &Expression, b: &Expression) -> (r: i8)
    ensures
        (r == -1) == key_lt(a@, b@),
        (r == 0) == (a@ == b@),
        (r == 1) == key_lt(b@, a@),
    decreases a,
{
    proof {
        if key_lt(a@, b@) {
            lemma_key_lt_antisym(a@, b@);
        }
        if key_lt(b@, a@) {
            lemma_key_lt_antisym(b@, a@);
        }
        lemma_key_lt_irrefl(a@);
    }
    let ra = rank_of(a);
    let rb = rank_of(b);
    if ra < rb {
        return -1;
    }
    if rb < ra {
        return 1;
    }
    match (a, b) {
        (Expression::Integer(x), Expression::Integer(y)) => {
            if x < y {
                -1
            } else if y < x {
                1
            } else {
                0
            }
        },
        (Expression::Rational(x, fx), Expression::Rational(y, fy)) => {
            if x.num < y.num {
                -1
            } else if y.num < x.num {
                1
            } else if x.den < y.den {
                -1
            } else if y.den < x.den {
                1
            } else if !*fx && *fy {
                -1
            } else if *fx && !*fy {
                1
            } else {
                0
            }
        },
        (Expression::Variable(x), Expression::Variable(y)) => str_cmp(x.as_str(), y.as_str()),
        (Expression::Sum(a1, a2), Expression::Sum(b1, b2)) => {
            let c = term_cmp(a1, b1);
            if c != 0 {
                c
            } else {
                term_cmp(a2, b2)
            }
        },
        (Expression::Difference(a1, a2), Expression::Difference(b1, b2)) => {
            let c = term_cmp(a1, b1);
            if c != 0 {
                c
            } else {
                term_cmp(a2, b2)
            }
        },
        (Expression::Product(a1, a2), Expression::Product(b1, b2)) => {
            let c = term_cmp(a1, b1);
            if c != 0 {
                c
            } else {
                term_cmp(a2, b2)
            }
        },
        (Expression::Quotient(a1, a2), Expression::Quotient(b1, b2)) => {
            let c = term_cmp(a1, b1);
            if c != 0 {
                c
            } else {
                term_cmp(a2, b2)
            }
        },
        (Expression::Neg(a1), Expression::Neg(b1)) => term_cmp(a1, b1),
        (Expression::Sqrt(a1, dx), Expression::Sqrt(b1, dy)) => {
            let c = term_cmp(a1, b1);
            if c != 0 {
                c
            } else if dx < dy {
                -1
            } else if dy < dx {
                1
            } else {
                0
            }
        },
        (Expression::Power(a1, a2), Expression::Power(b1, b2)) => {
            let c = term_cmp(a1, b1);
            if c != 0 {
                c
            } else {
                term_cmp(a2, b2)
            }
        },
        (Expression::Equal(a1, a2), Expression::Equal(b1, b2)) => {
            let c = term_cmp(a1, b1);
            if c != 0 {
                c
            } else {
                term_cmp(a2, b2)
            }
        },
        _ => {
            // unreachable: the ranks are equal, so the variants agree
            proof {
                assert(false);
            }
            0
        },
    }
}

} // verus!
