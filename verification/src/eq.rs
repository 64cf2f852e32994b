use vstd::prelude::*;

verus! {

/// A variable is identified by its name; equal names denote the same
/// unknown everywhere in a tree.
pub type Variable = String;

/// Exact fraction payload of `Expression::Rational`.
#[derive(Debug, Clone, Copy)]
pub struct Ratio {
    pub num: i64,
    pub den: i64,
}

/// An algebraic term or equation: a strict tree, each node owning its
/// operands. `Equal` is only meaningful at the root of a tree handed to
/// the solver.
#[derive(Debug)]
pub enum Expression {
    Variable(Variable),
    Integer(i64),
    /// Exact fraction; the flag selects "shown as fraction" (true) versus
    /// "shown as decimal" (false). The value is the same either way.
    Rational(Ratio, bool),
    Sum(Box<Expression>, Box<Expression>),
    Difference(Box<Expression>, Box<Expression>),
    Product(Box<Expression>, Box<Expression>),
    Quotient(Box<Expression>, Box<Expression>),
    Neg(Box<Expression>),
    /// Root of the operand; the second field is the degree (2 for square root).
    Sqrt(Box<Expression>, u32),
    Power(Box<Expression>, Box<Expression>),
    Equal(Box<Expression>, Box<Expression>),
}

/// The mathematical model of an `Expression`: names are character
/// sequences, numbers are unbounded integers.
pub ghost enum Term {
    Variable(Seq<char>),
    Integer(int),
    Rational(int, int, bool),
    Sum(Box<Term>, Box<Term>),
    Difference(Box<Term>, Box<Term>),
    Product(Box<Term>, Box<Term>),
    Quotient(Box<Term>, Box<Term>),
    Neg(Box<Term>),
    Sqrt(Box<Term>, int),
    Power(Box<Term>, Box<Term>),
    Equal(Box<Term>, Box<Term>),
}

/// The model of an expression tree.
pub open spec fn term_of(e: Expression) -> Term
    decreases e,
{
    match e {
        Expression::Variable(v) => Term::Variable(v@),
        Expression::Integer(i) => Term::Integer(i as int),
        Expression::Rational(r, f) => Term::Rational(r.num as int, r.den as int, f),
        Expression::Sum(a, b) => Term::Sum(Box::new(term_of(*a)), Box::new(term_of(*b))),
        Expression::Difference(a, b) => Term::Difference(
            Box::new(term_of(*a)),
            Box::new(term_of(*b)),
        ),
        Expression::Product(a, b) => Term::Product(Box::new(term_of(*a)), Box::new(term_of(*b))),
        Expression::Quotient(a, b) => Term::Quotient(Box::new(term_of(*a)), Box::new(term_of(*b))),
        Expression::Neg(a) => Term::Neg(Box::new(term_of(*a))),
        Expression::Sqrt(a, d) => Term::Sqrt(Box::new(term_of(*a)), d as int),
        Expression::Power(a, b) => Term::Power(Box::new(term_of(*a)), Box::new(term_of(*b))),
        Expression::Equal(a, b) => Term::Equal(Box::new(term_of(*a)), Box::new(term_of(*b))),
    }
}

impl View for Expression {
    type V = Term;

    open spec fn view(&self) -> Term {
        term_of(*self)
    }
}

impl Expression {
    /// A structural copy of the tree; unlike the derived `Clone`, its
    /// contract states that the model is preserved.
    pub fn duplicate(&self) -> (r: Expression)
        ensures
            r@ == self@,
        decreases self,
    {
        match self {
            Expression::Variable(v) => Expression::Variable(v.clone()),
            Expression::Integer(i) => Expression::Integer(*i),
            Expression::Rational(r, f) => Expression::Rational(*r, *f),
            Expression::Sum(a, b) => Expression::Sum(
                Box::new(a.duplicate()),
                Box::new(b.duplicate()),
            ),
            Expression::Difference(a, b) => Expression::Difference(
                Box::new(a.duplicate()),
                Box::new(b.duplicate()),
            ),
            Expression::Product(a, b) => Expression::Product(
                Box::new(a.duplicate()),
                Box::new(b.duplicate()),
            ),
            Expression::Quotient(a, b) => Expression::Quotient(
                Box::new(a.duplicate()),
                Box::new(b.duplicate()),
            ),
            Expression::Neg(a) => Expression::Neg(Box::new(a.duplicate())),
            Expression::Sqrt(a, d) => Expression::Sqrt(Box::new(a.duplicate()), *d),
            Expression::Power(a, b) => Expression::Power(
                Box::new(a.duplicate()),
                Box::new(b.duplicate()),
            ),
            Expression::Equal(a, b) => Expression::Equal(
                Box::new(a.duplicate()),
                Box::new(b.duplicate()),
            ),
        }
    }

    /// Structural equality on the model: `2+3` and `5` are not equal
    /// unless simplified first.
    pub fn same_shape(&self, other: &Expression) -> (r: bool)
        ensures
            r == (self@ == other@),
        decreases self,
    {
        match (self, other) {
            (Expression::Variable(a), Expression::Variable(b)) => {
                str_eq(a.as_str(), b.as_str())
            },
            (Expression::Integer(a), Expression::Integer(b)) => a == b,
            (Expression::Rational(a, fa), Expression::Rational(b, fb)) => {
                a.num == b.num && a.den == b.den && fa == fb
            },
            (Expression::Sum(a1, a2), Expression::Sum(b1, b2)) => {
                a1.same_shape(b1) && a2.same_shape(b2)
            },
            (Expression::Difference(a1, a2), Expression::Difference(b1, b2)) => {
                a1.same_shape(b1) && a2.same_shape(b2)
            },
            (Expression::Product(a1, a2), Expression::Product(b1, b2)) => {
                a1.same_shape(b1) && a2.same_shape(b2)
            },
            (Expression::Quotient(a1, a2), Expression::Quotient(b1, b2)) => {
                a1.same_shape(b1) && a2.same_shape(b2)
            },
            (Expression::Neg(a1), Expression::Neg(b1)) => a1.same_shape(b1),
            (Expression::Sqrt(a1, da), Expression::Sqrt(b1, db)) => {
                da == db && a1.same_shape(b1)
            },
            (Expression::Power(a1, a2), Expression::Power(b1, b2)) => {
                a1.same_shape(b1) && a2.same_shape(b2)
            },
            (Expression::Equal(a1, a2), Expression::Equal(b1, b2)) => {
                a1.same_shape(b1) && a2.same_shape(b2)
            },
            _ => false,
        }
    }
}

impl Clone for Expression {
    /// A deep copy; the model is preserved.
    fn clone(&self) -> (r: Self)
        ensures
            r@ == self@,
    {
        self.duplicate()
    }
}

/// How often the variable `name` occurs in `t`.
pub open spec fn occurrences(t: Term, name: Seq<char>) -> nat
    decreases t,
{
    match t {
        Term::Variable(v) => if v == name {
            1nat
        } else {
            0nat
        },
        Term::Integer(_) => 0,
        Term::Rational(_, _, _) => 0,
        Term::Sum(a, b) => occurrences(*a, name) + occurrences(*b, name),
        Term::Difference(a, b) => occurrences(*a, name) + occurrences(*b, name),
        Term::Product(a, b) => occurrences(*a, name) + occurrences(*b, name),
        Term::Quotient(a, b) => occurrences(*a, name) + occurrences(*b, name),
        Term::Neg(a) => occurrences(*a, name),
        Term::Sqrt(a, _) => occurrences(*a, name),
        Term::Power(a, b) => occurrences(*a, name) + occurrences(*b, name),
        Term::Equal(a, b) => occurrences(*a, name) + occurrences(*b, name),
    }
}

/// `occurrences` cut off at two: all the solver needs to know is whether
/// a variable is absent, unique, or repeated.
pub open spec fn occurrences_capped(t: Term, name: Seq<char>) -> nat {
    if occurrences(t, name) >= 2 {
        2nat
    } else {
        occurrences(t, name)
    }
}

impl Expression {
    /// Counts the occurrences of the variable `name`, stopping at two:
    /// the result is exact for counts of zero and one, and two stands
    /// for "two or more".
    pub fn count_variable(&self, name: &str) -> (r: usize)
        ensures
            r == occurrences_capped(self@, name@),
        decreases self,
    {
        match self {
            Expression::Variable(v) => {
                if str_eq(v.as_str(), name) {
                    1
                } else {
                    0
                }
            },
            Expression::Integer(_) => 0,
            Expression::Rational(_, _) => 0,
            Expression::Sum(a, b) => cap2(a.count_variable(name) + b.count_variable(name)),
            Expression::Difference(a, b) => cap2(
                a.count_variable(name) + b.count_variable(name),
            ),
            Expression::Product(a, b) => cap2(a.count_variable(name) + b.count_variable(name)),
            Expression::Quotient(a, b) => cap2(a.count_variable(name) + b.count_variable(name)),
            Expression::Neg(a) => a.count_variable(name),
            Expression::Sqrt(a, _) => a.count_variable(name),
            Expression::Power(a, b) => cap2(a.count_variable(name) + b.count_variable(name)),
            Expression::Equal(a, b) => cap2(a.count_variable(name) + b.count_variable(name)),
        }
    }
}

/// Cuts a small count off at two.
fn cap2(n: usize) -> (r: usize)
    requires
        n <= 4,
    ensures
        r == if n >= 2 {
            2usize
        } else {
            n
        },
{
    if n >= 2 {
        2
    } else {
        n
    }
}

/// Character-for-character comparison of two string slices.
pub fn str_eq(a: &str, b: &str) -> (r: bool)
    ensures
        r == (a@ == b@),
{
    let a_len = a.unicode_len();
    let b_len = b.unicode_len();
    if a_len != b_len {
        assert(a@ != b@);
        return false;
    }
    let mut i: usize = 0;
    while i < a_len
        invariant
            i <= a_len,
            a_len == a@.len(),
            b_len == b@.len(),
            a_len == b_len,
            forall|j: int| 0 <= j < i ==> a@[j] == b@[j],
        decreases a_len - i,
    {
        if a.get_char(i) != b.get_char(i) {
            assert(a@ != b@);
            return false;
        }
        i += 1;
    }
    assert(a@ =~= b@);
    true
}


/// A prune-consistent pre-order visit of `t` by the visitor `f`, seen
/// through the visitor's postcondition relation: the visitor was
/// applied to the node with some result, and where that result allows
/// descent, each operand was visited in turn, left to right. The
/// visitor's captured state lies outside the closure value, so the
/// predicate speaks through `call_ensures`.
pub open spec fn walk_visited<F: FnMut(&Expression) -> bool>(f: F, t: &Expression) -> bool
    decreases t,
{
    exists|ret: bool|
        {
            &&& #[trigger] call_ensures(f, (t,), ret)
            &&& (ret ==> match t {
                Expression::Sum(a, b) => walk_visited(f, &**a) && walk_visited(f, &**b),
                Expression::Difference(a, b) => walk_visited(f, &**a) && walk_visited(f, &**b),
                Expression::Product(a, b) => walk_visited(f, &**a) && walk_visited(f, &**b),
                Expression::Quotient(a, b) => walk_visited(f, &**a) && walk_visited(f, &**b),
                Expression::Neg(a) => walk_visited(f, &**a),
                Expression::Sqrt(a, _) => walk_visited(f, &**a),
                Expression::Power(a, b) => walk_visited(f, &**a) && walk_visited(f, &**b),
                Expression::Equal(a, b) => walk_visited(f, &**a) && walk_visited(f, &**b),
                _ => true,
            })
        }
}

impl Expression {
    /// Pre-order traversal, visiting a node before its operands, left
    /// to right. The visitor's return value is a prune signal: `false`
    /// stops the descent into that node's operands, while traversal of
    /// the rest of the tree continues.
    pub fn walk<F: FnMut(&Expression) -> bool>(&self, f: &mut F)
        requires
            forall|e: &Expression| #[trigger] call_requires(*old(f), (e,)),
        ensures
            walk_visited(*old(f), self),
            *final(f) == *old(f),
        decreases self,
    {
        let ghost f0 = *f;
        let descend = f(self);
        proof {
            assert(call_ensures(f0, (self,), descend));
            assert(*f == f0);
        }
        if descend {
            match self {
                Expression::Sum(a, b) => {
                    a.walk(f);
                    b.walk(f);
                    assert(walk_visited(f0, &**a) && walk_visited(f0, &**b));
                },
                Expression::Difference(a, b) => {
                    a.walk(f);
                    b.walk(f);
                    assert(walk_visited(f0, &**a) && walk_visited(f0, &**b));
                },
                Expression::Product(a, b) => {
                    a.walk(f);
                    b.walk(f);
                    assert(walk_visited(f0, &**a) && walk_visited(f0, &**b));
                },
                Expression::Quotient(a, b) => {
                    a.walk(f);
                    b.walk(f);
                    assert(walk_visited(f0, &**a) && walk_visited(f0, &**b));
                },
                Expression::Neg(a) => {
                    a.walk(f);
                    assert(walk_visited(f0, &**a));
                },
                Expression::Sqrt(a, _) => {
                    a.walk(f);
                    assert(walk_visited(f0, &**a));
                },
                Expression::Power(a, b) => {
                    a.walk(f);
                    b.walk(f);
                    assert(walk_visited(f0, &**a) && walk_visited(f0, &**b));
                },
                Expression::Equal(a, b) => {
                    a.walk(f);
                    b.walk(f);
                    assert(walk_visited(f0, &**a) && walk_visited(f0, &**b));
                },
                _ => {},
            }
        }
        proof {
            assert(walk_visited(f0, self));
        }
    }
}

/// The names at the variable leaves of a term, in pre-order, left to
/// right, duplicates included.
pub open spec fn var_seq(t: Term) -> Seq<Seq<char>>
    decreases t,
{
    match t {
        Term::Variable(v) => seq![v],
        Term::Integer(_) => Seq::empty(),
        Term::Rational(_, _, _) => Seq::empty(),
        Term::Sum(a, b) => var_seq(*a) + var_seq(*b),
        Term::Difference(a, b) => var_seq(*a) + var_seq(*b),
        Term::Product(a, b) => var_seq(*a) + var_seq(*b),
        Term::Quotient(a, b) => var_seq(*a) + var_seq(*b),
        Term::Neg(a) => var_seq(*a),
        Term::Sqrt(a, _) => var_seq(*a),
        Term::Power(a, b) => var_seq(*a) + var_seq(*b),
        Term::Equal(a, b) => var_seq(*a) + var_seq(*b),
    }
}

/// Appends each name of `s` to `acc`, in order, unless already present.
pub open spec fn add_names(acc: Seq<Seq<char>>, s: Seq<Seq<char>>) -> Seq<Seq<char>>
    decreases s.len(),
{
    if s.len() == 0 {
        acc
    } else {
        add_names(
            if acc.contains(s[0]) {
                acc
            } else {
                acc.push(s[0])
            },
            s.drop_first(),
        )
    }
}

/// The distinct variable names of a term, in order of first appearance
/// in the pre-order visit.
pub open spec fn distinct_vars(t: Term) -> Seq<Seq<char>> {
    add_names(Seq::empty(), var_seq(t))
}

/// Splitting the name stream splits the deduplication.
proof fn lemma_add_names_concat(acc: Seq<Seq<char>>, s1: Seq<Seq<char>>, s2: Seq<Seq<char>>)
    ensures
        add_names(acc, s1 + s2) == add_names(add_names(acc, s1), s2),
    decreases s1.len(),
{
    if s1.len() == 0 {
        assert(s1 + s2 =~= s2);
    } else {
        assert((s1 + s2).drop_first() =~= s1.drop_first() + s2);
        assert((s1 + s2)[0] == s1[0]);
        let acc2 = if acc.contains(s1[0]) {
            acc
        } else {
            acc.push(s1[0])
        };
        lemma_add_names_concat(acc2, s1.drop_first(), s2);
    }
}

/// Deduplication neither invents nor loses a name.
proof fn lemma_add_names_contains(acc: Seq<Seq<char>>, s: Seq<Seq<char>>, name: Seq<char>)
    ensures
        add_names(acc, s).contains(name) <==> acc.contains(name) || s.contains(name),
    decreases s.len(),
{
    if s.len() == 0 {
        assert(!s.contains(name));
    } else {
        let acc2 = if acc.contains(s[0]) {
            acc
        } else {
            acc.push(s[0])
        };
        lemma_add_names_contains(acc2, s.drop_first(), name);
        assert(acc2.contains(name) <==> acc.contains(name) || s[0] == name) by {
            if !acc.contains(s[0]) {
                assert(acc2 =~= acc.push(s[0]));
                if acc.contains(name) {
                    let j = choose|j: int| 0 <= j < acc.len() && acc[j] == name;
                    assert(acc2[j] == name);
                }
                if acc2.contains(name) && s[0] != name {
                    let j = choose|j: int| 0 <= j < acc2.len() && acc2[j] == name;
                    assert(j < acc.len() && acc[j] == name);
                }
                assert(acc2[acc.len() as int] == s[0]);
            }
        }
        assert(s.contains(name) <==> s[0] == name || s.drop_first().contains(name)) by {
            if s.contains(name) && s[0] != name {
                let j = choose|j: int| 0 <= j < s.len() && s[j] == name;
                assert(s.drop_first()[j - 1] == name);
            }
            if s.drop_first().contains(name) {
                let j = choose|j: int| 0 <= j < s.drop_first().len() && s.drop_first()[j] == name;
                assert(s[j + 1] == name);
            }
        }
    }
}

/// A name occurs in the pre-order name stream exactly when the
/// variable occurs in the term.
proof fn lemma_var_seq_occurrences(t: Term, name: Seq<char>)
    ensures
        var_seq(t).contains(name) <==> occurrences(t, name) >= 1,
    decreases t,
{
    match t {
        Term::Variable(v) => {
            if v == name {
                assert(var_seq(t)[0] == name);
            }
        },
        Term::Integer(_) => {},
        Term::Rational(_, _, _) => {},
        Term::Neg(a) => {
            lemma_var_seq_occurrences(*a, name);
        },
        Term::Sqrt(a, _) => {
            lemma_var_seq_occurrences(*a, name);
        },
        Term::Sum(a, b) => {
            lemma_var_seq_occurrences(*a, name);
            lemma_var_seq_occurrences(*b, name);
            lemma_concat_contains(var_seq(*a), var_seq(*b), name);
        },
        Term::Difference(a, b) => {
            lemma_var_seq_occurrences(*a, name);
            lemma_var_seq_occurrences(*b, name);
            lemma_concat_contains(var_seq(*a), var_seq(*b), name);
        },
        Term::Product(a, b) => {
            lemma_var_seq_occurrences(*a, name);
            lemma_var_seq_occurrences(*b, name);
            lemma_concat_contains(var_seq(*a), var_seq(*b), name);
        },
        Term::Quotient(a, b) => {
            lemma_var_seq_occurrences(*a, name);
            lemma_var_seq_occurrences(*b, name);
            lemma_concat_contains(var_seq(*a), var_seq(*b), name);
        },
        Term::Power(a, b) => {
            lemma_var_seq_occurrences(*a, name);
            lemma_var_seq_occurrences(*b, name);
            lemma_concat_contains(var_seq(*a), var_seq(*b), name);
        },
        Term::Equal(a, b) => {
            lemma_var_seq_occurrences(*a, name);
            lemma_var_seq_occurrences(*b, name);
            lemma_concat_contains(var_seq(*a), var_seq(*b), name);
        },
    }
}

/// Membership in a concatenation comes from one of the sides.
proof fn lemma_concat_contains(va: Seq<Seq<char>>, vb: Seq<Seq<char>>, name: Seq<char>)
    ensures
        (va + vb).contains(name) <==> va.contains(name) || vb.contains(name),
{
    if va.contains(name) {
        let j = choose|j: int| 0 <= j < va.len() && va[j] == name;
        assert((va + vb)[j] == name);
    }
    if vb.contains(name) {
        let j = choose|j: int| 0 <= j < vb.len() && vb[j] == name;
        assert((va + vb)[va.len() + j] == name);
    }
    if (va + vb).contains(name) {
        let j = choose|j: int| 0 <= j < (va + vb).len() && (va + vb)[j] == name;
        if j < va.len() {
            assert(va[j] == name);
        } else {
            assert(vb[j - va.len()] == name);
        }
    }
}

/// The enumeration is sound and complete: a name is listed exactly when
/// the variable occurs in the term.
pub proof fn lemma_distinct_vars_occurrences(t: Term, name: Seq<char>)
    ensures
        distinct_vars(t).contains(name) <==> occurrences(t, name) >= 1,
{
    lemma_add_names_contains(Seq::empty(), var_seq(t), name);
    lemma_var_seq_occurrences(t, name);
}

/// Whether one of the collected names is `v`.
fn contains_name(out: &Vec<String>, v: &str) -> (r: bool)
    ensures
        r == out.deep_view().contains(v@),
{
    let mut i: usize = 0;
    while i < out.len()
        invariant
            0 <= i <= out.len(),
            forall|j: int| 0 <= j < i ==> out.deep_view()[j] != v@,
        decreases out.len() - i,
    {
        if str_eq(out[i].as_str(), v) {
            assert(out.deep_view()[i as int] == v@);
            return true;
        }
        i += 1;
    }
    false
}

/// Collects the distinct variable names of `e` into `out`, in pre-order
/// first-appearance order.
fn collect_vars(e: &Expression, out: &mut Vec<String>)
    ensures
        final(out).deep_view() == add_names(old(out).deep_view(), var_seq(e@)),
    decreases e,
{
    proof {
        reveal_with_fuel(term_of, 2);
    }
    match e {
        Expression::Variable(v) => {
            let ghost acc = out.deep_view();
            if !contains_name(out, v.as_str()) {
                let ghost before = out.deep_view();
                out.push(v.clone());
                proof {
                    assert(out.deep_view() =~= before.push(v@));
                }
            }
            proof {
                assert(var_seq(e@) =~= seq![v@]);
                assert(seq![v@].drop_first() =~= Seq::<Seq<char>>::empty());
                let acc2 = if acc.contains(v@) {
                    acc
                } else {
                    acc.push(v@)
                };
                assert(add_names(acc2, Seq::<Seq<char>>::empty()) == acc2);
                assert(add_names(acc, seq![v@]) == acc2);
                assert(out.deep_view() == acc2);
            }
        },
        Expression::Integer(_) => {
            proof {
                assert(var_seq(e@) =~= Seq::<Seq<char>>::empty());
            }
        },
        Expression::Rational(_, _) => {
            proof {
                assert(var_seq(e@) =~= Seq::<Seq<char>>::empty());
            }
        },
        Expression::Sum(a, b) => {
            collect_vars(a, out);
            collect_vars(b, out);
            proof {
                lemma_add_names_concat(old(out).deep_view(), var_seq((**a)@), var_seq((**b)@));
            }
        },
        Expression::Difference(a, b) => {
            collect_vars(a, out);
            collect_vars(b, out);
            proof {
                lemma_add_names_concat(old(out).deep_view(), var_seq((**a)@), var_seq((**b)@));
            }
        },
        Expression::Product(a, b) => {
            collect_vars(a, out);
            collect_vars(b, out);
            proof {
                lemma_add_names_concat(old(out).deep_view(), var_seq((**a)@), var_seq((**b)@));
            }
        },
        Expression::Quotient(a, b) => {
            collect_vars(a, out);
            collect_vars(b, out);
            proof {
                lemma_add_names_concat(old(out).deep_view(), var_seq((**a)@), var_seq((**b)@));
            }
        },
        Expression::Neg(a) => {
            collect_vars(a, out);
        },
        Expression::Sqrt(a, _) => {
            collect_vars(a, out);
        },
        Expression::Power(a, b) => {
            collect_vars(a, out);
            collect_vars(b, out);
            proof {
                lemma_add_names_concat(old(out).deep_view(), var_seq((**a)@), var_seq((**b)@));
            }
        },
        Expression::Equal(a, b) => {
            collect_vars(a, out);
            collect_vars(b, out);
            proof {
                lemma_add_names_concat(old(out).deep_view(), var_seq((**a)@), var_seq((**b)@));
            }
        },
    }
}

/// `occurrences` cut off at the machine bound, so that a count is
/// representable.
pub open spec fn occ_sat(t: Term, name: Seq<char>) -> nat {
    if occurrences(t, name) > usize::MAX {
        usize::MAX as nat
    } else {
        occurrences(t, name)
    }
}

fn sat_add_usize(a: usize, b: usize) -> (r: usize)
    ensures
        r == if a + b > usize::MAX {
            usize::MAX as int
        } else {
            a + b
        },
{
    if a > usize::MAX - b {
        usize::MAX
    } else {
        a + b
    }
}

/// Counts the occurrences of `name`, sticking at the machine bound.
fn count_occ_sat(e: &Expression, name: &str) -> (r: usize)
    ensures
        r == occ_sat(e@, name@),
    decreases e,
{
    match e {
        Expression::Variable(v) => {
            if str_eq(v.as_str(), name) {
                1
            } else {
                0
            }
        },
        Expression::Integer(_) => 0,
        Expression::Rational(_, _) => 0,
        Expression::Sum(a, b) => sat_add_usize(count_occ_sat(a, name), count_occ_sat(b, name)),
        Expression::Difference(a, b) => sat_add_usize(
            count_occ_sat(a, name),
            count_occ_sat(b, name),
        ),
        Expression::Product(a, b) => sat_add_usize(count_occ_sat(a, name), count_occ_sat(b, name)),
        Expression::Quotient(a, b) => sat_add_usize(count_occ_sat(a, name), count_occ_sat(b, name)),
        Expression::Neg(a) => count_occ_sat(a, name),
        Expression::Sqrt(a, _) => count_occ_sat(a, name),
        Expression::Power(a, b) => sat_add_usize(count_occ_sat(a, name), count_occ_sat(b, name)),
        Expression::Equal(a, b) => sat_add_usize(count_occ_sat(a, name), count_occ_sat(b, name)),
    }
}

impl Expression {
    /// The distinct variables of the tree with their occurrence counts,
    /// in deterministic left-to-right, depth-first order of first
    /// appearance; a count sticks at the machine bound.
    /// `lemma_distinct_vars_occurrences` shows a name is listed exactly
    /// when the variable occurs in the tree.
    pub fn variable_counts(&self) -> (r: Vec<(String, usize)>)
        ensures
            r@.len() == distinct_vars(self@).len(),
            forall|i: int|
                0 <= i < r@.len() ==> (#[trigger] r@[i]).0@ == distinct_vars(self@)[i] && r@[i].1
                    == occ_sat(self@, distinct_vars(self@)[i]),
    {
        let mut names: Vec<String> = Vec::new();
        proof {
            assert(names.deep_view() =~= Seq::<Seq<char>>::empty());
        }
        collect_vars(self, &mut names);
        proof {
            assert(names.deep_view() =~= distinct_vars(self@));
        }
        let mut out: Vec<(String, usize)> = Vec::new();
        let mut i: usize = 0;
        while i < names.len()
            invariant
                0 <= i <= names.len(),
                names.deep_view() == distinct_vars(self@),
                names.deep_view().len() == names.len(),
                out@.len() == i,
                forall|j: int|
                    0 <= j < i ==> (#[trigger] out@[j]).0@ == distinct_vars(self@)[j] && out@[j].1
                        == occ_sat(self@, distinct_vars(self@)[j]),
            decreases names.len() - i,
        {
            let c = count_occ_sat(self, names[i].as_str());
            out.push((names[i].clone(), c));
            i += 1;
        }
        out
    }
}

} // verus!
