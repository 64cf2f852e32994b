use eqlauncher::eq::{Expression, Ratio};
use eqlauncher::parse::ParseError;
use eqlauncher::solve::SolveError;

fn parse_ok(s: &str) -> Expression {
    Expression::parse(s, true).expect("parse should succeed")
}

fn simplified(e: &Expression) -> Expression {
    let mut c = e.clone();
    c.simplify();
    c
}

#[test]
fn parse_and_fold_constants() {
    let e = parse_ok("2+3*4");
    let s = simplified(&e);
    assert!(matches!(s, Expression::Integer(14)));
}

#[test]
fn decimal_literal_is_reduced_rational() {
    let e = parse_ok("0.5");
    assert!(matches!(e, Expression::Rational(Ratio { num: 1, den: 2 }, false)));
    let s = simplified(&e);
    assert!(s.same_shape(&e));
    assert_eq!(s.to_display_string(), "0.5");
}

#[test]
fn like_terms_combine() {
    let a = simplified(&parse_ok("x+x"));
    let b = simplified(&parse_ok("2x"));
    assert!(a.same_shape(&b));
}

#[test]
fn fraction_literal() {
    let e = parse_ok("3/4");
    assert!(matches!(e, Expression::Rational(Ratio { num: 3, den: 4 }, true)));
    assert_eq!(e.to_display_string(), "3/4");
}

#[test]
fn rational_reduction() {
    let s = simplified(&parse_ok("2/4"));
    assert!(matches!(s, Expression::Rational(Ratio { num: 1, den: 2 }, true)));
    let w = simplified(&parse_ok("8/4"));
    assert!(matches!(w, Expression::Integer(2)));
}

#[test]
fn identity_elimination() {
    assert!(simplified(&parse_ok("x+0")).same_shape(&parse_ok("x")));
    assert!(simplified(&parse_ok("x*1")).same_shape(&parse_ok("x")));
    assert!(matches!(simplified(&parse_ok("x*0")), Expression::Integer(0)));
    assert!(simplified(&parse_ok("x/1")).same_shape(&parse_ok("x")));
    assert!(simplified(&parse_ok("x-0")).same_shape(&parse_ok("x")));
    let neg = simplified(&parse_ok("0-x"));
    assert!(matches!(&neg, Expression::Neg(_)));
    assert!(simplified(&parse_ok("0-(0-x)")).same_shape(&parse_ok("x")));
}

#[test]
fn squares_combine() {
    let a = simplified(&parse_ok("x*x"));
    let b = simplified(&parse_ok("x^2"));
    assert!(a.same_shape(&b));
}

#[test]
fn canonical_ordering_of_commutative_operands() {
    let a = simplified(&parse_ok("x + 1"));
    let b = simplified(&parse_ok("1 + x"));
    assert!(a.same_shape(&b));
    let c = simplified(&parse_ok("y*x"));
    let d = simplified(&parse_ok("x*y"));
    assert!(c.same_shape(&d));
}

#[test]
fn simplify_is_idempotent_on_samples() {
    for text in [
        "2+3*4",
        "x+x",
        "0.5",
        "3x - x",
        "x*x*x",
        "1/3 + 1/6",
        "sqrt(x+1) * sqrt(x+1)",
        "-(-(x))",
        "y = 2x+3",
        "x^2 / x^2",
        "0-x",
        "10/4",
    ] {
        let e = parse_ok(text);
        let once = simplified(&e);
        let twice = simplified(&once);
        assert!(once.same_shape(&twice), "not idempotent on {}", text);
    }
}

#[test]
fn display_round_trip_on_samples() {
    for text in [
        "2+3*4",
        "x + x",
        "(x+1)/(y-2)",
        "sqrt(x+1)",
        "-x^2",
        "2x + 3",
        "y = 2x+3",
        "1/2 + 1/3",
        "0.25 * 4",
        "x - (y - z)",
        "x^y^z",
    ] {
        let e = parse_ok(text);
        let shown = e.to_display_string();
        let back = Expression::parse(&shown, true)
            .unwrap_or_else(|err| panic!("reparse of {:?} failed at {}", shown, err.position));
        let a = simplified(&back);
        let b = simplified(&e);
        assert!(a.same_shape(&b), "round trip changed {} (shown {})", text, shown);
    }
}

#[test]
fn make_subject_linear() {
    let e = parse_ok("y = 2x+3");
    let x = Expression::Variable("x".to_owned());
    let solved = e.make_subject(&x).expect("solvable");
    let expected = parse_ok("x = (y-3)/2");
    assert!(solved.same_shape(&simplified(&expected)));
}

#[test]
fn make_subject_square() {
    let e = parse_ok("a^2 = b");
    let a = Expression::Variable("a".to_owned());
    let solved = e.make_subject(&a).expect("solvable");
    match &solved {
        Expression::Equal(lhs, rhs) => {
            assert!(lhs.same_shape(&a));
            assert!(matches!(&**rhs, Expression::Sqrt(_, 2)));
        },
        _ => panic!("expected an equation"),
    }
}

#[test]
fn make_subject_multiple_occurrences() {
    let e = parse_ok("x+y=x+z");
    let x = Expression::Variable("x".to_owned());
    assert!(matches!(e.make_subject(&x), Err(SolveError::MultipleOccurrences)));
}

#[test]
fn make_subject_not_present() {
    let e = parse_ok("y = 2x+3");
    let q = Expression::Variable("q".to_owned());
    assert!(matches!(e.make_subject(&q), Err(SolveError::NotPresent)));
}

#[test]
fn make_subject_unsupported_exponent() {
    let e = parse_ok("2^x = 8");
    let x = Expression::Variable("x".to_owned());
    assert!(matches!(e.make_subject(&x), Err(SolveError::Unsupported)));
}

#[test]
fn make_subject_substitution_check() {
    // solving y = 2x + 3 for x and substituting y = 9 gives x = 3
    let e = parse_ok("y = 2x+3");
    let x = Expression::Variable("x".to_owned());
    let solved = e.make_subject(&x).expect("solvable");
    match solved {
        Expression::Equal(_, rhs) => {
            let shown = rhs.to_display_string();
            let with_value = shown.replace('y', "9");
            let val = simplified(&parse_ok(&with_value));
            assert!(matches!(val, Expression::Integer(3)));
        },
        _ => panic!("expected an equation"),
    }
}

#[test]
fn parse_errors_carry_positions() {
    assert!(matches!(Expression::parse("2+", true), Err(ParseError { position: 2 })));
    assert!(Expression::parse("(x", true).is_err());
    assert!(Expression::parse("", true).is_err());
    assert!(Expression::parse("$", true).is_err());
}

#[test]
fn strict_mode_rejects_trailing_input() {
    assert!(Expression::parse("2 3", true).is_err());
    let lax = Expression::parse("2 3", false).expect("prefix parses");
    assert!(matches!(lax, Expression::Integer(2)));
}

#[test]
fn implicit_multiplication() {
    let a = simplified(&parse_ok("2x"));
    let b = simplified(&parse_ok("2*x"));
    assert!(a.same_shape(&b));
    let c = simplified(&parse_ok("3(x+1)"));
    let d = simplified(&parse_ok("3*(x+1)"));
    assert!(c.same_shape(&d));
}

#[test]
fn power_is_right_associative() {
    let e = parse_ok("x^y^z");
    match &e {
        Expression::Power(_, rhs) => assert!(matches!(&**rhs, Expression::Power(_, _))),
        _ => panic!("expected a power"),
    }
}

#[test]
fn unary_minus_binds_looser_than_power() {
    let e = parse_ok("-x^2");
    assert!(matches!(&e, Expression::Neg(_)));
}

#[test]
fn variable_enumeration_first_visit_order() {
    let e = parse_ok("y + 2x*y - sqrt(z)");
    let vars = e.variable_counts();
    assert_eq!(
        vars,
        vec![("y".to_owned(), 2), ("x".to_owned(), 1), ("z".to_owned(), 1)],
    );
    assert!(parse_ok("2+3").variable_counts().is_empty());
}

#[test]
fn zero_denominator_literal_is_rejected() {
    assert!(matches!(Expression::parse("1/0", true), Err(ParseError { position: 2 })));
    // a zero divisor in an expression still parses; only the literal is refused
    assert!(Expression::parse("x/0", true).is_ok());
    assert!(Expression::parse("1 / 0", true).is_ok());
}

#[test]
fn count_variable_counts() {
    let e = parse_ok("x + y*x - sqrt(x)");
    assert_eq!(e.count_variable("x"), 2);  // counting stops at two
    assert_eq!(e.count_variable("y"), 1);
    assert_eq!(e.count_variable("z"), 0);
}

#[test]
fn walk_visits_pre_order_and_prunes() {
    let e = parse_ok("x + y*z");
    let mut names = Vec::new();
    e.walk(&mut |n: &Expression| {
        if let Expression::Variable(v) = n {
            names.push(v.clone());
        }
        true
    });
    assert_eq!(names, vec!["x".to_owned(), "y".to_owned(), "z".to_owned()]);

    // pruning at the product keeps its operands unvisited
    let mut seen = 0usize;
    e.walk(&mut |n: &Expression| {
        seen += 1;
        !matches!(n, Expression::Product(_, _))
    });
    assert_eq!(seen, 3);  // the sum, the variable x, the product
}

#[test]
fn display_uses_minimal_parentheses() {
    assert_eq!(parse_ok("2+3*4").to_display_string(), "2 + 3 * 4");
    assert_eq!(parse_ok("(2+3)*4").to_display_string(), "(2 + 3) * 4");
    assert_eq!(parse_ok("x - (y - z)").to_display_string(), "x - (y - z)");
    assert_eq!(parse_ok("sqrt(x+1)").to_display_string(), "sqrt(x + 1)");
}

#[test]
fn negative_integer_display() {
    let s = simplified(&parse_ok("2 - 5"));
    assert!(matches!(s, Expression::Integer(-3)));
    assert_eq!(s.to_display_string(), "-3");
}

#[test]
fn decimal_display_of_folded_values() {
    let s = simplified(&parse_ok("0.5 + 0.25"));
    assert!(matches!(s, Expression::Rational(Ratio { num: 3, den: 4 }, false)));
    assert_eq!(s.to_display_string(), "0.75");
}
