use eqlauncher::eq::Expression;
use eqlauncher::eqwidget::{DrawCmd, ExpKind, ExpressionWidget, FontMetrics, SizedExpression};

const CELL: FontMetrics = FontMetrics { char_w: 1, char_h: 1 };

fn parse_ok(s: &str) -> Expression {
    Expression::parse(s, true).expect("parse should succeed")
}

#[test]
fn leaf_box_is_text_size() {
    let sized = SizedExpression::layout(&CELL, &parse_ok("42"));
    assert_eq!(sized.dims(), (2, 1));
}

#[test]
fn coefficient_and_variable_form_one_run() {
    let w = ExpressionWidget::from_expression(&parse_ok("2x"));
    assert_eq!(w.kind, ExpKind::Value);
    assert_eq!(w.text.as_deref(), Some("2x"));
}

#[test]
fn quotient_stacks_operands() {
    // x over 2: as wide as the wider operand, bar row between
    let sized = SizedExpression::layout(&CELL, &parse_ok("x/2"));
    assert_eq!(sized.dims(), (1, 3));
    let sized2 = SizedExpression::layout(&CELL, &parse_ok("(x+1)/2"));
    assert_eq!(sized2.dims(), (5, 3));
}

#[test]
fn binary_operator_sits_between_operands() {
    let sized = SizedExpression::layout(&CELL, &parse_ok("x+2"));
    // 1 + 1 + the three-cell operator run
    assert_eq!(sized.dims(), (5, 1));
}

#[test]
fn sqrt_adds_margin() {
    let sized = SizedExpression::layout(&CELL, &parse_ok("sqrt(x)"));
    assert_eq!(sized.dims(), (3, 2));
}

#[test]
fn power_raises_exponent() {
    let sized = SizedExpression::layout(&CELL, &parse_ok("x^2"));
    assert_eq!(sized.dims(), (2, 2));
}

#[test]
fn composite_box_contains_operand_boxes() {
    // every node's box is at least as large as each operand's box
    for text in ["x/2", "(x+1)/(y+2)", "sqrt(x^2 + y^2)", "a*b + c/d", "-x^y"] {
        let e = parse_ok(text);
        let (w, h) = SizedExpression::layout(&CELL, &e).dims();
        e.walk(&mut |sub: &Expression| {
            let (sw, sh) = SizedExpression::layout(&CELL, sub).dims();
            assert!(sw <= w && sh <= h, "sub-box larger than the whole in {}", text);
            true
        });
    }
}

#[test]
fn quotient_draw_list_places_bar() {
    let sized = SizedExpression::layout(&CELL, &parse_ok("x/2"));
    let cmds = sized.draw_list();
    let mut bar = None;
    let mut texts = Vec::new();
    for c in &cmds {
        match c {
            DrawCmd::HLine { x, y, w } => bar = Some((*x, *y, *w)),
            DrawCmd::Text { x, y, s } => texts.push((*x, *y, s.clone())),
            _ => {},
        }
    }
    assert_eq!(bar, Some((0, 1, 1)));
    assert!(texts.contains(&(0, 0, "x".to_owned())));
    assert!(texts.contains(&(0, 2, "2".to_owned())));
}

#[test]
fn product_uses_multiplication_dot() {
    let sized = SizedExpression::layout(&CELL, &parse_ok("x*y"));
    let cmds = sized.draw_list();
    let dot_run = format!(" {} ", '\u{00b7}');
    let found = cmds.iter().any(|c| matches!(c, DrawCmd::Text { s, .. } if *s == dot_run));
    assert!(found, "multiplication dot missing from {:?}", cmds);
}

#[test]
fn operator_run_is_drawn() {
    let sized = SizedExpression::layout(&CELL, &parse_ok("x+2"));
    let cmds = sized.draw_list();
    let found = cmds.iter().any(|c| matches!(c, DrawCmd::Text { x: 1, y: 0, s } if s == " + "));
    assert!(found, "operator run missing from {:?}", cmds);
}

#[test]
fn wider_cells_scale_boxes() {
    let wide = FontMetrics { char_w: 8, char_h: 16 };
    let sized = SizedExpression::layout(&wide, &parse_ok("42"));
    assert_eq!(sized.dims(), (16, 16));
}
