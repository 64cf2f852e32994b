use vstd::prelude::*;
use vstd::assert_seqs_equal;
use crate::eq::{Expression, Term, term_of};
use crate::display::{disp, int_str, int_i64};

verus! {

/// Shape of a typeset node: a textual run, a binary operator (with the
/// operator character; '/' stacks its operands), a negation, a radical,
/// or a raised exponent.
#[derive(Default, Debug, Clone, PartialEq, Eq)]
pub enum ExpKind {
    #[default]
    Value,
    BasicOp(char),
    Neg,
    Sqrt,
    Power,
}

/// A node of the typeset tree, before sizes are known.
#[derive(Debug)]
pub struct ExpressionWidget {
    pub kind: ExpKind,
    pub op1: Option<Box<ExpressionWidget>>,
    pub op2: Option<Box<ExpressionWidget>>,
    pub text: Option<String>,
}

/// The model of a widget tree.
pub ghost struct WNode {
    pub kind: ExpKind,
    pub text: Option<Seq<char>>,
    pub op1: Option<Box<WNode>>,
    pub op2: Option<Box<WNode>>,
}

pub open spec fn wnode_of(w: ExpressionWidget) -> WNode
    decreases w,
{
    WNode {
        kind: w.kind,
        text: match w.text {
            Some(s) => Some(s@),
            None => None,
        },
        op1: match w.op1 {
            Some(b) => Some(Box::new(wnode_of(*b))),
            None => None,
        },
        op2: match w.op2 {
            Some(b) => Some(Box::new(wnode_of(*b))),
            None => None,
        },
    }
}

impl View for ExpressionWidget {
    type V = WNode;

    open spec fn view(&self) -> WNode {
        wnode_of(*self)
    }
}

pub open spec fn wleaf(text: Seq<char>) -> WNode {
    WNode { kind: ExpKind::Value, text: Some(text), op1: None, op2: None }
}

pub open spec fn wbin(kind: ExpKind, a: WNode, b: WNode) -> WNode {
    WNode { kind: kind, text: None, op1: Some(Box::new(a)), op2: Some(Box::new(b)) }
}

pub open spec fn wun(kind: ExpKind, a: WNode) -> WNode {
    WNode { kind: kind, text: None, op1: Some(Box::new(a)), op2: None }
}

pub open spec fn num_of(t: Term) -> int {
    match t {
        Term::Integer(i) => i,
        _ => 0,
    }
}

pub open spec fn name_of(t: Term) -> Seq<char> {
    match t {
        Term::Variable(n) => n,
        _ => Seq::empty(),
    }
}

/// The typeset tree of a term: leaves carry their textual rendering,
/// with a whole-number coefficient and its variable shown as one run.
pub open spec fn widget_of(t: Term) -> WNode
    decreases t,
{
    match t {
        Term::Variable(n) => wleaf(n),
        Term::Integer(_) => wleaf(disp(t)),
        Term::Rational(_, _, _) => wleaf(disp(t)),
        Term::Equal(a, b) => wbin(ExpKind::BasicOp('='), widget_of(*a), widget_of(*b)),
        Term::Sum(a, b) => wbin(ExpKind::BasicOp('+'), widget_of(*a), widget_of(*b)),
        Term::Difference(a, b) => wbin(ExpKind::BasicOp('-'), widget_of(*a), widget_of(*b)),
        Term::Product(a, b) => {
            if (*a matches Term::Integer(_)) && (*b matches Term::Variable(_)) {
                wleaf(int_str(num_of(*a)) + name_of(*b))
            } else {
                wbin(ExpKind::BasicOp('\u{00b7}'), widget_of(*a), widget_of(*b))
            }
        },
        Term::Quotient(a, b) => wbin(ExpKind::BasicOp('/'), widget_of(*a), widget_of(*b)),
        Term::Neg(a) => wun(ExpKind::Neg, widget_of(*a)),
        Term::Sqrt(a, _) => wun(ExpKind::Sqrt, widget_of(*a)),
        Term::Power(a, b) => wbin(ExpKind::Power, widget_of(*a), widget_of(*b)),
    }
}

/// Character-cell metrics of the drawing surface.
#[derive(Debug, Clone, Copy)]
pub struct FontMetrics {
    pub char_w: u64,
    pub char_h: u64,
}

/// Saturating sum, so that a pathologically large tree degrades to a
/// clamped size instead of wrapping.
pub open spec fn sadd(a: int, b: int) -> int {
    if a + b > 0xffff_ffff_ffff_ffff {
        0xffff_ffff_ffff_ffff
    } else {
        a + b
    }
}

pub open spec fn smul(a: int, b: int) -> int {
    if a * b > 0xffff_ffff_ffff_ffff {
        0xffff_ffff_ffff_ffff
    } else {
        a * b
    }
}

pub open spec fn smax(a: int, b: int) -> int {
    if a >= b {
        a
    } else {
        b
    }
}

fn sat_add(a: u64, b: u64) -> (r: u64)
    ensures
        r == sadd(a as int, b as int),
{
    if a > u64::MAX - b {
        u64::MAX
    } else {
        a + b
    }
}

fn sat_mul(a: u64, b: u64) -> (r: u64)
    ensures
        r == smul(a as int, b as int),
{
    proof {
        assert((a as int) * (b as int) <= 0xffff_ffff_ffff_ffff * 0xffff_ffff_ffff_ffff)
            by (nonlinear_arith)
            requires
                0 <= a <= 0xffff_ffff_ffff_ffff,
                0 <= b <= 0xffff_ffff_ffff_ffff,
        ;
    }
    let p = (a as u128) * (b as u128);
    if p > u64::MAX as u128 {
        u64::MAX
    } else {
        p as u64
    }
}

fn max64(a: u64, b: u64) -> (r: u64)
    ensures
        r == smax(a as int, b as int),
{
    if a >= b {
        a
    } else {
        b
    }
}

/// A typeset node with its measured box.
#[derive(Debug)]
pub struct SizedNode {
    pub kind: ExpKind,
    pub text: Option<String>,
    pub w: u64,
    pub h: u64,
    pub op1: Option<Box<SizedNode>>,
    pub op2: Option<Box<SizedNode>>,
}

pub ghost struct SNode {
    pub kind: ExpKind,
    pub text: Option<Seq<char>>,
    pub w: int,
    pub h: int,
    pub op1: Option<Box<SNode>>,
    pub op2: Option<Box<SNode>>,
}

pub open spec fn snode_of(n: SizedNode) -> SNode
    decreases n,
{
    SNode {
        kind: n.kind,
        text: match n.text {
            Some(s) => Some(s@),
            None => None,
        },
        w: n.w as int,
        h: n.h as int,
        op1: match n.op1 {
            Some(b) => Some(Box::new(snode_of(*b))),
            None => None,
        },
        op2: match n.op2 {
            Some(b) => Some(Box::new(snode_of(*b))),
            None => None,
        },
    }
}

impl View for SizedNode {
    type V = SNode;

    open spec fn view(&self) -> SNode {
        snode_of(*self)
    }
}

pub open spec fn stext(t: Option<Seq<char>>) -> Seq<char> {
    match t {
        Some(s) => s,
        None => Seq::empty(),
    }
}

pub open spec fn sleaf() -> SNode {
    SNode { kind: ExpKind::Value, text: None, w: 0, h: 0, op1: None, op2: None }
}

/// The measurement pass: the box of each node, computed bottom-up from
/// the boxes of its operands.
///
/// A stacked quotient is as wide as its wider operand and as tall as
/// both plus the bar row; other binary operators sit side by side with
/// a three-character operator run between them; a radical adds a column
/// pair on the left and the overline row on top; an exponent sits
/// raised one row beside its base.
pub open spec fn sized_of(t: WNode, cw: int, ch: int) -> SNode
    decreases t,
{
    match t.kind {
        ExpKind::Value => SNode {
            kind: t.kind,
            text: Some(stext(t.text)),
            w: smul(stext(t.text).len() as int, cw),
            h: ch,
            op1: None,
            op2: None,
        },
        ExpKind::BasicOp(c) => {
            match (t.op1, t.op2) {
                (Some(ba), Some(bb)) => {
                    let a = sized_of(*ba, cw, ch);
                    let b = sized_of(*bb, cw, ch);
                    if c == '/' {
                        SNode {
                            kind: t.kind,
                            text: None,
                            w: smax(a.w, b.w),
                            h: sadd(sadd(a.h, b.h), ch),
                            op1: Some(Box::new(a)),
                            op2: Some(Box::new(b)),
                        }
                    } else {
                        SNode {
                            kind: t.kind,
                            text: None,
                            w: sadd(sadd(a.w, b.w), smul(3, cw)),
                            h: smax(smax(a.h, b.h), ch),
                            op1: Some(Box::new(a)),
                            op2: Some(Box::new(b)),
                        }
                    }
                },
                _ => sleaf(),
            }
        },
        ExpKind::Neg => {
            match t.op1 {
                Some(ba) => {
                    let a = sized_of(*ba, cw, ch);
                    SNode {
                        kind: t.kind,
                        text: None,
                        w: sadd(a.w, cw),
                        h: smax(a.h, ch),
                        op1: Some(Box::new(a)),
                        op2: None,
                    }
                },
                None => sleaf(),
            }
        },
        ExpKind::Sqrt => {
            match t.op1 {
                Some(ba) => {
                    let a = sized_of(*ba, cw, ch);
                    SNode {
                        kind: t.kind,
                        text: None,
                        w: sadd(a.w, smul(2, cw)),
                        h: sadd(a.h, ch),
                        op1: Some(Box::new(a)),
                        op2: None,
                    }
                },
                None => sleaf(),
            }
        },
        ExpKind::Power => {
            match (t.op1, t.op2) {
                (Some(ba), Some(bb)) => {
                    let a = sized_of(*ba, cw, ch);
                    let b = sized_of(*bb, cw, ch);
                    SNode {
                        kind: t.kind,
                        text: None,
                        w: sadd(a.w, b.w),
                        h: smax(a.h, sadd(b.h, ch)),
                        op1: Some(Box::new(a)),
                        op2: Some(Box::new(b)),
                    }
                },
                _ => sleaf(),
            }
        },
    }
}

/// Whether `d` is `t` itself or stands anywhere below it.
pub open spec fn in_tree(d: SNode, t: SNode) -> bool
    decreases t,
{
    d == t || (t.op1 matches Some(b) && in_tree(d, *b)) || (t.op2 matches Some(b) && in_tree(
        d,
        *b,
    ))
}

/// Measured boxes stay within the clamped machine range.
pub proof fn lemma_sized_bounds(t: WNode, cw: int, ch: int)
    requires
        cw >= 0,
        0 <= ch <= 0xffff_ffff_ffff_ffff,
    ensures
        0 <= sized_of(t, cw, ch).w <= 0xffff_ffff_ffff_ffff,
        0 <= sized_of(t, cw, ch).h <= 0xffff_ffff_ffff_ffff,
    decreases t,
{
    match t.kind {
        ExpKind::Value => {
            assert(smul(stext(t.text).len() as int, cw) >= 0) by (nonlinear_arith)
                requires
                    cw >= 0,
            ;
        },
        ExpKind::BasicOp(c) => {
            match (t.op1, t.op2) {
                (Some(ba), Some(bb)) => {
                    lemma_sized_bounds(*ba, cw, ch);
                    lemma_sized_bounds(*bb, cw, ch);
                },
                _ => {},
            }
        },
        ExpKind::Neg => {
            match t.op1 {
                Some(ba) => {
                    lemma_sized_bounds(*ba, cw, ch);
                },
                None => {},
            }
        },
        ExpKind::Sqrt => {
            match t.op1 {
                Some(ba) => {
                    lemma_sized_bounds(*ba, cw, ch);
                },
                None => {},
            }
        },
        ExpKind::Power => {
            match (t.op1, t.op2) {
                (Some(ba), Some(bb)) => {
                    lemma_sized_bounds(*ba, cw, ch);
                    lemma_sized_bounds(*bb, cw, ch);
                },
                _ => {},
            }
        },
    }
}

/// The box of a node computed by the measurement pass is never smaller,
/// in either axis, than the box of any of its descendants.
pub proof fn lemma_layout_consistent(d: SNode, t: WNode, cw: int, ch: int)
    requires
        cw >= 0,
        0 <= ch <= 0xffff_ffff_ffff_ffff,
        in_tree(d, sized_of(t, cw, ch)),
    ensures
        d.w <= sized_of(t, cw, ch).w,
        d.h <= sized_of(t, cw, ch).h,
    decreases t,
{
    let s = sized_of(t, cw, ch);
    if d == s {
    } else {
        match t.kind {
            ExpKind::Value => {},
            ExpKind::BasicOp(c) => {
                match (t.op1, t.op2) {
                    (Some(ba), Some(bb)) => {
                        lemma_sized_bounds(*ba, cw, ch);
                        lemma_sized_bounds(*bb, cw, ch);
                        if in_tree(d, sized_of(*ba, cw, ch)) {
                            lemma_layout_consistent(d, *ba, cw, ch);
                        } else {
                            lemma_layout_consistent(d, *bb, cw, ch);
                        }
                    },
                    _ => {},
                }
            },
            ExpKind::Neg => {
                match t.op1 {
                    Some(ba) => {
                        lemma_sized_bounds(*ba, cw, ch);
                        lemma_layout_consistent(d, *ba, cw, ch);
                    },
                    None => {},
                }
            },
            ExpKind::Sqrt => {
                match t.op1 {
                    Some(ba) => {
                        lemma_sized_bounds(*ba, cw, ch);
                        lemma_layout_consistent(d, *ba, cw, ch);
                    },
                    None => {},
                }
            },
            ExpKind::Power => {
                match (t.op1, t.op2) {
                    (Some(ba), Some(bb)) => {
                        lemma_sized_bounds(*ba, cw, ch);
                        lemma_sized_bounds(*bb, cw, ch);
                        if in_tree(d, sized_of(*ba, cw, ch)) {
                            lemma_layout_consistent(d, *ba, cw, ch);
                        } else {
                            lemma_layout_consistent(d, *bb, cw, ch);
                        }
                    },
                    _ => {},
                }
            },
        }
    }
}

/// The boxes recorded in a measured tree follow the measurement rules.
pub open spec fn wf_sized(t: SNode, cw: int, ch: int) -> bool
    decreases t,
{
    match t.kind {
        ExpKind::Value => t.w == smul(stext(t.text).len() as int, cw) && t.h == ch,
        ExpKind::BasicOp(c) => {
            match (t.op1, t.op2) {
                (Some(ba), Some(bb)) => {
                    &&& wf_sized(*ba, cw, ch)
                    &&& wf_sized(*bb, cw, ch)
                    &&& if c == '/' {
                        t.w == smax(ba.w, bb.w) && t.h == sadd(sadd(ba.h, bb.h), ch)
                    } else {
                        t.w == sadd(sadd(ba.w, bb.w), smul(3, cw)) && t.h == smax(
                            smax(ba.h, bb.h),
                            ch,
                        )
                    }
                },
                _ => false,
            }
        },
        ExpKind::Neg => {
            match t.op1 {
                Some(ba) => wf_sized(*ba, cw, ch) && t.w == sadd(ba.w, cw) && t.h == smax(ba.h, ch),
                None => false,
            }
        },
        ExpKind::Sqrt => {
            match t.op1 {
                Some(ba) => wf_sized(*ba, cw, ch) && t.w == sadd(ba.w, smul(2, cw)) && t.h == sadd(
                    ba.h,
                    ch,
                ),
                None => false,
            }
        },
        ExpKind::Power => {
            match (t.op1, t.op2) {
                (Some(ba), Some(bb)) => {
                    &&& wf_sized(*ba, cw, ch)
                    &&& wf_sized(*bb, cw, ch)
                    &&& t.w == sadd(ba.w, bb.w)
                    &&& t.h == smax(ba.h, sadd(bb.h, ch))
                },
                _ => false,
            }
        },
    }
}

/// A widget tree whose composite nodes all have their operands.
pub open spec fn wf_widget(t: WNode) -> bool
    decreases t,
{
    match t.kind {
        ExpKind::Value => true,
        ExpKind::BasicOp(_) => (t.op1 matches Some(a) && wf_widget(*a)) && (t.op2 matches Some(b)
            && wf_widget(*b)),
        ExpKind::Neg => t.op1 matches Some(a) && wf_widget(*a),
        ExpKind::Sqrt => t.op1 matches Some(a) && wf_widget(*a),
        ExpKind::Power => (t.op1 matches Some(a) && wf_widget(*a)) && (t.op2 matches Some(b)
            && wf_widget(*b)),
    }
}

/// The typeset tree of any term has all its operands.
pub proof fn lemma_widget_wf(t: Term)
    ensures
        wf_widget(widget_of(t)),
    decreases t,
{
    match t {
        Term::Sum(a, b) => {
            lemma_widget_wf(*a);
            lemma_widget_wf(*b);
        },
        Term::Difference(a, b) => {
            lemma_widget_wf(*a);
            lemma_widget_wf(*b);
        },
        Term::Product(a, b) => {
            lemma_widget_wf(*a);
            lemma_widget_wf(*b);
        },
        Term::Quotient(a, b) => {
            lemma_widget_wf(*a);
            lemma_widget_wf(*b);
        },
        Term::Neg(a) => {
            lemma_widget_wf(*a);
        },
        Term::Sqrt(a, _) => {
            lemma_widget_wf(*a);
        },
        Term::Power(a, b) => {
            lemma_widget_wf(*a);
            lemma_widget_wf(*b);
        },
        Term::Equal(a, b) => {
            lemma_widget_wf(*a);
            lemma_widget_wf(*b);
        },
        _ => {},
    }
}

/// A tree measured from a well-formed widget tree is well-sized.
pub proof fn lemma_sized_wf(t: WNode, cw: int, ch: int)
    requires
        ch >= 0,
        wf_widget(t),
    ensures
        wf_sized(sized_of(t, cw, ch), cw, ch),
    decreases t,
{
    match t.kind {
        ExpKind::Value => {},
        ExpKind::BasicOp(c) => {
            match (t.op1, t.op2) {
                (Some(ba), Some(bb)) => {
                    lemma_sized_wf(*ba, cw, ch);
                    lemma_sized_wf(*bb, cw, ch);
                },
                _ => {},
            }
        },
        ExpKind::Neg => {
            match t.op1 {
                Some(ba) => {
                    lemma_sized_wf(*ba, cw, ch);
                },
                None => {},
            }
        },
        ExpKind::Sqrt => {
            match t.op1 {
                Some(ba) => {
                    lemma_sized_wf(*ba, cw, ch);
                },
                None => {},
            }
        },
        ExpKind::Power => {
            match (t.op1, t.op2) {
                (Some(ba), Some(bb)) => {
                    lemma_sized_wf(*ba, cw, ch);
                    lemma_sized_wf(*bb, cw, ch);
                },
                _ => {},
            }
        },
    }
}

/// A backend-agnostic drawing primitive with absolute coordinates.
#[derive(Debug, Clone)]
pub enum DrawCmd {
    /// A run of text whose top-left corner is at `(x, y)`.
    Text { x: u64, y: u64, s: String },
    /// A horizontal rule of width `w` at `(x, y)`.
    HLine { x: u64, y: u64, w: u64 },
    /// A vertical stroke of height `h` at `(x, y)`.
    VLine { x: u64, y: u64, h: u64 },
}

pub ghost enum DrawV {
    Text { x: int, y: int, s: Seq<char> },
    HLine { x: int, y: int, w: int },
    VLine { x: int, y: int, h: int },
}

impl View for DrawCmd {
    type V = DrawV;

    open spec fn view(&self) -> DrawV {
        match self {
            DrawCmd::Text { x, y, s } => DrawV::Text { x: *x as int, y: *y as int, s: s@ },
            DrawCmd::HLine { x, y, w } => DrawV::HLine { x: *x as int, y: *y as int, w: *w as int },
            DrawCmd::VLine { x, y, h } => DrawV::VLine { x: *x as int, y: *y as int, h: *h as int },
        }
    }
}

/// The models of a list of drawing commands.
pub open spec fn views_of(s: Seq<DrawCmd>) -> Seq<DrawV> {
    s.map_values(|c: DrawCmd| c@)
}

proof fn lemma_views_push(s: Seq<DrawCmd>, c: DrawCmd)
    ensures
        views_of(s.push(c)) == views_of(s).push(c@),
{
    assert_seqs_equal!(views_of(s.push(c)) == views_of(s).push(c@));
}

/// The placement pass: the draw list of a measured node whose box is
/// anchored with its top-left corner at `(x, y)`. Side-by-side operands
/// are centered on the taller one; a quotient centers both operands on
/// the bar; an exponent is raised above its base line.
pub open spec fn draw_of(t: SNode, x: int, y: int, cw: int, ch: int) -> Seq<DrawV>
    decreases t,
{
    match t.kind {
        ExpKind::Value => seq![DrawV::Text { x: x, y: y, s: stext(t.text) }],
        ExpKind::BasicOp(c) => {
            match (t.op1, t.op2) {
                (Some(ba), Some(bb)) => {
                    let a = *ba;
                    let b = *bb;
                    if c == '/' {
                        draw_of(a, sadd(x, (smax(a.w, b.w) - a.w) / 2), y, cw, ch) + seq![
                            DrawV::HLine { x: x, y: sadd(y, a.h), w: t.w },
                        ] + draw_of(
                            b,
                            sadd(x, (smax(a.w, b.w) - b.w) / 2),
                            sadd(sadd(y, a.h), ch),
                            cw,
                            ch,
                        )
                    } else {
                        draw_of(a, x, sadd(y, (t.h - a.h) / 2), cw, ch) + seq![
                            DrawV::Text {
                                x: sadd(x, a.w),
                                y: sadd(y, (t.h - ch) / 2),
                                s: seq![' ', c, ' '],
                            },
                        ] + draw_of(
                            b,
                            sadd(sadd(x, a.w), smul(3, cw)),
                            sadd(y, (t.h - b.h) / 2),
                            cw,
                            ch,
                        )
                    }
                },
                _ => Seq::empty(),
            }
        },
        ExpKind::Neg => {
            match t.op1 {
                Some(ba) => {
                    let a = *ba;
                    seq![DrawV::Text { x: x, y: sadd(y, (t.h - ch) / 2), s: seq!['-'] }] + draw_of(
                        a,
                        sadd(x, cw),
                        sadd(y, (t.h - a.h) / 2),
                        cw,
                        ch,
                    )
                },
                None => Seq::empty(),
            }
        },
        ExpKind::Sqrt => {
            match t.op1 {
                Some(ba) => {
                    let a = *ba;
                    seq![
                        DrawV::VLine { x: x, y: sadd(y, ch), h: a.h },
                        DrawV::HLine { x: sadd(x, cw), y: y, w: sadd(a.w, cw) },
                    ] + draw_of(a, sadd(x, smul(2, cw)), sadd(y, ch), cw, ch)
                },
                None => Seq::empty(),
            }
        },
        ExpKind::Power => {
            match (t.op1, t.op2) {
                (Some(ba), Some(bb)) => {
                    let a = *ba;
                    let b = *bb;
                    draw_of(a, x, sadd(y, t.h - a.h), cw, ch) + draw_of(b, sadd(x, a.w), y, cw, ch)
                },
                _ => Seq::empty(),
            }
        },
    }
}

fn widget_leaf(text: String) -> (r: ExpressionWidget)
    ensures
        r@ == wleaf(text@),
{
    ExpressionWidget { kind: ExpKind::Value, op1: None, op2: None, text: Some(text) }
}

impl ExpressionWidget {
    /// Builds the typeset tree of an expression: leaves carry their
    /// textual rendering, and a whole-number coefficient directly in
    /// front of a variable is shown as one run, as in `2x`.
    pub fn from_expression(e: &Expression) -> (r: ExpressionWidget)
        ensures
            r@ == widget_of(e@),
        decreases e,
    {
        match e {
            Expression::Variable(v) => widget_leaf(v.clone()),
            Expression::Integer(_) => widget_leaf(e.to_display_string()),
            Expression::Rational(_, _) => widget_leaf(e.to_display_string()),
            Expression::Equal(a, b) => ExpressionWidget {
                kind: ExpKind::BasicOp('='),
                op1: Some(Box::new(ExpressionWidget::from_expression(a))),
                op2: Some(Box::new(ExpressionWidget::from_expression(b))),
                text: None,
            },
            Expression::Sum(a, b) => ExpressionWidget {
                kind: ExpKind::BasicOp('+'),
                op1: Some(Box::new(ExpressionWidget::from_expression(a))),
                op2: Some(Box::new(ExpressionWidget::from_expression(b))),
                text: None,
            },
            Expression::Difference(a, b) => ExpressionWidget {
                kind: ExpKind::BasicOp('-'),
                op1: Some(Box::new(ExpressionWidget::from_expression(a))),
                op2: Some(Box::new(ExpressionWidget::from_expression(b))),
                text: None,
            },
            Expression::Product(a, b) => {
                match (&**a, &**b) {
                    (Expression::Integer(c), Expression::Variable(v)) => {
                        let mut s = int_i64(*c);
                        s.append(v.as_str());
                        proof {
                            assert(s@ =~= int_str(num_of((**a)@)) + name_of((**b)@));
                        }
                        widget_leaf(s)
                    },
                    _ => ExpressionWidget {
                        kind: ExpKind::BasicOp('\u{00b7}'),
                        op1: Some(Box::new(ExpressionWidget::from_expression(a))),
                        op2: Some(Box::new(ExpressionWidget::from_expression(b))),
                        text: None,
                    },
                }
            },
            Expression::Quotient(a, b) => ExpressionWidget {
                kind: ExpKind::BasicOp('/'),
                op1: Some(Box::new(ExpressionWidget::from_expression(a))),
                op2: Some(Box::new(ExpressionWidget::from_expression(b))),
                text: None,
            },
            Expression::Neg(a) => ExpressionWidget {
                kind: ExpKind::Neg,
                op1: Some(Box::new(ExpressionWidget::from_expression(a))),
                op2: None,
                text: None,
            },
            Expression::Sqrt(a, _) => ExpressionWidget {
                kind: ExpKind::Sqrt,
                op1: Some(Box::new(ExpressionWidget::from_expression(a))),
                op2: None,
                text: None,
            },
            Expression::Power(a, b) => ExpressionWidget {
                kind: ExpKind::Power,
                op1: Some(Box::new(ExpressionWidget::from_expression(a))),
                op2: Some(Box::new(ExpressionWidget::from_expression(b))),
                text: None,
            },
        }
    }
}

fn size_node(t: &ExpressionWidget, m: &FontMetrics) -> (r: SizedNode)
    ensures
        r@ == sized_of(t@, m.char_w as int, m.char_h as int),
    decreases t,
{
    let cw = m.char_w;
    let ch = m.char_h;
    match (&t.kind, &t.op1, &t.op2) {
        (ExpKind::Value, _, _) => {
            let s: String = match &t.text {
                Some(s) => s.clone(),
                None => String::new(),
            };
            let w = sat_mul(s.as_str().unicode_len() as u64, cw);
            proof {
                if t@.text is None {
                    assert(stext(t@.text).len() == 0);
                }
            }
            SizedNode { kind: ExpKind::Value, text: Some(s), w: w, h: ch, op1: None, op2: None }
        },
        (ExpKind::BasicOp(c), Some(b1), Some(b2)) => {
            let a = size_node(b1, m);
            let b = size_node(b2, m);
            if *c == '/' {
                let w = max64(a.w, b.w);
                let h = sat_add(sat_add(a.h, b.h), ch);
                SizedNode {
                    kind: ExpKind::BasicOp(*c),
                    text: None,
                    w: w,
                    h: h,
                    op1: Some(Box::new(a)),
                    op2: Some(Box::new(b)),
                }
            } else {
                let w = sat_add(sat_add(a.w, b.w), sat_mul(3, cw));
                let h = max64(max64(a.h, b.h), ch);
                SizedNode {
                    kind: ExpKind::BasicOp(*c),
                    text: None,
                    w: w,
                    h: h,
                    op1: Some(Box::new(a)),
                    op2: Some(Box::new(b)),
                }
            }
        },
        (ExpKind::Neg, Some(b1), _) => {
            let a = size_node(b1, m);
            let w = sat_add(a.w, cw);
            let h = max64(a.h, ch);
            SizedNode {
                kind: ExpKind::Neg,
                text: None,
                w: w,
                h: h,
                op1: Some(Box::new(a)),
                op2: None,
            }
        },
        (ExpKind::Sqrt, Some(b1), _) => {
            let a = size_node(b1, m);
            let w = sat_add(a.w, sat_mul(2, cw));
            let h = sat_add(a.h, ch);
            SizedNode {
                kind: ExpKind::Sqrt,
                text: None,
                w: w,
                h: h,
                op1: Some(Box::new(a)),
                op2: None,
            }
        },
        (ExpKind::Power, Some(b1), Some(b2)) => {
            let a = size_node(b1, m);
            let b = size_node(b2, m);
            let w = sat_add(a.w, b.w);
            let h = max64(a.h, sat_add(b.h, ch));
            SizedNode {
                kind: ExpKind::Power,
                text: None,
                w: w,
                h: h,
                op1: Some(Box::new(a)),
                op2: Some(Box::new(b)),
            }
        },
        _ => {
            SizedNode { kind: ExpKind::Value, text: None, w: 0, h: 0, op1: None, op2: None }
        },
    }
}

/// Relies on String::push: appends exactly the one character.
#[verifier::external_body]
fn push_char(s: &mut String, c: char)
    ensures
        final(s)@ == old(s)@ + seq![c],
{
    s.push(c)
}

fn draw_node(t: &SizedNode, x: u64, y: u64, m: &FontMetrics, out: &mut Vec<DrawCmd>)
    requires
        wf_sized(t@, m.char_w as int, m.char_h as int),
    ensures
        views_of(final(out)@) == views_of(old(out)@) + draw_of(
            t@,
            x as int,
            y as int,
            m.char_w as int,
            m.char_h as int,
        ),
    decreases t, 1int,
{
    proof {
        reveal_with_fuel(snode_of, 3);
    }
    match (&t.kind, &t.op1, &t.op2) {
        (ExpKind::Value, _, _) => {
            let s: String = match &t.text {
                Some(s) => s.clone(),
                None => String::new(),
            };
            out.push(DrawCmd::Text { x: x, y: y, s: s });
            proof {
                if t@.text is None {
                    assert(stext(t@.text) =~= Seq::<char>::empty());
                }
                assert_seqs_equal!(views_of(out@) ==
                    views_of(old(out)@)
                    + draw_of(t@, x as int, y as int, m.char_w as int, m.char_h as int));
            }
        },
        (ExpKind::BasicOp(c), Some(b1), Some(b2)) => {
            if *c == '/' {
                draw_quot(t, x, y, m, out);
            } else {
                draw_binop(t, x, y, m, out);
            }
        },
        (ExpKind::Neg, Some(b1), _) => {
            draw_neg(t, x, y, m, out);
        },
        (ExpKind::Sqrt, Some(b1), _) => {
            draw_sqrt(t, x, y, m, out);
        },
        (ExpKind::Power, Some(b1), Some(b2)) => {
            draw_power(t, x, y, m, out);
        },
        _ => {
            proof {
                assert(false);
            }
        },
    }
}

fn draw_quot(t: &SizedNode, x: u64, y: u64, m: &FontMetrics, out: &mut Vec<DrawCmd>)
    requires
        wf_sized(t@, m.char_w as int, m.char_h as int),
        t.kind == ExpKind::BasicOp('/'),
        t.op1 is Some,
        t.op2 is Some,
    ensures
        views_of(final(out)@) == views_of(old(out)@) + draw_of(
            t@,
            x as int,
            y as int,
            m.char_w as int,
            m.char_h as int,
        ),
    decreases t, 0int,
{
    proof {
        reveal_with_fuel(snode_of, 3);
    }
    let ghost cw_g = m.char_w as int;
    let ghost ch_g = m.char_h as int;
    let ch = m.char_h;
    let a: &SizedNode = match &t.op1 {
        Some(b) => &**b,
        None => t,
    };
    let b: &SizedNode = match &t.op2 {
        Some(b2) => &**b2,
        None => t,
    };
    let wmax = max64(a.w, b.w);
    draw_node(a, sat_add(x, (wmax - a.w) / 2), y, m, out);
    let ghost o1 = out@;
    let bar = DrawCmd::HLine { x: x, y: sat_add(y, a.h), w: t.w };
    let ghost bar_v = bar@;
    out.push(bar);
    proof {
        lemma_views_push(o1, bar);
    }
    draw_node(b, sat_add(x, (wmax - b.w) / 2), sat_add(sat_add(y, a.h), ch), m, out);
    proof {
        assert(t@.op1 == Some(Box::new(a@)) && t@.op2 == Some(Box::new(b@)));
        let av = draw_of(a@, sadd(x as int, (smax(a@.w, b@.w) - a@.w) / 2), y as int, cw_g, ch_g);
        let bv = draw_of(
            b@,
            sadd(x as int, (smax(a@.w, b@.w) - b@.w) / 2),
            sadd(sadd(y as int, a@.h), ch_g),
            cw_g,
            ch_g,
        );
        assert(views_of(out@) == (views_of(old(out)@) + av).push(bar_v) + bv);
        assert(draw_of(t@, x as int, y as int, cw_g, ch_g) == av + seq![bar_v] + bv);
        assert_seqs_equal!(views_of(out@) ==
            views_of(old(out)@)
            + draw_of(t@, x as int, y as int, cw_g, ch_g));
    }
}

fn draw_binop(t: &SizedNode, x: u64, y: u64, m: &FontMetrics, out: &mut Vec<DrawCmd>)
    requires
        wf_sized(t@, m.char_w as int, m.char_h as int),
        t.kind matches ExpKind::BasicOp(c) && c != '/',
        t.op1 is Some,
        t.op2 is Some,
    ensures
        views_of(final(out)@) == views_of(old(out)@) + draw_of(
            t@,
            x as int,
            y as int,
            m.char_w as int,
            m.char_h as int,
        ),
    decreases t, 0int,
{
    proof {
        reveal_with_fuel(snode_of, 3);
    }
    let ghost cw_g = m.char_w as int;
    let ghost ch_g = m.char_h as int;
    let cw = m.char_w;
    let ch = m.char_h;
    let c: char = match &t.kind {
        ExpKind::BasicOp(c) => *c,
        _ => ' ',
    };
    let a: &SizedNode = match &t.op1 {
        Some(b) => &**b,
        None => t,
    };
    let b: &SizedNode = match &t.op2 {
        Some(b2) => &**b2,
        None => t,
    };
    let hh = t.h;
    draw_node(a, x, sat_add(y, (hh - a.h) / 2), m, out);
    let mut op_text = String::new();
    proof {
        reveal_strlit(" ");
    }
    op_text.append(" ");
    push_char(&mut op_text, c);
    op_text.append(" ");
    assert(op_text@ =~= seq![' ', c, ' ']);
    let ghost o1 = out@;
    let op_cmd = DrawCmd::Text { x: sat_add(x, a.w), y: sat_add(y, (hh - ch) / 2), s: op_text };
    let ghost op_v = op_cmd@;
    out.push(op_cmd);
    proof {
        lemma_views_push(o1, op_cmd);
    }
    draw_node(b, sat_add(sat_add(x, a.w), sat_mul(3, cw)), sat_add(y, (hh - b.h) / 2), m, out);
    proof {
        assert(t@.op1 == Some(Box::new(a@)) && t@.op2 == Some(Box::new(b@)));
        let av = draw_of(a@, x as int, sadd(y as int, (t@.h - a@.h) / 2), cw_g, ch_g);
        let bv = draw_of(
            b@,
            sadd(sadd(x as int, a@.w), smul(3, cw_g)),
            sadd(y as int, (t@.h - b@.h) / 2),
            cw_g,
            ch_g,
        );
        assert(views_of(out@) == (views_of(old(out)@) + av).push(op_v) + bv);
        assert(draw_of(t@, x as int, y as int, cw_g, ch_g) == av + seq![op_v] + bv);
        assert_seqs_equal!(views_of(out@) ==
            views_of(old(out)@)
            + draw_of(t@, x as int, y as int, cw_g, ch_g));
    }
}

fn draw_neg(t: &SizedNode, x: u64, y: u64, m: &FontMetrics, out: &mut Vec<DrawCmd>)
    requires
        wf_sized(t@, m.char_w as int, m.char_h as int),
        t.kind == ExpKind::Neg,
        t.op1 is Some,
    ensures
        views_of(final(out)@) == views_of(old(out)@) + draw_of(
            t@,
            x as int,
            y as int,
            m.char_w as int,
            m.char_h as int,
        ),
    decreases t, 0int,
{
    proof {
        reveal_with_fuel(snode_of, 3);
    }
    let ghost cw_g = m.char_w as int;
    let ghost ch_g = m.char_h as int;
    let cw = m.char_w;
    let ch = m.char_h;
    let a: &SizedNode = match &t.op1 {
        Some(b) => &**b,
        None => t,
    };
    let mut minus = String::new();
    proof {
        reveal_strlit("-");
    }
    minus.append("-");
    assert(minus@ =~= seq!['-']);
    out.push(DrawCmd::Text { x: x, y: sat_add(y, (t.h - ch) / 2), s: minus });
    draw_node(a, sat_add(x, cw), sat_add(y, (t.h - a.h) / 2), m, out);
    proof {
        assert(t@.op1 == Some(Box::new(a@)));
        assert_seqs_equal!(views_of(out@) ==
            views_of(old(out)@)
            + draw_of(t@, x as int, y as int, cw_g, ch_g));
    }
}

fn draw_sqrt(t: &SizedNode, x: u64, y: u64, m: &FontMetrics, out: &mut Vec<DrawCmd>)
    requires
        wf_sized(t@, m.char_w as int, m.char_h as int),
        t.kind == ExpKind::Sqrt,
        t.op1 is Some,
    ensures
        views_of(final(out)@) == views_of(old(out)@) + draw_of(
            t@,
            x as int,
            y as int,
            m.char_w as int,
            m.char_h as int,
        ),
    decreases t, 0int,
{
    proof {
        reveal_with_fuel(snode_of, 3);
    }
    let ghost cw_g = m.char_w as int;
    let ghost ch_g = m.char_h as int;
    let cw = m.char_w;
    let ch = m.char_h;
    let a: &SizedNode = match &t.op1 {
        Some(b) => &**b,
        None => t,
    };
    out.push(DrawCmd::VLine { x: x, y: sat_add(y, ch), h: a.h });
    out.push(DrawCmd::HLine { x: sat_add(x, cw), y: y, w: sat_add(a.w, cw) });
    draw_node(a, sat_add(x, sat_mul(2, cw)), sat_add(y, ch), m, out);
    proof {
        assert(t@.op1 == Some(Box::new(a@)));
        assert_seqs_equal!(views_of(out@) ==
            views_of(old(out)@)
            + draw_of(t@, x as int, y as int, cw_g, ch_g));
    }
}

fn draw_power(t: &SizedNode, x: u64, y: u64, m: &FontMetrics, out: &mut Vec<DrawCmd>)
    requires
        wf_sized(t@, m.char_w as int, m.char_h as int),
        t.kind == ExpKind::Power,
        t.op1 is Some,
        t.op2 is Some,
    ensures
        views_of(final(out)@) == views_of(old(out)@) + draw_of(
            t@,
            x as int,
            y as int,
            m.char_w as int,
            m.char_h as int,
        ),
    decreases t, 0int,
{
    proof {
        reveal_with_fuel(snode_of, 3);
    }
    let ghost cw_g = m.char_w as int;
    let ghost ch_g = m.char_h as int;
    let a: &SizedNode = match &t.op1 {
        Some(b) => &**b,
        None => t,
    };
    let b: &SizedNode = match &t.op2 {
        Some(b2) => &**b2,
        None => t,
    };
    draw_node(a, x, sat_add(y, t.h - a.h), m, out);
    draw_node(b, sat_add(x, a.w), y, m, out);
    proof {
        assert(t@.op1 == Some(Box::new(a@)) && t@.op2 == Some(Box::new(b@)));
        assert_seqs_equal!(views_of(out@) ==
            views_of(old(out)@)
            + draw_of(t@, x as int, y as int, cw_g, ch_g));
    }
}

/// A measured expression, ready to be drawn.
#[derive(Debug)]
pub struct SizedExpression {
    pub root: SizedNode,
    pub metrics: FontMetrics,
}

impl SizedExpression {
    /// The measurement pass: typesets `exp` and computes every box
    /// bottom-up under the given metrics.
    pub fn layout(m: &FontMetrics, exp: &Expression) -> (r: SizedExpression)
        ensures
            r.root@ == sized_of(widget_of(exp@), m.char_w as int, m.char_h as int),
            r.metrics == *m,
    {
        let w = ExpressionWidget::from_expression(exp);
        SizedExpression { root: size_node(&w, m), metrics: *m }
    }

    /// The total bounding box, width then height.
    pub fn dims(&self) -> (r: (u64, u64))
        ensures
            r.0 == self.root@.w,
            r.1 == self.root@.h,
    {
        (self.root.w, self.root.h)
    }

    /// The placement pass: the flat draw list, with absolute coordinates
    /// relative to the top-left corner of the allocated box. The
    /// well-sizedness precondition holds of every tree `layout` builds:
    /// `lemma_layout_well_sized` discharges it from `layout`'s
    /// contract, so it only bars hand-assembled trees with inconsistent
    /// boxes.
    pub fn draw_list(&self) -> (r: Vec<DrawCmd>)
        requires
            wf_sized(self.root@, self.metrics.char_w as int, self.metrics.char_h as int),
        ensures
            views_of(r@) == draw_of(
                self.root@,
                0,
                0,
                self.metrics.char_w as int,
                self.metrics.char_h as int,
            ),
    {
        let mut out: Vec<DrawCmd> = Vec::new();
        draw_node(&self.root, 0, 0, &self.metrics, &mut out);
        proof {
            assert_seqs_equal!(views_of(out@) ==
                draw_of(self.root@, 0, 0, self.metrics.char_w as int, self.metrics.char_h as int));
        }
        out
    }
}

/// What `layout` measures is well-sized: together with `layout`'s
/// contract this discharges `draw_list`'s precondition for every
/// measured expression.
pub proof fn lemma_layout_well_sized(e: Term, cw: int, ch: int)
    requires
        ch >= 0,
    ensures
        wf_sized(sized_of(widget_of(e), cw, ch), cw, ch),
{
    lemma_widget_wf(e);
    lemma_sized_wf(widget_of(e), cw, ch);
}

} // verus!
