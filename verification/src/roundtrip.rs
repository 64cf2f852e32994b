use vstd::prelude::*;
use vstd::arithmetic::div_mod::lemma_fundamental_div_mod;
use crate::display::{dec_str, disp};
use crate::eq::Term;
use crate::parse::{digit_val, is_digit, parse_fuel, scan_int, sp_expr, sp_mul, sp_mul_tail,
    sp_number, sp_power, sp_primary, sp_sum, sp_sum_tail, sp_unary, sp_ws, spec_parse};
use crate::simplify::simp;

verus! {

/// The value of the digits `s[i..j]` read left to right onto `acc`.
pub open spec fn digits_val(s: Seq<char>, i: int, j: int, acc: int) -> int
    decreases j - i,
{
    if i >= j {
        acc
    } else {
        digits_val(s, i + 1, j, acc * 10 + digit_val(s[i]))
    }
}

/// Reading digits never shrinks the accumulated value.
proof fn lemma_digits_val_lb(s: Seq<char>, i: int, j: int, acc: int)
    requires
        0 <= acc,
        forall|k: int| i <= k < j ==> is_digit(#[trigger] s[k]),
    ensures
        digits_val(s, i, j, acc) >= acc,
    decreases j - i,
{
    if i < j {
        lemma_digits_val_lb(s, i + 1, j, acc * 10 + digit_val(s[i]));
    }
}

/// The parser's digit scan computes exactly the left-to-right value of
/// the digit run, when that value is representable.
proof fn lemma_scan_digits(s: Seq<char>, i: int, j: int, acc: int)
    requires
        0 <= i <= j <= s.len(),
        forall|k: int| i <= k < j ==> is_digit(#[trigger] s[k]),
        j == s.len() || !is_digit(s[j]),
        0 <= acc,
        digits_val(s, i, j, acc) <= 0x7fff_ffff_ffff_ffff,
    ensures
        scan_int(s, i, acc) == Ok::<(int, int), int>((digits_val(s, i, j, acc), j)),
    decreases j - i,
{
    if i == j {
    } else {
        let v = acc * 10 + digit_val(s[i]);
        lemma_digits_val_lb(s, i + 1, j, v);
        lemma_scan_digits(s, i + 1, j, v);
    }
}

/// Appending one digit multiplies the read value by ten and adds it.
proof fn lemma_digits_val_snoc(s: Seq<char>, i: int, j: int, acc: int)
    requires
        0 <= i <= j < s.len(),
    ensures
        digits_val(s, i, j + 1, acc) == digits_val(s, i, j, acc) * 10 + digit_val(s[j]),
    decreases j - i,
{
    let v = acc * 10 + digit_val(s[i]);
    if i == j {
        assert(digits_val(s, i, j + 1, acc) == digits_val(s, i + 1, j + 1, v));
        assert(digits_val(s, i + 1, j + 1, v) == v);
        assert(digits_val(s, i, j, acc) == acc);
    } else {
        lemma_digits_val_snoc(s, i + 1, j, v);
        assert(digits_val(s, i, j + 1, acc) == digits_val(s, i + 1, j + 1, v));
        assert(digits_val(s, i, j, acc) == digits_val(s, i + 1, j, v));
    }
}

/// The read value depends only on the digits in the window.
proof fn lemma_digits_val_frame(s1: Seq<char>, s2: Seq<char>, i: int, j: int, acc: int)
    requires
        0 <= i <= j <= s1.len(),
        j <= s2.len(),
        forall|k: int| i <= k < j ==> s1[k] == s2[k],
    ensures
        digits_val(s1, i, j, acc) == digits_val(s2, i, j, acc),
    decreases j - i,
{
    if i < j {
        let v = acc * 10 + digit_val(s1[i]);
        lemma_digits_val_frame(s1, s2, i + 1, j, v);
        assert(digits_val(s1, i, j, acc) == digits_val(s1, i + 1, j, v));
        assert(digits_val(s2, i, j, acc) == digits_val(s2, i + 1, j, v));
    }
}

/// The decimal rendering of a whole number is a digit run that reads
/// back to the number.
proof fn lemma_dec_str_value(n: nat)
    ensures
        dec_str(n).len() >= 1,
        forall|k: int| 0 <= k < dec_str(n).len() ==> is_digit(#[trigger] dec_str(n)[k]),
        digits_val(dec_str(n), 0, dec_str(n).len() as int, 0) == n,
    decreases n,
{
    if n < 10 {
        assert(dec_str(n) =~= seq![crate::display::digit_char(n)]);
        assert(is_digit(crate::display::digit_char(n)));
        assert(digit_val(crate::display::digit_char(n)) == n);
        let d = digit_val(dec_str(n)[0]);
        assert(digits_val(dec_str(n), 1, 1, 0 * 10 + d) == 0 * 10 + d);
        assert(digits_val(dec_str(n), 0, 1, 0) == d);
    } else {
        lemma_dec_str_value(n / 10);
        let prefix = dec_str(n / 10);
        let s = dec_str(n);
        let plen = prefix.len() as int;
        assert(s =~= prefix + seq![crate::display::digit_char(n % 10)]);
        assert(forall|k: int| 0 <= k < plen ==> s[k] == prefix[k]);
        assert(s[plen] == crate::display::digit_char(n % 10));
        assert(is_digit(crate::display::digit_char(n % 10)));
        assert(digit_val(crate::display::digit_char(n % 10)) == n % 10);
        lemma_digits_val_frame(s, prefix, 0, plen, 0);
        lemma_digits_val_snoc(s, 0, plen, 0);
        lemma_fundamental_div_mod(n as int, 10);
        assert(digits_val(s, 0, plen, 0) == n / 10);
        assert(digits_val(s, 0, s.len() as int, 0) == (n / 10) * 10 + (n % 10));
    }
}

/// Lifts a primary that consumes the whole text up through every
/// precedence level: with nothing left after it, no operator can
/// extend it.
proof fn lemma_atom_levels(s: Seq<char>, t: Term, strict: bool)
    requires
        s.len() >= 1,
        sp_ws(s, 0) == 0,
        s[0] != '-',
        sp_primary(s, 0, (parse_fuel(s.len()) - 5) as nat) == Ok::<(Term, int), int>((
            t,
            s.len() as int,
        )),
    ensures
        spec_parse(s, strict) == Ok::<Term, int>(t),
{
    let len = s.len() as int;
    assert(sp_ws(s, len) == len);
    let f0 = parse_fuel(s.len());
    assert(f0 >= 24);
    let f1 = (f0 - 1) as nat;
    let f2 = (f1 - 1) as nat;
    let f3 = (f2 - 1) as nat;
    let f4 = (f3 - 1) as nat;
    let f5 = (f4 - 1) as nat;
    assert(sp_primary(s, 0, f5) == Ok::<(Term, int), int>((t, len)));
    assert(sp_power(s, 0, f4) == Ok::<(Term, int), int>((t, len)));
    assert(sp_unary(s, 0, f3) == Ok::<(Term, int), int>((t, len)));
    assert(sp_mul_tail(s, t, len, (f2 - 1) as nat) == Ok::<(Term, int), int>((t, len)));
    assert(sp_mul(s, 0, f2) == Ok::<(Term, int), int>((t, len)));
    assert(sp_sum_tail(s, t, len, (f1 - 1) as nat) == Ok::<(Term, int), int>((t, len)));
    assert(sp_sum(s, 0, f1) == Ok::<(Term, int), int>((t, len)));
    assert(sp_expr(s, 0, f0) == Ok::<(Term, int), int>((t, len)));
}

/// The round trip on the whole-number fragment of the grammar: the
/// canonical rendering of a whole number parses back, in either mode,
/// to exactly that number, so parsing the rendering simplifies to the
/// same canonical form as the number itself.
pub proof fn lemma_round_trip_whole_number(n: int, strict: bool)
    requires
        0 <= n <= 0x7fff_ffff_ffff_ffff,
    ensures
        spec_parse(disp(Term::Integer(n)), strict) == Ok::<Term, int>(Term::Integer(n)),
        simp(Term::Integer(n)) == Term::Integer(n),
{
    let s = disp(Term::Integer(n));
    assert(s == dec_str(n as nat));
    lemma_dec_str_value(n as nat);
    let len = s.len() as int;
    lemma_scan_digits(s, 0, len, 0);
    assert(scan_int(s, 0, 0) == Ok::<(int, int), int>((n, len)));
    // the first character is a digit: no whitespace, no operator
    assert(!crate::parse::is_ws(s[0]));
    assert(sp_ws(s, 0) == 0);
    assert(s[0] != '(' && s[0] != '-' && !crate::parse::is_alpha(s[0]));
    assert(sp_number(s, 0) == Ok::<(Term, int), int>((Term::Integer(n), len)));
    let f5 = (parse_fuel(s.len()) - 5) as nat;
    assert(sp_primary(s, 0, f5) == Ok::<(Term, int), int>((Term::Integer(n), len)));
    lemma_atom_levels(s, Term::Integer(n), strict);
}


/// A run of letters ends only at the end of the text.
proof fn lemma_word_end_all_alpha(s: Seq<char>, i: int)
    requires
        0 <= i <= s.len(),
        forall|k: int| 0 <= k < s.len() ==> crate::parse::is_alpha(#[trigger] s[k]),
    ensures
        crate::parse::word_end(s, i) == s.len(),
    decreases s.len() - i,
{
    if i < s.len() {
        lemma_word_end_all_alpha(s, i + 1);
    }
}

/// The round trip on the variable fragment of the grammar: the
/// canonical rendering of a variable — its name — parses back, in
/// either mode, to exactly that variable, provided the name is a
/// non-empty run of letters other than the `sqrt` keyword.
pub proof fn lemma_round_trip_variable(name: Seq<char>, strict: bool)
    requires
        name.len() >= 1,
        forall|k: int| 0 <= k < name.len() ==> crate::parse::is_alpha(#[trigger] name[k]),
        !(name.len() == 4 && name[0] == 's' && name[1] == 'q' && name[2] == 'r' && name[3] == 't'),
    ensures
        spec_parse(disp(Term::Variable(name)), strict) == Ok::<Term, int>(Term::Variable(name)),
        simp(Term::Variable(name)) == Term::Variable(name),
{
    let s = disp(Term::Variable(name));
    assert(s == name);
    let len = s.len() as int;
    assert(!crate::parse::is_ws(s[0]));
    assert(sp_ws(s, 0) == 0);
    assert(s[0] != '(' && s[0] != '-' && !crate::parse::is_digit(s[0]));
    lemma_word_end_all_alpha(s, 0);
    assert(crate::parse::word_end(s, 0) == len);
    assert(s.subrange(0, len) =~= name);
    let f5 = (parse_fuel(s.len()) - 5) as nat;
    assert(sp_primary(s, 0, f5) == Ok::<(Term, int), int>((Term::Variable(name), len)));
    lemma_atom_levels(s, Term::Variable(name), strict);
}

/// The read value depends only on the digit window, wherever it sits.
proof fn lemma_digits_val_offset(s: Seq<char>, i: int, j: int, acc: int, t: Seq<char>)
    requires
        0 <= i <= j <= s.len(),
        t.len() == j - i,
        forall|k: int| 0 <= k < t.len() ==> s[i + k] == #[trigger] t[k],
    ensures
        digits_val(s, i, j, acc) == digits_val(t, 0, t.len() as int, acc),
    decreases j - i,
{
    if i < j {
        assert(s[i] == t[0]);
        let v = acc * 10 + digit_val(s[i]);
        lemma_digits_val_offset(s, i + 1, j, v, t.drop_first());
        assert(digits_val(s, i, j, acc) == digits_val(s, i + 1, j, v));
        assert(digits_val(t, 0, t.len() as int, acc) == digits_val(
            t,
            1,
            t.len() as int,
            v,
        ));
        lemma_digits_val_offset(t, 1, t.len() as int, v, t.drop_first());
    }
}

/// The round trip on the fraction-literal fragment of the grammar: the
/// rendering `n/d` of a fraction-mode rational with a whole numerator
/// and positive denominator parses back, in either mode, to exactly
/// that leaf, so the parsed term trivially shares its canonical form.
pub proof fn lemma_round_trip_fraction(n: int, d: int, strict: bool)
    requires
        0 <= n <= 0x7fff_ffff_ffff_ffff,
        1 <= d <= 0x7fff_ffff_ffff_ffff,
    ensures
        spec_parse(disp(Term::Rational(n, d, true)), strict) == Ok::<Term, int>(
            Term::Rational(n, d, true),
        ),
{
    let s = disp(Term::Rational(n, d, true));
    let sn = dec_str(n as nat);
    let sd = dec_str(d as nat);
    assert(s =~= sn + seq!['/'] + sd);
    lemma_dec_str_value(n as nat);
    lemma_dec_str_value(d as nat);
    let ln = sn.len() as int;
    let len = s.len() as int;
    assert(forall|k: int| 0 <= k < ln ==> s[k] == sn[k]);
    assert(s[ln] == '/');
    assert(forall|k: int| 0 <= k < sd.len() ==> s[ln + 1 + k] == #[trigger] sd[k]);
    // the numerator's digit run stops at the slash
    lemma_digits_val_offset(s, 0, ln, 0, sn);
    lemma_scan_digits(s, 0, ln, 0);
    assert(scan_int(s, 0, 0) == Ok::<(int, int), int>((n, ln)));
    // the denominator's digit run fills the rest
    lemma_digits_val_offset(s, ln + 1, len, 0, sd);
    lemma_scan_digits(s, ln + 1, len, 0);
    assert(scan_int(s, ln + 1, 0) == Ok::<(int, int), int>((d, len)));
    assert(is_digit(s[ln + 1]));
    assert(sp_number(s, 0) == Ok::<(Term, int), int>((Term::Rational(n, d, true), len)));
    assert(!crate::parse::is_ws(s[0]));
    assert(sp_ws(s, 0) == 0);
    assert(s[0] != '(' && s[0] != '-' && !crate::parse::is_alpha(s[0]));
    let f5 = (parse_fuel(s.len()) - 5) as nat;
    assert(sp_primary(s, 0, f5) == Ok::<(Term, int), int>((Term::Rational(n, d, true), len)));
    lemma_atom_levels(s, Term::Rational(n, d, true), strict);
}
} // verus!
