use vstd::prelude::*;

verus! {

/// An integer read from the input line, tagged with the notation it was
/// written in: plain decimal, or `0b` / `0x` / `0o` prefixed.
#[derive(Debug, Clone, Copy, PartialEq, Eq)]
pub enum ParsedNumber {
    Decimal(u64),
    Binary(u64),
    Hex(u64),
    Oct(u64),
}

/// The value a digit character stands for, counting the letters used in
/// bases up to sixteen.
pub open spec fn radix_digit(c: char) -> int {
    if '0' <= c && c <= '9' {
        c as int - '0' as int
    } else if 'a' <= c && c <= 'f' {
        c as int - 'a' as int + 10
    } else if 'A' <= c && c <= 'F' {
        c as int - 'A' as int + 10
    } else {
        16
    }
}

pub open spec fn is_radix_digit(c: char, r: int) -> bool {
    radix_digit(c) < r
}

/// The value of the digits `s[..i]` in base `r`.
pub open spec fn prefix_val(s: Seq<char>, r: int, i: int) -> int
    decreases i,
{
    if i <= 0 {
        0
    } else {
        prefix_val(s, r, i - 1) * r + radix_digit(s[i - 1])
    }
}

/// Cut off at the largest representable value: an over-long literal
/// saturates rather than fails.
pub open spec fn sat_val(x: int) -> int {
    if x > 0xffff_ffff_ffff_ffff {
        0xffff_ffff_ffff_ffff
    } else {
        x
    }
}

/// A run of digits is a valid literal when it is non-empty, every
/// character is a digit of the base, and it has no leading zero.
pub open spec fn valid_digits(s: Seq<char>, r: int) -> bool {
    &&& s.len() >= 1
    &&& forall|i: int| 0 <= i < s.len() ==> is_radix_digit(#[trigger] s[i], r)
    &&& (s[0] != '0' || s.len() == 1)
}

pub open spec fn digits_num(s: Seq<char>, r: int) -> int {
    sat_val(prefix_val(s, r, s.len() as int))
}

/// What `parse_number` accepts: a whole line holding exactly one
/// integer literal, binary, hexadecimal or octal by its prefix, plain
/// decimal otherwise.
pub open spec fn spec_parse_number(s: Seq<char>) -> Option<ParsedNumber> {
    if s.len() > 2 && s[0] == '0' && s[1] == 'b' && valid_digits(s.subrange(2, s.len() as int), 2) {
        Some(ParsedNumber::Binary(digits_num(s.subrange(2, s.len() as int), 2) as u64))
    } else if s.len() > 2 && s[0] == '0' && s[1] == 'x' && valid_digits(
        s.subrange(2, s.len() as int),
        16,
    ) {
        Some(ParsedNumber::Hex(digits_num(s.subrange(2, s.len() as int), 16) as u64))
    } else if s.len() > 2 && s[0] == '0' && s[1] == 'o' && valid_digits(
        s.subrange(2, s.len() as int),
        8,
    ) {
        Some(ParsedNumber::Oct(digits_num(s.subrange(2, s.len() as int), 8) as u64))
    } else if valid_digits(s, 10) {
        Some(ParsedNumber::Decimal(digits_num(s, 10) as u64))
    } else {
        None
    }
}

fn digit_of(c: char, radix: u64) -> (r: Option<u64>)
    requires
        2 <= radix <= 16,
    ensures
        r is Some <==> is_radix_digit(c, radix as int),
        r matches Some(v) ==> v == radix_digit(c) && v < radix,
{
    let v: u64 = if '0' <= c && c <= '9' {
        (c as u32 - '0' as u32) as u64
    } else if 'a' <= c && c <= 'f' {
        (c as u32 - 'a' as u32) as u64 + 10
    } else if 'A' <= c && c <= 'F' {
        (c as u32 - 'A' as u32) as u64 + 10
    } else {
        16
    };
    if v < radix {
        Some(v)
    } else {
        None
    }
}

/// Reads the digit run `s[start..]` in the given base: the saturated
/// value, or `None` when a character is no digit of the base, the run
/// is empty, or it has a leading zero.
fn radix_run(s: &str, start: usize, radix: u64) -> (r: Option<u64>)
    requires
        start <= s@.len(),
        2 <= radix <= 16,
    ensures
        ({
            let sub = s@.subrange(start as int, s@.len() as int);
            &&& (r is Some <==> valid_digits(sub, radix as int))
            &&& (r matches Some(v) ==> v == digits_num(sub, radix as int))
        }),
{
    let ghost sub = s@.subrange(start as int, s@.len() as int);
    let len = s.unicode_len();
    if start == len {
        return None;
    }
    if s.get_char(start) == '0' && start + 1 < len {
        assert(sub[0] == '0' && sub.len() > 1);
        return None;
    }
    let mut acc: u64 = 0;
    let mut i = start;
    while i < len
        invariant
            start <= i <= len,
            len == s@.len(),
            2 <= radix <= 16,
            sub == s@.subrange(start as int, s@.len() as int),
            forall|k: int| 0 <= k < i - start ==> is_radix_digit(#[trigger] sub[k], radix as int),
            acc == sat_val(prefix_val(sub, radix as int, i - start)),
            prefix_val(sub, radix as int, i - start) >= 0,
        decreases len - i,
    {
        let c = s.get_char(i);
        assert(c == sub[i - start]);
        let d = match digit_of(c, radix) {
            Some(d) => d,
            None => {
                return None;
            },
        };
        proof {
            assert(acc as int * radix <= 0xffff_ffff_ffff_ffff * 16) by (nonlinear_arith)
                requires
                    0 <= acc <= 0xffff_ffff_ffff_ffff,
                    0 <= radix <= 16,
            ;
        }
        let t: u128 = (acc as u128) * (radix as u128) + (d as u128);
        let ghost v_now = prefix_val(sub, radix as int, i - start);
        let ghost v_next = prefix_val(sub, radix as int, i - start + 1);
        proof {
            assert(v_next == v_now * radix + radix_digit(c));
            if v_now > 0xffff_ffff_ffff_ffff {
                assert(v_next > 0xffff_ffff_ffff_ffff) by (nonlinear_arith)
                    requires
                        v_now > 0xffff_ffff_ffff_ffff,
                        radix >= 2,
                        radix_digit(c) >= 0,
                        v_next == v_now * radix + radix_digit(c),
                ;
                assert(t >= 0xffff_ffff_ffff_ffff) by (nonlinear_arith)
                    requires
                        acc == 0xffff_ffff_ffff_ffff,
                        radix >= 2,
                        d >= 0,
                        t == acc as int * radix + d,
                ;
            } else {
                assert(v_next >= v_now) by (nonlinear_arith)
                    requires
                        v_now >= 0,
                        radix >= 2,
                        radix_digit(c) >= 0,
                        v_next == v_now * radix + radix_digit(c),
                ;
            }
        }
        acc = if t > 0xffff_ffff_ffff_ffff {
            0xffff_ffff_ffff_ffff
        } else {
            t as u64
        };
        i += 1;
    }
    assert(sub.len() == len - start);
    Some(acc)
}

/// Reads one integer literal filling the whole line: `0b` binary, `0x`
/// hexadecimal, `0o` octal, or plain decimal, each without a leading
/// zero and saturating at the largest representable value.
pub fn parse_number(input: &str) -> (r: Option<ParsedNumber>)
    ensures
        r == spec_parse_number(input@),
{
    let len = input.unicode_len();
    if len > 2 && input.get_char(0) == '0' {
        let tag = input.get_char(1);
        if tag == 'b' {
            if let Some(v) = radix_run(input, 2, 2) {
                return Some(ParsedNumber::Binary(v));
            }
            assert(!valid_digits(input@, 10)) by {
                assert(input@[0] == '0' && input@.len() > 1);
            }
            return None;
        }
        if tag == 'x' {
            if let Some(v) = radix_run(input, 2, 16) {
                return Some(ParsedNumber::Hex(v));
            }
            assert(!valid_digits(input@, 10)) by {
                assert(input@[0] == '0' && input@.len() > 1);
            }
            return None;
        }
        if tag == 'o' {
            if let Some(v) = radix_run(input, 2, 8) {
                return Some(ParsedNumber::Oct(v));
            }
            assert(!valid_digits(input@, 10)) by {
                assert(input@[0] == '0' && input@.len() > 1);
            }
            return None;
        }
    }
    match radix_run(input, 0, 10) {
        Some(v) => {
            proof {
                assert(input@.subrange(0, input@.len() as int) =~= input@);
            }
            Some(ParsedNumber::Decimal(v))
        },
        None => {
            proof {
                assert(input@.subrange(0, input@.len() as int) =~= input@);
            }
            None
        },
    }
}

/// The digits of `n` in base `r`, lowercase letters for values past
/// nine.
pub open spec fn base_str(n: nat, r: int) -> Seq<char>
    decreases n via base_str_decreases
{
    if r < 2 || n < r {
        seq![base_digit_char(n)]
    } else {
        base_str(n / (r as nat), r) + seq![base_digit_char(n % (r as nat))]
    }
}

#[via_fn]
proof fn base_str_decreases(n: nat, r: int) {
    if !(r < 2 || n < r) {
        vstd::arithmetic::div_mod::lemma_div_is_strictly_smaller(n as int, r);
    }
}

pub open spec fn base_digit_char(n: nat) -> char {
    if n == 0 {
        '0'
    } else if n == 1 {
        '1'
    } else if n == 2 {
        '2'
    } else if n == 3 {
        '3'
    } else if n == 4 {
        '4'
    } else if n == 5 {
        '5'
    } else if n == 6 {
        '6'
    } else if n == 7 {
        '7'
    } else if n == 8 {
        '8'
    } else if n == 9 {
        '9'
    } else if n == 10 {
        'a'
    } else if n == 11 {
        'b'
    } else if n == 12 {
        'c'
    } else if n == 13 {
        'd'
    } else if n == 14 {
        'e'
    } else {
        'f'
    }
}

fn base_digit_str(n: u64) -> (r: String)
    requires
        n < 16,
    ensures
        r@ == seq![base_digit_char(n as nat)],
{
    let s: &str = if n == 0 {
        "0"
    } else if n == 1 {
        "1"
    } else if n == 2 {
        "2"
    } else if n == 3 {
        "3"
    } else if n == 4 {
        "4"
    } else if n == 5 {
        "5"
    } else if n == 6 {
        "6"
    } else if n == 7 {
        "7"
    } else if n == 8 {
        "8"
    } else if n == 9 {
        "9"
    } else if n == 10 {
        "a"
    } else if n == 11 {
        "b"
    } else if n == 12 {
        "c"
    } else if n == 13 {
        "d"
    } else if n == 14 {
        "e"
    } else {
        "f"
    };
    proof {
        reveal_strlit("0");
        reveal_strlit("1");
        reveal_strlit("2");
        reveal_strlit("3");
        reveal_strlit("4");
        reveal_strlit("5");
        reveal_strlit("6");
        reveal_strlit("7");
        reveal_strlit("8");
        reveal_strlit("9");
        reveal_strlit("a");
        reveal_strlit("b");
        reveal_strlit("c");
        reveal_strlit("d");
        reveal_strlit("e");
        reveal_strlit("f");
        assert(s@ =~= seq![base_digit_char(n as nat)]);
    }
    s.to_owned()
}

fn base_u64(n: u64, r: u64) -> (res: String)
    requires
        2 <= r <= 16,
    ensures
        res@ == base_str(n as nat, r as int),
    decreases n,
{
    if n < r {
        base_digit_str(n)
    } else {
        proof {
            vstd::arithmetic::div_mod::lemma_div_is_strictly_smaller(n as int, r as int);
        }
        let mut out = base_u64(n / r, r);
        let last = base_digit_str(n % r);
        out.append(last.as_str());
        proof {
            assert(out@ =~= base_str(n as nat, r as int));
        }
        out
    }
}

impl ParsedNumber {
    /// The value, whatever notation it was written in.
    pub open spec fn value_spec(&self) -> nat {
        match self {
            ParsedNumber::Decimal(i) => *i as nat,
            ParsedNumber::Binary(i) => *i as nat,
            ParsedNumber::Hex(i) => *i as nat,
            ParsedNumber::Oct(i) => *i as nat,
        }
    }

    fn value(&self) -> (r: u64)
        ensures
            r as nat == self.value_spec(),
    {
        match self {
            ParsedNumber::Decimal(i) => *i,
            ParsedNumber::Binary(i) => *i,
            ParsedNumber::Hex(i) => *i,
            ParsedNumber::Oct(i) => *i,
        }
    }

    /// The value in decimal.
    pub fn decimal_str(&self) -> (r: String)
        ensures
            r@ == base_str(self.value_spec(), 10),
    {
        base_u64(self.value(), 10)
    }

    /// The value in hexadecimal with the `0x` prefix.
    pub fn hex_str(&self) -> (r: String)
        ensures
            r@ == "0x"@ + base_str(self.value_spec(), 16),
    {
        let mut out = String::new();
        proof {
            reveal_strlit("0x");
        }
        out.append("0x");
        let digits = base_u64(self.value(), 16);
        out.append(digits.as_str());
        out
    }

    /// The value in octal with the `0o` prefix.
    pub fn oct_str(&self) -> (r: String)
        ensures
            r@ == "0o"@ + base_str(self.value_spec(), 8),
    {
        let mut out = String::new();
        proof {
            reveal_strlit("0o");
        }
        out.append("0o");
        let digits = base_u64(self.value(), 8);
        out.append(digits.as_str());
        out
    }

    /// The value in binary with the `0b` prefix.
    pub fn bin_str(&self) -> (r: String)
        ensures
            r@ == "0b"@ + base_str(self.value_spec(), 2),
    {
        let mut out = String::new();
        proof {
            reveal_strlit("0b");
        }
        out.append("0b");
        let digits = base_u64(self.value(), 2);
        out.append(digits.as_str());
        out
    }
}

} // verus!
