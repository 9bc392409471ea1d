//! Numbers as text: decimal and hexadecimal digits, zero padding, parsing.
use crate::text;
use vstd::prelude::*;

verus! {

/// The digit character for `0 <= d < 16`, lower case.
pub open spec fn digit(d: nat) -> char {
    if d < 10 {
        (('0' as int) + d) as char
    } else {
        (('a' as int) + (d - 10)) as char
    }
}

/// The digits of `n` in `base`, most significant first, no leading zeros.
pub open spec fn digits(n: nat, base: nat) -> Seq<char>
    decreases n,
{
    if base < 2 || n < base {
        seq![digit(n)]
    } else {
        proof {
            lemma_quotient_smaller(n, base);
        }
        digits(n / base, base).push(digit(n % base))
    }
}

pub proof fn lemma_quotient_smaller(n: nat, base: nat)
    requires
        2 <= base <= n,
    ensures
        n / base < n,
{
    assert(n / base < n) by (nonlinear_arith)
        requires
            2 <= base <= n,
    ;
}

/// `s` behind as many zeros as bring it to `width` characters.
pub open spec fn zero_padded(s: Seq<char>, width: nat) -> Seq<char> {
    if s.len() >= width {
        s
    } else {
        Seq::new((width - s.len()) as nat, |i: int| '0') + s
    }
}

/// `n` in decimal, sign first, with zeros up to `width` characters.
pub open spec fn padded_int(n: int, width: nat) -> Seq<char> {
    if n >= 0 {
        zero_padded(digits(n as nat, 10), width)
    } else {
        seq!['-'] + zero_padded(digits((-n) as nat, 10), (width - 1) as nat)
    }
}

pub(crate) fn digit_char(d: u64) -> (c: char)
    requires
        d < 16,
    ensures
        c == digit(d as nat),
{
    match d {
        0 => '0',
        1 => '1',
        2 => '2',
        3 => '3',
        4 => '4',
        5 => '5',
        6 => '6',
        7 => '7',
        8 => '8',
        9 => '9',
        10 => 'a',
        11 => 'b',
        12 => 'c',
        13 => 'd',
        14 => 'e',
        _ => 'f',
    }
}

/// The digits of `n`, most significant first.
pub(crate) fn digit_chars(n: u64, base: u64) -> (v: Vec<char>)
    requires
        2 <= base <= 16,
    ensures
        v@ == digits(n as nat, base as nat),
    decreases n,
{
    if n < base {
        vec![digit_char(n)]
    } else {
        proof {
            lemma_quotient_smaller(n as nat, base as nat);
        }
        let mut v: Vec<char> = digit_chars(n / base, base);
        v.push(digit_char(n % base));
        v
    }
}

pub(crate) fn pad(v: Vec<char>, width: usize) -> (r: Vec<char>)
    ensures
        r@ == zero_padded(v@, width as nat),
{
    let mut out: Vec<char> = Vec::new();
    let n: usize = v.len();
    let lead: usize = if n >= width { 0 } else { width - n };
    while out.len() < lead
        invariant
            out@.len() <= lead,
            out@ == Seq::new(out@.len(), |i: int| '0'),
        decreases lead - out@.len(),
    {
        out.push('0');
        assert(out@ =~= Seq::new(out@.len(), |i: int| '0'));
    }
    let mut rest: Vec<char> = v;
    out.append(&mut rest);
    assert(out@ =~= zero_padded(v@, width as nat));
    out
}

/// `n` in decimal.
pub fn decimal(n: u64) -> (s: String)
    ensures
        s@ == digits(n as nat, 10),
{
    text::string_of(digit_chars(n, 10))
}

/// `n` in lower-case hexadecimal, with zeros up to `width` characters.
pub fn padded_hex(n: u64, width: usize) -> (s: String)
    ensures
        s@ == zero_padded(digits(n as nat, 16), width as nat),
{
    text::string_of(pad(digit_chars(n, 16), width))
}

/// `n` in decimal, sign first, with zeros up to `width` characters.
pub fn padded_decimal(n: i32, width: usize) -> (s: String)
    requires
        width >= 1,
    ensures
        s@ == padded_int(n as int, width as nat),
{
    if n >= 0 {
        text::string_of(pad(digit_chars(n as u64, 10), width))
    } else {
        let mut out: Vec<char> = vec!['-'];
        let mag: u64 = (-(n as i64)) as u64;
        let mut tail: Vec<char> = pad(digit_chars(mag, 10), width - 1);
        out.append(&mut tail);
        assert(out@ =~= padded_int(n as int, width as nat));
        text::string_of(out)
    }
}

pub open spec fn is_digit(c: char) -> bool {
    '0' as int <= c as int <= '9' as int
}

/// The number that a run of decimal digits stands for.
pub open spec fn digits_value(s: Seq<char>) -> nat
    decreases s.len(),
{
    if s.len() == 0 {
        0
    } else {
        (digits_value(s.drop_last()) * 10 + (s.last() as int - '0' as int)) as nat
    }
}

/// An unsigned 64-bit number: an optional `+`, then decimal digits only, at
/// least one, whose value fits.
pub open spec fn parse_u64_spec(s: Seq<char>) -> Option<u64> {
    if s.len() > 0 && s[0] == '+' {
        unsigned_value(s.skip(1))
    } else {
        unsigned_value(s)
    }
}

/// What a text of decimal digits only stands for, where it fits.
pub open spec fn unsigned_value(t: Seq<char>) -> Option<u64> {
    if t.len() > 0 && (forall|i: int| 0 <= i < t.len() ==> is_digit(#[trigger] t[i]))
        && digits_value(t) <= u64::MAX {
        Some(digits_value(t) as u64)
    } else {
        None
    }
}

proof fn lemma_digits_value_monotonic(s: Seq<char>, n: int)
    requires
        0 <= n <= s.len(),
        forall|i: int| 0 <= i < s.len() ==> is_digit(#[trigger] s[i]),
    ensures
        digits_value(s.take(n)) <= digits_value(s),
    decreases s.len(),
{
    if n == s.len() {
        assert(s.take(n) =~= s);
    } else {
        let t = s.drop_last();
        assert forall|i: int| 0 <= i < t.len() implies is_digit(#[trigger] t[i]) by {
            assert(t[i] == s[i]);
        }
        assert(is_digit(s[s.len() - 1]));
        lemma_digits_value_monotonic(t, n);
        assert(t.take(n) =~= s.take(n));
    }
}

pub fn parse_u64(s: &str) -> (r: Option<u64>)
    ensures
        r == parse_u64_spec(s@),
{
    let v: Vec<char> = text::chars_of(s);
    let from: usize = if v.len() > 0 && v[0] == '+' { 1 } else { 0 };
    let ghost t = s@.skip(from as int);
    proof {
        assert(s@.skip(0) =~= s@);
    }
    if v.len() == from {
        return None;
    }
    let mut value: u64 = 0;
    let mut i: usize = from;
    proof {
        assert(t.take(0) =~= Seq::empty());
    }
    while i < v.len()
        invariant
            v@ == s@,
            t == s@.skip(from as int),
            from <= i <= v@.len(),
            parse_u64_spec(s@) == unsigned_value(t),
            t.len() > 0,
            forall|j: int| 0 <= j < i - from ==> is_digit(#[trigger] t[j]),
            value == digits_value(t.take(i - from)),
        decreases v@.len() - i,
    {
        let n: u32 = text::code(v[i]);
        assert(t[i - from] == v@[i as int]);
        if n < 48 || n > 57 {
            assert(!is_digit(t[i - from]));
            return None;
        }
        let d: u64 = (n - 48) as u64;
        proof {
            let next = t.take(i - from + 1);
            assert(next.drop_last() =~= t.take(i - from));
            assert(next.last() == v@[i as int]);
            assert(digits_value(next) == value * 10 + d);
            if forall|j: int| 0 <= j < t.len() ==> is_digit(#[trigger] t[j]) {
                lemma_digits_value_monotonic(t, i - from + 1);
            }
        }
        if value > (u64::MAX - d) / 10 {
            return None;
        }
        value = value * 10 + d;
        i = i + 1;
    }
    assert(t.take(v@.len() - from) =~= t);
    Some(value)
}

} // verus!
