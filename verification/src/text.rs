//! Decimal and hexadecimal renderings and the unsigned decimal grammar the corpora use.

use vstd::prelude::*;

verus! {

/// The ASCII digit character for a value below 16, lower-case for 10..16.
pub open spec fn digit_char(d: nat) -> char {
    if d < 10 {
        (48 + d) as char
    } else {
        (87 + d) as char
    }
}

/// The decimal spelling of `n`, without leading zeros (`0` is spelled `"0"`).
pub open spec fn decimal(n: nat) -> Seq<char>
    decreases n,
{
    if n < 10 {
        seq![digit_char(n)]
    } else {
        decimal(n / 10).push(digit_char(n % 10))
    }
}

/// The last `width` hexadecimal digits of `n`, lower-case, most significant first.
pub open spec fn hex_fixed(n: nat, width: nat) -> Seq<char>
    decreases width,
{
    if width == 0 {
        Seq::empty()
    } else {
        hex_fixed(n / 16, (width - 1) as nat).push(digit_char(n % 16))
    }
}

/// `String::push` from std: appends `c`. The contract claims what its documentation says: the
/// text afterwards is the text before followed by `c`.
#[verifier::external_body]
pub(crate) fn push_char(s: &mut String, c: char)
    ensures
        final(s)@ == old(s)@.push(c),
{
    s.push(c);
}

/// `String::push_str` from std: appends `t`. The contract claims what its documentation says: the
/// text afterwards is the text before followed by the text of `t`.
#[verifier::external_body]
pub(crate) fn push_str(s: &mut String, t: &str)
    ensures
        final(s)@ == old(s)@ + t@,
{
    s.push_str(t);
}

/// The character of a digit value below 16.
pub fn digit(d: u64) -> (c: char)
    requires
        d < 16,
    ensures
        c == digit_char(d as nat),
{
    if d < 10 {
        ((48 + d) as u8) as char
    } else {
        ((87 + d) as u8) as char
    }
}

/// Appends the decimal spelling of `n`.
pub fn push_decimal(s: &mut String, n: u64)
    ensures
        final(s)@ == old(s)@ + decimal(n as nat),
    decreases n,
{
    if n >= 10 {
        push_decimal(s, n / 10);
    }
    let c = digit(n % 10);
    push_char(s, c);
    assert(decimal(n as nat) =~= if n < 10 {
        seq![digit_char(n as nat)]
    } else {
        decimal((n / 10) as nat).push(digit_char((n % 10) as nat))
    });
}

/// The decimal spelling of `n` as a new string.
pub fn decimal_string(n: u64) -> (s: String)
    ensures
        s@ == decimal(n as nat),
{
    let mut s = String::new();
    push_decimal(&mut s, n);
    assert(Seq::<char>::empty() + decimal(n as nat) =~= decimal(n as nat));
    s
}

/// Appends the last `width` hexadecimal digits of `n`.
pub fn push_hex_fixed(s: &mut String, n: u64, width: u64)
    ensures
        final(s)@ == old(s)@ + hex_fixed(n as nat, width as nat),
    decreases width,
{
    if width > 0 {
        push_hex_fixed(s, n / 16, width - 1);
        let c = digit(n % 16);
        push_char(s, c);
    }
    assert(old(s)@ + hex_fixed(n as nat, width as nat) =~= final(s)@) by {
        if width > 0 {
            assert(hex_fixed(n as nat, width as nat) =~= hex_fixed((n / 16) as nat, (width - 1) as nat).push(
                digit_char((n % 16) as nat),
            ));
        }
    }
}

/// Is `b` an ASCII decimal digit?
pub open spec fn is_digit(b: u8) -> bool {
    48 <= b <= 57
}

/// The value of a run of decimal digits (most significant first).
pub open spec fn digits_value(s: Seq<u8>) -> nat
    decreases s.len(),
{
    if s.len() == 0 {
        0
    } else {
        digits_value(s.drop_last()) * 10 + (s.last() - 48) as nat
    }
}

/// Are all bytes of `s` ASCII digits?
pub open spec fn all_digits(s: Seq<u8>) -> bool {
    forall|i: int| 0 <= i < s.len() ==> is_digit(#[trigger] s[i])
}

/// The digit run of a `u8::from_str` input: the input without one leading `+`, unless the `+` is
/// all there is.
pub open spec fn u8_digit_run(s: Seq<u8>) -> Seq<u8> {
    if s.len() >= 2 && s[0] == 43 {
        s.drop_first()
    } else {
        s
    }
}

/// The unsigned decimal grammar of `from_str` for an unsigned type whose largest value is `max`:
/// an optional `+` (not alone), then one or more ASCII digits whose value is at most `max`.
/// Leading zeros are accepted.
pub open spec fn parse_uint_spec(s: Seq<u8>, max: nat) -> Option<nat> {
    let digits = u8_digit_run(s);
    if digits.len() == 0 || !all_digits(digits) || digits_value(digits) > max {
        None
    } else {
        Some(digits_value(digits))
    }
}

/// The grammar of `u8::from_str`.
pub open spec fn parse_u8_spec(s: Seq<u8>) -> Option<u8> {
    match parse_uint_spec(s, 255) {
        Some(v) => Some(v as u8),
        None => None,
    }
}

proof fn lemma_digits_value_monotone(s: Seq<u8>, k: int)
    requires
        0 <= k <= s.len(),
        forall|i: int| 0 <= i < s.len() ==> is_digit(#[trigger] s[i]),
    ensures
        digits_value(s.subrange(0, k)) <= digits_value(s),
    decreases s.len(),
{
    if k < s.len() {
        assert(s.drop_last().subrange(0, k) =~= s.subrange(0, k));
        lemma_digits_value_monotone(s.drop_last(), k);
    } else {
        assert(s.subrange(0, k) =~= s);
    }
}

/// Parses `bytes[start..end]` with the unsigned grammar of `from_str`, for a type whose largest
/// value is `max`.
pub fn parse_uint(bytes: &[u8], start: usize, end: usize, max: u64) -> (r: Option<u64>)
    requires
        start <= end <= bytes@.len(),
    ensures
        match r {
            Some(v) => parse_uint_spec(bytes@.subrange(start as int, end as int), max as nat) == Some(v as nat),
            None => parse_uint_spec(bytes@.subrange(start as int, end as int), max as nat) is None,
        },
{
    let ghost s = bytes@.subrange(start as int, end as int);
    let mut i = start;
    if end - start >= 2 && bytes[start] == 43 {
        i = start + 1;
    }
    let ghost digits = bytes@.subrange(i as int, end as int);
    assert(digits =~= u8_digit_run(s));
    if i == end {
        assert(digits.len() == 0);
        return None;
    }
    let mut m = i;
    while m < end
        invariant
            i <= m <= end <= bytes@.len(),
            digits == bytes@.subrange(i as int, end as int),
            digits == u8_digit_run(bytes@.subrange(start as int, end as int)),
            forall|k: int| i <= k < m ==> is_digit(#[trigger] bytes@[k]),
        decreases end - m,
    {
        if !(48 <= bytes[m] && bytes[m] <= 57) {
            assert(digits[m - i] == bytes@[m as int]);
            assert(!all_digits(digits));
            return None;
        }
        m = m + 1;
    }
    assert forall|k: int| 0 <= k < digits.len() implies is_digit(#[trigger] digits[k]) by {
        assert(digits[k] == bytes@[i + k]);
    }
    let mut value: u64 = 0;
    let mut j = i;
    while j < end
        invariant
            i <= j <= end <= bytes@.len(),
            digits == bytes@.subrange(i as int, end as int),
            digits == u8_digit_run(bytes@.subrange(start as int, end as int)),
            forall|k: int| 0 <= k < digits.len() ==> is_digit(#[trigger] digits[k]),
            value as nat == digits_value(bytes@.subrange(i as int, j as int)),
            value <= max,
        decreases end - j,
    {
        let b = bytes[j];
        assert(digits[j - i] == b);
        let ghost prefix = bytes@.subrange(i as int, j as int);
        let ghost next = bytes@.subrange(i as int, j + 1);
        assert(next.drop_last() =~= prefix);
        assert(next.last() == b);
        assert(digits_value(next) == digits_value(prefix) * 10 + (b - 48) as nat);
        let d = (b - 48) as u64;
        if d > max || value > (max - d) / 10 {
            proof {
                if d <= max {
                    assert(value * 10 + d > max) by (nonlinear_arith)
                        requires
                            value > (max - d) / 10,
                            d <= max,
                    ;
                }
                assert(digits.subrange(0, (j + 1 - i) as int) =~= next);
                lemma_digits_value_monotone(digits, (j + 1 - i) as int);
            }
            return None;
        }
        assert(value * 10 + d <= max) by (nonlinear_arith)
            requires
                value <= (max - d) / 10,
                d <= max,
        ;
        value = value * 10 + d;
        j = j + 1;
    }
    assert(bytes@.subrange(i as int, j as int) =~= digits);
    Some(value)
}

/// Parses `bytes[start..end]` with the grammar of `u8::from_str`.
pub fn parse_u8(bytes: &[u8], start: usize, end: usize) -> (r: Option<u8>)
    requires
        start <= end <= bytes@.len(),
    ensures
        r == parse_u8_spec(bytes@.subrange(start as int, end as int)),
{
    match parse_uint(bytes, start, end, 255) {
        Some(v) => Some(v as u8),
        None => None,
    }
}

} // verus!
