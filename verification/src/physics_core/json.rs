//! The minimal JSON reader of the corpus and the digitized curves, over bytes. A byte outside an
//! escape stands for the character with the same code point (Latin-1). Numbers are kept as their
//! text, checked against the grammar of `f64`'s `from_str`; objects keep their keys unique and in
//! ascending order, as a `BTreeMap<String, _>` iterates them.

use vstd::prelude::*;
use vstd::string::StrSliceExecFns;
use vstd::string::StringSliceAdditionalSpecFns;
use crate::text::{all_digits, decimal, is_digit, push_char, push_decimal, push_str};

verus! {

/// Is the byte, read as the character of the same code point, white space? (`\t`, `\n`, vertical
/// tab, form feed, `\r`, space, NEL and no-break space.)
pub open spec fn is_ws_byte(c: u8) -> bool {
    c == 9 || c == 10 || c == 11 || c == 12 || c == 13 || c == 32 || c == 0x85 || c == 0xA0
}

/// The first position at or after `i` that is not white space (or the end).
pub open spec fn skip_ws_spec(b: Seq<u8>, i: int) -> int
    decreases b.len() - i,
{
    if i < b.len() && i >= 0 && is_ws_byte(b[i]) {
        skip_ws_spec(b, i + 1)
    } else {
        i
    }
}

/// Advances `i` past white space.
pub fn skip_ws(b: &[u8], i: &mut usize)
    ensures
        *final(i) == skip_ws_spec(b@, *old(i) as int),
{
    while *i < b.len() && (b[*i] == 9 || b[*i] == 10 || b[*i] == 11 || b[*i] == 12 || b[*i] == 13
        || b[*i] == 32 || b[*i] == 0x85 || b[*i] == 0xA0)
        invariant
            skip_ws_spec(b@, *i as int) == skip_ws_spec(b@, *old(i) as int),
        decreases b@.len() - *i,
    {
        *i = *i + 1;
    }
}

/// Is `c` an ASCII hexadecimal digit?
pub open spec fn is_hex(c: u8) -> bool {
    (48 <= c <= 57) || (65 <= c <= 70) || (97 <= c <= 102)
}

/// The value of a hexadecimal digit.
pub open spec fn hex_val(c: u8) -> nat {
    if c <= 57 {
        (c - 48) as nat
    } else if c <= 70 {
        (c - 55) as nat
    } else {
        (c - 87) as nat
    }
}

/// The value of a run of hexadecimal digits.
pub open spec fn hex_run(s: Seq<u8>) -> nat
    decreases s.len(),
{
    if s.len() == 0 {
        0
    } else {
        hex_run(s.drop_last()) * 16 + hex_val(s.last())
    }
}

/// The code point of the four bytes after `\u`, read by `u32::from_str_radix(_, 16)`: an
/// optional `+`, then hex digits; anything else reads as 0.
pub open spec fn escape_code(s: Seq<u8>) -> nat {
    if s[0] == 43 && is_hex(s[1]) && is_hex(s[2]) && is_hex(s[3]) {
        hex_run(s.subrange(1, 4))
    } else if is_hex(s[0]) && is_hex(s[1]) && is_hex(s[2]) && is_hex(s[3]) {
        hex_run(s)
    } else {
        0
    }
}

/// The character of a code point, or `?` for a surrogate.
pub open spec fn escape_char(cp: nat) -> char {
    if 0xD800 <= cp <= 0xDFFF {
        '?'
    } else {
        cp as char
    }
}

/// The outcome of reading a string body from `i` with `out` read so far: the characters or
/// `None` for an unterminated string, and the position after it.
pub open spec fn str_body(b: Seq<u8>, i: int, out: Seq<char>) -> (Option<Seq<char>>, int)
    decreases b.len() - i,
{
    if i < 0 || i >= b.len() {
        (None, i)
    } else {
        let c = b[i];
        if c == 34 {
            (Some(out), i + 1)
        } else if c == 92 {
            if i + 1 >= b.len() {
                (None, i + 1)
            } else {
                let e = b[i + 1];
                if e == 110 {
                    str_body(b, i + 2, out.push('\n'))
                } else if e == 116 {
                    str_body(b, i + 2, out.push('\t'))
                } else if e == 114 {
                    str_body(b, i + 2, out.push('\r'))
                } else if e == 117 {
                    if i + 6 <= b.len() {
                        str_body(b, i + 6, out.push(escape_char(escape_code(b.subrange(i + 2, i + 6)))))
                    } else {
                        str_body(b, i + 2, out)
                    }
                } else {
                    str_body(b, i + 2, out.push(e as char))
                }
            }
        } else {
            str_body(b, i + 1, out.push(c as char))
        }
    }
}

/// Reading a string literal at `i`: after white space, a `"`; then the body up to the closing
/// `"`, with `\n`, `\t`, `\r`, `\uXXXX` and `\c` (for any other byte `c`) escapes. The result
/// and the position after it; the errors name the position where a string was expected, or the
/// unterminated string.
pub open spec fn parse_str_spec(b: Seq<u8>, i: int) -> (Result<Seq<char>, Seq<char>>, int) {
    let j = skip_ws_spec(b, i);
    if j >= b.len() || b[j] != 34 {
        (Err("expected string at "@ + decimal(j as nat)), j)
    } else {
        match str_body(b, j + 1, Seq::empty()) {
            (Some(s), k) => (Ok(s), k),
            (None, k) => (Err("unterminated string"@), k),
        }
    }
}

/// `char::from_u32` from std: the character with code point `cp`, if `cp` is a Unicode scalar
/// value. The contract claims what its documentation says: `Some` exactly for the values up to
/// U+10FFFF outside the surrogates U+D800–U+DFFF, holding the character of that code point.
#[verifier::external_body]
fn char_from_u32(cp: u32) -> (r: Option<char>)
    ensures
        r == (if cp <= 0x10FFFF && !(0xD800 <= cp <= 0xDFFF) { Some(cp as char) } else { None }),
{
    char::from_u32(cp)
}

fn hex_digit(c: u8) -> (r: Option<u32>)
    ensures
        r == (if is_hex(c) { Some(hex_val(c) as u32) } else { None }),
{
    if 48 <= c && c <= 57 {
        Some((c - 48) as u32)
    } else if 65 <= c && c <= 70 {
        Some((c - 55) as u32)
    } else if 97 <= c && c <= 102 {
        Some((c - 87) as u32)
    } else {
        None
    }
}

/// A run of three or four digits unfolds to the positional value.
proof fn lemma_hex_run_small(s: Seq<u8>)
    requires
        s.len() == 3 || s.len() == 4,
    ensures
        s.len() == 3 ==> hex_run(s) == (hex_val(s[0]) * 16 + hex_val(s[1])) * 16 + hex_val(s[2]),
        s.len() == 4 ==> hex_run(s) == ((hex_val(s[0]) * 16 + hex_val(s[1])) * 16 + hex_val(s[2]))
            * 16 + hex_val(s[3]),
{
    reveal_with_fuel(hex_run, 5);
    if s.len() == 3 {
        assert(s.drop_last().drop_last().drop_last() =~= Seq::<u8>::empty());
        assert(s.drop_last().drop_last() =~= seq![s[0]]);
        assert(s.drop_last() =~= seq![s[0], s[1]]);
    } else {
        assert(s.drop_last().drop_last().drop_last().drop_last() =~= Seq::<u8>::empty());
        assert(s.drop_last().drop_last().drop_last() =~= seq![s[0]]);
        assert(s.drop_last().drop_last() =~= seq![s[0], s[1]]);
        assert(s.drop_last() =~= seq![s[0], s[1], s[2]]);
    }
}

fn escape_code_exec(b: &[u8], k: usize) -> (cp: u32)
    requires
        k + 4 <= b@.len(),
    ensures
        cp as nat == escape_code(b@.subrange(k as int, k + 4)),
        cp <= 0xFFFF,
{
    let ghost s = b@.subrange(k as int, k + 4);
    assert(s[0] == b@[k as int] && s[1] == b@[k + 1] && s[2] == b@[k + 2] && s[3] == b@[k + 3]);
    let d0 = hex_digit(b[k]);
    let d1 = hex_digit(b[k + 1]);
    let d2 = hex_digit(b[k + 2]);
    let d3 = hex_digit(b[k + 3]);
    match (d1, d2, d3) {
        (Some(x1), Some(x2), Some(x3)) => {
            if b[k] == 43 {
                proof {
                    let t = s.subrange(1, 4);
                    lemma_hex_run_small(t);
                }
                return (x1 * 16 + x2) * 16 + x3;
            }
            match d0 {
                Some(x0) => {
                    proof {
                        lemma_hex_run_small(s);
                    }
                    ((x0 * 16 + x1) * 16 + x2) * 16 + x3
                },
                None => 0,
            }
        },
        _ => 0,
    }
}

fn unterminated() -> (m: String)
    ensures
        m@ == "unterminated string"@,
{
    let mut m = String::new();
    push_str(&mut m, "unterminated string");
    m
}

/// Reads a string literal at `*i` (after white space), leaving `*i` after it.
pub fn parse_str(b: &[u8], i: &mut usize) -> (r: Result<String, String>)
    ensures
        (match r {
            Ok(s) => Ok(s@),
            Err(m) => Err(m@),
        }, *final(i) as int) == parse_str_spec(b@, *old(i) as int),
{
    skip_ws(b, i);
    if *i >= b.len() || b[*i] != 34 {
        let mut m = String::new();
        push_str(&mut m, "expected string at ");
        push_decimal(&mut m, *i as u64);
        return Err(m);
    }
    let ghost j = *i as int;
    *i = *i + 1;
    let mut out = String::new();
    while *i < b.len()
        invariant
            j + 1 <= *i <= b@.len(),
            j == skip_ws_spec(b@, *old(i) as int),
            0 <= j < b@.len(),
            b@[j] == 34,
            str_body(b@, *i as int, out@) == str_body(b@, j + 1, Seq::empty()),
        decreases b@.len() - *i,
    {
        let c = b[*i];
        *i = *i + 1;
        if c == 34 {
            return Ok(out);
        } else if c == 92 {
            if *i >= b.len() {
                return Err(unterminated());
            }
            let e = b[*i];
            *i = *i + 1;
            if e == 110 {
                push_char(&mut out, '\n');
            } else if e == 116 {
                push_char(&mut out, '\t');
            } else if e == 114 {
                push_char(&mut out, '\r');
            } else if e == 117 {
                if b.len() - *i >= 4 {
                    let cp = escape_code_exec(b, *i);
                    *i = *i + 4;
                    let ch = match char_from_u32(cp) {
                        Some(ch) => ch,
                        None => '?',
                    };
                    push_char(&mut out, ch);
                }
            } else {
                push_char(&mut out, e as char);
            }
        } else {
            push_char(&mut out, c as char);
        }
    }
    Err(unterminated())
}


// ------------------------------------------------------------------ positions of the lexical layer

/// Skipping white space never moves back, stays within the input when it starts there, and does
/// nothing past its end.
pub proof fn lemma_skip_ws_bounds(b: Seq<u8>, i: int)
    ensures
        i <= skip_ws_spec(b, i),
        i <= b.len() ==> skip_ws_spec(b, i) <= b.len(),
        i > b.len() ==> skip_ws_spec(b, i) == i,
    decreases b.len() - i,
{
    if i < b.len() && is_ws_byte(b[i]) {
        lemma_skip_ws_bounds(b, i + 1);
    }
}

/// Reading a string body never moves back; a terminated body ends after at least one byte and
/// within the input; the reader stays within the input when it starts there.
pub proof fn lemma_str_body_bounds(b: Seq<u8>, i: int, out: Seq<char>)
    requires
        0 <= i,
    ensures
        str_body(b, i, out).1 >= i,
        str_body(b, i, out).0 is Some ==> i + 1 <= str_body(b, i, out).1 <= b.len(),
        i <= b.len() ==> str_body(b, i, out).1 <= b.len(),
        i > b.len() ==> str_body(b, i, out).1 == i,
    decreases b.len() - i,
{
    if 0 <= i < b.len() {
        let c = b[i];
        if c == 34 {
        } else if c == 92 {
            if i + 1 < b.len() {
                let e = b[i + 1];
                if e == 110 {
                    lemma_str_body_bounds(b, i + 2, out.push('\n'));
                } else if e == 116 {
                    lemma_str_body_bounds(b, i + 2, out.push('\t'));
                } else if e == 114 {
                    lemma_str_body_bounds(b, i + 2, out.push('\r'));
                } else if e == 117 {
                    if i + 6 <= b.len() {
                        lemma_str_body_bounds(
                            b,
                            i + 6,
                            out.push(escape_char(escape_code(b.subrange(i + 2, i + 6)))),
                        );
                    } else {
                        lemma_str_body_bounds(b, i + 2, out);
                    }
                } else {
                    lemma_str_body_bounds(b, i + 2, out.push(e as char));
                }
            }
        } else {
            lemma_str_body_bounds(b, i + 1, out.push(c as char));
        }
    }
}

/// Where a string literal read at `i` leaves the reader: on success after the closing quote, at
/// least two bytes on and within the input; on failure at or after `i`, and within the input
/// when `i` was.
pub proof fn lemma_parse_str_bounds(b: Seq<u8>, i: int)
    requires
        0 <= i,
    ensures
        parse_str_spec(b, i).1 >= i,
        parse_str_spec(b, i).0 is Ok ==> i + 2 <= parse_str_spec(b, i).1 <= b.len(),
        i <= b.len() ==> parse_str_spec(b, i).1 <= b.len(),
        i > b.len() ==> parse_str_spec(b, i).1 == i,
{
    lemma_skip_ws_bounds(b, i);
    let j = skip_ws_spec(b, i);
    if j < b.len() && b[j] == 34 {
        lemma_str_body_bounds(b, j + 1, Seq::empty());
    }
}

// ------------------------------------------------------------------ numbers

/// May the byte appear in a number's text? (Digits, signs, the point and the exponent marks.)
pub open spec fn is_num_byte(c: u8) -> bool {
    is_digit(c) || c == 43 || c == 45 || c == 46 || c == 101 || c == 69
}

/// The end of the number text starting at `i`: the first position that may not appear in one.
pub open spec fn num_end(b: Seq<u8>, i: int) -> int
    decreases b.len() - i,
{
    if 0 <= i < b.len() && is_num_byte(b[i]) {
        num_end(b, i + 1)
    } else {
        i
    }
}

/// Is the byte a sign?
pub open spec fn is_sign(c: u8) -> bool {
    c == 43 || c == 45
}

/// The end of the digit run of `s` starting at `k`.
pub open spec fn digits_end(s: Seq<u8>, k: int) -> int
    decreases s.len() - k,
{
    if 0 <= k < s.len() && is_digit(s[k]) {
        digits_end(s, k + 1)
    } else {
        k
    }
}

/// The grammar `f64::from_str` accepts, over texts made of digits, signs, points and exponent
/// marks: an optional sign; digits, an optional point and more digits, with at least one digit
/// in all; then optionally `e` or `E`, an optional sign and at least one digit; nothing else.
pub open spec fn float_text_ok(s: Seq<u8>) -> bool {
    let k0: int = if s.len() > 0 && is_sign(s[0]) { 1 } else { 0 };
    let k1 = digits_end(s, k0);
    let k2 = if k1 < s.len() && s[k1] == 46 { digits_end(s, k1 + 1) } else { k1 };
    let fraction = if k1 < s.len() && s[k1] == 46 { k2 - k1 - 1 } else { 0 };
    &&& (k1 - k0) + fraction >= 1
    &&& (k2 == s.len() || ({
        let k3: int = if k2 + 1 < s.len() && is_sign(s[k2 + 1]) { k2 + 2 } else { k2 + 1 };
        &&& (s[k2] == 101 || s[k2] == 69)
        &&& digits_end(s, k3) == s.len()
        &&& s.len() > k3
    }))
}

/// Bytes read as the characters of the same code points.
pub open spec fn latin1(s: Seq<u8>) -> Seq<char> {
    s.map_values(|c: u8| c as char)
}

// ------------------------------------------------------------------ values

/// A JSON value as the reader understands it: numbers by their text, objects as their entries in
/// ascending key order.
pub enum JsonV {
    Null,
    Bool(bool),
    Num(Seq<char>),
    Str(Seq<char>),
    Arr(Seq<JsonV>),
    Obj(Seq<(Seq<char>, JsonV)>),
}

/// A parsed JSON value. A number holds its text, which `f64::from_str` accepts; an object holds
/// its entries with unique keys in ascending order. Two values are equal when their numbers are
/// equal as `f64`s, which the library cannot decide: the comparison is `json_eq` beside the
/// library, where the floating-point readings are.
#[derive(Debug)]
pub enum Json {
    /// `null`.
    Null,
    /// `true` or `false`.
    Bool(bool),
    /// A number, by its text.
    Num(String),
    /// A string.
    Str(String),
    /// An array.
    Arr(Vec<Json>),
    /// An object: its entries, keys unique and ascending.
    Obj(Vec<(String, Json)>),
}

impl Json {
    /// The value this holds.
    pub open spec fn model(&self) -> JsonV
        decreases self,
    {
        match self {
            Json::Null => JsonV::Null,
            Json::Bool(x) => JsonV::Bool(*x),
            Json::Num(s) => JsonV::Num(s@),
            Json::Str(s) => JsonV::Str(s@),
            Json::Arr(v) => JsonV::Arr(
                Seq::new(
                    v@.len(),
                    |k: int|
                        if 0 <= k < v@.len() {
                            v@[k].model()
                        } else {
                            JsonV::Null
                        },
                ),
            ),
            Json::Obj(m) => JsonV::Obj(
                Seq::new(
                    m@.len(),
                    |k: int|
                        if 0 <= k < m@.len() {
                            (m@[k].0@, m@[k].1.model())
                        } else {
                            (Seq::empty(), JsonV::Null)
                        },
                ),
            ),
        }
    }
}

/// The values of a list of JSON values.
pub open spec fn models(v: Seq<Json>) -> Seq<JsonV> {
    v.map_values(|x: Json| x.model())
}

/// The entries of an object, by their keys' texts and their values.
pub open spec fn entry_models(m: Seq<(String, Json)>) -> Seq<(Seq<char>, JsonV)> {
    m.map_values(|e: (String, Json)| (e.0@, e.1.model()))
}

/// A reader's outcome: the value or the error's text.
pub open spec fn outcome(r: Result<Json, String>) -> Result<JsonV, Seq<char>> {
    match r {
        Ok(v) => Ok(v.model()),
        Err(e) => Err(e@),
    }
}

/// Does key `a` sort strictly before key `b`, comparing from position `k` on? Code points are
/// compared in order, and a proper prefix sorts first: the order of `String` (its UTF-8 bytes
/// compare as its code points do).
pub open spec fn key_lt_from(a: Seq<char>, b: Seq<char>, k: int) -> bool
    decreases a.len() - k,
{
    if k >= a.len() {
        k < b.len()
    } else if k >= b.len() {
        false
    } else if a[k] != b[k] {
        (a[k] as int) < (b[k] as int)
    } else {
        key_lt_from(a, b, k + 1)
    }
}

/// Does key `a` sort strictly before key `b`?
pub open spec fn key_lt(a: Seq<char>, b: Seq<char>) -> bool {
    key_lt_from(a, b, 0)
}

/// The entries after inserting `key` with `value`: an entry with that key has its value
/// replaced; otherwise the entry goes before the first entry whose key sorts after it.
pub open spec fn insert_entry_spec(m: Seq<(Seq<char>, JsonV)>, key: Seq<char>, value: JsonV) -> Seq<
    (Seq<char>, JsonV),
>
    decreases m.len(),
{
    if m.len() == 0 {
        seq![(key, value)]
    } else if m[0].0 == key {
        m.update(0, (key, value))
    } else if key_lt(key, m[0].0) {
        seq![(key, value)] + m
    } else {
        seq![m[0]] + insert_entry_spec(m.drop_first(), key, value)
    }
}

/// Reading a value at `i`: after white space, an object, an array, a string, `true` (any `t`
/// and the three bytes after it), `false` (any `f` and four more), `null` (any `n` and three
/// more), or a number. The value or the error, and the position after it.
pub open spec fn value_spec(b: Seq<u8>, i: nat) -> (Result<JsonV, Seq<char>>, int)
    decreases b.len() - i, 0int,
{
    let j = skip_ws_spec(b, i as int);
    if j >= b.len() {
        (Err("eof"@), j)
    } else {
        proof {
            lemma_skip_ws_bounds(b, i as int);
        }
        if b[j] == 123 {
            obj_items(b, (j + 1) as nat, Seq::empty())
        } else if b[j] == 91 {
            arr_items(b, (j + 1) as nat, Seq::empty())
        } else if b[j] == 34 {
            match parse_str_spec(b, j) {
                (Ok(s), k) => (Ok(JsonV::Str(s)), k),
                (Err(e), k) => (Err(e), k),
            }
        } else if b[j] == 116 {
            (Ok(JsonV::Bool(true)), j + 4)
        } else if b[j] == 102 {
            (Ok(JsonV::Bool(false)), j + 5)
        } else if b[j] == 110 {
            (Ok(JsonV::Null), j + 4)
        } else {
            num_spec(b, j)
        }
    }
}

/// Reading a number's text at `i`: the longest run of number bytes, accepted when it is in the
/// grammar of `f64::from_str`.
pub open spec fn num_spec(b: Seq<u8>, i: int) -> (Result<JsonV, Seq<char>>, int) {
    let e = num_end(b, i);
    let text = b.subrange(i, e);
    if float_text_ok(text) {
        (Ok(JsonV::Num(latin1(text))), e)
    } else {
        (Err("bad number "@ + latin1(text)), e)
    }
}

/// Reading the rest of an object from `i` (after its `{` or a `,`), with `acc` read so far:
/// `}` ends it; otherwise a key string, an optional `:`, a value, and an optional `,`. A value
/// always spans at least one byte, so the position advances at each entry; the guard on that
/// only lets the definition terminate.
pub open spec fn obj_items(b: Seq<u8>, i: nat, acc: Seq<(Seq<char>, JsonV)>) -> (
    Result<JsonV, Seq<char>>,
    int,
)
    decreases b.len() - i, 1int,
{
    let j = skip_ws_spec(b, i as int);
    if j < b.len() && b[j] == 125 {
        (Ok(JsonV::Obj(acc)), j + 1)
    } else {
        match parse_str_spec(b, j) {
            (Err(e), k) => (Err(e), k),
            (Ok(key), k) => {
                proof {
                    lemma_skip_ws_bounds(b, i as int);
                    lemma_parse_str_bounds(b, j);
                    lemma_skip_ws_bounds(b, k);
                }
                let c = skip_ws_spec(b, k);
                let v0 = if c < b.len() && b[c] == 58 { c + 1 } else { c };
                match value_spec(b, v0 as nat) {
                    (Err(e), p) => (Err(e), p),
                    (Ok(v), p) => {
                        let q = skip_ws_spec(b, p);
                        let n = if 0 <= q < b.len() && b[q] == 44 { q + 1 } else { q };
                        if n > b.len() {
                            (Err("expected string at "@ + decimal(n as nat)), n)
                        } else if n <= i {
                            (Err("eof"@), n)
                        } else {
                            obj_items(b, n as nat, insert_entry_spec(acc, key, v))
                        }
                    },
                }
            },
        }
    }
}

/// Reading the rest of an array from `i` (after its `[` or a `,`), with `acc` read so far: `]`
/// ends it; otherwise a value and an optional `,`. As for objects, the guard on the position's
/// advance only lets the definition terminate.
pub open spec fn arr_items(b: Seq<u8>, i: nat, acc: Seq<JsonV>) -> (Result<JsonV, Seq<char>>, int)
    decreases b.len() - i, 1int,
{
    let j = skip_ws_spec(b, i as int);
    if j < b.len() && b[j] == 93 {
        (Ok(JsonV::Arr(acc)), j + 1)
    } else if j > b.len() {
        (Err("eof"@), j)
    } else {
        proof {
            lemma_skip_ws_bounds(b, i as int);
        }
        match value_spec(b, j as nat) {
            (Err(e), p) => (Err(e), p),
            (Ok(v), p) => {
                let q = skip_ws_spec(b, p);
                let n = if 0 <= q < b.len() && b[q] == 44 { q + 1 } else { q };
                if n > b.len() {
                    (Err("eof"@), n)
                } else if n <= i {
                    (Err("eof"@), n)
                } else {
                    arr_items(b, n as nat, acc.push(v))
                }
            },
        }
    }
}

// ------------------------------------------------------------------ how far a reader goes

proof fn lemma_num_end_bounds(b: Seq<u8>, i: int)
    requires
        0 <= i,
    ensures
        i <= num_end(b, i),
        i <= b.len() ==> num_end(b, i) <= b.len(),
        i > b.len() ==> num_end(b, i) == i,
    decreases b.len() - i,
{
    if 0 <= i < b.len() && is_num_byte(b[i]) {
        lemma_num_end_bounds(b, i + 1);
    }
}

proof fn lemma_empty_text_is_no_number()
    ensures
        !float_text_ok(Seq::<u8>::empty()),
{
}

/// Where reading a value at `i` leaves the reader: never before `i`, at most four bytes past the
/// input's end (the literals are skipped unread), and strictly after `i` when a value was read.
pub proof fn lemma_value_bounds(b: Seq<u8>, i: nat)
    requires
        i <= b.len() + 4,
    ensures
        value_spec(b, i).1 >= i,
        value_spec(b, i).1 <= b.len() + 4,
        value_spec(b, i).0 is Ok ==> value_spec(b, i).1 > i,
    decreases b.len() - i, 0int,
{
    lemma_skip_ws_bounds(b, i as int);
    let j = skip_ws_spec(b, i as int);
    if j < b.len() {
        if b[j] == 123 {
            lemma_obj_bounds(b, (j + 1) as nat, Seq::empty());
        } else if b[j] == 91 {
            lemma_arr_bounds(b, (j + 1) as nat, Seq::empty());
        } else if b[j] == 34 {
            lemma_parse_str_bounds(b, j);
        } else if b[j] == 116 || b[j] == 102 || b[j] == 110 {
        } else {
            lemma_num_end_bounds(b, j);
            if num_end(b, j) == j {
                assert(b.subrange(j, j) =~= Seq::<u8>::empty());
                lemma_empty_text_is_no_number();
            }
        }
    }
}

/// Where reading the rest of an object from `i` leaves the reader: never before `i` and at most
/// four bytes past the input's end.
pub proof fn lemma_obj_bounds(b: Seq<u8>, i: nat, acc: Seq<(Seq<char>, JsonV)>)
    requires
        i <= b.len(),
    ensures
        obj_items(b, i, acc).1 >= i,
        obj_items(b, i, acc).1 <= b.len() + 4,
    decreases b.len() - i, 1int,
{
    lemma_skip_ws_bounds(b, i as int);
    let j = skip_ws_spec(b, i as int);
    if j < b.len() && b[j] == 125 {
    } else {
        lemma_parse_str_bounds(b, j);
        match parse_str_spec(b, j) {
            (Err(e), k) => {},
            (Ok(key), k) => {
                lemma_skip_ws_bounds(b, k);
                let c = skip_ws_spec(b, k);
                let v0 = if c < b.len() && b[c] == 58 { c + 1 } else { c };
                lemma_value_bounds(b, v0 as nat);
                match value_spec(b, v0 as nat) {
                    (Err(e), p) => {},
                    (Ok(v), p) => {
                        lemma_skip_ws_bounds(b, p);
                        let q = skip_ws_spec(b, p);
                        let n = if 0 <= q < b.len() && b[q] == 44 { q + 1 } else { q };
                        if n <= b.len() && n > i {
                            lemma_obj_bounds(b, n as nat, insert_entry_spec(acc, key, v));
                        }
                    },
                }
            },
        }
    }
}

/// Where reading the rest of an array from `i` leaves the reader: never before `i` and at most
/// four bytes past the input's end.
pub proof fn lemma_arr_bounds(b: Seq<u8>, i: nat, acc: Seq<JsonV>)
    requires
        i <= b.len(),
    ensures
        arr_items(b, i, acc).1 >= i,
        arr_items(b, i, acc).1 <= b.len() + 4,
    decreases b.len() - i, 1int,
{
    lemma_skip_ws_bounds(b, i as int);
    let j = skip_ws_spec(b, i as int);
    if j < b.len() && b[j] == 93 {
    } else if j > b.len() {
    } else {
        lemma_value_bounds(b, j as nat);
        match value_spec(b, j as nat) {
            (Err(e), p) => {},
            (Ok(v), p) => {
                lemma_skip_ws_bounds(b, p);
                let q = skip_ws_spec(b, p);
                let n = if 0 <= q < b.len() && b[q] == 44 { q + 1 } else { q };
                if n <= b.len() && n > i {
                    lemma_arr_bounds(b, n as nat, acc.push(v));
                }
            },
        }
    }
}

// ------------------------------------------------------------------ the reader

fn eof() -> (m: String)
    ensures
        m@ == "eof"@,
{
    "eof".to_owned()
}

/// The end of the digit run of `b[start..end]` from `k`, as a position in that slice.
fn digits_end_exec(b: &[u8], start: usize, end: usize, k: usize) -> (r: usize)
    requires
        start <= end <= b@.len(),
        k <= end - start,
    ensures
        r as int == digits_end(b@.subrange(start as int, end as int), k as int),
        k <= r <= end - start,
{
    let ghost s = b@.subrange(start as int, end as int);
    let mut p = k;
    while p < end - start && 48 <= b[start + p] && b[start + p] <= 57
        invariant
            k <= p <= end - start,
            start <= end <= b@.len(),
            s == b@.subrange(start as int, end as int),
            digits_end(s, p as int) == digits_end(s, k as int),
        decreases end - start - p,
    {
        assert(s[p as int] == b@[start + p]);
        p = p + 1;
    }
    proof {
        if p < end - start {
            assert(s[p as int] == b@[start + p]);
        }
    }
    p
}

/// Whether `b[start..end]` is in the grammar of `f64::from_str`.
fn float_text_ok_exec(b: &[u8], start: usize, end: usize) -> (ok: bool)
    requires
        start <= end <= b@.len(),
    ensures
        ok == float_text_ok(b@.subrange(start as int, end as int)),
{
    let ghost s = b@.subrange(start as int, end as int);
    let n = end - start;
    let k0: usize = if n > 0 && (b[start] == 43 || b[start] == 45) { 1 } else { 0 };
    assert(n > 0 ==> s[0] == b@[start as int]);
    let k1 = digits_end_exec(b, start, end, k0);
    let dot = k1 < n && b[start + k1] == 46;
    assert(k1 < n ==> s[k1 as int] == b@[start + k1]);
    let k2 = if dot { digits_end_exec(b, start, end, k1 + 1) } else { k1 };
    let fraction = if dot { k2 - k1 - 1 } else { 0 };
    if (k1 - k0) + fraction < 1 {
        return false;
    }
    if k2 == n {
        return true;
    }
    assert(s[k2 as int] == b@[start + k2]);
    if !(b[start + k2] == 101 || b[start + k2] == 69) {
        return false;
    }
    assert(k2 + 1 < n ==> s[k2 + 1] == b@[start + k2 + 1]);
    let k3 = if k2 + 1 < n && (b[start + k2 + 1] == 43 || b[start + k2 + 1] == 45) {
        k2 + 2
    } else {
        k2 + 1
    };
    let k4 = digits_end_exec(b, start, end, k3);
    k4 == n && n > k3
}

/// Reads a number's text at `*i`: the longest run of number bytes, accepted when `f64::from_str`
/// would accept it.
fn parse_num(b: &[u8], i: &mut usize) -> (r: Result<Json, String>)
    requires
        *old(i) <= b@.len(),
    ensures
        (outcome(r), *final(i) as int) == num_spec(b@, *old(i) as int),
{
    let start = *i;
    while *i < b.len() && (48 <= b[*i] && b[*i] <= 57 || b[*i] == 43 || b[*i] == 45 || b[*i] == 46
        || b[*i] == 101 || b[*i] == 69)
        invariant
            start <= *i <= b@.len(),
            start == *old(i),
            num_end(b@, *i as int) == num_end(b@, start as int),
        decreases b@.len() - *i,
    {
        *i = *i + 1;
    }
    let end = *i;
    let mut text = String::new();
    let mut k = start;
    while k < end
        invariant
            start <= k <= end <= b@.len(),
            text@ == latin1(b@.subrange(start as int, k as int)),
        decreases end - k,
    {
        push_char(&mut text, b[k] as char);
        k = k + 1;
        assert(latin1(b@.subrange(start as int, k as int)) =~= latin1(
            b@.subrange(start as int, k - 1),
        ).push(b@[k - 1] as char));
    }
    if float_text_ok_exec(b, start, end) {
        Ok(Json::Num(text))
    } else {
        let mut m = "bad number ".to_owned();
        push_str(&mut m, text.as_str());
        Err(m)
    }
}

/// Does `a` sort strictly before `b`?
fn key_less(a: &String, b: &String) -> (r: bool)
    ensures
        r == key_lt(a@, b@),
{
    let sa = a.as_str();
    let sb = b.as_str();
    let na = sa.unicode_len();
    let nb = sb.unicode_len();
    let mut k: usize = 0;
    while k < na && k < nb
        invariant
            na == a@.len(),
            nb == b@.len(),
            sa@ == a@,
            sb@ == b@,
            k <= na,
            k <= nb,
            key_lt_from(a@, b@, k as int) == key_lt(a@, b@),
        decreases na - k,
    {
        let ca = sa.get_char(k);
        let cb = sb.get_char(k);
        if ca != cb {
            return (ca as u32) < (cb as u32);
        }
        k = k + 1;
    }
    k >= na && k < nb
}

/// Inserts `key` with `value` into the entries, as `BTreeMap::insert` does.
fn insert_entry(m: &mut Vec<(String, Json)>, key: String, value: Json)
    ensures
        entry_models(final(m)@) == insert_entry_spec(entry_models(old(m)@), key@, value.model()),
{
    let ghost before = entry_models(m@);
    let ghost km = key@;
    let ghost vm = value.model();
    let mut k: usize = 0;
    assert(before.take(0) =~= Seq::<(Seq<char>, JsonV)>::empty());
    assert(before.skip(0) =~= before);
    assert(Seq::<(Seq<char>, JsonV)>::empty() + insert_entry_spec(before, km, vm) =~= insert_entry_spec(
        before,
        km,
        vm,
    ));
    while k < m.len()
        invariant
            k <= m@.len(),
            entry_models(m@) == before,
            before == entry_models(old(m)@),
            km == key@,
            vm == value.model(),
            insert_entry_spec(before, km, vm) == before.take(k as int) + insert_entry_spec(
                before.skip(k as int),
                km,
                vm,
            ),
        decreases m@.len() - k,
    {
        let ghost rest = before.skip(k as int);
        assert(rest[0] == before[k as int]);
        assert(before[k as int] == (m@[k as int].0@, m@[k as int].1.model()));
        if m[k].0 == key {
            let ghost old_m = m@;
            m[k] = (key, value);
            proof {
                assert(insert_entry_spec(rest, km, vm) == rest.update(0, (km, vm)));
                assert(entry_models(m@) =~= before.update(k as int, (km, vm)));
                assert(before.take(k as int) + rest.update(0, (km, vm)) =~= before.update(
                    k as int,
                    (km, vm),
                ));
            }
            return;
        }
        if key_less(&key, &m[k].0) {
            m.insert(k, (key, value));
            proof {
                assert(insert_entry_spec(rest, km, vm) == seq![(km, vm)] + rest);
                assert(entry_models(m@) =~= before.insert(k as int, (km, vm)));
                assert(before.take(k as int) + (seq![(km, vm)] + rest) =~= before.insert(
                    k as int,
                    (km, vm),
                ));
            }
            return;
        }
        proof {
            assert(rest.drop_first() =~= before.skip(k + 1));
            assert(before.take(k as int) + (seq![rest[0]] + before.skip(k + 1)) =~= before.take(
                k + 1,
            ) + before.skip(k + 1));
            assert(before.take(k + 1) =~= before.take(k as int).push(before[k as int]));
            assert(before.take(k as int) + (seq![rest[0]] + insert_entry_spec(
                before.skip(k + 1),
                km,
                vm,
            )) =~= before.take(k + 1) + insert_entry_spec(before.skip(k + 1), km, vm));
        }
        k = k + 1;
    }
    m.push((key, value));
    proof {
        assert(before.skip(k as int) =~= Seq::<(Seq<char>, JsonV)>::empty());
        assert(before.take(k as int) =~= before);
        assert(entry_models(m@) =~= before.push((km, vm)));
    }
}

proof fn lemma_arr_model(v: Vec<Json>)
    ensures
        Json::Arr(v).model() == JsonV::Arr(models(v@)),
{
    assert(Json::Arr(v).model()->Arr_0 =~= models(v@));
}

proof fn lemma_obj_model(m: Vec<(String, Json)>)
    ensures
        Json::Obj(m).model() == JsonV::Obj(entry_models(m@)),
{
    assert(Json::Obj(m).model()->Obj_0 =~= entry_models(m@));
}

/// Reads a value at `*i`.
fn parse_value(b: &[u8], i: &mut usize) -> (r: Result<Json, String>)
    requires
        *old(i) <= b@.len() + 4,
        b@.len() + 8 <= usize::MAX,
    ensures
        (outcome(r), *final(i) as int) == value_spec(b@, *old(i) as nat),
    decreases b@.len() + 5 - *old(i), 0int,
{
    proof {
        lemma_skip_ws_bounds(b@, *i as int);
    }
    skip_ws(b, i);
    if *i >= b.len() {
        return Err(eof());
    }
    let c = b[*i];
    if c == 123 {
        return parse_obj(b, i);
    }
    if c == 91 {
        return parse_arr(b, i);
    }
    if c == 34 {
        return match parse_str(b, i) {
            Ok(s) => Ok(Json::Str(s)),
            Err(e) => Err(e),
        };
    }
    if c == 116 {
        *i = *i + 4;
        return Ok(Json::Bool(true));
    }
    if c == 102 {
        *i = *i + 5;
        return Ok(Json::Bool(false));
    }
    if c == 110 {
        *i = *i + 4;
        return Ok(Json::Null);
    }
    parse_num(b, i)
}

/// Reads an object whose `{` is at `*i`.
fn parse_obj(b: &[u8], i: &mut usize) -> (r: Result<Json, String>)
    requires
        *old(i) < b@.len(),
        b@.len() + 8 <= usize::MAX,
    ensures
        (outcome(r), *final(i) as int) == obj_items(b@, (*old(i) + 1) as nat, Seq::empty()),
    decreases b@.len() + 4 - *old(i), 1int,
{
    *i = *i + 1;
    let mut m: Vec<(String, Json)> = Vec::new();
    assert(entry_models(m@) =~= Seq::<(Seq<char>, JsonV)>::empty());
    loop
        invariant
            *old(i) + 1 <= *i <= b@.len() + 4,
            *old(i) < b@.len(),
            b@.len() + 8 <= usize::MAX,
            obj_items(b@, *i as nat, entry_models(m@)) == obj_items(
                b@,
                (*old(i) + 1) as nat,
                Seq::empty(),
            ),
        decreases b@.len() + 4 - *i,
    {
        let ghost at = *i;
        let ghost acc = entry_models(m@);
        proof {
            lemma_skip_ws_bounds(b@, *i as int);
        }
        skip_ws(b, i);
        if *i < b.len() && b[*i] == 125 {
            *i = *i + 1;
            proof {
                lemma_obj_model(m);
            }
            return Ok(Json::Obj(m));
        }
        proof {
            lemma_parse_str_bounds(b@, *i as int);
        }
        let key = match parse_str(b, i) {
            Ok(k) => k,
            Err(e) => return Err(e),
        };
        let ghost k_at = *i;
        proof {
            lemma_skip_ws_bounds(b@, *i as int);
        }
        skip_ws(b, i);
        if *i < b.len() && b[*i] == 58 {
            *i = *i + 1;
        }
        let ghost v0 = *i;
        let value = match parse_value(b, i) {
            Ok(v) => v,
            Err(e) => return Err(e),
        };
        proof {
            lemma_value_bounds(b@, v0 as nat);
            lemma_skip_ws_bounds(b@, *i as int);
        }
        let ghost key_text = key@;
        let ghost vm = value.model();
        insert_entry(&mut m, key, value);
        skip_ws(b, i);
        if *i < b.len() && b[*i] == 44 {
            *i = *i + 1;
        }
        proof {
            let n = *i;
            if n > b@.len() {
                lemma_skip_ws_bounds(b@, n as int);
                lemma_parse_str_bounds(b@, n as int);
            }
        }
    }
}

/// Reads an array whose `[` is at `*i`.
fn parse_arr(b: &[u8], i: &mut usize) -> (r: Result<Json, String>)
    requires
        *old(i) < b@.len(),
        b@.len() + 8 <= usize::MAX,
    ensures
        (outcome(r), *final(i) as int) == arr_items(b@, (*old(i) + 1) as nat, Seq::empty()),
    decreases b@.len() + 4 - *old(i), 1int,
{
    *i = *i + 1;
    let mut v: Vec<Json> = Vec::new();
    assert(models(v@) =~= Seq::<JsonV>::empty());
    loop
        invariant
            *old(i) + 1 <= *i <= b@.len() + 4,
            *old(i) < b@.len(),
            b@.len() + 8 <= usize::MAX,
            arr_items(b@, *i as nat, models(v@)) == arr_items(
                b@,
                (*old(i) + 1) as nat,
                Seq::empty(),
            ),
        decreases b@.len() + 4 - *i,
    {
        let ghost at = *i;
        proof {
            lemma_skip_ws_bounds(b@, *i as int);
        }
        skip_ws(b, i);
        if *i < b.len() && b[*i] == 93 {
            *i = *i + 1;
            proof {
                lemma_arr_model(v);
            }
            return Ok(Json::Arr(v));
        }
        let ghost j = *i;
        let x = match parse_value(b, i) {
            Ok(x) => x,
            Err(e) => return Err(e),
        };
        proof {
            lemma_value_bounds(b@, j as nat);
            lemma_skip_ws_bounds(b@, *i as int);
        }
        let ghost before = v@;
        v.push(x);
        assert(models(v@) =~= models(before).push(x.model()));
        skip_ws(b, i);
        if *i < b.len() && b[*i] == 44 {
            *i = *i + 1;
        }
        proof {
            let n = *i;
            if n > b@.len() {
                lemma_skip_ws_bounds(b@, n as int);
            }
        }
    }
}

/// Parses a JSON document: the value at its start (what follows the value is not read).
pub fn parse(src: &str) -> (r: Result<Json, String>)
    requires
        src.spec_bytes().len() + 8 <= usize::MAX,
    ensures
        outcome(r) == value_spec(src.spec_bytes(), 0).0,
{
    let bytes = src.as_bytes();
    let mut i: usize = 0;
    match parse_value(bytes, &mut i) {
        Ok(v) => Ok(v),
        Err(e) => Err(e),
    }
}

// ------------------------------------------------------------------ reading a parsed value

/// The value of the first entry with key `k`, from position `from` on.
pub open spec fn lookup(m: Seq<(Seq<char>, JsonV)>, k: Seq<char>, from: int) -> Option<JsonV>
    decreases m.len() - from,
{
    if from < 0 || from >= m.len() {
        None
    } else if m[from].0 == k {
        Some(m[from].1)
    } else {
        lookup(m, k, from + 1)
    }
}

/// The member `k` of an object; nothing for another value.
pub open spec fn member(v: JsonV, k: Seq<char>) -> Option<JsonV> {
    match v {
        JsonV::Obj(m) => lookup(m, k, 0),
        _ => None,
    }
}

/// The element at `i` of an array; nothing for another value or past its end.
pub open spec fn element(v: JsonV, i: int) -> Option<JsonV> {
    match v {
        JsonV::Arr(xs) => if 0 <= i < xs.len() {
            Some(xs[i])
        } else {
            None
        },
        _ => None,
    }
}

/// A deep copy of `j`.
fn copy_json(j: &Json) -> (r: Json)
    ensures
        r.model() == j.model(),
    decreases j,
{
    match j {
        Json::Null => Json::Null,
        Json::Bool(x) => Json::Bool(*x),
        Json::Num(s) => Json::Num(s.clone()),
        Json::Str(s) => Json::Str(s.clone()),
        Json::Arr(v) => {
            let out = copy_all(v);
            proof {
                lemma_arr_model(*v);
                lemma_arr_model(out);
            }
            Json::Arr(out)
        },
        Json::Obj(m) => {
            let out = copy_entries(m);
            proof {
                lemma_obj_model(*m);
                lemma_obj_model(out);
            }
            Json::Obj(out)
        },
    }
}

/// Deep copies of the entries of `m`, in order.
fn copy_entries(m: &Vec<(String, Json)>) -> (out: Vec<(String, Json)>)
    ensures
        entry_models(out@) == entry_models(m@),
    decreases m,
{
    let mut out: Vec<(String, Json)> = Vec::new();
    let mut k: usize = 0;
    while k < m.len()
        invariant
            k <= m@.len(),
            entry_models(out@) == entry_models(m@).take(k as int),
        decreases m@.len() - k,
    {
        assert(decreases_to!(m => m@[k as int]));
        assert(decreases_to!(m@[k as int] => m@[k as int].1));
        let c = copy_json(&m[k].1);
        let ghost before = out@;
        out.push((m[k].0.clone(), c));
        assert(entry_models(out@) =~= entry_models(before).push((m@[k as int].0@, m@[k as int].1.model())));
        assert(entry_models(m@).take(k + 1) =~= entry_models(m@).take(k as int).push(entry_models(m@)[k as int]));
        k = k + 1;
    }
    assert(entry_models(m@).take(m@.len() as int) =~= entry_models(m@));
    out
}

/// Deep copies of the values of `v`, in order.
fn copy_all(v: &Vec<Json>) -> (out: Vec<Json>)
    ensures
        models(out@) == models(v@),
    decreases v,
{
    let mut out: Vec<Json> = Vec::new();
    let mut k: usize = 0;
    while k < v.len()
        invariant
            k <= v@.len(),
            models(out@) == models(v@).take(k as int),
        decreases v@.len() - k,
    {
        assert(decreases_to!(v => v@[k as int]));
        let c = copy_json(&v[k]);
        let ghost before = out@;
        out.push(c);
        assert(models(out@) =~= models(before).push(v@[k as int].model()));
        assert(models(v@).take(k + 1) =~= models(v@).take(k as int).push(models(v@)[k as int]));
        k = k + 1;
    }
    assert(models(v@).take(v@.len() as int) =~= models(v@));
    out
}

impl Clone for Json {
    /// A deep copy.
    fn clone(&self) -> (r: Self)
        ensures
            r.model() == self.model(),
    {
        copy_json(self)
    }
}

impl Json {
    /// The member `k` of an object, or `None` (also for a value that is not an object).
    pub fn get(&self, k: &str) -> (r: Option<&Json>)
        ensures
            match r {
                Some(x) => member(self.model(), k@) == Some(x.model()),
                None => member(self.model(), k@) is None,
            },
    {
        match self {
            Json::Obj(m) => {
                proof {
                    lemma_obj_model(*m);
                }
                let key = k.to_owned();
                let mut p: usize = 0;
                while p < m.len()
                    invariant
                        p <= m@.len(),
                        key@ == k@,
                        self.model() == JsonV::Obj(entry_models(m@)),
                        lookup(entry_models(m@), k@, p as int) == lookup(entry_models(m@), k@, 0),
                    decreases m@.len() - p,
                {
                    if m[p].0 == key {
                        assert(entry_models(m@)[p as int] == (m@[p as int].0@, m@[p as int].1.model()));
                        return Some(&m[p].1);
                    }
                    assert(entry_models(m@)[p as int] == (m@[p as int].0@, m@[p as int].1.model()));
                    p = p + 1;
                }
                None
            },
            _ => None,
        }
    }

    /// The element at `i` of an array, or `None` (also for a value that is not an array).
    pub fn idx(&self, i: usize) -> (r: Option<&Json>)
        ensures
            match r {
                Some(x) => element(self.model(), i as int) == Some(x.model()),
                None => element(self.model(), i as int) is None,
            },
    {
        match self {
            Json::Arr(v) => {
                proof {
                    lemma_arr_model(*v);
                }
                if i < v.len() {
                    Some(&v[i])
                } else {
                    None
                }
            },
            _ => None,
        }
    }

    /// The text of a string value.
    pub fn as_str(&self) -> (r: Option<&str>)
        ensures
            match r {
                Some(t) => self.model() == JsonV::Str(t@),
                None => !(self.model() is Str),
            },
    {
        match self {
            Json::Str(s) => Some(s.as_str()),
            _ => None,
        }
    }

    /// The elements of an array value.
    pub fn as_arr(&self) -> (r: Option<&Vec<Json>>)
        ensures
            match r {
                Some(v) => self.model() == JsonV::Arr(models(v@)),
                None => !(self.model() is Arr),
            },
    {
        match self {
            Json::Arr(v) => {
                proof {
                    lemma_arr_model(*v);
                }
                Some(v)
            },
            _ => None,
        }
    }

    /// The entries of an object value, keys ascending.
    pub fn as_obj(&self) -> (r: Option<&Vec<(String, Json)>>)
        ensures
            match r {
                Some(m) => self.model() == JsonV::Obj(entry_models(m@)),
                None => !(self.model() is Obj),
            },
    {
        match self {
            Json::Obj(m) => {
                proof {
                    lemma_obj_model(*m);
                }
                Some(m)
            },
            _ => None,
        }
    }

    /// The text of the string member `k`, or the empty text when there is none.
    pub fn s(&self, k: &str) -> (r: String)
        ensures
            r@ == (match member(self.model(), k@) {
                Some(JsonV::Str(t)) => t,
                _ => Seq::empty(),
            }),
    {
        proof {
            reveal_strlit("");
        }
        match self.get(k) {
            Some(v) => match v.as_str() {
                Some(t) => t.to_owned(),
                None => "".to_owned(),
            },
            None => "".to_owned(),
        }
    }

    /// Copies of the elements of the array member `k`, or no elements when there is none.
    pub fn arr(&self, k: &str) -> (r: Vec<Json>)
        ensures
            models(r@) == (match member(self.model(), k@) {
                Some(JsonV::Arr(xs)) => xs,
                _ => Seq::empty(),
            }),
    {
        match self.get(k) {
            Some(v) => match v.as_arr() {
                Some(xs) => copy_all(xs),
                None => {
                    let empty: Vec<Json> = Vec::new();
                    assert(models(empty@) =~= Seq::<JsonV>::empty());
                    empty
                },
            },
            None => {
                let empty: Vec<Json> = Vec::new();
                assert(models(empty@) =~= Seq::<JsonV>::empty());
                empty
            },
        }
    }

    /// Whether the member `k` is `true`.
    pub fn b(&self, k: &str) -> (r: bool)
        ensures
            r == (member(self.model(), k@) == Some(JsonV::Bool(true))),
    {
        match self.get(k) {
            Some(Json::Bool(x)) => *x,
            _ => false,
        }
    }
}

// ------------------------------------------------------------------ objects are sorted maps

/// Are the entries' keys strictly ascending (and so unique)?
pub open spec fn keys_ascending(m: Seq<(Seq<char>, JsonV)>) -> bool {
    forall|a: int, c: int| 0 <= a < c < m.len() ==> key_lt(#[trigger] m[a].0, #[trigger] m[c].0)
}

/// Is every object in the value, at any depth, keyed uniquely in ascending order?
pub open spec fn well_keyed(v: JsonV) -> bool
    decreases v,
{
    match v {
        JsonV::Arr(xs) => forall|k: int| 0 <= k < xs.len() ==> well_keyed(#[trigger] xs[k]),
        JsonV::Obj(m) => keys_ascending(m) && forall|k: int|
            0 <= k < m.len() ==> well_keyed(#[trigger] m[k].1),
        _ => true,
    }
}

proof fn lemma_key_lt_irreflexive(a: Seq<char>, k: int)
    requires
        0 <= k,
    ensures
        !key_lt_from(a, a, k),
    decreases a.len() - k,
{
    if k < a.len() {
        lemma_key_lt_irreflexive(a, k + 1);
    }
}

proof fn lemma_key_lt_transitive(a: Seq<char>, b: Seq<char>, c: Seq<char>, k: int)
    requires
        0 <= k,
        key_lt_from(a, b, k),
        key_lt_from(b, c, k),
    ensures
        key_lt_from(a, c, k),
    decreases a.len() - k,
{
    if k < a.len() && k < b.len() && k < c.len() && a[k] == b[k] && b[k] == c[k] {
        lemma_key_lt_transitive(a, b, c, k + 1);
    }
}

proof fn lemma_key_lt_total(a: Seq<char>, b: Seq<char>, k: int)
    requires
        0 <= k <= a.len(),
        0 <= k <= b.len(),
    ensures
        key_lt_from(a, b, k) || key_lt_from(b, a, k) || a.subrange(k, a.len() as int)
            == b.subrange(k, b.len() as int),
    decreases a.len() - k,
{
    if k < a.len() && k < b.len() && a[k] == b[k] {
        lemma_key_lt_total(a, b, k + 1);
        assert(a.subrange(k, a.len() as int) =~= seq![a[k]] + a.subrange(k + 1, a.len() as int));
        assert(b.subrange(k, b.len() as int) =~= seq![b[k]] + b.subrange(k + 1, b.len() as int));
        assert(key_lt_from(a, b, k) == key_lt_from(a, b, k + 1));
        assert(key_lt_from(b, a, k) == key_lt_from(b, a, k + 1));
    } else if k == a.len() && k == b.len() {
        assert(a.subrange(k, a.len() as int) =~= b.subrange(k, b.len() as int));
    } else if k < a.len() && k < b.len() {
        assert((a[k] as int) != (b[k] as int));
    }
}

/// Distinct keys are ordered one way or the other.
proof fn lemma_key_lt_connex(a: Seq<char>, b: Seq<char>)
    requires
        a != b,
    ensures
        key_lt(a, b) || key_lt(b, a),
{
    lemma_key_lt_total(a, b, 0);
    assert(a.subrange(0, a.len() as int) =~= a);
    assert(b.subrange(0, b.len() as int) =~= b);
}

/// Inserting into ascending entries keeps them ascending; every entry after the insertion is the
/// inserted one or an entry from before.
proof fn lemma_insert_keeps_order(m: Seq<(Seq<char>, JsonV)>, key: Seq<char>, v: JsonV)
    requires
        keys_ascending(m),
    ensures
        keys_ascending(insert_entry_spec(m, key, v)),
        forall|k: int|
            0 <= k < insert_entry_spec(m, key, v).len() ==> #[trigger] insert_entry_spec(m, key, v)[k]
                == (key, v) || m.contains(insert_entry_spec(m, key, v)[k]),
    decreases m.len(),
{
    let r = insert_entry_spec(m, key, v);
    if m.len() == 0 {
    } else if m[0].0 == key {
        assert forall|k: int| 0 <= k < r.len() implies #[trigger] r[k] == (key, v) || m.contains(
            r[k],
        ) by {
            if k != 0 {
                assert(r[k] == m[k]);
            }
        }
    } else if key_lt(key, m[0].0) {
        assert forall|a: int, c: int| 0 <= a < c < r.len() implies key_lt(
            #[trigger] r[a].0,
            #[trigger] r[c].0,
        ) by {
            if a == 0 {
                if c > 1 {
                    lemma_key_lt_transitive(key, m[0].0, m[c - 1].0, 0);
                }
            } else {
                assert(r[a] == m[a - 1] && r[c] == m[c - 1]);
            }
        }
        assert forall|k: int| 0 <= k < r.len() implies #[trigger] r[k] == (key, v) || m.contains(
            r[k],
        ) by {
            if k != 0 {
                assert(r[k] == m[k - 1]);
            }
        }
    } else {
        let rest = m.drop_first();
        assert forall|a: int, c: int| 0 <= a < c < rest.len() implies key_lt(
            #[trigger] rest[a].0,
            #[trigger] rest[c].0,
        ) by {
            assert(rest[a] == m[a + 1] && rest[c] == m[c + 1]);
        }
        lemma_insert_keeps_order(rest, key, v);
        let t = insert_entry_spec(rest, key, v);
        assert(r == seq![m[0]] + t);
        lemma_key_lt_connex(m[0].0, key);
        assert forall|a: int, c: int| 0 <= a < c < r.len() implies key_lt(
            #[trigger] r[a].0,
            #[trigger] r[c].0,
        ) by {
            if a == 0 {
                assert(r[c] == t[c - 1]);
                if t[c - 1] != (key, v) {
                    let j = choose|j: int| 0 <= j < rest.len() && rest[j] == t[c - 1];
                    assert(rest[j] == m[j + 1]);
                }
            } else {
                assert(r[a] == t[a - 1] && r[c] == t[c - 1]);
            }
        }
        assert forall|k: int| 0 <= k < r.len() implies #[trigger] r[k] == (key, v) || m.contains(
            r[k],
        ) by {
            if k != 0 {
                assert(r[k] == t[k - 1]);
                if t[k - 1] != (key, v) {
                    let j = choose|j: int| 0 <= j < rest.len() && rest[j] == t[k - 1];
                    assert(m[j + 1] == rest[j]);
                }
            } else {
                assert(m[0] == r[0]);
            }
        }
    }
}

proof fn lemma_value_keyed(b: Seq<u8>, i: nat)
    ensures
        value_spec(b, i).0 matches Ok(v) ==> well_keyed(v),
    decreases b.len() - i, 0int,
{
    let j = skip_ws_spec(b, i as int);
    if j < b.len() {
        lemma_skip_ws_bounds(b, i as int);
        if b[j] == 123 {
            lemma_obj_keyed(b, (j + 1) as nat, Seq::empty());
        } else if b[j] == 91 {
            lemma_arr_keyed(b, (j + 1) as nat, Seq::empty());
        }
    }
}

proof fn lemma_obj_keyed(b: Seq<u8>, i: nat, acc: Seq<(Seq<char>, JsonV)>)
    requires
        keys_ascending(acc),
        forall|k: int| 0 <= k < acc.len() ==> well_keyed(#[trigger] acc[k].1),
    ensures
        obj_items(b, i, acc).0 matches Ok(v) ==> well_keyed(v),
    decreases b.len() - i, 1int,
{
    let j = skip_ws_spec(b, i as int);
    if j < b.len() && b[j] == 125 {
    } else {
        match parse_str_spec(b, j) {
            (Err(e), k) => {},
            (Ok(key), k) => {
                lemma_skip_ws_bounds(b, i as int);
                lemma_parse_str_bounds(b, j);
                lemma_skip_ws_bounds(b, k);
                let c = skip_ws_spec(b, k);
                let v0 = if c < b.len() && b[c] == 58 { c + 1 } else { c };
                lemma_value_keyed(b, v0 as nat);
                match value_spec(b, v0 as nat) {
                    (Err(e), p) => {},
                    (Ok(v), p) => {
                        let q = skip_ws_spec(b, p);
                        let n = if 0 <= q < b.len() && b[q] == 44 { q + 1 } else { q };
                        if n <= b.len() && n > i {
                            let acc2 = insert_entry_spec(acc, key, v);
                            lemma_insert_keeps_order(acc, key, v);
                            assert forall|k: int| 0 <= k < acc2.len() implies well_keyed(
                                #[trigger] acc2[k].1,
                            ) by {
                                if acc2[k] != (key, v) {
                                    let w = choose|w: int| 0 <= w < acc.len() && acc[w] == acc2[k];
                                    assert(well_keyed(acc[w].1));
                                }
                            }
                            lemma_obj_keyed(b, n as nat, acc2);
                        }
                    },
                }
            },
        }
    }
}

proof fn lemma_arr_keyed(b: Seq<u8>, i: nat, acc: Seq<JsonV>)
    requires
        forall|k: int| 0 <= k < acc.len() ==> well_keyed(#[trigger] acc[k]),
    ensures
        arr_items(b, i, acc).0 matches Ok(v) ==> well_keyed(v),
    decreases b.len() - i, 1int,
{
    let j = skip_ws_spec(b, i as int);
    if j < b.len() && b[j] == 93 {
    } else if j > b.len() {
    } else {
        lemma_skip_ws_bounds(b, i as int);
        lemma_value_keyed(b, j as nat);
        match value_spec(b, j as nat) {
            (Err(e), p) => {},
            (Ok(v), p) => {
                let q = skip_ws_spec(b, p);
                let n = if 0 <= q < b.len() && b[q] == 44 { q + 1 } else { q };
                if n <= b.len() && n > i {
                    let acc2 = acc.push(v);
                    assert forall|k: int| 0 <= k < acc2.len() implies well_keyed(
                        #[trigger] acc2[k],
                    ) by {
                        if k < acc.len() {
                            assert(acc2[k] == acc[k]);
                        }
                    }
                    lemma_arr_keyed(b, n as nat, acc2);
                }
            },
        }
    }
}

/// Every value the reader returns keys each of its objects, at any depth, uniquely and in
/// ascending order: the entries are those of a `BTreeMap<String, _>`, in its iteration order.
pub proof fn parsed_objects_are_sorted_maps(b: Seq<u8>, i: nat)
    ensures
        value_spec(b, i).0 matches Ok(v) ==> well_keyed(v),
{
    lemma_value_keyed(b, i);
}

/// The key order is a strict total order, as `String`'s is: irreflexive, transitive, and any two
/// distinct keys are ordered one way or the other.
pub proof fn key_order_is_strict_and_total(a: Seq<char>, b: Seq<char>, c: Seq<char>)
    ensures
        !key_lt(a, a),
        key_lt(a, b) && key_lt(b, c) ==> key_lt(a, c),
        a != b ==> key_lt(a, b) || key_lt(b, a),
{
    lemma_key_lt_irreflexive(a, 0);
    if key_lt(a, b) && key_lt(b, c) {
        lemma_key_lt_transitive(a, b, c, 0);
    }
    if a != b {
        lemma_key_lt_connex(a, b);
    }
}

} // verus!
