//! The subset of JSON a deck file uses: objects, strings and numbers.
//!
//! The reader is a recursive-descent parser over the characters of the
//! text. Its behaviour, errors included, is specified by `value_at` and the
//! functions below it; positions are character indices, while error messages
//! report byte offsets into the UTF-8 text.
use vstd::prelude::*;

use vstd::string::StringSliceAdditionalSpecFns;
use crate::name_map::{is_lower_bound, lemma_lower_bound_is, lemma_sorted_insert, map_insert, sorted_names};
use crate::text::{
    chars_eq, chars_of, decimal, is_digit, is_float_literal, is_float_literal_exec, lead_digits,
    name_less, name_lt, push_char, push_decimal, push_str, skip_digits, string_of,
};

verus! {

/// A parsed JSON value. Object members are kept in name order; a repeated
/// name keeps its last value.
#[derive(Debug)]
pub enum JsonValue {
    Object(Vec<(String, JsonValue)>),
    /// The literal text of a number.
    Number(String),
    Str(String),
}

/// A JSON value with its strings as character sequences.
pub ghost enum JsonView {
    Object(Seq<(Seq<char>, JsonView)>),
    Number(Seq<char>),
    Str(Seq<char>),
}

pub open spec fn json_view(v: JsonValue) -> JsonView
    decreases v,
{
    match v {
        JsonValue::Object(es) => JsonView::Object(entries_view(es@)),
        JsonValue::Number(s) => JsonView::Number(s@),
        JsonValue::Str(s) => JsonView::Str(s@),
    }
}

pub open spec fn entries_view(es: Seq<(String, JsonValue)>) -> Seq<(Seq<char>, JsonView)>
    decreases es,
{
    if es.len() == 0 {
        Seq::empty()
    } else {
        entries_view(es.subrange(0, es.len() - 1)).push(
            (es[es.len() - 1].0@, json_view(es[es.len() - 1].1)),
        )
    }
}

pub proof fn lemma_entries_view(es: Seq<(String, JsonValue)>)
    ensures
        entries_view(es).len() == es.len(),
        forall|i: int|
            0 <= i < es.len() ==> #[trigger] entries_view(es)[i] == (es[i].0@, json_view(es[i].1)),
    decreases es.len(),
{
    if es.len() > 0 {
        let front = es.subrange(0, es.len() - 1);
        lemma_entries_view(front);
        assert forall|i: int| 0 <= i < es.len() implies #[trigger] entries_view(es)[i] == (
        es[i].0@, json_view(es[i].1)) by {
            if i < es.len() - 1 {
                assert(front[i] == es[i]);
            }
        }
    }
}

proof fn lemma_entries_view_ext(a: Seq<(String, JsonValue)>, b: Seq<(Seq<char>, JsonView)>)
    requires
        a.len() == b.len(),
        forall|i: int| 0 <= i < a.len() ==> #[trigger] b[i] == (a[i].0@, json_view(a[i].1)),
    ensures
        entries_view(a) == b,
{
    lemma_entries_view(a);
    assert(entries_view(a) =~= b);
}

// ---------------------------------------------------------------------------
// Positions, bytes and messages

pub open spec fn json_ws(c: char) -> bool {
    c == ' ' || c == '\t' || c == '\n' || c == '\r'
}

/// The position after the whitespace starting at `i`.
pub open spec fn ws_end(s: Seq<char>, i: int) -> int
    decreases s.len() - i,
{
    if 0 <= i < s.len() && json_ws(s[i]) {
        ws_end(s, i + 1)
    } else {
        i
    }
}

pub proof fn lemma_ws_end(s: Seq<char>, i: int)
    ensures
        ws_end(s, i) >= i,
        0 <= i <= s.len() ==> ws_end(s, i) <= s.len(),
    decreases s.len() - i,
{
    if 0 <= i < s.len() && json_ws(s[i]) {
        lemma_ws_end(s, i + 1);
    }
}

/// Bytes in the UTF-8 encoding of `c`.
pub open spec fn utf8_len(c: char) -> nat {
    let u = c as u32;
    if u < 0x80 {
        1
    } else if u < 0x800 {
        2
    } else if u < 0x10000 {
        3
    } else {
        4
    }
}

/// Bytes in the UTF-8 encoding of `s`.
pub open spec fn byte_len(s: Seq<char>) -> nat
    decreases s.len(),
{
    if s.len() == 0 {
        0
    } else {
        utf8_len(s[0]) + byte_len(s.drop_first())
    }
}

/// The byte offset of position `i`.
pub open spec fn offset(s: Seq<char>, i: int) -> nat {
    byte_len(s.take(i))
}

pub proof fn lemma_byte_len_concat(a: Seq<char>, b: Seq<char>)
    ensures
        byte_len(a + b) == byte_len(a) + byte_len(b),
    decreases a.len(),
{
    if a.len() > 0 {
        assert((a + b).drop_first() =~= a.drop_first() + b);
        lemma_byte_len_concat(a.drop_first(), b);
    } else {
        assert(a + b =~= b);
    }
}

proof fn lemma_offset_step(s: Seq<char>, i: int)
    requires
        0 <= i < s.len(),
    ensures
        offset(s, i + 1) == offset(s, i) + utf8_len(s[i]),
        offset(s, i + 1) <= byte_len(s),
{
    assert(s.take(i + 1) =~= s.take(i) + seq![s[i]]);
    lemma_byte_len_concat(s.take(i), seq![s[i]]);
    assert(seq![s[i]].drop_first() =~= Seq::<char>::empty());
    assert(byte_len(Seq::<char>::empty()) == 0);
    assert(byte_len(seq![s[i]]) == utf8_len(s[i]));
    assert(s =~= s.take(i + 1) + s.skip(i + 1));
    lemma_byte_len_concat(s.take(i + 1), s.skip(i + 1));
}

pub proof fn lemma_byte_len_bound(s: Seq<char>)
    ensures
        byte_len(s) <= 4 * s.len(),
    decreases s.len(),
{
    if s.len() > 0 {
        lemma_byte_len_bound(s.drop_first());
    }
}

/// The first byte of `c`'s UTF-8 encoding, read as a character (as
/// `byte as char` does).
pub open spec fn lead_byte(c: char) -> char {
    let u = c as u32;
    if u < 0x80 {
        c
    } else if u < 0x800 {
        (0xC0 + u / 64) as char
    } else if u < 0x10000 {
        (0xE0 + u / 4096) as char
    } else {
        (0xF0 + u / 262144) as char
    }
}

pub open spec fn expected_message(c: char, off: nat) -> Seq<char> {
    "expected '"@ + seq![c] + "' at byte offset "@ + decimal(off)
}

pub open spec fn comma_or_brace_message(off: nat) -> Seq<char> {
    "expected ',' or '}' at byte offset "@ + decimal(off)
}

pub open spec fn unexpected_message(c: char) -> Seq<char> {
    "unexpected character '"@ + seq![lead_byte(c)] + "'"@
}

pub open spec fn invalid_escape_message(c: char) -> Seq<char> {
    "invalid escape '\\"@ + seq![lead_byte(c)] + "'"@
}

pub open spec fn invalid_number_message(t: Seq<char>) -> Seq<char> {
    "invalid number literal '"@ + t + "'"@
}

/// The message of a branch that cannot be taken: every parse step moves
/// forward, and the specification only says so to keep its recursion total.
pub open spec fn stuck() -> Seq<char> {
    Seq::empty()
}

// ---------------------------------------------------------------------------
// Strings

/// Value of a hexadecimal digit, or -1.
pub open spec fn hex_digit(c: char) -> int {
    let u = c as u32;
    if 48 <= u <= 57 {
        u - 48
    } else if 97 <= u <= 102 {
        u - 87
    } else if 65 <= u <= 70 {
        u - 55
    } else {
        -1
    }
}

pub open spec fn hex_value(d: Seq<char>) -> int
    decreases d.len(),
{
    if d.len() == 0 {
        0
    } else {
        hex_value(d.drop_last()) * 16 + hex_digit(d.last())
    }
}

pub open spec fn all_hex(d: Seq<char>) -> bool {
    forall|j: int| 0 <= j < d.len() ==> hex_digit(#[trigger] d[j]) >= 0
}

/// What `u16::from_str_radix(t, 16)` gives for a text of four characters:
/// an optional `+` and one or more hexadecimal digits.
pub open spec fn radix16(t: Seq<char>) -> Option<int> {
    let d = if t.len() > 0 && t[0] == '+' {
        t.drop_first()
    } else {
        t
    };
    if d.len() > 0 && all_hex(d) {
        Some(hex_value(d))
    } else {
        None
    }
}

proof fn lemma_radix16_none(t: Seq<char>, k: int)
    requires
        ({
            let d = if t.len() > 0 && t[0] == '+' {
                t.drop_first()
            } else {
                t
            };
            0 <= k < d.len() && hex_digit(d[k]) < 0
        }),
    ensures
        radix16(t) == None::<int>,
{
    let d = if t.len() > 0 && t[0] == '+' {
        t.drop_first()
    } else {
        t
    };
    assert(hex_digit(d[k]) < 0);
    assert(!all_hex(d));
}

/// Four hex digits of a `\u` escape at position `i`.
pub open spec fn hex4_at(s: Seq<char>, i: int) -> Result<(int, int), Seq<char>> {
    if byte_len(s.skip(i)) < 4 {
        Err("truncated unicode escape"@)
    } else if i + 4 <= s.len() && (forall|j: int| i <= j < i + 4 ==> (s[j] as u32) < 0x80) {
        match radix16(s.subrange(i, i + 4)) {
            Some(v) => Ok((v, i + 4)),
            None => Err("invalid unicode escape"@),
        }
    } else {
        Err("invalid unicode escape"@)
    }
}

/// The character of a `\u` escape whose hex digits start at `i`; a high
/// surrogate must be followed by a `\u` escape of a low surrogate.
pub open spec fn unicode_escape_at(s: Seq<char>, i: int) -> Result<(char, int), Seq<char>> {
    match hex4_at(s, i) {
        Err(m) => Err(m),
        Ok((h, j)) => if 0xD800 <= h <= 0xDBFF {
            if !(0 <= j && j + 1 < s.len() && s[j] == '\\' && s[j + 1] == 'u') {
                Err("unpaired utf-16 surrogate"@)
            } else {
                match hex4_at(s, j + 2) {
                    Err(m) => Err(m),
                    Ok((l, k)) => if !(0xDC00 <= l <= 0xDFFF) {
                        Err("invalid low surrogate"@)
                    } else {
                        Ok(((0x10000 + (h - 0xD800) * 1024 + (l - 0xDC00)) as char, k))
                    },
                }
            }
        } else if 0xDC00 <= h <= 0xDFFF {
            Err("invalid unicode escape"@)
        } else {
            Ok((h as char, j))
        },
    }
}

/// The character an escape letter stands for (`u` excluded).
pub open spec fn simple_escape(e: char) -> Option<char> {
    if e == '"' {
        Some('"')
    } else if e == '\\' {
        Some('\\')
    } else if e == '/' {
        Some('/')
    } else if e == 'n' {
        Some('\n')
    } else if e == 'r' {
        Some('\r')
    } else if e == 't' {
        Some('\t')
    } else if e == 'b' {
        Some('\u{8}')
    } else if e == 'f' {
        Some('\u{c}')
    } else {
        None
    }
}

/// The rest of a string whose opening quote is before `i`, with `acc`
/// read so far.
pub open spec fn string_body(s: Seq<char>, i: int, acc: Seq<char>) -> Result<
    (Seq<char>, int),
    Seq<char>,
>
    decreases s.len() - i,
{
    if i < 0 || i >= s.len() {
        Err("unterminated string"@)
    } else if s[i] == '"' {
        Ok((acc, i + 1))
    } else if s[i] == '\\' {
        if i + 1 >= s.len() {
            Err("unterminated escape sequence"@)
        } else {
            let e = s[i + 1];
            match simple_escape(e) {
                Some(c) => string_body(s, i + 2, acc.push(c)),
                None => if e == 'u' {
                    match unicode_escape_at(s, i + 2) {
                        Err(m) => Err(m),
                        Ok((c, j)) => if j <= i || j > s.len() {
                            Err(stuck())
                        } else {
                            string_body(s, j, acc.push(c))
                        },
                    }
                } else {
                    Err(invalid_escape_message(e))
                },
            }
        }
    } else {
        string_body(s, i + 1, acc.push(s[i]))
    }
}

/// A string starting at `i`, after whitespace.
pub open spec fn string_at(s: Seq<char>, i: int) -> Result<(Seq<char>, int), Seq<char>> {
    let j = ws_end(s, i);
    if 0 <= j < s.len() && s[j] == '"' {
        string_body(s, j + 1, Seq::empty())
    } else {
        Err(expected_message('"', offset(s, j)))
    }
}

// ---------------------------------------------------------------------------
// Numbers, objects and values

/// Where the number text starting at `i` ends:
/// `-? digits (. digits)? ([eE] [+-]? digits)?`, every part possibly empty.
pub open spec fn number_end(s: Seq<char>, i: int) -> int {
    let j0 = if 0 <= i < s.len() && s[i] == '-' {
        i + 1
    } else {
        i
    };
    let j1 = j0 + lead_digits(s.skip(j0));
    let j2 = if 0 <= j1 < s.len() && s[j1] == '.' {
        j1 + 1 + lead_digits(s.skip(j1 + 1))
    } else {
        j1
    };
    if 0 <= j2 < s.len() && (s[j2] == 'e' || s[j2] == 'E') {
        let k = j2 + 1;
        let k2 = if k < s.len() && (s[k] == '+' || s[k] == '-') {
            k + 1
        } else {
            k
        };
        k2 + lead_digits(s.skip(k2))
    } else {
        j2
    }
}

/// A number starting at `i`; its text must parse as an `f64`.
pub open spec fn number_at(s: Seq<char>, i: int) -> Result<(JsonView, int), Seq<char>> {
    let e = number_end(s, i);
    let t = s.subrange(i, e);
    if is_float_literal(t) {
        Ok((JsonView::Number(t), e))
    } else {
        Err(invalid_number_message(t))
    }
}

/// A value starting at `i`, after whitespace.
pub open spec fn value_at(s: Seq<char>, i: int) -> Result<(JsonView, int), Seq<char>>
    decreases s.len() - i, 2int,
{
    let j = ws_end(s, i);
    if j < 0 || j >= s.len() {
        Err("unexpected end of input"@)
    } else if s[j] == '{' {
        proof {
            lemma_ws_end(s, i);
        }
        object_at(s, j)
    } else if s[j] == '"' {
        match string_at(s, j) {
            Ok((t, e)) => Ok((JsonView::Str(t), e)),
            Err(m) => Err(m),
        }
    } else if s[j] == '-' || is_digit(s[j]) {
        number_at(s, j)
    } else {
        Err(unexpected_message(s[j]))
    }
}

/// An object whose `{` is at `i`.
pub open spec fn object_at(s: Seq<char>, i: int) -> Result<(JsonView, int), Seq<char>>
    decreases s.len() - i, 1int,
{
    let j = ws_end(s, i + 1);
    if 0 <= j < s.len() && s[j] == '}' {
        Ok((JsonView::Object(Seq::empty()), j + 1))
    } else if i < 0 || i >= s.len() {
        Err(stuck())
    } else {
        proof {
            lemma_ws_end(s, i + 1);
        }
        members_at(s, j, Seq::empty())
    }
}

/// One member `"name": value` from `i` on: the name, the value, and the
/// position after the value.
pub open spec fn member_at(s: Seq<char>, i: int) -> Result<(Seq<char>, JsonView, int), Seq<char>>
    decreases s.len() - i, 0int,
{
    match string_at(s, i) {
        Err(m) => Err(m),
        Ok((key, a)) => if a <= i || a > s.len() {
            Err(stuck())
        } else {
            let b = ws_end(s, a);
            if !(0 <= b < s.len() && s[b] == ':') {
                Err(expected_message(':', offset(s, b)))
            } else {
                proof {
                    lemma_ws_end(s, a);
                }
                match value_at(s, b + 1) {
                    Err(m) => Err(m),
                    Ok((v, c)) => if c <= b || c > s.len() {
                        Err(stuck())
                    } else {
                        Ok((key, v, c))
                    },
                }
            }
        },
    }
}

/// The members of an object from `i` on, with `acc` read so far.
pub open spec fn members_at(s: Seq<char>, i: int, acc: Seq<(Seq<char>, JsonView)>) -> Result<
    (JsonView, int),
    Seq<char>,
>
    decreases s.len() - i, 1int,
{
    match member_at(s, i) {
        Err(m) => Err(m),
        Ok((key, v, c)) => if c <= i || c > s.len() {
            Err(stuck())
        } else {
            let acc2 = map_insert(acc, key, v);
            let d = ws_end(s, c);
            proof {
                lemma_ws_end(s, c);
            }
            if 0 <= d < s.len() && s[d] == ',' {
                members_at(s, d + 1, acc2)
            } else if 0 <= d < s.len() && s[d] == '}' {
                Ok((JsonView::Object(acc2), d + 1))
            } else {
                Err(comma_or_brace_message(offset(s, d)))
            }
        },
    }
}

/// A whole document: one value, then only whitespace.
pub open spec fn document(s: Seq<char>) -> Result<JsonView, Seq<char>> {
    match value_at(s, 0) {
        Err(m) => Err(m),
        Ok((v, e)) => if ws_end(s, e) < s.len() {
            Err("trailing data after the top-level object"@)
        } else {
            Ok(v)
        },
    }
}


pub proof fn lemma_ws_idem(s: Seq<char>, i: int)
    ensures
        ws_end(s, ws_end(s, i)) == ws_end(s, i),
    decreases s.len() - i,
{
    if 0 <= i < s.len() && json_ws(s[i]) {
        lemma_ws_idem(s, i + 1);
    }
}

/// Builds a character from its code.
///
/// Trusted: calls `char::from_u32`, which returns the character with code
/// `u` when `u` is a Unicode scalar value (at most 0x10FFFF and not in the
/// surrogate range 0xD800..=0xDFFF), and `None` otherwise.
#[verifier::external_body]
fn char_from_u32(u: u32) -> (r: Option<char>)
    ensures
        match r {
            Some(c) => c as u32 == u && u <= 0x10FFFF && !(0xD800 <= u <= 0xDFFF),
            None => u > 0x10FFFF || (0xD800 <= u <= 0xDFFF),
        },
{
    char::from_u32(u)
}

fn utf8_len_exec(c: char) -> (n: usize)
    ensures
        n == utf8_len(c),
{
    let u = c as u32;
    if u < 0x80 {
        1
    } else if u < 0x800 {
        2
    } else if u < 0x10000 {
        3
    } else {
        4
    }
}

fn lead_byte_exec(c: char) -> (b: char)
    ensures
        b == lead_byte(c),
{
    let u = c as u32;
    if u < 0x80 {
        c
    } else if u < 0x800 {
        ((0xC0 + u / 64) as u8) as char
    } else if u < 0x10000 {
        ((0xE0 + u / 4096) as u8) as char
    } else {
        proof {
            vstd::utf8::char_is_scalar(c);
        }
        ((0xF0 + u / 262144) as u8) as char
    }
}

fn owned(a: &str) -> (m: String)
    ensures
        m@ == a@,
{
    a.to_owned()
}

fn expected_error(c: char, off: u128) -> (m: String)
    ensures
        m@ == expected_message(c, off as nat),
{
    let mut m = String::new();
    push_str(&mut m, "expected '");
    push_char(&mut m, c);
    push_str(&mut m, "' at byte offset ");
    push_decimal(&mut m, off);
    m
}

fn hex_digit_exec(c: char) -> (d: i32)
    ensures
        d == hex_digit(c),
{
    let u = c as u32;
    if 48 <= u && u <= 57 {
        (u - 48) as i32
    } else if 97 <= u && u <= 102 {
        (u - 87) as i32
    } else if 65 <= u && u <= 70 {
        (u - 55) as i32
    } else {
        -1
    }
}

/// The reader's state: the characters, the current position and its byte
/// offset.
struct JsonParser {
    chars: Vec<char>,
    pos: usize,
    byte_pos: u128,
}

impl JsonParser {
    spec fn wf(&self) -> bool {
        &&& self.pos <= self.chars@.len() <= usize::MAX
        &&& self.byte_pos == offset(self.chars@, self.pos as int)
    }

    fn new(text: &str) -> (p: JsonParser)
        ensures
            p.wf(),
            p.chars@ == text@,
            p.pos == 0,
    {
        let chars = chars_of(text);
        let _n = chars.len();
        proof {
            assert(chars@.take(0) =~= Seq::<char>::empty());
            assert(byte_len(Seq::<char>::empty()) == 0);
        }
        JsonParser { chars, pos: 0, byte_pos: 0 }
    }

    fn at_end(&self) -> (b: bool)
        requires
            self.wf(),
        ensures
            b == (self.pos >= self.chars@.len()),
    {
        self.pos >= self.chars.len()
    }

    fn peek(&self) -> (c: Option<char>)
        requires
            self.wf(),
        ensures
            c == (if self.pos < self.chars@.len() {
                Some(self.chars@[self.pos as int])
            } else {
                None::<char>
            }),
    {
        if self.pos < self.chars.len() {
            Some(self.chars[self.pos])
        } else {
            None
        }
    }

    fn advance(&mut self)
        requires
            old(self).wf(),
            old(self).pos < old(self).chars@.len(),
        ensures
            final(self).wf(),
            final(self).chars@ == old(self).chars@,
            final(self).pos == old(self).pos + 1,
    {
        let p = self.pos;
        let w = utf8_len_exec(self.chars[p]);
        proof {
            lemma_offset_step(self.chars@, p as int);
            lemma_byte_len_bound(self.chars@.take(p + 1));
        }
        self.byte_pos = self.byte_pos + w as u128;
        self.pos = p + 1;
    }

    fn skip_whitespace(&mut self)
        requires
            old(self).wf(),
        ensures
            final(self).wf(),
            final(self).chars@ == old(self).chars@,
            final(self).pos == ws_end(old(self).chars@, old(self).pos as int),
    {
        let ghost s = self.chars@;
        let ghost start = self.pos as int;
        while self.pos < self.chars.len() && (self.chars[self.pos] == ' ' || self.chars[self.pos]
            == '\t' || self.chars[self.pos] == '\n' || self.chars[self.pos] == '\r')
            invariant
                self.wf(),
                self.chars@ == s,
                ws_end(s, start) == ws_end(s, self.pos as int),
            decreases self.chars@.len() - self.pos,
        {
            self.advance();
        }
    }

    fn expect(&mut self, c: char) -> (r: Result<(), String>)
        requires
            old(self).wf(),
        ensures
            final(self).wf(),
            final(self).chars@ == old(self).chars@,
            ({
                let s = old(self).chars@;
                let p = old(self).pos as int;
                if p < s.len() && s[p] == c {
                    r is Ok && final(self).pos == p + 1
                } else {
                    r matches Err(m) && m@ == expected_message(c, offset(s, p))
                }
            }),
    {
        if self.peek() == Some(c) {
            self.advance();
            Ok(())
        } else {
            Err(expected_error(c, self.byte_pos))
        }
    }

    fn parse_hex4(&mut self) -> (r: Result<u16, String>)
        requires
            old(self).wf(),
        ensures
            final(self).wf(),
            final(self).chars@ == old(self).chars@,
            match hex4_at(old(self).chars@, old(self).pos as int) {
                Ok((v, e)) => r matches Ok(x) && x == v && final(self).pos == e,
                Err(m) => r matches Err(x) && x@ == m,
            },
    {
        let ghost s = self.chars@;
        let ghost i = self.pos as int;
        // the bytes left, counted up to four
        let mut bytes: usize = 0;
        let mut j = self.pos;
        while j < self.chars.len() && bytes < 4
            invariant
                self.wf(),
                self.chars@ == s,
                self.pos == i,
                i <= j <= s.len(),
                bytes <= 7,
                byte_len(s.skip(i)) == bytes + byte_len(s.skip(j as int)),
            decreases s.len() - j,
        {
            assert(s.skip(j as int).drop_first() =~= s.skip(j + 1));
            bytes = bytes + utf8_len_exec(self.chars[j]);
            j += 1;
        }
        if bytes < 4 {
            assert(s.skip(j as int) =~= Seq::<char>::empty());
            assert(byte_len(Seq::<char>::empty()) == 0);
            return Err(owned("truncated unicode escape"));
        }
        if self.chars.len() - self.pos < 4 {
            return Err(owned("invalid unicode escape"));
        }
        let mut k: usize = 0;
        while k < 4
            invariant
                self.wf(),
                self.chars@ == s,
                self.pos == i,
                i + 4 <= s.len(),
                byte_len(s.skip(i)) >= 4,
                k <= 4,
                forall|j: int| i <= j < i + k ==> (s[j] as u32) < 0x80,
            decreases 4 - k,
        {
            if (self.chars[self.pos + k] as u32) >= 0x80 {
                return Err(owned("invalid unicode escape"));
            }
            k += 1;
        }
        // u16::from_str_radix over the four characters
        let ghost t = s.subrange(i, i + 4);
        let mut d = self.pos;
        if self.chars[d] == '+' {
            d += 1;
        }
        let ghost dd = s.subrange(d as int, i + 4);
        assert(dd =~= (if t.len() > 0 && t[0] == '+' {
            t.drop_first()
        } else {
            t
        }));
        if d == self.pos + 4 {
            return Err(owned("invalid unicode escape"));
        }
        let mut value: u32 = 0;
        let mut q = d;
        while q < self.pos + 4
            invariant
                self.wf(),
                self.chars@ == s,
                self.pos == i,
                i + 4 <= s.len(),
                byte_len(s.skip(i)) >= 4,
                forall|j: int| i <= j < i + 4 ==> (s[j] as u32) < 0x80,
                i <= d <= q <= i + 4,
                dd == s.subrange(d as int, i + 4),
                t == s.subrange(i, i + 4),
                dd == (if t.len() > 0 && t[0] == '+' {
                    t.drop_first()
                } else {
                    t
                }),
                forall|j: int| d <= j < q ==> hex_digit(#[trigger] s[j]) >= 0,
                value == hex_value(s.subrange(d as int, q as int)),
                value < (if q - d == 0 {
                    1
                } else if q - d == 1 {
                    16
                } else if q - d == 2 {
                    256
                } else if q - d == 3 {
                    4096
                } else {
                    65536int
                }),
            decreases i + 4 - q,
        {
            let h = hex_digit_exec(self.chars[q]);
            if h < 0 {
                assert(dd[q - d] == s[q as int]);
                assert(hex_digit(dd[q - d]) < 0);
                proof { lemma_radix16_none(t, (q - d) as int); }
                return Err(owned("invalid unicode escape"));
            }
            proof {
                let p = s.subrange(d as int, q as int);
                let p2 = s.subrange(d as int, q + 1);
                assert(p2.drop_last() =~= p);
            }
            value = value * 16 + h as u32;
            q += 1;
        }
        proof {
            assert(s.subrange(d as int, q as int) =~= dd);
            assert forall|j: int| 0 <= j < dd.len() implies hex_digit(#[trigger] dd[j]) >= 0 by {
                assert(dd[j] == s[d + j]);
            }
        }
        self.advance();
        self.advance();
        self.advance();
        self.advance();
        Ok(value as u16)
    }
}


/// Where `key` stands or would stand among the members, and whether it is
/// there.
pub fn locate_member(entries: &Vec<(String, JsonValue)>, key: &Vec<char>) -> (r: (usize, bool))
    ensures
        is_lower_bound(entries_view(entries@), key@, r.0 as int),
        r.1 == (r.0 < entries@.len() && entries_view(entries@)[r.0 as int].0 == key@),
{
    proof {
        lemma_entries_view(entries@);
    }
    let ghost s = entries_view(entries@);
    let mut i: usize = 0;
    while i < entries.len()
        invariant
            i <= entries.len(),
            s == entries_view(entries@),
            s.len() == entries@.len(),
            forall|j: int|
                0 <= j < entries@.len() ==> #[trigger] s[j] == (
                    entries@[j].0@,
                    json_view(entries@[j].1),
                ),
            forall|j: int| 0 <= j < i ==> name_lt(#[trigger] s[j].0, key@),
        decreases entries.len() - i,
    {
        let name = chars_of(entries[i].0.as_str());
        assert(name@ == s[i as int].0);
        if !name_less(&name, key) {
            let same = chars_eq(&name, key);
            return (i, same);
        }
        i += 1;
    }
    (i, false)
}

/// Adds a member; a repeated name keeps the new value.
fn object_insert(entries: &mut Vec<(String, JsonValue)>, key: String, value: JsonValue)
    requires
        sorted_names(entries_view(old(entries)@)),
    ensures
        entries_view(final(entries)@) == map_insert(
            entries_view(old(entries)@),
            key@,
            json_view(value),
        ),
        sorted_names(entries_view(final(entries)@)),
{
    let ghost s = entries_view(entries@);
    let ghost old_entries = entries@;
    let ghost kv = key@;
    let ghost vv = json_view(value);
    let k = chars_of(key.as_str());
    let (p, found) = locate_member(entries, &k);
    proof {
        lemma_sorted_insert(s, kv, vv, p as int);
        lemma_entries_view(old_entries);
    }
    if found {
        entries.remove(p);
        entries.insert(p, (key, value));
        proof {
            lemma_entries_view_ext(entries@, s.update(p as int, (kv, vv)));
        }
    } else {
        entries.insert(p, (key, value));
        proof {
            lemma_entries_view_ext(entries@, s.insert(p as int, (kv, vv)));
        }
    }
}

impl JsonParser {
    fn parse_unicode_escape(&mut self) -> (r: Result<char, String>)
        requires
            old(self).wf(),
        ensures
            final(self).wf(),
            final(self).chars@ == old(self).chars@,
            match unicode_escape_at(old(self).chars@, old(self).pos as int) {
                Ok((c, e)) => r matches Ok(x) && x == c && final(self).pos == e,
                Err(m) => r matches Err(x) && x@ == m,
            },
    {
        let ghost s = self.chars@;
        let high = match self.parse_hex4() {
            Ok(h) => h,
            Err(m) => return Err(m),
        };
        if 0xD800 <= high && high <= 0xDBFF {
            let p = self.pos;
            if !(p < self.chars.len() && self.chars[p] == '\\' && self.chars.len() - p > 1
                && self.chars[p + 1] == 'u') {
                return Err(owned("unpaired utf-16 surrogate"));
            }
            self.advance();
            self.advance();
            let low = match self.parse_hex4() {
                Ok(l) => l,
                Err(m) => return Err(m),
            };
            if !(0xDC00 <= low && low <= 0xDFFF) {
                return Err(owned("invalid low surrogate"));
            }
            let combined: u32 = 0x10000 + ((high - 0xD800) as u32) * 1024 + ((low - 0xDC00) as u32);
            match char_from_u32(combined) {
                Some(c) => {
                    proof {
                        vstd::utf8::char_u32_cast(c, combined);
                    }
                    Ok(c)
                },
                None => Err(owned("invalid surrogate pair")),
            }
        } else {
            match char_from_u32(high as u32) {
                Some(c) => {
                    proof {
                        vstd::utf8::char_u32_cast(c, high as u32);
                    }
                    Ok(c)
                },
                None => Err(owned("invalid unicode escape")),
            }
        }
    }

    fn parse_string(&mut self) -> (r: Result<String, String>)
        requires
            old(self).wf(),
        ensures
            final(self).wf(),
            final(self).chars@ == old(self).chars@,
            match string_at(old(self).chars@, old(self).pos as int) {
                Ok((t, e)) => r matches Ok(x) && x@ == t && final(self).pos == e,
                Err(m) => r matches Err(x) && x@ == m,
            },
            r is Ok ==> final(self).pos > old(self).pos,
    {
        let ghost s = self.chars@;
        let ghost p0 = self.pos as int;
        self.skip_whitespace();
        proof {
            lemma_ws_end(s, p0);
        }
        match self.expect('"') {
            Ok(()) => {},
            Err(m) => return Err(m),
        }
        let mut out = String::new();
        loop
            invariant
                self.wf(),
                self.chars@ == s,
                s == old(self).chars@,
                p0 == old(self).pos,
                string_at(s, p0) == string_body(s, self.pos as int, out@),
                self.pos > p0,
            decreases s.len() - self.pos,
        {
            let i = self.pos;
            match self.peek() {
                None => return Err(owned("unterminated string")),
                Some(c) => {
                    if c == '"' {
                        self.advance();
                        return Ok(out);
                    } else if c == '\\' {
                        self.advance();
                        let e = match self.peek() {
                            None => return Err(owned("unterminated escape sequence")),
                            Some(e) => e,
                        };
                        self.advance();
                        if e == '"' {
                            push_char(&mut out, '"');
                        } else if e == '\\' {
                            push_char(&mut out, '\\');
                        } else if e == '/' {
                            push_char(&mut out, '/');
                        } else if e == 'n' {
                            push_char(&mut out, '\n');
                        } else if e == 'r' {
                            push_char(&mut out, '\r');
                        } else if e == 't' {
                            push_char(&mut out, '\t');
                        } else if e == 'b' {
                            push_char(&mut out, '\u{8}');
                        } else if e == 'f' {
                            push_char(&mut out, '\u{c}');
                        } else if e == 'u' {
                            match self.parse_unicode_escape() {
                                Ok(u) => push_char(&mut out, u),
                                Err(m) => return Err(m),
                            }
                        } else {
                            let mut m = owned("invalid escape '\\");
                            push_char(&mut m, lead_byte_exec(e));
                            push_str(&mut m, "'");
                            return Err(m);
                        }
                    } else {
                        push_char(&mut out, c);
                        self.advance();
                    }
                },
            }
        }
    }

    /// Moves forward to position `target`.
    fn advance_to(&mut self, target: usize)
        requires
            old(self).wf(),
            old(self).pos <= target <= old(self).chars@.len(),
        ensures
            final(self).wf(),
            final(self).chars@ == old(self).chars@,
            final(self).pos == target,
    {
        while self.pos < target
            invariant
                self.wf(),
                self.chars@ == old(self).chars@,
                self.pos <= target <= self.chars@.len(),
            decreases target - self.pos,
        {
            self.advance();
        }
    }

    fn parse_number(&mut self) -> (r: Result<JsonValue, String>)
        requires
            old(self).wf(),
            old(self).pos < old(self).chars@.len(),
            old(self).chars@[old(self).pos as int] == '-' || is_digit(
                old(self).chars@[old(self).pos as int],
            ),
        ensures
            r is Ok ==> final(self).pos > old(self).pos,
            final(self).wf(),
            final(self).chars@ == old(self).chars@,
            match number_at(old(self).chars@, old(self).pos as int) {
                Ok((v, e)) => r matches Ok(x) && json_view(x) == v && final(self).pos == e,
                Err(m) => r matches Err(x) && x@ == m,
            },
    {
        let ghost s = self.chars@;
        let start = self.pos;
        let n = self.chars.len();
        let mut j = start;
        if j < n && self.chars[j] == '-' {
            j += 1;
        }
        assert(s.subrange(j as int, n as int) =~= s.skip(j as int));
        j = skip_digits(&self.chars, j, n);
        if j < n && self.chars[j] == '.' {
            assert(s.subrange(j + 1, n as int) =~= s.skip(j + 1));
            j = skip_digits(&self.chars, j + 1, n);
        }
        if j < n && (self.chars[j] == 'e' || self.chars[j] == 'E') {
            let mut k = j + 1;
            if k < n && (self.chars[k] == '+' || self.chars[k] == '-') {
                k += 1;
            }
            assert(s.subrange(k as int, n as int) =~= s.skip(k as int));
            j = skip_digits(&self.chars, k, n);
        }
        assert(j == number_end(s, start as int));
        self.advance_to(j);
        let text = string_of(&self.chars, start, j);
        if is_float_literal_exec(&self.chars, start, j) {
            Ok(JsonValue::Number(text))
        } else {
            let mut m = owned("invalid number literal '");
            push_str(&mut m, text.as_str());
            push_str(&mut m, "'");
            Err(m)
        }
    }
}


impl JsonParser {
    fn parse_value(&mut self) -> (r: Result<JsonValue, String>)
        requires
            old(self).wf(),
        ensures
            final(self).wf(),
            final(self).chars@ == old(self).chars@,
            match value_at(old(self).chars@, old(self).pos as int) {
                Ok((v, e)) => r matches Ok(x) && json_view(x) == v && final(self).pos == e,
                Err(m) => r matches Err(x) && x@ == m,
            },
            r is Ok ==> final(self).pos > old(self).pos,
        decreases old(self).chars@.len() - old(self).pos, 2int,
    {
        let ghost s = self.chars@;
        let ghost p0 = self.pos as int;
        self.skip_whitespace();
        proof {
            lemma_ws_end(s, p0);
            lemma_ws_idem(s, p0);
        }
        match self.peek() {
            None => Err(owned("unexpected end of input")),
            Some(c) => {
                if c == '{' {
                    self.parse_object()
                } else if c == '"' {
                    match self.parse_string() {
                        Ok(t) => Ok(JsonValue::Str(t)),
                        Err(m) => Err(m),
                    }
                } else if c == '-' || ((c as u32) >= 48 && (c as u32) <= 57) {
                    self.parse_number()
                } else {
                    let mut m = owned("unexpected character '");
                    push_char(&mut m, lead_byte_exec(c));
                    push_str(&mut m, "'");
                    Err(m)
                }
            },
        }
    }

    fn parse_object(&mut self) -> (r: Result<JsonValue, String>)
        requires
            old(self).wf(),
            old(self).pos < old(self).chars@.len(),
            old(self).chars@[old(self).pos as int] == '{',
        ensures
            final(self).wf(),
            final(self).chars@ == old(self).chars@,
            match object_at(old(self).chars@, old(self).pos as int) {
                Ok((v, e)) => r matches Ok(x) && json_view(x) == v && final(self).pos == e,
                Err(m) => r matches Err(x) && x@ == m,
            },
            r is Ok ==> final(self).pos > old(self).pos,
        decreases old(self).chars@.len() - old(self).pos, 1int,
    {
        let ghost s = self.chars@;
        let ghost p0 = self.pos as int;
        self.advance();
        self.skip_whitespace();
        proof {
            lemma_ws_end(s, p0 + 1);
        }
        let mut entries: Vec<(String, JsonValue)> = Vec::new();
        if self.peek() == Some('}') {
            self.advance();
            proof {
                lemma_entries_view_ext(entries@, Seq::empty());
            }
            return Ok(JsonValue::Object(entries));
        }
        proof {
            lemma_entries_view_ext(entries@, Seq::empty());
        }
        loop
            invariant
                self.wf(),
                self.chars@ == s,
                s == old(self).chars@,
                p0 == old(self).pos,
                p0 < self.pos <= s.len(),
                sorted_names(entries_view(entries@)),
                object_at(s, p0) == members_at(s, self.pos as int, entries_view(entries@)),
            decreases s.len() - self.pos,
        {
            let ghost i = self.pos as int;
            let (key, value) = match self.parse_member() {
                Ok(kv) => kv,
                Err(m) => return Err(m),
            };
            let c = self.pos;
            proof {
                lemma_ws_end(s, c as int);
            }
            object_insert(&mut entries, key, value);
            self.skip_whitespace();
            match self.peek() {
                Some(d) => {
                    if d == ',' {
                        self.advance();
                    } else if d == '}' {
                        self.advance();
                        return Ok(JsonValue::Object(entries));
                    } else {
                        let mut m = owned("expected ',' or '}' at byte offset ");
                        push_decimal(&mut m, self.byte_pos);
                        return Err(m);
                    }
                },
                None => {
                    let mut m = owned("expected ',' or '}' at byte offset ");
                    push_decimal(&mut m, self.byte_pos);
                    return Err(m);
                },
            }
        }
    }

    fn parse_member(&mut self) -> (r: Result<(String, JsonValue), String>)
        requires
            old(self).wf(),
        ensures
            final(self).wf(),
            final(self).chars@ == old(self).chars@,
            match member_at(old(self).chars@, old(self).pos as int) {
                Ok((k, v, e)) => r matches Ok(x) && x.0@ == k && json_view(x.1) == v
                    && final(self).pos == e,
                Err(m) => r matches Err(x) && x@ == m,
            },
            r is Ok ==> final(self).pos > old(self).pos,
        decreases old(self).chars@.len() - old(self).pos, 0int,
    {
        let ghost s = self.chars@;
        let key = match self.parse_string() {
            Ok(k) => k,
            Err(m) => return Err(m),
        };
        let a = self.pos;
        proof {
            lemma_ws_end(s, a as int);
        }
        self.skip_whitespace();
        match self.expect(':') {
            Ok(()) => {},
            Err(m) => return Err(m),
        }
        let value = match self.parse_value() {
            Ok(v) => v,
            Err(m) => return Err(m),
        };
        Ok((key, value))
    }
}

/// Reads a JSON document: one value, then only whitespace.
pub fn parse_json(text: &str) -> (r: Result<JsonValue, String>)
    ensures
        match document(text@) {
            Ok(v) => r matches Ok(x) && json_view(x) == v,
            Err(m) => r matches Err(x) && x@ == m,
        },
{
    let mut parser = JsonParser::new(text);
    let value = match parser.parse_value() {
        Ok(v) => v,
        Err(m) => return Err(m),
    };
    parser.skip_whitespace();
    if !parser.at_end() {
        return Err(owned("trailing data after the top-level object"));
    }
    Ok(value)
}


/// The number literals in a value, in document order.
pub open spec fn literals_of(v: JsonView) -> Seq<Seq<char>>
    decreases v,
{
    match v {
        JsonView::Object(es) => member_literals(es),
        JsonView::Number(t) => seq![t],
        JsonView::Str(_) => Seq::empty(),
    }
}

pub open spec fn member_literals(es: Seq<(Seq<char>, JsonView)>) -> Seq<Seq<char>>
    decreases es,
{
    if es.len() == 0 {
        Seq::empty()
    } else {
        member_literals(es.subrange(0, es.len() - 1)) + literals_of(es[es.len() - 1].1)
    }
}

impl JsonValue {
    /// The texts of all numbers in the value, in the order the value holds
    /// them: an object's members in name order, as the reader stores them.
    pub fn number_literals(&self) -> (r: Vec<String>)
        ensures
            r@.map_values(|t: String| t@) == literals_of(json_view(*self)),
        decreases *self,
    {
        match self {
            JsonValue::Object(es) => {
                let mut r: Vec<String> = Vec::new();
                let mut i: usize = 0;
                proof {
                    lemma_entries_view(es@);
                    assert(es@.subrange(0, 0) =~= Seq::<(String, JsonValue)>::empty());
                    assert(entries_view(es@).subrange(0, 0) =~= Seq::<(Seq<char>, JsonView)>::empty());
                    assert(r@.map_values(|t: String| t@) =~= Seq::<Seq<char>>::empty());
                }
                while i < es.len()
                    invariant
                        i <= es.len(),
                        *self == JsonValue::Object(*es),
                        entries_view(es@).len() == es@.len(),
                        forall|j: int|
                            0 <= j < es@.len() ==> #[trigger] entries_view(es@)[j] == (
                                es@[j].0@,
                                json_view(es@[j].1),
                            ),
                        r@.map_values(|t: String| t@) == member_literals(
                            entries_view(es@).subrange(0, i as int),
                        ),
                    decreases es.len() - i,
                {
                    proof {
                        assert(self->Object_0 == *es);
                        assert(decreases_to!(*self => self->Object_0));
                        assert(decreases_to!(*es => es@));
                        assert(decreases_to!(es@ => es@[i as int]));
                    }
                    let inner = es[i].1.number_literals();
                    let ghost before = r@;
                    let mut k: usize = 0;
                    while k < inner.len()
                        invariant
                            k <= inner.len(),
                            r@ == before + inner@.subrange(0, k as int),
                        decreases inner.len() - k,
                    {
                        r.push(inner[k].clone());
                        assert(r@ =~= before + inner@.subrange(0, k + 1));
                        k += 1;
                    }
                    proof {
                        let ev = entries_view(es@);
                        assert(ev.subrange(0, i + 1).subrange(0, i as int) =~= ev.subrange(
                            0,
                            i as int,
                        ));
                        assert(inner@.subrange(0, k as int) =~= inner@);
                        assert(r@.map_values(|t: String| t@) =~= before.map_values(|t: String| t@)
                            + inner@.map_values(|t: String| t@));
                    }
                    i += 1;
                }
                proof {
                    assert(entries_view(es@).subrange(0, i as int) =~= entries_view(es@));
                }
                r
            },
            JsonValue::Number(t) => {
                let r = vec![t.clone()];
                assert(r@.map_values(|t: String| t@) =~= seq![t@]);
                r
            },
            JsonValue::Str(_) => {
                let r: Vec<String> = Vec::new();
                assert(r@.map_values(|t: String| t@) =~= Seq::<Seq<char>>::empty());
                r
            },
        }
    }
}


/// The value of member `key`, if the object has one.
pub fn member<'a>(es: &'a Vec<(String, JsonValue)>, key: &str) -> (r: Option<&'a JsonValue>)
    ensures
        match r {
            Some(v) => crate::name_map::map_lookup(entries_view(es@), key@) == Some(json_view(*v)),
            None => crate::name_map::map_lookup(entries_view(es@), key@) is None,
        },
{
    let k = chars_of(key);
    let (p, found) = locate_member(es, &k);
    proof {
        lemma_lower_bound_is(entries_view(es@), key@, p as int);
        lemma_entries_view(es@);
    }
    if found {
        Some(&es[p].1)
    } else {
        None
    }
}

/// Space, tab, line feed or carriage return: the whitespace of JSON.
pub open spec fn blank_between(s: Seq<char>, i: int, j: int) -> bool {
    forall|k: int|
        i <= k < j ==> #[trigger] s[k] == ' ' || s[k] == '\t' || s[k] == '\n' || s[k] == '\r'
}

proof fn lemma_ws_end_blank(s: Seq<char>, i: int, j: int)
    requires
        0 <= i <= j <= s.len(),
        blank_between(s, i, j),
    ensures
        ws_end(s, i) == ws_end(s, j),
    decreases j - i,
{
    if i < j {
        assert(json_ws(s[i]));
        lemma_ws_end_blank(s, i + 1, j);
    }
}

proof fn lemma_string_body_moves(s: Seq<char>, i: int, acc: Seq<char>)
    ensures
        string_body(s, i, acc) matches Ok((_, a)) ==> a > i,
    decreases s.len() - i,
{
    if 0 <= i < s.len() && s[i] != '"' {
        if s[i] == '\\' {
            if i + 1 < s.len() {
                let e = s[i + 1];
                match simple_escape(e) {
                    Some(c) => lemma_string_body_moves(s, i + 2, acc.push(c)),
                    None => if e == 'u' {
                        match unicode_escape_at(s, i + 2) {
                            Err(m) => {},
                            Ok((c, j)) => if !(j <= i || j > s.len()) {
                                lemma_string_body_moves(s, j, acc.push(c));
                            },
                        }
                    },
                }
            }
        } else {
            lemma_string_body_moves(s, i + 1, acc.push(s[i]));
        }
    }
}

/// Whitespace before a value does not change what it reads as: a line
/// feed, a carriage return or a tab is skipped as a space is.
pub proof fn law_value_skips_whitespace(s: Seq<char>, i: int, j: int)
    requires
        0 <= i <= j <= s.len(),
        blank_between(s, i, j),
    ensures
        value_at(s, i) == value_at(s, j),
{
    lemma_ws_end_blank(s, i, j);
}

/// Whitespace where a member name is expected (after `{` or after a `,`)
/// does not change what the members read as.
pub proof fn law_member_skips_whitespace(
    s: Seq<char>,
    i: int,
    j: int,
    acc: Seq<(Seq<char>, JsonView)>,
)
    requires
        0 <= i <= j <= s.len(),
        blank_between(s, i, j),
    ensures
        members_at(s, i, acc) == members_at(s, j, acc),
{
    lemma_ws_end_blank(s, i, j);
    lemma_ws_end(s, i);
    let w = ws_end(s, i);
    assert(string_at(s, i) == string_at(s, j));
    if 0 <= w < s.len() && s[w] == '"' {
        lemma_string_body_moves(s, w + 1, Seq::empty());
    }
    assert(member_at(s, i) == member_at(s, j));
    if member_at(s, i) is Ok {
        let a = string_at(s, i)->Ok_0.1;
        assert(a > w);
        lemma_ws_end(s, a);
        assert(member_at(s, i)->Ok_0.2 > j);
    }
}

/// Whitespace after the top-level value, up to the end of the text, is
/// accepted: a value followed by spaces, tabs or line breaks is a document.
pub proof fn law_document_trailing_whitespace(s: Seq<char>)
    requires
        value_at(s, 0) matches Ok((v, e)) && 0 <= e <= s.len() && blank_between(s, e, s.len() as int),
    ensures
        document(s) == Ok::<JsonView, Seq<char>>(value_at(s, 0)->Ok_0.0),
{
    let e = value_at(s, 0)->Ok_0.1;
    lemma_ws_end_blank(s, e, s.len() as int);
}

/// Skipping whitespace stops at the first character that is not a space,
/// tab, line feed or carriage return, and skips all of those before it.
pub proof fn law_whitespace_skipped(s: Seq<char>, i: int)
    requires
        0 <= i <= s.len(),
    ensures
        i <= ws_end(s, i) <= s.len(),
        blank_between(s, i, ws_end(s, i)),
        ws_end(s, i) < s.len() ==> !(s[ws_end(s, i)] == ' ' || s[ws_end(s, i)] == '\t'
            || s[ws_end(s, i)] == '\n' || s[ws_end(s, i)] == '\r'),
    decreases s.len() - i,
{
    if i < s.len() && json_ws(s[i]) {
        law_whitespace_skipped(s, i + 1);
    }
}

/// An object with only whitespace between its braces is empty.
pub proof fn law_empty_object(s: Seq<char>, i: int, j: int)
    requires
        0 <= i < j < s.len(),
        s[i] == '{',
        blank_between(s, i + 1, j),
        s[j] == '}',
    ensures
        object_at(s, i) == Ok::<(JsonView, int), Seq<char>>((JsonView::Object(Seq::empty()), j + 1)),
        value_at(s, i) == object_at(s, i),
{
    lemma_ws_end_blank(s, i + 1, j);
    lemma_ws_end_blank(s, i, i);
}

/// Whitespace between a member's name and its colon is skipped: the member
/// is the name with the value after the colon.
pub proof fn law_name_colon_whitespace(s: Seq<char>, i: int, a: int, b: int)
    requires
        0 <= i,
        string_at(s, i) matches Ok((key, e)) && e == a,
        a <= b < s.len(),
        blank_between(s, a, b),
        s[b] == ':',
        value_at(s, b + 1) is Ok,
    ensures
        member_at(s, i) == Ok::<(Seq<char>, JsonView, int), Seq<char>>(
            (string_at(s, i)->Ok_0.0, value_at(s, b + 1)->Ok_0.0, value_at(s, b + 1)->Ok_0.1),
        ),
{
    lemma_string_at_moves(s, i);
    lemma_ws_end_blank(s, a, b);
    lemma_ws_end_blank(s, b, b);
    lemma_value_at_moves(s, b + 1);
}

/// Whitespace after a member's value is skipped before the `,` or `}` that
/// follows: a `}` closes the object with the member stored, and a `,`
/// goes on to the next member with it stored.
pub proof fn law_member_end_whitespace(
    s: Seq<char>,
    i: int,
    c: int,
    d: int,
    acc: Seq<(Seq<char>, JsonView)>,
)
    requires
        0 <= i,
        member_at(s, i) matches Ok((key, v, e)) && e == c,
        c <= d < s.len(),
        blank_between(s, c, d),
        s[d] == ',' || s[d] == '}',
    ensures
        s[d] == '}' ==> members_at(s, i, acc) == Ok::<(JsonView, int), Seq<char>>(
            (
                JsonView::Object(
                    map_insert(acc, member_at(s, i)->Ok_0.0, member_at(s, i)->Ok_0.1),
                ),
                d + 1,
            ),
        ),
        s[d] == ',' ==> members_at(s, i, acc) == members_at(
            s,
            d + 1,
            map_insert(acc, member_at(s, i)->Ok_0.0, member_at(s, i)->Ok_0.1),
        ),
{
    lemma_member_at_moves(s, i);
    lemma_ws_end_blank(s, c, d);
    lemma_ws_end_blank(s, d, d);
}

proof fn lemma_string_at_moves(s: Seq<char>, i: int)
    requires
        0 <= i,
    ensures
        string_at(s, i) matches Ok((_, a)) ==> i < a <= s.len(),
{
    lemma_ws_end(s, i);
    let w = ws_end(s, i);
    if 0 <= w < s.len() && s[w] == '"' {
        lemma_string_body_moves(s, w + 1, Seq::empty());
        lemma_string_body_bound(s, w + 1, Seq::empty());
    }
}

proof fn lemma_string_body_bound(s: Seq<char>, i: int, acc: Seq<char>)
    ensures
        string_body(s, i, acc) matches Ok((_, a)) ==> a <= s.len(),
    decreases s.len() - i,
{
    if 0 <= i < s.len() && s[i] != '"' {
        if s[i] == '\\' {
            if i + 1 < s.len() {
                let e = s[i + 1];
                match simple_escape(e) {
                    Some(c) => lemma_string_body_bound(s, i + 2, acc.push(c)),
                    None => if e == 'u' {
                        match unicode_escape_at(s, i + 2) {
                            Err(m) => {},
                            Ok((c, j)) => if !(j <= i || j > s.len()) {
                                lemma_string_body_bound(s, j, acc.push(c));
                            },
                        }
                    },
                }
            }
        } else {
            lemma_string_body_bound(s, i + 1, acc.push(s[i]));
        }
    }
}

proof fn lemma_value_at_moves(s: Seq<char>, i: int)
    requires
        0 <= i,
    ensures
        value_at(s, i) matches Ok((_, e)) ==> i < e <= s.len(),
{
    lemma_ws_end(s, i);
    let j = ws_end(s, i);
    if 0 <= j < s.len() {
        if s[j] == '{' {
            lemma_object_at_moves(s, j);
        } else if s[j] == '"' {
            lemma_string_at_moves(s, j);
        } else if s[j] == '-' || is_digit(s[j]) {
            lemma_number_end_bound(s, j);
            if number_at(s, j) is Ok {
                // an empty text is no float literal
                assert(number_end(s, j) > j) by {
                    if number_end(s, j) == j {
                        assert(s.subrange(j, j) =~= Seq::<char>::empty());
                    }
                }
            }
        }
    }
}

proof fn lemma_object_at_moves(s: Seq<char>, i: int)
    requires
        0 <= i,
    ensures
        object_at(s, i) matches Ok((_, e)) ==> i < e <= s.len(),
{
    lemma_ws_end(s, i + 1);
    let j = ws_end(s, i + 1);
    if !(0 <= j < s.len() && s[j] == '}') && 0 <= i < s.len() {
        lemma_members_at_moves(s, j, Seq::empty());
    }
}

proof fn lemma_members_at_moves(s: Seq<char>, i: int, acc: Seq<(Seq<char>, JsonView)>)
    ensures
        members_at(s, i, acc) matches Ok((_, e)) ==> i < e <= s.len(),
    decreases s.len() - i,
{
    if member_at(s, i) is Ok {
        let c = member_at(s, i)->Ok_0.2;
        if !(c <= i || c > s.len()) {
            lemma_ws_end(s, c);
            let d = ws_end(s, c);
            if 0 <= d < s.len() && s[d] == ',' {
                lemma_members_at_moves(s, d + 1, map_insert(acc, member_at(s, i)->Ok_0.0, member_at(s, i)->Ok_0.1));
            }
        }
    }
}

proof fn lemma_member_at_moves(s: Seq<char>, i: int)
    requires
        0 <= i,
    ensures
        member_at(s, i) matches Ok((_, _, c)) ==> i < c <= s.len(),
{
    lemma_string_at_moves(s, i);
    if string_at(s, i) is Ok {
        lemma_ws_end(s, string_at(s, i)->Ok_0.1);
    }
}

proof fn lemma_number_end_bound(s: Seq<char>, i: int)
    requires
        0 <= i <= s.len(),
    ensures
        i <= number_end(s, i) <= s.len(),
{
    let j0 = if 0 <= i < s.len() && s[i] == '-' {
        i + 1
    } else {
        i
    };
    crate::text::lemma_lead_digits(s.skip(j0));
    let j1 = j0 + lead_digits(s.skip(j0));
    if 0 <= j1 < s.len() && s[j1] == '.' {
        crate::text::lemma_lead_digits(s.skip(j1 + 1));
    }
    let j2 = if 0 <= j1 < s.len() && s[j1] == '.' {
        j1 + 1 + lead_digits(s.skip(j1 + 1))
    } else {
        j1
    };
    if 0 <= j2 < s.len() && (s[j2] == 'e' || s[j2] == 'E') {
        let k = j2 + 1;
        let k2 = if k < s.len() && (s[k] == '+' || s[k] == '-') {
            k + 1
        } else {
            k
        };
        crate::text::lemma_lead_digits(s.skip(k2));
    }
}

} // verus!
