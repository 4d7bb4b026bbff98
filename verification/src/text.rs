//! Character-level helpers shared by the text and JSON formats: building
//! strings, decimal numbers, the number grammars of Rust's `str::parse`,
//! the order of names, and splitting text into lines and fields.
use vstd::prelude::*;

verus! {

/// Appends one character to a string.
///
/// Trusted: calls `String::push`, which appends `c` to the end of `s`.
#[verifier::external_body]
pub(crate) fn push_char(s: &mut String, c: char)
    ensures
        final(s)@ == old(s)@.push(c),
{
    s.push(c);
}

/// Appends `t` to `s`.
pub fn push_str(s: &mut String, t: &str)
    ensures
        final(s)@ == old(s)@ + t@,
{
    s.append(t);
}

/// The characters of `s`, in order.
pub fn chars_of(s: &str) -> (v: Vec<char>)
    ensures
        v@ == s@,
{
    let mut v: Vec<char> = Vec::new();
    for c in it: s.chars()
        invariant
            v@ == it.seq().take(it.index() as int),
            it.seq() == s@,
    {
        v.push(c);
    }
    v
}

/// A string holding the characters `v[start..end]`.
pub fn string_of(v: &Vec<char>, start: usize, end: usize) -> (s: String)
    requires
        start <= end <= v.len(),
    ensures
        s@ == v@.subrange(start as int, end as int),
{
    let mut s = String::new();
    let mut i = start;
    while i < end
        invariant
            start <= i <= end <= v.len(),
            s@ == v@.subrange(start as int, i as int),
        decreases end - i,
    {
        push_char(&mut s, v[i]);
        i += 1;
        assert(s@ =~= v@.subrange(start as int, i as int));
    }
    s
}

/// Whether `a[a_start..a_end]` and `b` hold the same characters.
pub fn range_eq(a: &Vec<char>, a_start: usize, a_end: usize, b: &Vec<char>) -> (r: bool)
    requires
        a_start <= a_end <= a.len(),
    ensures
        r == (a@.subrange(a_start as int, a_end as int) == b@),
{
    if a_end - a_start != b.len() {
        return false;
    }
    let mut i: usize = 0;
    while i < b.len()
        invariant
            a_start <= a_end <= a.len(),
            a_end - a_start == b.len(),
            i <= b.len(),
            forall|j: int| 0 <= j < i ==> a@[a_start + j] == b@[j],
        decreases b.len() - i,
    {
        if a[a_start + i] != b[i] {
            return false;
        }
        i += 1;
    }
    assert(a@.subrange(a_start as int, a_end as int) =~= b@);
    true
}

/// Whether two character vectors are equal.
pub fn chars_eq(a: &Vec<char>, b: &Vec<char>) -> (r: bool)
    ensures
        r == (a@ == b@),
{
    let r = range_eq(a, 0, a.len(), b);
    assert(a@.subrange(0, a@.len() as int) =~= a@);
    r
}

// ---------------------------------------------------------------------------
// Decimal digits

pub open spec fn is_digit(c: char) -> bool {
    48 <= c as u32 <= 57
}

pub open spec fn digit_value(c: char) -> int {
    c as u32 - 48
}

pub open spec fn digit_char(d: int) -> char {
    (d + 48) as char
}

pub open spec fn all_digits(s: Seq<char>) -> bool {
    forall|i: int| 0 <= i < s.len() ==> is_digit(#[trigger] s[i])
}

/// The number a sequence of decimal digits denotes.
pub open spec fn digits_value(s: Seq<char>) -> nat
    decreases s.len(),
{
    if s.len() == 0 {
        0
    } else {
        (digits_value(s.drop_last()) * 10 + digit_value(s.last())) as nat
    }
}

/// The decimal representation of `n`, as `n.to_string()` writes it.
pub open spec fn decimal(n: nat) -> Seq<char>
    decreases n,
{
    if n < 10 {
        seq![digit_char(n as int)]
    } else {
        decimal(n / 10).push(digit_char((n % 10) as int))
    }
}

/// What `str::parse::<u32>` gives for `s`: an optional `+` followed by one
/// or more decimal digits whose value fits in a `u32`.
pub open spec fn parse_u32_text(s: Seq<char>) -> Option<u32> {
    let d = if s.len() > 0 && s[0] == '+' {
        s.drop_first()
    } else {
        s
    };
    if d.len() > 0 && all_digits(d) && digits_value(d) <= u32::MAX {
        Some(digits_value(d) as u32)
    } else {
        None
    }
}

pub proof fn lemma_decimal(n: nat)
    ensures
        decimal(n).len() >= 1,
        all_digits(decimal(n)),
        digits_value(decimal(n)) == n,
    decreases n,
{
    lemma_digit_char((n % 10) as int);
    if n >= 10 {
        lemma_decimal(n / 10);
        let d = decimal(n);
        assert(d.drop_last() =~= decimal(n / 10));
        assert(d.last() == digit_char((n % 10) as int));
        assert(digits_value(d) == (n / 10) * 10 + n % 10);
        assert((n / 10) * 10 + n % 10 == n);
        assert forall|i: int| 0 <= i < d.len() implies is_digit(#[trigger] d[i]) by {
            if i < d.len() - 1 {
                assert(d[i] == decimal(n / 10)[i]);
            }
        }
    } else {
        lemma_digit_char(n as int);
        assert(decimal(n).drop_last() =~= Seq::<char>::empty());
        assert(digits_value(Seq::<char>::empty()) == 0);
        assert(digits_value(decimal(n)) == 0 * 10 + digit_value(decimal(n).last()));
    }
}

pub proof fn lemma_digit_char(d: int)
    requires
        0 <= d < 10,
    ensures
        digit_char(d) as u32 == d + 48,
        is_digit(digit_char(d)),
        digit_value(digit_char(d)) == d,
{
}

/// A decimal numeral reads back as the number it was written from.
pub proof fn lemma_decimal_parses(n: u32)
    ensures
        parse_u32_text(decimal(n as nat)) == Some(n),
{
    lemma_decimal(n as nat);
    assert(is_digit(decimal(n as nat)[0]));
}

fn digit(d: u128) -> (c: char)
    requires
        d < 10,
    ensures
        c == digit_char(d as int),
{
    ((d as u8) + 48) as char
}

/// Appends the decimal representation of `n` to `out`.
pub fn push_decimal(out: &mut String, n: u128)
    ensures
        final(out)@ == old(out)@ + decimal(n as nat),
    decreases n,
{
    if n >= 10 {
        push_decimal(out, n / 10);
    }
    push_char(out, digit(n % 10));
    assert(final(out)@ =~= old(out)@ + decimal(n as nat));
}

/// Reads `v[start..end]` as `str::parse::<u32>` does.
pub fn parse_u32(v: &Vec<char>, start: usize, end: usize) -> (r: Option<u32>)
    requires
        start <= end <= v.len(),
    ensures
        r == parse_u32_text(v@.subrange(start as int, end as int)),
{
    let ghost s = v@.subrange(start as int, end as int);
    let mut i = start;
    if i < end && v[i] == '+' {
        i += 1;
    }
    let ghost d = v@.subrange(i as int, end as int);
    assert(d =~= (if s.len() > 0 && s[0] == '+' {
        s.drop_first()
    } else {
        s
    }));
    if i == end {
        return None;
    }
    let digits_start = i;
    // saturates one above u32::MAX
    let mut value: u64 = 0;
    while i < end
        invariant
            start <= digits_start <= i <= end <= v.len(),
            s == v@.subrange(start as int, end as int),
            d == (if s.len() > 0 && s[0] == '+' {
                s.drop_first()
            } else {
                s
            }),
            d == v@.subrange(digits_start as int, end as int),
            all_digits(v@.subrange(digits_start as int, i as int)),
            value == (if digits_value(v@.subrange(digits_start as int, i as int)) > u32::MAX {
                u32::MAX as nat + 1
            } else {
                digits_value(v@.subrange(digits_start as int, i as int))
            }),
        decreases end - i,
    {
        let c = v[i];
        if !((c as u32) >= 48 && (c as u32) <= 57) {
            assert(d[i - digits_start] == c);
            assert(!is_digit(d[i - digits_start]));
            return None;
        }
        let dv = (c as u32 - 48) as u64;
        proof {
            let p = v@.subrange(digits_start as int, i as int);
            let q = v@.subrange(digits_start as int, i + 1);
            assert(q.drop_last() =~= p);
            assert(digits_value(q) == digits_value(p) * 10 + dv);
            if digits_value(p) > u32::MAX {
                assert(digits_value(q) > u32::MAX) by (nonlinear_arith)
                    requires
                        digits_value(q) == digits_value(p) * 10 + dv,
                        digits_value(p) > u32::MAX,
                ;
            }
            assert forall|j: int| 0 <= j < q.len() implies is_digit(#[trigger] q[j]) by {
                if j < p.len() {
                    assert(q[j] == p[j]);
                }
            }
        }
        let next = value * 10 + dv;
        value = if next > 4294967296 {
            4294967296
        } else {
            next
        };
        i += 1;
    }
    assert(v@.subrange(digits_start as int, i as int) =~= d);
    if value > 4294967295 {
        None
    } else {
        Some(value as u32)
    }
}

// ---------------------------------------------------------------------------
// Floating-point literals

/// The code of the ASCII lowercase of a character.
pub open spec fn lower(c: char) -> u32 {
    if 65 <= c as u32 <= 90 {
        (c as u32 + 32) as u32
    } else {
        c as u32
    }
}

/// Length of the run of digits at the start of `s`.
pub open spec fn lead_digits(s: Seq<char>) -> nat
    decreases s.len(),
{
    if s.len() > 0 && is_digit(s[0]) {
        1 + lead_digits(s.drop_first())
    } else {
        0
    }
}

pub open spec fn is_sign(c: char) -> bool {
    c == '+' || c == '-'
}

pub open spec fn lowered(t: Seq<char>) -> Seq<u32> {
    t.map_values(|c: char| lower(c))
}

pub open spec fn is_special_float(t: Seq<char>) -> bool {
    // "inf", "infinity", "nan"
    let l = lowered(t);
    l == seq![105u32, 110, 102] || l == seq![105u32, 110, 102, 105, 110, 105, 116, 121] || l
        == seq![110u32, 97, 110]
}

/// `Exp ::= 'e' Sign? Digit+`, to the end of `r`.
pub open spec fn is_exponent(r: Seq<char>) -> bool {
    r.len() > 0 && lower(r[0]) == 101 && {
        let r1 = r.skip(1);
        let r2 = if r1.len() > 0 && is_sign(r1[0]) {
            r1.skip(1)
        } else {
            r1
        };
        r2.len() > 0 && all_digits(r2)
    }
}

/// `Number ::= (Digit+ | Digit+ '.' Digit* | Digit* '.' Digit+) Exp?`
pub open spec fn is_decimal_number(t: Seq<char>) -> bool {
    let a = lead_digits(t);
    let r = t.skip(a as int);
    let b: nat = if r.len() > 0 && r[0] == '.' {
        lead_digits(r.skip(1))
    } else {
        0
    };
    let r2 = if r.len() > 0 && r[0] == '.' {
        r.skip((1 + b) as int)
    } else {
        r
    };
    a + b > 0 && (r2.len() == 0 || is_exponent(r2))
}

/// Whether `str::parse::<f64>` accepts `s`: the documented grammar
/// `Sign? ('inf' | 'infinity' | 'nan' | Number)`, letters in any case.
pub open spec fn is_float_literal(s: Seq<char>) -> bool {
    let t = if s.len() > 0 && is_sign(s[0]) {
        s.skip(1)
    } else {
        s
    };
    is_special_float(t) || is_decimal_number(t)
}

pub proof fn lemma_lead_digits(s: Seq<char>)
    ensures
        lead_digits(s) <= s.len(),
        all_digits(s.take(lead_digits(s) as int)),
        lead_digits(s) < s.len() ==> !is_digit(s[lead_digits(s) as int]),
    decreases s.len(),
{
    if s.len() > 0 && is_digit(s[0]) {
        lemma_lead_digits(s.drop_first());
        let k = lead_digits(s.drop_first()) as int;
        assert forall|i: int| 0 <= i < k + 1 implies is_digit(#[trigger] s.take(k + 1)[i]) by {
            if i > 0 {
                assert(s.take(k + 1)[i] == s.drop_first().take(k as int)[i - 1]);
            }
        }
        if k + 1 < s.len() {
            assert(s[k + 1] == s.drop_first()[k as int]);
        }
    }
}

/// `lead_digits` is the first index at or after `i` that is not a digit.
pub proof fn lemma_lead_digits_is(s: Seq<char>, k: int)
    requires
        0 <= k <= s.len(),
        forall|j: int| 0 <= j < k ==> is_digit(#[trigger] s[j]),
        k < s.len() ==> !is_digit(s[k]),
    ensures
        lead_digits(s) == k,
    decreases s.len(),
{
    if k > 0 {
        assert forall|j: int| 0 <= j < k - 1 implies is_digit(#[trigger] s.drop_first()[j]) by {
            assert(s.drop_first()[j] == s[j + 1]);
        }
        if k - 1 < s.drop_first().len() {
            assert(s.drop_first()[k - 1] == s[k]);
        }
        lemma_lead_digits_is(s.drop_first(), k - 1);
    }
}

/// Index of the first non-digit in `v[i..end]` (or `end`).
pub fn skip_digits(v: &Vec<char>, i: usize, end: usize) -> (k: usize)
    requires
        i <= end <= v.len(),
    ensures
        i <= k <= end,
        forall|j: int| i <= j < k ==> is_digit(#[trigger] v@[j]),
        k < end ==> !is_digit(v@[k as int]),
        lead_digits(v@.subrange(i as int, end as int)) == k - i,
{
    let mut k = i;
    while k < end && (v[k] as u32) >= 48 && (v[k] as u32) <= 57
        invariant
            i <= k <= end <= v.len(),
            forall|j: int| i <= j < k ==> is_digit(#[trigger] v@[j]),
        decreases end - k,
    {
        k += 1;
    }
    proof {
        let s = v@.subrange(i as int, end as int);
        assert forall|j: int| 0 <= j < k - i implies is_digit(#[trigger] s[j]) by {
            assert(s[j] == v@[i + j]);
        }
        lemma_lead_digits_is(s, k - i);
    }
    k
}

fn lower_exec(c: char) -> (l: u32)
    ensures
        l == lower(c),
{
    let u = c as u32;
    if u >= 65 && u <= 90 {
        u + 32
    } else {
        u
    }
}

/// Whether `v[i..end]` is `inf`, `infinity` or `nan` in any case.
fn is_special_exec(v: &Vec<char>, i: usize, end: usize) -> (r: bool)
    requires
        i <= end <= v.len(),
    ensures
        r == is_special_float(v@.subrange(i as int, end as int)),
{
    let ghost t = v@.subrange(i as int, end as int);
    let ghost l = lowered(t);
    let n = end - i;
    if n == 3 {
        let a = lower_exec(v[i]);
        let b = lower_exec(v[i + 1]);
        let c = lower_exec(v[i + 2]);
        assert(l[0] == a && l[1] == b && l[2] == c);
        let r = (a == 105 && b == 110 && c == 102) || (a == 110 && b == 97 && c == 110);
        assert(l.len() == 3);
        assert(l[0] == a && l[1] == b && l[2] == c);
        if r {
            assert(l =~= seq![105u32, 110, 102] || l =~= seq![110u32, 97, 110]);
        } else {
            assert(l != seq![105u32, 110, 102]) by {
                if l == seq![105u32, 110, 102] {
                    assert(l[0] == 105 && l[1] == 110 && l[2] == 102);
                }
            }
            assert(l != seq![110u32, 97, 110]) by {
                if l == seq![110u32, 97, 110] {
                    assert(l[0] == 110 && l[1] == 97 && l[2] == 110);
                }
            }
            assert(l.len() != 8);
        }
        r
    } else if n == 8 {
        let mut k: usize = 0;
        let word: [u32; 8] = [105, 110, 102, 105, 110, 105, 116, 121];
        let ghost w = seq![105u32, 110, 102, 105, 110, 105, 116, 121];
        assert(word@ =~= w);
        while k < 8
            invariant
                k <= 8,
                end - i == 8,
                i + 8 <= v.len(),
                t == v@.subrange(i as int, end as int),
                l == lowered(t),
                word@ == w,
                w == seq![105u32, 110, 102, 105, 110, 105, 116, 121],
                forall|j: int| 0 <= j < k ==> l[j] == w[j],
            decreases 8 - k,
        {
            if lower_exec(v[i + k]) != word[k] {
                assert(l[k as int] != w[k as int]);
                assert(l.len() == 8);
                assert(seq![105u32, 110, 102].len() == 3 && seq![110u32, 97, 110].len() == 3);
                assert(l != w);
                return false;
            }
            k += 1;
        }
        assert(l =~= w);
        true
    } else {
        assert(l.len() == n);
        assert(seq![105u32, 110, 102].len() == 3 && seq![110u32, 97, 110].len() == 3);
        assert(seq![105u32, 110, 102, 105, 110, 105, 116, 121].len() == 8);
        false
    }
}

/// Whether `v[i..end]` is a `Number` of the float grammar.
fn is_decimal_number_exec(v: &Vec<char>, i: usize, end: usize) -> (res: bool)
    requires
        i <= end <= v.len(),
    ensures
        res == is_decimal_number(v@.subrange(i as int, end as int)),
{
    let ghost t = v@.subrange(i as int, end as int);
    let a_end = skip_digits(v, i, end);
    let ghost a = (a_end - i) as nat;
    let ghost r = t.skip(a as int);
    assert(r =~= v@.subrange(a_end as int, end as int));
    let mut p = a_end;
    let mut b: usize = 0;
    if p < end && v[p] == '.' {
        let b_end = skip_digits(v, p + 1, end);
        assert(r.skip(1) =~= v@.subrange(p + 1, end as int));
        b = b_end - (p + 1);
        p = b_end;
    }
    let ghost r2 = v@.subrange(p as int, end as int);
    assert(r2 =~= (if r.len() > 0 && r[0] == '.' {
        r.skip((1 + b) as int)
    } else {
        r
    }));
    if a_end - i + b == 0 {
        return false;
    }
    if p == end {
        return true;
    }
    is_exponent_exec(v, p, end)
}

/// Whether `v[p..end]` is an `Exp` of the float grammar.
fn is_exponent_exec(v: &Vec<char>, p: usize, end: usize) -> (res: bool)
    requires
        p < end <= v.len(),
    ensures
        res == is_exponent(v@.subrange(p as int, end as int)),
{
    let ghost r2 = v@.subrange(p as int, end as int);
    if lower_exec(v[p]) != 101 {
        return false;
    }
    let mut q = p + 1;
    let ghost r1 = r2.skip(1);
    assert(r1 =~= v@.subrange(q as int, end as int));
    if q < end && (v[q] == '+' || v[q] == '-') {
        q += 1;
    }
    let ghost r3 = v@.subrange(q as int, end as int);
    assert(r3 =~= (if r1.len() > 0 && is_sign(r1[0]) {
        r1.skip(1)
    } else {
        r1
    }));
    if q == end {
        return false;
    }
    let e_end = skip_digits(v, q, end);
    if e_end == end {
        assert forall|j: int| 0 <= j < r3.len() implies is_digit(#[trigger] r3[j]) by {
            assert(r3[j] == v@[q + j]);
        }
        true
    } else {
        assert(r3[e_end - q] == v@[e_end as int]);
        false
    }
}

/// Whether `v[start..end]` is accepted by `str::parse::<f64>`.
pub fn is_float_literal_exec(v: &Vec<char>, start: usize, end: usize) -> (r: bool)
    requires
        start <= end <= v.len(),
    ensures
        r == is_float_literal(v@.subrange(start as int, end as int)),
{
    let ghost s = v@.subrange(start as int, end as int);
    let mut i = start;
    if i < end && (v[i] == '+' || v[i] == '-') {
        i += 1;
    }
    let ghost t = v@.subrange(i as int, end as int);
    assert(t =~= (if s.len() > 0 && is_sign(s[0]) {
        s.skip(1)
    } else {
        s
    }));
    is_special_exec(v, i, end) || is_decimal_number_exec(v, i, end)
}

// ---------------------------------------------------------------------------
// Order of names

/// The order of Rust's `str`: lexicographic by character.
pub open spec fn name_lt(a: Seq<char>, b: Seq<char>) -> bool
    decreases a.len(),
{
    if b.len() == 0 {
        false
    } else if a.len() == 0 {
        true
    } else if a[0] != b[0] {
        a[0] < b[0]
    } else {
        name_lt(a.drop_first(), b.drop_first())
    }
}

pub proof fn lemma_name_lt_irreflexive(a: Seq<char>)
    ensures
        !name_lt(a, a),
    decreases a.len(),
{
    if a.len() > 0 {
        lemma_name_lt_irreflexive(a.drop_first());
    }
}

pub proof fn lemma_name_lt_transitive(a: Seq<char>, b: Seq<char>, c: Seq<char>)
    requires
        name_lt(a, b),
        name_lt(b, c),
    ensures
        name_lt(a, c),
    decreases a.len(),
{
    if a.len() > 0 && b.len() > 0 && c.len() > 0 {
        if a[0] == b[0] && b[0] == c[0] {
            lemma_name_lt_transitive(a.drop_first(), b.drop_first(), c.drop_first());
        }
    }
}

pub proof fn lemma_name_lt_total(a: Seq<char>, b: Seq<char>)
    ensures
        a == b || name_lt(a, b) || name_lt(b, a),
    decreases a.len(),
{
    if a.len() > 0 && b.len() > 0 && a[0] == b[0] {
        lemma_name_lt_total(a.drop_first(), b.drop_first());
        if a.drop_first() == b.drop_first() {
            assert(a =~= seq![a[0]] + a.drop_first());
            assert(b =~= seq![b[0]] + b.drop_first());
        }
    } else if a.len() == 0 && b.len() == 0 {
        assert(a =~= b);
    }
}

pub proof fn lemma_name_lt_asymmetric(a: Seq<char>, b: Seq<char>)
    ensures
        !(name_lt(a, b) && name_lt(b, a)),
{
    if name_lt(a, b) && name_lt(b, a) {
        lemma_name_lt_transitive(a, b, a);
        lemma_name_lt_irreflexive(a);
    }
}

/// `a < b` in the order of `str`.
pub fn name_less(a: &Vec<char>, b: &Vec<char>) -> (r: bool)
    ensures
        r == name_lt(a@, b@),
{
    let mut i: usize = 0;
    assert(a@.skip(0) =~= a@ && b@.skip(0) =~= b@);
    while i < a.len() && i < b.len() && a[i] == b[i]
        invariant
            i <= a.len(),
            i <= b.len(),
            name_lt(a@, b@) == name_lt(a@.skip(i as int), b@.skip(i as int)),
        decreases a.len() - i,
    {
        proof {
            assert(a@.skip(i as int).drop_first() =~= a@.skip(i + 1));
            assert(b@.skip(i as int).drop_first() =~= b@.skip(i + 1));
        }
        i += 1;
    }
    if i == b.len() {
        false
    } else if i == a.len() {
        true
    } else {
        a[i] < b[i]
    }
}

// ---------------------------------------------------------------------------
// Lines and fields

/// Index of the first `c` in `s`, or `s.len()` when there is none.
pub open spec fn find_char(s: Seq<char>, c: char) -> nat
    decreases s.len(),
{
    if s.len() == 0 {
        0
    } else if s[0] == c {
        0
    } else {
        1 + find_char(s.drop_first(), c)
    }
}

pub proof fn lemma_find_char(s: Seq<char>, c: char)
    ensures
        find_char(s, c) <= s.len(),
        forall|j: int| 0 <= j < find_char(s, c) ==> s[j] != c,
        find_char(s, c) < s.len() ==> s[find_char(s, c) as int] == c,
    decreases s.len(),
{
    if s.len() > 0 && s[0] != c {
        lemma_find_char(s.drop_first(), c);
        assert forall|j: int| 0 <= j < find_char(s, c) implies s[j] != c by {
            if j > 0 {
                assert(s[j] == s.drop_first()[j - 1]);
            }
        }
    }
}

pub proof fn lemma_find_char_is(s: Seq<char>, c: char, k: int)
    requires
        0 <= k <= s.len(),
        forall|j: int| 0 <= j < k ==> s[j] != c,
        k < s.len() ==> s[k] == c,
    ensures
        find_char(s, c) == k,
    decreases s.len(),
{
    if k > 0 {
        assert forall|j: int| 0 <= j < k - 1 implies s.drop_first()[j] != c by {
            assert(s.drop_first()[j] == s[j + 1]);
        }
        if k - 1 < s.len() - 1 {
            assert(s.drop_first()[k - 1] == s[k]);
        }
        lemma_find_char_is(s.drop_first(), c, k - 1);
    }
}

/// One line as `str::lines` yields it: the piece before a `\n`, without a
/// `\r` that stands right before that `\n`.
pub open spec fn strip_cr(piece: Seq<char>) -> Seq<char> {
    if piece.len() > 0 && piece.last() == '\r' {
        piece.drop_last()
    } else {
        piece
    }
}

/// The lines of `s` as `str::lines` yields them: split at `\n`, a `\r`
/// before a `\n` dropped, and no empty line after a final `\n`.
pub open spec fn lines_of(s: Seq<char>) -> Seq<Seq<char>>
    decreases s.len(),
{
    if s.len() == 0 {
        seq![]
    } else {
        let i = find_char(s, '\n');
        if i >= s.len() {
            seq![s]
        } else {
            seq![strip_cr(s.take(i as int))] + lines_of(s.skip((i + 1) as int))
        }
    }
}

/// The pieces of `s` between tabs, as `str::split('\t')` yields them.
pub open spec fn split_tabs(s: Seq<char>) -> Seq<Seq<char>>
    decreases s.len(),
{
    let i = find_char(s, '\t');
    if i >= s.len() {
        seq![s]
    } else {
        seq![s.take(i as int)] + split_tabs(s.skip((i + 1) as int))
    }
}

/// Index of the first `c` in `v[i..end]`, or `end`.
pub fn find_in(v: &Vec<char>, i: usize, end: usize, c: char) -> (k: usize)
    requires
        i <= end <= v.len(),
    ensures
        i <= k <= end,
        find_char(v@.subrange(i as int, end as int), c) == k - i,
{
    let mut k = i;
    while k < end && v[k] != c
        invariant
            i <= k <= end <= v.len(),
            forall|j: int| i <= j < k ==> v@[j] != c,
        decreases end - k,
    {
        k += 1;
    }
    proof {
        let s = v@.subrange(i as int, end as int);
        assert forall|j: int| 0 <= j < k - i implies s[j] != c by {
            assert(s[j] == v@[i + j]);
        }
        lemma_find_char_is(s, c, k - i);
    }
    k
}

/// The lines of `v`, as ranges `(start, end)` into `v`.
pub fn line_ranges(v: &Vec<char>) -> (r: Vec<(usize, usize)>)
    ensures
        r@.len() == lines_of(v@).len(),
        forall|i: int|
            0 <= i < r@.len() ==> {
                &&& (#[trigger] r@[i]).0 <= r@[i].1 <= v@.len()
                &&& v@.subrange(r@[i].0 as int, r@[i].1 as int) == lines_of(v@)[i]
            },
{
    let mut r: Vec<(usize, usize)> = Vec::new();
    let mut pos: usize = 0;
    assert(v@.skip(0) =~= v@);
    assert(r@.map_values(|p: (usize, usize)| v@.subrange(p.0 as int, p.1 as int)) =~= Seq::<
        Seq<char>,
    >::empty());
    while pos < v.len()
        invariant
            pos <= v.len(),
            lines_of(v@) == r@.map_values(|p: (usize, usize)| v@.subrange(p.0 as int, p.1 as int))
                + lines_of(v@.skip(pos as int)),
            forall|i: int|
                0 <= i < r@.len() ==> (#[trigger] r@[i]).0 <= r@[i].1 <= v@.len(),
        decreases v.len() - pos,
    {
        let ghost rest = v@.skip(pos as int);
        let nl = find_in(v, pos, v.len(), '\n');
        assert(v@.subrange(pos as int, v.len() as int) =~= rest);
        let ghost old_r = r@;
        if nl == v.len() {
            r.push((pos, nl));
            proof {
                assert(lines_of(rest) == seq![rest]);
                assert(v@.skip(v.len() as int) =~= Seq::<char>::empty());
                assert(r@.map_values(|p: (usize, usize)| v@.subrange(p.0 as int, p.1 as int))
                    =~= old_r.map_values(|p: (usize, usize)| v@.subrange(p.0 as int, p.1 as int))
                    + seq![rest]);
            }
            pos = nl;
        } else {
            let end = if nl > pos && v[nl - 1] == '\r' {
                nl - 1
            } else {
                nl
            };
            r.push((pos, end));
            proof {
                let piece = rest.take((nl - pos) as int);
                assert(piece =~= v@.subrange(pos as int, nl as int));
                assert(strip_cr(piece) =~= v@.subrange(pos as int, end as int));
                assert(rest.skip(nl - pos + 1) =~= v@.skip(nl + 1));
                assert(r@.map_values(|p: (usize, usize)| v@.subrange(p.0 as int, p.1 as int))
                    =~= old_r.map_values(|p: (usize, usize)| v@.subrange(p.0 as int, p.1 as int))
                    + seq![strip_cr(piece)]);
            }
            pos = nl + 1;
        }
    }
    proof {
        assert(v@.skip(pos as int) =~= Seq::<char>::empty());
        assert forall|i: int| 0 <= i < r@.len() implies v@.subrange(
            (#[trigger] r@[i]).0 as int,
            r@[i].1 as int,
        ) == lines_of(v@)[i] by {
            assert(lines_of(v@)[i] == r@.map_values(
                |p: (usize, usize)| v@.subrange(p.0 as int, p.1 as int),
            )[i]);
        }
    }
    r
}

/// The tab-separated fields of `v[start..end]`, as ranges into `v`.
pub fn field_ranges(v: &Vec<char>, start: usize, end: usize) -> (r: Vec<(usize, usize)>)
    requires
        start <= end <= v.len(),
    ensures
        r@.len() == split_tabs(v@.subrange(start as int, end as int)).len(),
        forall|i: int|
            0 <= i < r@.len() ==> {
                &&& start <= (#[trigger] r@[i]).0 <= r@[i].1 <= end
                &&& v@.subrange(r@[i].0 as int, r@[i].1 as int) == split_tabs(
                    v@.subrange(start as int, end as int),
                )[i]
            },
{
    let ghost whole = v@.subrange(start as int, end as int);
    let mut r: Vec<(usize, usize)> = Vec::new();
    let mut pos: usize = start;
    loop
        invariant
            start <= pos <= end <= v.len(),
            whole == v@.subrange(start as int, end as int),
            split_tabs(whole) == r@.map_values(
                |p: (usize, usize)| v@.subrange(p.0 as int, p.1 as int),
            ) + split_tabs(v@.subrange(pos as int, end as int)),
            forall|i: int|
                0 <= i < r@.len() ==> start <= (#[trigger] r@[i]).0 <= r@[i].1 <= end,
        decreases end - pos,
    {
        let ghost rest = v@.subrange(pos as int, end as int);
        let tab = find_in(v, pos, end, '\t');
        let ghost old_r = r@;
        r.push((pos, tab));
        if tab == end {
            proof {
                assert(split_tabs(rest) == seq![rest]);
                assert(r@.map_values(|p: (usize, usize)| v@.subrange(p.0 as int, p.1 as int))
                    =~= old_r.map_values(|p: (usize, usize)| v@.subrange(p.0 as int, p.1 as int))
                    + seq![rest]);
                assert(split_tabs(whole) =~= r@.map_values(
                    |p: (usize, usize)| v@.subrange(p.0 as int, p.1 as int),
                ));
                assert forall|i: int| 0 <= i < r@.len() implies v@.subrange(
                    (#[trigger] r@[i]).0 as int,
                    r@[i].1 as int,
                ) == split_tabs(whole)[i] by {
                    assert(split_tabs(whole)[i] == r@.map_values(
                        |p: (usize, usize)| v@.subrange(p.0 as int, p.1 as int),
                    )[i]);
                }
            }
            return r;
        }
        proof {
            assert(rest.take((tab - pos) as int) =~= v@.subrange(pos as int, tab as int));
            assert(rest.skip(tab - pos + 1) =~= v@.subrange(tab + 1, end as int));
            assert(r@.map_values(|p: (usize, usize)| v@.subrange(p.0 as int, p.1 as int))
                =~= old_r.map_values(|p: (usize, usize)| v@.subrange(p.0 as int, p.1 as int))
                + seq![v@.subrange(pos as int, tab as int)]);
        }
        pos = tab + 1;
    }
}


/// Splitting at a tab that follows a tab-free piece.
pub proof fn lemma_split_tabs_cons(a: Seq<char>, b: Seq<char>)
    requires
        !a.contains('\t'),
    ensures
        split_tabs(a + seq!['\t'] + b) == seq![a] + split_tabs(b),
{
    let s = a + seq!['\t'] + b;
    assert forall|j: int| 0 <= j < a.len() implies s[j] != '\t' by {
        assert(s[j] == a[j]);
    }
    lemma_find_char_is(s, '\t', a.len() as int);
    assert(s.take(a.len() as int) =~= a);
    assert(s.skip(a.len() as int + 1) =~= b);
}

/// A tab-free text is a single field.
pub proof fn lemma_split_tabs_single(a: Seq<char>)
    requires
        !a.contains('\t'),
    ensures
        split_tabs(a) == seq![a],
{
    lemma_find_char_is(a, '\t', a.len() as int);
}

/// Lines of text that ends at a line break, followed by more text.
pub proof fn lemma_lines_append(x: Seq<char>, y: Seq<char>)
    requires
        x.len() == 0 || x.last() == '\n',
    ensures
        lines_of(x + y) == lines_of(x) + lines_of(y),
    decreases x.len(),
{
    if x.len() == 0 {
        assert(x + y =~= y);
        assert(lines_of(x) =~= Seq::<Seq<char>>::empty());
        assert(lines_of(x) + lines_of(y) =~= lines_of(y));
    } else {
        let s = x + y;
        lemma_find_char(x, '\n');
        let i = find_char(x, '\n') as int;
        assert(i < x.len()) by {
            if i >= x.len() {
                assert(x[x.len() - 1] != '\n');
            }
        }
        assert forall|j: int| 0 <= j < i implies s[j] != '\n' by {
            assert(s[j] == x[j]);
        }
        lemma_find_char_is(s, '\n', i);
        assert(s.take(i) =~= x.take(i));
        let x2 = x.skip(i + 1);
        assert(s.skip(i + 1) =~= x2 + y);
        if x2.len() > 0 {
            assert(x2.last() == x.last());
        }
        lemma_lines_append(x2, y);
        assert(lines_of(s) =~= seq![strip_cr(x.take(i))] + lines_of(x2 + y));
        assert(lines_of(x) =~= seq![strip_cr(x.take(i))] + lines_of(x2));
        assert(lines_of(s) =~= lines_of(x) + lines_of(y));
    }
}

/// A single line with its line break.
pub proof fn lemma_lines_single(l: Seq<char>)
    requires
        !l.contains('\n'),
        l.len() > 0 ==> l.last() != '\r',
    ensures
        lines_of(l + seq!['\n']) == seq![l],
{
    let s = l + seq!['\n'];
    assert forall|j: int| 0 <= j < l.len() implies s[j] != '\n' by {
        assert(s[j] == l[j]);
    }
    lemma_find_char_is(s, '\n', l.len() as int);
    assert(s.take(l.len() as int) =~= l);
    assert(s.skip(l.len() as int + 1) =~= Seq::<char>::empty());
    assert(lines_of(Seq::<char>::empty()) =~= Seq::<Seq<char>>::empty());
    assert(lines_of(s) =~= seq![l]);
}

/// A decimal numeral holds only digits.
pub proof fn lemma_decimal_plain(n: nat)
    ensures
        !decimal(n).contains('\t'),
        !decimal(n).contains('\n'),
        !decimal(n).contains('\r'),
        !decimal(n).contains('"'),
        !decimal(n).contains('\\'),
        decimal(n).len() > 0,
        is_digit(decimal(n).last()),
{
    lemma_decimal(n);
    let d = decimal(n);
    assert forall|c: char| !is_digit(c) implies !d.contains(c) by {
        if d.contains(c) {
            let j = choose|j: int| 0 <= j < d.len() && d[j] == c;
            assert(is_digit(d[j]));
        }
    }
    assert(is_digit(d[d.len() - 1]));
}

/// A line break appended to a text that does not end in `\r` adds an
/// empty line where the text ends in a line break (or is empty), and
/// nothing otherwise.
pub proof fn lemma_lines_newline(t: Seq<char>)
    requires
        t.len() > 0 ==> t.last() != '\r',
    ensures
        lines_of(t + seq!['\n']) == (if t.len() == 0 || t.last() == '\n' {
            lines_of(t).push(Seq::<char>::empty())
        } else {
            lines_of(t)
        }),
    decreases t.len(),
{
    let s = t + seq!['\n'];
    lemma_find_char(t, '\n');
    let i = find_char(t, '\n') as int;
    if t.len() == 0 {
        lemma_lines_single(t);
        assert(t =~= Seq::<char>::empty());
        assert(lines_of(t) =~= Seq::<Seq<char>>::empty());
        assert(lines_of(s) =~= lines_of(t).push(Seq::<char>::empty()));
    } else if i >= t.len() {
        // no line break in t
        assert(!t.contains('\n'));
        lemma_lines_single(t);
        assert(lines_of(t) =~= seq![t]);
    } else {
        assert forall|j: int| 0 <= j < i implies s[j] != '\n' by {
            assert(s[j] == t[j]);
        }
        lemma_find_char_is(s, '\n', i);
        let rest = t.skip(i + 1);
        assert(s.take(i) =~= t.take(i));
        assert(s.skip(i + 1) =~= rest + seq!['\n']);
        if rest.len() > 0 {
            assert(rest.last() == t.last());
        }
        lemma_lines_newline(rest);
        assert(lines_of(t) == seq![strip_cr(t.take(i))] + lines_of(rest));
        assert(lines_of(s) == seq![strip_cr(t.take(i))] + lines_of(rest + seq!['\n']));
        if rest.len() == 0 {
            assert(t.last() == '\n');
            assert(lines_of(s) =~= lines_of(t).push(Seq::<char>::empty()));
        } else if rest.last() == '\n' {
            assert(lines_of(s) =~= lines_of(t).push(Seq::<char>::empty()));
        } else {
            assert(lines_of(s) =~= lines_of(t));
        }
    }
}

} // verus!
