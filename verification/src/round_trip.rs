//! Reading back what the JSON writer writes.
use vstd::prelude::*;

use crate::deck::{
    card_json, card_of_json, cards_of_json, deck_of_json, escape_char, escaped, hex_lower,
    json_member, json_members, json_text, plain_integer, whole_u32, Entries, eases_kept,
    lemma_with_eases_kept, with_eases,
};
use crate::json::{
    byte_len, document, hex4_at, hex_digit, hex_value, json_ws, member_at, members_at,
    number_at, number_end, object_at, radix16, simple_escape, string_at, string_body,
    unicode_escape_at, value_at, ws_end, JsonView,
};
use crate::name_map::{map_insert, map_lookup, sorted_names};
use crate::scheduler::CardView;
use crate::text::{all_digits, decimal, digits_value, is_digit, is_float_literal, lead_digits};

verus! {

proof fn lemma_byte_len_ge_len(x: Seq<char>)
    ensures
        byte_len(x) >= x.len(),
    decreases x.len(),
{
    if x.len() > 0 {
        lemma_byte_len_ge_len(x.drop_first());
    }
}

proof fn lemma_escaped_concat(a: Seq<char>, b: Seq<char>)
    ensures
        escaped(a + b) == escaped(a) + escaped(b),
    decreases b.len(),
{
    if b.len() == 0 {
        assert(a + b =~= a);
        assert(escaped(a) + escaped(b) =~= escaped(a));
    } else {
        assert((a + b).drop_last() =~= a + b.drop_last());
        lemma_escaped_concat(a, b.drop_last());
        assert(escaped(a + b) =~= escaped(a) + escaped(b));
    }
}

proof fn lemma_escaped_front(c: char, rest: Seq<char>)
    ensures
        escaped(seq![c] + rest) == escape_char(c) + escaped(rest),
{
    lemma_escaped_concat(seq![c], rest);
    assert(seq![c].drop_last() =~= Seq::<char>::empty());
    assert(escaped(Seq::<char>::empty()) == Seq::<char>::empty());
    assert(seq![c].last() == c);
    assert(escaped(seq![c]) =~= escape_char(c));
}

proof fn lemma_hex_lower(d: int)
    requires
        0 <= d < 16,
    ensures
        hex_digit(hex_lower(d)) == d,
        (hex_lower(d) as u32) < 0x80,
{
}

/// The `\u00XX` escape of a control character reads back as that character.
proof fn lemma_control_escape(s: Seq<char>, i: int, c: char)
    requires
        0 <= i,
        i + 4 < s.len(),
        (c as u32) < 0x20,
        s.subrange(i, i + 4) == seq!['0', '0', hex_lower(((c as u32) / 16) as int), hex_lower(((c as u32) % 16) as int)],
    ensures
        unicode_escape_at(s, i) == Ok::<(char, int), Seq<char>>((c, i + 4)),
{
    let u = c as u32;
    let h = hex_lower((u / 16) as int);
    let l = hex_lower((u % 16) as int);
    lemma_hex_lower((u / 16) as int);
    lemma_hex_lower((u % 16) as int);
    lemma_byte_len_ge_len(s.skip(i));
    let t = s.subrange(i, i + 4);
    assert(forall|j: int| i <= j < i + 4 ==> (s[j] as u32) < 0x80) by {
        assert forall|j: int| i <= j < i + 4 implies (s[j] as u32) < 0x80 by {
            assert(s[j] == t[j - i]);
        }
    }
    assert(crate::json::all_hex(t)) by {
        assert forall|j: int| 0 <= j < t.len() implies hex_digit(#[trigger] t[j]) >= 0 by {}
    }
    assert(t.drop_last().drop_last().drop_last().drop_last() =~= Seq::<char>::empty());
    assert(t.drop_last().drop_last().drop_last() =~= seq!['0']);
    assert(t.drop_last().drop_last() =~= seq!['0', '0']);
    assert(t.drop_last() =~= seq!['0', '0', h]);
    assert(hex_value(Seq::<char>::empty()) == 0);
    assert(seq!['0'].drop_last() =~= Seq::<char>::empty());
    assert(hex_digit('0') == 0);
    assert(hex_value(seq!['0']) == 0);
    assert(seq!['0', '0'].drop_last() =~= seq!['0']);
    assert(hex_value(seq!['0', '0']) == 0);
    assert(seq!['0', '0', h].drop_last() =~= seq!['0', '0']);
    assert(hex_value(seq!['0', '0', h]) == u / 16);
    assert(hex_value(t) == (u / 16) * 16 + u % 16);
    assert(radix16(t) == Some(u as int));
    assert(hex4_at(s, i) == Ok::<(int, int), Seq<char>>((u as int, i + 4)));
    vstd::utf8::char_u32_cast(c, u);
}

/// The escaped text of `x` followed by a quote reads back as `x`.
#[verifier::rlimit(50)]
proof fn lemma_string_body_piece(s: Seq<char>, i: int, x: Seq<char>, acc: Seq<char>)
    requires
        0 <= i,
        i + escaped(x).len() < s.len(),
        s.subrange(i, i + escaped(x).len()) == escaped(x),
        s[i + escaped(x).len()] == '"',
    ensures
        string_body(s, i, acc) == Ok::<(Seq<char>, int), Seq<char>>(
            (acc + x, i + escaped(x).len() + 1),
        ),
    decreases x.len(),
{
    if x.len() == 0 {
        assert(acc + x =~= acc);
    } else {
        let c = x[0];
        let rest = x.drop_first();
        assert(x =~= seq![c] + rest);
        lemma_escaped_front(c, rest);
        let ec = escape_char(c);
        let n = ec.len();
        assert(escaped(x) =~= ec + escaped(rest));
        assert forall|j: int| 0 <= j < n implies s[i + j] == #[trigger] ec[j] by {
            assert(s.subrange(i, i + escaped(x).len())[j] == escaped(x)[j]);
        }
        assert(s.subrange(i + n, i + n + escaped(rest).len()) =~= escaped(rest)) by {
            assert forall|j: int| 0 <= j < escaped(rest).len() implies s.subrange(
                i + n,
                i + n + escaped(rest).len(),
            )[j] == escaped(rest)[j] by {
                assert(s.subrange(i, i + escaped(x).len())[n + j] == escaped(x)[n + j]);
            }
        }
        lemma_string_body_piece(s, i + n, rest, acc.push(c));
        assert(acc.push(c) + rest =~= acc + x);
        if c == '"' || c == '\\' || c == '\n' || c == '\r' || c == '\t' {
            assert(n == 2);
            assert(simple_escape(s[i + 1]) == Some(c));
        } else if (c as u32) < 0x20 {
            assert(n == 6);
            assert(s.subrange(i + 2, i + 6) =~= seq![
                '0',
                '0',
                hex_lower(((c as u32) / 16) as int),
                hex_lower(((c as u32) % 16) as int),
            ]) by {
                assert forall|j: int| 0 <= j < 4 implies #[trigger] s.subrange(i + 2, i + 6)[j] == ec[2 + j] by {
                    assert(s[i + 2 + j] == ec[2 + j]);
                }
            }
            lemma_control_escape(s, i + 2, c);
            assert(simple_escape('u') is None);
        } else {
            assert(n == 1);
        }
    }
}


/// `-? digits (. digits)?`: how Rust writes a finite `f64`.
pub open spec fn decimal_text(t: Seq<char>) -> bool {
    let d = if t.len() > 0 && t[0] == '-' {
        t.drop_first()
    } else {
        t
    };
    let a = lead_digits(d) as int;
    a > 0 && (a == d.len() || (d[a] == '.' && a + 1 < d.len() && all_digits(d.skip(a + 1))))
}

proof fn lemma_all_digits_lead(x: Seq<char>)
    requires
        all_digits(x),
    ensures
        lead_digits(x) == x.len(),
{
    crate::text::lemma_lead_digits_is(x, x.len() as int);
}

proof fn lemma_decimal_text_float(t: Seq<char>)
    requires
        decimal_text(t),
    ensures
        is_float_literal(t),
        t[0] == '-' || is_digit(t[0]),
{
    let d = if t.len() > 0 && t[0] == '-' {
        t.drop_first()
    } else {
        t
    };
    crate::text::lemma_lead_digits(d);
    let a = lead_digits(d) as int;
    assert(is_digit(d.take(a)[0]));
    assert(is_digit(d[0]));
    if t[0] != '-' {
        assert(d == t);
    }
    assert(t.skip(1) =~= t.drop_first());
    let r = d.skip(a);
    if a < d.len() {
        let f = d.skip(a + 1);
        lemma_all_digits_lead(f);
        assert(r.skip(1) =~= f);
        assert(r.skip(1 + f.len() as int) =~= Seq::<char>::empty());
    } else {
        assert(r =~= Seq::<char>::empty());
    }
    assert(crate::text::is_decimal_number(d));
}

proof fn lemma_decimal_is_text(n: nat)
    ensures
        decimal_text(decimal(n)),
        plain_integer(decimal(n)),
        decimal(n)[0] != '-',
{
    crate::text::lemma_decimal(n);
    let t = decimal(n);
    assert(is_digit(t[0]));
    lemma_all_digits_lead(t);
}

/// A number written as `decimal_text` and followed by `,` or `}` reads back
/// as its text.
#[verifier::rlimit(60)]
proof fn lemma_number_value(s: Seq<char>, i: int, t: Seq<char>)
    requires
        decimal_text(t),
        0 <= i,
        i + t.len() < s.len(),
        s.subrange(i, i + t.len()) == t,
        s[i + t.len()] == ',' || s[i + t.len()] == '}',
    ensures
        value_at(s, i) == Ok::<(JsonView, int), Seq<char>>((JsonView::Number(t), i + t.len())),
{
    lemma_decimal_text_float(t);
    let e = i + t.len();
    assert(s[i] == t[0]);
    assert(ws_end(s, i) == i);
    let neg = t[0] == '-';
    let j0 = if neg {
        i + 1
    } else {
        i
    };
    let d = if neg {
        t.drop_first()
    } else {
        t
    };
    assert(d.len() == e - j0);
    assert forall|k: int| 0 <= k < d.len() implies s[j0 + k] == #[trigger] d[k] by {
        assert(s.subrange(i, e)[j0 - i + k] == t[j0 - i + k]);
    }
    crate::text::lemma_lead_digits(d);
    let a = lead_digits(d) as int;
    // the integer part
    assert forall|k: int| 0 <= k < a implies is_digit(#[trigger] s.skip(j0)[k]) by {
        assert(s.skip(j0)[k] == d[k]);
        assert(d.take(a)[k] == d[k]);
    }
    if a < d.len() {
        assert(s.skip(j0)[a] == d[a]);
    } else {
        assert(s.skip(j0)[a] == s[e]);
    }
    crate::text::lemma_lead_digits_is(s.skip(j0), a);
    let j1 = j0 + a;
    if a == d.len() {
        assert(j1 == e);
    } else {
        assert(s[j1] == '.');
        let f = d.skip(a + 1);
        let j2 = j1 + 1 + f.len();
        assert(j2 == e);
        assert forall|k: int| 0 <= k < f.len() implies is_digit(#[trigger] s.skip(j1 + 1)[k]) by {
            assert(s.skip(j1 + 1)[k] == d[a + 1 + k]);
            assert(f[k] == d[a + 1 + k]);
        }
        assert(s.skip(j1 + 1)[f.len() as int] == s[e]);
        crate::text::lemma_lead_digits_is(s.skip(j1 + 1), f.len() as int);
    }
    assert(number_end(s, i) == e);
    assert(number_at(s, i) == Ok::<(JsonView, int), Seq<char>>((JsonView::Number(t), e)));
}

/// Any string, escaped as the JSON writer escapes it and put in quotes,
/// reads back as the same string, and the reading ends right after the
/// closing quote: the JSON string reader undoes the writer's escaping.
pub proof fn law_string_round_trip(x: Seq<char>)
    ensures
        string_at(seq!['"'] + escaped(x) + seq!['"'], 0) == Ok::<(Seq<char>, int), Seq<char>>(
            (x, escaped(x).len() + 2int),
        ),
{
    let s = seq!['"'] + escaped(x) + seq!['"'];
    assert(s.subrange(1, 1 + escaped(x).len() as int) =~= escaped(x));
    lemma_string_at_piece(s, 0, x);
}

/// A quoted, escaped `x` reads back as `x`.
proof fn lemma_string_at_piece(s: Seq<char>, i: int, x: Seq<char>)
    requires
        0 <= i,
        i + escaped(x).len() + 1 < s.len(),
        s[i] == '"',
        s.subrange(i + 1, i + 1 + escaped(x).len()) == escaped(x),
        s[i + 1 + escaped(x).len()] == '"',
    ensures
        string_at(s, i) == Ok::<(Seq<char>, int), Seq<char>>((x, i + escaped(x).len() + 2)),
{
    assert(ws_end(s, i) == i);
    lemma_string_body_piece(s, i + 1, x, Seq::empty());
    assert(Seq::<char>::empty() + x =~= x);
}

/// Characters a JSON string holds as they are.
pub open spec fn plain_char(c: char) -> bool {
    c != '"' && c != '\\' && (c as u32) >= 0x20
}

proof fn lemma_plain_escaped(x: Seq<char>)
    requires
        forall|j: int| 0 <= j < x.len() ==> plain_char(#[trigger] x[j]),
    ensures
        escaped(x) == x,
    decreases x.len(),
{
    if x.len() > 0 {
        lemma_plain_escaped(x.drop_last());
        assert(plain_char(x[x.len() - 1]));
        assert(escaped(x) =~= x);
    } else {
        assert(escaped(x) =~= x);
    }
}

/// A member whose quoted name and colon stand at `i`, and whose value
/// reads from the position after the colon.
proof fn lemma_member_piece(s: Seq<char>, i: int, key: Seq<char>, v: JsonView, c: int)
    requires
        0 <= i,
        i + escaped(key).len() + 2 < s.len(),
        s[i] == '"',
        s.subrange(i + 1, i + 1 + escaped(key).len()) == escaped(key),
        s[i + 1 + escaped(key).len()] == '"',
        s[i + 2 + escaped(key).len()] == ':',
        value_at(s, i + 3 + escaped(key).len()) == Ok::<(JsonView, int), Seq<char>>((v, c)),
        i + 3 + escaped(key).len() <= c <= s.len(),
    ensures
        member_at(s, i) == Ok::<(Seq<char>, JsonView, int), Seq<char>>((key, v, c)),
{
    lemma_string_at_piece(s, i, key);
    let a = i + escaped(key).len() + 2;
    assert(ws_end(s, a) == a);
}


pub open spec fn plain_text(x: Seq<char>) -> bool {
    forall|j: int| 0 <= j < x.len() ==> plain_char(#[trigger] x[j])
}

/// `"key":t` at `i`, followed by `,` or `}`.
proof fn lemma_number_member(s: Seq<char>, i: int, key: Seq<char>, t: Seq<char>)
    requires
        plain_text(key),
        decimal_text(t),
        0 <= i,
        i + key.len() + 3 + t.len() < s.len(),
        s.subrange(i, i + key.len() + 3) == seq!['"'] + key + seq!['"', ':'],
        s.subrange(i + key.len() + 3, i + key.len() + 3 + t.len()) == t,
        s[i + key.len() + 3 + t.len()] == ',' || s[i + key.len() + 3 + t.len()] == '}',
    ensures
        member_at(s, i) == Ok::<(Seq<char>, JsonView, int), Seq<char>>(
            (key, JsonView::Number(t), i + key.len() + 3 + t.len()),
        ),
{
    lemma_plain_escaped(key);
    let head = seq!['"'] + key + seq!['"', ':'];
    assert(s[i] == head[0]);
    assert(s.subrange(i + 1, i + 1 + key.len()) =~= key) by {
        assert forall|j: int| 0 <= j < key.len() implies s.subrange(i + 1, i + 1 + key.len())[j]
            == key[j] by {
            assert(s.subrange(i, i + key.len() + 3)[1 + j] == head[1 + j]);
        }
    }
    assert(s[i + 1 + key.len()] == head[1 + key.len() as int]);
    assert(s[i + 2 + key.len()] == head[2 + key.len() as int]);
    lemma_number_value(s, i + key.len() + 3, t);
    lemma_member_piece(s, i, key, JsonView::Number(t), i + key.len() + 3 + t.len());
}


/// The fields of a card as the reader stores them.
pub open spec fn card_fields(c: CardView) -> Seq<(Seq<char>, JsonView)> {
    map_insert(
        map_insert(
            map_insert(
                map_insert(
                    Seq::empty(),
                    "interval_days"@,
                    JsonView::Number(decimal(c.interval_days as nat)),
                ),
                "repetitions"@,
                JsonView::Number(decimal(c.repetitions as nat)),
            ),
            "ease"@,
            JsonView::Number(c.ease),
        ),
        "due_on"@,
        JsonView::Number(decimal(c.due_on as nat)),
    )
}

proof fn lemma_window(s: Seq<char>, p: int, w: Seq<char>, off: int, n: int)
    requires
        0 <= p,
        p + w.len() <= s.len(),
        s.subrange(p, p + w.len()) == w,
        0 <= off,
        0 <= n,
        off + n <= w.len(),
    ensures
        s.subrange(p + off, p + off + n) == w.subrange(off, off + n),
{
    assert forall|j: int| 0 <= j < n implies #[trigger] s.subrange(p + off, p + off + n)[j] == w.subrange(
        off,
        off + n,
    )[j] by {
        assert(s.subrange(p, p + w.len())[off + j] == w[off + j]);
    }
    assert(s.subrange(p + off, p + off + n) =~= w.subrange(off, off + n));
}

proof fn lemma_keys()
    ensures
        "{\"interval_days\":"@ == seq!['{'] + (seq!['"'] + "interval_days"@ + seq!['"', ':']),
        ",\"repetitions\":"@ == seq![','] + (seq!['"'] + "repetitions"@ + seq!['"', ':']),
        ",\"ease\":"@ == seq![','] + (seq!['"'] + "ease"@ + seq!['"', ':']),
        ",\"due_on\":"@ == seq![','] + (seq!['"'] + "due_on"@ + seq!['"', ':']),
        "}"@ == seq!['}'],
        plain_text("interval_days"@),
        plain_text("repetitions"@),
        plain_text("ease"@),
        plain_text("due_on"@),
        "interval_days"@.len() == 13,
        "repetitions"@.len() == 11,
        "ease"@.len() == 4,
        "due_on"@.len() == 6,
{
    reveal_strlit("{\"interval_days\":");
    reveal_strlit(",\"repetitions\":");
    reveal_strlit(",\"ease\":");
    reveal_strlit(",\"due_on\":");
    reveal_strlit("}");
    reveal_strlit("interval_days");
    reveal_strlit("repetitions");
    reveal_strlit("ease");
    reveal_strlit("due_on");
    assert("{\"interval_days\":"@ =~= seq!['{'] + (seq!['"'] + "interval_days"@ + seq!['"', ':']));
    assert(",\"repetitions\":"@ =~= seq![','] + (seq!['"'] + "repetitions"@ + seq!['"', ':']));
    assert(",\"ease\":"@ =~= seq![','] + (seq!['"'] + "ease"@ + seq!['"', ':']));
    assert(",\"due_on\":"@ =~= seq![','] + (seq!['"'] + "due_on"@ + seq!['"', ':']));
    assert("}"@ =~= seq!['}']);
}

proof fn lemma_split_window(s: Seq<char>, p: int, x: Seq<char>, y: Seq<char>)
    requires
        0 <= p,
        p + x.len() + y.len() <= s.len(),
        s.subrange(p, p + x.len() + y.len()) == x + y,
    ensures
        s.subrange(p, p + x.len()) == x,
        s.subrange(p + x.len(), p + x.len() + y.len()) == y,
{
    lemma_window(s, p, x + y, 0, x.len() as int);
    lemma_window(s, p, x + y, x.len() as int, y.len() as int);
    assert((x + y).subrange(0, x.len() as int) =~= x);
    assert((x + y).subrange(x.len() as int, (x.len() + y.len()) as int) =~= y);
}

/// Where the pieces of a card's JSON object stand.
proof fn lemma_card_layout(s: Seq<char>, p: int, c: CardView)
    requires
        0 <= p,
        p + card_json(c).len() <= s.len(),
        s.subrange(p, p + card_json(c).len()) == card_json(c),
    ensures
        ({
            let d1 = decimal(c.interval_days as nat);
            let d2 = decimal(c.repetitions as nat);
            let d3 = decimal(c.due_on as nat);
            let e = c.ease;
            let c1 = p + 17 + d1.len();
            let c2 = c1 + 15 + d2.len();
            let c3 = c2 + 8 + e.len();
            let c4 = c3 + 10 + d3.len();
            &&& card_json(c).len() == c4 + 1 - p
            &&& s[p] == '{'
            &&& s.subrange(p + 1, p + 17) == seq!['"'] + "interval_days"@ + seq!['"', ':']
            &&& s.subrange(p + 17, c1) == d1
            &&& s[c1] == ','
            &&& s.subrange(c1 + 1, c1 + 15) == seq!['"'] + "repetitions"@ + seq!['"', ':']
            &&& s.subrange(c1 + 15, c2) == d2
            &&& s[c2] == ','
            &&& s.subrange(c2 + 1, c2 + 8) == seq!['"'] + "ease"@ + seq!['"', ':']
            &&& s.subrange(c2 + 8, c3) == e
            &&& s[c3] == ','
            &&& s.subrange(c3 + 1, c3 + 10) == seq!['"'] + "due_on"@ + seq!['"', ':']
            &&& s.subrange(c3 + 10, c4) == d3
            &&& s[c4] == '}'
        }),
{
    lemma_keys();
    let d1 = decimal(c.interval_days as nat);
    let d2 = decimal(c.repetitions as nat);
    let d3 = decimal(c.due_on as nat);
    let e = c.ease;
    let pa = "{\"interval_days\":"@;
    let pb = ",\"repetitions\":"@;
    let pc = ",\"ease\":"@;
    let pd = ",\"due_on\":"@;
    let pe = "}"@;
    let w1 = pa + d1;
    let w2 = w1 + pb;
    let w3 = w2 + d2;
    let w4 = w3 + pc;
    let w5 = w4 + e;
    let w6 = w5 + pd;
    let w7 = w6 + d3;
    assert(card_json(c) == w7 + pe);
    lemma_split_window(s, p, w7, pe);
    lemma_split_window(s, p, w6, d3);
    lemma_split_window(s, p, w5, pd);
    lemma_split_window(s, p, w4, e);
    lemma_split_window(s, p, w3, pc);
    lemma_split_window(s, p, w2, d2);
    lemma_split_window(s, p, w1, pb);
    lemma_split_window(s, p, pa, d1);
    let c1 = p + 17 + d1.len();
    let c2 = c1 + 15 + d2.len();
    let c3 = c2 + 8 + e.len();
    lemma_split_window(s, p, seq!['{'], seq!['"'] + "interval_days"@ + seq!['"', ':']);
    lemma_split_window(s, c1, seq![','], seq!['"'] + "repetitions"@ + seq!['"', ':']);
    lemma_split_window(s, c2, seq![','], seq!['"'] + "ease"@ + seq!['"', ':']);
    lemma_split_window(s, c3, seq![','], seq!['"'] + "due_on"@ + seq!['"', ':']);
    assert(s.subrange(p, p + 1)[0] == s[p]);
    assert(s.subrange(c1, c1 + 1)[0] == s[c1]);
    assert(s.subrange(c2, c2 + 1)[0] == s[c2]);
    assert(s.subrange(c3, c3 + 1)[0] == s[c3]);
    let c4 = c3 + 10 + d3.len();
    assert(s.subrange(c4, c4 + 1)[0] == s[c4]);
}

/// Four members in a row make the card object.
proof fn lemma_card_chain(
    s: Seq<char>,
    p: int,
    c1: int,
    c2: int,
    c3: int,
    c4: int,
    n1: JsonView,
    n2: JsonView,
    n3: JsonView,
    n4: JsonView,
)
    requires
        0 <= p < p + 1 < c1 < c2 < c3 < c4 < s.len(),
        s[p] == '{',
        s[p + 1] == '"',
        s[c1] == ',',
        s[c2] == ',',
        s[c3] == ',',
        s[c4] == '}',
        member_at(s, p + 1) == Ok::<(Seq<char>, JsonView, int), Seq<char>>(
            ("interval_days"@, n1, c1),
        ),
        member_at(s, c1 + 1) == Ok::<(Seq<char>, JsonView, int), Seq<char>>(
            ("repetitions"@, n2, c2),
        ),
        member_at(s, c2 + 1) == Ok::<(Seq<char>, JsonView, int), Seq<char>>(("ease"@, n3, c3)),
        member_at(s, c3 + 1) == Ok::<(Seq<char>, JsonView, int), Seq<char>>(("due_on"@, n4, c4)),
    ensures
        value_at(s, p) == Ok::<(JsonView, int), Seq<char>>(
            (
                JsonView::Object(
                    map_insert(
                        map_insert(
                            map_insert(
                                map_insert(Seq::empty(), "interval_days"@, n1),
                                "repetitions"@,
                                n2,
                            ),
                            "ease"@,
                            n3,
                        ),
                        "due_on"@,
                        n4,
                    ),
                ),
                c4 + 1,
            ),
        ),
{
    assert(ws_end(s, p) == p);
    assert(ws_end(s, p + 1) == p + 1);
    assert(ws_end(s, c1) == c1);
    assert(ws_end(s, c2) == c2);
    assert(ws_end(s, c3) == c3);
    assert(ws_end(s, c4) == c4);
    let m1 = map_insert(Seq::<(Seq<char>, JsonView)>::empty(), "interval_days"@, n1);
    let m2 = map_insert(m1, "repetitions"@, n2);
    let m3 = map_insert(m2, "ease"@, n3);
    let m4 = map_insert(m3, "due_on"@, n4);
    assert(members_at(s, c3 + 1, m3) == Ok::<(JsonView, int), Seq<char>>(
        (JsonView::Object(m4), c4 + 1),
    ));
    assert(members_at(s, c2 + 1, m2) == members_at(s, c3 + 1, m3));
    assert(members_at(s, c1 + 1, m1) == members_at(s, c2 + 1, m2));
    assert(members_at(s, p + 1, Seq::empty()) == members_at(s, c1 + 1, m1));
    assert(object_at(s, p) == members_at(s, p + 1, Seq::empty()));
}

/// A card's JSON object reads back as its fields.
#[verifier::rlimit(100)]
proof fn lemma_card_value(s: Seq<char>, p: int, c: CardView)
    requires
        decimal_text(c.ease),
        0 <= p,
        p + card_json(c).len() <= s.len(),
        s.subrange(p, p + card_json(c).len()) == card_json(c),
    ensures
        value_at(s, p) == Ok::<(JsonView, int), Seq<char>>(
            (JsonView::Object(card_fields(c)), p + card_json(c).len()),
        ),
{
    lemma_keys();
    lemma_card_layout(s, p, c);
    let k1 = "interval_days"@;
    let k2 = "repetitions"@;
    let k3 = "ease"@;
    let k4 = "due_on"@;
    let d1 = decimal(c.interval_days as nat);
    let d2 = decimal(c.repetitions as nat);
    let d3 = decimal(c.due_on as nat);
    let e = c.ease;
    lemma_decimal_is_text(c.interval_days as nat);
    lemma_decimal_is_text(c.repetitions as nat);
    lemma_decimal_is_text(c.due_on as nat);
    let c1 = p + 17 + d1.len();
    let c2 = c1 + 15 + d2.len();
    let c3 = c2 + 8 + e.len();
    let c4 = c3 + 10 + d3.len();
    lemma_number_member(s, p + 1, k1, d1);
    lemma_number_member(s, c1 + 1, k2, d2);
    lemma_number_member(s, c2 + 1, k3, e);
    lemma_number_member(s, c3 + 1, k4, d3);
    assert(s.subrange(p + 1, p + 17)[0] == s[p + 1]);
    lemma_card_chain(
        s,
        p,
        c1,
        c2,
        c3,
        c4,
        JsonView::Number(d1),
        JsonView::Number(d2),
        JsonView::Number(e),
        JsonView::Number(d3),
    );
}

proof fn lemma_whole_decimal(n: u32, tab: Seq<(Seq<char>, u32)>)
    ensures
        whole_u32(decimal(n as nat), tab) == Some(n),
{
    lemma_decimal_is_text(n as nat);
    crate::text::lemma_decimal(n as nat);
}

/// The fields the reader stores for a card give the card back.
proof fn lemma_card_fields_read(c: CardView, tab: Seq<(Seq<char>, u32)>)
    ensures
        card_of_json(JsonView::Object(card_fields(c)), tab) == Ok::<CardView, Seq<char>>(c),
{
    lemma_keys();
    let k1 = "interval_days"@;
    let k2 = "repetitions"@;
    let k3 = "ease"@;
    let k4 = "due_on"@;
    let n1 = JsonView::Number(decimal(c.interval_days as nat));
    let n2 = JsonView::Number(decimal(c.repetitions as nat));
    let n3 = JsonView::Number(c.ease);
    let n4 = JsonView::Number(decimal(c.due_on as nat));
    let m0 = Seq::<(Seq<char>, JsonView)>::empty();
    let m1 = map_insert(m0, k1, n1);
    let m2 = map_insert(m1, k2, n2);
    let m3 = map_insert(m2, k3, n3);
    let m4 = map_insert(m3, k4, n4);
    assert(sorted_names(m0));
    crate::name_map::lemma_lookup_insert(m0, k1, n1, k1);
    crate::name_map::lemma_lookup_insert(m1, k2, n2, k1);
    crate::name_map::lemma_lookup_insert(m1, k2, n2, k2);
    crate::name_map::lemma_lookup_insert(m2, k3, n3, k1);
    crate::name_map::lemma_lookup_insert(m2, k3, n3, k2);
    crate::name_map::lemma_lookup_insert(m2, k3, n3, k3);
    crate::name_map::lemma_lookup_insert(m3, k4, n4, k1);
    crate::name_map::lemma_lookup_insert(m3, k4, n4, k2);
    crate::name_map::lemma_lookup_insert(m3, k4, n4, k3);
    crate::name_map::lemma_lookup_insert(m3, k4, n4, k4);
    assert(k1 != k2 && k1 != k3 && k1 != k4 && k2 != k3 && k2 != k4 && k3 != k4);
    lemma_whole_decimal(c.interval_days, tab);
    lemma_whole_decimal(c.repetitions, tab);
    lemma_whole_decimal(c.due_on, tab);
}

/// The cards as the reader stores them.
pub open spec fn stored_cards(e: Entries) -> Seq<(Seq<char>, JsonView)> {
    e.map_values(|p: (Seq<char>, CardView)| (p.0, JsonView::Object(card_fields(p.1))))
}

proof fn lemma_cards_read(e: Entries, tab: Seq<(Seq<char>, u32)>)
    requires
        sorted_names(e),
    ensures
        cards_of_json(stored_cards(e), tab) == Ok::<Entries, Seq<char>>(e),
    decreases e.len(),
{
    if e.len() == 0 {
        assert(stored_cards(e) =~= Seq::<(Seq<char>, JsonView)>::empty());
        assert(e =~= Seq::<(Seq<char>, CardView)>::empty());
    } else {
        let e1 = e.drop_last();
        assert(sorted_names(e1)) by {
            assert forall|i: int, j: int| 0 <= i < j < e1.len() implies crate::text::name_lt(
                #[trigger] e1[i].0,
                #[trigger] e1[j].0,
            ) by {
                assert(e1[i] == e[i] && e1[j] == e[j]);
            }
        }
        lemma_cards_read(e1, tab);
        assert(stored_cards(e).drop_last() =~= stored_cards(e1));
        let (name, c) = e.last();
        lemma_card_fields_read(c, tab);
        assert forall|j: int| 0 <= j < e1.len() implies crate::text::name_lt(
            #[trigger] e1[j].0,
            name,
        ) by {
            assert(e1[j] == e[j]);
        }
        crate::name_map::lemma_insert_last(e1, name, c);
        assert(e1.push((name, c)) =~= e);
    }
}

/// The members of an object written front to back.
pub open spec fn members_front(x: Entries) -> Seq<char>
    decreases x.len(),
{
    if x.len() == 0 {
        Seq::empty()
    } else if x.len() == 1 {
        json_member(x[0].0, x[0].1)
    } else {
        json_member(x[0].0, x[0].1) + ","@ + members_front(x.drop_first())
    }
}

proof fn lemma_members_front_push(x: Entries, y: (Seq<char>, CardView))
    requires
        x.len() > 0,
    ensures
        members_front(x.push(y)) == members_front(x) + ","@ + json_member(y.0, y.1),
    decreases x.len(),
{
    let xy = x.push(y);
    assert(xy[0] == x[0]);
    if x.len() == 1 {
        assert(xy.drop_first() =~= seq![y]);
        assert(members_front(seq![y]) == json_member(y.0, y.1));
    } else {
        assert(xy.drop_first() =~= x.drop_first().push(y));
        lemma_members_front_push(x.drop_first(), y);
    }
}

proof fn lemma_members_front(e: Entries)
    ensures
        json_members(e) == members_front(e),
    decreases e.len(),
{
    if e.len() > 1 {
        lemma_members_front(e.drop_last());
        lemma_members_front_push(e.drop_last(), e.last());
        assert(e.drop_last().push(e.last()) =~= e);
    }
}

/// A card member written by the writer reads back as the card's name and
/// stored fields.
proof fn lemma_json_member_read(s: Seq<char>, q: int, name: Seq<char>, c: CardView)
    requires
        decimal_text(c.ease),
        0 <= q,
        q + json_member(name, c).len() < s.len(),
        s.subrange(q, q + json_member(name, c).len()) == json_member(name, c),
    ensures
        member_at(s, q) == Ok::<(Seq<char>, JsonView, int), Seq<char>>(
            (name, JsonView::Object(card_fields(c)), q + json_member(name, c).len()),
        ),
{
    let x = escaped(name);
    reveal_strlit("\"");
    reveal_strlit("\":");
    assert("\""@ == seq!['"']);
    assert("\":"@ =~= seq!['"', ':']);
    let cj = card_json(c);
    assert(json_member(name, c) == seq!['"'] + x + seq!['"', ':'] + cj);
    lemma_split_window(s, q, seq!['"'] + x + seq!['"', ':'], cj);
    lemma_split_window(s, q, seq!['"'] + x, seq!['"', ':']);
    lemma_split_window(s, q, seq!['"'], x);
    assert(s.subrange(q, q + 1)[0] == s[q]);
    assert(s.subrange(q + 1 + x.len(), q + 3 + x.len())[0] == s[q + 1 + x.len()]);
    assert(s.subrange(q + 1 + x.len(), q + 3 + x.len())[1] == s[q + 2 + x.len()]);
    lemma_card_value(s, q + 3 + x.len(), c);
    lemma_member_piece(s, q, name, JsonView::Object(card_fields(c)), q + json_member(name, c).len());
}

pub open spec fn eases_written_plainly(e: Entries) -> bool {
    forall|i: int| 0 <= i < e.len() ==> decimal_text(#[trigger] e[i].1.ease)
}

proof fn lemma_members_read(
    s: Seq<char>,
    q: int,
    x: Entries,
    acc: Seq<(Seq<char>, JsonView)>,
    done: Entries,
)
    requires
        x.len() > 0,
        acc == stored_cards(done),
        sorted_names(done + x),
        eases_written_plainly(x),
        0 <= q,
        q + members_front(x).len() < s.len(),
        s.subrange(q, q + members_front(x).len()) == members_front(x),
        s[q + members_front(x).len()] == '}',
    ensures
        members_at(s, q, acc) == Ok::<(JsonView, int), Seq<char>>(
            (JsonView::Object(stored_cards(done + x)), q + members_front(x).len() + 1),
        ),
    decreases x.len(),
{
    let (name, c) = x[0];
    let m = json_member(name, c);
    assert(decimal_text(x[0].1.ease));
    let rest = x.drop_first();
    let after = q + m.len();
    if x.len() == 1 {
        assert(members_front(x) == m);
    } else {
        assert(members_front(x) == m + ","@ + members_front(rest));
        reveal_strlit(",");
        assert(","@ =~= seq![',']);
        lemma_split_window(s, q, m + seq![','], members_front(rest));
        lemma_split_window(s, q, m, seq![',']);
        assert(s.subrange(after, after + 1)[0] == s[after]);
    }
    let tail = members_front(x).subrange(m.len() as int, members_front(x).len() as int);
    assert(members_front(x) =~= m + tail);
    lemma_split_window(s, q, m, tail);
    lemma_json_member_read(s, q, name, c);
    assert(ws_end(s, after) == after);
    // the new member goes last
    let done2 = done.push((name, c));
    assert(done + x =~= done2 + rest);
    assert forall|j: int| 0 <= j < acc.len() implies crate::text::name_lt(#[trigger] acc[j].0, name) by {
        assert(acc[j].0 == done[j].0);
        assert((done + x)[j] == done[j]);
        assert((done + x)[done.len() as int] == x[0]);
    }
    crate::name_map::lemma_insert_last(acc, name, JsonView::Object(card_fields(c)));
    let acc2 = acc.push((name, JsonView::Object(card_fields(c))));
    assert(acc2 =~= stored_cards(done2));
    if x.len() == 1 {
        assert(done + x =~= done2);
    } else {
        assert(eases_written_plainly(rest)) by {
            assert forall|i: int| 0 <= i < rest.len() implies decimal_text(#[trigger] rest[i].1.ease) by {
                assert(rest[i] == x[i + 1]);
            }
        }
        lemma_members_read(s, after + 1, rest, acc2, done2);
    }
}

/// The object of cards that a deck's JSON text holds from offset 9 reads
/// back as the stored cards.
proof fn lemma_cards_object(s: Seq<char>, e: Entries)
    requires
        sorted_names(e),
        eases_written_plainly(e),
        s.len() == 12 + json_members(e).len(),
        s[9] == '{',
        s.subrange(10, 10 + json_members(e).len() as int) == json_members(e),
        s[10 + json_members(e).len() as int] == '}',
    ensures
        value_at(s, 9) == Ok::<(JsonView, int), Seq<char>>(
            (JsonView::Object(stored_cards(e)), 11 + json_members(e).len() as int),
        ),
{
    let m = json_members(e);
    let n = m.len() as int;
    lemma_members_front(e);
    assert(ws_end(s, 9) == 9);
    if e.len() == 0 {
        assert(m =~= Seq::<char>::empty());
        assert(ws_end(s, 10) == 10);
        assert(stored_cards(e) =~= Seq::<(Seq<char>, JsonView)>::empty());
    } else {
        assert(json_member(e[0].0, e[0].1)[0] == '"') by {
            reveal_strlit("\"");
        }
        if e.len() > 1 {
            assert(m[0] == json_member(e[0].0, e[0].1)[0]);
        }
        assert(s[10] == s.subrange(10, 10 + n)[0]);
        assert(s[10] == '"');
        assert(ws_end(s, 10) == 10);
        assert(Seq::<(Seq<char>, CardView)>::empty() + e =~= e);
        assert(stored_cards(Seq::<(Seq<char>, CardView)>::empty()) =~= Seq::<
            (Seq<char>, JsonView),
        >::empty());
        lemma_members_read(
            s,
            10,
            e,
            Seq::empty(),
            Seq::<(Seq<char>, CardView)>::empty(),
        );
    }
    assert(object_at(s, 9) == Ok::<(JsonView, int), Seq<char>>(
        (JsonView::Object(stored_cards(e)), 11 + n),
    ));
}

/// The text of a deck is `{"cards":{`, the members, and `}}`.
proof fn lemma_json_layout(e: Entries)
    ensures
        json_text(e) =~= seq!['{', '"'] + "cards"@ + seq!['"', ':', '{'] + json_members(e)
            + seq!['}', '}'],
{
    reveal_strlit("{\"cards\":{");
    reveal_strlit("}}");
    reveal_strlit("cards");
    assert("{\"cards\":{"@ =~= seq!['{', '"'] + "cards"@ + seq!['"', ':', '{']);
    assert("}}"@ =~= seq!['}', '}']);
}

/// The JSON text of a deck reads back as its entries.
/// The top object of a deck's JSON text, as the reader stores it.
pub open spec fn top_object(e: Entries) -> JsonView {
    JsonView::Object(
        map_insert(
            Seq::<(Seq<char>, JsonView)>::empty(),
            "cards"@,
            JsonView::Object(stored_cards(e)),
        ),
    )
}

/// The JSON text of a deck parses as its top object.
#[verifier::rlimit(60)]
proof fn lemma_json_document(e: Entries)
    requires
        sorted_names(e),
        eases_written_plainly(e),
    ensures
        document(json_text(e)) == Ok::<JsonView, Seq<char>>(top_object(e)),
{
    let s = json_text(e);
    let m = json_members(e);
    let n = m.len() as int;
    lemma_json_layout(e);
    reveal_strlit("cards");
    let key = "cards"@;
    assert(s.len() == 12 + n);
    assert(plain_text(key)) by {
        assert forall|j: int| 0 <= j < key.len() implies plain_char(#[trigger] key[j]) by {}
    }
    lemma_plain_escaped(key);
    assert(s.subrange(2, 7) =~= key);
    assert(s.subrange(10, 10 + n) =~= m);
    let stored = stored_cards(e);
    lemma_cards_object(s, e);
    lemma_member_piece(s, 1, key, JsonView::Object(stored), 11 + n);
    let top = map_insert(Seq::<(Seq<char>, JsonView)>::empty(), key, JsonView::Object(stored));
    assert(ws_end(s, 11 + n) == 11 + n);
    assert(members_at(s, 1, Seq::empty()) == Ok::<(JsonView, int), Seq<char>>(
        (JsonView::Object(top), 12 + n),
    ));
    assert(ws_end(s, 0) == 0);
    assert(ws_end(s, 1) == 1);
    assert(value_at(s, 0) == Ok::<(JsonView, int), Seq<char>>((JsonView::Object(top), 12 + n)));
    assert(ws_end(s, 12 + n) == 12 + n);
}

/// The top object of a deck's JSON text holds the deck.
proof fn lemma_json_deck(e: Entries, tab: Seq<(Seq<char>, u32)>)
    requires
        sorted_names(e),
        eases_written_plainly(e),
    ensures
        deck_of_json(top_object(e), tab) == Ok::<Entries, Seq<char>>(e),
{
    reveal_strlit("cards");
    assert(sorted_names(Seq::<(Seq<char>, JsonView)>::empty()));
    crate::name_map::lemma_lookup_insert(
        Seq::<(Seq<char>, JsonView)>::empty(),
        "cards"@,
        JsonView::Object(stored_cards(e)),
        "cards"@,
    );
    lemma_cards_read(e, tab);
}


/// Writing a deck as JSON and reading the text back gives the same deck,
/// whatever the names, for decks whose ease texts are written as Rust
/// writes a finite `f64` (`-? digits (. digits)?`) and are left as they are
/// by the ease table, and whatever table of whole numbers the reader is
/// given.
pub proof fn law_json_round_trip(
    e: Entries,
    tab: Seq<(Seq<char>, u32)>,
    eases: Seq<(Seq<char>, Seq<char>)>,
)
    requires
        sorted_names(e),
        eases_written_plainly(e),
        eases_kept(e, eases),
    ensures
        document(json_text(e)) matches Ok(v) && deck_of_json(v, tab) == Ok::<Entries, Seq<char>>(
            e,
        ),
        with_eases(e, eases) == e,
{
    lemma_json_document(e);
    lemma_json_deck(e, tab);
    lemma_with_eases_kept(e, eases);
}

} // verus!
