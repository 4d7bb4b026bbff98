//! A deck of named cards and its plain text format.
//!
//! The text format holds one card per line, fields separated by tabs, in
//! `name interval_days repetitions ease due_on` order.
use vstd::prelude::*;

use crate::json::{document, entries_view, json_view, member, parse_json, JsonValue, JsonView};
use crate::name_map::{map_insert, map_lookup, NameMap};
use crate::scheduler::{Card, CardView};
use crate::text::{
    chars_of, decimal, is_float_literal, is_float_literal_exec, line_ranges, lines_of,
    parse_u32, parse_u32_text, push_char, push_decimal, push_str, split_tabs, string_of,
};
use crate::text::field_ranges;

verus! {

/// A named collection of cards, kept in name order.
#[derive(Debug, Clone, PartialEq)]
pub struct Deck {
    pub cards: NameMap<Card>,
}

/// What can go wrong reading or writing a deck in memory. Reading and
/// writing files is the caller's business.
#[derive(Debug, PartialEq)]
pub enum DeckError {
    /// The input is not a well-formed deck; the message says where and why.
    Parse(String),
    /// A card name holds a tab, newline or carriage return, which the plain
    /// text format uses as separators.
    InvalidName(String),
}

pub ghost enum DeckErrorView {
    Parse(Seq<char>),
    InvalidName(Seq<char>),
}

impl View for DeckError {
    type V = DeckErrorView;

    open spec fn view(&self) -> DeckErrorView {
        match self {
            DeckError::Parse(m) => DeckErrorView::Parse(m@),
            DeckError::InvalidName(n) => DeckErrorView::InvalidName(n@),
        }
    }
}

/// The entries of a deck in name order.
pub type Entries = Seq<(Seq<char>, CardView)>;

impl View for Deck {
    type V = Entries;

    open spec fn view(&self) -> Entries {
        self.cards.spec_entries()
    }
}

// ---------------------------------------------------------------------------
// Writing plain text

/// A name the plain text format cannot hold.
pub open spec fn bad_name(n: Seq<char>) -> bool {
    n.contains('\t') || n.contains('\n') || n.contains('\r')
}

/// One card as a line of the plain text format, newline included.
pub open spec fn text_line(name: Seq<char>, c: CardView) -> Seq<char> {
    name + seq!['\t'] + decimal(c.interval_days as nat) + seq!['\t'] + decimal(
        c.repetitions as nat,
    ) + seq!['\t'] + c.ease + seq!['\t'] + decimal(c.due_on as nat) + seq!['\n']
}

/// The plain text of the entries, or the first name that cannot be written.
pub open spec fn text_export(e: Entries) -> Result<Seq<char>, Seq<char>>
    decreases e.len(),
{
    if e.len() == 0 {
        Ok(Seq::empty())
    } else {
        match text_export(e.drop_last()) {
            Err(n) => Err(n),
            Ok(t) => if bad_name(e.last().0) {
                Err(e.last().0)
            } else {
                Ok(t + text_line(e.last().0, e.last().1))
            },
        }
    }
}

// ---------------------------------------------------------------------------
// Ease factors as read

/// The text Rust writes for the `f64` that some ease literals stand for, as
/// the caller has worked it out: `(literal, text)`, such as `("2.50", "2.5")`.
pub open spec fn ease_table_view(tab: Seq<(String, String)>) -> Seq<(Seq<char>, Seq<char>)> {
    tab.map_values(|p: (String, String)| (p.0@, p.1@))
}

/// The first entry for `t` in an ease table.
pub open spec fn ease_lookup(tab: Seq<(Seq<char>, Seq<char>)>, t: Seq<char>) -> Option<Seq<char>>
    decreases tab.len(),
{
    if tab.len() == 0 {
        None
    } else if tab[0].0 == t {
        Some(tab[0].1)
    } else {
        ease_lookup(tab.drop_first(), t)
    }
}

/// The ease a literal is read as: the text the table gives for it, or the
/// literal itself where the table has no entry.
pub open spec fn read_ease(t: Seq<char>, tab: Seq<(Seq<char>, Seq<char>)>) -> Seq<char> {
    match ease_lookup(tab, t) {
        Some(c) => c,
        None => t,
    }
}

/// A card with its ease read through the table.
pub open spec fn eased(c: CardView, tab: Seq<(Seq<char>, Seq<char>)>) -> CardView {
    CardView {
        interval_days: c.interval_days,
        repetitions: c.repetitions,
        ease: read_ease(c.ease, tab),
        due_on: c.due_on,
    }
}

/// Entries with every ease read through the table.
pub open spec fn with_eases(e: Entries, tab: Seq<(Seq<char>, Seq<char>)>) -> Entries {
    e.map_values(|p: (Seq<char>, CardView)| (p.0, eased(p.1, tab)))
}

/// The table leaves every ease of `e` as it is, as it does for the text
/// Rust writes for an `f64`.
pub open spec fn eases_kept(e: Entries, tab: Seq<(Seq<char>, Seq<char>)>) -> bool {
    forall|i: int| 0 <= i < e.len() ==> read_ease(#[trigger] e[i].1.ease, tab) == e[i].1.ease
}

/// A table that leaves every ease as it is changes nothing.
pub proof fn lemma_with_eases_kept(e: Entries, tab: Seq<(Seq<char>, Seq<char>)>)
    requires
        eases_kept(e, tab),
    ensures
        with_eases(e, tab) == e,
{
    assert forall|i: int| 0 <= i < e.len() implies #[trigger] with_eases(e, tab)[i] == e[i] by {
        assert(read_ease(e[i].1.ease, tab) == e[i].1.ease);
    }
    assert(with_eases(e, tab) =~= e);
}

/// Reading eases through the table changes no name, so it commutes with
/// storing a card and does not change which names are stored.
proof fn lemma_with_eases_insert(
    s: Entries,
    k: Seq<char>,
    c: CardView,
    tab: Seq<(Seq<char>, Seq<char>)>,
)
    ensures
        with_eases(map_insert(s, k, c), tab) == map_insert(with_eases(s, tab), k, eased(c, tab)),
        (map_lookup(with_eases(s, tab), k) is Some) == (map_lookup(s, k) is Some),
{
    let w = with_eases(s, tab);
    crate::name_map::lemma_lower_bound_exists(s, k);
    let p = crate::name_map::lower_bound(s, k);
    assert(crate::name_map::is_lower_bound(w, k, p)) by {
        assert forall|j: int| 0 <= j < p implies crate::text::name_lt(#[trigger] w[j].0, k) by {
            assert(w[j].0 == s[j].0);
        }
        if p < s.len() {
            assert(w[p].0 == s[p].0);
        }
    }
    crate::name_map::lemma_lower_bound_is(w, k, p);
    if p < s.len() && s[p].0 == k {
        assert(w[p].0 == k);
        assert(with_eases(s.update(p, (k, c)), tab) =~= w.update(p, (k, eased(c, tab))));
    } else {
        if p < s.len() {
            assert(w[p].0 == s[p].0);
        }
        assert(with_eases(s.insert(p, (k, c)), tab) =~= w.insert(p, (k, eased(c, tab))));
    }
}

/// Reads an ease literal through the table.
fn read_ease_exec(t: String, tab: &Vec<(String, String)>) -> (r: String)
    ensures
        r@ == read_ease(t@, ease_table_view(tab@)),
{
    let ghost tv = ease_table_view(tab@);
    let v = chars_of(t.as_str());
    let mut i: usize = 0;
    assert(tv.skip(0) =~= tv);
    while i < tab.len()
        invariant
            i <= tab.len(),
            tv == ease_table_view(tab@),
            v@ == t@,
            ease_lookup(tv, t@) == ease_lookup(tv.skip(i as int), t@),
        decreases tab.len() - i,
    {
        proof {
            assert(tv.skip(i as int).drop_first() =~= tv.skip(i + 1));
            assert(tv.skip(i as int)[0] == tv[i as int]);
        }
        let key = chars_of(tab[i].0.as_str());
        if crate::text::chars_eq(&key, &v) {
            return tab[i].1.clone();
        }
        i += 1;
    }
    t
}

// ---------------------------------------------------------------------------
// Reading plain text

pub open spec fn line_prefix(line_no: nat) -> Seq<char> {
    "line "@ + decimal(line_no)
}

pub open spec fn field_count_message(line_no: nat, count: nat) -> Seq<char> {
    line_prefix(line_no) + ": expected 5 tab-separated fields, got "@ + decimal(count)
}

pub open spec fn malformed_message(line_no: nat, field: Seq<char>) -> Seq<char> {
    line_prefix(line_no) + ": field \""@ + field + "\" is malformed"@
}

pub open spec fn duplicate_message(line_no: nat, name: Seq<char>) -> Seq<char> {
    line_prefix(line_no) + ": duplicate card name \""@ + name + "\""@
}

/// The card held by the five fields of line `line_no`, or the message for
/// the first field that does not parse.
pub open spec fn text_card(f: Seq<Seq<char>>, line_no: nat) -> Result<CardView, Seq<char>> {
    match parse_u32_text(f[1]) {
        None => Err(malformed_message(line_no, "interval_days"@)),
        Some(interval_days) => match parse_u32_text(f[2]) {
            None => Err(malformed_message(line_no, "repetitions"@)),
            Some(repetitions) => if !is_float_literal(f[3]) {
                Err(malformed_message(line_no, "ease"@))
            } else {
                match parse_u32_text(f[4]) {
                    None => Err(malformed_message(line_no, "due_on"@)),
                    Some(due_on) => Ok(
                        CardView { interval_days, repetitions, ease: f[3], due_on },
                    ),
                }
            },
        },
    }
}

/// Reading one line (number `line_no`) into the entries read so far.
/// Blank lines are skipped.
pub open spec fn text_step(acc: Entries, line: Seq<char>, line_no: nat) -> Result<
    Entries,
    Seq<char>,
> {
    if line.len() == 0 {
        Ok(acc)
    } else {
        let f = split_tabs(line);
        if f.len() != 5 {
            Err(field_count_message(line_no, f.len()))
        } else {
            match text_card(f, line_no) {
                Err(m) => Err(m),
                Ok(c) => if map_lookup(acc, f[0]).is_some() {
                    Err(duplicate_message(line_no, f[0]))
                } else {
                    Ok(map_insert(acc, f[0], c))
                },
            }
        }
    }
}

/// The entries held by `lines`, or the message for the first bad line.
pub open spec fn text_import(lines: Seq<Seq<char>>) -> Result<Entries, Seq<char>>
    decreases lines.len(),
{
    if lines.len() == 0 {
        Ok(Seq::empty())
    } else {
        match text_import(lines.drop_last()) {
            Err(m) => Err(m),
            Ok(acc) => text_step(acc, lines.last(), lines.len()),
        }
    }
}

/// Once writing fails, it fails on the same name whatever follows.
proof fn lemma_export_error_stays(e: Entries, i: int)
    requires
        0 <= i <= e.len(),
        text_export(e.take(i)) is Err,
    ensures
        text_export(e) == text_export(e.take(i)),
    decreases e.len() - i,
{
    if i < e.len() {
        assert(e.take(i + 1).drop_last() =~= e.take(i));
        lemma_export_error_stays(e, i + 1);
    } else {
        assert(e.take(i) =~= e);
    }
}

/// Once reading fails, it fails with the same message whatever follows.
proof fn lemma_import_error_stays(ls: Seq<Seq<char>>, i: int)
    requires
        0 <= i <= ls.len(),
        text_import(ls.take(i)) is Err,
    ensures
        text_import(ls) == text_import(ls.take(i)),
    decreases ls.len() - i,
{
    if i < ls.len() {
        assert(ls.take(i + 1).drop_last() =~= ls.take(i));
        lemma_import_error_stays(ls, i + 1);
    } else {
        assert(ls.take(i) =~= ls);
    }
}

/// Whether `v[start..end]` holds a tab, newline or carriage return.
fn has_separator(v: &Vec<char>, start: usize, end: usize) -> (r: bool)
    requires
        start <= end <= v.len(),
    ensures
        r == bad_name(v@.subrange(start as int, end as int)),
{
    let ghost s = v@.subrange(start as int, end as int);
    let mut i = start;
    while i < end
        invariant
            start <= i <= end <= v.len(),
            s == v@.subrange(start as int, end as int),
            forall|j: int| start <= j < i ==> v@[j] != '\t' && v@[j] != '\n' && v@[j] != '\r',
        decreases end - i,
    {
        if v[i] == '\t' || v[i] == '\n' || v[i] == '\r' {
            assert(s[i - start] == v@[i as int]);
            return true;
        }
        i += 1;
    }
    assert forall|c: char| c == '\t' || c == '\n' || c == '\r' implies !s.contains(c) by {
        if s.contains(c) {
            let j = choose|j: int| 0 <= j < s.len() && s[j] == c;
            assert(v@[start + j] == s[j]);
        }
    }
    false
}

/// `"line N"` followed by `tail`.
fn line_message(line_no: usize, tail: &str) -> (m: String)
    ensures
        m@ == line_prefix(line_no as nat) + tail@,
{
    let mut m = String::new();
    push_str(&mut m, "line ");
    push_decimal(&mut m, line_no as u128);
    push_str(&mut m, tail);
    m
}

/// The message for a malformed field.
fn malformed(line_no: usize, field: &str) -> (e: DeckError)
    ensures
        e@ == DeckErrorView::Parse(malformed_message(line_no as nat, field@)),
{
    let mut m = line_message(line_no, ": field \"");
    push_str(&mut m, field);
    push_str(&mut m, "\" is malformed");
    assert(m@ =~= malformed_message(line_no as nat, field@));
    DeckError::Parse(m)
}

/// Reads one numeric field of the plain text format.
fn parse_text_field(v: &Vec<char>, range: (usize, usize), name: &str, line_no: usize) -> (r:
    Result<u32, DeckError>)
    requires
        range.0 <= range.1 <= v.len(),
    ensures
        match parse_u32_text(v@.subrange(range.0 as int, range.1 as int)) {
            Some(n) => r == Ok::<u32, DeckError>(n),
            None => r matches Err(e) && e@ == DeckErrorView::Parse(
                malformed_message(line_no as nat, name@),
            ),
        },
{
    match parse_u32(v, range.0, range.1) {
        Some(n) => Ok(n),
        None => Err(malformed(line_no, name)),
    }
}

impl Default for Deck {
    /// An empty deck.
    fn default() -> (d: Deck)
        ensures
            d@ == Seq::<(Seq<char>, CardView)>::empty(),
    {
        Deck::new()
    }
}

impl Deck {
    pub fn new() -> (d: Deck)
        ensures
            d@ == Seq::<(Seq<char>, CardView)>::empty(),
    {
        Deck { cards: NameMap::new() }
    }

    /// Renders the deck as plain text: one card per line, fields separated
    /// by tabs, in `name interval_days repetitions ease due_on` order.
    /// Fails on the first name (in name order) that holds a tab, newline or
    /// carriage return.
    pub fn to_text(&self) -> (res: Result<String, DeckError>)
        ensures
            match res {
                Ok(t) => text_export(self@) == Ok::<Seq<char>, Seq<char>>(t@),
                Err(DeckError::InvalidName(n)) => text_export(self@) == Err::<Seq<char>, Seq<char>>(
                    n@,
                ),
                Err(DeckError::Parse(_)) => false,
            },
    {
        let ghost e = self@;
        let mut out = String::new();
        let n = self.cards.len();
        let mut i: usize = 0;
        assert(e.take(0) =~= Seq::<(Seq<char>, CardView)>::empty());
        while i < n
            invariant
                i <= n,
                n == e.len(),
                e == self@,
                text_export(e.take(i as int)) == Ok::<Seq<char>, Seq<char>>(out@),
            decreases n - i,
        {
            let (name, card) = self.cards.entry(i);
            assert(e.take(i + 1).drop_last() =~= e.take(i as int));
            let nc = chars_of(name.as_str());
            assert(nc@.subrange(0, nc@.len() as int) =~= nc@);
            if has_separator(&nc, 0, nc.len()) {
                proof {
                    lemma_export_error_stays(e, i + 1);
                }
                return Err(DeckError::InvalidName(name.clone()));
            }
            let ghost before = out@;
            push_str(&mut out, name.as_str());
            push_char(&mut out, '\t');
            push_decimal(&mut out, card.interval_days as u128);
            push_char(&mut out, '\t');
            push_decimal(&mut out, card.repetitions as u128);
            push_char(&mut out, '\t');
            push_str(&mut out, card.ease.as_str());
            push_char(&mut out, '\t');
            push_decimal(&mut out, card.due_on as u128);
            push_char(&mut out, '\n');
            assert(out@ =~= before + text_line(e[i as int].0, e[i as int].1));
            i += 1;
        }
        assert(e.take(n as int) =~= e);
        Ok(out)
    }

    /// Parses the plain text format written by `to_text`. Blank lines are
    /// skipped, so a trailing newline at end of file is not an error.
    ///
    /// An ease is checked against the grammar of `str::parse::<f64>` and
    /// stored as the text `eases` gives for its literal (the text Rust
    /// writes for the `f64`, so `2.50` is stored as `2.5`); a literal the
    /// table does not list is stored as written.
    pub fn from_text(text: &str, eases: &Vec<(String, String)>) -> (res: Result<Deck, DeckError>)
        ensures
            match text_import(lines_of(text@)) {
                Ok(e) => res matches Ok(d) && d@ == with_eases(e, ease_table_view(eases@)),
                Err(m) => res matches Err(err) && err@ == DeckErrorView::Parse(m),
            },
    {
        let ghost etab = ease_table_view(eases@);
        let v = chars_of(text);
        let lines = line_ranges(&v);
        let ghost ls = lines_of(v@);
        let mut cards: NameMap<Card> = NameMap::new();
        let ghost mut raw: Entries = Seq::empty();
        let mut i: usize = 0;
        assert(ls.take(0) =~= Seq::<Seq<char>>::empty());
        assert(with_eases(raw, etab) =~= cards.spec_entries());
        while i < lines.len()
            invariant
                i <= lines.len(),
                ls == lines_of(v@),
                v@ == text@,
                lines@.len() == ls.len(),
                forall|k: int|
                    0 <= k < lines@.len() ==> {
                        &&& (#[trigger] lines@[k]).0 <= lines@[k].1 <= v@.len()
                        &&& v@.subrange(lines@[k].0 as int, lines@[k].1 as int) == ls[k]
                    },
                etab == ease_table_view(eases@),
                text_import(ls.take(i as int)) == Ok::<Entries, Seq<char>>(raw),
                cards.spec_entries() == with_eases(raw, etab),
            decreases lines.len() - i,
        {
            let (start, end) = lines[i];
            let ghost line = ls[i as int];
            assert(ls.take(i + 1).drop_last() =~= ls.take(i as int));
            assert(ls.take(i + 1).last() == line);
            let line_no = i + 1;
            if start < end {
                let fields = field_ranges(&v, start, end);
                let ghost f = split_tabs(line);
                if fields.len() != 5 {
                    let mut m = line_message(line_no, ": expected 5 tab-separated fields, got ");
                    push_decimal(&mut m, fields.len() as u128);
                    assert(m@ =~= field_count_message(line_no as nat, f.len()));
                    proof {
                        lemma_import_error_stays(ls, i + 1);
                    }
                    return Err(DeckError::Parse(m));
                }
                let name_range = fields[0];
                let interval_days = match parse_text_field(&v, fields[1], "interval_days", line_no) {
                    Ok(n) => n,
                    Err(e) => {
                        proof {
                            lemma_import_error_stays(ls, i + 1);
                        }
                        return Err(e);
                    },
                };
                let repetitions = match parse_text_field(&v, fields[2], "repetitions", line_no) {
                    Ok(n) => n,
                    Err(e) => {
                        proof {
                            lemma_import_error_stays(ls, i + 1);
                        }
                        return Err(e);
                    },
                };
                let ease_range = fields[3];
                if !is_float_literal_exec(&v, ease_range.0, ease_range.1) {
                    proof {
                        lemma_import_error_stays(ls, i + 1);
                    }
                    return Err(malformed(line_no, "ease"));
                }
                let ease = read_ease_exec(string_of(&v, ease_range.0, ease_range.1), eases);
                let due_on = match parse_text_field(&v, fields[4], "due_on", line_no) {
                    Ok(n) => n,
                    Err(e) => {
                        proof {
                            lemma_import_error_stays(ls, i + 1);
                        }
                        return Err(e);
                    },
                };
                let name = string_of(&v, name_range.0, name_range.1);
                let ghost acc = raw;
                let ghost c = CardView { interval_days, repetitions, ease: f[3], due_on };
                let card = Card { interval_days, repetitions, ease, due_on };
                assert(card@ == eased(c, etab));
                proof {
                    lemma_with_eases_insert(acc, f[0], c, etab);
                }
                if cards.insert(name, card).is_some() {
                    let mut m = line_message(line_no, ": duplicate card name \"");
                    let name_again = string_of(&v, name_range.0, name_range.1);
                    push_str(&mut m, name_again.as_str());
                    push_str(&mut m, "\"");
                    assert(m@ =~= duplicate_message(line_no as nat, f[0]));
                    proof {
                        lemma_import_error_stays(ls, i + 1);
                    }
                    return Err(DeckError::Parse(m));
                }
                proof {
                    raw = map_insert(acc, f[0], c);
                }
            } else {
                assert(line.len() == 0);
            }
            i += 1;
        }
        assert(ls.take(lines.len() as int) =~= ls);
        Ok(Deck { cards })
    }
}


/// What a deck entry must satisfy to come back unchanged from plain text.
pub open spec fn text_safe(name: Seq<char>, c: CardView) -> bool {
    &&& !bad_name(name)
    &&& is_float_literal(c.ease)
    &&& !bad_name(c.ease)
}

/// The fields of one text line.
pub open spec fn text_fields(name: Seq<char>, c: CardView) -> Seq<Seq<char>> {
    seq![
        name,
        decimal(c.interval_days as nat),
        decimal(c.repetitions as nat),
        c.ease,
        decimal(c.due_on as nat),
    ]
}

/// One text line without its line break.
pub open spec fn text_content(name: Seq<char>, c: CardView) -> Seq<char> {
    name + seq!['\t'] + decimal(c.interval_days as nat) + seq!['\t'] + decimal(
        c.repetitions as nat,
    ) + seq!['\t'] + c.ease + seq!['\t'] + decimal(c.due_on as nat)
}

proof fn lemma_content_plain(name: Seq<char>, c: CardView)
    requires
        text_safe(name, c),
    ensures
        !text_content(name, c).contains('\n'),
        text_content(name, c).len() > 0,
        text_content(name, c).last() != '\r',
        text_line(name, c) == text_content(name, c) + seq!['\n'],
{
    let d1 = decimal(c.interval_days as nat);
    let d2 = decimal(c.repetitions as nat);
    let d3 = decimal(c.due_on as nat);
    crate::text::lemma_decimal_plain(c.interval_days as nat);
    crate::text::lemma_decimal_plain(c.repetitions as nat);
    crate::text::lemma_decimal_plain(c.due_on as nat);
    let content = text_content(name, c);
    assert(text_line(name, c) =~= content + seq!['\n']);
    if content.contains('\n') {
        let j = choose|j: int| 0 <= j < content.len() && content[j] == '\n';
        let p1 = name.len() as int;
        let p2 = p1 + 1 + d1.len();
        let p3 = p2 + 1 + d2.len();
        let p4 = p3 + 1 + c.ease.len();
        if j < p1 {
            assert(name[j] == '\n');
        } else if p1 < j < p2 {
            assert(d1[j - p1 - 1] == '\n');
        } else if p2 < j < p3 {
            assert(d2[j - p2 - 1] == '\n');
        } else if p3 < j < p4 {
            assert(c.ease[j - p3 - 1] == '\n');
        } else if p4 < j {
            assert(d3[j - p4 - 1] == '\n');
        }
    }
    assert(content.last() == d3.last());
}

proof fn lemma_content_fields(name: Seq<char>, c: CardView)
    requires
        text_safe(name, c),
    ensures
        split_tabs(text_content(name, c)) == text_fields(name, c),
{
    let d1 = decimal(c.interval_days as nat);
    let d2 = decimal(c.repetitions as nat);
    let d3 = decimal(c.due_on as nat);
    crate::text::lemma_decimal_plain(c.interval_days as nat);
    crate::text::lemma_decimal_plain(c.repetitions as nat);
    crate::text::lemma_decimal_plain(c.due_on as nat);
    let r3 = c.ease + seq!['\t'] + d3;
    let r2 = d2 + seq!['\t'] + r3;
    let r1 = d1 + seq!['\t'] + r2;
    crate::text::lemma_split_tabs_single(d3);
    crate::text::lemma_split_tabs_cons(c.ease, d3);
    crate::text::lemma_split_tabs_cons(d2, r3);
    crate::text::lemma_split_tabs_cons(d1, r2);
    crate::text::lemma_split_tabs_cons(name, r1);
    assert(text_content(name, c) =~= name + seq!['\t'] + r1);
    assert(split_tabs(text_content(name, c)) =~= text_fields(name, c));
}

proof fn lemma_text_step_appends(e1: Entries, name: Seq<char>, c: CardView, line_no: nat)
    requires
        text_safe(name, c),
        forall|j: int| 0 <= j < e1.len() ==> crate::text::name_lt(#[trigger] e1[j].0, name),
    ensures
        text_step(e1, text_content(name, c), line_no) == Ok::<Entries, Seq<char>>(
            e1.push((name, c)),
        ),
{
    lemma_content_plain(name, c);
    lemma_content_fields(name, c);
    let f = text_fields(name, c);
    crate::text::lemma_decimal_parses(c.interval_days);
    crate::text::lemma_decimal_parses(c.repetitions);
    crate::text::lemma_decimal_parses(c.due_on);
    assert(text_card(f, line_no) == Ok::<CardView, Seq<char>>(c));
    crate::name_map::lemma_insert_last(e1, name, c);
}

proof fn lemma_text_round_trip(e: Entries)
    requires
        crate::name_map::sorted_names(e),
        forall|i: int| 0 <= i < e.len() ==> text_safe(#[trigger] e[i].0, e[i].1),
    ensures
        text_export(e) is Ok,
        text_export(e)->Ok_0.len() == 0 || text_export(e)->Ok_0.last() == '\n',
        text_import(lines_of(text_export(e)->Ok_0)) == Ok::<Entries, Seq<char>>(e),
    decreases e.len(),
{
    if e.len() == 0 {
        assert(lines_of(Seq::<char>::empty()) =~= Seq::<Seq<char>>::empty());
        assert(e =~= Seq::<(Seq<char>, CardView)>::empty());
    } else {
        let e1 = e.drop_last();
        assert forall|i: int| 0 <= i < e1.len() implies text_safe(#[trigger] e1[i].0, e1[i].1) by {
            assert(e1[i] == e[i]);
        }
        assert(crate::name_map::sorted_names(e1)) by {
            assert forall|i: int, j: int| 0 <= i < j < e1.len() implies crate::text::name_lt(
                #[trigger] e1[i].0,
                #[trigger] e1[j].0,
            ) by {
                assert(e1[i] == e[i] && e1[j] == e[j]);
            }
        }
        lemma_text_round_trip(e1);
        let t1 = text_export(e1)->Ok_0;
        let name = e.last().0;
        let c = e.last().1;
        assert(text_safe(e[e.len() - 1].0, e[e.len() - 1].1));
        lemma_content_plain(name, c);
        let content = text_content(name, c);
        let t = t1 + text_line(name, c);
        assert(text_export(e) == Ok::<Seq<char>, Seq<char>>(t));
        crate::text::lemma_lines_single(content);
        crate::text::lemma_lines_append(t1, content + seq!['\n']);
        let ls = lines_of(t);
        assert(ls =~= lines_of(t1).push(content));
        assert(ls.drop_last() =~= lines_of(t1));
        assert forall|j: int| 0 <= j < e1.len() implies crate::text::name_lt(
            #[trigger] e1[j].0,
            name,
        ) by {
            assert(e1[j] == e[j]);
        }
        lemma_text_step_appends(e1, name, c, ls.len());
        assert(ls.last() == content);
        assert(text_import(ls.drop_last()) == Ok::<Entries, Seq<char>>(e1));
        assert(text_import(ls) == text_step(e1, content, ls.len()));
        assert(e1.push((name, c)) =~= e);
    }
}

/// Blank lines are skipped: a line break added at the end of a text does not
/// change what the text reads as, unless the text ends in a carriage return
/// (which the added line break turns into a line end).
pub proof fn law_trailing_line_break(t: Seq<char>)
    requires
        t.len() > 0 ==> t.last() != '\r',
    ensures
        text_import(lines_of(t + seq!['\n'])) == text_import(lines_of(t)),
{
    crate::text::lemma_lines_newline(t);
    let ls = lines_of(t);
    if t.len() == 0 || t.last() == '\n' {
        let ls2 = ls.push(Seq::<char>::empty());
        assert(ls2.drop_last() =~= ls);
        assert(ls2.last() == Seq::<char>::empty());
    }
}

/// Writing a deck as plain text and reading the text back gives the same
/// deck, for every deck `to_text` writes (no name holds a tab, newline or
/// carriage return; the empty name is fine) whose ease texts are float
/// literals that the ease table leaves as they are (as it does the text
/// Rust writes for an `f64`).
pub proof fn law_text_round_trip(e: Entries, eases: Seq<(Seq<char>, Seq<char>)>)
    requires
        crate::name_map::sorted_names(e),
        forall|i: int| 0 <= i < e.len() ==> text_safe(#[trigger] e[i].0, e[i].1),
        eases_kept(e, eases),
    ensures
        text_export(e) matches Ok(t) && text_import(lines_of(t)) == Ok::<Entries, Seq<char>>(e),
        with_eases(e, eases) == e,
{
    lemma_text_round_trip(e);
    lemma_with_eases_kept(e, eases);
}


// ---------------------------------------------------------------------------
// Writing JSON

/// A lowercase hexadecimal digit.
pub open spec fn hex_lower(d: int) -> char {
    if d < 10 {
        (d + 48) as char
    } else {
        (d + 87) as char
    }
}

/// How one character of a name is written inside a JSON string.
pub open spec fn escape_char(c: char) -> Seq<char> {
    if c == '"' {
        seq!['\\', '"']
    } else if c == '\\' {
        seq!['\\', '\\']
    } else if c == '\n' {
        seq!['\\', 'n']
    } else if c == '\r' {
        seq!['\\', 'r']
    } else if c == '\t' {
        seq!['\\', 't']
    } else if (c as u32) < 0x20 {
        seq!['\\', 'u', '0', '0', hex_lower(((c as u32) / 16) as int), hex_lower(((c as u32) % 16) as int)]
    } else {
        seq![c]
    }
}

pub open spec fn escaped(s: Seq<char>) -> Seq<char>
    decreases s.len(),
{
    if s.len() == 0 {
        Seq::empty()
    } else {
        escaped(s.drop_last()) + escape_char(s.last())
    }
}

/// One card's fields as a JSON object.
pub open spec fn card_json(c: CardView) -> Seq<char> {
    "{\"interval_days\":"@ + decimal(c.interval_days as nat) + ",\"repetitions\":"@ + decimal(
        c.repetitions as nat,
    ) + ",\"ease\":"@ + c.ease + ",\"due_on\":"@ + decimal(c.due_on as nat) + "}"@
}

/// One card as a member of the `cards` object.
pub open spec fn json_member(name: Seq<char>, c: CardView) -> Seq<char> {
    "\""@ + escaped(name) + "\":"@ + card_json(c)
}

pub open spec fn json_members(e: Entries) -> Seq<char>
    decreases e.len(),
{
    if e.len() == 0 {
        Seq::empty()
    } else if e.len() == 1 {
        json_member(e[0].0, e[0].1)
    } else {
        json_members(e.drop_last()) + ","@ + json_member(e.last().0, e.last().1)
    }
}

/// The JSON text of a deck.
pub open spec fn json_text(e: Entries) -> Seq<char> {
    "{\"cards\":{"@ + json_members(e) + "}}"@
}

fn hex_lower_exec(d: u32) -> (c: char)
    requires
        d < 16,
    ensures
        c == hex_lower(d as int),
{
    if d < 10 {
        ((d as u8) + 48) as char
    } else {
        ((d as u8) + 87) as char
    }
}

/// Appends `s` to `out` with the characters JSON strings cannot hold
/// escaped.
fn escape_into(s: &str, out: &mut String)
    ensures
        final(out)@ == old(out)@ + escaped(s@),
{
    let v = chars_of(s);
    let ghost start = out@;
    let mut i: usize = 0;
    assert(v@.take(0) =~= Seq::<char>::empty());
    while i < v.len()
        invariant
            i <= v.len(),
            v@ == s@,
            out@ == start + escaped(v@.take(i as int)),
        decreases v.len() - i,
    {
        let c = v[i];
        let ghost before = out@;
        if c == '"' {
            push_str(out, "\\\"");
        } else if c == '\\' {
            push_str(out, "\\\\");
        } else if c == '\n' {
            push_str(out, "\\n");
        } else if c == '\r' {
            push_str(out, "\\r");
        } else if c == '\t' {
            push_str(out, "\\t");
        } else if (c as u32) < 0x20 {
            push_char(out, '\\');
            push_char(out, 'u');
            push_char(out, '0');
            push_char(out, '0');
            push_char(out, hex_lower_exec((c as u32) / 16));
            push_char(out, hex_lower_exec((c as u32) % 16));
        } else {
            push_char(out, c);
        }
        proof {
            reveal_strlit("\\\"");
            reveal_strlit("\\\\");
            reveal_strlit("\\n");
            reveal_strlit("\\r");
            reveal_strlit("\\t");
            assert(v@.take(i + 1).drop_last() =~= v@.take(i as int));
            assert(out@ =~= before + escape_char(c));
        }
        i += 1;
    }
    assert(v@.take(v@.len() as int) =~= v@);
}

/// Appends one card as a member of the `cards` object.
fn push_member(out: &mut String, name: &String, card: &Card)
    ensures
        final(out)@ == old(out)@ + json_member(name@, card@),
{
    let ghost start = out@;
    push_str(out, "\"");
    escape_into(name.as_str(), out);
    push_str(out, "\":");
    push_str(out, "{\"interval_days\":");
    push_decimal(out, card.interval_days as u128);
    push_str(out, ",\"repetitions\":");
    push_decimal(out, card.repetitions as u128);
    push_str(out, ",\"ease\":");
    push_str(out, card.ease.as_str());
    push_str(out, ",\"due_on\":");
    push_decimal(out, card.due_on as u128);
    push_str(out, "}");
    assert(out@ =~= start + json_member(name@, card@));
}

impl Deck {
    /// The deck as JSON: an object whose `cards` member maps each name to
    /// the card's fields, in name order.
    pub fn to_json(&self) -> (t: String)
        ensures
            t@ == json_text(self@),
    {
        let ghost e = self@;
        let mut out = String::new();
        push_str(&mut out, "{\"cards\":{");
        let ghost head = out@;
        let n = self.cards.len();
        let mut i: usize = 0;
        assert(e.take(0) =~= Seq::<(Seq<char>, CardView)>::empty());
        while i < n
            invariant
                i <= n,
                n == e.len(),
                e == self@,
                out@ == head + json_members(e.take(i as int)),
            decreases n - i,
        {
            let (name, card) = self.cards.entry(i);
            let ghost before = out@;
            if i > 0 {
                push_str(&mut out, ",");
            }
            let ghost mid = out@;
            push_member(&mut out, name, card);
            proof {
                let t = e.take(i + 1);
                assert(t.drop_last() =~= e.take(i as int));
                assert(t.last() == e[i as int]);
                if i == 0 {
                    assert(json_members(e.take(0)) =~= Seq::<char>::empty());
                    assert(mid == before);
                    assert(t.len() == 1 && t[0] == e[0]);
                } else {
                    assert(mid == before + ","@);
                }
                assert(out@ =~= head + json_members(t));
            }
            i += 1;
        }
        push_str(&mut out, "}}");
        assert(e.take(n as int) =~= e);
        out
    }
}


// ---------------------------------------------------------------------------
// Reading JSON

/// The whole numbers some number literals stand for, as the caller has
/// worked them out: `(text, n)` where `text` parses as an `f64` whose value
/// is the whole number `n`.
pub open spec fn table_view(tab: Seq<(String, u32)>) -> Seq<(Seq<char>, u32)> {
    tab.map_values(|p: (String, u32)| (p.0@, p.1))
}

/// The first entry for `t` in the table.
pub open spec fn table_lookup(tab: Seq<(Seq<char>, u32)>, t: Seq<char>) -> Option<u32>
    decreases tab.len(),
{
    if tab.len() == 0 {
        None
    } else if tab[0].0 == t {
        Some(tab[0].1)
    } else {
        table_lookup(tab.drop_first(), t)
    }
}

/// `-? digits`: a literal whose value needs no floating point to decide.
pub open spec fn plain_integer(t: Seq<char>) -> bool {
    let d = if t.len() > 0 && t[0] == '-' {
        t.drop_first()
    } else {
        t
    };
    d.len() > 0 && crate::text::all_digits(d)
}

/// The `u32` a number literal stands for: a plain integer by its value (a
/// negative zero is zero), anything else as the table says.
pub open spec fn whole_u32(t: Seq<char>, tab: Seq<(Seq<char>, u32)>) -> Option<u32> {
    if plain_integer(t) {
        if t[0] == '-' {
            if crate::text::digits_value(t.drop_first()) == 0 {
                Some(0)
            } else {
                None
            }
        } else if crate::text::digits_value(t) <= u32::MAX {
            Some(crate::text::digits_value(t) as u32)
        } else {
            None
        }
    } else {
        table_lookup(tab, t)
    }
}

pub open spec fn missing_field_message(key: Seq<char>) -> Seq<char> {
    "missing field \""@ + key + "\""@
}

pub open spec fn not_number_message(key: Seq<char>) -> Seq<char> {
    "field \""@ + key + "\" must be a number"@
}

pub open spec fn not_whole_message(key: Seq<char>) -> Seq<char> {
    "field \""@ + key + "\" must be a whole number that fits in u32"@
}

/// The number text of field `key`.
pub open spec fn take_number(f: Seq<(Seq<char>, JsonView)>, key: Seq<char>) -> Result<
    Seq<char>,
    Seq<char>,
> {
    match map_lookup(f, key) {
        None => Err(missing_field_message(key)),
        Some(JsonView::Number(t)) => Ok(t),
        Some(_) => Err(not_number_message(key)),
    }
}

/// The whole number in field `key`.
pub open spec fn take_whole(f: Seq<(Seq<char>, JsonView)>, key: Seq<char>, tab: Seq<(Seq<char>, u32)>) -> Result<
    u32,
    Seq<char>,
> {
    match take_number(f, key) {
        Err(m) => Err(m),
        Ok(t) => match whole_u32(t, tab) {
            Some(n) => Ok(n),
            None => Err(not_whole_message(key)),
        },
    }
}

/// A card read from its JSON object.
pub open spec fn card_of_json(v: JsonView, tab: Seq<(Seq<char>, u32)>) -> Result<CardView, Seq<char>> {
    match v {
        JsonView::Object(f) => match take_whole(f, "interval_days"@, tab) {
            Err(m) => Err(m),
            Ok(interval_days) => match take_whole(f, "repetitions"@, tab) {
                Err(m) => Err(m),
                Ok(repetitions) => match take_number(f, "ease"@) {
                    Err(m) => Err(m),
                    Ok(ease) => match take_whole(f, "due_on"@, tab) {
                        Err(m) => Err(m),
                        Ok(due_on) => Ok(CardView { interval_days, repetitions, ease, due_on }),
                    },
                },
            },
        },
        _ => Err("expected a card to be an object"@),
    }
}

/// The cards of the `cards` object, in its order.
pub open spec fn cards_of_json(es: Seq<(Seq<char>, JsonView)>, tab: Seq<(Seq<char>, u32)>) -> Result<
    Entries,
    Seq<char>,
>
    decreases es.len(),
{
    if es.len() == 0 {
        Ok(Seq::empty())
    } else {
        match cards_of_json(es.drop_last(), tab) {
            Err(m) => Err(m),
            Ok(acc) => match card_of_json(es.last().1, tab) {
                Err(m) => Err(m),
                Ok(c) => Ok(map_insert(acc, es.last().0, c)),
            },
        }
    }
}

/// The deck a JSON value describes.
pub open spec fn deck_of_json(v: JsonView, tab: Seq<(Seq<char>, u32)>) -> Result<Entries, Seq<char>> {
    match v {
        JsonView::Object(top) => match map_lookup(top, "cards"@) {
            None => Err("missing \"cards\" key"@),
            Some(JsonView::Object(cs)) => cards_of_json(cs, tab),
            Some(_) => Err("\"cards\" must be an object"@),
        },
        _ => Err("expected the top-level value to be an object"@),
    }
}

fn owned(a: &str) -> (m: String)
    ensures
        m@ == a@,
{
    a.to_owned()
}

fn field_message(head: &str, key: &str, tail: &str) -> (m: String)
    ensures
        m@ == head@ + key@ + tail@,
{
    let mut m = owned(head);
    push_str(&mut m, key);
    push_str(&mut m, tail);
    m
}

/// Decides which `u32` a number literal stands for.
fn whole_number(t: &String, tab: &Vec<(String, u32)>) -> (r: Option<u32>)
    ensures
        r == whole_u32(t@, table_view(tab@)),
{
    let v = chars_of(t.as_str());
    let n = v.len();
    let neg = n > 0 && v[0] == '-';
    let start: usize = if neg {
        1
    } else {
        0
    };
    let ghost d = v@.subrange(start as int, n as int);
    assert(d =~= (if t@.len() > 0 && t@[0] == '-' {
        t@.drop_first()
    } else {
        t@
    }));
    // plain integer?
    let mut k = start;
    while k < n && (v[k] as u32) >= 48 && (v[k] as u32) <= 57
        invariant
            start <= k <= n,
            n == v@.len(),
            forall|j: int| start <= j < k ==> crate::text::is_digit(#[trigger] v@[j]),
        decreases n - k,
    {
        k += 1;
    }
    if k == n && n > start {
        assert(crate::text::all_digits(d)) by {
            assert forall|j: int| 0 <= j < d.len() implies crate::text::is_digit(#[trigger] d[j]) by {
                assert(d[j] == v@[start + j]);
            }
        }
        assert(d.len() > 0 && d[0] != '+');
        assert(parse_u32_text(d) == (if crate::text::digits_value(d) <= u32::MAX {
            Some(crate::text::digits_value(d) as u32)
        } else {
            None
        }));
        let value = parse_u32(&v, start, n);
        if neg {
            return if value == Some(0u32) {
                Some(0)
            } else {
                None
            };
        } else {
            assert(d =~= t@);
            return value;
        }
    }
    proof {
        if plain_integer(t@) {
            assert(k < n || n == start);
            if k < n {
                assert(d[k - start] == v@[k as int]);
            }
        }
    }
    // look it up
    let ghost tv = table_view(tab@);
    let mut i: usize = 0;
    assert(tv.skip(0) =~= tv);
    while i < tab.len()
        invariant
            i <= tab.len(),
            tv == table_view(tab@),
            v@ == t@,
            !plain_integer(t@),
            whole_u32(t@, tv) == table_lookup(tv.skip(i as int), t@),
        decreases tab.len() - i,
    {
        proof {
            assert(tv.skip(i as int).drop_first() =~= tv.skip(i + 1));
            assert(tv.skip(i as int)[0] == tv[i as int]);
            assert(tv[i as int] == (tab@[i as int].0@, tab@[i as int].1));
        }
        let key = chars_of(tab[i].0.as_str());
        if crate::text::chars_eq(&key, &v) {
            return Some(tab[i].1);
        }
        i += 1;
    }
    None
}

fn take_number_exec<'a>(f: &'a Vec<(String, JsonValue)>, key: &str) -> (r: Result<&'a String, String>)
    ensures
        match take_number(entries_view(f@), key@) {
            Ok(t) => r matches Ok(x) && x@ == t,
            Err(m) => r matches Err(x) && x@ == m,
        },
{
    match member(f, key) {
        None => Err(field_message("missing field \"", key, "\"")),
        Some(JsonValue::Number(t)) => Ok(t),
        Some(_) => Err(field_message("field \"", key, "\" must be a number")),
    }
}

fn take_u32(f: &Vec<(String, JsonValue)>, key: &str, tab: &Vec<(String, u32)>) -> (r: Result<u32, String>)
    ensures
        match take_whole(entries_view(f@), key@, table_view(tab@)) {
            Ok(n) => r == Ok::<u32, String>(n),
            Err(m) => r matches Err(x) && x@ == m,
        },
{
    let t = match take_number_exec(f, key) {
        Ok(t) => t,
        Err(m) => return Err(m),
    };
    match whole_number(t, tab) {
        Some(n) => Ok(n),
        None => Err(field_message("field \"", key, "\" must be a whole number that fits in u32")),
    }
}

fn card_from_value(v: &JsonValue, tab: &Vec<(String, u32)>) -> (r: Result<Card, String>)
    ensures
        match card_of_json(json_view(*v), table_view(tab@)) {
            Ok(c) => r matches Ok(x) && x@ == c,
            Err(m) => r matches Err(x) && x@ == m,
        },
{
    match v {
        JsonValue::Object(f) => {
            let interval_days = match take_u32(f, "interval_days", tab) {
                Ok(n) => n,
                Err(m) => return Err(m),
            };
            let repetitions = match take_u32(f, "repetitions", tab) {
                Ok(n) => n,
                Err(m) => return Err(m),
            };
            let ease = match take_number_exec(f, "ease") {
                Ok(t) => t.clone(),
                Err(m) => return Err(m),
            };
            let due_on = match take_u32(f, "due_on", tab) {
                Ok(n) => n,
                Err(m) => return Err(m),
            };
            Ok(Card { interval_days, repetitions, ease, due_on })
        },
        _ => Err(owned("expected a card to be an object")),
    }
}

impl Deck {
    /// The deck a parsed JSON value describes. `whole` lists number
    /// literals that are not plain integers together with the whole number
    /// each stands for (see [`whole_u32`]). An ease is stored as the text
    /// `eases` gives for its literal (see [`Deck::from_text`]), or as
    /// written where the table does not list it.
    pub fn from_value(value: &JsonValue, whole: &Vec<(String, u32)>, eases: &Vec<(String, String)>) -> (r: Result<
        Deck,
        String,
    >)
        ensures
            match deck_of_json(json_view(*value), table_view(whole@)) {
                Ok(e) => r matches Ok(d) && d@ == with_eases(e, ease_table_view(eases@)),
                Err(m) => r matches Err(x) && x@ == m,
            },
    {
        let top = match value {
            JsonValue::Object(top) => top,
            _ => return Err(owned("expected the top-level value to be an object")),
        };
        let cs = match member(top, "cards") {
            None => return Err(owned("missing \"cards\" key")),
            Some(JsonValue::Object(cs)) => cs,
            Some(_) => return Err(owned("\"cards\" must be an object")),
        };
        let ghost es = entries_view(cs@);
        assert(deck_of_json(json_view(*value), table_view(whole@)) == cards_of_json(
            es,
            table_view(whole@),
        ));
        proof {
            crate::json::lemma_entries_view(cs@);
            assert(es.take(0) =~= Seq::<(Seq<char>, JsonView)>::empty());
        }
        let ghost etab = ease_table_view(eases@);
        let mut cards: NameMap<Card> = NameMap::new();
        let ghost mut raw: Entries = Seq::empty();
        assert(with_eases(raw, etab) =~= cards.spec_entries());
        let mut i: usize = 0;
        while i < cs.len()
            invariant
                i <= cs.len(),
                etab == ease_table_view(eases@),
                es == entries_view(cs@),
                es.len() == cs@.len(),
                deck_of_json(json_view(*value), table_view(whole@)) == cards_of_json(
                    es,
                    table_view(whole@),
                ),
                forall|j: int|
                    0 <= j < cs@.len() ==> #[trigger] es[j] == (cs@[j].0@, json_view(cs@[j].1)),
                cards_of_json(es.take(i as int), table_view(whole@)) == Ok::<Entries, Seq<char>>(raw),
                cards.spec_entries() == with_eases(raw, etab),
            decreases cs.len() - i,
        {
            proof {
                assert(es.take(i + 1).drop_last() =~= es.take(i as int));
                assert(es.take(i + 1).last() == es[i as int]);
            }
            let card = match card_from_value(&cs[i].1, whole) {
                Ok(c) => c,
                Err(m) => {
                    proof {
                        lemma_json_error_stays(es, i + 1, table_view(whole@));
                    }
                    return Err(m);
                },
            };
            let ghost c = card@;
            let Card { interval_days, repetitions, ease, due_on } = card;
            let ease = read_ease_exec(ease, eases);
            let card = Card { interval_days, repetitions, ease, due_on };
            assert(card@ == eased(c, etab));
            proof {
                lemma_with_eases_insert(raw, cs@[i as int].0@, c, etab);
            }
            cards.insert(cs[i].0.clone(), card);
            proof {
                raw = map_insert(raw, cs@[i as int].0@, c);
            }
            i += 1;
        }
        proof {
            assert(es.take(cs.len() as int) =~= es);
        }
        Ok(Deck { cards })
    }

    /// Reads a deck from JSON text. See [`Deck::from_value`] for `whole`
    /// and `eases`: an ease is stored as the text the table gives for its
    /// literal, or as written.
    pub fn from_json(text: &str, whole: &Vec<(String, u32)>, eases: &Vec<(String, String)>) -> (r: Result<
        Deck,
        String,
    >)
        ensures
            match document(text@) {
                Err(m) => r matches Err(x) && x@ == m,
                Ok(v) => match deck_of_json(v, table_view(whole@)) {
                    Ok(e) => r matches Ok(d) && d@ == with_eases(e, ease_table_view(eases@)),
                    Err(m) => r matches Err(x) && x@ == m,
                },
            },
    {
        let value = match parse_json(text) {
            Ok(v) => v,
            Err(m) => return Err(m),
        };
        Deck::from_value(&value, whole, eases)
    }
}

/// What reading JSON text gives: the deck's entries, or the message of the
/// first problem found.
pub open spec fn json_read(t: Seq<char>, tab: Seq<(Seq<char>, u32)>) -> Result<Entries, Seq<char>> {
    match document(t) {
        Err(m) => Err(m),
        Ok(v) => deck_of_json(v, tab),
    }
}

impl Deck {
    /// The deck a deck file holds, given the file's text, or `None` where
    /// there is no such file yet: a deck that has never been saved is an
    /// empty deck, not an error. See [`Deck::from_value`] for `whole` and
    /// `eases`.
    pub fn from_file(text: Option<&str>, whole: &Vec<(String, u32)>, eases: &Vec<(String, String)>) -> (r:
        Result<Deck, DeckError>)
        ensures
            match text {
                None => r matches Ok(d) && d@ == Seq::<(Seq<char>, CardView)>::empty(),
                Some(t) => match json_read(t@, table_view(whole@)) {
                    Ok(e) => r matches Ok(d) && d@ == with_eases(e, ease_table_view(eases@)),
                    Err(m) => r matches Err(x) && x@ == DeckErrorView::Parse(m),
                },
            },
    {
        match text {
            None => Ok(Deck::new()),
            Some(t) => match Deck::from_json(t, whole, eases) {
                Ok(d) => Ok(d),
                Err(m) => Err(DeckError::Parse(m)),
            },
        }
    }
}

/// The text that describes a deck error to a user.
pub open spec fn deck_error_text(e: DeckErrorView) -> Seq<char> {
    match e {
        DeckErrorView::Parse(m) => "malformed deck file: "@ + m,
        DeckErrorView::InvalidName(n) => "card name \""@ + n
            + "\" contains a tab or newline, which the plain text format uses as a field separator"@,
    }
}

impl DeckError {
    /// Describes the error to a user.
    pub fn message(&self) -> (m: String)
        ensures
            m@ == deck_error_text(self@),
    {
        let mut m = String::new();
        match self {
            DeckError::Parse(msg) => {
                push_str(&mut m, "malformed deck file: ");
                push_str(&mut m, msg.as_str());
            },
            DeckError::InvalidName(name) => {
                push_str(&mut m, "card name \"");
                push_str(&mut m, name.as_str());
                push_str(
                    &mut m,
                    "\" contains a tab or newline, which the plain text format uses as a field separator",
                );
            },
        }
        m
    }
}

/// A deck built by storing the same cards (no name twice) in any two orders
/// writes the same JSON text, with its cards in increasing name order.
pub proof fn law_json_ignores_insertion_order(ps: Entries, qs: Entries)
    requires
        crate::name_map::distinct_names(ps),
        crate::name_map::distinct_names(qs),
        forall|i: int| 0 <= i < ps.len() ==> qs.contains(#[trigger] ps[i]),
        forall|j: int| 0 <= j < qs.len() ==> ps.contains(#[trigger] qs[j]),
    ensures
        json_text(crate::name_map::insert_all(Seq::empty(), ps)) == json_text(
            crate::name_map::insert_all(Seq::empty(), qs),
        ),
        crate::name_map::sorted_names(crate::name_map::insert_all(Seq::empty(), ps)),
{
    crate::name_map::law_insert_order_irrelevant(Seq::<(Seq<char>, CardView)>::empty(), ps, qs);
}

/// Once reading the cards fails, it fails with the same message.
proof fn lemma_json_error_stays(es: Seq<(Seq<char>, JsonView)>, i: int, tab: Seq<(Seq<char>, u32)>)
    requires
        0 <= i <= es.len(),
        cards_of_json(es.take(i), tab) is Err,
    ensures
        cards_of_json(es, tab) == cards_of_json(es.take(i), tab),
    decreases es.len() - i,
{
    if i < es.len() {
        assert(es.take(i + 1).drop_last() =~= es.take(i));
        lemma_json_error_stays(es, i + 1, tab);
    } else {
        assert(es.take(i) =~= es);
    }
}

} // verus!
