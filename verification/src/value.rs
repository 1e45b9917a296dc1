//! A JSON value tree with lossless number handling, and its canonical
//! compact rendering.
use vstd::prelude::*;
use crate::chars::spec_is_digit;
use crate::text::{chars_of, push_char, push_str};

verus! {

/// Whether every character of `s` is an ASCII digit.
pub open spec fn all_digits(s: Seq<char>) -> bool {
    forall|i: int| 0 <= i < s.len() ==> spec_is_digit(#[trigger] s[i])
}

/// The integer part of a JSON number: `0`, or a nonzero digit followed by
/// digits.
pub open spec fn spec_is_json_int(s: Seq<char>) -> bool {
    s =~= seq!['0'] || (s.len() >= 1 && '1' <= s[0] <= '9' && all_digits(s))
}

/// The exponent part of a JSON number: empty, or `e`/`E`, an optional sign,
/// and at least one digit.
pub open spec fn spec_is_json_exp(e: Seq<char>) -> bool {
    e.len() == 0 || ((e[0] == 'e' || e[0] == 'E') && ((e.len() >= 2 && all_digits(
        e.subrange(1, e.len() as int),
    )) || (e.len() >= 3 && (e[1] == '+' || e[1] == '-') && all_digits(
        e.subrange(2, e.len() as int),
    ))))
}

/// `s` splits at `a`, `b`, `c` into an optional `-`, an integer part, an
/// optional fraction `.digits`, and an optional exponent.
pub open spec fn json_number_parts(s: Seq<char>, a: int, b: int, c: int) -> bool {
    &&& 0 <= a <= b <= c <= s.len()
    &&& (a == 0 || (a == 1 && s[0] == '-'))
    &&& spec_is_json_int(s.subrange(a, b))
    &&& (c == b || (s[b] == '.' && c >= b + 2 && all_digits(s.subrange(b + 1, c))))
    &&& spec_is_json_exp(s.subrange(c, s.len() as int))
}

/// Whether `s` is a number in the JSON grammar:
/// `-?(0|[1-9][0-9]*)(\.[0-9]+)?([eE][+-]?[0-9]+)?`.
pub open spec fn spec_is_json_number(s: Seq<char>) -> bool {
    exists|a: int, b: int, c: int| json_number_parts(s, a, b, c)
}

/// A JSON number kept as its source text (normalized).
///
/// Numbers are never converted through `f64`, so 64-bit identifiers,
/// timestamps, and long decimals survive a repair round-trip unchanged.
#[derive(Debug, Clone, PartialEq, Eq)]
pub struct Number(String);

impl View for Number {
    type V = Seq<char>;

    closed spec fn view(&self) -> Seq<char> {
        self.0@
    }
}

/// A repaired, parsed JSON value.
#[derive(Debug, PartialEq)]
pub enum Value {
    /// `null`.
    Null,
    /// `true` or `false`.
    Bool(bool),
    /// A number, preserved as text.
    Number(Number),
    /// A string.
    String(String),
    /// An array.
    Array(Vec<Value>),
    /// An object; insertion order is preserved and duplicate keys are kept.
    Object(Vec<(String, Value)>),
}

/// The escape sequence that stands for `c` inside a JSON string.
pub open spec fn spec_escape_char(c: char) -> Seq<char> {
    if c == '"' {
        seq!['\\', '"']
    } else if c == '\\' {
        seq!['\\', '\\']
    } else if c == '\n' {
        seq!['\\', 'n']
    } else if c == '\r' {
        seq!['\\', 'r']
    } else if c == '\t' {
        seq!['\\', 't']
    } else if c as u32 == 0x08 {
        seq!['\\', 'b']
    } else if c as u32 == 0x0C {
        seq!['\\', 'f']
    } else if (c as u32) < 0x20 {
        seq!['\\', 'u', '0', '0', spec_hex_digit((c as u32) / 16), spec_hex_digit((c as u32) % 16)]
    } else {
        seq![c]
    }
}

/// Lower-case hexadecimal digit for `d < 16`.
pub open spec fn spec_hex_digit(d: u32) -> char {
    if d < 10 {
        (d + 48) as char
    } else {
        (d - 10 + 97) as char
    }
}

/// The escaped body of a JSON string (without the surrounding quotes).
pub open spec fn spec_escape_body(s: Seq<char>) -> Seq<char>
    decreases s.len(),
{
    if s.len() == 0 {
        Seq::empty()
    } else {
        spec_escape_body(s.drop_last()) + spec_escape_char(s.last())
    }
}

/// `s` as a JSON string literal: quoted, escaping the minimum the grammar requires.
pub open spec fn spec_quote(s: Seq<char>) -> Seq<char> {
    seq!['"'] + spec_escape_body(s) + seq!['"']
}

/// The canonical compact rendering of a value: `", "` between elements and
/// members, `": "` after a key, numbers verbatim, strings escaped.
pub open spec fn render(v: Value) -> Seq<char> {
    layout(v, true)
}

/// What separates elements and members: `", "` when `spaced`, else `","`.
pub open spec fn comma(spaced: bool) -> Seq<char> {
    if spaced {
        seq![',', ' ']
    } else {
        seq![',']
    }
}

/// What follows a key: `": "` when `spaced`, else `":"`.
pub open spec fn colon(spaced: bool) -> Seq<char> {
    if spaced {
        seq![':', ' ']
    } else {
        seq![':']
    }
}

/// `v` written as JSON without whitespace, except one space after each
/// separator when `spaced`: numbers verbatim, strings escaped.
pub open spec fn layout(v: Value, spaced: bool) -> Seq<char>
    decreases v,
{
    match v {
        Value::Null => seq!['n', 'u', 'l', 'l'],
        Value::Bool(b) => if b {
            seq!['t', 'r', 'u', 'e']
        } else {
            seq!['f', 'a', 'l', 's', 'e']
        },
        Value::Number(n) => n@,
        Value::String(s) => spec_quote(s@),
        Value::Array(items) => seq!['['] + render_items(items@, spaced) + seq![']'],
        Value::Object(members) => seq!['{'] + render_members(members@, spaced) + seq!['}'],
    }
}

/// Elements joined by the separator.
pub open spec fn render_items(s: Seq<Value>, spaced: bool) -> Seq<char>
    decreases s,
{
    if s.len() == 0 {
        Seq::empty()
    } else if s.len() == 1 {
        layout(s[0], spaced)
    } else {
        render_items(s.drop_last(), spaced) + comma(spaced) + layout(s.last(), spaced)
    }
}

/// One member: quoted key, the key separator, the value.
pub open spec fn render_member(m: (String, Value), spaced: bool) -> Seq<char>
    decreases m,
{
    spec_quote(m.0@) + colon(spaced) + layout(m.1, spaced)
}

/// Members joined by the separator.
pub open spec fn render_members(s: Seq<(String, Value)>, spaced: bool) -> Seq<char>
    decreases s,
{
    if s.len() == 0 {
        Seq::empty()
    } else if s.len() == 1 {
        render_member(s[0], spaced)
    } else {
        render_members(s.drop_last(), spaced) + comma(spaced) + render_member(s.last(), spaced)
    }
}

/// Two values that are written alike, with and without spaces.
pub open spec fn same_text(w: Value, v: Value) -> bool {
    layout(w, true) == layout(v, true) && layout(w, false) == layout(v, false)
}

/// Nesting depth of a value: containers count one level plus their deepest child.
pub open spec fn depth(v: Value) -> nat
    decreases v,
{
    match v {
        Value::Array(items) => 1 + items_depth(items@),
        Value::Object(members) => 1 + members_depth(members@),
        _ => 0,
    }
}

/// Whether every number in `v` is written in the JSON number grammar.
pub open spec fn numbers_valid(v: Value) -> bool
    decreases v,
{
    match v {
        Value::Number(n) => spec_is_json_number(n@),
        Value::Array(items) => items_valid(items@),
        Value::Object(members) => members_valid(members@),
        _ => true,
    }
}

/// Whether every element of `s` has valid numbers.
pub open spec fn items_valid(s: Seq<Value>) -> bool
    decreases s,
{
    if s.len() == 0 {
        true
    } else {
        items_valid(s.drop_last()) && numbers_valid(s.last())
    }
}

/// Whether every member value of `s` has valid numbers.
pub open spec fn members_valid(s: Seq<(String, Value)>) -> bool
    decreases s,
{
    if s.len() == 0 {
        true
    } else {
        members_valid(s.drop_last()) && numbers_valid(s.last().1)
    }
}

/// The deepest element of a sequence.
pub open spec fn items_depth(s: Seq<Value>) -> nat
    decreases s,
{
    if s.len() == 0 {
        0
    } else {
        let a = items_depth(s.drop_last());
        let b = depth(s.last());
        if a >= b {
            a
        } else {
            b
        }
    }
}

/// The deepest member value of a sequence.
pub open spec fn members_depth(s: Seq<(String, Value)>) -> nat
    decreases s,
{
    if s.len() == 0 {
        0
    } else {
        let a = members_depth(s.drop_last());
        let b = depth(s.last().1);
        if a >= b {
            a
        } else {
            b
        }
    }
}

/// Writing a concatenation of two nonempty element lists joins their
/// texts with the separator.
pub proof fn lemma_render_items_concat(a: Seq<Value>, b: Seq<Value>, spaced: bool)
    requires
        a.len() >= 1,
        b.len() >= 1,
    ensures
        render_items(a + b, spaced) == render_items(a, spaced) + comma(spaced) + render_items(
            b,
            spaced,
        ),
    decreases b.len(),
{
    if b.len() == 1 {
        assert((a + b).drop_last() =~= a);
        assert((a + b).last() == b[0]);
    } else {
        lemma_render_items_concat(a, b.drop_last(), spaced);
        assert((a + b).drop_last() =~= a + b.drop_last());
        assert((a + b).last() == b.last());
        assert(render_items(a + b, spaced) =~= render_items(a, spaced) + comma(spaced)
            + render_items(b, spaced));
    }
}

/// Writing a concatenation of two nonempty member lists joins their texts
/// with the separator.
pub proof fn lemma_render_members_concat(
    a: Seq<(String, Value)>,
    b: Seq<(String, Value)>,
    spaced: bool,
)
    requires
        a.len() >= 1,
        b.len() >= 1,
    ensures
        render_members(a + b, spaced) == render_members(a, spaced) + comma(spaced)
            + render_members(b, spaced),
    decreases b.len(),
{
    if b.len() == 1 {
        assert((a + b).drop_last() =~= a);
        assert((a + b).last() == b[0]);
    } else {
        lemma_render_members_concat(a, b.drop_last(), spaced);
        assert((a + b).drop_last() =~= a + b.drop_last());
        assert((a + b).last() == b.last());
        assert(render_members(a + b, spaced) =~= render_members(a, spaced) + comma(spaced)
            + render_members(b, spaced));
    }
}

/// The text of the first `k` elements, then the separator and the rest.
pub proof fn lemma_render_items_split(s: Seq<Value>, k: int, spaced: bool)
    requires
        1 <= k < s.len(),
    ensures
        render_items(s, spaced) == render_items(s.take(k), spaced) + comma(spaced) + render_items(
            s.skip(k),
            spaced,
        ),
        render_items(s.take(k + 1), spaced) == render_items(s.take(k), spaced) + comma(spaced)
            + layout(s[k], spaced),
        k + 1 == s.len() ==> render_items(s.skip(k), spaced) == layout(s[k], spaced),
        k + 1 < s.len() ==> render_items(s.skip(k), spaced) == layout(s[k], spaced) + comma(
            spaced,
        ) + render_items(s.skip(k + 1), spaced),
{
    assert(s.take(k) + s.skip(k) =~= s);
    lemma_render_items_concat(s.take(k), s.skip(k), spaced);
    assert(s.take(k + 1).drop_last() =~= s.take(k));
    if k + 1 < s.len() {
        assert(s.skip(k) =~= seq![s[k]] + s.skip(k + 1));
        lemma_render_items_concat(seq![s[k]], s.skip(k + 1), spaced);
    } else {
        assert(s.skip(k) =~= seq![s[k]]);
    }
}

/// The text of the first `k` members, then the separator and the rest.
pub proof fn lemma_render_members_split(s: Seq<(String, Value)>, k: int, spaced: bool)
    requires
        1 <= k < s.len(),
    ensures
        render_members(s, spaced) == render_members(s.take(k), spaced) + comma(spaced)
            + render_members(s.skip(k), spaced),
        render_members(s.take(k + 1), spaced) == render_members(s.take(k), spaced) + comma(spaced)
            + render_member(s[k], spaced),
        k + 1 == s.len() ==> render_members(s.skip(k), spaced) == render_member(s[k], spaced),
        k + 1 < s.len() ==> render_members(s.skip(k), spaced) == render_member(s[k], spaced)
            + comma(spaced) + render_members(s.skip(k + 1), spaced),
{
    assert(s.take(k) + s.skip(k) =~= s);
    lemma_render_members_concat(s.take(k), s.skip(k), spaced);
    assert(s.take(k + 1).drop_last() =~= s.take(k));
    if k + 1 < s.len() {
        assert(s.skip(k) =~= seq![s[k]] + s.skip(k + 1));
        lemma_render_members_concat(seq![s[k]], s.skip(k + 1), spaced);
    } else {
        assert(s.skip(k) =~= seq![s[k]]);
    }
}

/// The elements of a list with valid numbers have valid numbers, and
/// each is no deeper than the list.
pub proof fn lemma_items_index(s: Seq<Value>, k: int)
    requires
        0 <= k < s.len(),
    ensures
        items_valid(s) ==> numbers_valid(s[k]),
        depth(s[k]) <= items_depth(s),
    decreases s.len(),
{
    if k < s.len() - 1 {
        lemma_items_index(s.drop_last(), k);
        assert(s.drop_last()[k] == s[k]);
    }
}

/// The member values of a list with valid numbers have valid numbers, and
/// each is no deeper than the list.
pub proof fn lemma_members_index(s: Seq<(String, Value)>, k: int)
    requires
        0 <= k < s.len(),
    ensures
        members_valid(s) ==> numbers_valid(s[k].1),
        depth(s[k].1) <= members_depth(s),
    decreases s.len(),
{
    if k < s.len() - 1 {
        lemma_members_index(s.drop_last(), k);
        assert(s.drop_last()[k] == s[k]);
    }
}

/// The characters of a JSON number: digits, signs, a point, exponent marks.
pub open spec fn spec_number_char(c: char) -> bool {
    spec_is_digit(c) || c == '-' || c == '+' || c == '.' || c == 'e' || c == 'E'
}

/// A JSON number is made of number characters only.
pub proof fn lemma_number_chars(n: Seq<char>)
    requires
        spec_is_json_number(n),
    ensures
        forall|i: int| 0 <= i < n.len() ==> spec_number_char(#[trigger] n[i]),
{
    let (a, b, c) = choose|a: int, b: int, c: int| json_number_parts(n, a, b, c);
    assert forall|i: int| 0 <= i < n.len() implies spec_number_char(#[trigger] n[i]) by {
        if i < a {
            assert(n[i] == '-');
        } else if i < b {
            let ip = n.subrange(a, b);
            assert(ip[i - a] == n[i]);
            if ip =~= seq!['0'] {
                assert(ip[0] == '0');
            } else {
                assert(spec_is_digit(ip[i - a]));
            }
        } else if i < c {
            if i > b {
                assert(n.subrange(b + 1, c)[i - b - 1] == n[i]);
            }
        } else {
            let e = n.subrange(c, n.len() as int);
            assert(e[i - c] == n[i]);
            if i > c {
                if e.len() >= 2 && all_digits(e.subrange(1, e.len() as int)) {
                    assert(e.subrange(1, e.len() as int)[i - c - 1] == n[i]);
                } else if i > c + 1 {
                    assert(e.subrange(2, e.len() as int)[i - c - 2] == n[i]);
                }
            }
        }
    }
}

/// What canonical text begins with: `n`, `t`, `f`, a quote, a bracket, a
/// brace, a minus sign, or a digit.
pub open spec fn spec_starts_canonically(c: char) -> bool {
    c == 'n' || c == 't' || c == 'f' || c == '"' || c == '[' || c == '{' || c == '-'
        || spec_is_digit(c)
}

/// The text of a value with valid numbers is nonempty and starts
/// canonically.
pub proof fn lemma_render_first(v: Value, spaced: bool)
    requires
        numbers_valid(v),
    ensures
        layout(v, spaced).len() >= 1,
        spec_starts_canonically(layout(v, spaced)[0]),
{
    match v {
        Value::Number(n) => {
            let (a, b, c) = choose|a: int, b: int, c: int| json_number_parts(n@, a, b, c);
            let ip = n@.subrange(a, b);
            assert(ip.len() >= 1);
            assert(ip[0] == n@[a]);
            if ip =~= seq!['0'] {
                assert(ip[0] == '0');
            }
        },
        _ => {},
    }
}

/// A nonempty element list is written starting with its first element.
pub proof fn lemma_render_items_first(s: Seq<Value>, spaced: bool)
    requires
        s.len() >= 1,
    ensures
        render_items(s, spaced).len() >= layout(s[0], spaced).len(),
        render_items(s, spaced).subrange(0, layout(s[0], spaced).len() as int) == layout(
            s[0],
            spaced,
        ),
    decreases s.len(),
{
    if s.len() > 1 {
        lemma_render_items_first(s.drop_last(), spaced);
        assert(s.drop_last()[0] == s[0]);
        let r = layout(s[0], spaced);
        assert(render_items(s, spaced).subrange(0, r.len() as int) =~= render_items(
            s.drop_last(),
            spaced,
        ).subrange(0, r.len() as int));
    } else {
        assert(render_items(s, spaced).subrange(0, layout(s[0], spaced).len() as int) =~= layout(
            s[0],
            spaced,
        ));
    }
}

/// A nonempty member list is written starting with the first key's quote.
pub proof fn lemma_render_members_first(s: Seq<(String, Value)>, spaced: bool)
    requires
        s.len() >= 1,
    ensures
        render_members(s, spaced).len() >= 1,
        render_members(s, spaced)[0] == '"',
    decreases s.len(),
{
    if s.len() > 1 {
        lemma_render_members_first(s.drop_last(), spaced);
        let a = render_members(s.drop_last(), spaced);
        assert(render_members(s, spaced) == a + comma(spaced) + render_member(s.last(), spaced));
        assert((a + comma(spaced) + render_member(s.last(), spaced))[0] == a[0]);
    } else {
        let q = spec_quote(s[0].0@);
        assert(q[0] == '"');
        assert(render_member(s[0], spaced) == q + colon(spaced) + layout(s[0].1, spaced));
        assert((q + colon(spaced) + layout(s[0].1, spaced))[0] == q[0]);
    }
}

/// The value of the first member whose key is `key`.
pub open spec fn spec_get(members: Seq<(String, Value)>, key: Seq<char>) -> Option<Value>
    decreases members.len(),
{
    if members.len() == 0 {
        None
    } else if members[0].0@ == key {
        Some(members[0].1)
    } else {
        spec_get(members.drop_first(), key)
    }
}

/// Appends the escape sequence for one character.
fn write_escaped_char(out: &mut String, c: char)
    ensures
        final(out)@ == old(out)@ + spec_escape_char(c),
{
    if c == '"' {
        push_str(out, "\\\"");
        proof { reveal_strlit("\\\""); }
    } else if c == '\\' {
        push_str(out, "\\\\");
        proof { reveal_strlit("\\\\"); }
    } else if c == '\n' {
        push_str(out, "\\n");
        proof { reveal_strlit("\\n"); }
    } else if c == '\r' {
        push_str(out, "\\r");
        proof { reveal_strlit("\\r"); }
    } else if c == '\t' {
        push_str(out, "\\t");
        proof { reveal_strlit("\\t"); }
    } else if c as u32 == 0x08 {
        push_str(out, "\\b");
        proof { reveal_strlit("\\b"); }
    } else if c as u32 == 0x0C {
        push_str(out, "\\f");
        proof { reveal_strlit("\\f"); }
    } else if (c as u32) < 0x20 {
        let u = c as u32;
        push_str(out, "\\u00");
        proof { reveal_strlit("\\u00"); }
        push_char(out, hex_digit(u / 16));
        push_char(out, hex_digit(u % 16));
        proof {
            assert(seq!['\\', 'u', '0', '0'] + seq![spec_hex_digit(u / 16)] + seq![
                spec_hex_digit(u % 16),
            ] =~= spec_escape_char(c));
        }
    } else {
        push_char(out, c);
    }
}

fn hex_digit(d: u32) -> (c: char)
    requires
        d < 16,
    ensures
        c == spec_hex_digit(d),
{
    let digits: [char; 16] = [
        '0', '1', '2', '3', '4', '5', '6', '7', '8', '9', 'a', 'b', 'c', 'd', 'e', 'f',
    ];
    let c = digits[d as usize];
    proof {
        assert(c == spec_hex_digit(d)) by {
            if d < 10 {
                assert(digits@[d as int] == (d + 48) as char);
            } else {
                assert(digits@[d as int] == (d - 10 + 97) as char);
            }
        }
    }
    c
}

/// Writes `text` as a JSON string, escaping the minimum the grammar requires.
pub fn write_escaped(out: &mut String, text: &[char])
    ensures
        final(out)@ == old(out)@ + spec_quote(text@),
{
    let ghost start = out@;
    push_char(out, '"');
    let mut i: usize = 0;
    while i < text.len()
        invariant
            i <= text@.len(),
            out@ == start + seq!['"'] + spec_escape_body(text@.take(i as int)),
        decreases text@.len() - i,
    {
        proof {
            assert(text@.take(i + 1).drop_last() =~= text@.take(i as int));
        }
        write_escaped_char(out, text[i]);
        i = i + 1;
    }
    push_char(out, '"');
    assert(text@.take(text@.len() as int) =~= text@);
}

/// Decimal integer text as a mathematical integer: an optional sign (`-`
/// only when `signed`), then at least one ASCII digit, nothing else.
pub open spec fn spec_parse_int(s: Seq<char>, signed: bool) -> Option<int> {
    let negative = spec_int_negative(s, signed);
    let digits = spec_int_digits(s, signed);
    if digits.len() == 0 {
        None
    } else {
        match crate::chars::spec_digits_value(digits, 10) {
            Some(v) => Some(
                if negative {
                    -v
                } else {
                    v as int
                },
            ),
            None => None,
        }
    }
}

/// Whether the text starts with a `-` that a signed parse accepts.
pub open spec fn spec_int_negative(s: Seq<char>, signed: bool) -> bool {
    signed && s.len() > 0 && s[0] == '-'
}

/// The digits after an optional sign.
pub open spec fn spec_int_digits(s: Seq<char>, signed: bool) -> Seq<char> {
    if s.len() > 0 && (s[0] == '+' || spec_int_negative(s, signed)) {
        s.subrange(1, s.len() as int)
    } else {
        s
    }
}

/// Parses decimal integer text within `[lo, hi]`, like the standard
/// `FromStr` of integer types.
fn parse_int_text(s: &[char], signed: bool, lo: i128, hi: i128) -> (r: Option<i128>)
    requires
        lo <= 0 <= hi,
        lo >= -0x1_0000_0000_0000_0000,
        hi <= 0x1_0000_0000_0000_0000,
    ensures
        r matches Some(v) ==> spec_parse_int(s@, signed) == Some(v as int) && lo <= v <= hi,
        r is None ==> match spec_parse_int(s@, signed) {
            Some(v) => v < lo || v > hi,
            None => true,
        },
{
    let ghost whole = s@;
    let negative = signed && s.len() > 0 && s[0] == '-';
    let mut i: usize = 0;
    if s.len() > 0 && (s[0] == '+' || negative) {
        i = 1;
    }
    let ghost digits = s@.subrange(i as int, s@.len() as int);
    proof {
        if !(s@.len() > 0 && (s@[0] == '+' || negative)) {
            assert(digits =~= s@);
        }
    }
    if i == s.len() {
        return None;
    }
    let ds = i;
    let limit: u128 = if negative {
        (-lo) as u128
    } else {
        hi as u128
    };
    let mut acc: u128 = 0;
    let mut over = false;
    while i < s.len()
        invariant
            ds <= i <= s@.len(),
            ds < s@.len(),
            digits == s@.subrange(ds as int, s@.len() as int),
            digits == spec_int_digits(s@, signed),
            negative == spec_int_negative(s@, signed),
            limit == if negative { -lo } else { hi as int },
            limit <= 0x1_0000_0000_0000_0000,
            !over ==> crate::chars::spec_digits_value(s@.subrange(ds as int, i as int), 10) == Some(
                acc as nat,
            ),
            !over ==> acc <= limit,
            over ==> (crate::chars::spec_digits_value(s@.subrange(ds as int, i as int), 10)
                is Some ==> crate::chars::spec_digits_value(
                s@.subrange(ds as int, i as int),
                10,
            ).unwrap() > limit),
        decreases s@.len() - i,
    {
        let ghost prefix = s@.subrange(ds as int, i as int);
        let ghost next = s@.subrange(ds as int, i + 1);
        assert(next.drop_last() =~= prefix);
        let c = s[i];
        if !('0' <= c && c <= '9') {
            proof {
                assert(crate::chars::spec_digits_value(next, 10) is None);
                if crate::chars::spec_digits_value(digits, 10) is Some {
                    assert(digits.subrange(0, i + 1 - ds) =~= next);
                    lemma_digits_prefix(digits, i + 1 - ds);
                }
            }
            return None;
        }
        let d = (c as u32 - '0' as u32) as u128;
        if !over {
            if d <= limit && acc <= (limit - d) / 10 {
                proof {
                    assert(acc * 10 + d <= limit) by (nonlinear_arith)
                        requires
                            acc <= (limit - d) as int / 10,
                    ;
                }
                acc = acc * 10 + d;
            } else {
                proof {
                    assert(acc * 10 + d > limit) by (nonlinear_arith)
                        requires
                            d > limit || acc > (limit - d) as int / 10,
                            d < 10,
                    ;
                }
                over = true;
            }
        } else {
            proof {
                if crate::chars::spec_digits_value(next, 10) is Some {
                    let pv = crate::chars::spec_digits_value(prefix, 10).unwrap();
                    assert(pv * 10 + d >= pv) by (nonlinear_arith);
                }
            }
        }
        i = i + 1;
    }
    proof {
        assert(s@.subrange(ds as int, s@.len() as int) =~= digits);
    }
    if over {
        return None;
    }
    if negative {
        Some(-(acc as i128))
    } else {
        Some(acc as i128)
    }
}

proof fn lemma_digits_prefix(s: Seq<char>, i: int)
    requires
        0 <= i <= s.len(),
        crate::chars::spec_digits_value(s, 10) is Some,
    ensures
        crate::chars::spec_digits_value(s.subrange(0, i), 10) is Some,
    decreases s.len() - i,
{
    if i < s.len() {
        assert(s.drop_last() =~= s.subrange(0, s.len() - 1));
        lemma_digits_prefix(s.drop_last(), i);
        assert(s.drop_last().subrange(0, i) =~= s.subrange(0, i));
    } else {
        assert(s.subrange(0, i) =~= s);
    }
}

/// The integer that `i64`'s `FromStr` reads from the text, when it fits.
pub open spec fn spec_as_i64(s: Seq<char>) -> Option<i64> {
    match spec_parse_int(s, true) {
        Some(v) => if i64::MIN <= v <= i64::MAX {
            Some(v as i64)
        } else {
            None
        },
        None => None,
    }
}

/// The integer that `u64`'s `FromStr` reads from the text, when it fits.
pub open spec fn spec_as_u64(s: Seq<char>) -> Option<u64> {
    match spec_parse_int(s, false) {
        Some(v) => if 0 <= v <= u64::MAX {
            Some(v as u64)
        } else {
            None
        },
        None => None,
    }
}

impl Number {
    /// Wraps already-normalized JSON number text.
    pub fn from_normalized(text: String) -> (r: Self)
        ensures
            r@ == text@,
    {
        Number(text)
    }

    /// The number exactly as it will be emitted.
    pub fn as_str(&self) -> (r: &str)
        ensures
            r@ == self@,
    {
        self.0.as_str()
    }

    /// Parses the number as `i64` when it is a plain integer that fits.
    pub fn as_i64(&self) -> (r: Option<i64>)
        ensures
            r == spec_as_i64(self@),
    {
        let text = chars_of(self.0.as_str());
        match parse_int_text(&text, true, -0x8000_0000_0000_0000, 0x7fff_ffff_ffff_ffff) {
            Some(v) => Some(v as i64),
            None => None,
        }
    }

    /// Parses the number as `u64` when it is a plain non-negative integer that fits.
    pub fn as_u64(&self) -> (r: Option<u64>)
        ensures
            r == spec_as_u64(self@),
    {
        let text = chars_of(self.0.as_str());
        match parse_int_text(&text, false, 0, 0xffff_ffff_ffff_ffff) {
            Some(v) => Some(v as u64),
            None => None,
        }
    }
}


/// Whether two string slices hold the same characters.
pub fn str_eq(a: &str, b: &str) -> (r: bool)
    ensures
        r == (a@ == b@),
{
    let x = chars_of(a);
    let y = chars_of(b);
    if x.len() != y.len() {
        return false;
    }
    let mut i: usize = 0;
    while i < x.len()
        invariant
            i <= x@.len() == y@.len(),
            x@ == a@,
            y@ == b@,
            forall|j: int| 0 <= j < i ==> x@[j] == y@[j],
        decreases x@.len() - i,
    {
        if x[i] != y[i] {
            assert(x@[i as int] != y@[i as int]);
            assert(a@ != b@);
            return false;
        }
        i = i + 1;
    }
    assert(x@ =~= y@);
    true
}

/// Splits `s` at every `/` (like `str::split('/')`): the pieces between separators.
pub open spec fn spec_split_slash(s: Seq<char>) -> Seq<Seq<char>>
    decreases s.len(),
{
    if s.len() == 0 {
        seq![Seq::empty()]
    } else {
        let prev = spec_split_slash(s.drop_last());
        if s.last() == '/' {
            prev.push(Seq::empty())
        } else {
            prev.update(prev.len() - 1, prev.last().push(s.last()))
        }
    }
}

/// Replaces every non-overlapping occurrence of the two-character pattern
/// `[a, b]` with `r`, scanning left to right (like `str::replace`).
pub open spec fn spec_replace2(s: Seq<char>, a: char, b: char, r: char) -> Seq<char>
    decreases s.len(),
{
    if s.len() < 2 {
        s
    } else if s[0] == a && s[1] == b {
        seq![r] + spec_replace2(s.subrange(2, s.len() as int), a, b, r)
    } else {
        seq![s[0]] + spec_replace2(s.subrange(1, s.len() as int), a, b, r)
    }
}

fn replace2(s: &[char], a: char, b: char, r: char) -> (out: Vec<char>)
    ensures
        out@ == spec_replace2(s@, a, b, r),
{
    let mut out: Vec<char> = Vec::new();
    let mut i: usize = 0;
    assert(s@.subrange(0, s@.len() as int) =~= s@);
    assert(out@ + s@ =~= s@);
    while i < s.len()
        invariant
            i <= s@.len(),
            out@ + spec_replace2(s@.subrange(i as int, s@.len() as int), a, b, r) == spec_replace2(
                s@,
                a,
                b,
                r,
            ),
        decreases s@.len() - i,
    {
        let ghost rest = s@.subrange(i as int, s@.len() as int);
        if s.len() - i >= 2 && s[i] == a && s[i + 1] == b {
            assert(rest.subrange(2, rest.len() as int) =~= s@.subrange(i + 2, s@.len() as int));
            out.push(r);
            i = i + 2;
            assert(out@ + spec_replace2(s@.subrange(i as int, s@.len() as int), a, b, r)
                =~= spec_replace2(s@, a, b, r));
        } else if s.len() - i == 1 {
            assert(rest =~= seq![s@[i as int]]);
            out.push(s[i]);
            i = i + 1;
            assert(s@.subrange(i as int, s@.len() as int) =~= Seq::<char>::empty());
            assert(out@ + spec_replace2(s@.subrange(i as int, s@.len() as int), a, b, r)
                =~= spec_replace2(s@, a, b, r));
        } else {
            assert(rest.subrange(1, rest.len() as int) =~= s@.subrange(i + 1, s@.len() as int));
            out.push(s[i]);
            i = i + 1;
            assert(out@ + spec_replace2(s@.subrange(i as int, s@.len() as int), a, b, r)
                =~= spec_replace2(s@, a, b, r));
        }
    }
    assert(s@.subrange(i as int, s@.len() as int) =~= Seq::<char>::empty());
    assert(out@ + Seq::<char>::empty() =~= out@);
    out
}

/// A pointer token with `~1` and `~0` decoded (in that order).
pub open spec fn spec_unescape_token(raw: Seq<char>) -> Seq<char> {
    spec_replace2(spec_replace2(raw, '~', '1', '/'), '~', '0', '~')
}

/// The value a sequence of pointer tokens leads to from `v`.
pub open spec fn spec_resolve(v: Value, tokens: Seq<Seq<char>>) -> Option<Value>
    decreases tokens.len(),
{
    if tokens.len() == 0 {
        Some(v)
    } else {
        let token = spec_unescape_token(tokens[0]);
        let rest = tokens.drop_first();
        match v {
            Value::Object(members) => match spec_get(members@, token) {
                Some(child) => spec_resolve(child, rest),
                None => None,
            },
            Value::Array(items) => match spec_parse_int(token, false) {
                Some(i) => if i <= usize::MAX && i < items@.len() {
                    spec_resolve(items@[i], rest)
                } else {
                    None
                },
                None => None,
            },
            _ => None,
        }
    }
}

/// What an RFC 6901 pointer resolves to: the empty pointer is the value
/// itself; otherwise every `/`-separated token after the first piece is
/// applied in turn (an object key, or a decimal array index).
pub open spec fn spec_pointer(v: Value, pointer: Seq<char>) -> Option<Value> {
    if pointer.len() == 0 {
        Some(v)
    } else {
        spec_resolve(v, spec_split_slash(pointer).drop_first())
    }
}

/// The number of elements or members; `0` for scalars.
pub open spec fn spec_len(v: Value) -> nat {
    match v {
        Value::Array(a) => a@.len(),
        Value::Object(o) => o@.len(),
        _ => 0,
    }
}

proof fn lemma_item_decreases(v: Value, i: int)
    requires
        v is Array,
        0 <= i < v->Array_0@.len(),
    ensures
        decreases_to!(v => v->Array_0@[i]),
{
    let items = v->Array_0;
    assert(decreases_to!(v => items));
    assert(decreases_to!(items => items@));
    assert(decreases_to!(items@ => items@[i]));
}

proof fn lemma_member_decreases(v: Value, i: int)
    requires
        v is Object,
        0 <= i < v->Object_0@.len(),
    ensures
        decreases_to!(v => v->Object_0@[i].1),
{
    let members = v->Object_0;
    assert(decreases_to!(v => members));
    assert(decreases_to!(members => members@));
    assert(decreases_to!(members@ => members@[i]));
    assert(decreases_to!(members@[i] => members@[i].1));
}

impl Value {
    /// Returns the string contents when this is a [`Value::String`].
    pub fn as_str(&self) -> (r: Option<&str>)
        ensures
            match *self {
                Value::String(s) => r is Some && r.unwrap()@ == s@,
                _ => r is None,
            },
    {
        match self {
            Value::String(s) => Some(s.as_str()),
            _ => None,
        }
    }

    /// Returns the boolean when this is a [`Value::Bool`].
    pub fn as_bool(&self) -> (r: Option<bool>)
        ensures
            match *self {
                Value::Bool(b) => r == Some(b),
                _ => r is None,
            },
    {
        match self {
            Value::Bool(b) => Some(*b),
            _ => None,
        }
    }

    /// Returns the number when this is a [`Value::Number`].
    pub fn as_number(&self) -> (r: Option<&Number>)
        ensures
            match *self {
                Value::Number(n) => r is Some && *r.unwrap() == n,
                _ => r is None,
            },
    {
        match self {
            Value::Number(n) => Some(n),
            _ => None,
        }
    }

    /// Returns the number as `i64` when this is an integer [`Value::Number`].
    pub fn as_i64(&self) -> (r: Option<i64>)
        ensures
            match *self {
                Value::Number(n) => r == spec_as_i64(n@),
                _ => r is None,
            },
    {
        match self {
            Value::Number(n) => n.as_i64(),
            _ => None,
        }
    }

    /// Returns the elements when this is a [`Value::Array`].
    pub fn as_array(&self) -> (r: Option<&[Value]>)
        ensures
            match *self {
                Value::Array(a) => r is Some && r.unwrap()@ == a@,
                _ => r is None,
            },
    {
        match self {
            Value::Array(a) => Some(a.as_slice()),
            _ => None,
        }
    }

    /// Returns the key/value pairs when this is a [`Value::Object`].
    pub fn as_object(&self) -> (r: Option<&[(String, Value)]>)
        ensures
            match *self {
                Value::Object(o) => r is Some && r.unwrap()@ == o@,
                _ => r is None,
            },
    {
        match self {
            Value::Object(o) => Some(o.as_slice()),
            _ => None,
        }
    }

    /// Looks up a key in an object (first match wins).
    pub fn get(&self, key: &str) -> (r: Option<&Value>)
        ensures
            match *self {
                Value::Object(o) => match spec_get(o@, key@) {
                    Some(v) => r is Some && *r.unwrap() == v,
                    None => r is None,
                },
                _ => r is None,
            },
    {
        match self {
            Value::Object(members) => {
                let mut i: usize = 0;
                assert(members@.skip(0) =~= members@);
                while i < members.len()
                    invariant
                        i <= members@.len(),
                        *self == Value::Object(*members),
                        spec_get(members@, key@) == spec_get(members@.skip(i as int), key@),
                    decreases members@.len() - i,
                {
                    assert(members@.skip(i as int).drop_first() =~= members@.skip(i + 1));
                    assert(members@.skip(i as int)[0] == members@[i as int]);
                    if str_eq(members[i].0.as_str(), key) {
                        return Some(&members[i].1);
                    }
                    i = i + 1;
                }
                None
            },
            _ => None,
        }
    }

    /// Looks up an index in an array.
    pub fn index(&self, index: usize) -> (r: Option<&Value>)
        ensures
            match *self {
                Value::Array(a) => if index < a@.len() {
                    r is Some && *r.unwrap() == a@[index as int]
                } else {
                    r is None
                },
                _ => r is None,
            },
    {
        match self {
            Value::Array(a) => if index < a.len() {
                Some(&a[index])
            } else {
                None
            },
            _ => None,
        }
    }

    /// Resolves an RFC 6901 JSON pointer such as `/choices/0/text`.
    ///
    /// An empty pointer resolves to `self`.
    pub fn pointer(&self, pointer: &str) -> (r: Option<&Value>)
        ensures
            match spec_pointer(*self, pointer@) {
                Some(v) => r is Some && *r.unwrap() == v,
                None => r is None,
            },
    {
        let p = chars_of(pointer);
        if p.len() == 0 {
            return Some(self);
        }
        // Split into pieces.
        let mut pieces: Vec<Vec<char>> = Vec::new();
        pieces.push(Vec::new());
        let mut i: usize = 0;
        while i < p.len()
            invariant
                i <= p@.len(),
                pieces@.len() >= 1,
                pieces@.map_values(|x: Vec<char>| x@) == spec_split_slash(p@.take(i as int)),
            decreases p@.len() - i,
        {
            proof {
                assert(p@.take(i + 1).drop_last() =~= p@.take(i as int));
            }
            if p[i] == '/' {
                pieces.push(Vec::new());
                proof {
                    assert(pieces@.map_values(|x: Vec<char>| x@) =~= spec_split_slash(
                        p@.take(i + 1),
                    ));
                }
            } else {
                let last = pieces.len() - 1;
                let mut piece = pieces.pop().unwrap();
                piece.push(p[i]);
                pieces.push(piece);
                proof {
                    assert(pieces@.map_values(|x: Vec<char>| x@) =~= spec_split_slash(
                        p@.take(i + 1),
                    ));
                }
            }
            i = i + 1;
        }
        assert(p@.take(p@.len() as int) =~= p@);
        let ghost tokens = spec_split_slash(p@).drop_first();
        assert(spec_pointer(*self, pointer@) == spec_resolve(*self, tokens));
        let mut current: &Value = self;
        let mut k: usize = 1;
        assert(tokens.skip(0) =~= tokens);
        while k < pieces.len()
            invariant
                1 <= k <= pieces@.len(),
                spec_pointer(*self, pointer@) == spec_resolve(*self, tokens),
                pieces@.map_values(|x: Vec<char>| x@) == spec_split_slash(p@),
                tokens == spec_split_slash(p@).drop_first(),
                spec_resolve(*self, tokens) == spec_resolve(*current, tokens.skip(k - 1)),
            decreases pieces@.len() - k,
        {
            let ghost toks = tokens.skip(k - 1);
            assert(pieces@.map_values(|x: Vec<char>| x@)[k as int] == pieces@[k as int]@);
            assert(toks[0] == pieces@[k as int]@);
            assert(toks.drop_first() =~= tokens.skip(k as int));
            let step1 = replace2(&pieces[k], '~', '1', '/');
            let token = replace2(&step1, '~', '0', '~');
            let tok_str = crate::text::string_of(&token);
            assert(tok_str@ == spec_unescape_token(toks[0]));
            match current {
                Value::Object(_) => {
                    match current.get(tok_str.as_str()) {
                        Some(child) => {
                            current = child;
                        },
                        None => {
                            return None;
                        },
                    }
                },
                Value::Array(items) => {
                    match parse_int_text(&token, false, 0, usize::MAX as i128) {
                        Some(idx) => {
                            if (idx as usize) < items.len() {
                                current = &items[idx as usize];
                            } else {
                                return None;
                            }
                        },
                        None => {
                            return None;
                        },
                    }
                },
                _ => {
                    return None;
                },
            }
            k = k + 1;
        }
        assert(tokens.skip(k - 1) =~= Seq::<Seq<char>>::empty());
        Some(current)
    }

    /// Number of elements or members; `0` for scalars.
    pub fn len(&self) -> (r: usize)
        ensures
            r == spec_len(*self),
    {
        match self {
            Value::Array(a) => a.len(),
            Value::Object(o) => o.len(),
            _ => 0,
        }
    }

    /// Whether this value is [`Value::Null`].
    pub fn is_null(&self) -> (r: bool)
        ensures
            r == (*self is Null),
    {
        match self {
            Value::Null => true,
            _ => false,
        }
    }

    /// Whether this value is an empty array, an empty object, or a scalar.
    pub fn is_empty(&self) -> (r: bool)
        ensures
            r == (spec_len(*self) == 0),
    {
        self.len() == 0
    }

    /// Appends the canonical compact rendering of this value to `out`.
    pub fn write_to(&self, out: &mut String)
        ensures
            final(out)@ == old(out)@ + render(*self),
        decreases self,
    {
        match self {
            Value::Null => {
                push_str(out, "null");
                proof { reveal_strlit("null"); }
            },
            Value::Bool(b) => {
                if *b {
                    push_str(out, "true");
                    proof { reveal_strlit("true"); }
                } else {
                    push_str(out, "false");
                    proof { reveal_strlit("false"); }
                }
            },
            Value::Number(n) => {
                push_str(out, n.as_str());
            },
            Value::String(s) => {
                let text = chars_of(s.as_str());
                write_escaped(out, &text);
            },
            Value::Array(items) => {
                let ghost start = out@;
                push_char(out, '[');
                let mut i: usize = 0;
                while i < items.len()
                    invariant
                        i <= items@.len(),
                        *self == Value::Array(*items),
                        out@ == start + seq!['['] + render_items(items@.take(i as int), true),
                    decreases items@.len() - i,
                {
                    assert(items@.take(i + 1).drop_last() =~= items@.take(i as int));
                    if i > 0 {
                        push_str(out, ", ");
                        proof { reveal_strlit(", "); }
                    } else {
                        assert(items@.take(0) =~= Seq::<Value>::empty());
                    }
                    proof { lemma_item_decreases(*self, i as int); }
                    items[i].write_to(out);
                    i = i + 1;
                }
                assert(items@.take(items@.len() as int) =~= items@);
                push_char(out, ']');
            },
            Value::Object(members) => {
                let ghost start = out@;
                push_char(out, '{');
                let mut i: usize = 0;
                while i < members.len()
                    invariant
                        i <= members@.len(),
                        *self == Value::Object(*members),
                        out@ == start + seq!['{'] + render_members(members@.take(i as int), true),
                    decreases members@.len() - i,
                {
                    assert(members@.take(i + 1).drop_last() =~= members@.take(i as int));
                    if i > 0 {
                        push_str(out, ", ");
                        proof { reveal_strlit(", "); }
                    } else {
                        assert(members@.take(0) =~= Seq::<(String, Value)>::empty());
                    }
                    let key = chars_of(members[i].0.as_str());
                    write_escaped(out, &key);
                    push_str(out, ": ");
                    proof { reveal_strlit(": "); }
                    proof { lemma_member_decreases(*self, i as int); }
                    members[i].1.write_to(out);
                    proof {
                        let m = members@[i as int];
                        assert(members@.take(i + 1).last() == m);
                        assert(render_member(m, true) == spec_quote(m.0@) + seq![':', ' '] + render(
                            m.1,
                        ));
                        if i > 0 {
                            assert(render_members(members@.take(i + 1), true) == render_members(
                                members@.take(i as int),
                                true,
                            ) + seq![',', ' '] + render_member(m, true));
                        } else {
                            assert(members@.take(1) =~= seq![m]);
                        }
                    }
                    i = i + 1;
                }
                assert(members@.take(members@.len() as int) =~= members@);
                push_char(out, '}');
            },
        }
    }

    /// Renders this value as canonical compact JSON.
    pub fn to_json_string(&self) -> (r: String)
        ensures
            r@ == render(*self),
    {
        let mut out = String::new();
        self.write_to(&mut out);
        out
    }
}

} // verus!
