//! Character classification shared by the lexer, the parser, and the extractor.
//!
//! Each predicate has a spec function stating the set it recognizes and an
//! executable function proved equal to it.
use vstd::prelude::*;

verus! {

/// ASCII whitespace that JSON itself allows between tokens.
pub open spec fn spec_is_json_ws(c: char) -> bool {
    c == ' ' || c == '\n' || c == '\r' || c == '\t'
}

/// ASCII whitespace that JSON itself allows between tokens.
pub fn is_json_ws(c: char) -> (r: bool)
    ensures
        r == spec_is_json_ws(c),
{
    c == ' ' || c == '\n' || c == '\r' || c == '\t'
}

/// Unicode whitespace that JSON does not allow but documents routinely contain.
pub open spec fn spec_is_special_ws(c: char) -> bool {
    let u = c as u32;
    u == 0x00A0 || u == 0x180E || (0x2000 <= u && u <= 0x200B) || u == 0x202F || u == 0x205F
        || u == 0x3000 || u == 0xFEFF
}

/// Unicode whitespace that JSON does not allow but documents routinely contain.
pub fn is_special_ws(c: char) -> (r: bool)
    ensures
        r == spec_is_special_ws(c),
{
    let u = c as u32;
    u == 0x00A0 || u == 0x180E || (0x2000 <= u && u <= 0x200B) || u == 0x202F || u == 0x205F
        || u == 0x3000 || u == 0xFEFF
}

/// Any whitespace the lexer skips: ASCII whitespace plus special whitespace.
pub open spec fn spec_is_ws(c: char) -> bool {
    spec_is_json_ws(c) || spec_is_special_ws(c)
}

/// Any whitespace the lexer skips: ASCII whitespace plus special whitespace.
pub fn is_ws(c: char) -> (r: bool)
    ensures
        r == spec_is_ws(c),
{
    is_json_ws(c) || is_special_ws(c)
}

/// The Unicode `White_Space` property (what `char::is_whitespace` tests).
pub open spec fn spec_is_unicode_ws(c: char) -> bool {
    let u = c as u32;
    (0x09 <= u && u <= 0x0D) || u == 0x20 || u == 0x85 || u == 0xA0 || u == 0x1680 || (0x2000
        <= u && u <= 0x200A) || u == 0x2028 || u == 0x2029 || u == 0x202F || u == 0x205F || u
        == 0x3000
}

/// The Unicode `White_Space` property (what `char::is_whitespace` tests).
pub fn is_unicode_ws(c: char) -> (r: bool)
    ensures
        r == spec_is_unicode_ws(c),
{
    let u = c as u32;
    (0x09 <= u && u <= 0x0D) || u == 0x20 || u == 0x85 || u == 0xA0 || u == 0x1680 || (0x2000
        <= u && u <= 0x200A) || u == 0x2028 || u == 0x2029 || u == 0x202F || u == 0x205F || u
        == 0x3000
}

/// Double-quote-like characters: `"` and the typographic variants.
pub open spec fn spec_is_double_quote(c: char) -> bool {
    let u = c as u32;
    c == '"' || u == 0x201C || u == 0x201D || u == 0x201E || u == 0x201F
}

/// Double-quote-like characters: `"` and the typographic variants.
pub fn is_double_quote(c: char) -> (r: bool)
    ensures
        r == spec_is_double_quote(c),
{
    let u = c as u32;
    c == '"' || u == 0x201C || u == 0x201D || u == 0x201E || u == 0x201F
}

/// Single-quote-like characters: `'`, the typographic variants, and the
/// non-normalized left/right quotes U+0060 and U+00B4.
pub open spec fn spec_is_single_quote(c: char) -> bool {
    let u = c as u32;
    c == '\'' || u == 0x2018 || u == 0x2019 || u == 0x201A || u == 0x201B || u == 0x0060 || u
        == 0x00B4
}

/// Single-quote-like characters: `'`, the typographic variants, and the
/// non-normalized left/right quotes U+0060 and U+00B4.
pub fn is_single_quote(c: char) -> (r: bool)
    ensures
        r == spec_is_single_quote(c),
{
    let u = c as u32;
    c == '\'' || u == 0x2018 || u == 0x2019 || u == 0x201A || u == 0x201B || u == 0x0060 || u
        == 0x00B4
}

/// Whether the character can open or close a string.
pub open spec fn spec_is_quote(c: char) -> bool {
    spec_is_double_quote(c) || spec_is_single_quote(c)
}

/// Whether the character can open or close a string.
pub fn is_quote(c: char) -> (r: bool)
    ensures
        r == spec_is_quote(c),
{
    is_double_quote(c) || is_single_quote(c)
}

/// Characters that may follow a closing quote.
pub open spec fn spec_is_delimiter(c: char) -> bool {
    c == ',' || c == ':' || c == '[' || c == ']' || c == '/' || c == '{' || c == '}' || c == '('
        || c == ')' || c == '\n' || c == '+'
}

/// Characters that may follow a closing quote.
pub fn is_delimiter(c: char) -> (r: bool)
    ensures
        r == spec_is_delimiter(c),
{
    c == ',' || c == ':' || c == '[' || c == ']' || c == '/' || c == '{' || c == '}' || c == '('
        || c == ')' || c == '\n' || c == '+'
}

/// Characters that terminate an unquoted word (`:` is not one of them: it ends
/// a key but may appear inside a bare value such as a URL).
pub open spec fn spec_is_unquoted_delimiter(c: char) -> bool {
    c == ',' || c == '[' || c == ']' || c == '/' || c == '{' || c == '}' || c == '\n' || c == '+'
}

/// Characters that terminate an unquoted word.
pub fn is_unquoted_delimiter(c: char) -> (r: bool)
    ensures
        r == spec_is_unquoted_delimiter(c),
{
    c == ',' || c == '[' || c == ']' || c == '/' || c == '{' || c == '}' || c == '\n' || c == '+'
}

/// ASCII letters and digits.
pub open spec fn spec_is_ascii_alphanumeric(c: char) -> bool {
    ('a' <= c && c <= 'z') || ('A' <= c && c <= 'Z') || ('0' <= c && c <= '9')
}

/// ASCII letters and digits.
pub fn is_ascii_alphanumeric(c: char) -> (r: bool)
    ensures
        r == spec_is_ascii_alphanumeric(c),
{
    ('a' <= c && c <= 'z') || ('A' <= c && c <= 'Z') || ('0' <= c && c <= '9')
}

/// ASCII decimal digits.
pub open spec fn spec_is_digit(c: char) -> bool {
    '0' <= c && c <= '9'
}

/// ASCII decimal digits.
pub fn is_digit(c: char) -> (r: bool)
    ensures
        r == spec_is_digit(c),
{
    '0' <= c && c <= '9'
}

/// Whether the character can continue a function name.
pub open spec fn spec_is_func_name_char(c: char) -> bool {
    spec_is_ascii_alphanumeric(c) || c == '_' || c == '$'
}

/// Whether the character can continue a function name.
pub fn is_func_name_char(c: char) -> (r: bool)
    ensures
        r == spec_is_func_name_char(c),
{
    is_ascii_alphanumeric(c) || c == '_' || c == '$'
}

/// Characters allowed in the tail of a URL.
pub open spec fn spec_is_url_char(c: char) -> bool {
    spec_is_ascii_alphanumeric(c) || c == '-' || c == '.' || c == '_' || c == '~' || c == ':' || c
        == '/' || c == '?' || c == '#' || c == '@' || c == '!' || c == '$' || c == '&' || c
        == '\'' || c == '(' || c == ')' || c == '*' || c == '+' || c == ';' || c == '='
}

/// Characters allowed in the tail of a URL.
pub fn is_url_char(c: char) -> (r: bool)
    ensures
        r == spec_is_url_char(c),
{
    is_ascii_alphanumeric(c) || c == '-' || c == '.' || c == '_' || c == '~' || c == ':' || c
        == '/' || c == '?' || c == '#' || c == '@' || c == '!' || c == '$' || c == '&' || c
        == '\'' || c == '(' || c == ')' || c == '*' || c == '+' || c == ';' || c == '='
}

/// Whether `s[start..end]` equals the literal `lit`.
pub fn span_eq(s: &[char], start: usize, end: usize, lit: &[char]) -> (r: bool)
    requires
        start <= end <= s@.len(),
    ensures
        r == (s@.subrange(start as int, end as int) == lit@),
{
    if end - start != lit.len() {
        return false;
    }
    let mut i: usize = 0;
    while i < lit.len()
        invariant
            i <= lit@.len(),
            end - start == lit@.len(),
            start <= end <= s@.len(),
            forall|j: int| 0 <= j < i ==> s@[start + j] == lit@[j],
        decreases lit@.len() - i,
    {
        if s[start + i] != lit[i] {
            assert(s@.subrange(start as int, end as int)[i as int] != lit@[i as int]);
            return false;
        }
        i = i + 1;
    }
    assert(s@.subrange(start as int, end as int) =~= lit@);
    true
}

/// Whether `s[start..]` begins with the literal `lit`.
pub open spec fn spec_starts_with(s: Seq<char>, start: int, lit: Seq<char>) -> bool {
    0 <= start && start + lit.len() <= s.len() && s.subrange(start, start + lit.len()) == lit
}

/// Whether `s[start..]` begins with the literal `lit`.
pub fn starts_with_at(s: &[char], start: usize, lit: &[char]) -> (r: bool)
    requires
        start <= s@.len(),
    ensures
        r == spec_starts_with(s@, start as int, lit@),
{
    if s.len() - start < lit.len() {
        return false;
    }
    span_eq(s, start, start + lit.len(), lit)
}

/// The URL schemes that start an unquoted URL.
pub open spec fn spec_is_url_scheme(span: Seq<char>) -> bool {
    span == seq!['h', 't', 't', 'p', ':'] || span == seq!['h', 't', 't', 'p', 's', ':'] || span
        == seq!['f', 't', 'p', ':'] || span == seq!['m', 'a', 'i', 'l', 't', 'o', ':'] || span
        == seq!['f', 'i', 'l', 'e', ':'] || span == seq!['d', 'a', 't', 'a', ':'] || span
        == seq!['i', 'r', 'c', ':']
}

/// Whether `s[start..end]` is one of the URL schemes that start a URL (`https:`).
pub fn is_url_scheme(s: &[char], start: usize, end: usize) -> (r: bool)
    requires
        start <= end <= s@.len(),
    ensures
        r == spec_is_url_scheme(s@.subrange(start as int, end as int)),
{
    let a: [char; 5] = ['h', 't', 't', 'p', ':'];
    let b: [char; 6] = ['h', 't', 't', 'p', 's', ':'];
    let c: [char; 4] = ['f', 't', 'p', ':'];
    let d: [char; 7] = ['m', 'a', 'i', 'l', 't', 'o', ':'];
    let e: [char; 5] = ['f', 'i', 'l', 'e', ':'];
    let f: [char; 5] = ['d', 'a', 't', 'a', ':'];
    let g: [char; 4] = ['i', 'r', 'c', ':'];
    let r = span_eq(s, start, end, &a) || span_eq(s, start, end, &b) || span_eq(s, start, end, &c)
        || span_eq(s, start, end, &d) || span_eq(s, start, end, &e) || span_eq(s, start, end, &f)
        || span_eq(s, start, end, &g);
    proof {
        assert(a@ =~= seq!['h', 't', 't', 'p', ':']);
        assert(b@ =~= seq!['h', 't', 't', 'p', 's', ':']);
        assert(c@ =~= seq!['f', 't', 'p', ':']);
        assert(d@ =~= seq!['m', 'a', 'i', 'l', 't', 'o', ':']);
        assert(e@ =~= seq!['f', 'i', 'l', 'e', ':']);
        assert(f@ =~= seq!['d', 'a', 't', 'a', ':']);
        assert(g@ =~= seq!['i', 'r', 'c', ':']);
    }
    r
}

/// The value of a hexadecimal digit.
pub open spec fn spec_hex_value(c: char) -> Option<u32> {
    if '0' <= c && c <= '9' {
        Some((c as u32 - '0' as u32) as u32)
    } else if 'a' <= c && c <= 'f' {
        Some((c as u32 - 'a' as u32 + 10) as u32)
    } else if 'A' <= c && c <= 'F' {
        Some((c as u32 - 'A' as u32 + 10) as u32)
    } else {
        None
    }
}

/// Decodes a hexadecimal digit.
pub fn hex_value(c: char) -> (r: Option<u32>)
    ensures
        r == spec_hex_value(c),
        r matches Some(v) ==> v < 16,
{
    if '0' <= c && c <= '9' {
        Some(c as u32 - '0' as u32)
    } else if 'a' <= c && c <= 'f' {
        Some(c as u32 - 'a' as u32 + 10)
    } else if 'A' <= c && c <= 'F' {
        Some(c as u32 - 'A' as u32 + 10)
    } else {
        None
    }
}

/// The value of a digit in base 10 or 16.
pub open spec fn spec_digit_in(c: char, radix: u32) -> Option<u32> {
    if radix == 16 {
        spec_hex_value(c)
    } else if '0' <= c && c <= '9' {
        Some((c as u32 - '0' as u32) as u32)
    } else {
        None
    }
}

/// Unsigned integer parse with an optional leading `+` (what
/// `u32::from_str_radix` accepts), `None` on a bad digit or overflow.
pub open spec fn spec_parse_radix(s: Seq<char>, radix: u32) -> Option<u32> {
    let digits = spec_strip_plus(s);
    if digits.len() == 0 {
        None
    } else {
        match spec_digits_value(digits, radix) {
            Some(v) => if v <= u32::MAX {
                Some(v as u32)
            } else {
                None
            },
            None => None,
        }
    }
}

/// `s` without one leading `+`.
pub open spec fn spec_strip_plus(s: Seq<char>) -> Seq<char> {
    if s.len() > 0 && s[0] == '+' {
        s.subrange(1, s.len() as int)
    } else {
        s
    }
}

/// The value of a digit string, `None` when any digit is invalid.
pub open spec fn spec_digits_value(s: Seq<char>, radix: u32) -> Option<nat>
    decreases s.len(),
{
    if s.len() == 0 {
        Some(0)
    } else {
        match (spec_digits_value(s.drop_last(), radix), spec_digit_in(s.last(), radix)) {
            (Some(v), Some(d)) => Some((v * radix + d) as nat),
            _ => None,
        }
    }
}

proof fn lemma_digits_value_mono(s: Seq<char>, radix: u32)
    requires
        radix == 10 || radix == 16,
        s.len() > 0,
        spec_digits_value(s, radix) is Some,
    ensures
        spec_digits_value(s.drop_last(), radix) is Some,
        spec_digits_value(s.drop_last(), radix).unwrap() <= spec_digits_value(s, radix).unwrap(),
{
}

proof fn lemma_digits_value_prefix_mono(s: Seq<char>, i: int, radix: u32)
    requires
        radix == 10 || radix == 16,
        0 <= i <= s.len(),
        spec_digits_value(s, radix) is Some,
    ensures
        spec_digits_value(s.subrange(0, i), radix) is Some,
        spec_digits_value(s.subrange(0, i), radix).unwrap() <= spec_digits_value(s, radix).unwrap(),
    decreases s.len() - i,
{
    if i < s.len() {
        lemma_digits_value_mono(s, radix);
        assert(s.drop_last() =~= s.subrange(0, s.len() - 1));
        lemma_digits_value_prefix_mono(s.drop_last(), i, radix);
        assert(s.drop_last().subrange(0, i) =~= s.subrange(0, i));
    } else {
        assert(s.subrange(0, i) =~= s);
    }
}

/// Parses `s[start..end]` as an unsigned integer in `radix` (10 or 16), with an
/// optional leading `+`, rejecting bad digits and `u32` overflow.
pub fn parse_radix(s: &[char], start: usize, end: usize, radix: u32) -> (r: Option<u32>)
    requires
        start <= end <= s@.len(),
        radix == 10 || radix == 16,
    ensures
        r == spec_parse_radix(s@.subrange(start as int, end as int), radix),
{
    let ghost whole = s@.subrange(start as int, end as int);
    let mut i = start;
    if i < end && s[i] == '+' {
        i = i + 1;
    }
    let ghost digits = s@.subrange(i as int, end as int);
    proof {
        if whole.len() > 0 && whole[0] == '+' {
            assert(digits =~= whole.subrange(1, whole.len() as int));
        } else {
            assert(digits =~= whole);
        }
    }
    if i == end {
        return None;
    }
    let digit_start = i;
    let mut acc: u32 = 0;
    let mut overflow = false;
    while i < end
        invariant
            digit_start <= i <= end <= s@.len(),
            radix == 10 || radix == 16,
            digits == s@.subrange(digit_start as int, end as int),
            digits == spec_strip_plus(whole),
            whole == s@.subrange(start as int, end as int),
            digits.len() > 0,
            !overflow ==> spec_digits_value(s@.subrange(digit_start as int, i as int), radix)
                == Some(acc as nat),
            overflow ==> (spec_digits_value(s@.subrange(digit_start as int, i as int), radix)
                is Some ==> spec_digits_value(
                s@.subrange(digit_start as int, i as int),
                radix,
            ).unwrap() > u32::MAX),
        decreases end - i,
    {
        let ghost prefix = s@.subrange(digit_start as int, i as int);
        let ghost next = s@.subrange(digit_start as int, i + 1);
        assert(next.drop_last() =~= prefix);
        assert(next.last() == s@[i as int]);
        let d = if radix == 16 {
            hex_value(s[i])
        } else if is_digit(s[i]) {
            Some(s[i] as u32 - '0' as u32)
        } else {
            None
        };
        match d {
            None => {
                proof {
                    assert(spec_digit_in(next.last(), radix) is None);
                    assert(spec_digits_value(next, radix) is None);
                    if spec_digits_value(digits, radix) is Some {
                        assert(digits.subrange(0, i + 1 - digit_start) =~= next);
                        lemma_digits_value_prefix_mono(digits, i + 1 - digit_start, radix);
                    }
                    assert(spec_digits_value(digits, radix) is None);
                    assert(digits.len() > 0);
                }
                return None;
            },
            Some(d) => {
                if !overflow {
                    if acc <= (u32::MAX - d) / radix {
                        proof {
                            assert(acc * radix + d <= u32::MAX) by (nonlinear_arith)
                                requires
                                    acc <= (u32::MAX - d) as int / radix as int,
                                    radix == 10 || radix == 16,
                                    d < 16,
                            ;
                        }
                        acc = acc * radix + d;
                    } else {
                        proof {
                            assert(acc * radix + d > u32::MAX) by (nonlinear_arith)
                                requires
                                    acc > (u32::MAX - d) as int / radix as int,
                                    radix == 10 || radix == 16,
                                    d < 16,
                            ;
                        }
                        overflow = true;
                    }
                } else {
                    proof {
                        if spec_digits_value(next, radix) is Some {
                            let pv = spec_digits_value(prefix, radix).unwrap();
                            assert(pv * radix + d >= pv) by (nonlinear_arith)
                                requires
                                    radix == 10 || radix == 16,
                            ;
                        }
                    }
                }
            },
        }
        i = i + 1;
    }
    assert(s@.subrange(digit_start as int, end as int) =~= digits);
    if overflow {
        None
    } else {
        Some(acc)
    }
}

/// The `char` with the given code point, when it is a Unicode scalar value.
pub open spec fn spec_char_from_u32(code: u32) -> Option<char> {
    if code <= 0xD7FF || (0xE000 <= code && code <= 0x10FFFF) {
        Some(code as char)
    } else {
        None
    }
}

/// The `char` with the given code point (`char::from_u32`).
///
/// `char::from_u32` returns `Some` exactly for Unicode scalar values (not a
/// surrogate, at most U+10FFFF), holding the character with that code point;
/// this is what the contract states.
#[verifier::external_body]
pub fn char_from_u32(code: u32) -> (r: Option<char>)
    ensures
        r == spec_char_from_u32(code),
{
    char::from_u32(code)
}

/// The named HTML entities that are decoded, as `(name with & and ;, char)`.
pub open spec fn spec_named_entity(entity: Seq<char>) -> Option<char> {
    if entity == seq!['&', 'q', 'u', 'o', 't', ';'] {
        Some('"')
    } else if entity == seq!['&', 'a', 'm', 'p', ';'] {
        Some('&')
    } else if entity == seq!['&', 'l', 't', ';'] {
        Some('<')
    } else if entity == seq!['&', 'g', 't', ';'] {
        Some('>')
    } else if entity == seq!['&', 'a', 'p', 'o', 's', ';'] {
        Some('\'')
    } else {
        None
    }
}

/// Index of the first `;` at or after `from`, if any.
pub open spec fn spec_first_semi(s: Seq<char>, from: int) -> Option<int> {
    if exists|k: int| from <= k < s.len() && s[k] == ';' {
        Some(
            choose|k: int|
                from <= k < s.len() && s[k] == ';' && forall|j: int| from <= j < k ==> s[j] != ';',
        )
    } else {
        None
    }
}

/// The numeric entity body `#...` (without `&` and `;`) decoded.
pub open spec fn spec_numeric_entity(body: Seq<char>) -> Option<char> {
    if body.len() == 0 || body[0] != '#' {
        None
    } else {
        let rest = body.subrange(1, body.len() as int);
        let hex = rest.len() > 0 && (rest[0] == 'x' || rest[0] == 'X');
        let digits = if hex {
            rest.subrange(1, rest.len() as int)
        } else {
            rest
        };
        if digits.len() == 0 {
            None
        } else {
            match spec_parse_radix(digits, if hex { 16 } else { 10 }) {
                Some(code) => spec_char_from_u32(code),
                None => None,
            }
        }
    }
}

/// A named or numeric HTML entity at `s[at..]`: the decoded character and the
/// number of characters the entity spans (through its `;`).
pub open spec fn spec_html_entity(s: Seq<char>, at: int) -> Option<(char, int)> {
    if at >= s.len() || s[at] != '&' {
        None
    } else {
        match spec_first_semi(s, at) {
            None => None,
            Some(semi) => {
                let entity = s.subrange(at, semi + 1);
                match spec_named_entity(entity) {
                    Some(c) => Some((c, semi + 1 - at)),
                    None => match spec_numeric_entity(s.subrange(at + 1, semi)) {
                        Some(c) => Some((c, semi + 1 - at)),
                        None => None,
                    },
                }
            },
        }
    }
}

/// Decodes a named or numeric HTML entity starting at `s[at]`.
///
/// Returns the decoded character and the number of characters consumed, or
/// `None` when there is no complete entity there.
pub fn decode_html_entity(s: &[char], at: usize) -> (r: Option<(char, usize)>)
    requires
        at <= s@.len(),
    ensures
        r matches Some((c, n)) ==> spec_html_entity(s@, at as int) == Some((c, n as int)),
        r is None ==> spec_html_entity(s@, at as int) is None,
        r matches Some((c, n)) ==> n >= 1 && at + n <= s@.len(),
{
    if at >= s.len() || s[at] != '&' {
        return None;
    }
    let mut k = at;
    while k < s.len() && s[k] != ';'
        invariant
            at <= k <= s@.len(),
            forall|j: int| at <= j < k ==> s@[j] != ';',
        decreases s@.len() - k,
    {
        k = k + 1;
    }
    if k == s.len() {
        assert(!(exists|j: int| at <= j < s@.len() && s@[j] == ';'));
        return None;
    }
    let semi = k;
    proof {
        assert(at <= semi < s@.len() && s@[semi as int] == ';');
        let w = spec_first_semi(s@, at as int);
        assert(w is Some);
        let c = w.unwrap();
        assert(c == semi) by {
            if c < semi {
                assert(s@[c] != ';');
            } else if c > semi {
                assert(s@[semi as int] != ';');
            }
        }
    }
    let quot: [char; 6] = ['&', 'q', 'u', 'o', 't', ';'];
    let amp: [char; 5] = ['&', 'a', 'm', 'p', ';'];
    let lt: [char; 4] = ['&', 'l', 't', ';'];
    let gt: [char; 4] = ['&', 'g', 't', ';'];
    let apos: [char; 6] = ['&', 'a', 'p', 'o', 's', ';'];
    proof {
        assert(quot@ =~= seq!['&', 'q', 'u', 'o', 't', ';']);
        assert(amp@ =~= seq!['&', 'a', 'm', 'p', ';']);
        assert(lt@ =~= seq!['&', 'l', 't', ';']);
        assert(gt@ =~= seq!['&', 'g', 't', ';']);
        assert(apos@ =~= seq!['&', 'a', 'p', 'o', 's', ';']);
    }
    let len = semi + 1 - at;
    if span_eq(s, at, semi + 1, &quot) {
        return Some(('"', len));
    }
    if span_eq(s, at, semi + 1, &amp) {
        return Some(('&', len));
    }
    if span_eq(s, at, semi + 1, &lt) {
        return Some(('<', len));
    }
    if span_eq(s, at, semi + 1, &gt) {
        return Some(('>', len));
    }
    if span_eq(s, at, semi + 1, &apos) {
        return Some(('\'', len));
    }
    let ghost body = s@.subrange(at + 1, semi as int);
    if at + 1 >= semi || s[at + 1] != '#' {
        return None;
    }
    let mut d = at + 2;
    let mut radix: u32 = 10;
    if d < semi && (s[d] == 'x' || s[d] == 'X') {
        d = d + 1;
        radix = 16;
    }
    proof {
        let rest = body.subrange(1, body.len() as int);
        assert(rest =~= s@.subrange(at + 2, semi as int));
        if radix == 16 {
            assert(rest.subrange(1, rest.len() as int) =~= s@.subrange(d as int, semi as int));
        } else {
            assert(rest =~= s@.subrange(d as int, semi as int));
        }
    }
    if d == semi {
        return None;
    }
    match parse_radix(s, d, semi, radix) {
        Some(code) => match char_from_u32(code) {
            Some(c) => Some((c, len)),
            None => None,
        },
        None => None,
    }
}

} // verus!
