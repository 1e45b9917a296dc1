//! A tolerant tokenizer: it never fails on input that a repair pass can fix.
//!
//! Positions are character indices into the source; the public API converts
//! them to byte offsets.
use vstd::prelude::*;
use crate::chars::{
    char_from_u32, decode_html_entity, hex_value, is_delimiter, is_digit, is_double_quote,
    is_func_name_char, is_json_ws, is_quote, is_single_quote, is_special_ws,
    is_unquoted_delimiter, is_url_char, is_url_scheme, is_ws, span_eq, spec_is_digit,
    spec_is_ws, starts_with_at, spec_is_delimiter, spec_is_json_ws, spec_is_special_ws,
    spec_char_from_u32, spec_hex_value, spec_is_double_quote, spec_is_func_name_char,
    spec_is_single_quote, spec_is_quote, spec_is_url_char, spec_is_ascii_alphanumeric,
    spec_is_url_scheme, spec_starts_with, spec_html_entity, spec_is_unquoted_delimiter,
};
use crate::error::{Error, ErrorKind};
use crate::options::{spec_allows, spec_repairs, Allow, Options, Repairs};
use crate::value::{
    all_digits, json_number_parts, spec_escape_body, spec_escape_char, spec_is_json_exp,
    spec_is_json_int, spec_is_json_number, spec_quote, Value,
};

verus! {

/// One lexical unit, tolerant of the mistakes the repair passes handle.
#[derive(Debug)]
pub enum Token {
    OpenBrace,
    CloseBrace,
    OpenBracket,
    CloseBracket,
    Colon,
    Comma,
    Plus,
    Ellipsis,
    OpenParen,
    CloseParen,
    /// A `;`, which appears after JSONP calls and in hand-written data.
    Semicolon,
    /// A string, with typographic quotes normalized and escapes decoded.
    Str { text: Vec<char>, truncated: bool },
    /// A number whose text is already valid JSON.
    Num { text: Vec<char>, truncated: bool },
    Bool(bool),
    Null,
    Undefined,
    /// A bare word: an unquoted key, an unquoted value, or a function name.
    Word { text: Vec<char>, truncated: bool },
}

/// A token together with the position where it starts.
#[derive(Debug)]
pub struct Spanned {
    pub token: Token,
    pub start: usize,
    /// Whether the skipped trivia before this token contained a newline, which
    /// is what separates NDJSON records.
    pub newline_before: bool,
}

#[derive(Debug, Clone, Copy, PartialEq, Eq, Structural)]
pub enum QuoteFamily {
    /// `"` and its typographic variants.
    Double,
    /// `'` and its typographic variants.
    Single,
}

/// A string-opener: the character that opened it plus how many characters it spans.
#[derive(Clone, Copy)]
pub struct Opener {
    pub ch: char,
    pub len: usize,
    pub from_entity: bool,
    pub family: QuoteFamily,
}

impl Opener {
    /// Whether `c` closes a string opened by this opener: the same ASCII
    /// quote, or any quote of the family of a typographic opener.
    pub open spec fn spec_is_end(&self, c: char) -> bool {
        if self.ch == '"' {
            c == '"'
        } else if self.ch == '\'' {
            c == '\''
        } else {
            match self.family {
                QuoteFamily::Double => spec_is_double_quote(c),
                QuoteFamily::Single => spec_is_single_quote(c),
            }
        }
    }

    /// Whether `c` closes a string opened by this opener.
    pub fn is_end(&self, c: char) -> (r: bool)
        ensures
            self.ch == '"' ==> r == (c == '"'),
            r == self.spec_is_end(c),
    {
        if self.ch == '"' {
            c == '"'
        } else if self.ch == '\'' {
            c == '\''
        } else {
            match self.family {
                QuoteFamily::Double => is_double_quote(c),
                QuoteFamily::Single => is_single_quote(c),
            }
        }
    }
}

/// The quote family of an opening quote character.
pub open spec fn spec_quote_family(c: char) -> QuoteFamily {
    if c == '\'' || spec_is_single_quote(c) {
        QuoteFamily::Single
    } else {
        QuoteFamily::Double
    }
}

/// `r`, read up to `end`, is what scanning the string opened by `op`
/// whose content starts at `start` yields: a string token with the text
/// of the finished scan, or its error.
pub open spec fn string_scanned(
    s: Seq<char>,
    opts: Options,
    op: Opener,
    ic: bool,
    start: int,
    r: Result<Token, Error>,
    end: int,
) -> bool {
    match spec_str_run(
        s,
        opts,
        op,
        ic,
        start,
        str_state(start as usize, start as usize, false, Seq::empty(), false, false, false, 0, false),
    ) {
        StrStep::Done(st) => r matches Ok(Token::Str { text, truncated }) && text@ == spec_str_text(
            s,
            start,
            st,
        ) && truncated == st.truncated && end == st.pos,
        StrStep::Fail(k, p) => r matches Err(e) && e.spec_kind() == k && e.spec_position() == p,
        StrStep::Continue(_) => false,
    }
}

/// The token of a lexer result, when it has one.
pub open spec fn token_result(r: Result<Option<Spanned>, Error>) -> Result<Token, Error> {
    match r {
        Ok(Some(sp)) => Ok(sp.token),
        Ok(None) => Ok(Token::Null),
        Err(e) => Err(e),
    }
}

/// `r`, read up to `end`, is what scanning the string that the quote at `q`
/// opens yields.
pub open spec fn quote_scanned(
    s: Seq<char>,
    opts: Options,
    ic: bool,
    q: int,
    r: Result<Option<Spanned>, Error>,
    end: int,
) -> bool {
    let op = Opener { ch: s[q], len: 1, from_entity: false, family: spec_quote_family(s[q]) };
    !(r matches Ok(None)) && string_scanned(s, opts, op, ic, q + 1, token_result(r), end)
}

/// The quote family of an opening quote character.
pub fn quote_family(c: char) -> (r: QuoteFamily)
    ensures
        r == spec_quote_family(c),
{
    if c == '\'' || is_single_quote(c) {
        QuoteFamily::Single
    } else {
        QuoteFamily::Double
    }
}

/// A copy of `src[a..b]`.
pub fn copy_span(src: &[char], a: usize, b: usize) -> (r: Vec<char>)
    requires
        a <= b <= src@.len(),
    ensures
        r@ == src@.subrange(a as int, b as int),
{
    let mut v: Vec<char> = Vec::new();
    let mut i = a;
    while i < b
        invariant
            a <= i <= b <= src@.len(),
            v@ == src@.subrange(a as int, i as int),
        decreases b - i,
    {
        v.push(src[i]);
        i = i + 1;
        assert(v@ =~= src@.subrange(a as int, i as int));
    }
    v
}

/// Appends `src[a..b]` to `v`.
pub fn extend_span(v: &mut Vec<char>, src: &[char], a: usize, b: usize)
    requires
        a <= b <= src@.len(),
    ensures
        final(v)@ == old(v)@ + src@.subrange(a as int, b as int),
{
    let mut i = a;
    while i < b
        invariant
            a <= i <= b <= src@.len(),
            v@ == old(v)@ + src@.subrange(a as int, i as int),
        decreases b - i,
    {
        v.push(src[i]);
        i = i + 1;
        assert(v@ =~= old(v)@ + src@.subrange(a as int, i as int));
    }
}

/// Whether the characters of `v` equal `lit`.
pub fn vec_eq_lit(v: &[char], lit: &[char]) -> (r: bool)
    ensures
        r == (v@ == lit@),
{
    let r = span_eq(v, 0, v.len(), lit);
    proof {
        assert(v@.subrange(0, v@.len() as int) =~= v@);
    }
    r
}

/// Whether `v` is a prefix of `lit`.
pub fn is_prefix_of_lit(v: &[char], lit: &[char]) -> (r: bool)
    ensures
        r == (v@.len() <= lit@.len() && lit@.subrange(0, v@.len() as int) == v@),
{
    if v.len() > lit.len() {
        return false;
    }
    let r = span_eq(lit, 0, v.len(), v);
    r
}

/// Whether the character at `idx` is preceded by an odd run of backslashes,
/// i.e. `\,` is an escaped comma but `",` is not.
pub fn escaped_at(src: &[char], idx: usize) -> (r: bool)
    requires
        idx <= src@.len(),
    ensures
        r == (crate::spec_backslash_run(src@, idx as int) % 2 == 1),
{
    let mut count: usize = 0;
    let mut i = idx;
    while i > 0 && src[i - 1] == '\\'
        invariant
            i <= idx <= src@.len(),
            count == idx - i,
            crate::spec_backslash_run(src@, idx as int) == count + crate::spec_backslash_run(
                src@,
                i as int,
            ),
        decreases i,
    {
        count = count + 1;
        i = i - 1;
    }
    count % 2 == 1
}

/// How many times `c` occurs in `s`.
pub open spec fn spec_count(s: Seq<char>, c: char) -> nat
    decreases s.len(),
{
    if s.len() == 0 {
        0
    } else {
        spec_count(s.drop_last(), c) + if s.last() == c {
            1nat
        } else {
            0nat
        }
    }
}

/// The bracket that `close` closes, if it closes one.
pub open spec fn spec_opener_of(close: char) -> Option<char> {
    if close == ')' {
        Some('(')
    } else if close == ']' {
        Some('[')
    } else if close == '}' {
        Some('{')
    } else {
        None
    }
}

/// Whether `content` holds more opening than closing copies of the bracket
/// that `close` would close.
pub fn is_inside_unclosed_bracket(content: &[char], close: char) -> (r: bool)
    ensures
        r == (spec_opener_of(close) matches Some(open) && spec_count(content@, open) > spec_count(
            content@,
            close,
        )),
{
    let open = if close == ')' {
        '('
    } else if close == ']' {
        '['
    } else if close == '}' {
        '{'
    } else {
        return false;
    };
    let mut opens: usize = 0;
    let mut closes: usize = 0;
    let mut i: usize = 0;
    while i < content.len()
        invariant
            i <= content@.len(),
            opens <= i,
            closes <= i,
            open != close,
            opens == spec_count(content@.take(i as int), open),
            closes == spec_count(content@.take(i as int), close),
        decreases content@.len() - i,
    {
        assert(content@.take(i + 1).drop_last() =~= content@.take(i as int));
        if content[i] == open {
            opens = opens + 1;
        } else if content[i] == close {
            closes = closes + 1;
        }
        i = i + 1;
    }
    assert(content@.take(content@.len() as int) =~= content@);
    opens > closes
}

/// Appends the character with code point `code`, or U+FFFD when `code` is
/// not a Unicode scalar value.
pub fn push_code(text: &mut Vec<char>, code: u32)
    ensures
        final(text)@ == old(text)@.push(spec_code_char(code)),
{
    let c = match char_from_u32(code) {
        Some(c) => c,
        None => '\u{FFFD}',
    };
    text.push(c);
}

/// The character with code point `code`, or U+FFFD when `code` is not a
/// Unicode scalar value.
pub open spec fn spec_code_char(code: u32) -> char {
    match spec_char_from_u32(code) {
        Some(c) => c,
        None => '\u{FFFD}',
    }
}

/// The value of a hexadecimal digit, 0 for any other character.
pub open spec fn spec_hex_nat(c: char) -> nat {
    match spec_hex_value(c) {
        Some(v) => v as nat,
        None => 0,
    }
}

/// Whether `src[p..p + k]` are all hexadecimal digits.
pub open spec fn spec_all_hex(src: Seq<char>, p: int, k: int) -> bool {
    0 <= p && p + k <= src.len() && forall|j: int| 0 <= j < k ==> (#[trigger] spec_hex_value(src[p + j])) is Some
}

/// The value of the hexadecimal digits `src[p..p + k]`, most significant first.
pub open spec fn spec_hex_run_value(src: Seq<char>, p: int, k: nat) -> nat
    decreases k,
{
    if k == 0 {
        0
    } else {
        16 * spec_hex_run_value(src, p, (k - 1) as nat) + spec_hex_nat(src[p + k - 1])
    }
}

/// The code of four hexadecimal digits at `p`, if there are four.
pub open spec fn spec_hex4(src: Seq<char>, p: int) -> Option<u32> {
    if spec_all_hex(src, p, 4) {
        Some(spec_hex_run_value(src, p, 4) as u32)
    } else {
        None
    }
}

/// What `\u` followed by the text at `p` decodes to: the outcome (`0`
/// decoded, `1` the string ends at a truncated escape, `2` an invalid escape
/// error), the position after it, and the text with the decoded character.
pub open spec fn spec_unicode_step(src: Seq<char>, p: int, strict: bool, text: Seq<char>) -> (
    int,
    int,
    Seq<char>,
) {
    match spec_hex4(src, p) {
        Some(code) => {
            if 0xD800 <= code <= 0xDBFF && crate::chars::spec_starts_with(src, p + 4, seq!['\\', 'u'])
                && spec_hex4(src, p + 6) is Some && 0xDC00 <= spec_hex4(src, p + 6)->0 <= 0xDFFF {
                let low = spec_hex4(src, p + 6)->0;
                (0, p + 10, text.push(spec_code_char((0x10000 + (code - 0xD800) * 1024 + (low
                    - 0xDC00)) as u32)))
            } else {
                (0, p + 4, text.push(spec_code_char(code)))
            }
        },
        None => {
            if strict {
                (2, p, text)
            } else if src.len() - p < 4 && spec_all_hex(src, p, src.len() - p) {
                (1, p, text)
            } else {
                (0, p, text.push('u'))
            }
        },
    }
}

/// The character a one-letter escape `\x` decodes to (other than `\u`
/// and `\x`): the control characters of `\b \f \n \r \t`, otherwise the letter
/// itself.
pub open spec fn spec_simple_escape(x: char) -> char {
    if x == 'b' {
        '\u{08}'
    } else if x == 'f' {
        '\u{0C}'
    } else if x == 'n' {
        '\n'
    } else if x == 'r' {
        '\r'
    } else if x == 't' {
        '\t'
    } else {
        x
    }
}

/// The tolerant lexer over a source held as characters.
pub struct Lexer<'a> {
    pub src: &'a [char],
    pub pos: usize,
    pub opts: Options,
    /// Whether an object/array/group frame is open around the current parse
    /// position; it gates the top-level-only unclosed-bracket end-quote test.
    pub in_container: bool,
}

impl<'a> Lexer<'a> {
    /// Well-formedness: the cursor stays inside the source.
    pub open spec fn wf(&self) -> bool {
        &&& self.pos <= self.src@.len()
        &&& self.src@.len() <= usize::MAX
    }

    pub fn new(src: &'a [char], opts: Options) -> (r: Self)
        ensures
            r.wf(),
            r.src == src,
            r.pos == 0,
            r.opts == opts,
    {
        let _ = src.len();
        Lexer { src, pos: 0, opts, in_container: false }
    }

    /// Syncs the container flag with the parser's nesting.
    pub fn set_in_container(&mut self, in_container: bool)
        ensures
            final(self).src == old(self).src,
            final(self).pos == old(self).pos,
            final(self).opts == old(self).opts,
            final(self).in_container == in_container,
    {
        self.in_container = in_container;
    }

    /// Position of the next unread character.
    pub fn pos(&self) -> (r: usize)
        ensures
            r == self.pos,
    {
        self.pos
    }

    /// Whether the whole input has been consumed.
    pub fn at_end(&self) -> (r: bool)
        requires
            self.wf(),
        ensures
            r == (self.pos == self.src@.len()),
    {
        self.pos >= self.src.len()
    }

    /// Whether nothing but whitespace remains after the cursor.
    pub fn at_effective_end(&self) -> (r: bool)
        requires
            self.wf(),
        ensures
            r == forall|j: int| self.pos <= j < self.src@.len() ==> spec_is_ws(self.src@[j]),
    {
        let mut i = self.pos;
        while i < self.src.len()
            invariant
                self.pos <= i <= self.src@.len(),
                forall|j: int| self.pos <= j < i ==> spec_is_ws(self.src@[j]),
            decreases self.src@.len() - i,
        {
            if !is_ws(self.src[i]) {
                return false;
            }
            i = i + 1;
        }
        true
    }

    /// The character under the cursor.
    pub fn peek_char(&self) -> (r: Option<char>)
        requires
            self.wf(),
        ensures
            self.pos < self.src@.len() ==> r == Some(self.src@[self.pos as int]),
            self.pos >= self.src@.len() ==> r is None,
    {
        if self.pos < self.src.len() {
            Some(self.src[self.pos])
        } else {
            None
        }
    }

    /// The character after the one under the cursor.
    pub fn peek_second(&self) -> (r: Option<char>)
        requires
            self.wf(),
        ensures
            self.pos + 1 < self.src@.len() ==> r == Some(self.src@[self.pos + 1]),
            self.pos + 1 >= self.src@.len() ==> r is None,
    {
        if self.src.len() - self.pos > 1 {
            Some(self.src[self.pos + 1])
        } else {
            None
        }
    }

    /// Consumes one character.
    pub fn bump_char(&mut self) -> (r: Option<char>)
        requires
            old(self).wf(),
        ensures
            final(self).wf(),
            final(self).src == old(self).src,
            final(self).opts == old(self).opts,
            final(self).in_container == old(self).in_container,
            old(self).pos < old(self).src@.len() ==> final(self).pos == old(self).pos + 1 && r
                == Some(old(self).src@[old(self).pos as int]),
            old(self).pos >= old(self).src@.len() ==> final(self).pos == old(self).pos && r
                is None,
    {
        if self.pos < self.src.len() {
            let c = self.src[self.pos];
            self.pos = self.pos + 1;
            Some(c)
        } else {
            None
        }
    }

    /// Whether the rest of the input starts with `lit`.
    pub fn rest_starts_with(&self, lit: &[char]) -> (r: bool)
        requires
            self.wf(),
        ensures
            r == crate::chars::spec_starts_with(self.src@, self.pos as int, lit@),
    {
        starts_with_at(self.src, self.pos, lit)
    }

    /// Whether every repair pass is disabled.
    pub fn strict(&self) -> (r: bool)
        ensures
            r == (self.opts.repairs@ == 0),
    {
        self.opts.repairs.bits() == 0
    }
}

/// Whether position `pos` of `src` ends a number: end of input, a
/// delimiter, or whitespace.
pub open spec fn spec_at_end_of_number(src: Seq<char>, pos: int) -> bool {
    pos >= src.len() || spec_is_delimiter(src[pos]) || spec_is_ws(src[pos])
}

/// A token whose number text, if it is a number, is in the JSON grammar.
pub open spec fn token_ok(t: Token) -> bool {
    t matches Token::Num { text, .. } ==> spec_is_json_number(text@)
}

/// Whether `skip_ws_only` skips `c` under `opts`.
pub open spec fn spec_ws_skippable(opts: Options, c: char) -> bool {
    c == ' ' || c == '\t' || c == '\r' || c == '\n' || (c as u32 >= 0x80 && spec_repairs(opts, 512)
        && spec_is_special_ws(c))
}

/// A position where the end-quote lookahead skips nothing: the end of input,
/// or a character that is neither whitespace nor `/`.
pub open spec fn spec_quiet_line(src: Seq<char>, pos: int) -> bool {
    pos >= src.len() || (0 <= pos && !spec_is_json_ws(src[pos]) && !spec_is_special_ws(src[pos])
        && src[pos] != '/')
}

/// A position where trivia skipping stops at once: the end of input, or an
/// ASCII character that is neither whitespace, nor `/`, nor a backtick, and
/// that is not a bracket right before a backtick.
pub open spec fn spec_quiet_at(src: Seq<char>, pos: int) -> bool {
    pos >= src.len() || (0 <= pos && (src[pos] as u32) < 0x80 && !spec_is_json_ws(src[pos])
        && src[pos] != '/' && src[pos] != '`' && ((src[pos] == '[' || src[pos] == '{') ==> (pos
        + 1 >= src.len() || src[pos + 1] != '`')))
}

/// The first position at or after `i` that does not hold an ASCII digit.
pub open spec fn digits_end(s: Seq<char>, i: int) -> int
    decreases s.len() - i,
{
    if i < 0 || i >= s.len() || !spec_is_digit(s[i]) {
        i
    } else {
        digits_end(s, i + 1)
    }
}

proof fn lemma_digits_end(s: Seq<char>, i: int)
    requires
        0 <= i <= s.len(),
    ensures
        i <= digits_end(s, i) <= s.len(),
        forall|k: int| i <= k < digits_end(s, i) ==> spec_is_digit(#[trigger] s[k]),
        digits_end(s, i) < s.len() ==> !spec_is_digit(s[digits_end(s, i)]),
    decreases s.len() - i,
{
    if i < s.len() && spec_is_digit(s[i]) {
        lemma_digits_end(s, i + 1);
    }
}

proof fn lemma_digits_end_exact(s: Seq<char>, i: int, j: int)
    requires
        0 <= i <= j <= s.len(),
        forall|k: int| i <= k < j ==> spec_is_digit(#[trigger] s[k]),
        j == s.len() || !spec_is_digit(s[j]),
    ensures
        digits_end(s, i) == j,
    decreases j - i,
{
    if i < j {
        lemma_digits_end_exact(s, i + 1, j);
    }
}

/// A JSON number followed by the end of input, a delimiter, or ASCII
/// whitespace is a number that needs no repair, and it ends there.
pub proof fn lemma_clean_end_of_number(s: Seq<char>, p: int, e: int)
    requires
        0 <= p < e <= s.len(),
        spec_is_json_number(s.subrange(p, e)),
        e == s.len() || spec_is_delimiter(s[e]) || spec_is_json_ws(s[e]),
    ensures
        spec_clean_number_end(s, p) == Some(e),
{
    let t = s.subrange(p, e);
    let (a, b, c) = choose|a: int, b: int, c: int| json_number_parts(t, a, b, c);
    assert forall|k: int| 0 <= k < t.len() implies #[trigger] t[k] == s[p + k] by {}
    let (aa, bb, cc) = (p + a, p + b, p + c);
    let ip = t.subrange(a, b);
    assert(ip.len() >= 1);
    assert(ip[0] == s[aa]);
    // The character after each part is not a digit.
    assert(bb < e ==> (s[bb] == '.' || s[bb] == 'e' || s[bb] == 'E')) by {
        if bb < e {
            if c > b {
                assert(t[b] == '.');
            } else {
                let x = t.subrange(c, t.len() as int);
                assert(x[0] == t[c]);
            }
        }
    }
    assert(e < s.len() ==> !spec_is_digit(s[e]) && s[e] != '.' && s[e] != 'e' && s[e] != 'E');
    if s[aa] == '0' {
        if ip.len() > 1 {
            assert(!(ip =~= seq!['0']));
        }
        assert(bb == aa + 1);
    } else {
        assert forall|k: int| aa <= k < bb implies spec_is_digit(#[trigger] s[k]) by {
            assert(ip[k - aa] == s[k]);
        }
        lemma_digits_end_exact(s, aa, bb);
    }
    if c > b {
        assert(s[bb] == '.');
        assert forall|k: int| bb + 1 <= k < cc implies spec_is_digit(#[trigger] s[k]) by {
            assert(t.subrange(b + 1, c)[k - bb - 1] == s[k]);
        }
        assert(cc < e ==> s[cc] == 'e' || s[cc] == 'E') by {
            if cc < e {
                let x = t.subrange(c, t.len() as int);
                assert(x[0] == t[c]);
            }
        }
        lemma_digits_end_exact(s, bb + 1, cc);
    } else {
        assert(bb < e ==> s[bb] != '.') by {
            if bb < e {
                let x = t.subrange(c, t.len() as int);
                assert(x[0] == t[c]);
            }
        }
    }
    if cc < e {
        let x = t.subrange(c, t.len() as int);
        assert(x[0] == s[cc]);
        if x.len() >= 3 && (x[1] == '+' || x[1] == '-') && all_digits(
            x.subrange(2, x.len() as int),
        ) {
            assert(x[1] == s[cc + 1]);
            assert forall|k: int| cc + 2 <= k < e implies spec_is_digit(#[trigger] s[k]) by {
                assert(x.subrange(2, x.len() as int)[k - cc - 2] == s[k]);
            }
            lemma_digits_end_exact(s, cc + 2, e);
        } else {
            assert(x.len() >= 2 && all_digits(x.subrange(1, x.len() as int)));
            assert(x.subrange(1, x.len() as int)[0] == s[cc + 1]);
            assert forall|k: int| cc + 1 <= k < e implies spec_is_digit(#[trigger] s[k]) by {
                assert(x.subrange(1, x.len() as int)[k - cc - 1] == s[k]);
            }
            lemma_digits_end_exact(s, cc + 1, e);
        }
    }
    if a == 1 {
        assert(t[0] == '-');
    } else {
        assert(s[p] == ip[0]);
    }
}

/// A number that needs no repair is in the JSON grammar.
proof fn lemma_clean_end_is_number(s: Seq<char>, p: int)
    requires
        spec_clean_number_end(s, p) is Some,
    ensures
        p < spec_clean_number_end(s, p)->0 <= s.len(),
        spec_is_json_number(s.subrange(p, spec_clean_number_end(s, p)->0)),
{
    let e = spec_clean_number_end(s, p)->0;
    let a = if 0 <= p < s.len() && s[p] == '-' {
        p + 1
    } else {
        p
    };
    let b = if s[a] == '0' {
        a + 1
    } else {
        lemma_digits_end(s, a);
        digits_end(s, a)
    };
    let c = if b < s.len() && s[b] == '.' {
        lemma_digits_end(s, b + 1);
        digits_end(s, b + 1)
    } else {
        b
    };
    let st = if c + 1 < s.len() && (s[c + 1] == '+' || s[c + 1] == '-') {
        c + 2
    } else {
        c + 1
    };
    if c < s.len() && (s[c] == 'e' || s[c] == 'E') {
        lemma_digits_end(s, st);
    }
    let t = s.subrange(p, e);
    assert forall|k: int| 0 <= k < t.len() implies #[trigger] t[k] == s[p + k] by {}
    let (ra, rb, rc) = (a - p, b - p, c - p);
    assert(json_number_parts(t, ra, rb, rc)) by {
        if c > b {
            assert forall|k: int| 0 <= k < c - b - 1 implies spec_is_digit(
                #[trigger] t.subrange(rb + 1, rc)[k],
            ) by {
                assert(t.subrange(rb + 1, rc)[k] == s[b + 1 + k]);
            }
        }
        if s[a] == '0' {
            assert(t.subrange(ra, rb) =~= seq!['0']);
        } else {
            assert forall|k: int| 0 <= k < b - a implies spec_is_digit(
                #[trigger] t.subrange(ra, rb)[k],
            ) by {
                assert(t.subrange(ra, rb)[k] == s[a + k]);
            }
        }
        let x = t.subrange(rc, t.len() as int);
        if x.len() > 0 {
            assert(x[0] == s[c]);
            if st == c + 2 {
                assert(x[1] == s[c + 1]);
                assert forall|k: int| 0 <= k < x.len() - 2 implies spec_is_digit(
                    #[trigger] x.subrange(2, x.len() as int)[k],
                ) by {
                    assert(x.subrange(2, x.len() as int)[k] == s[c + 2 + k]);
                }
            } else {
                assert forall|k: int| 0 <= k < x.len() - 1 implies spec_is_digit(
                    #[trigger] x.subrange(1, x.len() as int)[k],
                ) by {
                    assert(x.subrange(1, x.len() as int)[k] == s[c + 1 + k]);
                }
                if x.len() >= 2 && (x[1] == '+' || x[1] == '-') {
                    assert(x[1] == s[c + 1]);
                    assert(spec_is_digit(x.subrange(1, x.len() as int)[0]));
                }
            }
        }
    }
}

/// Where a number at `p` that needs no repair ends: an optional `-`, an
/// integer part (a lone `0`, or the digits from a nonzero digit on), an
/// optional `.` with at least one digit, an optional exponent with at
/// least one digit, followed by the end of input, a delimiter, or ASCII
/// whitespace; `None` when the text at `p` is not such a number.
pub open spec fn spec_clean_number_end(s: Seq<char>, p: int) -> Option<int> {
    let a = if 0 <= p < s.len() && s[p] == '-' {
        p + 1
    } else {
        p
    };
    if a < 0 || a >= s.len() {
        None
    } else {
        let b_opt = if s[a] == '0' {
            if a + 1 < s.len() && spec_is_digit(s[a + 1]) {
                None
            } else {
                Some(a + 1)
            }
        } else if spec_is_digit(s[a]) {
            Some(digits_end(s, a))
        } else {
            None
        };
        match b_opt {
            None => None,
            Some(b) => {
                let c_opt = if b < s.len() && s[b] == '.' {
                    if digits_end(s, b + 1) == b + 1 {
                        None
                    } else {
                        Some(digits_end(s, b + 1))
                    }
                } else {
                    Some(b)
                };
                match c_opt {
                    None => None,
                    Some(c) => {
                        let e_opt = if c < s.len() && (s[c] == 'e' || s[c] == 'E') {
                            let st = if c + 1 < s.len() && (s[c + 1] == '+' || s[c + 1] == '-') {
                                c + 2
                            } else {
                                c + 1
                            };
                            if digits_end(s, st) == st {
                                None
                            } else {
                                Some(digits_end(s, st))
                            }
                        } else {
                            Some(c)
                        };
                        match e_opt {
                            None => None,
                            Some(e) => if e == p {
                                None
                            } else if e >= s.len() || ((s[e] as u32) < 0x80 && (spec_is_delimiter(
                                s[e],
                            ) || spec_is_ws(s[e]))) {
                                Some(e)
                            } else {
                                None
                            },
                        }
                    },
                }
            },
        }
    }
}

/// Whether `kw` stands at `pos` and is followed by the end of input or by
/// `,`, `]`, or `}`.
pub open spec fn spec_keyword_at(src: Seq<char>, pos: int, kw: Seq<char>) -> bool {
    0 <= pos && pos + kw.len() <= src.len() && src.subrange(pos, pos + kw.len()) == kw && (pos
        + kw.len() == src.len() || src[pos + kw.len()] == ',' || src[pos + kw.len()] == ']' || src[pos
        + kw.len()] == '}')
}

/// Length of the sign of a number being built: 1 after a leading `-`.
pub open spec fn sign_len(num: Seq<char>) -> int {
    if num.len() > 0 && num[0] == '-' {
        1
    } else {
        0
    }
}

/// The integer part of a number before its fraction: a `0` is supplied when
/// nothing but the sign was read.
pub open spec fn int_with_zero(num: Seq<char>) -> Seq<char> {
    if num.len() == 0 || num =~= seq!['-'] {
        num.push('0')
    } else {
        num
    }
}

/// How the parts read by the integer, fraction, and exponent scanners make
/// up a JSON number.
proof fn lemma_number_parts(
    int_num: Seq<char>,
    frac_num: Seq<char>,
    num: Seq<char>,
    has_frac: bool,
    a: int,
    b: int,
    c: int,
)
    requires
        a == sign_len(int_num),
        int_num.len() > a ==> spec_is_json_int(int_num.subrange(a, int_num.len() as int)),
        !has_frac ==> b == int_num.len() && frac_num == int_num,
        has_frac ==> (b == int_with_zero(int_num).len() && frac_num.len() >= b + 2
            && frac_num.subrange(0, b) == int_with_zero(int_num) && frac_num[b] == '.'
            && all_digits(frac_num.subrange(b + 1, frac_num.len() as int))),
        c == frac_num.len(),
        num.len() >= c,
        num.subrange(0, c) == frac_num,
        spec_is_json_exp(num.subrange(c, num.len() as int)),
        b > a,
    ensures
        json_number_parts(num, a, b, c),
{
    assert(num.subrange(a, b) =~= frac_num.subrange(a, b));
    if !has_frac {
        assert(frac_num.subrange(a, b) =~= int_num.subrange(a, int_num.len() as int));
    } else {
        let z = int_with_zero(int_num);
        assert(frac_num.subrange(a, b) =~= z.subrange(a, b));
        if int_num.len() == 0 || int_num =~= seq!['-'] {
            assert(z.subrange(a, b) =~= seq!['0']);
        } else {
            assert(z.subrange(a, b) =~= int_num.subrange(a, int_num.len() as int));
        }
        assert(num.subrange(b + 1, c) =~= frac_num.subrange(b + 1, frac_num.len() as int));
        assert(num[b] == frac_num[b]);
    }
    if a == 1 {
        assert(num[0] == frac_num[0]);
        if has_frac {
            assert(frac_num[0] == int_with_zero(int_num)[0]);
        }
    }
    assert(spec_is_json_int(num.subrange(a, b)));
}

/// The frame conditions every lexer step keeps.
pub open spec fn lexer_step(old: Lexer, new: Lexer) -> bool {
    &&& new.wf()
    &&& new.src == old.src
    &&& new.opts == old.opts
    &&& new.in_container == old.in_container
}

/// A step that does not move the cursor backwards.
pub open spec fn lexer_advance(old: Lexer, new: Lexer) -> bool {
    &&& lexer_step(old, new)
    &&& old.pos <= new.pos
}

/// The first position at or after `i` that whitespace skipping stops at.
pub open spec fn spec_ws_run_end(opts: Options, s: Seq<char>, i: int) -> int
    decreases s.len() - i,
{
    if i < 0 || i >= s.len() || !spec_ws_skippable(opts, s[i]) {
        i
    } else {
        spec_ws_run_end(opts, s, i + 1)
    }
}

/// Whether `[a, b)` of `s` holds a newline.
pub open spec fn spec_has_newline(s: Seq<char>, a: int, b: int) -> bool {
    exists|j: int| a <= j < b && #[trigger] s[j] == '\n'
}

/// Where a `//` comment whose body starts at `i` ends: at its newline, or
/// at the end of input.
pub open spec fn spec_line_comment_end(s: Seq<char>, i: int) -> int
    decreases s.len() - i,
{
    if i < 0 || i >= s.len() || s[i] == '\n' {
        i
    } else {
        spec_line_comment_end(s, i + 1)
    }
}

/// Where the body of a `/* */` comment that starts at `i` stops: at its
/// `*/`, or at the end of input.
pub open spec fn spec_block_body_end(s: Seq<char>, i: int) -> int
    decreases s.len() - i,
{
    if i < 0 || i >= s.len() || spec_starts_with(s, i, seq!['*', '/']) {
        i
    } else {
        spec_block_body_end(s, i + 1)
    }
}

/// Where a `/* */` comment whose body starts at `i` ends: past its `*/`,
/// or at the end of input.
pub open spec fn spec_block_comment_end(s: Seq<char>, i: int) -> int {
    let b = spec_block_body_end(s, i);
    if spec_starts_with(s, b, seq!['*', '/']) {
        b + 2
    } else {
        b
    }
}

/// The first position at or after `i` that cannot continue a function
/// name (the info string after a fence), or the end.
pub open spec fn spec_name_run_end(s: Seq<char>, i: int) -> int
    decreases s.len() - i,
{
    if i < 0 || i >= s.len() || !spec_is_func_name_char(s[i]) {
        i
    } else {
        spec_name_run_end(s, i + 1)
    }
}

/// Whether trivia skipping looks at position `p` at all.
pub open spec fn spec_trivia_starts(opts: Options, s: Seq<char>, p: int) -> bool {
    0 <= p < s.len() && {
        let b = s[p];
        if b == ' ' || b == '\n' || b == '\r' || b == '\t' {
            true
        } else if b == '/' {
            spec_repairs(opts, 2)
        } else if b == '`' || b == '[' || b == '{' {
            spec_repairs(opts, 1)
        } else {
            (b as u32) >= 0x80 && spec_repairs(opts, 512)
        }
    }
}

/// Skips a comment at `p1` when comment repair is on: where it ends, and
/// whether a block comment held a newline.
pub open spec fn spec_comment_skip(opts: Options, s: Seq<char>, p1: int) -> (int, bool) {
    if spec_repairs(opts, 2) && spec_starts_with(s, p1, seq!['/', '/']) {
        (spec_line_comment_end(s, p1), false)
    } else if spec_repairs(opts, 2) && spec_starts_with(s, p1, seq!['/', '*']) {
        (
            spec_block_comment_end(s, p1 + 2),
            spec_has_newline(s, p1 + 2, spec_block_body_end(s, p1 + 2)),
        )
    } else {
        (p1, false)
    }
}

/// Scanning a line comment stops at its first line break.
proof fn lemma_line_comment_end_at(s: Seq<char>, i: int, j: int)
    requires
        0 <= i <= j <= s.len(),
        j == s.len() || s[j] == '\n',
        forall|k: int| i <= k < j ==> #[trigger] s[k] != '\n',
    ensures
        spec_line_comment_end(s, i) == j,
    decreases j - i,
{
    if i < j {
        lemma_line_comment_end_at(s, i + 1, j);
    }
}

/// Scanning a block comment body stops at its first `*/`.
proof fn lemma_block_body_end_at(s: Seq<char>, i: int, j: int)
    requires
        0 <= i <= j,
        j + 1 < s.len(),
        s[j] == '*',
        s[j + 1] == '/',
        forall|k: int| i <= k < j ==> !(#[trigger] s[k] == '*' && s[k + 1] == '/'),
    ensures
        spec_block_body_end(s, i) == j,
    decreases j - i,
{
    if i < j {
        assert(!spec_starts_with(s, i, seq!['*', '/'])) by {
            if spec_starts_with(s, i, seq!['*', '/']) {
                assert(s.subrange(i, i + 2)[0] == s[i]);
                assert(s.subrange(i, i + 2)[1] == s[i + 1]);
            }
        }
        lemma_block_body_end_at(s, i + 1, j);
    } else {
        assert(s.subrange(j, j + 2) =~= seq!['*', '/']);
    }
}

/// With comment repair, a `//` comment runs to its line break and no
/// further (the break is then read as whitespace), and a `/* */` comment
/// ends right after its first `*/`.
pub proof fn lemma_comments_end_where_they_close(opts: Options, s: Seq<char>, p: int, j: int)
    requires
        spec_repairs(opts, 2),
        0 <= p,
        p + 2 <= j,
    ensures
        spec_starts_with(s, p, seq!['/', '/']) && j <= s.len() && (j == s.len() || s[j] == '\n')
            && (forall|k: int| p + 2 <= k < j ==> #[trigger] s[k] != '\n') ==> spec_comment_skip(
            opts,
            s,
            p,
        ).0 == j,
        spec_starts_with(s, p, seq!['/', '*']) && j + 1 < s.len() && s[j] == '*' && s[j + 1] == '/'
            && (forall|k: int| p + 2 <= k < j ==> !(#[trigger] s[k] == '*' && s[k + 1] == '/'))
            ==> spec_comment_skip(opts, s, p).0 == j + 2,
{
    if spec_starts_with(s, p, seq!['/', '/']) && j <= s.len() && (j == s.len() || s[j] == '\n')
        && (forall|k: int| p + 2 <= k < j ==> #[trigger] s[k] != '\n') {
        assert(s[p] == '/' && s[p + 1] == '/') by {
            assert(s.subrange(p, p + 2)[0] == s[p]);
            assert(s.subrange(p, p + 2)[1] == s[p + 1]);
        }
        lemma_line_comment_end_at(s, p + 2, j);
        assert(spec_line_comment_end(s, p) == spec_line_comment_end(s, p + 1));
        assert(spec_line_comment_end(s, p + 1) == spec_line_comment_end(s, p + 2));
    }
    if spec_starts_with(s, p, seq!['/', '*']) && j + 1 < s.len() && s[j] == '*' && s[j + 1] == '/'
        && (forall|k: int| p + 2 <= k < j ==> !(#[trigger] s[k] == '*' && s[k + 1] == '/')) {
        assert(!spec_starts_with(s, p, seq!['/', '/'])) by {
            assert(s.subrange(p, p + 2)[1] == s[p + 1]);
        }
        lemma_block_body_end_at(s, p + 2, j);
        assert(s.subrange(j, j + 2) =~= seq!['*', '/']);
    }
}

/// Skips a code fence at `p2` when fence repair is on: a bracket glued to
/// the backticks, the backticks, the info string, and a closing bracket
/// glued to them.
pub open spec fn spec_fence_skip(opts: Options, s: Seq<char>, p2: int) -> int {
    let fences = spec_repairs(opts, 1);
    let p3 = if fences && p2 < s.len() && (s[p2] == '[' || s[p2] == '{') && (spec_starts_with(
        s,
        p2,
        seq!['[', '`', '`', '`'],
    ) || spec_starts_with(s, p2, seq!['{', '`', '`', '`'])) {
        p2 + 1
    } else {
        p2
    };
    if fences && spec_starts_with(s, p3, seq!['`', '`', '`']) {
        let q = spec_name_run_end(s, p3 + 3);
        if q < s.len() && (s[q] == ']' || s[q] == '}') {
            q + 1
        } else {
            q
        }
    } else {
        p3
    }
}

/// One round of trivia skipping from `p`: whitespace, then a comment, then
/// a code fence. Returns where the round ends and whether it skipped a
/// newline.
pub open spec fn spec_trivia_round(opts: Options, s: Seq<char>, p: int) -> (int, bool) {
    let p1 = spec_ws_run_end(opts, s, p);
    let (p2, nl) = spec_comment_skip(opts, s, p1);
    (spec_fence_skip(opts, s, p2), spec_has_newline(s, p, p1) || nl)
}

/// Where trivia skipping from `p` ends, and whether it skipped a newline:
/// rounds repeat while they make progress.
#[verifier::opaque]
pub open spec fn spec_skip_trivia(opts: Options, s: Seq<char>, p: int) -> (int, bool)
    decreases s.len() - p,
{
    if !spec_trivia_starts(opts, s, p) {
        (p, false)
    } else {
        let (q, nl) = spec_trivia_round(opts, s, p);
        if q <= p || q > s.len() {
            (p, nl)
        } else {
            let (e, nl2) = spec_skip_trivia(opts, s, q);
            (e, nl || nl2)
        }
    }
}

/// An opening bracket that no backtick follows is not trivia.
pub proof fn lemma_skip_trivia_at_bracket(opts: Options, s: Seq<char>, p: int)
    requires
        0 <= p < s.len(),
        s[p] == '[',
        !(p + 1 < s.len() && s[p + 1] == '`'),
    ensures
        spec_skip_trivia(opts, s, p) == (p, false),
{
    lemma_skip_trivia_step(opts, s, p);
    assert(spec_ws_run_end(opts, s, p) == p);
    assert(!spec_starts_with(s, p, seq!['/', '/']));
    assert(!spec_starts_with(s, p, seq!['/', '*']));
    assert(!spec_starts_with(s, p, seq!['[', '`', '`', '`'])) by {
        if spec_starts_with(s, p, seq!['[', '`', '`', '`']) {
            assert(s.subrange(p, p + 4)[1] == s[p + 1]);
        }
    }
    assert(!spec_starts_with(s, p, seq!['{', '`', '`', '`'])) by {
        if spec_starts_with(s, p, seq!['{', '`', '`', '`']) {
            assert(s.subrange(p, p + 4)[0] == s[p]);
        }
    }
    assert(!spec_starts_with(s, p, seq!['`', '`', '`'])) by {
        if spec_starts_with(s, p, seq!['`', '`', '`']) {
            assert(s.subrange(p, p + 3)[0] == s[p]);
        }
    }
    assert(spec_trivia_round(opts, s, p).0 == p);
}

/// One step of `spec_skip_trivia`.
proof fn lemma_skip_trivia_step(opts: Options, s: Seq<char>, p: int)
    ensures
        !spec_trivia_starts(opts, s, p) ==> spec_skip_trivia(opts, s, p) == (p, false),
        spec_trivia_starts(opts, s, p) ==> ({
            let (q, nl) = spec_trivia_round(opts, s, p);
            spec_skip_trivia(opts, s, p) == if q <= p || q > s.len() {
                (p, nl)
            } else {
                (spec_skip_trivia(opts, s, q).0, nl || spec_skip_trivia(opts, s, q).1)
            }
        }),
{
    reveal(spec_skip_trivia);
}

/// Whitespace that the same-line lookahead skips: anything but a newline,
/// special whitespace only with whitespace repair.
pub open spec fn spec_line_ws_skippable(opts: Options, c: char) -> bool {
    c != '\n' && (spec_is_json_ws(c) || (spec_is_special_ws(c) && spec_repairs(opts, 512)))
}

/// The first position at or after `i` that same-line whitespace skipping
/// stops at.
pub open spec fn spec_line_ws_end(opts: Options, s: Seq<char>, i: int) -> int
    decreases s.len() - i,
{
    if i < 0 || i >= s.len() || !spec_line_ws_skippable(opts, s[i]) {
        i
    } else {
        spec_line_ws_end(opts, s, i + 1)
    }
}

/// Where same-line trivia skipping from `p` ends: rounds of same-line
/// whitespace and a comment repeat while they make progress.
#[verifier::opaque]
pub open spec fn spec_skip_line_trivia(opts: Options, s: Seq<char>, p: int) -> int
    decreases s.len() - p,
{
    let q = spec_comment_skip(opts, s, spec_line_ws_end(opts, s, p)).0;
    if q <= p || q > s.len() {
        p
    } else {
        spec_skip_line_trivia(opts, s, q)
    }
}

/// One step of `spec_skip_line_trivia`.
proof fn lemma_skip_line_trivia_step(opts: Options, s: Seq<char>, p: int)
    ensures
        ({
            let q = spec_comment_skip(opts, s, spec_line_ws_end(opts, s, p)).0;
            spec_skip_line_trivia(opts, s, p) == if q <= p || q > s.len() {
                p
            } else {
                spec_skip_line_trivia(opts, s, q)
            }
        }),
{
    reveal(spec_skip_line_trivia);
}

impl<'a> Lexer<'a> {
    /// Skips whitespace only; returns whether a newline was skipped.
    pub fn skip_ws_only(&mut self) -> (r: bool)
        requires
            old(self).wf(),
        ensures
            lexer_advance(*old(self), *final(self)),
            forall|j: int|
                old(self).pos <= j < final(self).pos ==> spec_ws_skippable(
                    old(self).opts,
                    #[trigger] old(self).src@[j],
                ),
            final(self).pos < final(self).src@.len() ==> !spec_ws_skippable(
                old(self).opts,
                final(self).src@[final(self).pos as int],
            ),
            r == exists|j: int| old(self).pos <= j < final(self).pos && #[trigger] old(self).src@[j] == '\n',
            final(self).pos == spec_ws_run_end(old(self).opts, old(self).src@, old(self).pos as int),
    {
        let mut saw_newline = false;
        while self.pos < self.src.len()
            invariant
                lexer_advance(*old(self), *self),
                spec_ws_run_end(self.opts, self.src@, self.pos as int) == spec_ws_run_end(
                    old(self).opts,
                    old(self).src@,
                    old(self).pos as int,
                ),
                forall|j: int|
                    old(self).pos <= j < self.pos ==> spec_ws_skippable(
                        old(self).opts,
                        #[trigger] old(self).src@[j],
                    ),
                saw_newline == exists|j: int| old(self).pos <= j < self.pos && #[trigger] old(self).src@[j] == '\n',
            ensures
                self.pos < self.src@.len() ==> !spec_ws_skippable(
                    old(self).opts,
                    self.src@[self.pos as int],
                ),
                lexer_advance(*old(self), *self),
                forall|j: int|
                    old(self).pos <= j < self.pos ==> spec_ws_skippable(
                        old(self).opts,
                        #[trigger] old(self).src@[j],
                    ),
                saw_newline == exists|j: int| old(self).pos <= j < self.pos && #[trigger] old(self).src@[j] == '\n',
                self.pos == spec_ws_run_end(old(self).opts, old(self).src@, old(self).pos as int),
            decreases self.src@.len() - self.pos,
        {
            let c = self.src[self.pos];
            let ghost p = self.pos as int;
            if c == '\n' {
                saw_newline = true;
                self.pos = self.pos + 1;
            } else if c == ' ' || c == '\t' || c == '\r' {
                self.pos = self.pos + 1;
            } else if (c as u32) >= 0x80 {
                if !self.opts.repairs(Repairs::WHITESPACE()) {
                    break;
                }
                if is_special_ws(c) {
                    self.pos = self.pos + 1;
                } else {
                    break;
                }
            } else {
                break;
            }
            proof {
                assert(self.pos == p + 1);
                assert((exists|j: int| old(self).pos <= j < self.pos && #[trigger] old(self).src@[j] == '\n')
                    == ((exists|j: int| old(self).pos <= j < p && #[trigger] old(self).src@[j] == '\n')
                    || c == '\n')) by {
                    if exists|j: int| old(self).pos <= j < self.pos && #[trigger] old(self).src@[j] == '\n' {
                        let j = choose|j: int| old(self).pos <= j < self.pos && #[trigger] old(self).src@[j] == '\n';
                        if j < p {
                            assert(old(self).pos <= j < p && old(self).src@[j] == '\n');
                        }
                    }
                    if c == '\n' {
                        assert(old(self).src@[p] == '\n');
                    }
                }
            }
        }
        saw_newline
    }

    /// Skips a `//` comment up to (not including) its newline.
    fn skip_line_comment(&mut self)
        requires
            old(self).wf(),
        ensures
            lexer_advance(*old(self), *final(self)),
            final(self).pos == spec_line_comment_end(old(self).src@, old(self).pos as int),
    {
        while self.pos < self.src.len() && self.src[self.pos] != '\n'
            invariant
                lexer_advance(*old(self), *self),
                spec_line_comment_end(self.src@, self.pos as int) == spec_line_comment_end(
                    old(self).src@,
                    old(self).pos as int,
                ),
            decreases self.src@.len() - self.pos,
        {
            self.pos = self.pos + 1;
        }
    }

    /// Skips a `/* */` comment whose `/*` is under the cursor; returns whether
    /// its body held a newline.
    fn skip_block_comment(&mut self) -> (r: bool)
        requires
            old(self).wf(),
            old(self).pos + 2 <= old(self).src@.len(),
        ensures
            lexer_advance(*old(self), *final(self)),
            final(self).pos >= old(self).pos + 2,
            final(self).pos == spec_block_comment_end(old(self).src@, old(self).pos + 2),
            r == spec_has_newline(
                old(self).src@,
                old(self).pos + 2,
                spec_block_body_end(old(self).src@, old(self).pos + 2),
            ),
    {
        let star_slash: [char; 2] = ['*', '/'];
        proof {
            assert(star_slash@ =~= seq!['*', '/']);
        }
        let mut saw_newline = false;
        self.pos = self.pos + 2;
        while self.pos < self.src.len() && !self.rest_starts_with(&star_slash)
            invariant
                lexer_advance(*old(self), *self),
                self.pos >= old(self).pos + 2,
                star_slash@ == seq!['*', '/'],
                spec_block_body_end(self.src@, self.pos as int) == spec_block_body_end(
                    old(self).src@,
                    old(self).pos + 2,
                ),
                saw_newline == spec_has_newline(self.src@, old(self).pos + 2, self.pos as int),
            decreases self.src@.len() - self.pos,
        {
            if self.src[self.pos] == '\n' {
                saw_newline = true;
            }
            self.pos = self.pos + 1;
        }
        if self.rest_starts_with(&star_slash) {
            self.pos = self.pos + 2;
        }
        saw_newline
    }

    /// Skips whitespace, comments, and markdown fences; returns whether a
    /// newline was skipped, which is what separates NDJSON records.
    #[verifier::spinoff_prover]
    #[verifier::rlimit(100)]
    pub fn skip_trivia(&mut self) -> (r: bool)
        requires
            old(self).wf(),
        ensures
            lexer_advance(*old(self), *final(self)),
            spec_quiet_at(old(self).src@, old(self).pos as int) ==> final(self).pos == old(
                self,
            ).pos && !r,
            (old(self).pos < old(self).src@.len() && old(self).src@[old(self).pos as int] == ' '
                && spec_quiet_at(old(self).src@, old(self).pos + 1)) ==> final(self).pos == old(
                self,
            ).pos + 1 && !r,
            (final(self).pos as int, r) == spec_skip_trivia(
                old(self).opts,
                old(self).src@,
                old(self).pos as int,
            ),
    {
        let slash2: [char; 2] = ['/', '/'];
        let slash_star: [char; 2] = ['/', '*'];
        let bracket_fence: [char; 4] = ['[', '`', '`', '`'];
        let brace_fence: [char; 4] = ['{', '`', '`', '`'];
        let fence: [char; 3] = ['`', '`', '`'];
        proof {
            assert(slash2@ =~= seq!['/', '/']);
            assert(slash_star@ =~= seq!['/', '*']);
            assert(bracket_fence@ =~= seq!['[', '`', '`', '`']);
            assert(brace_fence@ =~= seq!['{', '`', '`', '`']);
            assert(fence@ =~= seq!['`', '`', '`']);
        }
        let ghost quiet0 = spec_quiet_at(old(self).src@, old(self).pos as int);
        let ghost space0 = old(self).pos < old(self).src@.len() && old(self).src@[old(
            self,
        ).pos as int] == ' ' && spec_quiet_at(old(self).src@, old(self).pos + 1);
        let mut saw_newline = false;
        loop
            invariant
                lexer_advance(*old(self), *self),
                slash2@ == seq!['/', '/'],
                slash_star@ == seq!['/', '*'],
                bracket_fence@ == seq!['[', '`', '`', '`'],
                brace_fence@ == seq!['{', '`', '`', '`'],
                fence@ == seq!['`', '`', '`'],
                quiet0 == spec_quiet_at(old(self).src@, old(self).pos as int),
                quiet0 ==> self.pos == old(self).pos && !saw_newline,
                space0 ==> (self.pos == old(self).pos || self.pos == old(self).pos + 1)
                    && !saw_newline,
                space0 == (old(self).pos < old(self).src@.len() && old(self).src@[old(
                    self,
                ).pos as int] == ' ' && spec_quiet_at(old(self).src@, old(self).pos + 1)),
                spec_skip_trivia(old(self).opts, old(self).src@, old(self).pos as int) == (
                    spec_skip_trivia(self.opts, self.src@, self.pos as int).0,
                    saw_newline || spec_skip_trivia(self.opts, self.src@, self.pos as int).1,
                ),
            decreases self.src@.len() - self.pos,
        {
            let ghost quiet_here = spec_quiet_at(self.src@, self.pos as int);
            let ghost saw_before = saw_newline;
            proof {
                lemma_skip_trivia_step(self.opts, self.src@, self.pos as int);
            }
            let can_start_trivia = if self.pos >= self.src.len() {
                false
            } else {
                let b = self.src[self.pos];
                if b == ' ' || b == '\n' || b == '\r' || b == '\t' {
                    true
                } else if b == '/' {
                    self.opts.repairs(Repairs::COMMENTS())
                } else if b == '`' || b == '[' || b == '{' {
                    self.opts.repairs(Repairs::FENCES())
                } else {
                    (b as u32) >= 0x80 && self.opts.repairs(Repairs::WHITESPACE())
                }
            };
            if !can_start_trivia {
                return saw_newline;
            }
            let before = self.pos;
            let ws_newline = self.skip_ws_only();
            if ws_newline {
                saw_newline = true;
            }
            let ghost p1 = self.pos as int;
            let ghost mut comment_newline = false;
            proof {
                if quiet_here {
                    assert(self.pos == before);
                }
                if space0 && before == old(self).pos {
                    assert(spec_ws_skippable(self.opts, self.src@[before as int]));
                    if self.pos > before + 1 {
                        assert(spec_ws_skippable(self.opts, self.src@[before + 1]));
                    }
                    assert(self.pos == before + 1);
                    assert(!saw_newline);
                }
            }
            if self.opts.repairs(Repairs::COMMENTS()) {
                if self.rest_starts_with(&slash2) {
                    self.skip_line_comment();
                } else if self.rest_starts_with(&slash_star) {
                    if self.skip_block_comment() {
                        saw_newline = true;
                        proof {
                            comment_newline = true;
                        }
                    }
                }
            }
            let ghost p2 = self.pos as int;
            proof {
                assert((p2, comment_newline) == spec_comment_skip(self.opts, self.src@, p1));
            }
            if self.opts.repairs(Repairs::FENCES()) {
                if self.pos < self.src.len() && (self.src[self.pos] == '[' || self.src[self.pos]
                    == '{') && (self.rest_starts_with(&bracket_fence) || self.rest_starts_with(
                    &brace_fence,
                )) {
                    self.pos = self.pos + 1;
                }
                let ghost p3 = self.pos as int;
                if self.rest_starts_with(&fence) {
                    self.pos = self.pos + 3;
                    while self.pos < self.src.len() && is_func_name_char(self.src[self.pos])
                        invariant
                            lexer_advance(*old(self), *self),
                            self.pos > before,
                            spec_name_run_end(self.src@, self.pos as int) == spec_name_run_end(
                                self.src@,
                                p3 + 3,
                            ),
                        decreases self.src@.len() - self.pos,
                    {
                        self.pos = self.pos + 1;
                    }
                    if self.pos < self.src.len() && (self.src[self.pos] == ']' || self.src[self.pos]
                        == '}') {
                        self.pos = self.pos + 1;
                    }
                }
            }
            proof {
                assert(self.pos == spec_fence_skip(self.opts, self.src@, p2));
                assert((self.pos as int, spec_has_newline(self.src@, before as int, p1)
                    || comment_newline) == spec_trivia_round(self.opts, self.src@, before as int));
            }
            if self.pos == before {
                return saw_newline;
            }
        }
    }

    /// Skips same-line whitespace and comments for the end-quote lookahead;
    /// a newline is never consumed.
    pub fn skip_line_trivia(&mut self)
        requires
            old(self).wf(),
        ensures
            lexer_advance(*old(self), *final(self)),
            spec_quiet_line(old(self).src@, old(self).pos as int) ==> final(self).pos == old(
                self,
            ).pos,
            final(self).pos == spec_skip_line_trivia(
                old(self).opts,
                old(self).src@,
                old(self).pos as int,
            ),
    {
        let slash2: [char; 2] = ['/', '/'];
        let slash_star: [char; 2] = ['/', '*'];
        proof {
            assert(slash2@ =~= seq!['/', '/']);
            assert(slash_star@ =~= seq!['/', '*']);
        }
        let ghost quiet0 = spec_quiet_line(old(self).src@, old(self).pos as int);
        loop
            invariant
                lexer_advance(*old(self), *self),
                slash2@ == seq!['/', '/'],
                slash_star@ == seq!['/', '*'],
                quiet0 == spec_quiet_line(old(self).src@, old(self).pos as int),
                quiet0 ==> self.pos == old(self).pos,
                spec_skip_line_trivia(old(self).opts, old(self).src@, old(self).pos as int)
                    == spec_skip_line_trivia(self.opts, self.src@, self.pos as int),
            decreases self.src@.len() - self.pos,
        {
            let before = self.pos;
            proof {
                lemma_skip_line_trivia_step(self.opts, self.src@, before as int);
            }
            while self.pos < self.src.len()
                invariant
                    lexer_advance(*old(self), *self),
                    self.pos >= before,
                    quiet0 == spec_quiet_line(old(self).src@, old(self).pos as int),
                    quiet0 ==> self.pos == old(self).pos,
                    spec_line_ws_end(self.opts, self.src@, self.pos as int) == spec_line_ws_end(
                        self.opts,
                        self.src@,
                        before as int,
                    ),
                ensures
                    lexer_advance(*old(self), *self),
                    self.pos >= before,
                    quiet0 ==> self.pos == old(self).pos,
                    self.pos == spec_line_ws_end(self.opts, self.src@, before as int),
                decreases self.src@.len() - self.pos,
            {
                let c = self.src[self.pos];
                if c == '\n' {
                    break;
                }
                if is_json_ws(c) {
                    self.pos = self.pos + 1;
                } else if is_special_ws(c) {
                    if !self.opts.repairs(Repairs::WHITESPACE()) {
                        break;
                    }
                    self.pos = self.pos + 1;
                } else {
                    break;
                }
            }
            let ghost p1 = self.pos as int;
            if self.opts.repairs(Repairs::COMMENTS()) {
                if self.rest_starts_with(&slash2) {
                    self.skip_line_comment();
                } else if self.rest_starts_with(&slash_star) {
                    self.skip_block_comment();
                }
            }
            proof {
                assert(self.pos == spec_comment_skip(self.opts, self.src@, p1).0);
            }
            if self.pos == before {
                return;
            }
        }
    }

    /// The next non-trivia character, without moving this lexer.
    pub fn peek_significant_char(&mut self) -> (r: Option<char>)
        requires
            old(self).wf(),
        ensures
            *final(self) == *old(self),
            spec_quiet_at(old(self).src@, old(self).pos as int) ==> r == (if old(self).pos < old(
                self,
            ).src@.len() {
                Some(old(self).src@[old(self).pos as int])
            } else {
                None::<char>
            }),
            r == ({
                let q = spec_skip_trivia(old(self).opts, old(self).src@, old(self).pos as int).0;
                if q < old(self).src@.len() {
                    Some(old(self).src@[q])
                } else {
                    None::<char>
                }
            }),
    {
        let save = self.pos;
        self.skip_trivia();
        let c = self.peek_char();
        self.pos = save;
        c
    }
}

/// Outcome of decoding one escape sequence.
pub enum EscapeOutcome {
    /// The escape was decoded into the text.
    Decoded,
    /// A truncated `\u` escape at end of input was dropped; the string ends.
    EndOfString,
}

impl<'a> Lexer<'a> {
    /// Reads exactly four hexadecimal digits, restoring the position on failure.
    pub fn read_hex4(&mut self) -> (r: Option<u32>)
        requires
            old(self).wf(),
        ensures
            lexer_step(*old(self), *final(self)),
            r == spec_hex4(old(self).src@, old(self).pos as int),
            r is Some ==> final(self).pos == old(self).pos + 4,
            r is None ==> final(self).pos == old(self).pos,
            r matches Some(c) ==> c <= 0xFFFF,
    {
        let save = self.pos;
        let mut code: u32 = 0;
        let mut k: usize = 0;
        while k < 4
            invariant
                lexer_step(*old(self), *self),
                self.pos == save + k,
                save == old(self).pos,
                k <= 4,
                code < pow16(k as nat),
                code == spec_hex_run_value(self.src@, save as int, k as nat),
                spec_all_hex(self.src@, save as int, k as int),
            decreases 4 - k,
        {
            let d = match self.peek_char() {
                Some(c) => hex_value(c),
                None => None,
            };
            match d {
                Some(digit) => {
                    proof {
                        lemma_pow16_step(k as nat);
                        assert(code * 16 + digit < pow16((k + 1) as nat)) by (nonlinear_arith)
                            requires
                                code < pow16(k as nat),
                                digit < 16,
                                pow16((k + 1) as nat) == pow16(k as nat) * 16,
                        ;
                        assert(self.src@[save + k] == self.src@[self.pos as int]);
                        assert(spec_all_hex(self.src@, save as int, k + 1)) by {
                            assert forall|j: int| 0 <= j < k + 1 implies (#[trigger] spec_hex_value(
                                self.src@[save + j],
                            )) is Some by {
                                if j < k {
                                    assert(spec_all_hex(self.src@, save as int, k as int));
                                }
                            }
                        }
                    }
                    code = code * 16 + digit;
                    self.bump_char();
                },
                None => {
                    self.pos = save;
                    proof {
                        assert(!spec_all_hex(self.src@, save as int, 4)) by {
                            if spec_all_hex(self.src@, save as int, 4) {
                                assert(spec_hex_value(self.src@[save + k]) is Some);
                            }
                        }
                    }
                    return None;
                },
            }
            k = k + 1;
        }
        proof {
            reveal_with_fuel(pow16, 5);
        }
        Some(code)
    }
}

/// `16^k`.
pub open spec fn pow16(k: nat) -> nat
    decreases k,
{
    if k == 0 {
        1
    } else {
        16 * pow16((k - 1) as nat)
    }
}

proof fn lemma_pow16_step(k: nat)
    requires
        k < 4,
    ensures
        pow16(k + 1) == pow16(k) * 16,
        pow16(k + 1) <= 0x10000,
{
    reveal_with_fuel(pow16, 5);
    assert(k == 0 || k == 1 || k == 2 || k == 3);
}

/// What decoding the escape whose letter is at `p` yields, appended to
/// `text`: the outcome (decoded, end of string, error), where the cursor
/// ends, the decoded text, and for an error its kind and position.
pub open spec fn spec_read_escape(s: Seq<char>, p: int, strict: bool, text: Seq<char>) -> (
    int,
    int,
    Seq<char>,
    ErrorKind,
    int,
) {
    if p < 0 || p >= s.len() {
        (0, p, text, ErrorKind::InvalidEscape, p)
    } else {
        let x = s[p];
        let q = p + 1;
        if x == 'u' {
            let (k, pos, t) = spec_unicode_step(s, q, strict, text);
            (k, pos, t, ErrorKind::InvalidUnicodeEscape, q)
        } else if x == 'x' {
            if spec_all_hex(s, q, 2) {
                (
                    0,
                    q + 2,
                    text.push(spec_code_char((spec_hex_run_value(s, q, 2)) as u32)),
                    ErrorKind::InvalidEscape,
                    q,
                )
            } else if strict {
                (2, q, text, ErrorKind::InvalidEscape, q)
            } else {
                (0, q, text.push('x'), ErrorKind::InvalidEscape, q)
            }
        } else {
            (0, q, text.push(spec_simple_escape(x)), ErrorKind::InvalidEscape, q)
        }
    }
}

impl<'a> Lexer<'a> {
    /// Decodes `\uXXXX`, joining a surrogate pair when one follows.
    pub fn read_unicode_escape(&mut self, text: &mut Vec<char>) -> (r: Result<EscapeOutcome, Error>)
        requires
            old(self).wf(),
        ensures
            lexer_advance(*old(self), *final(self)),
            ({
                let (kind, pos, t) = spec_unicode_step(
                    old(self).src@,
                    old(self).pos as int,
                    old(self).opts.repairs@ == 0,
                    old(text)@,
                );
                &&& final(self).pos == pos
                &&& final(text)@ == t
                &&& kind == 0 ==> (r matches Ok(EscapeOutcome::Decoded))
                &&& kind == 1 ==> (r matches Ok(EscapeOutcome::EndOfString))
                &&& kind == 2 ==> (r matches Err(e) && e.spec_kind() == ErrorKind::InvalidUnicodeEscape
                    && e.spec_position() == old(self).pos)
            }),
            r matches Err(e) ==> e.spec_position() <= old(self).src@.len(),
    {
        let bs_u: [char; 2] = ['\\', 'u'];
        proof {
            assert(bs_u@ =~= seq!['\\', 'u']);
        }
        match self.read_hex4() {
            Some(code) => {
                if 0xD800 <= code && code <= 0xDBFF && self.rest_starts_with(&bs_u) {
                    let save = self.pos;
                    self.pos = self.pos + 2;
                    match self.read_hex4() {
                        Some(low) => {
                            if 0xDC00 <= low && low <= 0xDFFF {
                                let combined = 0x10000 + ((code - 0xD800) * 1024) + (low - 0xDC00);
                                push_code(text, combined);
                                return Ok(EscapeOutcome::Decoded);
                            }
                            self.pos = save;
                        },
                        None => {
                            self.pos = save;
                        },
                    }
                }
                push_code(text, code);
                Ok(EscapeOutcome::Decoded)
            },
            None => {
                if self.strict() {
                    return Err(Error::new(ErrorKind::InvalidUnicodeEscape, self.pos));
                }
                let mut hex_run = self.pos;
                while hex_run < self.src.len() && hex_value(self.src[hex_run]).is_some()
                    invariant
                        self.pos <= hex_run <= self.src@.len(),
                        spec_all_hex(self.src@, self.pos as int, hex_run - self.pos),
                    decreases self.src@.len() - hex_run,
                {
                    proof {
                        assert(spec_all_hex(self.src@, self.pos as int, hex_run + 1 - self.pos)) by {
                            assert forall|j: int| 0 <= j < hex_run + 1 - self.pos implies (
                            #[trigger] spec_hex_value(self.src@[self.pos + j])) is Some by {
                                if j < hex_run - self.pos {
                                    assert(spec_all_hex(
                                        self.src@,
                                        self.pos as int,
                                        hex_run - self.pos,
                                    ));
                                }
                            }
                        }
                    }
                    hex_run = hex_run + 1;
                }
                proof {
                    if self.src@.len() - self.pos < 4 && spec_all_hex(
                        self.src@,
                        self.pos as int,
                        self.src@.len() - self.pos,
                    ) && hex_run < self.src@.len() {
                        assert(spec_hex_value(self.src@[self.pos + (hex_run - self.pos)]) is Some);
                    }
                }
                if hex_run == self.src.len() && hex_run - self.pos < 4 {
                    return Ok(EscapeOutcome::EndOfString);
                }
                text.push('u');
                Ok(EscapeOutcome::Decoded)
            },
        }
    }

    /// Decodes one escape sequence (the backslash is already consumed),
    /// repairing the JavaScript-only ones.
    pub fn read_escape(&mut self, text: &mut Vec<char>) -> (r: Result<EscapeOutcome, Error>)
        requires
            old(self).wf(),
        ensures
            lexer_advance(*old(self), *final(self)),
            r matches Err(e) ==> e.spec_position() <= old(self).src@.len(),
            old(self).pos >= old(self).src@.len() ==> ((r matches Ok(EscapeOutcome::Decoded))
                && final(text)@ == old(text)@ && final(self).pos == old(self).pos),
            old(self).pos < old(self).src@.len() ==> ({
                let x = old(self).src@[old(self).pos as int];
                let p = old(self).pos + 1;
                let strict = old(self).opts.repairs@ == 0;
                &&& x == 'u' ==> ({
                    let (kind, pos, t) = spec_unicode_step(old(self).src@, p, strict, old(text)@);
                    &&& final(self).pos == pos
                    &&& final(text)@ == t
                    &&& kind == 0 ==> (r matches Ok(EscapeOutcome::Decoded))
                    &&& kind == 1 ==> (r matches Ok(EscapeOutcome::EndOfString))
                    &&& kind == 2 ==> r is Err
                })
                &&& x == 'x' ==> (if spec_all_hex(old(self).src@, p, 2) {
                    &&& (r matches Ok(EscapeOutcome::Decoded))
                    &&& final(self).pos == p + 2
                    &&& final(text)@ == old(text)@.push(
                        spec_code_char((spec_hex_run_value(old(self).src@, p, 2)) as u32),
                    )
                } else if strict {
                    r matches Err(e) && e.spec_kind() == ErrorKind::InvalidEscape && e.spec_position()
                        == p
                } else {
                    &&& (r matches Ok(EscapeOutcome::Decoded))
                    &&& final(self).pos == p
                    &&& final(text)@ == old(text)@.push('x')
                })
                &&& (x != 'u' && x != 'x') ==> ((r matches Ok(EscapeOutcome::Decoded))
                    && final(self).pos == p && final(text)@ == old(text)@.push(
                    spec_simple_escape(x),
                ))
            }),
            ({
                let (k, pos, t, ek, ep) = spec_read_escape(
                    old(self).src@,
                    old(self).pos as int,
                    old(self).opts.repairs@ == 0,
                    old(text)@,
                );
                &&& final(self).pos == pos
                &&& final(text)@ == t
                &&& k == 0 ==> (r matches Ok(EscapeOutcome::Decoded))
                &&& k == 1 ==> (r matches Ok(EscapeOutcome::EndOfString))
                &&& k == 2 ==> (r matches Err(e) && e.spec_kind() == ek && e.spec_position() == ep)
            }),
    {
        let c = match self.bump_char() {
            Some(c) => c,
            None => {
                return Ok(EscapeOutcome::Decoded);
            },
        };
        if c == '"' {
            text.push('"');
        } else if c == '\\' {
            text.push('\\');
        } else if c == '/' {
            text.push('/');
        } else if c == 'b' {
            text.push('\u{08}');
        } else if c == 'f' {
            text.push('\u{0C}');
        } else if c == 'n' {
            text.push('\n');
        } else if c == 'r' {
            text.push('\r');
        } else if c == 't' {
            text.push('\t');
        } else if c == '\'' {
            text.push('\'');
        } else if c == 'u' {
            return self.read_unicode_escape(text);
        } else if c == 'x' {
            let hi = match self.peek_char() {
                Some(h) => hex_value(h),
                None => None,
            };
            let lo = match self.peek_second() {
                Some(l) => hex_value(l),
                None => None,
            };
            match (hi, lo) {
                (Some(hi), Some(lo)) => {
                    proof {
                        assert(spec_all_hex(self.src@, self.pos as int, 2)) by {
                            assert forall|j: int| 0 <= j < 2 implies (#[trigger] spec_hex_value(
                                self.src@[self.pos + j],
                            )) is Some by {
                                if j == 1 {
                                    assert(self.src@[self.pos + j] == self.src@[self.pos + 1]);
                                }
                            }
                        }
                        reveal_with_fuel(spec_hex_run_value, 3);
                    }
                    self.bump_char();
                    self.bump_char();
                    push_code(text, hi * 16 + lo);
                },
                _ => {
                    proof {
                        assert(!spec_all_hex(self.src@, self.pos as int, 2)) by {
                            if spec_all_hex(self.src@, self.pos as int, 2) {
                                assert(spec_hex_value(self.src@[self.pos + 0]) is Some);
                                assert(spec_hex_value(self.src@[self.pos + 1]) is Some);
                            }
                        }
                    }
                    if self.strict() {
                        return Err(Error::new(ErrorKind::InvalidEscape, self.pos));
                    }
                    text.push('x');
                },
            }
        } else {
            text.push(c);
        }
        Ok(EscapeOutcome::Decoded)
    }
}

/// Where a regular expression literal scanned from `i` ends: just past the
/// first `/` that no backslash escapes, or the end of input.
pub open spec fn spec_regex_end(s: Seq<char>, i: int) -> int
    decreases s.len() - i,
{
    if i < 0 || i + 1 >= s.len() {
        s.len() as int
    } else if s[i] == '\\' {
        spec_regex_end(s, i + 2)
    } else if s[i] == '/' {
        i + 1
    } else {
        spec_regex_end(s, i + 1)
    }
}

/// Characters that end a bare word: line breaks, quotes, and structural
/// delimiters (and `:` in key position).
pub open spec fn spec_word_stop(c: char, key_position: bool) -> bool {
    if (c as u32) < 0x80 {
        c == '\n' || c == '\r' || c == '"' || c == '\'' || c == '(' || c == ')' || c == ','
            || c == '/' || c == '+' || c == '[' || c == ']' || c == '{' || c == '}' || (
        key_position && c == ':')
    } else {
        spec_is_quote(c)
    }
}

/// The first position at or after `i` that ends a bare word, or the end.
pub open spec fn spec_word_run_end(s: Seq<char>, i: int, key_position: bool) -> int
    decreases s.len() - i,
{
    if i < 0 || i >= s.len() || spec_word_stop(s[i], key_position) {
        i
    } else {
        spec_word_run_end(s, i + 1, key_position)
    }
}

/// `e` moved back over the whitespace that ends `[start, e)`.
pub open spec fn spec_trim_ws_back(s: Seq<char>, start: int, e: int) -> int
    decreases e - start,
{
    if e > start && spec_is_ws(s[e - 1]) {
        spec_trim_ws_back(s, start, e - 1)
    } else {
        e
    }
}

/// The start of the last whitespace-free run of `[start, e)`.
pub open spec fn spec_last_run_start(s: Seq<char>, start: int, e: int) -> int
    decreases e - start,
{
    if e > start && !spec_is_ws(s[e - 1]) {
        spec_last_run_start(s, start, e - 1)
    } else {
        e
    }
}

/// The first position at or after `i` that cannot continue a URL, or the end.
pub open spec fn spec_url_run_end(s: Seq<char>, i: int) -> int
    decreases s.len() - i,
{
    if i < 0 || i >= s.len() || !spec_is_url_char(s[i]) {
        i
    } else {
        spec_url_run_end(s, i + 1)
    }
}

/// Where the text of the bare word at `start` ends: at the first stop
/// character with trailing whitespace dropped (at least one character),
/// and, after a URL scheme followed by `//`, past the rest of the URL.
pub open spec fn spec_word_end(s: Seq<char>, start: int, key_position: bool) -> int {
    let e1 = spec_trim_ws_back(s, start, spec_word_run_end(s, start, key_position));
    let e2 = if e1 == start {
        start + 1
    } else {
        e1
    };
    if s[e2 - 1] == ':' && spec_starts_with(s, e2, seq!['/', '/']) && spec_is_url_scheme(
        s.subrange(spec_last_run_start(s, start, e2), e2),
    ) {
        spec_url_run_end(s, e2)
    } else {
        e2
    }
}

/// A run of characters that do not stop a word reads to its first stop.
proof fn lemma_word_run_to(s: Seq<char>, i: int, j: int, key_position: bool)
    requires
        0 <= i <= j < s.len(),
        forall|k: int| i <= k < j ==> !spec_word_stop(#[trigger] s[k], key_position),
        spec_word_stop(s[j], key_position),
    ensures
        spec_word_run_end(s, i, key_position) == j,
    decreases j - i,
{
    if i < j {
        lemma_word_run_to(s, i + 1, j, key_position);
    }
}

/// A whitespace-free stretch is one run.
proof fn lemma_last_run_whole(s: Seq<char>, start: int, e: int)
    requires
        0 <= start <= e <= s.len(),
        forall|k: int| start <= k < e ==> !spec_is_ws(#[trigger] s[k]),
    ensures
        spec_last_run_start(s, start, e) == start,
    decreases e - start,
{
    if e > start {
        lemma_last_run_whole(s, start, e - 1);
    }
}

/// An unquoted URL reads as one word: a value-position bare word that
/// starts with a URL scheme (`http`, `https`, `ftp`, `mailto`, `file`,
/// `data`, `irc`) followed by `://` runs on through the whole URL, so the
/// `//` after the scheme never starts a comment.
pub proof fn lemma_url_word_reads_whole_url(s: Seq<char>, start: int, scheme: Seq<char>)
    requires
        scheme == seq!['h', 't', 't', 'p'] || scheme == seq!['h', 't', 't', 'p', 's'] || scheme
            == seq!['f', 't', 'p'] || scheme == seq!['m', 'a', 'i', 'l', 't', 'o'] || scheme
            == seq!['f', 'i', 'l', 'e'] || scheme == seq!['d', 'a', 't', 'a'] || scheme == seq![
            'i',
            'r',
            'c',
        ],
        spec_starts_with(s, start, scheme + seq![':', '/', '/']),
    ensures
        spec_word_end(s, start, false) == spec_url_run_end(s, start + scheme.len() + 1),
        spec_word_end(s, start, false) >= start + scheme.len() + 3,
{
    let n = scheme.len() as int;
    let lit = scheme + seq![':', '/', '/'];
    assert forall|k: int| 0 <= k < lit.len() implies #[trigger] s[start + k] == lit[k] by {
        assert(s.subrange(start, start + lit.len())[k] == s[start + k]);
    }
    assert forall|k: int| start <= k < start + n + 1 implies !spec_word_stop(
        #[trigger] s[k],
        false,
    ) && !spec_is_ws(s[k]) by {
        assert(s[k] == lit[k - start]);
        assert(spec_is_ascii_alphanumeric(lit[k - start]) || lit[k - start] == ':');
    }
    assert(s[start + n + 1] == lit[n + 1]);
    lemma_word_run_to(s, start, start + n + 1, false);
    let e = start + n + 1;
    assert(!spec_is_ws(s[e - 1]));
    assert(spec_trim_ws_back(s, start, e) == e);
    lemma_last_run_whole(s, start, e);
    assert(s.subrange(start, e) =~= scheme + seq![':']);
    assert(spec_starts_with(s, e, seq!['/', '/'])) by {
        assert(s.subrange(e, e + 2) =~= seq!['/', '/']) by {
            assert(s[e] == lit[n + 1]);
            assert(s[e + 1] == lit[n + 2]);
        }
    }
    assert(spec_is_url_scheme(s.subrange(start, e))) by {
        let sc = scheme + seq![':'];
        if scheme == seq!['h', 't', 't', 'p'] {
            assert(sc =~= seq!['h', 't', 't', 'p', ':']);
        } else if scheme == seq!['h', 't', 't', 'p', 's'] {
            assert(sc =~= seq!['h', 't', 't', 'p', 's', ':']);
        } else if scheme == seq!['f', 't', 'p'] {
            assert(sc =~= seq!['f', 't', 'p', ':']);
        } else if scheme == seq!['m', 'a', 'i', 'l', 't', 'o'] {
            assert(sc =~= seq!['m', 'a', 'i', 'l', 't', 'o', ':']);
        } else if scheme == seq!['f', 'i', 'l', 'e'] {
            assert(sc =~= seq!['f', 'i', 'l', 'e', ':']);
        } else if scheme == seq!['d', 'a', 't', 'a'] {
            assert(sc =~= seq!['d', 'a', 't', 'a', ':']);
        } else {
            assert(sc =~= seq!['i', 'r', 'c', ':']);
        }
    }
    assert(spec_is_url_char(s[e]) && spec_is_url_char(s[e + 1]));
    assert(spec_url_run_end(s, e) == spec_url_run_end(s, e + 1));
    assert(spec_url_run_end(s, e + 1) == spec_url_run_end(s, e + 2));
    lemma_url_run_end_at_least(s, e + 2);
}

/// The URL run from `i` ends at or after `i`.
proof fn lemma_url_run_end_at_least(s: Seq<char>, i: int)
    requires
        0 <= i,
    ensures
        spec_url_run_end(s, i) >= i,
    decreases s.len() - i,
{
    if i < s.len() && spec_is_url_char(s[i]) {
        lemma_url_run_end_at_least(s, i + 1);
    }
}

/// The keyword a bare word reads as, if any: the JSON keywords always,
/// the Python ones and `undefined` with keyword repair, and, for a
/// truncated value with truncation repair, a prefix of an allowed keyword.
pub open spec fn spec_word_keyword(
    text: Seq<char>,
    truncated: bool,
    key_position: bool,
    opts: Options,
) -> Option<Token> {
    let keywords = spec_repairs(opts, 8);
    if text == seq!['t', 'r', 'u', 'e'] {
        Some(Token::Bool(true))
    } else if text == seq!['f', 'a', 'l', 's', 'e'] {
        Some(Token::Bool(false))
    } else if text == seq!['n', 'u', 'l', 'l'] {
        Some(Token::Null)
    } else if keywords && text == seq!['T', 'r', 'u', 'e'] {
        Some(Token::Bool(true))
    } else if keywords && text == seq!['F', 'a', 'l', 's', 'e'] {
        Some(Token::Bool(false))
    } else if keywords && text == seq!['N', 'o', 'n', 'e'] {
        Some(Token::Null)
    } else if keywords && text == seq!['u', 'n', 'd', 'e', 'f', 'i', 'n', 'e', 'd'] {
        Some(Token::Undefined)
    } else if truncated && !key_position && spec_repairs(opts, 1024) {
        if spec_allows(opts, 32) && text.len() <= 4 && seq!['t', 'r', 'u', 'e'].subrange(
            0,
            text.len() as int,
        ) == text {
            Some(Token::Bool(true))
        } else if spec_allows(opts, 32) && text.len() <= 5 && seq!['f', 'a', 'l', 's', 'e'].subrange(
            0,
            text.len() as int,
        ) == text {
            Some(Token::Bool(false))
        } else if spec_allows(opts, 64) && text.len() <= 4 && seq!['n', 'u', 'l', 'l'].subrange(
            0,
            text.len() as int,
        ) == text {
            Some(Token::Null)
        } else {
            None
        }
    } else {
        None
    }
}

/// The keyword table: `true`, `false`, `null` always read as their
/// values; with keyword repair so do `True`, `False`, `None`, and
/// `undefined` (as null); a complete word outside the table, or any word in
/// key position or without truncation repair, that is not in the table
/// stays a word.
pub proof fn lemma_keyword_table(text: Seq<char>, truncated: bool, key_position: bool, opts: Options)
    ensures
        text == seq!['t', 'r', 'u', 'e'] ==> spec_word_keyword(text, truncated, key_position, opts)
            == Some(Token::Bool(true)),
        text == seq!['f', 'a', 'l', 's', 'e'] ==> spec_word_keyword(
            text,
            truncated,
            key_position,
            opts,
        ) == Some(Token::Bool(false)),
        text == seq!['n', 'u', 'l', 'l'] ==> spec_word_keyword(text, truncated, key_position, opts)
            == Some(Token::Null),
        spec_repairs(opts, 8) && text == seq!['T', 'r', 'u', 'e'] ==> spec_word_keyword(
            text,
            truncated,
            key_position,
            opts,
        ) == Some(Token::Bool(true)),
        spec_repairs(opts, 8) && text == seq!['F', 'a', 'l', 's', 'e'] ==> spec_word_keyword(
            text,
            truncated,
            key_position,
            opts,
        ) == Some(Token::Bool(false)),
        spec_repairs(opts, 8) && text == seq!['N', 'o', 'n', 'e'] ==> spec_word_keyword(
            text,
            truncated,
            key_position,
            opts,
        ) == Some(Token::Null),
        spec_repairs(opts, 8) && text == seq!['u', 'n', 'd', 'e', 'f', 'i', 'n', 'e', 'd']
            ==> spec_word_keyword(text, truncated, key_position, opts) == Some(Token::Undefined),
        (!truncated || key_position || !spec_repairs(opts, 1024)) && text != seq!['t', 'r', 'u', 'e']
            && text != seq!['f', 'a', 'l', 's', 'e'] && text != seq!['n', 'u', 'l', 'l'] && !(
        spec_repairs(opts, 8) && (text == seq!['T', 'r', 'u', 'e'] || text == seq![
            'F',
            'a',
            'l',
            's',
            'e',
        ] || text == seq!['N', 'o', 'n', 'e'] || text == seq!['u', 'n', 'd', 'e', 'f', 'i', 'n', 'e', 'd']))
            ==> spec_word_keyword(text, truncated, key_position, opts) is None,
{
}

/// A value-position word cut off by the end of the input, with truncation
/// repair on, reads as the keyword it begins: any non-empty prefix of `true`
/// or `false` when cut-off booleans are allowed, of `null` when a cut-off
/// null is allowed; a single letter counts.
pub proof fn lemma_cut_keyword_prefix(text: Seq<char>, opts: Options)
    requires
        1 <= text.len(),
        spec_repairs(opts, 1024),
    ensures
        spec_allows(opts, 32) && text.len() <= 4 && text == seq!['t', 'r', 'u', 'e'].take(
            text.len() as int,
        ) ==> spec_word_keyword(text, true, false, opts) == Some(Token::Bool(true)),
        spec_allows(opts, 32) && text.len() <= 5 && text == seq!['f', 'a', 'l', 's', 'e'].take(
            text.len() as int,
        ) ==> spec_word_keyword(text, true, false, opts) == Some(Token::Bool(false)),
        spec_allows(opts, 64) && text.len() <= 4 && text == seq!['n', 'u', 'l', 'l'].take(
            text.len() as int,
        ) ==> spec_word_keyword(text, true, false, opts) == Some(Token::Null),
{
    let t = seq!['t', 'r', 'u', 'e'];
    let f = seq!['f', 'a', 'l', 's', 'e'];
    let n = seq!['n', 'u', 'l', 'l'];
    if text.len() <= 4 && text == t.take(text.len() as int) {
        assert(text[0] == 't');
        assert(t.subrange(0, text.len() as int) =~= t.take(text.len() as int));
        assert(text != seq!['f', 'a', 'l', 's', 'e']);
        assert(text != seq!['n', 'u', 'l', 'l']);
    }
    if text.len() <= 5 && text == f.take(text.len() as int) {
        assert(text[0] == 'f');
        assert(f.subrange(0, text.len() as int) =~= f.take(text.len() as int));
        assert(text != seq!['t', 'r', 'u', 'e']);
        assert(text != seq!['n', 'u', 'l', 'l']);
        if text.len() <= 4 {
            assert(t.subrange(0, text.len() as int)[0] == 't');
        }
    }
    if text.len() <= 4 && text == n.take(text.len() as int) {
        assert(text[0] == 'n');
        assert(n.subrange(0, text.len() as int) =~= n.take(text.len() as int));
        assert(text != seq!['t', 'r', 'u', 'e']);
        assert(text != seq!['f', 'a', 'l', 's', 'e']);
        assert(t.subrange(0, text.len() as int)[0] == 't');
        if text.len() <= 5 {
            assert(f.subrange(0, text.len() as int)[0] == 'f');
        }
    }
}

/// `r`, read up to `end`, is what scanning the bare word at `start` yields:
/// its keyword when it reads as one, else the word itself, flagged
/// truncated when only whitespace follows it; a quote glued to its end is
/// consumed.
pub open spec fn word_scanned(
    s: Seq<char>,
    start: int,
    key_position: bool,
    opts: Options,
    r: Token,
    end: int,
) -> bool {
    let e = spec_word_end(s, start, key_position);
    let text = s.subrange(start, e);
    let truncated = forall|j: int| e <= j < s.len() ==> spec_is_ws(#[trigger] s[j]);
    &&& end == if e < s.len() && s[e] == '"' {
        e + 1
    } else {
        e
    }
    &&& spec_word_keyword(text, truncated, key_position, opts) matches Some(tok) ==> r == tok
    &&& spec_word_keyword(text, truncated, key_position, opts) is None ==> (r matches Token::Word {
        text: t,
        truncated: tr,
    } && t@ == text && tr == truncated)
}

/// The integer part under `p`: the text read (a sign, a `0` supplied
/// after a lone `-` that ends the number, the digits), where it stops,
/// whether it has a leading zero before another digit, and the truncation
/// flag when a `0` was supplied.
pub open spec fn spec_int_part(s: Seq<char>, p: int) -> (Seq<char>, int, bool, Option<bool>) {
    let signed = 0 <= p < s.len() && s[p] == '-';
    let q = if signed {
        p + 1
    } else {
        p
    };
    let next_digit = 0 <= q < s.len() && spec_is_digit(s[q]);
    let filled = signed && !next_digit && spec_at_end_of_number(s, q);
    let head = if signed {
        if filled {
            seq!['-', '0']
        } else {
            seq!['-']
        }
    } else {
        Seq::<char>::empty()
    };
    let tr = if filled {
        Some(q >= s.len())
    } else {
        None
    };
    let invalid = 0 <= q && q + 1 < s.len() && s[q] == '0' && spec_is_digit(s[q + 1]);
    let e = digits_end(s, q);
    (head + s.subrange(q, e), e, invalid, tr)
}

/// The fraction whose `.` is at `p`, appended to the integer part `num`
/// (a `0` supplied for a missing integer part and for missing digits):
/// the text, where it stops, and the truncation flag when a `0` was
/// supplied for the digits.
pub open spec fn spec_frac_part(s: Seq<char>, p: int, num: Seq<char>) -> (Seq<char>, int, Option<bool>) {
    let q = p + 1;
    let next_digit = 0 <= q < s.len() && spec_is_digit(s[q]);
    let head = if next_digit {
        int_with_zero(num).push('.')
    } else {
        int_with_zero(num).push('.').push('0')
    };
    let tr = if next_digit {
        None
    } else {
        Some(q >= s.len())
    };
    let e = digits_end(s, q);
    (head + s.subrange(q, e), e, tr)
}

/// The exponent whose `e` or `E` is at `p`, appended to `num` (a `0`
/// supplied for missing digits): the text, where it stops, and the
/// truncation flag when a `0` was supplied.
pub open spec fn spec_exp_part(s: Seq<char>, p: int, num: Seq<char>) -> (Seq<char>, int, Option<bool>) {
    let signed = p + 1 < s.len() && (s[p + 1] == '-' || s[p + 1] == '+');
    let q = if signed {
        p + 2
    } else {
        p + 1
    };
    let n2 = if signed {
        num.push(s[p]).push(s[p + 1])
    } else {
        num.push(s[p])
    };
    let next_digit = 0 <= q < s.len() && spec_is_digit(s[q]);
    let n3 = if next_digit {
        n2
    } else {
        n2.push('0')
    };
    let tr = if next_digit {
        None
    } else {
        Some(q >= s.len())
    };
    let e = digits_end(s, q);
    (n3 + s.subrange(q, e), e, tr)
}

/// What scanning a number at a position yields.
pub enum NumberScan {
    /// The text there is not a number; nothing is read.
    NotANumber,
    /// A number token with this (valid JSON) text, read up to `end`.
    Number { text: Seq<char>, truncated: bool, end: int },
    /// A number with a leading zero, kept verbatim as a string up to `end`.
    Verbatim { end: int },
    /// The number cannot be accepted: `UnexpectedCharacter(c)` at its start.
    Rejected { c: char },
}

/// What `scan_number` yields at `p`: a clean JSON number as it stands;
/// otherwise the integer, fraction, and exponent parts read with the
/// missing digits supplied, which must end at a delimiter. A leading zero
/// keeps the text verbatim (rejected in strict mode); other repaired text
/// needs number repair.
pub open spec fn spec_scan_number(opts: Options, s: Seq<char>, p: int) -> NumberScan {
    match spec_clean_number_end(s, p) {
        Some(e) => NumberScan::Number { text: s.subrange(p, e), truncated: false, end: e },
        None => {
            let (n1, p1, invalid, t1) = spec_int_part(s, p);
            let trunc1 = match t1 {
                Some(t) => t,
                None => false,
            };
            let (n2, p2, t2) = if p1 < s.len() && s[p1] == '.' {
                spec_frac_part(s, p1, n1)
            } else {
                (n1, p1, None)
            };
            let trunc2 = match t2 {
                Some(t) => t,
                None => trunc1,
            };
            if p2 == p {
                NumberScan::NotANumber
            } else {
                let has_exp = p2 < s.len() && (s[p2] == 'e' || s[p2] == 'E');
                let invalid2 = invalid || (has_exp && n2 == seq!['-']);
                let (n3, p3, t3) = if has_exp {
                    spec_exp_part(s, p2, n2)
                } else {
                    (n2, p2, None)
                };
                let trunc3 = match t3 {
                    Some(t) => t,
                    None => trunc2,
                };
                if !spec_at_end_of_number(s, p3) {
                    NumberScan::NotANumber
                } else if invalid2 {
                    if opts.repairs@ == 0 {
                        NumberScan::Rejected { c: '0' }
                    } else {
                        NumberScan::Verbatim { end: p3 }
                    }
                } else if s.subrange(p, p3) == n3 {
                    NumberScan::Number { text: n3, truncated: trunc3, end: p3 }
                } else if !spec_repairs(opts, 16) {
                    NumberScan::Rejected { c: '.' }
                } else {
                    NumberScan::Number { text: n3, truncated: trunc3, end: p3 }
                }
            }
        },
    }
}

/// `t`, read up to `end`, is the token of a number scan `n` at `p` that
/// yields one.
pub open spec fn number_token_is(n: NumberScan, s: Seq<char>, p: int, t: Token, end: int) -> bool {
    match n {
        NumberScan::Number { text, truncated, end: e } => t matches Token::Num {
            text: x,
            truncated: tr,
        } && x@ == text && tr == truncated && end == e,
        NumberScan::Verbatim { end: e } => t matches Token::Str { text: x, truncated: tr } && x@
            == s.subrange(p, e) && !tr && end == e,
        _ => false,
    }
}

/// `r`, read up to `end`, is what scanning a number at `p` yields, or, when
/// the text there is not a number, the bare word there.
pub open spec fn number_or_word_scanned(
    s: Seq<char>,
    opts: Options,
    key_position: bool,
    p: int,
    r: Result<Token, Error>,
    end: int,
) -> bool {
    match spec_scan_number(opts, s, p) {
        NumberScan::NotANumber => r matches Ok(t) && word_scanned(s, p, key_position, opts, t, end),
        NumberScan::Rejected { c } => r matches Err(e) && e.spec_kind()
            == ErrorKind::UnexpectedCharacter(c) && e.spec_position() == p,
        n => r matches Ok(t) && number_token_is(n, s, p, t, end),
    }
}

impl<'a> Lexer<'a> {
    /// Whether the cursor sits at the end of a number: end of input, a
    /// delimiter, or whitespace.
    pub fn at_end_of_number(&self) -> (r: bool)
        requires
            self.wf(),
        ensures
            r == spec_at_end_of_number(self.src@, self.pos as int),
    {
        match self.peek_char() {
            None => true,
            Some(c) => is_delimiter(c) || is_ws(c),
        }
    }

    /// Appends the ASCII digits under the cursor to `out`.
    pub fn take_digits(&mut self, out: &mut Vec<char>)
        requires
            old(self).wf(),
        ensures
            lexer_advance(*old(self), *final(self)),
            final(out)@ == old(out)@ + old(self).src@.subrange(
                old(self).pos as int,
                final(self).pos as int,
            ),
            all_digits(old(self).src@.subrange(old(self).pos as int, final(self).pos as int)),
            final(self).pos < final(self).src@.len() ==> !spec_is_digit(
                final(self).src@[final(self).pos as int],
            ),
            final(self).pos == digits_end(old(self).src@, old(self).pos as int),
    {
        while self.pos < self.src.len() && is_digit(self.src[self.pos])
            invariant
                lexer_advance(*old(self), *self),
                digits_end(self.src@, self.pos as int) == digits_end(
                    old(self).src@,
                    old(self).pos as int,
                ),
                out@ == old(out)@ + old(self).src@.subrange(old(self).pos as int, self.pos as int),
                all_digits(old(self).src@.subrange(old(self).pos as int, self.pos as int)),
            decreases self.src@.len() - self.pos,
        {
            let ghost before = out@;
            out.push(self.src[self.pos]);
            self.pos = self.pos + 1;
            proof {
                assert(out@ =~= old(out)@ + old(self).src@.subrange(
                    old(self).pos as int,
                    self.pos as int,
                ));
                let d = old(self).src@.subrange(old(self).pos as int, self.pos as int);
                assert forall|k: int| 0 <= k < d.len() implies spec_is_digit(#[trigger] d[k]) by {
                    if k < d.len() - 1 {
                        assert(d[k] == old(self).src@.subrange(
                            old(self).pos as int,
                            self.pos - 1,
                        )[k]);
                    }
                }
            }
        }
    }

    /// End position of a number at the cursor that is already valid JSON
    /// and ends at a delimiter, whitespace, or the end of input; `None` when
    /// it needs the repair-oriented slow path.
    pub fn clean_number_end(&self) -> (r: Option<usize>)
        requires
            self.wf(),
        ensures
            r matches Some(e) ==> self.pos < e <= self.src@.len(),
            r matches Some(e) ==> spec_is_json_number(self.src@.subrange(self.pos as int, e as int)),
            spec_clean_number_end(self.src@, self.pos as int) matches Some(e) ==> self.pos < e
                <= self.src@.len(),
            match spec_clean_number_end(self.src@, self.pos as int) {
                Some(e) => r == Some(e as usize),
                None => r is None,
            },
    {
        let r = self.clean_number_scan();
        proof {
            if let Some(e) = r {
                lemma_clean_end_is_number(self.src@, self.pos as int);
            }
        }
        r
    }

    /// The scan behind `clean_number_end`.
    fn clean_number_scan(&self) -> (r: Option<usize>)
        requires
            self.wf(),
        ensures
            r matches Some(e) ==> self.pos < e <= self.src@.len(),
            match spec_clean_number_end(self.src@, self.pos as int) {
                Some(e) => r == Some(e as usize),
                None => r is None,
            },
    {
        let s = self.src;
        let n = s.len();
        let p = self.pos;
        let mut i = p;
        if i < n && s[i] == '-' {
            i = i + 1;
        }
        let ghost a = i - p;
        if i >= n {
            return None;
        }
        if s[i] == '0' {
            i = i + 1;
            if i < n && is_digit(s[i]) {
                return None;
            }
        } else if is_digit(s[i]) {
            let first = i;
            i = i + 1;
            while i < n && is_digit(s[i])
                invariant
                    p <= first < i <= n,
                    n == s@.len(),
                    '1' <= s@[first as int] <= '9',
                    digits_end(s@, first as int) == digits_end(s@, i as int),
                decreases n - i,
            {
                i = i + 1;
            }
        } else {
            return None;
        }
        let ghost b = i - p;
        if i < n && s[i] == '.' {
            i = i + 1;
            let digits = i;
            while i < n && is_digit(s[i])
                invariant
                    p < digits <= i <= n,
                    n == s@.len(),
                    digits_end(s@, digits as int) == digits_end(s@, i as int),
                decreases n - i,
            {
                i = i + 1;
            }
            if i == digits {
                return None;
            }
        }
        let ghost c = i - p;
        if i < n && (s[i] == 'e' || s[i] == 'E') {
            i = i + 1;
            if i < n && (s[i] == '+' || s[i] == '-') {
                i = i + 1;
            }
            let digits = i;
            while i < n && is_digit(s[i])
                invariant
                    p < digits <= i <= n,
                    n == s@.len(),
                    digits_end(s@, digits as int) == digits_end(s@, i as int),
                decreases n - i,
            {
                i = i + 1;
            }
            if i == digits {
                return None;
            }
        }
        if i == p {
            return None;
        }
        if i >= n {
            return Some(i);
        }
        let c = s[i];
        if (c as u32) < 0x80 {
            if is_delimiter(c) || is_ws(c) {
                Some(i)
            } else {
                None
            }
        } else {
            None
        }
    }

    /// Reads the sign and integer digits of a number that needs repair into
    /// `num`: a lone `-` before the end of the number becomes `-0`. Returns
    /// whether the digits start with a leading zero, and the new truncation
    /// flag when a `0` was supplied.
    pub fn scan_integer_part(&mut self, num: &mut Vec<char>) -> (r: (bool, Option<bool>))
        requires
            old(self).wf(),
            old(num)@.len() == 0,
        ensures
            lexer_advance(*old(self), *final(self)),
            final(num)@.len() == 0 ==> final(self).pos == old(self).pos,
            final(num)@.len() > 0 ==> final(self).pos > old(self).pos,
            final(num)@.len() > 0 && final(num)@[0] != '-' ==> spec_is_digit(final(num)@[0]),
            !r.0 && final(num)@.len() > sign_len(final(num)@) ==> spec_is_json_int(
                final(num)@.subrange(sign_len(final(num)@), final(num)@.len() as int),
            ),
            final(num)@ =~= seq!['-'] ==> !spec_at_end_of_number(
                final(self).src@,
                final(self).pos as int,
            ),
            final(self).pos < final(self).src@.len() ==> !spec_is_digit(
                final(self).src@[final(self).pos as int],
            ),
            (final(num)@, final(self).pos as int, r.0, r.1) == spec_int_part(
                old(self).src@,
                old(self).pos as int,
            ),
    {
        let mut truncated: Option<bool> = None;
        let mut filled = false;
        if self.peek_char() == Some('-') {
            num.push('-');
            self.bump_char();
            let next_digit = match self.peek_char() {
                Some(c) => is_digit(c),
                None => false,
            };
            if !next_digit && self.at_end_of_number() {
                num.push('0');
                filled = true;
                truncated = Some(self.at_end());
            }
        }
        let second_digit = match self.peek_second() {
            Some(c) => is_digit(c),
            None => false,
        };
        let invalid = self.peek_char() == Some('0') && second_digit;
        let ghost p0 = self.pos as int;
        let ghost before = num@;
        let ghost at_digit = p0 < self.src@.len() && spec_is_digit(self.src@[p0]);
        self.take_digits(num);
        proof {
            let digits = self.src@.subrange(p0, self.pos as int);
            assert(num@ =~= before + digits);
            if self.pos > p0 {
                assert(digits[0] == self.src@[p0]);
            }
            if at_digit {
                assert(self.pos > p0);
            }
            let a = sign_len(num@);
            if !invalid && num@.len() > a {
                let ip = num@.subrange(a, num@.len() as int);
                if filled {
                    assert(ip =~= seq!['0']);
                } else {
                    assert(ip =~= digits);
                    if digits.len() >= 2 {
                        assert(digits[1] == self.src@[p0 + 1]);
                    } else if digits[0] == '0' {
                        assert(ip =~= seq!['0']);
                    }
                }
            }
            if num@.len() > 0 && num@[0] != '-' {
                assert(num@[0] == digits[0]);
            }
        }
        (invalid, truncated)
    }

    /// Reads a fraction whose `.` is under the cursor into `num`, supplying
    /// a `0` for a missing integer part and for missing fraction digits.
    /// Returns the new truncation flag when a `0` was supplied for the digits.
    pub fn scan_fraction(&mut self, num: &mut Vec<char>) -> (r: Option<bool>)
        requires
            old(self).wf(),
            old(self).pos < old(self).src@.len(),
            old(self).src@[old(self).pos as int] == '.',
        ensures
            lexer_advance(*old(self), *final(self)),
            final(self).pos > old(self).pos,
            ({
                let z = int_with_zero(old(num)@);
                &&& final(num)@.len() >= z.len() + 2
                &&& final(num)@.subrange(0, z.len() as int) == z
                &&& final(num)@[z.len() as int] == '.'
                &&& all_digits(final(num)@.subrange(z.len() + 1int, final(num)@.len() as int))
            }),
            (final(num)@, final(self).pos as int, r) == spec_frac_part(
                old(self).src@,
                old(self).pos as int,
                old(num)@,
            ),
    {
        let dash: [char; 1] = ['-'];
        proof {
            assert(dash@ =~= seq!['-']);
        }
        if num.len() == 0 || vec_eq_lit(&num, &dash) {
            num.push('0');
        }
        let ghost z = num@;
        proof {
            assert(z =~= int_with_zero(old(num)@));
        }
        num.push('.');
        self.bump_char();
        let next_digit = match self.peek_char() {
            Some(c) => is_digit(c),
            None => false,
        };
        let mut truncated: Option<bool> = None;
        if !next_digit {
            num.push('0');
            truncated = Some(self.at_end());
        }
        let ghost before = num@;
        let ghost p0 = self.pos as int;
        self.take_digits(num);
        proof {
            let fd = self.src@.subrange(p0, self.pos as int);
            assert(num@ =~= before + fd);
            let tail = num@.subrange(z.len() + 1int, num@.len() as int);
            assert forall|k: int| 0 <= k < tail.len() implies spec_is_digit(#[trigger] tail[k]) by {
                if z.len() + 1 + k < before.len() {
                    assert(tail[k] == before[z.len() + 1 + k]);
                } else {
                    assert(tail[k] == fd[z.len() + 1 + k - before.len()]);
                }
            }
            assert(num@.subrange(0, z.len() as int) =~= z);
        }
        truncated
    }

    /// Reads an exponent whose `e`/`E` is under the cursor into `num`,
    /// supplying a `0` for missing digits. Returns the new truncation flag
    /// when a `0` was supplied.
    pub fn scan_exponent(&mut self, num: &mut Vec<char>) -> (r: Option<bool>)
        requires
            old(self).wf(),
            old(self).pos < old(self).src@.len(),
            old(self).src@[old(self).pos as int] == 'e' || old(self).src@[old(self).pos as int]
                == 'E',
        ensures
            lexer_advance(*old(self), *final(self)),
            final(self).pos > old(self).pos,
            final(num)@.len() > old(num)@.len(),
            final(num)@.subrange(0, old(num)@.len() as int) == old(num)@,
            spec_is_json_exp(final(num)@.subrange(old(num)@.len() as int, final(num)@.len() as int)),
            (final(num)@, final(self).pos as int, r) == spec_exp_part(
                old(self).src@,
                old(self).pos as int,
                old(num)@,
            ),
    {
        let m = num.len();
        if let Some(c) = self.bump_char() {
            num.push(c);
        }
        let mut sign: usize = 1;
        if self.peek_char() == Some('-') || self.peek_char() == Some('+') {
            if let Some(c) = self.bump_char() {
                num.push(c);
            }
            sign = 2;
        }
        let next_digit = match self.peek_char() {
            Some(c) => is_digit(c),
            None => false,
        };
        let mut truncated: Option<bool> = None;
        if !next_digit {
            num.push('0');
            truncated = Some(self.at_end());
        }
        let ghost before = num@;
        let ghost p0 = self.pos as int;
        self.take_digits(num);
        proof {
            let ed = self.src@.subrange(p0, self.pos as int);
            assert(num@ =~= before + ed);
            let e = num@.subrange(m as int, num@.len() as int);
            assert(e.len() >= sign + 1);
            assert forall|k: int| 0 <= k < e.len() - sign implies spec_is_digit(
                #[trigger] e.subrange(sign as int, e.len() as int)[k],
            ) by {
                if m + sign + k < before.len() {
                    assert(e.subrange(sign as int, e.len() as int)[k] == before[m + sign + k]);
                } else {
                    assert(e.subrange(sign as int, e.len() as int)[k] == ed[m + sign + k
                        - before.len()]);
                }
            }
            if sign == 1 && e.len() >= 2 && (e[1] == '+' || e[1] == '-') {
                assert(spec_is_digit(e.subrange(1, e.len() as int)[0]));
            }
            assert(num@.subrange(0, m as int) =~= old(num)@);
        }
        truncated
    }

    /// Scans a number, normalizing its text into valid JSON. Returns `None`
    /// (cursor unchanged) when the text turns out not to be a number; a
    /// number with leading zeros is kept verbatim as a string.
    #[verifier::rlimit(40)]
    pub fn scan_number(&mut self) -> (r: Result<Option<Token>, Error>)
        requires
            old(self).wf(),
        ensures
            lexer_advance(*old(self), *final(self)),
            r matches Ok(Some(_)) ==> final(self).pos > old(self).pos,
            r matches Ok(None) ==> final(self).pos == old(self).pos,
            r matches Ok(Some(t)) ==> (t is Num || t is Str),
            r matches Ok(Some(Token::Num { text, .. })) ==> spec_is_json_number(text@),
            r matches Err(e) ==> e.spec_position() <= old(self).src@.len(),
            spec_clean_number_end(old(self).src@, old(self).pos as int) matches Some(e) ==> (r matches Ok(
                Some(Token::Num { text, truncated }),
            ) && text@ == old(self).src@.subrange(old(self).pos as int, e) && !truncated
                && final(self).pos == e),
            match spec_scan_number(old(self).opts, old(self).src@, old(self).pos as int) {
                NumberScan::NotANumber => r matches Ok(None) && final(self).pos == old(self).pos,
                NumberScan::Number { text, truncated, end } => r matches Ok(
                    Some(Token::Num { text: t, truncated: tr }),
                ) && t@ == text && tr == truncated && final(self).pos == end,
                NumberScan::Verbatim { end } => r matches Ok(Some(Token::Str { text: t, truncated: tr }))
                    && t@ == old(self).src@.subrange(old(self).pos as int, end) && !tr
                    && final(self).pos == end,
                NumberScan::Rejected { c } => r matches Err(e) && e.spec_kind()
                    == ErrorKind::UnexpectedCharacter(c) && e.spec_position() == old(self).pos,
            },
    {
        if let Some(end) = self.clean_number_end() {
            let text = copy_span(self.src, self.pos, end);
            self.pos = end;
            return Ok(Some(Token::Num { text, truncated: false }));
        }
        let start = self.pos;
        let mut num: Vec<char> = Vec::new();
        let mut truncated = false;
        let (mut invalid, t) = self.scan_integer_part(&mut num);
        if let Some(t) = t {
            truncated = t;
        }
        let ghost a = sign_len(num@);
        let ghost int_num = num@;
        let ghost int_pos = self.pos as int;
        let ghost mut b: int = num@.len() as int;
        let ghost mut has_frac = false;
        if self.peek_char() == Some('.') {
            if let Some(t) = self.scan_fraction(&mut num) {
                truncated = t;
            }
            proof {
                b = int_with_zero(int_num).len() as int;
                has_frac = true;
            }
        }
        let ghost c = num@.len() as int;
        if self.pos == start {
            return Ok(None);
        }
        let ghost frac_num = num@;
        let ghost mut exp_taken = false;
        if self.peek_char() == Some('e') || self.peek_char() == Some('E') {
            let dash: [char; 1] = ['-'];
            proof {
                assert(dash@ =~= seq!['-']);
                exp_taken = true;
            }
            if vec_eq_lit(&num, &dash) {
                invalid = true;
            }
            if let Some(t) = self.scan_exponent(&mut num) {
                truncated = t;
            }
        }
        if !self.at_end_of_number() {
            self.pos = start;
            return Ok(None);
        }
        proof {
            if !invalid {
                assert(json_number_parts(num@, a, b, c)) by {
                    if !exp_taken {
                        assert(num@.subrange(0, c) =~= frac_num);
                        assert(num@.subrange(c, num@.len() as int) =~= Seq::<char>::empty());
                    }
                    lemma_number_parts(int_num, frac_num, num@, has_frac, a, b, c);
                    if b == a {
                        // A lone `-`: the exponent marks it invalid, and
                        // otherwise the cursor has not moved past the `-`.
                        assert(int_num =~= seq!['-']);
                        assert(!exp_taken);
                        assert(false);
                    }
                }
            }
        }
        let raw = copy_span(self.src, start, self.pos);
        if invalid {
            if self.strict() {
                return Err(Error::new(ErrorKind::UnexpectedCharacter('0'), start));
            }
            return Ok(Some(Token::Str { text: raw, truncated: false }));
        }
        if vec_eq_lit(&raw, &num) {
            return Ok(Some(Token::Num { text: raw, truncated }));
        }
        if !self.opts.repairs(Repairs::NUMBERS()) {
            return Err(Error::new(ErrorKind::UnexpectedCharacter('.'), start));
        }
        Ok(Some(Token::Num { text: num, truncated }))
    }

    /// Scans a bare word: an unquoted key, an unquoted value, or a function
    /// name. Spaces and tabs are word content; line breaks, quotes, and
    /// structural delimiters end a word.
    #[verifier::rlimit(60)]
    #[verifier::spinoff_prover]
    pub fn scan_word(&mut self, key_position: bool) -> (r: Token)
        requires
            old(self).wf(),
            old(self).pos < old(self).src@.len(),
        ensures
            lexer_advance(*old(self), *final(self)),
            final(self).pos > old(self).pos,
            !(r is Num),
            !(r is Str),
            spec_keyword_at(old(self).src@, old(self).pos as int, seq!['t', 'r', 'u', 'e']) ==> r
                == Token::Bool(true) && final(self).pos == old(self).pos + 4,
            spec_keyword_at(old(self).src@, old(self).pos as int, seq!['f', 'a', 'l', 's', 'e'])
                ==> r == Token::Bool(false) && final(self).pos == old(self).pos + 5,
            spec_keyword_at(old(self).src@, old(self).pos as int, seq!['n', 'u', 'l', 'l']) ==> r
                == Token::Null && final(self).pos == old(self).pos + 4,
            word_scanned(
                old(self).src@,
                old(self).pos as int,
                key_position,
                old(self).opts,
                r,
                final(self).pos as int,
            ),
    {
        let start = self.pos;
        let n = self.src.len();
        let ghost kw_len: int = if spec_keyword_at(self.src@, start as int, seq!['t', 'r', 'u', 'e'])
            || spec_keyword_at(self.src@, start as int, seq!['n', 'u', 'l', 'l']) {
            4
        } else if spec_keyword_at(self.src@, start as int, seq!['f', 'a', 'l', 's', 'e']) {
            5
        } else {
            0
        };
        proof {
            if kw_len > 0 {
                assert forall|k: int| start <= k < start + kw_len implies ('a' <= #[trigger] self.src@[k]
                    <= 'z') by {
                    if spec_keyword_at(self.src@, start as int, seq!['t', 'r', 'u', 'e']) {
                        assert(self.src@.subrange(start as int, start + 4)[k - start] == self.src@[k]);
                    } else if spec_keyword_at(self.src@, start as int, seq!['n', 'u', 'l', 'l']) {
                        assert(self.src@.subrange(start as int, start + 4)[k - start] == self.src@[k]);
                    } else {
                        assert(self.src@.subrange(start as int, start + 5)[k - start] == self.src@[k]);
                    }
                }
            }
        }
        while self.pos < n
            invariant
                lexer_advance(*old(self), *self),
                start == old(self).pos,
                n == self.src@.len(),
                kw_len > 0 ==> self.pos <= start + kw_len <= n,
                kw_len > 0 ==> forall|k: int| start <= k < start + kw_len ==> ('a' <= #[trigger] self.src@[k]
                    <= 'z'),
                kw_len > 0 ==> (start + kw_len == n || self.src@[start + kw_len] == ',' || self.src@[start
                    + kw_len] == ']' || self.src@[start + kw_len] == '}'),
                spec_word_run_end(self.src@, self.pos as int, key_position) == spec_word_run_end(
                    self.src@,
                    start as int,
                    key_position,
                ),
            ensures
                kw_len > 0 ==> self.pos == start + kw_len,
                self.pos == spec_word_run_end(self.src@, start as int, key_position),
                lexer_advance(*old(self), *self),
            decreases n - self.pos,
        {
            let c = self.src[self.pos];
            if (c as u32) < 0x80 {
                let stop = c == '\n' || c == '\r' || c == '"' || c == '\'' || c == '(' || c == ')'
                    || c == ',' || c == '/' || c == '+' || c == '[' || c == ']' || c == '{' || c
                    == '}' || (key_position && c == ':');
                if stop {
                    break;
                }
                self.pos = self.pos + 1;
            } else {
                if is_quote(c) {
                    break;
                }
                self.pos = self.pos + 1;
            }
        }
        let ghost run_end = self.pos as int;
        // Trailing whitespace is trivia, not word content.
        while self.pos > start && is_ws(self.src[self.pos - 1])
            invariant
                lexer_step(*old(self), *self),
                start == old(self).pos,
                start <= self.pos,
                spec_trim_ws_back(self.src@, start as int, self.pos as int) == spec_trim_ws_back(
                    self.src@,
                    start as int,
                    run_end,
                ),
                kw_len > 0 ==> self.pos == start + kw_len,
                kw_len > 0 ==> forall|k: int| start <= k < start + kw_len ==> ('a' <= #[trigger] self.src@[k]
                    <= 'z'),
            decreases self.pos,
        {
            proof {
                if kw_len > 0 {
                    assert('a' <= self.src@[self.pos - 1] <= 'z');
                }
            }
            self.pos = self.pos - 1;
        }
        if self.pos == start {
            self.bump_char();
        }
        proof {
            if kw_len > 0 {
                assert('a' <= self.src@[self.pos - 1] <= 'z');
            }
        }
        // A URL must survive the `//` comment scanner; the scheme may follow
        // other words and spaces, so test the last segment.
        let slash2: [char; 2] = ['/', '/'];
        proof {
            assert(slash2@ =~= seq!['/', '/']);
        }
        let ghost e2 = self.pos as int;
        if self.src[self.pos - 1] == ':' && self.rest_starts_with(&slash2) {
            let mut seg = self.pos;
            while seg > start && !is_ws(self.src[seg - 1])
                invariant
                    start <= seg <= self.pos <= self.src@.len(),
                    spec_last_run_start(self.src@, start as int, seg as int) == spec_last_run_start(
                        self.src@,
                        start as int,
                        self.pos as int,
                    ),
                decreases seg,
            {
                seg = seg - 1;
            }
            if is_url_scheme(self.src, seg, self.pos) {
                while self.pos < n && is_url_char(self.src[self.pos])
                    invariant
                        lexer_advance(*old(self), *self),
                        start < self.pos,
                        n == self.src@.len(),
                        e2 <= self.pos,
                        spec_url_run_end(self.src@, self.pos as int) == spec_url_run_end(
                            self.src@,
                            e2,
                        ),
                    decreases n - self.pos,
                {
                    self.pos = self.pos + 1;
                }
            }
        }
        proof {
            assert(self.pos == spec_word_end(self.src@, start as int, key_position));
        }
        let text = copy_span(self.src, start, self.pos);
        let truncated = self.at_effective_end();
        let ghost end_of_word = self.pos;
        if self.peek_char() == Some('"') {
            self.bump_char();
        }
        proof {
            if kw_len > 0 {
                assert(end_of_word == start + kw_len);
                assert(self.pos == end_of_word);
            }
        }
        let kw_true: [char; 4] = ['t', 'r', 'u', 'e'];
        let kw_false: [char; 5] = ['f', 'a', 'l', 's', 'e'];
        let kw_null: [char; 4] = ['n', 'u', 'l', 'l'];
        proof {
            assert(kw_true@ =~= seq!['t', 'r', 'u', 'e']);
            assert(kw_false@ =~= seq!['f', 'a', 'l', 's', 'e']);
            assert(kw_null@ =~= seq!['n', 'u', 'l', 'l']);
        }
        let kw_true_py: [char; 4] = ['T', 'r', 'u', 'e'];
        let kw_false_py: [char; 5] = ['F', 'a', 'l', 's', 'e'];
        let kw_none_py: [char; 4] = ['N', 'o', 'n', 'e'];
        let kw_undefined: [char; 9] = ['u', 'n', 'd', 'e', 'f', 'i', 'n', 'e', 'd'];
        let keywords = self.opts.repairs(Repairs::KEYWORDS());
        if vec_eq_lit(&text, &kw_true) {
            Token::Bool(true)
        } else if vec_eq_lit(&text, &kw_false) {
            Token::Bool(false)
        } else if vec_eq_lit(&text, &kw_null) {
            Token::Null
        } else if keywords && vec_eq_lit(&text, &kw_true_py) {
            Token::Bool(true)
        } else if keywords && vec_eq_lit(&text, &kw_false_py) {
            Token::Bool(false)
        } else if keywords && vec_eq_lit(&text, &kw_none_py) {
            Token::Null
        } else if keywords && vec_eq_lit(&text, &kw_undefined) {
            Token::Undefined
        } else if truncated && !key_position && self.opts.repairs(Repairs::TRUNCATION()) {
            if self.opts.allows(Allow::BOOL()) {
                if is_prefix_of_lit(&text, &kw_true) {
                    return Token::Bool(true);
                }
                if is_prefix_of_lit(&text, &kw_false) {
                    return Token::Bool(false);
                }
            }
            if self.opts.allows(Allow::NULL()) && is_prefix_of_lit(&text, &kw_null) {
                return Token::Null;
            }
            Token::Word { text, truncated }
        } else {
            Token::Word { text, truncated }
        }
    }

    /// Scans a JavaScript regular expression literal as a string value.
    pub fn scan_regex(&mut self) -> (r: Token)
        requires
            old(self).wf(),
            old(self).pos < old(self).src@.len(),
        ensures
            lexer_advance(*old(self), *final(self)),
            final(self).pos > old(self).pos,
            final(self).pos == spec_regex_end(old(self).src@, old(self).pos + 1),
            r matches Token::Str { text, truncated } && text@ == old(self).src@.subrange(
                old(self).pos as int,
                final(self).pos as int,
            ) && truncated == (final(self).pos == old(self).src@.len()),
    {
        let start = self.pos;
        self.bump_char();
        while self.pos < self.src.len()
            invariant_except_break
                spec_regex_end(self.src@, self.pos as int) == spec_regex_end(
                    self.src@,
                    start + 1,
                ),
            invariant
                lexer_advance(*old(self), *self),
                self.pos > start,
                start == old(self).pos,
            ensures
                self.pos == spec_regex_end(self.src@, start + 1),
                lexer_advance(*old(self), *self),
                self.pos > start,
            decreases self.src@.len() - self.pos,
        {
            let c = self.src[self.pos];
            if c == '\\' {
                self.bump_char();
                self.bump_char();
                continue;
            }
            self.bump_char();
            if c == '/' {
                break;
            }
        }
        let text = copy_span(self.src, start, self.pos);
        Token::Str { text, truncated: self.at_end() }
    }
}


/// Whether a candidate closing quote whose next position is `pos` really
/// ends the string: same-line trivia skipped, the end of input or a
/// delimiter follows (at the top level, not a closer that belongs to an
/// unclosed bracket of `content`), or, once, a quote that does not itself
/// end the string.
pub open spec fn spec_end_quote_is_real(
    opts: Options,
    s: Seq<char>,
    pos: int,
    in_container: bool,
    depth: int,
    content: Seq<char>,
) -> bool
    decreases 1 - depth,
{
    let q = spec_skip_line_trivia(opts, s, pos);
    if q < 0 || q >= s.len() {
        true
    } else {
        let c = s[q];
        if spec_is_delimiter(c) {
            in_container || !(spec_opener_of(c) matches Some(open) && spec_count(content, open)
                > spec_count(content, c))
        } else if spec_is_quote(c) && depth == 0 {
            !spec_end_quote_is_real(opts, s, q + 1, in_container, 1, content)
        } else {
            false
        }
    }
}

impl<'a> Lexer<'a> {
    /// Whether a candidate closing quote is followed by a delimiter or by the
    /// end of input. `content` is the string value decoded so far: at the top
    /// level a closing bracket that would land inside an unclosed bracket of
    /// the same kind (`(72")`) does not end the string. A quote right after
    /// the candidate (`"The TV is 72""`) makes the candidate embedded when
    /// that next quote is a real end quote.
    pub fn end_quote_is_real(&mut self, depth: u8, content: &[char]) -> (r: bool)
        requires
            old(self).wf(),
            depth <= 1,
        ensures
            *final(self) == *old(self),
            string_follow(old(self).src@, old(self).pos as int, old(self).in_container) ==> r,
            r == spec_end_quote_is_real(
                old(self).opts,
                old(self).src@,
                old(self).pos as int,
                old(self).in_container,
                depth as int,
                content@,
            ),
        decreases 1 - depth,
    {
        let save = self.pos;
        self.skip_line_trivia();
        let is_real = match self.peek_char() {
            None => true,
            Some(c) => {
                if is_delimiter(c) {
                    self.in_container || !is_inside_unclosed_bracket(content, c)
                } else if is_quote(c) && depth == 0 {
                    self.bump_char();
                    !self.end_quote_is_real(depth + 1, content)
                } else {
                    false
                }
            },
        };
        self.pos = save;
        is_real
    }
}

/// What may follow a string in canonical JSON text: the end of input, or,
/// inside a container, `,`, `:`, `]`, or `}`.
pub open spec fn string_follow(src: Seq<char>, e: int, in_container: bool) -> bool {
    e == src.len() || (0 <= e < src.len() && in_container && (src[e] == ',' || src[e] == ':'
        || src[e] == ']' || src[e] == '}'))
}

/// The canonical literal of `sv` stands at `pos`, followed by what may
/// follow a string.
pub open spec fn canon_string_at(src: Seq<char>, pos: int, sv: Seq<char>, in_container: bool) -> bool {
    let q = spec_quote(sv);
    &&& 0 <= pos
    &&& pos + q.len() <= src.len()
    &&& src.subrange(pos, pos + q.len()) == q
    &&& string_follow(src, pos + q.len(), in_container)
}

proof fn lemma_escape_body_concat(a: Seq<char>, b: Seq<char>)
    ensures
        spec_escape_body(a + b) == spec_escape_body(a) + spec_escape_body(b),
    decreases b.len(),
{
    if b.len() == 0 {
        assert(a + b =~= a);
        assert(spec_escape_body(a) + spec_escape_body(b) =~= spec_escape_body(a));
    } else {
        assert((a + b).drop_last() =~= a + b.drop_last());
        assert((a + b).last() == b.last());
        lemma_escape_body_concat(a, b.drop_last());
        assert(spec_escape_body(a + b) =~= spec_escape_body(a) + spec_escape_body(b));
    }
}

/// The escape of one character: a backslash sequence, or the character
/// itself when it is neither a quote, a backslash, nor a control character.
proof fn lemma_escape_char_shape(c: char)
    ensures
        spec_escape_char(c).len() >= 1,
        spec_escape_char(c)[0] == '\\' || (spec_escape_char(c) == seq![c] && c != '"' && c != '\\'
            && (c as u32) >= 0x20),
{
}

/// The escapes of `sv` split at the `m`-th character.
proof fn lemma_escape_unit(sv: Seq<char>, m: int)
    requires
        0 <= m < sv.len(),
    ensures
        spec_escape_body(sv) == spec_escape_body(sv.take(m)) + spec_escape_char(sv[m])
            + spec_escape_body(sv.skip(m + 1)),
        spec_escape_body(sv.take(m + 1)) == spec_escape_body(sv.take(m)) + spec_escape_char(sv[m]),
{
    assert(sv.take(m + 1).drop_last() =~= sv.take(m));
    assert(sv.take(m + 1) + sv.skip(m + 1) =~= sv);
    lemma_escape_body_concat(sv.take(m + 1), sv.skip(m + 1));
}

/// The escapes of a prefix are a prefix of the escapes.
proof fn lemma_escape_prefix(sv: Seq<char>, m: int)
    requires
        0 <= m <= sv.len(),
    ensures
        spec_escape_body(sv) == spec_escape_body(sv.take(m)) + spec_escape_body(sv.skip(m)),
        spec_escape_body(sv.take(m)).len() <= spec_escape_body(sv).len(),
        m == sv.len() ==> spec_escape_body(sv.take(m)) == spec_escape_body(sv),
{
    assert(sv.take(m) + sv.skip(m) =~= sv);
    lemma_escape_body_concat(sv.take(m), sv.skip(m));
    if m == sv.len() {
        assert(sv.take(m) =~= sv);
    }
}

/// Where the `m`-th escape unit of a canonical string at `pos` stands.
proof fn lemma_canon_unit(src: Seq<char>, pos: int, sv: Seq<char>, m: int)
    requires
        0 <= pos,
        pos + spec_quote(sv).len() <= src.len(),
        src.subrange(pos, pos + spec_quote(sv).len()) == spec_quote(sv),
        0 <= m <= sv.len(),
    ensures
        ({
            let start = pos + 1;
            let at = start + spec_escape_body(sv.take(m)).len();
            &&& at < src.len()
            &&& at <= start + spec_escape_body(sv).len()
            &&& m == sv.len() ==> at == start + spec_escape_body(sv).len() && src[at] == '"'
            &&& m < sv.len() ==> at + spec_escape_char(sv[m]).len() <= start + spec_escape_body(
                sv,
            ).len() && src.subrange(at, at + spec_escape_char(sv[m]).len()) == spec_escape_char(
                sv[m],
            )
            &&& m < sv.len() ==> src[at] == spec_escape_char(sv[m])[0]
        }),
{
    let q = spec_quote(sv);
    let b = spec_escape_body(sv);
    let start = pos + 1;
    lemma_escape_prefix(sv, m);
    let at = start + spec_escape_body(sv.take(m)).len();
    assert forall|k: int| 0 <= k < q.len() implies #[trigger] src[pos + k] == q[k] by {
        assert(src.subrange(pos, pos + q.len())[k] == src[pos + k]);
    }
    assert(q.len() == b.len() + 2);
    assert(src[start + b.len()] == q[b.len() + 1int]);
    if m < sv.len() {
        lemma_escape_unit(sv, m);
        lemma_escape_char_shape(sv[m]);
        let u = spec_escape_char(sv[m]);
        let e0 = spec_escape_body(sv.take(m));
        assert forall|k: int| 0 <= k < u.len() implies #[trigger] src.subrange(at, at + u.len())[k]
            == u[k] by {
            assert(b[e0.len() + k] == u[k]);
            assert(q[1 + e0.len() + k] == b[e0.len() + k]);
            assert(src[pos + (1 + e0.len() + k)] == q[1 + e0.len() + k]);
        }
        assert(src.subrange(at, at + u.len()) =~= u);
        assert(src[at] == src.subrange(at, at + u.len())[0]);
    }
}

/// A hexadecimal digit written by the escaper decodes to its value.
proof fn lemma_hex_digit(d: u32)
    requires
        d < 16,
    ensures
        spec_hex_value(crate::value::spec_hex_digit(d)) == Some(d),
        spec_hex_nat(crate::value::spec_hex_digit(d)) == d,
{
}

/// An escape sequence written by the escaper decodes back to its character.
proof fn lemma_escape_decode(src: Seq<char>, at: int, c: char, strict: bool, text: Seq<char>)
    requires
        0 <= at,
        at + spec_escape_char(c).len() <= src.len(),
        src.subrange(at, at + spec_escape_char(c).len()) == spec_escape_char(c),
        spec_escape_char(c)[0] == '\\',
    ensures
        at + 1 < src.len(),
        src[at + 1] != 'x',
        src[at + 1] == 'u' ==> spec_unicode_step(src, at + 2, strict, text) == (
            0int,
            at + spec_escape_char(c).len(),
            text.push(c),
        ),
        src[at + 1] != 'u' ==> spec_simple_escape(src[at + 1]) == c && spec_escape_char(c).len()
            == 2,
{
    let u = spec_escape_char(c);
    assert forall|k: int| 0 <= k < u.len() implies #[trigger] src[at + k] == u[k] by {
        assert(src.subrange(at, at + u.len())[k] == src[at + k]);
    }
    assert(src[at + 1] == u[1]);
    if u[1] == 'u' {
        let code = c as u32;
        assert(code < 0x20);
        lemma_hex_digit(code / 16);
        lemma_hex_digit(code % 16);
        assert(src[at + 2] == u[2]);
        assert(src[at + 3] == u[3]);
        assert(src[at + 4] == u[4]);
        assert(src[at + 5] == u[5]);
        assert(spec_hex_value('0') == Some(0u32));
        assert(spec_all_hex(src, at + 2, 4)) by {
            assert forall|j: int| 0 <= j < 4 implies (#[trigger] spec_hex_value(src[at + 2 + j])) is Some by {
                assert(src[at + 2 + j] == u[2 + j]);
            }
        }
        reveal_with_fuel(spec_hex_run_value, 5);
        assert(spec_hex_run_value(src, at + 2, 4) == 16 * (code / 16) + code % 16);
        assert(spec_hex4(src, at + 2) == Some(code));
        assert(spec_code_char(code) == c);
    }
}

/// The escapes of the first `m` characters of a canonical string at `pos`
/// follow its opening quote verbatim.
proof fn lemma_canon_prefix(src: Seq<char>, pos: int, sv: Seq<char>, m: int)
    requires
        0 <= pos,
        pos + spec_quote(sv).len() <= src.len(),
        src.subrange(pos, pos + spec_quote(sv).len()) == spec_quote(sv),
        0 <= m <= sv.len(),
    ensures
        pos + 1 + spec_escape_body(sv.take(m)).len() < src.len(),
        src.subrange(pos + 1, pos + 1 + spec_escape_body(sv.take(m)).len()) == spec_escape_body(
            sv.take(m),
        ),
{
    let q = spec_quote(sv);
    let e = spec_escape_body(sv.take(m));
    lemma_escape_prefix(sv, m);
    assert forall|k: int| 0 <= k < e.len() implies #[trigger] src.subrange(
        pos + 1,
        pos + 1 + e.len(),
    )[k] == e[k] by {
        assert(spec_escape_body(sv)[k] == e[k]);
        assert(q[1 + k] == spec_escape_body(sv)[k]);
        assert(src.subrange(pos, pos + q.len())[1 + k] == src[pos + 1 + k]);
    }
    assert(src.subrange(pos + 1, pos + 1 + e.len()) =~= e);
}

/// A run of characters that are neither backslashes nor quotes inside a
/// canonical string at `pos` stands for as many characters of the string,
/// verbatim, starting at the `m`-th.
proof fn lemma_plain_run(src: Seq<char>, pos: int, sv: Seq<char>, m: int, i: int)
    requires
        0 <= pos,
        pos + spec_quote(sv).len() <= src.len(),
        src.subrange(pos, pos + spec_quote(sv).len()) == spec_quote(sv),
        0 <= m <= sv.len(),
        pos + 1 + spec_escape_body(sv.take(m)).len() <= i <= src.len(),
        forall|j: int|
            pos + 1 + spec_escape_body(sv.take(m)).len() <= j < i ==> #[trigger] src[j] != '\\'
                && src[j] != '"',
    ensures
        ({
            let at = pos + 1 + spec_escape_body(sv.take(m)).len();
            let k = i - at;
            &&& m + k <= sv.len()
            &&& spec_escape_body(sv.take(m + k)) == spec_escape_body(sv.take(m)) + src.subrange(
                at,
                i,
            )
            &&& sv.subrange(m, m + k) == src.subrange(at, i)
        }),
    decreases i,
{
    let at = pos + 1 + spec_escape_body(sv.take(m)).len();
    if i > at {
        lemma_plain_run(src, pos, sv, m, i - 1);
        let m1 = m + (i - 1 - at);
        assert(pos + 1 + spec_escape_body(sv.take(m1)).len() == i - 1);
        lemma_canon_unit(src, pos, sv, m1);
        if m1 == sv.len() {
            assert(false);
        }
        lemma_escape_char_shape(sv[m1]);
        lemma_escape_unit(sv, m1);
        assert(src.subrange(at, i) =~= src.subrange(at, i - 1).push(src[i - 1]));
        assert(sv.subrange(m, m1 + 1) =~= sv.subrange(m, m1).push(sv[m1]));
    } else {
        assert(src.subrange(at, i) =~= Seq::<char>::empty());
        assert(sv.subrange(m, m) =~= Seq::<char>::empty());
        assert(spec_escape_body(sv.take(m)) + Seq::<char>::empty() =~= spec_escape_body(sv.take(m)));
    }
}

/// Where the escape of the `m`-th character of a canonical string at `pos`
/// starts.
pub open spec fn unit_start(pos: int, sv: Seq<char>, m: int) -> int {
    pos + 1 + spec_escape_body(sv.take(m)).len()
}

/// One decoding step of a canonical string at `pos`, at its `m`-th
/// character: the closing quote when the string is done, a verbatim
/// character, or an escape sequence.
proof fn lemma_canon_step(src: Seq<char>, pos: int, sv: Seq<char>, m: int)
    requires
        0 <= pos,
        pos + spec_quote(sv).len() <= src.len(),
        src.subrange(pos, pos + spec_quote(sv).len()) == spec_quote(sv),
        0 <= m <= sv.len(),
    ensures
        ({
            let at = unit_start(pos, sv, m);
            &&& pos + 1 <= at < src.len()
            &&& src.subrange(pos + 1, at) == spec_escape_body(sv.take(m))
            &&& (src[at] == '"') == (m == sv.len())
            &&& m == sv.len() ==> at + 1 == pos + spec_quote(sv).len() && sv.take(m) == sv
            &&& m < sv.len() ==> sv.take(m + 1) == sv.take(m).push(sv[m])
            &&& m < sv.len() ==> spec_escape_body(sv.take(m + 1)) == spec_escape_body(sv.take(m))
                + spec_escape_char(sv[m])
            &&& m < sv.len() ==> unit_start(pos, sv, m + 1) == at + spec_escape_char(sv[m]).len()
            &&& m < sv.len() && src[at] != '\\' ==> src[at] == sv[m] && spec_escape_char(sv[m])
                == seq![sv[m]]
            &&& m < sv.len() && src[at] == '\\' ==> spec_escape_char(sv[m])[0] == '\\' && at
                + spec_escape_char(sv[m]).len() <= src.len() && src.subrange(
                at,
                at + spec_escape_char(sv[m]).len(),
            ) == spec_escape_char(sv[m])
        }),
{
    lemma_canon_prefix(src, pos, sv, m);
    lemma_canon_unit(src, pos, sv, m);
    if m < sv.len() {
        lemma_escape_char_shape(sv[m]);
        lemma_escape_unit(sv, m);
        assert(sv.take(m + 1) =~= sv.take(m).push(sv[m]));
    } else {
        assert(sv.take(m) =~= sv);
    }
}

/// Two characters whose escapes both begin `y` are the same character.
proof fn lemma_escape_char_unique(c1: char, c2: char, y: Seq<char>)
    requires
        spec_escape_char(c1).len() <= y.len(),
        y.subrange(0, spec_escape_char(c1).len() as int) == spec_escape_char(c1),
        spec_escape_char(c2).len() <= y.len(),
        y.subrange(0, spec_escape_char(c2).len() as int) == spec_escape_char(c2),
    ensures
        c1 == c2,
{
    let u1 = spec_escape_char(c1);
    let u2 = spec_escape_char(c2);
    lemma_escape_char_shape(c1);
    lemma_escape_char_shape(c2);
    assert(y[0] == u1[0]) by {
        assert(y.subrange(0, u1.len() as int)[0] == y[0]);
    }
    assert(y[0] == u2[0]) by {
        assert(y.subrange(0, u2.len() as int)[0] == y[0]);
    }
    if u1[0] == '\\' {
        lemma_escape_decode(y, 0, c1, true, Seq::empty());
        lemma_escape_decode(y, 0, c2, true, Seq::empty());
        if y[1] == 'u' {
            assert(Seq::<char>::empty().push(c1)[0] == c1);
            assert(Seq::<char>::empty().push(c2)[0] == c2);
        }
    }
}

/// The quoted strings of `s1` and `s2` cannot both start at `pos`
/// unless `s1 == s2`: the string agrees on its first `m` characters.
proof fn lemma_quote_prefix_agree(src: Seq<char>, pos: int, s1: Seq<char>, s2: Seq<char>, m: int)
    requires
        0 <= pos,
        pos + spec_quote(s1).len() <= src.len(),
        src.subrange(pos, pos + spec_quote(s1).len()) == spec_quote(s1),
        pos + spec_quote(s2).len() <= src.len(),
        src.subrange(pos, pos + spec_quote(s2).len()) == spec_quote(s2),
        0 <= m <= s1.len(),
        m <= s2.len(),
    ensures
        s1.take(m) == s2.take(m),
    decreases m,
{
    if m > 0 {
        lemma_quote_prefix_agree(src, pos, s1, s2, m - 1);
        lemma_canon_unit(src, pos, s1, m - 1);
        lemma_canon_unit(src, pos, s2, m - 1);
        let at = pos + 1 + spec_escape_body(s1.take(m - 1)).len();
        let y = src.skip(at);
        let u1 = spec_escape_char(s1[m - 1]);
        let u2 = spec_escape_char(s2[m - 1]);
        assert(y.subrange(0, u1.len() as int) =~= src.subrange(at, at + u1.len()));
        assert(y.subrange(0, u2.len() as int) =~= src.subrange(at, at + u2.len()));
        lemma_escape_char_unique(s1[m - 1], s2[m - 1], y);
        assert(s1.take(m) =~= s1.take(m - 1).push(s1[m - 1]));
        assert(s2.take(m) =~= s2.take(m - 1).push(s2[m - 1]));
    }
}

/// At most one quoted string starts at `pos`.
pub proof fn lemma_quote_unique(src: Seq<char>, pos: int, s1: Seq<char>, s2: Seq<char>)
    requires
        0 <= pos,
        pos + spec_quote(s1).len() <= src.len(),
        src.subrange(pos, pos + spec_quote(s1).len()) == spec_quote(s1),
        pos + spec_quote(s2).len() <= src.len(),
        src.subrange(pos, pos + spec_quote(s2).len()) == spec_quote(s2),
    ensures
        s1 == s2,
{
    let m = if s1.len() <= s2.len() {
        s1.len() as int
    } else {
        s2.len() as int
    };
    lemma_quote_prefix_agree(src, pos, s1, s2, m);
    lemma_canon_unit(src, pos, s1, m);
    lemma_canon_unit(src, pos, s2, m);
    if s1.len() < s2.len() {
        assert(s1.take(m) =~= s1);
        lemma_escape_char_shape(s2[m]);
        assert(false);
    } else if s2.len() < s1.len() {
        assert(s2.take(m) =~= s2);
        lemma_escape_char_shape(s1[m]);
        assert(false);
    } else {
        assert(s1.take(m) =~= s1);
        assert(s2.take(m) =~= s2);
    }
}

/// `v` without the whitespace at its end.
pub open spec fn spec_trim_end_ws(v: Seq<char>) -> Seq<char>
    decreases v.len(),
{
    if v.len() > 0 && spec_is_ws(v.last()) {
        spec_trim_end_ws(v.drop_last())
    } else {
        v
    }
}

/// `v` without its trailing whitespace.
pub fn trim_end_ws(v: &mut Vec<char>)
    ensures
        final(v)@ == spec_trim_end_ws(old(v)@),
        final(v)@.len() <= old(v)@.len(),
        final(v)@ == old(v)@.subrange(0, final(v)@.len() as int),
        final(v)@.len() > 0 ==> !spec_is_ws(final(v)@.last()),
        forall|j: int| final(v)@.len() <= j < old(v)@.len() ==> spec_is_ws(old(v)@[j]),
{
    while v.len() > 0 && is_ws(v[v.len() - 1])
        invariant
            v@.len() <= old(v)@.len(),
            v@ == old(v)@.subrange(0, v@.len() as int),
            forall|j: int| v@.len() <= j < old(v)@.len() ==> spec_is_ws(old(v)@[j]),
            spec_trim_end_ws(v@) == spec_trim_end_ws(old(v)@),
        decreases v@.len(),
    {
        let ghost before = v@;
        v.pop();
        assert(v@ =~= old(v)@.subrange(0, v@.len() as int));
        assert(v@ =~= before.drop_last());
    }
}

/// Where the next token starts when the cursor is at `pos`: after one
/// space, as between the members of canonical text.
pub open spec fn token_start(src: Seq<char>, pos: int) -> int {
    if 0 <= pos < src.len() && src[pos] == ' ' {
        pos + 1
    } else {
        pos
    }
}

/// The canonical text of `v` begins at `s`, as far as its first token
/// reaches, and that token is followed by what may follow it.
pub open spec fn canon_value_start(src: Seq<char>, s: int, v: Value, in_container: bool) -> bool {
    match v {
        Value::Null => spec_keyword_at(src, s, seq!['n', 'u', 'l', 'l']),
        Value::Bool(b) => if b {
            spec_keyword_at(src, s, seq!['t', 'r', 'u', 'e'])
        } else {
            spec_keyword_at(src, s, seq!['f', 'a', 'l', 's', 'e'])
        },
        Value::Number(n) => {
            &&& spec_is_json_number(n@)
            &&& 0 <= s
            &&& s + n@.len() <= src.len()
            &&& src.subrange(s, s + n@.len()) == n@
            &&& (s + n@.len() == src.len() || spec_is_delimiter(src[s + n@.len()]))
        },
        Value::String(t) => canon_string_at(src, s, t@, in_container),
        Value::Array(_) => 0 <= s && s + 1 < src.len() && src[s] == '[' && src[s + 1] != '`',
        Value::Object(_) => 0 <= s && s + 1 < src.len() && src[s] == '{' && src[s + 1] != '`',
    }
}

/// The token that the canonical text of `v` begins with.
pub open spec fn canon_token(t: Token, v: Value) -> bool {
    match v {
        Value::Null => t is Null,
        Value::Bool(b) => t == Token::Bool(b),
        Value::Number(n) => t matches Token::Num { text, truncated } && text@ == n@ && !truncated,
        Value::String(s) => t matches Token::Str { text, truncated } && text@ == s@ && !truncated,
        Value::Array(_) => t is OpenBracket,
        Value::Object(_) => t is OpenBrace,
    }
}

/// The length of the first token of the canonical text of `v`.
pub open spec fn first_token_len(v: Value) -> int {
    match v {
        Value::Null => 4,
        Value::Bool(b) => if b {
            4
        } else {
            5
        },
        Value::Number(n) => n@.len() as int,
        Value::String(s) => spec_quote(s@).len() as int,
        _ => 1,
    }
}

/// A JSON number starts with a digit or a minus sign.
pub proof fn lemma_number_first(n: Seq<char>)
    requires
        spec_is_json_number(n),
    ensures
        n.len() >= 1,
        n[0] == '-' || spec_is_digit(n[0]),
{
    let (a, b, c) = choose|a: int, b: int, c: int| json_number_parts(n, a, b, c);
    let ip = n.subrange(a, b);
    assert(ip.len() >= 1);
    assert(ip[0] == n[a]);
    if ip =~= seq!['0'] {
        assert(ip[0] == '0');
    }
}

/// Trivia skipping stops at once where canonical text begins.
pub proof fn lemma_canon_start_quiet(src: Seq<char>, s: int, v: Value, in_container: bool)
    requires
        canon_value_start(src, s, v, in_container),
    ensures
        0 <= s < src.len(),
        src[s] != ' ',
        spec_quiet_at(src, s),
{
    match v {
        Value::Null => {
            assert(src[s] == src.subrange(s, s + 4)[0]);
        },
        Value::Bool(b) => {
            assert(src[s] == src.subrange(s, s + 4)[0]);
        },
        Value::Number(n) => {
            lemma_number_first(n@);
            assert(src[s] == src.subrange(s, s + n@.len())[0]);
        },
        Value::String(t) => {
            assert(src[s] == src.subrange(s, s + spec_quote(t@).len())[0]);
        },
        _ => {},
    }
}

/// Which value's canonical text begins at `s` follows from its first
/// character.
proof fn lemma_canon_start_kind(src: Seq<char>, s: int, v: Value, in_container: bool)
    requires
        canon_value_start(src, s, v, in_container),
    ensures
        0 <= s < src.len(),
        src[s] == 'n' ==> v is Null,
        src[s] == 't' ==> v == Value::Bool(true),
        src[s] == 'f' ==> v == Value::Bool(false),
        src[s] == '"' ==> v is String,
        src[s] == '[' ==> v is Array,
        src[s] == '{' ==> v is Object,
        (src[s] == '-' || spec_is_digit(src[s])) ==> v is Number,
        src[s] == 'n' || src[s] == 't' || src[s] == 'f' || src[s] == '"' || src[s] == '['
            || src[s] == '{' || src[s] == '-' || spec_is_digit(src[s]),
{
    lemma_canon_start_quiet(src, s, v, in_container);
    match v {
        Value::Null => {
            assert(src[s] == src.subrange(s, s + 4)[0]);
        },
        Value::Bool(b) => {
            assert(src[s] == src.subrange(s, s + 4)[0]);
        },
        Value::Number(n) => {
            lemma_number_first(n@);
            assert(src[s] == src.subrange(s, s + n@.len())[0]);
        },
        Value::String(t) => {
            assert(src[s] == src.subrange(s, s + spec_quote(t@).len())[0]);
        },
        _ => {},
    }
}

/// Two values whose canonical text begins at `s` begin with the same token.
proof fn lemma_canon_start_same(src: Seq<char>, s: int, v1: Value, v2: Value, in_container: bool)
    requires
        canon_value_start(src, s, v1, in_container),
        canon_value_start(src, s, v2, in_container),
    ensures
        forall|t: Token| canon_token(t, v1) == canon_token(t, v2),
        first_token_len(v1) == first_token_len(v2),
{
    lemma_canon_start_kind(src, s, v1, in_container);
    lemma_canon_start_kind(src, s, v2, in_container);
    match (v1, v2) {
        (Value::Number(n1), Value::Number(n2)) => {
            let e1 = s + n1@.len();
            let e2 = s + n2@.len();
            assert(n1@.len() >= 1) by {
                lemma_number_first(n1@);
            }
            assert(n2@.len() >= 1) by {
                lemma_number_first(n2@);
            }
            lemma_clean_end_of_number(src, s, e1);
            lemma_clean_end_of_number(src, s, e2);
            assert(n1@ == n2@);
        },
        (Value::String(t1), Value::String(t2)) => {
            lemma_quote_unique(src, s, t1@, t2@);
        },
        _ => {},
    }
}

/// The token of a one-character punctuation mark.
pub open spec fn spec_punct_token(c: char) -> Option<Token> {
    if c == '{' {
        Some(Token::OpenBrace)
    } else if c == '}' {
        Some(Token::CloseBrace)
    } else if c == '[' {
        Some(Token::OpenBracket)
    } else if c == ']' {
        Some(Token::CloseBracket)
    } else if c == ':' {
        Some(Token::Colon)
    } else if c == ',' {
        Some(Token::Comma)
    } else if c == ';' {
        Some(Token::Semicolon)
    } else if c == '+' {
        Some(Token::Plus)
    } else if c == '(' {
        Some(Token::OpenParen)
    } else if c == ')' {
        Some(Token::CloseParen)
    } else {
        None
    }
}

/// The state of a string scan: the cursor, where the verbatim content ends
/// while nothing has been decoded, the decoded content once something has,
/// whether the string was cut short, the restart modes (stop at the first
/// delimiter; stop at a comma), and whether the last content character came
/// raw from the input and is a delimiter.
pub struct StrScan {
    pub pos: int,
    pub content_end: int,
    pub owned: bool,
    pub buf: Seq<char>,
    pub truncated: bool,
    pub stop_mode: bool,
    pub has_stop: bool,
    pub stop: int,
    pub raw_tail: bool,
}

/// One step of a string scan: go on from a new state, end in a state, or
/// fail with an error kind at a position.
pub enum StrStep {
    Continue(StrScan),
    Done(StrScan),
    Fail(ErrorKind, int),
}

/// The content read so far: the decoded text, or the verbatim span.
pub open spec fn str_content(s: Seq<char>, start: int, st: StrScan) -> Seq<char> {
    if st.owned {
        st.buf
    } else {
        s.subrange(start, st.content_end)
    }
}

/// The ASCII quote of an opener's family.
pub open spec fn str_end_ch(op: Opener) -> char {
    if op.family == QuoteFamily::Double {
        '"'
    } else {
        '\''
    }
}

/// The end of the run of plain content from `i`: no escape, no quote of
/// the family, no entity `&`, no non-ASCII character, and in stop mode no
/// delimiter.
pub open spec fn spec_plain_run_end(s: Seq<char>, i: int, end_ch: char, stop_mode: bool) -> int
    decreases s.len() - i,
{
    if i < 0 || i >= s.len() {
        i
    } else {
        let b = s[i];
        if (b as u32) >= 0x80 || b == '&' || b == '\\' || b == end_ch || (stop_mode
            && spec_is_unquoted_delimiter(b)) {
            i
        } else {
            spec_plain_run_end(s, i + 1, end_ch, stop_mode)
        }
    }
}

/// The scan restarted from the start of the string with fresh content.
pub open spec fn str_restart(st: StrScan, start: int, stop_mode: bool, has_stop: bool, stop: int) -> StrScan {
    StrScan {
        pos: start,
        content_end: start,
        owned: false,
        buf: Seq::empty(),
        truncated: st.truncated,
        stop_mode,
        has_stop,
        stop,
        raw_tail: st.raw_tail,
    }
}

/// The scan moved to `pos` with `content` as its content.
pub open spec fn str_moved(
    st: StrScan,
    pos: int,
    content_end: int,
    owned: bool,
    buf: Seq<char>,
    raw_tail: bool,
) -> StrScan {
    StrScan {
        pos,
        content_end,
        owned,
        buf,
        truncated: st.truncated,
        stop_mode: st.stop_mode,
        has_stop: st.has_stop,
        stop: st.stop,
        raw_tail,
    }
}

/// The scan ended at `pos`, cut short when `truncated`.
pub open spec fn str_ended(st: StrScan, pos: int, owned: bool, buf: Seq<char>, truncated: bool) -> StrScan {
    StrScan {
        pos,
        content_end: st.content_end,
        owned,
        buf,
        truncated,
        stop_mode: st.stop_mode,
        has_stop: st.has_stop,
        stop: st.stop,
        raw_tail: st.raw_tail,
    }
}

/// Where the run of plain content from the cursor ends: at the end of the
/// plain run, or at the stop comma when that comes first.
pub open spec fn str_run_target(s: Seq<char>, op: Opener, st: StrScan) -> int {
    let i0 = spec_plain_run_end(s, st.pos, str_end_ch(op), st.stop_mode);
    if st.has_stop && st.stop <= i0 {
        st.stop
    } else {
        i0
    }
}

/// The cursor is at a character that no plain run covers.
pub open spec fn str_at_char(s: Seq<char>, op: Opener, st: StrScan) -> bool {
    str_run_target(s, op, st) <= st.pos && 0 <= st.pos < s.len()
}

/// The cursor is at a character that starts none of the stop comma, an
/// entity, or an escape.
pub open spec fn str_past_escapes(s: Seq<char>, op: Opener, st: StrScan) -> bool {
    &&& str_at_char(s, op, st)
    &&& !(st.has_stop && st.stop == st.pos)
    &&& s[st.pos] != '\\'
    &&& !(op.from_entity && s[st.pos] == '&' && spec_html_entity(s, st.pos) is Some)
}

/// One step of scanning the string opened by `op` whose content starts at
/// `start`: a run of plain content; at the end of input a restart in stop
/// mode after a raw delimiter, else the cut; the stop comma; an entity; an
/// escape; a quote (real end, kept before a backslash, or a restart at the
/// comma or delimiter before it, else kept as content); in stop mode a
/// delimiter (a URL continues); any other character as content.
#[verifier::opaque]
pub open spec fn spec_str_step(
    s: Seq<char>,
    opts: Options,
    op: Opener,
    ic: bool,
    start: int,
    st: StrScan,
) -> StrStep {
    let n = s.len() as int;
    let i = str_run_target(s, op, st);
    if i > st.pos {
        let last = s[i - 1];
        StrStep::Continue(
            str_moved(
                st,
                i,
                i,
                st.owned,
                if st.owned {
                    st.buf + s.subrange(st.pos, i)
                } else {
                    st.buf
                },
                (last as u32) < 0x80 && spec_is_delimiter(last),
            ),
        )
    } else if st.pos >= n {
        if !st.stop_mode && st.raw_tail {
            StrStep::Continue(str_restart(st, start, true, st.has_stop, st.stop))
        } else {
            StrStep::Done(str_ended(st, st.pos, st.owned, st.buf, true))
        }
    } else {
        let c = s[st.pos];
        let content = str_content(s, start, st);
        if st.has_stop && st.stop == st.pos {
            StrStep::Done(str_ended(st, st.pos, st.owned, st.buf, true))
        } else if op.from_entity && c == '&' && spec_html_entity(s, st.pos) is Some {
            let (d, len) = spec_html_entity(s, st.pos)->0;
            if op.spec_is_end(d) {
                StrStep::Done(str_ended(st, st.pos + len, st.owned, st.buf, st.truncated))
            } else {
                StrStep::Continue(
                    str_moved(st, st.pos + len, st.content_end, true, content.push(d), spec_is_delimiter(d)),
                )
            }
        } else if c == '\\' {
            let p1 = st.pos + 1;
            if st.has_stop && st.stop == p1 {
                StrStep::Done(str_ended(st, p1, true, content, true))
            } else {
                let (k, pos, t, ek, ep) = spec_read_escape(s, p1, opts.repairs@ == 0, content);
                if k == 2 {
                    StrStep::Fail(ek, ep)
                } else if k == 1 {
                    StrStep::Done(str_ended(st, n, true, t, true))
                } else {
                    StrStep::Continue(str_moved(st, pos, st.content_end, true, t, false))
                }
            }
        } else if op.spec_is_end(c) {
            let p1 = st.pos + 1;
            let kept = if st.owned {
                st.buf.push('"')
            } else {
                st.buf
            };
            if st.stop_mode {
                StrStep::Done(str_ended(st, p1, st.owned, st.buf, true))
            } else if spec_end_quote_is_real(opts, s, p1, ic, 0, content) {
                StrStep::Done(str_ended(st, p1, st.owned, st.buf, st.truncated))
            } else if p1 < n && s[p1] == '\\' {
                StrStep::Continue(str_moved(st, p1, p1, st.owned, kept, false))
            } else {
                let j = spec_trim_ws_back(s, 0, st.pos);
                let idx = j - 1;
                let escaped = crate::spec_backslash_run(s, idx) % 2 == 1;
                if j > 0 && s[idx] == ',' && !escaped {
                    if !st.has_stop || idx < st.stop {
                        StrStep::Continue(str_restart(st, start, st.stop_mode, true, idx))
                    } else {
                        StrStep::Continue(str_moved(st, p1, p1, st.owned, kept, false))
                    }
                } else if j > 0 && spec_is_delimiter(s[idx]) && !escaped {
                    StrStep::Continue(str_restart(st, start, true, st.has_stop, st.stop))
                } else {
                    StrStep::Continue(str_moved(st, p1, p1, st.owned, kept, false))
                }
            }
        } else if st.stop_mode && spec_is_unquoted_delimiter(c) {
            if c == '/' && content.len() > 0 && content.last() == ':' && spec_is_url_scheme(content) {
                let e = spec_url_run_end(s, st.pos);
                let last = s[e - 1];
                StrStep::Continue(
                    str_moved(
                        st,
                        e,
                        e,
                        st.owned,
                        if st.owned {
                            st.buf + s.subrange(st.pos, e)
                        } else {
                            st.buf
                        },
                        (last as u32) < 0x80 && spec_is_delimiter(last),
                    ),
                )
            } else {
                StrStep::Done(str_ended(st, st.pos, st.owned, st.buf, true))
            }
        } else {
            StrStep::Continue(
                str_moved(
                    st,
                    st.pos + 1,
                    st.pos + 1,
                    st.owned,
                    if st.owned {
                        st.buf.push(c)
                    } else {
                        st.buf
                    },
                    spec_is_delimiter(c),
                ),
            )
        }
    }
}

/// A step over a run of plain content.
proof fn lemma_str_step_run(s: Seq<char>, opts: Options, op: Opener, ic: bool, start: int, st: StrScan)
    requires
        str_run_target(s, op, st) > st.pos,
    ensures
        ({
            let i = str_run_target(s, op, st);
            spec_str_step(s, opts, op, ic, start, st) == StrStep::Continue(
                str_moved(
                    st,
                    i,
                    i,
                    st.owned,
                    if st.owned {
                        st.buf + s.subrange(st.pos, i)
                    } else {
                        st.buf
                    },
                    (s[i - 1] as u32) < 0x80 && spec_is_delimiter(s[i - 1]),
                ),
            )
        }),
{
    reveal(spec_str_step);
}

/// A step at the end of input.
proof fn lemma_str_step_eof(s: Seq<char>, opts: Options, op: Opener, ic: bool, start: int, st: StrScan)
    requires
        str_run_target(s, op, st) <= st.pos,
        st.pos >= s.len(),
    ensures
        spec_str_step(s, opts, op, ic, start, st) == if !st.stop_mode && st.raw_tail {
            StrStep::Continue(str_restart(st, start, true, st.has_stop, st.stop))
        } else {
            StrStep::Done(str_ended(st, st.pos, st.owned, st.buf, true))
        },
{
    reveal(spec_str_step);
}

/// A step at the stop comma.
proof fn lemma_str_step_stop(s: Seq<char>, opts: Options, op: Opener, ic: bool, start: int, st: StrScan)
    requires
        str_at_char(s, op, st),
        st.has_stop && st.stop == st.pos,
    ensures
        spec_str_step(s, opts, op, ic, start, st) == StrStep::Done(
            str_ended(st, st.pos, st.owned, st.buf, true),
        ),
{
    reveal(spec_str_step);
}

/// A step at an entity of a string opened by an entity.
proof fn lemma_str_step_entity(s: Seq<char>, opts: Options, op: Opener, ic: bool, start: int, st: StrScan)
    requires
        str_at_char(s, op, st),
        !(st.has_stop && st.stop == st.pos),
        op.from_entity && s[st.pos] == '&' && spec_html_entity(s, st.pos) is Some,
    ensures
        ({
            let (d, len) = spec_html_entity(s, st.pos)->0;
            spec_str_step(s, opts, op, ic, start, st) == if op.spec_is_end(d) {
                StrStep::Done(str_ended(st, st.pos + len, st.owned, st.buf, st.truncated))
            } else {
                StrStep::Continue(
                    str_moved(
                        st,
                        st.pos + len,
                        st.content_end,
                        true,
                        str_content(s, start, st).push(d),
                        spec_is_delimiter(d),
                    ),
                )
            }
        }),
{
    reveal(spec_str_step);
}

/// A step at an escape.
proof fn lemma_str_step_escape(s: Seq<char>, opts: Options, op: Opener, ic: bool, start: int, st: StrScan)
    requires
        str_at_char(s, op, st),
        !(st.has_stop && st.stop == st.pos),
        s[st.pos] == '\\',
    ensures
        ({
            let p1 = st.pos + 1;
            let content = str_content(s, start, st);
            spec_str_step(s, opts, op, ic, start, st) == if st.has_stop && st.stop == p1 {
                StrStep::Done(str_ended(st, p1, true, content, true))
            } else {
                let (k, pos, t, ek, ep) = spec_read_escape(s, p1, opts.repairs@ == 0, content);
                if k == 2 {
                    StrStep::Fail(ek, ep)
                } else if k == 1 {
                    StrStep::Done(str_ended(st, s.len() as int, true, t, true))
                } else {
                    StrStep::Continue(str_moved(st, pos, st.content_end, true, t, false))
                }
            }
        }),
{
    reveal(spec_str_step);
}

/// A step at a quote that may end the string.
proof fn lemma_str_step_quote(s: Seq<char>, opts: Options, op: Opener, ic: bool, start: int, st: StrScan)
    requires
        str_past_escapes(s, op, st),
        op.spec_is_end(s[st.pos]),
    ensures
        ({
            let p1 = st.pos + 1;
            let kept = if st.owned {
                st.buf.push('"')
            } else {
                st.buf
            };
            let j = spec_trim_ws_back(s, 0, st.pos);
            let idx = j - 1;
            let escaped = crate::spec_backslash_run(s, idx) % 2 == 1;
            spec_str_step(s, opts, op, ic, start, st) == if st.stop_mode {
                StrStep::Done(str_ended(st, p1, st.owned, st.buf, true))
            } else if spec_end_quote_is_real(opts, s, p1, ic, 0, str_content(s, start, st)) {
                StrStep::Done(str_ended(st, p1, st.owned, st.buf, st.truncated))
            } else if p1 < s.len() && s[p1] == '\\' {
                StrStep::Continue(str_moved(st, p1, p1, st.owned, kept, false))
            } else if j > 0 && s[idx] == ',' && !escaped {
                if !st.has_stop || idx < st.stop {
                    StrStep::Continue(str_restart(st, start, st.stop_mode, true, idx))
                } else {
                    StrStep::Continue(str_moved(st, p1, p1, st.owned, kept, false))
                }
            } else if j > 0 && spec_is_delimiter(s[idx]) && !escaped {
                StrStep::Continue(str_restart(st, start, true, st.has_stop, st.stop))
            } else {
                StrStep::Continue(str_moved(st, p1, p1, st.owned, kept, false))
            }
        }),
{
    reveal(spec_str_step);
}

/// A step at a delimiter in stop mode.
proof fn lemma_str_step_delim(s: Seq<char>, opts: Options, op: Opener, ic: bool, start: int, st: StrScan)
    requires
        str_past_escapes(s, op, st),
        !op.spec_is_end(s[st.pos]),
        st.stop_mode && spec_is_unquoted_delimiter(s[st.pos]),
    ensures
        ({
            let c = s[st.pos];
            let content = str_content(s, start, st);
            let e = spec_url_run_end(s, st.pos);
            spec_str_step(s, opts, op, ic, start, st) == if c == '/' && content.len() > 0
                && content.last() == ':' && spec_is_url_scheme(content) {
                StrStep::Continue(
                    str_moved(
                        st,
                        e,
                        e,
                        st.owned,
                        if st.owned {
                            st.buf + s.subrange(st.pos, e)
                        } else {
                            st.buf
                        },
                        (s[e - 1] as u32) < 0x80 && spec_is_delimiter(s[e - 1]),
                    ),
                )
            } else {
                StrStep::Done(str_ended(st, st.pos, st.owned, st.buf, true))
            }
        }),
{
    reveal(spec_str_step);
}

/// A step over any other character, which is content.
proof fn lemma_str_step_plain(s: Seq<char>, opts: Options, op: Opener, ic: bool, start: int, st: StrScan)
    requires
        str_past_escapes(s, op, st),
        !op.spec_is_end(s[st.pos]),
        !(st.stop_mode && spec_is_unquoted_delimiter(s[st.pos])),
    ensures
        ({
            let c = s[st.pos];
            spec_str_step(s, opts, op, ic, start, st) == StrStep::Continue(
                str_moved(
                    st,
                    st.pos + 1,
                    st.pos + 1,
                    st.owned,
                    if st.owned {
                        st.buf.push(c)
                    } else {
                        st.buf
                    },
                    spec_is_delimiter(c),
                ),
            )
        }),
{
    reveal(spec_str_step);
}

/// The plain run from `i` stays within the input and holds no escape, no
/// quote of the family, no entity `&`, and no non-ASCII character.
proof fn lemma_plain_run_end_facts(s: Seq<char>, i: int, end_ch: char, stop_mode: bool)
    requires
        0 <= i <= s.len(),
    ensures
        i <= spec_plain_run_end(s, i, end_ch, stop_mode) <= s.len(),
        forall|j: int|
            i <= j < spec_plain_run_end(s, i, end_ch, stop_mode) ==> #[trigger] s[j] != '\\'
                && s[j] != end_ch && s[j] != '&' && (s[j] as u32) < 0x80,
        spec_plain_run_end(s, i, end_ch, stop_mode) == i && i < s.len() ==> ((s[i] as u32) >= 0x80
            || s[i] == '&' || s[i] == '\\' || s[i] == end_ch || (stop_mode
            && spec_is_unquoted_delimiter(s[i]))),
    decreases s.len() - i,
{
    if i < s.len() {
        lemma_plain_run_end_facts(s, i + 1, end_ch, stop_mode);
    }
}

/// A quote followed by what may follow a string in canonical text is a
/// real end quote.
proof fn lemma_follow_real(opts: Options, s: Seq<char>, p: int, ic: bool, content: Seq<char>)
    requires
        0 <= p,
        string_follow(s, p, ic),
    ensures
        spec_end_quote_is_real(opts, s, p, ic, 0, content),
{
    lemma_skip_line_trivia_step(opts, s, p);
    assert(spec_line_ws_end(opts, s, p) == p);
    assert(spec_comment_skip(opts, s, p).0 == p);
}

/// The scan state at the `m`-th character of a canonical string at `pos0`.
pub open spec fn canon_scan_state(pos0: int, sv: Seq<char>, m: int, st: StrScan) -> bool {
    &&& 0 <= m <= sv.len()
    &&& st.pos == unit_start(pos0, sv, m)
    &&& !st.stop_mode && !st.has_stop && !st.truncated
    &&& st.owned ==> st.buf == sv.take(m)
    &&& !st.owned ==> st.content_end == st.pos && spec_escape_body(sv.take(m)) == sv.take(m)
}

/// Scanning a canonical string from its `m`-th character ends right after
/// its closing quote with its value, not cut short.
#[verifier::spinoff_prover]
#[verifier::rlimit(40)]
proof fn lemma_canon_str_run(
    s: Seq<char>,
    opts: Options,
    op: Opener,
    ic: bool,
    pos0: int,
    sv: Seq<char>,
    m: int,
    st: StrScan,
)
    requires
        op.ch == '"' && op.len == 1 && !op.from_entity && op.family == QuoteFamily::Double,
        canon_string_at(s, pos0, sv, ic),
        canon_scan_state(pos0, sv, m, st),
    ensures
        spec_str_run(s, opts, op, ic, pos0 + 1, st) matches StrStep::Done(fin) && fin.pos == pos0
            + spec_quote(sv).len() && !fin.truncated && spec_str_text(s, pos0 + 1, fin) == sv,
    decreases sv.len() - m,
{
    let start = pos0 + 1;
    lemma_canon_step(s, pos0, sv, m);
    lemma_str_run_step(s, opts, op, ic, start, st);
    let at = st.pos;
    let c = s[at];
    lemma_plain_run_end_facts(s, at, '"', false);
    let i = str_run_target(s, op, st);
    assert(str_end_ch(op) == '"');
    let content = str_content(s, start, st);
    assert(content == sv.take(m)) by {
        if !st.owned {
            assert(s.subrange(start, at) == spec_escape_body(sv.take(m)));
        }
    }
    if i > at {
        lemma_str_step_run(s, opts, op, ic, start, st);
        lemma_plain_run(s, pos0, sv, m, i);
        let k = i - at;
        let nx = str_moved(
            st,
            i,
            i,
            st.owned,
            if st.owned {
                st.buf + s.subrange(at, i)
            } else {
                st.buf
            },
            (s[i - 1] as u32) < 0x80 && spec_is_delimiter(s[i - 1]),
        );
        assert(sv.take(m) + sv.subrange(m, m + k) =~= sv.take(m + k));
        assert(canon_scan_state(pos0, sv, m + k, nx));
        assert(str_progress(s, st, nx));
        lemma_canon_str_run(s, opts, op, ic, pos0, sv, m + k, nx);
    } else if c == '"' {
        lemma_str_step_quote(s, opts, op, ic, start, st);
        lemma_follow_real(opts, s, at + 1, ic, content);
    } else if c == '\\' {
        lemma_str_step_escape(s, opts, op, ic, start, st);
        lemma_escape_decode(s, at, sv[m], opts.repairs@ == 0, content);
        let nx = str_moved(
            st,
            unit_start(pos0, sv, m + 1),
            st.content_end,
            true,
            sv.take(m + 1),
            false,
        );
        assert(m < sv.len());
        assert(spec_str_step(s, opts, op, ic, start, st) == StrStep::Continue(nx));
        assert(nx.pos == unit_start(pos0, sv, m + 1));
        assert(nx.owned && nx.buf == sv.take(m + 1));
        assert(!nx.stop_mode && !nx.has_stop && !nx.truncated);
        assert(0 <= m + 1 <= sv.len());
        assert(canon_scan_state(pos0, sv, m + 1, nx)) by {
            assert(nx.owned);
        }
        assert(str_progress(s, st, nx));
        lemma_canon_str_run(s, opts, op, ic, pos0, sv, m + 1, nx);
    } else {
        lemma_str_step_plain(s, opts, op, ic, start, st);
        let nx = str_moved(
            st,
            at + 1,
            at + 1,
            st.owned,
            if st.owned {
                st.buf.push(c)
            } else {
                st.buf
            },
            spec_is_delimiter(c),
        );
        assert(m < sv.len());
        assert(c == sv[m] && spec_escape_char(sv[m]) == seq![c]);
        assert(unit_start(pos0, sv, m + 1) == at + 1);
        assert(sv.take(m).push(c) =~= sv.take(m + 1));
        if !st.owned {
            assert(spec_escape_body(sv.take(m + 1)) =~= sv.take(m).push(c));
        }
        assert(canon_scan_state(pos0, sv, m + 1, nx));
        assert(str_progress(s, st, nx));
        lemma_canon_str_run(s, opts, op, ic, pos0, sv, m + 1, nx);
    }
}

/// Whether the scan made progress from `a` to `b`: into stop mode, to an
/// earlier stop comma, or forward.
pub open spec fn str_progress(s: Seq<char>, a: StrScan, b: StrScan) -> bool {
    let a1: int = if a.stop_mode {
        0
    } else {
        1
    };
    let b1: int = if b.stop_mode {
        0
    } else {
        1
    };
    let a2 = if a.has_stop {
        a.stop
    } else {
        s.len() as int
    };
    let b2 = if b.has_stop {
        b.stop
    } else {
        s.len() as int
    };
    ||| 0 <= b1 < a1
    ||| (b1 == a1 && 0 <= b2 < a2)
    ||| (b1 == a1 && b2 == a2 && 0 <= s.len() - b.pos < s.len() - a.pos)
}

/// Where a string scan from `st` ends: its steps repeated while they make
/// progress.
#[verifier::opaque]
pub open spec fn spec_str_run(
    s: Seq<char>,
    opts: Options,
    op: Opener,
    ic: bool,
    start: int,
    st: StrScan,
) -> StrStep
    decreases (if st.stop_mode {
        0int
    } else {
        1int
    }), (if st.has_stop {
        st.stop
    } else {
        s.len() as int
    }), s.len() - st.pos,
{
    match spec_str_step(s, opts, op, ic, start, st) {
        StrStep::Continue(nx) => if str_progress(s, st, nx) {
            spec_str_run(s, opts, op, ic, start, nx)
        } else {
            StrStep::Done(nx)
        },
        other => other,
    }
}

/// One step of `spec_str_run`.
proof fn lemma_str_run_step(s: Seq<char>, opts: Options, op: Opener, ic: bool, start: int, st: StrScan)
    ensures
        spec_str_run(s, opts, op, ic, start, st) == match spec_str_step(s, opts, op, ic, start, st) {
            StrStep::Continue(nx) => if str_progress(s, st, nx) {
                spec_str_run(s, opts, op, ic, start, nx)
            } else {
                StrStep::Done(nx)
            },
            other => other,
        },
{
    reveal(spec_str_run);
}

/// The scan state held in the variables of `scan_string_from`.
pub open spec fn str_state(
    pos: usize,
    content_end: usize,
    owned: bool,
    buf: Seq<char>,
    truncated: bool,
    stop_mode: bool,
    has_stop: bool,
    stop: usize,
    raw_tail: bool,
) -> StrScan {
    StrScan {
        pos: pos as int,
        content_end: content_end as int,
        owned,
        buf,
        truncated,
        stop_mode,
        has_stop,
        stop: stop as int,
        raw_tail,
    }
}

/// The text of a finished string scan: the content, with the whitespace
/// before a cut dropped.
pub open spec fn spec_str_text(s: Seq<char>, start: int, st: StrScan) -> Seq<char> {
    if st.owned {
        if st.truncated {
            spec_trim_end_ws(st.buf)
        } else {
            st.buf
        }
    } else {
        let e = if st.truncated {
            spec_trim_ws_back(s, start, st.content_end)
        } else {
            st.content_end
        };
        s.subrange(start, e)
    }
}

/// On a canonical string, the string scan from its opening quote ends
/// right after the closing quote with the string's value, not cut short.
proof fn lemma_str_scan_canonical(lx: Lexer, op: Opener)
    requires
        op.len >= 1,
        lx.pos + op.len <= lx.src@.len() <= usize::MAX,
    ensures
        forall|sv: Seq<char>|
            op.ch == '"' && op.len == 1 && !op.from_entity && op.family == QuoteFamily::Double
                && #[trigger] canon_string_at(lx.src@, lx.pos as int, sv, lx.in_container) ==> (
            spec_str_run(
                lx.src@,
                lx.opts,
                op,
                lx.in_container,
                lx.pos + 1,
                str_state(
                    (lx.pos + 1) as usize,
                    (lx.pos + 1) as usize,
                    false,
                    Seq::empty(),
                    false,
                    false,
                    false,
                    0,
                    false,
                ),
            ) matches StrStep::Done(fin) && fin.pos == lx.pos + spec_quote(sv).len()
                && !fin.truncated && spec_str_text(lx.src@, lx.pos + 1, fin) == sv),
{
    assert forall|sv: Seq<char>|
        op.ch == '"' && op.len == 1 && !op.from_entity && op.family == QuoteFamily::Double
            && #[trigger] canon_string_at(lx.src@, lx.pos as int, sv, lx.in_container) implies (
        spec_str_run(
            lx.src@,
            lx.opts,
            op,
            lx.in_container,
            lx.pos + 1,
            str_state(
                (lx.pos + 1) as usize,
                (lx.pos + 1) as usize,
                false,
                Seq::empty(),
                false,
                false,
                false,
                0,
                false,
            ),
        ) matches StrStep::Done(fin) && fin.pos == lx.pos + spec_quote(sv).len()
            && !fin.truncated && spec_str_text(lx.src@, lx.pos + 1, fin) == sv) by {
        let st = str_state(
            (lx.pos + 1) as usize,
            (lx.pos + 1) as usize,
            false,
            Seq::empty(),
            false,
            false,
            false,
            0,
            false,
        );
        lemma_canon_step(lx.src@, lx.pos as int, sv, 0);
        assert(sv.take(0) =~= Seq::<char>::empty());
        assert(canon_scan_state(lx.pos as int, sv, 0, st));
        lemma_canon_str_run(lx.src@, lx.opts, op, lx.in_container, lx.pos as int, sv, 0, st);
    }
}

impl<'a> Lexer<'a> {
    /// Scans a string that starts at the quote under the cursor.
    pub fn scan_string(&mut self) -> (r: Result<Token, Error>)
        requires
            old(self).wf(),
        ensures
            lexer_advance(*old(self), *final(self)),
            r is Ok ==> final(self).pos > old(self).pos,
            r matches Ok(t) ==> t is Str,
            r matches Err(e) ==> e.spec_position() <= old(self).src@.len(),
            ({
                let s = old(self).src@;
                let p = old(self).pos as int;
                if p >= s.len() {
                    r matches Err(e) && e.spec_kind() == ErrorKind::UnexpectedEnd && e.spec_position()
                        == p
                } else if !spec_is_quote(s[p]) {
                    r matches Err(e) && e.spec_kind() == ErrorKind::UnexpectedCharacter(s[p])
                        && e.spec_position() == p
                } else {
                    string_scanned(
                        s,
                        old(self).opts,
                        Opener {
                            ch: s[p],
                            len: 1,
                            from_entity: false,
                            family: spec_quote_family(s[p]),
                        },
                        old(self).in_container,
                        p + 1,
                        r,
                        final(self).pos as int,
                    )
                }
            }),
    {
        let c = match self.peek_char() {
            Some(c) => c,
            None => {
                return Err(Error::new(ErrorKind::UnexpectedEnd, self.pos));
            },
        };
        if !is_quote(c) {
            return Err(Error::new(ErrorKind::UnexpectedCharacter(c), self.pos));
        }
        self.scan_string_from(Opener { ch: c, len: 1, from_entity: false, family: quote_family(c) })
    }

    /// Scans a string opened by `opener` (under the cursor), normalizing
    /// quotes and escapes and repairing missing end quotes.
    ///
    /// A quote that is not followed by a delimiter is not an end quote. When
    /// a raw `,` precedes it, the string closes at that comma; when another
    /// raw delimiter precedes it, or the input ends right after a raw
    /// delimiter, the scan restarts and ends at the first delimiter that an
    /// unquoted string stops at.
    #[verifier::rlimit(30)]
    #[verifier::spinoff_prover]
    pub fn scan_string_from(&mut self, opener: Opener) -> (r: Result<Token, Error>)
        requires
            old(self).wf(),
            opener.len >= 1,
            old(self).pos + opener.len <= old(self).src@.len(),
        ensures
            lexer_advance(*old(self), *final(self)),
            r is Ok ==> final(self).pos > old(self).pos,
            r matches Ok(t) ==> t is Str,
            r matches Err(e) ==> e.spec_position() <= old(self).src@.len(),
            forall|sv: Seq<char>|
                opener.ch == '"' && opener.len == 1 && !opener.from_entity && opener.family
                    == QuoteFamily::Double && #[trigger] canon_string_at(
                    old(self).src@,
                    old(self).pos as int,
                    sv,
                    old(self).in_container,
                ) ==> (r matches Ok(Token::Str { text, truncated }) && text@ == sv && !truncated
                    && final(self).pos == old(self).pos + spec_quote(sv).len()),
            string_scanned(
                old(self).src@,
                old(self).opts,
                opener,
                old(self).in_container,
                old(self).pos + opener.len,
                r,
                final(self).pos as int,
            ),
    {
        let n = self.src.len();
        let ghost pos0 = self.pos as int;
        self.pos = self.pos + opener.len;
        let start = self.pos;
        let end_ch = if opener.family == QuoteFamily::Double {
            '"'
        } else {
            '\''
        };
        // End of the verbatim prefix while nothing has been decoded.
        let mut content_end = start;
        // Once an escape or entity is decoded the content lives in `buf`.
        let mut is_owned = false;
        let mut buf: Vec<char> = Vec::new();
        let mut truncated = false;
        let mut stop_mode = false;
        let mut has_stop = false;
        let mut stop: usize = 0;
        // Whether the last content char came raw from the input and is a
        // delimiter (an escaped `\]` is content, not a swallowed closer).
        let mut raw_delim_tail = false;
        let ghost init = str_state(start, start, false, buf@, false, false, false, 0, false);
        loop
            invariant_except_break
                spec_str_run(self.src@, self.opts, opener, self.in_container, start as int, str_state(self.pos, content_end, is_owned, buf@, truncated, stop_mode, has_stop, stop, raw_delim_tail))
                    == spec_str_run(self.src@, self.opts, opener, self.in_container, start as int, init),
            invariant
                lexer_step(*old(self), *self),
                n == self.src@.len(),
                start == old(self).pos + opener.len,
                start <= content_end <= self.pos,
                has_stop ==> stop < n,
                pos0 == old(self).pos as int,
                end_ch == str_end_ch(opener),
                init == str_state(start, start, false, Seq::empty(), false, false, false, 0, false),
                opener.len >= 1,
                old(self).pos + opener.len <= old(self).src@.len() <= usize::MAX,
            ensures
                spec_str_run(self.src@, self.opts, opener, self.in_container, start as int, init)
                    == StrStep::Done(str_state(self.pos, content_end, is_owned, buf@, truncated, stop_mode, has_stop, stop, raw_delim_tail)),
            decreases (if stop_mode {
                0int
            } else {
                1int
            }), (if has_stop {
                stop as int
            } else {
                n as int
            }), n - self.pos,
        {
            let ghost cur = str_state(self.pos, content_end, is_owned, buf@, truncated, stop_mode, has_stop, stop, raw_delim_tail);
            proof {
                lemma_str_run_step(self.src@, self.opts, opener, self.in_container, start as int, cur);
            }
            // A run of plain content: no escape, no quote, no entity `&`, no
            // non-ASCII character, and in stop mode no delimiter.
            let mut i = self.pos;
            while i < n
                invariant
                    self.pos <= i <= n,
                    n == self.src@.len(),
                    forall|j: int|
                        self.pos <= j < i ==> #[trigger] self.src@[j] != '\\' && self.src@[j]
                            != end_ch,
                    spec_plain_run_end(self.src@, i as int, end_ch, stop_mode) == spec_plain_run_end(
                        self.src@,
                        self.pos as int,
                        end_ch,
                        stop_mode,
                    ),
                ensures
                    i == spec_plain_run_end(self.src@, self.pos as int, end_ch, stop_mode),
                decreases n - i,
            {
                let b = self.src[i];
                if (b as u32) >= 0x80 || b == '&' || b == '\\' || b == end_ch {
                    break;
                }
                if stop_mode && is_unquoted_delimiter(b) {
                    break;
                }
                i = i + 1;
            }
            let ghost i0 = i as int;
            if has_stop && stop <= i {
                i = stop;
            }
            if i > self.pos {
                if is_owned {
                    extend_span(&mut buf, self.src, self.pos, i);
                }
                let last = self.src[i - 1];
                raw_delim_tail = (last as u32) < 0x80 && is_delimiter(last);
                self.pos = i;
                content_end = i;
                proof {
                    lemma_str_step_run(self.src@, self.opts, opener, self.in_container, start as int, cur);
                    assert(spec_str_step(self.src@, self.opts, opener, self.in_container, start as int, cur)
                        == StrStep::Continue(str_state(self.pos, content_end, is_owned, buf@, truncated, stop_mode, has_stop, stop, raw_delim_tail)));
                    assert(str_progress(self.src@, cur, str_state(self.pos, content_end, is_owned, buf@, truncated, stop_mode, has_stop, stop, raw_delim_tail)));
                }
                continue;
            }
            if self.pos >= n {
                // Ending on a raw delimiter means that delimiter was swallowed
                // with the missing end quote (`{"a":"b}`, `["hello]`): restart
                // and end the string at the first unquoted-string delimiter.
                if !stop_mode && raw_delim_tail {
                    stop_mode = true;
                    self.pos = start;
                    content_end = start;
                    is_owned = false;
                    buf = Vec::new();
                    proof {
                        lemma_str_step_eof(self.src@, self.opts, opener, self.in_container, start as int, cur);
                        assert(spec_str_step(self.src@, self.opts, opener, self.in_container, start as int, cur)
                            == StrStep::Continue(str_state(self.pos, content_end, is_owned, buf@, truncated, stop_mode, has_stop, stop, raw_delim_tail)));
                        assert(str_progress(self.src@, cur, str_state(self.pos, content_end, is_owned, buf@, truncated, stop_mode, has_stop, stop, raw_delim_tail)));
                    }
                    continue;
                }
                truncated = true;
                proof {
                    lemma_str_step_eof(self.src@, self.opts, opener, self.in_container, start as int, cur);
                    assert(spec_str_step(self.src@, self.opts, opener, self.in_container, start as int, cur)
                        == StrStep::Done(str_state(self.pos, content_end, is_owned, buf@, truncated, stop_mode, has_stop, stop, raw_delim_tail)));
                }
                break;
            }
            let c = self.src[self.pos];
            // Close at the comma that a missing end quote should precede.
            if has_stop && stop == self.pos {
                truncated = true;
                proof {
                    lemma_str_step_stop(self.src@, self.opts, opener, self.in_container, start as int, cur);
                    assert(spec_str_step(self.src@, self.opts, opener, self.in_container, start as int, cur)
                        == StrStep::Done(str_state(self.pos, content_end, is_owned, buf@, truncated, stop_mode, has_stop, stop, raw_delim_tail)));
                }
                break;
            }
            if opener.from_entity && c == '&' {
                if let Some((decoded, len)) = decode_html_entity(self.src, self.pos) {
                    if opener.is_end(decoded) {
                        self.pos = self.pos + len;
                        proof {
                            lemma_str_step_entity(self.src@, self.opts, opener, self.in_container, start as int, cur);
                            assert(spec_str_step(self.src@, self.opts, opener, self.in_container, start as int, cur)
                                == StrStep::Done(str_state(self.pos, content_end, is_owned, buf@, truncated, stop_mode, has_stop, stop, raw_delim_tail)));
                        }
                        break;
                    }
                    // An entity that does not close the string decodes to its
                    // character; strings opened by a real quote keep `&...;`.
                    if !is_owned {
                        buf = copy_span(self.src, start, content_end);
                        is_owned = true;
                    }
                    buf.push(decoded);
                    self.pos = self.pos + len;
                    raw_delim_tail = is_delimiter(decoded);
                    proof {
                        lemma_str_step_entity(self.src@, self.opts, opener, self.in_container, start as int, cur);
                        assert(spec_str_step(self.src@, self.opts, opener, self.in_container, start as int, cur)
                            == StrStep::Continue(str_state(self.pos, content_end, is_owned, buf@, truncated, stop_mode, has_stop, stop, raw_delim_tail)));
                        assert(str_progress(self.src@, cur, str_state(self.pos, content_end, is_owned, buf@, truncated, stop_mode, has_stop, stop, raw_delim_tail)));
                    }
                    continue;
                }
            }
            if c == '\\' {
                if !is_owned {
                    buf = copy_span(self.src, start, content_end);
                    is_owned = true;
                }
                self.pos = self.pos + 1;
                // The escape target is the stop comma: close before it.
                if has_stop && stop == self.pos {
                    truncated = true;
                    proof {
                        lemma_str_step_escape(self.src@, self.opts, opener, self.in_container, start as int, cur);
                        assert(spec_str_step(self.src@, self.opts, opener, self.in_container, start as int, cur)
                            == StrStep::Done(str_state(self.pos, content_end, is_owned, buf@, truncated, stop_mode, has_stop, stop, raw_delim_tail)));
                    }
                    break;
                }
                match self.read_escape(&mut buf) {
                    Err(e) => {
                        proof {
                            lemma_str_step_escape(self.src@, self.opts, opener, self.in_container, start as int, cur);
                            assert(spec_str_step(self.src@, self.opts, opener, self.in_container, start as int, cur)
                                == StrStep::Fail(e.spec_kind(), e.spec_position() as int));
                            lemma_str_scan_canonical(*old(self), opener);
                        }
                        return Err(e);
                    },
                    Ok(EscapeOutcome::EndOfString) => {
                        // A truncated `\u` escape at end of input is dropped
                        // and the string ends there.
                        self.pos = n;
                        truncated = true;
                        proof {
                            lemma_str_step_escape(self.src@, self.opts, opener, self.in_container, start as int, cur);
                            assert(spec_str_step(self.src@, self.opts, opener, self.in_container, start as int, cur)
                                == StrStep::Done(str_state(self.pos, content_end, is_owned, buf@, truncated, stop_mode, has_stop, stop, raw_delim_tail)));
                        }
                        break;
                    },
                    Ok(EscapeOutcome::Decoded) => {},
                }
                raw_delim_tail = false;
                proof {
                    lemma_str_step_escape(self.src@, self.opts, opener, self.in_container, start as int, cur);
                    assert(spec_str_step(self.src@, self.opts, opener, self.in_container, start as int, cur)
                        == StrStep::Continue(str_state(self.pos, content_end, is_owned, buf@, truncated, stop_mode, has_stop, stop, raw_delim_tail)));
                    assert(str_progress(self.src@, cur, str_state(self.pos, content_end, is_owned, buf@, truncated, stop_mode, has_stop, stop, raw_delim_tail)));
                }
                continue;
            }
            if opener.is_end(c) {
                let quote_pos = self.pos;
                self.pos = self.pos + 1;
                // In stop mode any quote ends the string.
                if stop_mode {
                    truncated = true;
                    proof {
                        lemma_str_step_quote(self.src@, self.opts, opener, self.in_container, start as int, cur);
                        assert(spec_str_step(self.src@, self.opts, opener, self.in_container, start as int, cur)
                            == StrStep::Done(str_state(self.pos, content_end, is_owned, buf@, truncated, stop_mode, has_stop, stop, raw_delim_tail)));
                    }
                    break;
                }
                let is_real = if is_owned {
                    self.end_quote_is_real(0, buf.as_slice())
                } else {
                    let seen = copy_span(self.src, start, content_end);
                    self.end_quote_is_real(0, seen.as_slice())
                };
                if is_real {
                    proof {
                        lemma_str_step_quote(self.src@, self.opts, opener, self.in_container, start as int, cur);
                        assert(spec_str_step(self.src@, self.opts, opener, self.in_container, start as int, cur)
                            == StrStep::Done(str_state(self.pos, content_end, is_owned, buf@, truncated, stop_mode, has_stop, stop, raw_delim_tail)));
                    }
                    break;
                }
                // A quote right before a backslash stays content.
                if self.pos < n && self.src[self.pos] == '\\' {
                    if is_owned {
                        buf.push('"');
                    }
                    content_end = self.pos;
                    raw_delim_tail = false;
                    proof {
                        lemma_str_step_quote(self.src@, self.opts, opener, self.in_container, start as int, cur);
                        assert(spec_str_step(self.src@, self.opts, opener, self.in_container, start as int, cur)
                            == StrStep::Continue(str_state(self.pos, content_end, is_owned, buf@, truncated, stop_mode, has_stop, stop, raw_delim_tail)));
                        assert(str_progress(self.src@, cur, str_state(self.pos, content_end, is_owned, buf@, truncated, stop_mode, has_stop, stop, raw_delim_tail)));
                    }
                    continue;
                }
                let mut j = quote_pos;
                while j > 0 && is_ws(self.src[j - 1])
                    invariant
                        j <= quote_pos < n,
                        n == self.src@.len(),
                        spec_trim_ws_back(self.src@, 0, j as int) == spec_trim_ws_back(
                            self.src@,
                            0,
                            quote_pos as int,
                        ),
                    decreases j,
                {
                    j = j - 1;
                }
                if j > 0 {
                    let idx = j - 1;
                    let ch = self.src[idx];
                    if ch == ',' && !escaped_at(self.src, idx) {
                        // The scan never passes the current stop comma, so a
                        // new stop always lies before it.
                        if !has_stop || idx < stop {
                            has_stop = true;
                            stop = idx;
                            self.pos = start;
                            content_end = start;
                            is_owned = false;
                            buf = Vec::new();
                            proof {
                                lemma_str_step_quote(self.src@, self.opts, opener, self.in_container, start as int, cur);
                                assert(spec_str_step(self.src@, self.opts, opener, self.in_container, start as int, cur)
                                    == StrStep::Continue(str_state(self.pos, content_end, is_owned, buf@, truncated, stop_mode, has_stop, stop, raw_delim_tail)));
                                assert(str_progress(self.src@, cur, str_state(self.pos, content_end, is_owned, buf@, truncated, stop_mode, has_stop, stop, raw_delim_tail)));
                            }
                            continue;
                        }
                    } else if is_delimiter(ch) && !escaped_at(self.src, idx) && !stop_mode {
                        stop_mode = true;
                        self.pos = start;
                        content_end = start;
                        is_owned = false;
                        buf = Vec::new();
                        proof {
                            lemma_str_step_quote(self.src@, self.opts, opener, self.in_container, start as int, cur);
                            assert(spec_str_step(self.src@, self.opts, opener, self.in_container, start as int, cur)
                                == StrStep::Continue(str_state(self.pos, content_end, is_owned, buf@, truncated, stop_mode, has_stop, stop, raw_delim_tail)));
                            assert(str_progress(self.src@, cur, str_state(self.pos, content_end, is_owned, buf@, truncated, stop_mode, has_stop, stop, raw_delim_tail)));
                        }
                        continue;
                    }
                }
                // Not an end quote: keep it as an escaped quote in the value.
                if is_owned {
                    buf.push('"');
                }
                content_end = self.pos;
                raw_delim_tail = false;
                proof {
                    lemma_str_step_quote(self.src@, self.opts, opener, self.in_container, start as int, cur);
                    assert(spec_str_step(self.src@, self.opts, opener, self.in_container, start as int, cur)
                        == StrStep::Continue(str_state(self.pos, content_end, is_owned, buf@, truncated, stop_mode, has_stop, stop, raw_delim_tail)));
                    assert(str_progress(self.src@, cur, str_state(self.pos, content_end, is_owned, buf@, truncated, stop_mode, has_stop, stop, raw_delim_tail)));
                }
                continue;
            }
            if stop_mode && is_unquoted_delimiter(c) {
                // A URL must not break on the `//` of its scheme.
                let is_url = if c == '/' {
                    if is_owned {
                        buf.len() > 0 && buf[buf.len() - 1] == ':' && is_url_scheme(
                            buf.as_slice(),
                            0,
                            buf.len(),
                        )
                    } else {
                        content_end > start && self.src[content_end - 1] == ':' && is_url_scheme(
                            self.src,
                            start,
                            content_end,
                        )
                    }
                } else {
                    false
                };
                proof {
                    let content = str_content(self.src@, start as int, cur);
                    assert(buf@.subrange(0, buf@.len() as int) =~= buf@);
                    if !is_owned && content_end > start {
                        assert(content.last() == self.src@[content_end - 1]);
                    }
                    assert(is_url == (c == '/' && content.len() > 0 && content.last() == ':'
                        && spec_is_url_scheme(content)));
                }
                if is_url {
                    let url_start = self.pos;
                    while self.pos < n && is_url_char(self.src[self.pos])
                        invariant
                            lexer_step(*old(self), *self),
                            n == self.src@.len(),
                            url_start <= self.pos,
                            spec_url_run_end(self.src@, self.pos as int) == spec_url_run_end(
                                self.src@,
                                url_start as int,
                            ),
                            url_start <= self.pos,
                            url_start < n,
                            self.src@[url_start as int] == '/',
                        decreases n - self.pos,
                    {
                        self.pos = self.pos + 1;
                    }
                    if is_owned {
                        extend_span(&mut buf, self.src, url_start, self.pos);
                    }
                    content_end = self.pos;
                    let last = self.src[self.pos - 1];
                    raw_delim_tail = (last as u32) < 0x80 && is_delimiter(last);
                    proof {
                        lemma_str_step_delim(self.src@, self.opts, opener, self.in_container, start as int, cur);
                        assert(spec_str_step(self.src@, self.opts, opener, self.in_container, start as int, cur)
                            == StrStep::Continue(str_state(self.pos, content_end, is_owned, buf@, truncated, stop_mode, has_stop, stop, raw_delim_tail)));
                        assert(str_progress(self.src@, cur, str_state(self.pos, content_end, is_owned, buf@, truncated, stop_mode, has_stop, stop, raw_delim_tail)));
                    }
                    continue;
                }
                // The delimiter stays for the parser: `["hello]` closes the
                // string before the `]`.
                truncated = true;
                proof {
                    lemma_str_step_delim(self.src@, self.opts, opener, self.in_container, start as int, cur);
                    assert(spec_str_step(self.src@, self.opts, opener, self.in_container, start as int, cur)
                        == StrStep::Done(str_state(self.pos, content_end, is_owned, buf@, truncated, stop_mode, has_stop, stop, raw_delim_tail)));
                }
                break;
            }
            // Plain content character (typically non-ASCII).
            self.pos = self.pos + 1;
            if is_owned {
                buf.push(c);
            }
            content_end = self.pos;
            raw_delim_tail = is_delimiter(c);
            proof {
                lemma_str_step_plain(self.src@, self.opts, opener, self.in_container, start as int, cur);
                assert(spec_str_step(self.src@, self.opts, opener, self.in_container, start as int, cur)
                    == StrStep::Continue(str_state(self.pos, content_end, is_owned, buf@, truncated, stop_mode, has_stop, stop, raw_delim_tail)));
                assert(str_progress(self.src@, cur, str_state(self.pos, content_end, is_owned, buf@, truncated, stop_mode, has_stop, stop, raw_delim_tail)));
            }
        }
        // A truncated string does not keep the whitespace before the cut.
        let text = if is_owned {
            if truncated {
                trim_end_ws(&mut buf);
            }
            buf
        } else {
            let mut e = content_end;
            if truncated {
                while e > start && is_ws(self.src[e - 1])
                    invariant
                        start <= e <= content_end <= self.src@.len(),
                        spec_trim_ws_back(self.src@, start as int, e as int) == spec_trim_ws_back(
                            self.src@,
                            start as int,
                            content_end as int,
                        ),
                    decreases e,
                {
                    e = e - 1;
                }
            }
            copy_span(self.src, start, e)
        };
        proof {
            lemma_str_scan_canonical(*old(self), opener);
        }
        Ok(Token::Str { text, truncated })
    }

    /// Scans a number, or a bare word when the text is not a number.
    pub fn scan_number_or_word(&mut self, key_position: bool) -> (r: Result<Token, Error>)
        requires
            old(self).wf(),
            old(self).pos < old(self).src@.len(),
        ensures
            lexer_advance(*old(self), *final(self)),
            r is Ok ==> final(self).pos > old(self).pos,
            r matches Ok(t) ==> token_ok(t),
            r matches Err(e) ==> e.spec_position() <= old(self).src@.len(),
            spec_clean_number_end(old(self).src@, old(self).pos as int) matches Some(e) ==> (r matches Ok(
                Token::Num { text, truncated },
            ) && text@ == old(self).src@.subrange(old(self).pos as int, e) && !truncated
                && final(self).pos == e),
            number_or_word_scanned(
                old(self).src@,
                old(self).opts,
                key_position,
                old(self).pos as int,
                r,
                final(self).pos as int,
            ),
    {
        match self.scan_number() {
            Err(e) => Err(e),
            Ok(Some(token)) => Ok(token),
            Ok(None) => Ok(self.scan_word(key_position)),
        }
    }

    /// Reads the next token, skipping trivia, comments, and fences first.
    /// `key_position` makes a bare word stop at `:` so that `{a: 1}` lexes
    /// the key and its value separately. `Ok(None)` means end of input.
    #[verifier::rlimit(100)]
    #[verifier::spinoff_prover]
    pub fn next_token(&mut self, key_position: bool) -> (r: Result<Option<Spanned>, Error>)
        requires
            old(self).wf(),
        ensures
            lexer_advance(*old(self), *final(self)),
            r matches Ok(Some(t)) ==> old(self).pos <= t.start < final(self).pos,
            r matches Ok(Some(t)) ==> token_ok(t.token),
            r matches Ok(Some(t)) ==> (t.token is CloseBrace ==> old(self).src@[t.start as int]
                == '}' && final(self).pos == t.start + 1),
            r matches Ok(Some(t)) ==> (t.token is CloseBracket ==> old(self).src@[t.start as int]
                == ']' && final(self).pos == t.start + 1),
            r matches Ok(None) ==> final(self).pos == final(self).src@.len(),
            r matches Err(e) ==> e.spec_position() <= old(self).src@.len(),
            old(self).pos == old(self).src@.len() ==> r matches Ok(None),
            forall|v: Value|
                #[trigger] canon_value_start(
                    old(self).src@,
                    token_start(old(self).src@, old(self).pos as int),
                    v,
                    old(self).in_container,
                ) ==> (r matches Ok(Some(sp)) && sp.start == token_start(
                    old(self).src@,
                    old(self).pos as int,
                ) && canon_token(sp.token, v) && final(self).pos == sp.start + first_token_len(v)),
            old(self).pos < old(self).src@.len() ==> ({
                let c = old(self).src@[old(self).pos as int];
                &&& c == ',' ==> (r matches Ok(Some(sp)) && sp.token is Comma)
                &&& c == ':' ==> (r matches Ok(Some(sp)) && sp.token is Colon)
                &&& c == ']' ==> (r matches Ok(Some(sp)) && sp.token is CloseBracket)
                &&& c == '}' ==> (r matches Ok(Some(sp)) && sp.token is CloseBrace)
                &&& (c == ',' || c == ':' || c == ']' || c == '}') ==> (r matches Ok(Some(sp))
                    && sp.start == old(self).pos && final(self).pos == old(self).pos + 1)
            }),
            ({
                let s = old(self).src@;
                let (q, nl) = spec_skip_trivia(old(self).opts, s, old(self).pos as int);
                &&& (q >= s.len() ==> r matches Ok(None))
                &&& (r matches Ok(Some(sp)) ==> sp.start == q && sp.newline_before == nl)
                &&& (q < s.len() ==> (spec_punct_token(s[q]) matches Some(tok) ==> (r matches Ok(
                    Some(sp),
                ) && sp.token == tok && final(self).pos == q + 1)))
                &&& (q < s.len() && (s[q] == '-' || spec_is_digit(s[q]) || (s[q] == '.'
                    && !spec_starts_with(s, q, seq!['.', '.', '.'])))) ==> match spec_scan_number(
                    old(self).opts,
                    s,
                    q,
                ) {
                    NumberScan::NotANumber => r matches Ok(Some(sp)) && word_scanned(
                        s,
                        q,
                        key_position,
                        old(self).opts,
                        sp.token,
                        final(self).pos as int,
                    ),
                    NumberScan::Rejected { c: ch } => r matches Err(e) && e.spec_kind()
                        == ErrorKind::UnexpectedCharacter(ch) && e.spec_position() == q,
                    n => r matches Ok(Some(sp)) && number_token_is(
                        n,
                        s,
                        q,
                        sp.token,
                        final(self).pos as int,
                    ),
                }
                &&& (q < s.len() && s[q] == '.' && spec_starts_with(s, q, seq!['.', '.', '.'])) ==> (
                r matches Ok(Some(sp)) && sp.token is Ellipsis && final(self).pos == ({
                    let w = spec_ws_run_end(old(self).opts, s, q + 3);
                    if w < s.len() && s[w] == ',' {
                        w + 1
                    } else {
                        w
                    }
                }))
                &&& (q < s.len() && s[q] == '/') ==> (if spec_starts_with(s, q, seq!['/', '/'])
                    || spec_starts_with(s, q, seq!['/', '*']) || !spec_repairs(old(self).opts, 4) {
                    r matches Err(e) && e.spec_kind() == ErrorKind::UnexpectedCharacter('/')
                        && e.spec_position() == q
                } else {
                    r matches Ok(Some(sp)) && sp.token matches Token::Str { text: x, truncated: tr }
                        && final(self).pos == spec_regex_end(s, q + 1) && x@ == s.subrange(
                        q,
                        spec_regex_end(s, q + 1),
                    ) && tr == (spec_regex_end(s, q + 1) == s.len())
                })
                &&& (q < s.len() && spec_punct_token(s[q]) is None && s[q] != '.' && s[q] != '/'
                    && !(s[q] == '\\' && spec_repairs(old(self).opts, 4)) && s[q] != '&'
                    && !spec_is_quote(s[q]) && s[q] != '-' && !spec_is_digit(s[q])) ==> (r matches Ok(
                    Some(sp),
                ) && word_scanned(s, q, key_position, old(self).opts, sp.token, final(self).pos as int))
                &&& (q < s.len() && spec_is_quote(s[q])) ==> (if s[q] != '"' && !spec_repairs(
                    old(self).opts,
                    256,
                ) {
                    r matches Err(e) && e.spec_kind() == ErrorKind::UnexpectedCharacter(s[q])
                        && e.spec_position() == q
                } else {
                    quote_scanned(
                        s,
                        old(self).opts,
                        old(self).in_container,
                        q,
                        r,
                        final(self).pos as int,
                    )
                })
                &&& (q < s.len() && s[q] == '\\' && spec_repairs(old(self).opts, 4)) ==> (if q + 1
                    < s.len() && spec_is_quote(s[q + 1]) {
                    quote_scanned(
                        s,
                        old(self).opts,
                        old(self).in_container,
                        q + 1,
                        r,
                        final(self).pos as int,
                    )
                } else {
                    r matches Ok(Some(sp)) && word_scanned(
                        s,
                        q,
                        key_position,
                        old(self).opts,
                        sp.token,
                        final(self).pos as int,
                    )
                })
                &&& (q < s.len() && s[q] == '&') ==> !(r matches Ok(None)) && (match spec_html_entity(
                    s,
                    q,
                ) {
                    Some((ch, len)) if spec_is_quote(ch) && spec_repairs(old(self).opts, 128) => string_scanned(
                        s,
                        old(self).opts,
                        Opener {
                            ch,
                            len: len as usize,
                            from_entity: true,
                            family: spec_quote_family(ch),
                        },
                        old(self).in_container,
                        q + len,
                        token_result(r),
                        final(self).pos as int,
                    ),
                    _ => number_or_word_scanned(
                        s,
                        old(self).opts,
                        key_position,
                        q,
                        token_result(r),
                        final(self).pos as int,
                    ),
                })
            }),
    {
        let ghost ts = token_start(old(self).src@, old(self).pos as int);
        // The value whose canonical text begins at the token, if any.
        let ghost cv: Option<Value> = if exists|v: Value|
            canon_value_start(old(self).src@, ts, v, old(self).in_container) {
            Some(choose|v: Value| canon_value_start(old(self).src@, ts, v, old(self).in_container))
        } else {
            None
        };
        proof {
            if let Some(v) = cv {
                lemma_canon_start_quiet(old(self).src@, ts, v, old(self).in_container);
                lemma_canon_start_kind(old(self).src@, ts, v, old(self).in_container);
                if let Value::Number(n) = v {
                    lemma_number_first(n@);
                    lemma_clean_end_of_number(old(self).src@, ts, ts + n@.len());
                }
            }
        }
        let newline_before = self.skip_trivia();
        let start = self.pos;
        let n = self.src.len();
        if start >= n {
            return Ok(None);
        }
        let c = self.src[start];
        let dots: [char; 3] = ['.', '.', '.'];
        let slash2: [char; 2] = ['/', '/'];
        let slash_star: [char; 2] = ['/', '*'];
        let token = if c == '{' {
            self.pos = self.pos + 1;
            Token::OpenBrace
        } else if c == '}' {
            self.pos = self.pos + 1;
            Token::CloseBrace
        } else if c == '[' {
            self.pos = self.pos + 1;
            Token::OpenBracket
        } else if c == ']' {
            self.pos = self.pos + 1;
            Token::CloseBracket
        } else if c == ':' {
            self.pos = self.pos + 1;
            Token::Colon
        } else if c == ',' {
            self.pos = self.pos + 1;
            Token::Comma
        } else if c == ';' {
            self.pos = self.pos + 1;
            Token::Semicolon
        } else if c == '+' {
            self.pos = self.pos + 1;
            Token::Plus
        } else if c == '(' {
            self.pos = self.pos + 1;
            Token::OpenParen
        } else if c == ')' {
            self.pos = self.pos + 1;
            Token::CloseParen
        } else if c == '.' && self.rest_starts_with(&dots) {
            self.pos = self.pos + 3;
            self.skip_ws_only();
            if self.pos < n && self.src[self.pos] == ',' {
                self.pos = self.pos + 1;
            }
            Token::Ellipsis
        } else if c == '/' {
            if self.rest_starts_with(&slash2) || self.rest_starts_with(&slash_star) {
                // Comments are only consumed by `skip_trivia` when enabled.
                return Err(Error::new(ErrorKind::UnexpectedCharacter('/'), start));
            }
            if self.opts.repairs(Repairs::UNQUOTED()) {
                self.scan_regex()
            } else {
                return Err(Error::new(ErrorKind::UnexpectedCharacter('/'), start));
            }
        } else if c == '\\' && self.opts.repairs(Repairs::UNQUOTED()) {
            // A redundant escape before a quote, as in `{\"a\": 1}`.
            self.pos = self.pos + 1;
            if self.pos < n && is_quote(self.src[self.pos]) {
                match self.scan_string() {
                    Ok(t) => t,
                    Err(e) => {
                        return Err(e);
                    },
                }
            } else {
                self.pos = start;
                self.scan_word(key_position)
            }
        } else if c == '&' {
            let entity = decode_html_entity(self.src, start);
            match entity {
                Some((ch, len)) => {
                    if is_quote(ch) && self.opts.repairs(Repairs::ENTITIES()) {
                        let opener = Opener {
                            ch,
                            len,
                            from_entity: true,
                            family: quote_family(ch),
                        };
                        match self.scan_string_from(opener) {
                            Ok(t) => t,
                            Err(e) => {
                                return Err(e);
                            },
                        }
                    } else {
                        match self.scan_number_or_word(key_position) {
                            Ok(t) => t,
                            Err(e) => {
                                return Err(e);
                            },
                        }
                    }
                },
                None => match self.scan_number_or_word(key_position) {
                    Ok(t) => t,
                    Err(e) => {
                        return Err(e);
                    },
                },
            }
        } else if is_quote(c) {
            if c != '"' && !self.opts.repairs(Repairs::QUOTES()) {
                return Err(Error::new(ErrorKind::UnexpectedCharacter(c), start));
            }
            let opener = Opener { ch: c, len: 1, from_entity: false, family: quote_family(c) };
            match self.scan_string_from(opener) {
                Ok(t) => t,
                Err(e) => {
                    return Err(e);
                },
            }
        } else if c == '-' || is_digit(c) || c == '.' {
            match self.scan_number_or_word(key_position) {
                Ok(t) => t,
                Err(e) => {
                    return Err(e);
                },
            }
        } else {
            self.scan_word(key_position)
        };
        proof {
            assert forall|v: Value|
                #[trigger] canon_value_start(
                    old(self).src@,
                    ts,
                    v,
                    old(self).in_container,
                ) implies canon_token(token, v) && self.pos == start + first_token_len(v) by {
                lemma_canon_start_same(old(self).src@, ts, cv->0, v, old(self).in_container);
            }
        }
        Ok(Some(Spanned { token, start, newline_before }))
    }
}

} // verus!
