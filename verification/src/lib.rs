//! Repair, extract, and partially parse malformed JSON: the JSON that
//! language models emit, that logs contain, and that hand-written files
//! slowly turn into.
use vstd::prelude::*;
use vstd::utf8::*;

pub mod chars;
pub mod options;
pub mod text;
pub mod error;
pub mod value;
pub mod extract;
pub mod lexer;
pub mod parser;
pub mod stream;
pub mod swar;

pub use error::{Error, ErrorKind};
pub use extract::{extract, extract_all, extract_partial};
pub use options::{Allow, Options, Repairs};
pub use parser::MAX_NESTING_DEPTH;
pub use stream::{Delta, StreamRepairer};
pub use value::{Number, Value};
use options::spec_repairs;
use lexer::spec_skip_trivia;
use parser::{spec_structural_depth, structural_depth, Parser};
use text::{byte_offset, chars_of, push_str, str_byte_len, utf8_len};
use value::{depth, layout, numbers_valid, render};

verus! {

broadcast use vstd::string::group_string_axioms;

/// The number of backslashes immediately before position `i` of `s`.
pub open spec fn spec_backslash_run(s: Seq<char>, i: int) -> nat
    decreases i,
{
    if 0 < i <= s.len() && s[i - 1] == '\\' {
        1 + spec_backslash_run(s, i - 1)
    } else {
        0
    }
}

/// A quote at `i` preceded by an odd run of backslashes.
pub open spec fn spec_escaped_quote_at(s: Seq<char>, i: int) -> bool {
    0 <= i < s.len() && s[i] == '"' && spec_backslash_run(s, i) % 2 == 1
}

/// A quote at `i` preceded by an even run of backslashes.
pub open spec fn spec_raw_quote_at(s: Seq<char>, i: int) -> bool {
    0 <= i < s.len() && s[i] == '"' && spec_backslash_run(s, i) % 2 == 0
}

/// Whether a document looks like one that lost one escaping layer: at least
/// one escaped quote and no raw quote at all.
pub open spec fn spec_looks_double_escaped(s: Seq<char>) -> bool {
    (exists|i: int| spec_escaped_quote_at(s, i)) && !(exists|i: int| spec_raw_quote_at(s, i))
}

/// Every backslash in `s` comes after a quote that no backslash precedes.
pub open spec fn backslashes_after_quote(s: Seq<char>) -> bool {
    forall|i: int|
        0 <= i < s.len() && #[trigger] s[i] == '\\' ==> exists|j: int|
            0 <= j < i && #[trigger] s[j] == '"' && (j == 0 || s[j - 1] != '\\')
}

/// A document in which every backslash follows a raw quote does not look
/// double-escaped.
proof fn lemma_not_double_escaped(s: Seq<char>)
    requires
        backslashes_after_quote(s),
    ensures
        !spec_looks_double_escaped(s),
{
    if exists|i: int| spec_escaped_quote_at(s, i) {
        let i = choose|i: int| spec_escaped_quote_at(s, i);
        assert(s[i - 1] == '\\');
        let j = choose|j: int| 0 <= j < i - 1 && #[trigger] s[j] == '\"' && (j == 0 || s[j - 1] != '\\');
        assert(spec_backslash_run(s, j) == 0);
        assert(spec_raw_quote_at(s, j));
    }
}

/// Text without backslashes.
proof fn lemma_no_backslash(s: Seq<char>)
    requires
        forall|i: int| 0 <= i < s.len() ==> s[i] != '\\',
    ensures
        backslashes_after_quote(s),
{
}

/// Joining two texts keeps every backslash after a raw quote, unless the
/// first ends with a backslash right before a quote that opens the second.
proof fn lemma_after_quote_concat(a: Seq<char>, b: Seq<char>)
    requires
        backslashes_after_quote(a),
        backslashes_after_quote(b),
        a.len() == 0 || a.last() != '\\' || b.len() == 0 || b[0] != '"',
    ensures
        backslashes_after_quote(a + b),
{
    let s = a + b;
    assert forall|i: int| 0 <= i < s.len() && #[trigger] s[i] == '\\' implies exists|j: int|
        0 <= j < i && #[trigger] s[j] == '\"' && (j == 0 || s[j - 1] != '\\') by {
        if i < a.len() {
            assert(a[i] == '\\');
            let j = choose|j: int| 0 <= j < i && #[trigger] a[j] == '\"' && (j == 0 || a[j - 1] != '\\');
            assert(s[j] == a[j]);
            if j > 0 {
                assert(s[j - 1] == a[j - 1]);
            }
        } else {
            let ib = i - a.len();
            assert(b[ib] == '\\');
            let jb = choose|jb: int| 0 <= jb < ib && #[trigger] b[jb] == '\"' && (jb == 0 || b[jb - 1] != '\\');
            let j = a.len() + jb;
            assert(s[j] == b[jb]);
            if jb > 0 {
                assert(s[j - 1] == b[jb - 1]);
            } else if a.len() > 0 {
                assert(s[j - 1] == a.last());
            }
        }
    }
}

/// A JSON number has no backslash.
proof fn lemma_number_no_backslash(n: Seq<char>)
    requires
        value::spec_is_json_number(n),
    ensures
        backslashes_after_quote(n),
{
    let (a, b, c) = choose|a: int, b: int, c: int| value::json_number_parts(n, a, b, c);
    assert forall|i: int| 0 <= i < n.len() implies n[i] != '\\' by {
        if i < a {
            assert(n[i] == '-');
        } else if i < b {
            let ip = n.subrange(a, b);
            assert(ip[i - a] == n[i]);
            if ip =~= seq!['0'] {
                assert(ip[0] == '0');
            } else {
                assert(chars::spec_is_digit(ip[i - a]));
            }
        } else if i < c {
            if i > b {
                assert(n.subrange(b + 1, c)[i - b - 1] == n[i]);
            }
        } else {
            let e = n.subrange(c, n.len() as int);
            assert(e[i - c] == n[i]);
            if i > c {
                if e.len() >= 2 && value::all_digits(e.subrange(1, e.len() as int)) {
                    assert(e.subrange(1, e.len() as int)[i - c - 1] == n[i]);
                } else if i > c + 1 {
                    assert(e.subrange(2, e.len() as int)[i - c - 2] == n[i]);
                }
            }
        }
    }
    lemma_no_backslash(n);
}

/// A quoted string: every backslash follows its opening quote.
proof fn lemma_quote_after_quote(t: Seq<char>)
    ensures
        backslashes_after_quote(value::spec_quote(t)),
{
    let q = value::spec_quote(t);
    assert(q[0] == '"');
    assert forall|i: int| 0 <= i < q.len() && #[trigger] q[i] == '\\' implies exists|j: int|
        0 <= j < i && #[trigger] q[j] == '\"' && (j == 0 || q[j - 1] != '\\') by {
        assert(i > 0);
        assert(q[0] == '"');
    }
}

/// In the text of a value, every backslash follows a raw quote.
proof fn lemma_render_after_quote(v: Value, spaced: bool)
    requires
        numbers_valid(v),
    ensures
        backslashes_after_quote(value::layout(v, spaced)),
    decreases v,
{
    match v {
        Value::Null => {
            lemma_no_backslash(value::layout(v, spaced));
        },
        Value::Bool(b) => {
            lemma_no_backslash(value::layout(v, spaced));
        },
        Value::Number(n) => {
            lemma_number_no_backslash(n@);
        },
        Value::String(t) => {
            lemma_quote_after_quote(t@);
        },
        Value::Array(items) => {
            let body = value::render_items(items@, spaced);
            lemma_items_after_quote(items@, spaced);
            lemma_no_backslash(seq!['[']);
            lemma_no_backslash(seq![']']);
            lemma_after_quote_concat(seq!['['], body);
            lemma_after_quote_concat(seq!['['] + body, seq![']']);
        },
        Value::Object(members) => {
            let body = value::render_members(members@, spaced);
            lemma_members_after_quote(members@, spaced);
            lemma_no_backslash(seq!['{']);
            lemma_no_backslash(seq!['}']);
            lemma_after_quote_concat(seq!['{'], body);
            lemma_after_quote_concat(seq!['{'] + body, seq!['}']);
        },
    }
}

/// In the text of an element list, every backslash follows a raw quote.
proof fn lemma_items_after_quote(s: Seq<Value>, spaced: bool)
    requires
        value::items_valid(s),
    ensures
        backslashes_after_quote(value::render_items(s, spaced)),
    decreases s,
{
    if s.len() == 1 {
        lemma_render_after_quote(s[0], spaced);
    } else if s.len() > 1 {
        lemma_items_after_quote(s.drop_last(), spaced);
        lemma_render_after_quote(s.last(), spaced);
        let a = value::render_items(s.drop_last(), spaced);
        let c = value::comma(spaced);
        lemma_no_backslash(c);
        lemma_after_quote_concat(a, c);
        lemma_after_quote_concat(a + c, value::layout(s.last(), spaced));
    } else {
        lemma_no_backslash(value::render_items(s, spaced));
    }
}

/// In the text of a member list, every backslash follows a raw quote.
proof fn lemma_members_after_quote(s: Seq<(String, Value)>, spaced: bool)
    requires
        value::members_valid(s),
    ensures
        backslashes_after_quote(value::render_members(s, spaced)),
    decreases s,
{
    if s.len() >= 1 {
        let m = s.last();
        let q = value::spec_quote(m.0@);
        let k = value::colon(spaced);
        lemma_render_after_quote(m.1, spaced);
        lemma_quote_after_quote(m.0@);
        lemma_no_backslash(k);
        lemma_after_quote_concat(q, k);
        lemma_after_quote_concat(q + k, value::layout(m.1, spaced));
        assert(value::render_member(m, spaced) == q + k + value::layout(m.1, spaced));
        if s.len() == 1 {
            assert(m == s[0]);
        }
        if s.len() > 1 {
            lemma_members_after_quote(s.drop_last(), spaced);
            let a = value::render_members(s.drop_last(), spaced);
            let c = value::comma(spaced);
            lemma_no_backslash(c);
            lemma_after_quote_concat(a, c);
            lemma_after_quote_concat(a + c, value::render_member(m, spaced));
        }
    } else {
        lemma_no_backslash(value::render_members(s, spaced));
    }
}

/// What removing one escaping layer turns the escape `\c` into.
pub open spec fn spec_unescape_char(c: char) -> Seq<char> {
    if c == '"' {
        seq!['"']
    } else if c == '\\' {
        seq!['\\']
    } else if c == '\'' {
        seq!['\'']
    } else if c == '/' {
        seq!['/']
    } else if c == 'n' {
        seq!['\n']
    } else if c == 'r' {
        seq!['\r']
    } else if c == 't' {
        seq!['\t']
    } else if c == 'b' {
        seq!['\u{08}']
    } else if c == 'f' {
        seq!['\u{0C}']
    } else if c == 'u' {
        seq!['\\', 'u']
    } else {
        seq!['\\', c]
    }
}

/// `s` with one escaping layer removed.
pub open spec fn spec_unescape_once(s: Seq<char>) -> Seq<char>
    decreases s.len(),
{
    if s.len() == 0 {
        Seq::empty()
    } else if s[0] != '\\' {
        seq![s[0]] + spec_unescape_once(s.drop_first())
    } else if s.len() == 1 {
        seq!['\\']
    } else {
        spec_unescape_char(s[1]) + spec_unescape_once(s.skip(2))
    }
}

/// The text the parser reads: `input` with one escaping layer removed when
/// it looks double-escaped and unquoted repair is on.
pub open spec fn spec_effective_input(input: Seq<char>, unquoted: bool) -> Seq<char> {
    if unquoted && spec_looks_double_escaped(input) {
        spec_unescape_once(input)
    } else {
        input
    }
}

/// `s` with a backslash put before every quote, as a document looks when it
/// was escaped once too often.
pub open spec fn spec_escape_quotes(s: Seq<char>) -> Seq<char>
    decreases s.len(),
{
    if s.len() == 0 {
        Seq::empty()
    } else if s[0] == '"' {
        seq!['\\', '"'] + spec_escape_quotes(s.drop_first())
    } else {
        seq![s[0]] + spec_escape_quotes(s.drop_first())
    }
}

/// Removing one escaping layer undoes `spec_escape_quotes` on text without
/// backslashes; every quote of the escaped text follows one backslash that
/// no other backslash precedes, and every backslash is followed by a quote.
#[verifier::rlimit(40)]
#[verifier::spinoff_prover]
proof fn lemma_escape_quotes_shape(t: Seq<char>)
    requires
        forall|i: int| 0 <= i < t.len() ==> t[i] != '\\',
    ensures
        spec_unescape_once(spec_escape_quotes(t)) == t,
        ({
            let e = spec_escape_quotes(t);
            &&& forall|i: int|
                0 <= i < e.len() && #[trigger] e[i] == '"' ==> 1 <= i && e[i - 1] == '\\' && (i
                    >= 2 ==> e[i - 2] != '\\')
            &&& forall|i: int|
                0 <= i < e.len() && #[trigger] e[i] == '\\' ==> i + 1 < e.len() && e[i + 1] == '"'
            &&& t.contains('"') ==> e.contains('"')
            &&& !t.contains('"') ==> e == t
        }),
    decreases t.len(),
{
    if t.len() > 0 {
        let rest = t.drop_first();
        lemma_escape_quotes_shape(rest);
        let er = spec_escape_quotes(rest);
        let e = spec_escape_quotes(t);
        let pre = if t[0] == '"' {
            seq!['\\', '"']
        } else {
            seq![t[0]]
        };
        assert(e == pre + er);
        assert(e.drop_first() == seq![pre[0]].drop_first() + (pre.drop_first() + er)) by {
            assert(e.drop_first() =~= pre.drop_first() + er);
            assert(seq![pre[0]].drop_first() =~= Seq::<char>::empty());
            assert(Seq::<char>::empty() + (pre.drop_first() + er) =~= pre.drop_first() + er);
        }
        if t[0] == '"' {
            assert(e.skip(2) =~= er);
            assert(spec_unescape_once(e) == seq!['"'] + spec_unescape_once(e.skip(2)));
            assert(seq!['"'] + rest =~= t);
        } else {
            assert(e.drop_first() =~= er);
            assert(seq![t[0]] + rest =~= t);
        }
        let lp = pre.len() as int;
        assert forall|i: int| 0 <= i < e.len() && #[trigger] e[i] == '"' implies 1 <= i && e[i
            - 1] == '\\' && (i >= 2 ==> e[i - 2] != '\\') by {
            if i >= lp {
                assert(er[i - lp] == '"');
                assert(e[i - 1] == er[i - lp - 1]);
                if i - lp >= 2 {
                    assert(e[i - 2] == er[i - lp - 2]);
                } else {
                    assert(e[i - 2] == pre[lp - 1]);
                }
            }
        }
        assert forall|i: int| 0 <= i < e.len() && #[trigger] e[i] == '\\' implies i + 1 < e.len()
            && e[i + 1] == '"' by {
            if i >= lp {
                assert(er[i - lp] == '\\');
                assert(e[i + 1] == er[i - lp + 1]);
            }
        }
        if t.contains('"') {
            if t[0] == '"' {
                assert(e[1] == '"');
            } else {
                let j = choose|j: int| 0 <= j < t.len() && t[j] == '"';
                assert(rest[j - 1] == '"');
                let k = choose|k: int| 0 <= k < er.len() && er[k] == '"';
                assert(e[k + lp] == '"');
            }
        } else {
            assert forall|j: int| 0 <= j < rest.len() implies rest[j] != '"' by {
                assert(rest[j] == t[j + 1]);
            }
            assert(e =~= t);
        }
    } else {
        assert(spec_escape_quotes(t) =~= t);
    }
}

/// A document without backslashes, escaped once too often, is read back
/// as the document itself when unquoted repair is on.
pub proof fn lemma_escaped_document(text: Seq<char>)
    requires
        forall|i: int| 0 <= i < text.len() ==> text[i] != '\\',
    ensures
        spec_effective_input(spec_escape_quotes(text), true) == text,
{
    lemma_escape_quotes_shape(text);
    let e = spec_escape_quotes(text);
    if text.contains('"') {
        let k = choose|k: int| 0 <= k < e.len() && e[k] == '"';
        assert(spec_backslash_run(e, k - 1) == 0);
        assert(spec_backslash_run(e, k) == 1);
        assert(spec_escaped_quote_at(e, k));
        assert forall|i: int| !spec_raw_quote_at(e, i) by {
            if 0 <= i < e.len() && e[i] == '"' {
                assert(spec_backslash_run(e, i - 1) == 0);
            }
        }
    } else {
        assert(!(exists|i: int| spec_escaped_quote_at(e, i))) by {
            assert forall|i: int| !spec_escaped_quote_at(e, i) by {
                if 0 <= i < e.len() {
                    assert(e[i] == text[i]);
                }
            }
        }
    }
}

/// Whether `input` looks like a JSON document that lost one escaping layer.
///
/// The test is deliberately conservative: `\"` must appear and no unescaped
/// `"` may be present, so a valid JSON string such as `"{\"a\": 1}"` is left
/// alone.
pub fn looks_double_escaped(input: &str) -> (r: bool)
    ensures
        r == spec_looks_double_escaped(input@),
{
    let s = chars_of(input);
    let mut saw_escaped = false;
    let mut saw_raw = false;
    let mut run: usize = 0;
    let mut i: usize = 0;
    while i < s.len()
        invariant
            i <= s@.len(),
            s@ == input@,
            run <= i,
            run == spec_backslash_run(s@, i as int),
            saw_escaped == exists|j: int| 0 <= j < i && spec_escaped_quote_at(s@, j),
            saw_raw == exists|j: int| 0 <= j < i && spec_raw_quote_at(s@, j),
        decreases s@.len() - i,
    {
        let c = s[i];
        proof {
            assert(spec_escaped_quote_at(s@, i as int) == (c == '"' && run % 2 == 1));
            assert(spec_raw_quote_at(s@, i as int) == (c == '"' && run % 2 == 0));
            assert((exists|j: int| 0 <= j < i + 1 && spec_escaped_quote_at(s@, j)) == (saw_escaped
                || spec_escaped_quote_at(s@, i as int))) by {
                if exists|j: int| 0 <= j < i + 1 && spec_escaped_quote_at(s@, j) {
                    let j = choose|j: int| 0 <= j < i + 1 && spec_escaped_quote_at(s@, j);
                    if j < i {
                        assert(exists|j: int| 0 <= j < i && spec_escaped_quote_at(s@, j));
                    }
                }
            }
            assert((exists|j: int| 0 <= j < i + 1 && spec_raw_quote_at(s@, j)) == (saw_raw
                || spec_raw_quote_at(s@, i as int))) by {
                if exists|j: int| 0 <= j < i + 1 && spec_raw_quote_at(s@, j) {
                    let j = choose|j: int| 0 <= j < i + 1 && spec_raw_quote_at(s@, j);
                    if j < i {
                        assert(exists|j: int| 0 <= j < i && spec_raw_quote_at(s@, j));
                    }
                }
            }
        }
        if c == '\\' {
            run = run + 1;
        } else {
            if c == '"' {
                if run % 2 == 1 {
                    saw_escaped = true;
                } else {
                    saw_raw = true;
                }
            }
            run = 0;
        }
        i = i + 1;
    }
    proof {
        assert((exists|j: int| spec_escaped_quote_at(s@, j)) == (exists|j: int|
            0 <= j < i && spec_escaped_quote_at(s@, j)));
        assert((exists|j: int| spec_raw_quote_at(s@, j)) == (exists|j: int|
            0 <= j < i && spec_raw_quote_at(s@, j)));
    }
    saw_escaped && !saw_raw
}

/// Removes one level of escaping from a double-escaped document.
pub fn unescape_once(input: &str) -> (r: String)
    ensures
        r@ == spec_unescape_once(input@),
{
    let s = chars_of(input);
    let mut out: Vec<char> = Vec::new();
    let mut i: usize = 0;
    proof {
        assert(s@.skip(0) =~= s@);
        assert(out@ + spec_unescape_once(s@) =~= spec_unescape_once(s@));
    }
    while i < s.len()
        invariant
            i <= s@.len(),
            s@ == input@,
            out@ + spec_unescape_once(s@.skip(i as int)) == spec_unescape_once(s@),
        decreases s@.len() - i,
    {
        let ghost rest = s@.skip(i as int);
        let c = s[i];
        if c != '\\' {
            proof {
                assert(rest.drop_first() =~= s@.skip(i + 1));
            }
            out.push(c);
            i = i + 1;
            proof {
                assert(out@ + spec_unescape_once(s@.skip(i as int)) =~= out@.drop_last() + (
                seq![c] + spec_unescape_once(rest.drop_first())));
            }
        } else if i + 1 == s.len() {
            proof {
                assert(rest.len() == 1);
                assert(s@.skip(i + 1).len() == 0);
            }
            out.push('\\');
            i = i + 1;
            proof {
                assert(out@ + spec_unescape_once(s@.skip(i as int)) =~= out@);
            }
        } else {
            let next = s[i + 1];
            proof {
                assert(rest.skip(2) =~= s@.skip(i + 2));
                assert(rest[1] == next);
            }
            let ghost before = out@;
            if next == '"' {
                out.push('"');
            } else if next == '\\' {
                out.push('\\');
            } else if next == '\'' {
                out.push('\'');
            } else if next == '/' {
                out.push('/');
            } else if next == 'n' {
                out.push('\n');
            } else if next == 'r' {
                out.push('\r');
            } else if next == 't' {
                out.push('\t');
            } else if next == 'b' {
                out.push('\u{08}');
            } else if next == 'f' {
                out.push('\u{0C}');
            } else if next == 'u' {
                out.push('\\');
                out.push('u');
            } else {
                out.push('\\');
                out.push(next);
            }
            proof {
                assert(out@ =~= before + spec_unescape_char(next));
            }
            i = i + 2;
        }
    }
    proof {
        assert(s@.skip(s@.len() as int) =~= Seq::<char>::empty());
    }
    text::string_of(out.as_slice())
}

/// The same error at the byte offset of its character position in `chars`.
fn at_byte_offset(e: Error, chars: &[char]) -> (r: Error)
    requires
        e.spec_position() <= chars@.len(),
        utf8_len(chars@) <= usize::MAX,
    ensures
        r.spec_kind() == e.spec_kind(),
        r.spec_position() == utf8_len(chars@.take(e.spec_position() as int)),
{
    let pos = byte_offset(chars, e.position());
    e.at_position(pos)
}

/// Text that starts with more opening brackets than the nesting limit is
/// not JSON text of a value within the limit.
proof fn lemma_deep_text_is_not_json(text: Seq<char>)
    requires
        parser::bracket_run(text, 0, MAX_NESTING_DEPTH + 1),
    ensures
        !is_json_text(text, true),
        !is_json_text(text, false),
{
    parser::lemma_bracket_prefix_depth(text, (MAX_NESTING_DEPTH + 1) as nat);
    assert forall|v: Value, spaced: bool|
        depth(v) <= MAX_NESTING_DEPTH && numbers_valid(v) implies #[trigger] layout(v, spaced)
        != text by {
        parser::lemma_structural_depth_of_layout(v, spaced);
    }
}

/// Where reading `s` under `opts` finds its first token.
pub open spec fn spec_first_token_at(opts: Options, s: Seq<char>) -> int {
    spec_skip_trivia(opts, s, 0).0
}

/// The first token of `s` closes a container or separates values, so no
/// value starts the document.
pub open spec fn starts_with_closer(opts: Options, s: Seq<char>) -> bool {
    let q = spec_first_token_at(opts, s);
    q < s.len() && (s[q] == '}' || s[q] == ']' || s[q] == ')' || s[q] == ':' || s[q] == ',')
}

/// The first token of `s` is `(`.
pub open spec fn starts_with_paren(opts: Options, s: Seq<char>) -> bool {
    let q = spec_first_token_at(opts, s);
    q < s.len() && s[q] == '('
}

/// Parses the characters of a document.
fn parse_chars(chars: &[char], opts: Options) -> (r: Result<Value, Error>)
    ensures
        r matches Ok(v) ==> depth(v) <= MAX_NESTING_DEPTH && numbers_valid(v),
        r matches Err(e) ==> e.spec_position() <= chars@.len(),
        is_rendering(chars@) ==> (r matches Ok(w) && render(w) == chars@),
        is_json_text(chars@, false) ==> (r matches Ok(w) && is_text_of(w, chars@)),
        is_json_text(chars@, false) ==> (r matches Ok(w) && render(w) == spec_canonical_text(chars@)),
        chars@.len() == 0 ==> (r matches Err(e) && e.spec_kind() == ErrorKind::NoValueFound),
        parser::bracket_run(chars@, 0, MAX_NESTING_DEPTH + 1) ==> (r matches Err(e) && e.spec_kind()
            == ErrorKind::DepthLimitExceeded),
        starts_with_closer(opts, chars@) ==> (r matches Err(e) && e.spec_kind()
            == ErrorKind::NoValueFound && e.spec_position() == 0),
        opts.repairs@ == 0 && starts_with_paren(opts, chars@) ==> (r matches Err(e) && e.spec_kind()
            == ErrorKind::UnexpectedCharacter('(') && e.spec_position() == spec_first_token_at(
            opts,
            chars@,
        )),
        parser::lone_word_at(opts, chars@, 0) matches Some(text) ==> (r matches Ok(
            Value::String(w),
        ) && w@ == text),
        parser::lone_keyword_at(opts, chars@, 0) matches Some(v) ==> r == Ok::<Value, Error>(v),
        parser::lone_string_at(opts, chars@, 0) matches Some(text) ==> (r matches Ok(
            Value::String(w),
        ) && w@ == text),
        parser::lone_number_at(opts, chars@, 0) matches Some(text) ==> (r matches Ok(
            Value::Number(n),
        ) && n@ == text),
        parser::lone_verbatim_number_at(opts, chars@, 0) matches Some(text) ==> (r matches Ok(
            Value::String(w),
        ) && w@ == text),
        parser::lone_cut_word_at(opts, chars@, 0) matches Some(q) ==> (r matches Err(e)
            && e.spec_kind() == ErrorKind::UnexpectedEnd && e.spec_position() == q),
        parser::ndjson_numbers_at(opts, chars@, 0) matches Some(texts) ==> ({
            &&& texts.len() == 1 ==> (r matches Ok(Value::Number(n)) && n@ == texts[0])
            &&& texts.len() >= 2 ==> (r matches Ok(Value::Array(items))
                && parser::numbers_with_texts(items@, texts))
        }),
{
    let _ = chars.len();
    proof {
        if parser::bracket_run(chars@, 0, MAX_NESTING_DEPTH + 1) {
            lemma_deep_text_is_not_json(chars@);
        }
    }
    let mut parser = Parser::new(chars, opts);
    // The value that JSON text is the text of, and its layout.
    let ghost expect = if is_rendering(chars@) {
        Some(
            (
                choose|v: Value|
                    depth(v) <= MAX_NESTING_DEPTH && numbers_valid(v) && layout(v, true) == chars@,
                true,
            ),
        )
    } else if is_json_text(chars@, false) {
        Some(
            (
                choose|v: Value|
                    depth(v) <= MAX_NESTING_DEPTH && numbers_valid(v) && layout(v, false) == chars@,
                false,
            ),
        )
    } else {
        None
    };
    proof {
        if let Some((v, sp)) = expect {
            value::lemma_render_first(v, sp);
            assert(chars@.subrange(0, layout(v, sp).len() as int) =~= layout(v, sp));
            assert(parser.expects(v, sp));
        }
    }
    parser.parse_document(Ghost(expect))
}

/// Parses `input` into a `Value`, repairing anything repairable.
pub fn parse(input: &str) -> (r: Result<Value, Error>)
    ensures
        r matches Ok(v) ==> depth(v) <= MAX_NESTING_DEPTH && numbers_valid(v),
        input@.len() == 0 ==> (r matches Err(e) && e.spec_kind() == ErrorKind::NoValueFound),
        parser::bracket_run(spec_effective_input(input@, true), 0, MAX_NESTING_DEPTH + 1) ==> (r matches Err(
            e,
        ) && e.spec_kind() == ErrorKind::DepthLimitExceeded),
        r matches Err(e) ==> e.spec_position() <= utf8_len(
            spec_effective_input(input@, true),
        ),
        is_rendering(input@) ==> (r matches Ok(w) && render(w) == input@),
        is_json_text(input@, false) ==> (r matches Ok(w) && is_text_of(w, input@)),
        is_json_text(input@, false) ==> (r matches Ok(w) && render(w) == spec_canonical_text(input@)),
        is_json_text(spec_effective_input(input@, true), false) ==> (r matches Ok(w) && is_text_of(
            w,
            spec_effective_input(input@, true),
        )),
        is_json_text(spec_effective_input(input@, true), false) ==> (r matches Ok(w) && render(w)
            == spec_canonical_text(spec_effective_input(input@, true))),
        r matches Ok(v) ==> is_rendering(render(v)),
        starts_with_closer(Options::spec_all(), spec_effective_input(input@, true)) ==> (r matches Err(e) && e.spec_kind()
            == ErrorKind::NoValueFound && e.spec_position() == 0),
        parser::lone_word_at(Options::spec_all(), spec_effective_input(input@, true), 0) matches Some(text) ==> (r matches Ok(
            Value::String(w),
        ) && w@ == text),
        parser::lone_keyword_at(Options::spec_all(), spec_effective_input(input@, true), 0) matches Some(v) ==> r == Ok::<Value, Error>(v),
        parser::lone_string_at(Options::spec_all(), spec_effective_input(input@, true), 0) matches Some(text) ==> (r matches Ok(
            Value::String(w),
        ) && w@ == text),
        parser::lone_number_at(Options::spec_all(), spec_effective_input(input@, true), 0) matches Some(text) ==> (r matches Ok(
            Value::Number(n),
        ) && n@ == text),
        parser::lone_verbatim_number_at(Options::spec_all(), spec_effective_input(input@, true), 0) matches Some(text) ==> (r matches Ok(
            Value::String(w),
        ) && w@ == text),
        parser::ndjson_numbers_at(Options::spec_all(), spec_effective_input(input@, true), 0) matches Some(texts) ==> ({
            &&& texts.len() == 1 ==> (r matches Ok(Value::Number(n)) && n@ == texts[0])
            &&& texts.len() >= 2 ==> (r matches Ok(Value::Array(items))
                && parser::numbers_with_texts(items@, texts))
        }),
{
    let opts = Options::all();
    proof {
        assert(4095u32 & 4u32 == 4u32) by (bit_vector);
    }
    parse_with(input, opts)
}

/// Like `parse`, with explicit `Options`.
///
/// Error positions are byte offsets into the text the parser read: `input`
/// itself, or `input` with one escaping layer removed when it looks
/// double-escaped and unquoted repair is on.
pub fn parse_with(input: &str, opts: Options) -> (r: Result<Value, Error>)
    ensures
        r matches Ok(v) ==> depth(v) <= MAX_NESTING_DEPTH && numbers_valid(v),
        input@.len() == 0 ==> (r matches Err(e) && e.spec_kind() == ErrorKind::NoValueFound),
        r matches Err(e) ==> e.spec_position() <= utf8_len(spec_effective_input(input@, spec_repairs(opts, 4))),
        is_rendering(input@) ==> (r matches Ok(w) && render(w) == input@),
        is_json_text(input@, false) ==> (r matches Ok(w) && is_text_of(w, input@)),
        is_json_text(input@, false) ==> (r matches Ok(w) && render(w) == spec_canonical_text(input@)),
        is_rendering(spec_effective_input(input@, spec_repairs(opts, 4))) ==> (r matches Ok(w)
            && render(w) == spec_effective_input(input@, spec_repairs(opts, 4))),
        is_json_text(spec_effective_input(input@, spec_repairs(opts, 4)), false) ==> (r matches Ok(
            w,
        ) && is_text_of(w, spec_effective_input(input@, spec_repairs(opts, 4)))),
        is_json_text(spec_effective_input(input@, spec_repairs(opts, 4)), false) ==> (r matches Ok(
            w,
        ) && render(w) == spec_canonical_text(spec_effective_input(input@, spec_repairs(opts, 4)))),
        r matches Ok(v) ==> is_rendering(render(v)),
        parser::bracket_run(spec_effective_input(input@, spec_repairs(opts, 4)), 0, MAX_NESTING_DEPTH + 1)
            ==> (r matches Err(e) && e.spec_kind() == ErrorKind::DepthLimitExceeded),
        starts_with_closer(opts, spec_effective_input(input@, spec_repairs(opts, 4))) ==> (
        r matches Err(e) && e.spec_kind() == ErrorKind::NoValueFound && e.spec_position() == 0),
        opts.repairs@ == 0 && starts_with_paren(opts, input@) ==> (r matches Err(e) && e.spec_kind()
            == ErrorKind::UnexpectedCharacter('(') && e.spec_position() == utf8_len(
            input@.take(spec_first_token_at(opts, input@)),
        )),
        parser::lone_word_at(opts, spec_effective_input(input@, spec_repairs(opts, 4)), 0) matches Some(text) ==> (r matches Ok(
            Value::String(w),
        ) && w@ == text),
        parser::lone_keyword_at(opts, spec_effective_input(input@, spec_repairs(opts, 4)), 0) matches Some(v) ==> r == Ok::<Value, Error>(v),
        parser::lone_string_at(opts, spec_effective_input(input@, spec_repairs(opts, 4)), 0) matches Some(text) ==> (r matches Ok(
            Value::String(w),
        ) && w@ == text),
        parser::lone_number_at(opts, spec_effective_input(input@, spec_repairs(opts, 4)), 0) matches Some(text) ==> (r matches Ok(
            Value::Number(n),
        ) && n@ == text),
        parser::lone_verbatim_number_at(opts, spec_effective_input(input@, spec_repairs(opts, 4)), 0) matches Some(text) ==> (r matches Ok(
            Value::String(w),
        ) && w@ == text),
        parser::lone_cut_word_at(opts, spec_effective_input(input@, spec_repairs(opts, 4)), 0) matches Some(q) ==> (r matches Err(e)
            && e.spec_kind() == ErrorKind::UnexpectedEnd && e.spec_position() == utf8_len(
            spec_effective_input(input@, spec_repairs(opts, 4)).take(q),
        )),
        parser::ndjson_numbers_at(opts, spec_effective_input(input@, spec_repairs(opts, 4)), 0) matches Some(texts) ==> ({
            &&& texts.len() == 1 ==> (r matches Ok(Value::Number(n)) && n@ == texts[0])
            &&& texts.len() >= 2 ==> (r matches Ok(Value::Array(items))
                && parser::numbers_with_texts(items@, texts))
        }),
{
    proof {
        if opts.repairs@ == 0 {
            assert(0u32 & 4u32 != 4u32) by (bit_vector);
        }
    }
    proof {
        if is_rendering(input@) {
            lemma_json_text_not_double_escaped(input@, true);
        }
        if is_json_text(input@, false) {
            lemma_json_text_not_double_escaped(input@, false);
        }
    }
    // A whole document that was escaped once too often, such as `{\"a\": 1}`.
    if opts.repairs(Repairs::UNQUOTED()) && looks_double_escaped(input) {
        let unescaped = unescape_once(input);
        let text = unescaped.as_str();
        let _ = str_byte_len(text);
        let chars = chars_of(text);
        return match parse_chars(chars.as_slice(), opts) {
            Ok(v) => Ok(v),
            Err(e) => {
                let r = at_byte_offset(e, chars.as_slice());
                proof {
                    text::lemma_utf8_len_prefix(chars@, e.spec_position() as int);
                }
                Err(r)
            },
        };
    }
    let _ = str_byte_len(input);
    let chars = chars_of(input);
    match parse_chars(chars.as_slice(), opts) {
        Ok(v) => Ok(v),
        Err(e) => {
            let r = at_byte_offset(e, chars.as_slice());
            proof {
                text::lemma_utf8_len_prefix(chars@, e.spec_position() as int);
            }
            Err(r)
        },
    }
}

/// Like `parse_with`, named for the partial-parsing use case.
///
/// Pass `Options::partial(Allow::OBJ | Allow::STR)` (or any other `Allow`
/// combination) to keep values that are still being written.
pub fn parse_partial(input: &str, opts: Options) -> (r: Result<Value, Error>)
    ensures
        r matches Ok(v) ==> depth(v) <= MAX_NESTING_DEPTH && numbers_valid(v),
        input@.len() == 0 ==> (r matches Err(e) && e.spec_kind() == ErrorKind::NoValueFound),
        r matches Err(e) ==> e.spec_position() <= utf8_len(spec_effective_input(input@, spec_repairs(opts, 4))),
        is_rendering(input@) ==> (r matches Ok(w) && render(w) == input@),
        is_json_text(input@, false) ==> (r matches Ok(w) && is_text_of(w, input@)),
        is_json_text(input@, false) ==> (r matches Ok(w) && render(w) == spec_canonical_text(input@)),
        is_rendering(spec_effective_input(input@, spec_repairs(opts, 4))) ==> (r matches Ok(w)
            && render(w) == spec_effective_input(input@, spec_repairs(opts, 4))),
        is_json_text(spec_effective_input(input@, spec_repairs(opts, 4)), false) ==> (r matches Ok(
            w,
        ) && is_text_of(w, spec_effective_input(input@, spec_repairs(opts, 4)))),
        is_json_text(spec_effective_input(input@, spec_repairs(opts, 4)), false) ==> (r matches Ok(
            w,
        ) && render(w) == spec_canonical_text(spec_effective_input(input@, spec_repairs(opts, 4)))),
        r matches Ok(v) ==> is_rendering(render(v)),
        parser::bracket_run(spec_effective_input(input@, spec_repairs(opts, 4)), 0, MAX_NESTING_DEPTH + 1)
            ==> (r matches Err(e) && e.spec_kind() == ErrorKind::DepthLimitExceeded),
        starts_with_closer(opts, spec_effective_input(input@, spec_repairs(opts, 4))) ==> (r matches Err(e) && e.spec_kind()
            == ErrorKind::NoValueFound && e.spec_position() == 0),
        opts.repairs@ == 0 && starts_with_paren(opts, input@) ==> (r matches Err(e) && e.spec_kind()
            == ErrorKind::UnexpectedCharacter('(') && e.spec_position() == utf8_len(
            input@.take(spec_first_token_at(opts, input@)),
        )),
        parser::lone_word_at(opts, spec_effective_input(input@, spec_repairs(opts, 4)), 0) matches Some(text) ==> (r matches Ok(
            Value::String(w),
        ) && w@ == text),
        parser::lone_keyword_at(opts, spec_effective_input(input@, spec_repairs(opts, 4)), 0) matches Some(v) ==> r == Ok::<Value, Error>(v),
        parser::lone_string_at(opts, spec_effective_input(input@, spec_repairs(opts, 4)), 0) matches Some(text) ==> (r matches Ok(
            Value::String(w),
        ) && w@ == text),
        parser::lone_number_at(opts, spec_effective_input(input@, spec_repairs(opts, 4)), 0) matches Some(text) ==> (r matches Ok(
            Value::Number(n),
        ) && n@ == text),
        parser::lone_verbatim_number_at(opts, spec_effective_input(input@, spec_repairs(opts, 4)), 0) matches Some(text) ==> (r matches Ok(
            Value::String(w),
        ) && w@ == text),
        parser::lone_cut_word_at(opts, spec_effective_input(input@, spec_repairs(opts, 4)), 0) matches Some(q) ==> (r matches Err(e)
            && e.spec_kind() == ErrorKind::UnexpectedEnd && e.spec_position() == utf8_len(
            spec_effective_input(input@, spec_repairs(opts, 4)).take(q),
        )),
        parser::ndjson_numbers_at(opts, spec_effective_input(input@, spec_repairs(opts, 4)), 0) matches Some(texts) ==> ({
            &&& texts.len() == 1 ==> (r matches Ok(Value::Number(n)) && n@ == texts[0])
            &&& texts.len() >= 2 ==> (r matches Ok(Value::Array(items))
                && parser::numbers_with_texts(items@, texts))
        }),
{
    parse_with(input, opts)
}

/// Validates that `input` is valid JSON and returns it as a `Value`.
pub fn validate(input: &str) -> (r: Result<Value, Error>)
    ensures
        r matches Ok(v) ==> depth(v) <= MAX_NESTING_DEPTH && numbers_valid(v),
        input@.len() == 0 ==> (r matches Err(e) && e.spec_kind() == ErrorKind::NoValueFound),
        parser::bracket_run(input@, 0, MAX_NESTING_DEPTH + 1) ==> (r matches Err(e) && e.spec_kind()
            == ErrorKind::DepthLimitExceeded),
        r matches Err(e) ==> e.spec_position() <= utf8_len(input@),
        is_rendering(input@) ==> (r matches Ok(w) && render(w) == input@),
        is_json_text(input@, false) ==> (r matches Ok(w) && is_text_of(w, input@)),
        is_json_text(input@, false) ==> (r matches Ok(w) && render(w) == spec_canonical_text(input@)),
        starts_with_closer(Options::spec_strict(), input@) ==> (r matches Err(e) && e.spec_kind()
            == ErrorKind::NoValueFound && e.spec_position() == 0),
        starts_with_paren(Options::spec_strict(), input@) ==> (r matches Err(e) && e.spec_kind()
            == ErrorKind::UnexpectedCharacter('(') && e.spec_position() == utf8_len(
            input@.take(spec_first_token_at(Options::spec_strict(), input@)),
        )),
        parser::lone_keyword_at(Options::spec_strict(), input@, 0) matches Some(v) ==> r == Ok::<Value, Error>(v),
        parser::lone_string_at(Options::spec_strict(), input@, 0) matches Some(text) ==> (r matches Ok(
            Value::String(w),
        ) && w@ == text),
        parser::lone_number_at(Options::spec_strict(), input@, 0) matches Some(text) ==> (r matches Ok(
            Value::Number(n),
        ) && n@ == text),
        parser::lone_verbatim_number_at(Options::spec_strict(), input@, 0) matches Some(text) ==> (r matches Ok(
            Value::String(w),
        ) && w@ == text),
{
    let opts = Options::strict();
    proof {
        assert(0u32 & 4u32 == 0u32) by (bit_vector);
    }
    parse_with(input, opts)
}

/// Whether `out` is the canonical rendering of a value with valid numbers
/// within the nesting limit.
pub open spec fn is_rendering(out: Seq<char>) -> bool {
    is_json_text(out, true)
}

/// Whether `text` is the text of a value with valid numbers within the
/// nesting limit, laid out with one space after each separator when
/// `spaced`, and without whitespace otherwise.
pub open spec fn is_json_text(text: Seq<char>, spaced: bool) -> bool {
    exists|v: Value|
        depth(v) <= MAX_NESTING_DEPTH && numbers_valid(v) && #[trigger] layout(v, spaced) == text
}

/// `text` is the text of `w`, with or without spaces.
pub open spec fn is_text_of(w: Value, text: Seq<char>) -> bool {
    layout(w, true) == text || layout(w, false) == text
}

/// The canonical text of JSON text without whitespace: the text itself when
/// it is already canonical, else the rendering of the value it is the text of.
pub open spec fn spec_canonical_text(text: Seq<char>) -> Seq<char> {
    if is_rendering(text) {
        text
    } else {
        render(
            choose|v: Value|
                depth(v) <= MAX_NESTING_DEPTH && numbers_valid(v) && layout(v, false) == text,
        )
    }
}

/// JSON text never looks double-escaped.
proof fn lemma_json_text_not_double_escaped(text: Seq<char>, spaced: bool)
    requires
        is_json_text(text, spaced),
    ensures
        !spec_looks_double_escaped(text),
{
    let v = choose|v: Value|
        depth(v) <= MAX_NESTING_DEPTH && numbers_valid(v) && layout(v, spaced) == text;
    lemma_render_after_quote(v, spaced);
    lemma_not_double_escaped(text);
}

/// What `repair` promises of its result `r` on `input`.
pub open spec fn spec_repair_contract(input: Seq<char>, r: Result<String, Error>) -> bool {
    &&& (r matches Ok(out) ==> is_rendering(out@))
    &&& (r matches Err(e) ==> e.spec_position() <= utf8_len(spec_effective_input(input, true)))
    &&& (input.len() == 0 ==> (r matches Err(e) && e.spec_kind() == ErrorKind::NoValueFound))
    &&& (parser::bracket_run(spec_effective_input(input, true), 0, MAX_NESTING_DEPTH + 1) ==> (r matches Err(
            e,
        ) && e.spec_kind() == ErrorKind::DepthLimitExceeded))
    &&& (is_rendering(input) ==> (r matches Ok(out) && out@ == input))
    &&& (is_json_text(input, false) ==> (r matches Ok(out) && exists|w: Value|
            out@ == #[trigger] render(w) && is_text_of(w, input)))
    &&& (is_json_text(input, false) ==> (r matches Ok(out) && out@ == spec_canonical_text(input)))
    &&& (is_json_text(spec_effective_input(input, true), false) ==> (r matches Ok(out)
            && exists|w: Value|
            out@ == #[trigger] render(w) && is_text_of(w, spec_effective_input(input, true))))
    &&& (is_json_text(spec_effective_input(input, true), false) ==> (r matches Ok(out) && out@
            == spec_canonical_text(spec_effective_input(input, true))))
    &&& (starts_with_closer(Options::spec_all(), spec_effective_input(input, true)) ==> (r matches Err(e) && e.spec_kind()
            == ErrorKind::NoValueFound && e.spec_position() == 0))
    &&& (parser::lone_word_at(Options::spec_all(), spec_effective_input(input, true), 0) matches Some(text) ==> (r matches Ok(out)
            && exists|w: String| w@ == text && out@ == #[trigger] render(Value::String(w))))
    &&& (parser::lone_keyword_at(Options::spec_all(), spec_effective_input(input, true), 0) matches Some(v) ==> (r matches Ok(out) && out@
            == render(v)))
    &&& (parser::lone_string_at(Options::spec_all(), spec_effective_input(input, true), 0) matches Some(text) ==> (r matches Ok(out)
            && exists|w: String| w@ == text && out@ == #[trigger] render(Value::String(w))))
    &&& (parser::lone_number_at(Options::spec_all(), spec_effective_input(input, true), 0) matches Some(text) ==> (r matches Ok(out) && out@
            == text))
    &&& (parser::lone_verbatim_number_at(Options::spec_all(), spec_effective_input(input, true), 0) matches Some(text) ==> (r matches Ok(out)
            && exists|w: String| w@ == text && out@ == #[trigger] render(Value::String(w))))
    &&& (parser::ndjson_numbers_at(Options::spec_all(), spec_effective_input(input, true), 0) matches Some(texts) ==> ({
            &&& texts.len() == 1 ==> (r matches Ok(out) && out@ == texts[0])
            &&& texts.len() >= 2 ==> (r matches Ok(out) && exists|items: Vec<Value>|
                parser::numbers_with_texts(items@, texts) && out@ == #[trigger] render(
                    Value::Array(items),
                ))
        }))
}

/// Repairs `input` and returns canonical, valid JSON.
pub fn repair(input: &str) -> (r: Result<String, Error>)
    ensures
        r matches Ok(out) ==> is_rendering(out@),
        r matches Err(e) ==> e.spec_position() <= utf8_len(spec_effective_input(input@, true)),
        input@.len() == 0 ==> (r matches Err(e) && e.spec_kind() == ErrorKind::NoValueFound),
        parser::bracket_run(spec_effective_input(input@, true), 0, MAX_NESTING_DEPTH + 1) ==> (r matches Err(
            e,
        ) && e.spec_kind() == ErrorKind::DepthLimitExceeded),
        is_rendering(input@) ==> (r matches Ok(out) && out@ == input@),
        is_json_text(input@, false) ==> (r matches Ok(out) && exists|w: Value|
            out@ == #[trigger] render(w) && is_text_of(w, input@)),
        is_json_text(input@, false) ==> (r matches Ok(out) && out@ == spec_canonical_text(input@)),
        is_json_text(spec_effective_input(input@, true), false) ==> (r matches Ok(out)
            && exists|w: Value|
            out@ == #[trigger] render(w) && is_text_of(w, spec_effective_input(input@, true))),
        is_json_text(spec_effective_input(input@, true), false) ==> (r matches Ok(out) && out@
            == spec_canonical_text(spec_effective_input(input@, true))),
        starts_with_closer(Options::spec_all(), spec_effective_input(input@, true)) ==> (r matches Err(e) && e.spec_kind()
            == ErrorKind::NoValueFound && e.spec_position() == 0),
        parser::lone_word_at(Options::spec_all(), spec_effective_input(input@, true), 0) matches Some(text) ==> (r matches Ok(out)
            && exists|w: String| w@ == text && out@ == #[trigger] render(Value::String(w))),
        parser::lone_keyword_at(Options::spec_all(), spec_effective_input(input@, true), 0) matches Some(v) ==> (r matches Ok(out) && out@
            == render(v)),
        parser::lone_string_at(Options::spec_all(), spec_effective_input(input@, true), 0) matches Some(text) ==> (r matches Ok(out)
            && exists|w: String| w@ == text && out@ == #[trigger] render(Value::String(w))),
        parser::lone_number_at(Options::spec_all(), spec_effective_input(input@, true), 0) matches Some(text) ==> (r matches Ok(out) && out@
            == text),
        parser::lone_verbatim_number_at(Options::spec_all(), spec_effective_input(input@, true), 0) matches Some(text) ==> (r matches Ok(out)
            && exists|w: String| w@ == text && out@ == #[trigger] render(Value::String(w))),
        parser::ndjson_numbers_at(Options::spec_all(), spec_effective_input(input@, true), 0) matches Some(texts) ==> ({
            &&& texts.len() == 1 ==> (r matches Ok(out) && out@ == texts[0])
            &&& texts.len() >= 2 ==> (r matches Ok(out) && exists|items: Vec<Value>|
                parser::numbers_with_texts(items@, texts) && out@ == #[trigger] render(
                    Value::Array(items),
                ))
        }),
        spec_repair_contract(input@, r),
{
    let opts = Options::all();
    proof {
        assert(4095u32 & 4u32 == 4u32) by (bit_vector);
    }
    repair_with(input, opts)
}

/// Like `repair`, with explicit `Options`.
pub fn repair_with(input: &str, opts: Options) -> (r: Result<String, Error>)
    ensures
        r matches Ok(out) ==> is_rendering(out@),
        r matches Err(e) ==> e.spec_position() <= utf8_len(spec_effective_input(input@, spec_repairs(opts, 4))),
        input@.len() == 0 ==> (r matches Err(e) && e.spec_kind() == ErrorKind::NoValueFound),
        parser::bracket_run(spec_effective_input(input@, spec_repairs(opts, 4)), 0, MAX_NESTING_DEPTH + 1)
            ==> (r matches Err(e) && e.spec_kind() == ErrorKind::DepthLimitExceeded),
        is_rendering(input@) ==> (r matches Ok(out) && out@ == input@),
        is_json_text(input@, false) ==> (r matches Ok(out) && exists|w: Value|
            out@ == #[trigger] render(w) && is_text_of(w, input@)),
        is_json_text(input@, false) ==> (r matches Ok(out) && out@ == spec_canonical_text(input@)),
        is_json_text(spec_effective_input(input@, spec_repairs(opts, 4)), false) ==> (r matches Ok(
            out,
        ) && exists|w: Value|
            out@ == #[trigger] render(w) && is_text_of(
                w,
                spec_effective_input(input@, spec_repairs(opts, 4)),
            )),
        is_json_text(spec_effective_input(input@, spec_repairs(opts, 4)), false) ==> (r matches Ok(
            out,
        ) && out@ == spec_canonical_text(spec_effective_input(input@, spec_repairs(opts, 4)))),
        starts_with_closer(opts, spec_effective_input(input@, spec_repairs(opts, 4))) ==> (r matches Err(e) && e.spec_kind()
            == ErrorKind::NoValueFound && e.spec_position() == 0),
        parser::lone_word_at(opts, spec_effective_input(input@, spec_repairs(opts, 4)), 0) matches Some(text) ==> (r matches Ok(out)
            && exists|w: String| w@ == text && out@ == #[trigger] render(Value::String(w))),
        parser::lone_keyword_at(opts, spec_effective_input(input@, spec_repairs(opts, 4)), 0) matches Some(v) ==> (r matches Ok(out) && out@
            == render(v)),
        parser::lone_string_at(opts, spec_effective_input(input@, spec_repairs(opts, 4)), 0) matches Some(text) ==> (r matches Ok(out)
            && exists|w: String| w@ == text && out@ == #[trigger] render(Value::String(w))),
        parser::lone_number_at(opts, spec_effective_input(input@, spec_repairs(opts, 4)), 0) matches Some(text) ==> (r matches Ok(out) && out@
            == text),
        parser::lone_verbatim_number_at(opts, spec_effective_input(input@, spec_repairs(opts, 4)), 0) matches Some(text) ==> (r matches Ok(out)
            && exists|w: String| w@ == text && out@ == #[trigger] render(Value::String(w))),
        parser::lone_cut_word_at(opts, spec_effective_input(input@, spec_repairs(opts, 4)), 0) matches Some(q) ==> (r matches Err(e)
            && e.spec_kind() == ErrorKind::UnexpectedEnd && e.spec_position() == utf8_len(
            spec_effective_input(input@, spec_repairs(opts, 4)).take(q),
        )),
        parser::ndjson_numbers_at(opts, spec_effective_input(input@, spec_repairs(opts, 4)), 0) matches Some(texts) ==> ({
            &&& texts.len() == 1 ==> (r matches Ok(out) && out@ == texts[0])
            &&& texts.len() >= 2 ==> (r matches Ok(out) && exists|items: Vec<Value>|
                parser::numbers_with_texts(items@, texts) && out@ == #[trigger] render(
                    Value::Array(items),
                ))
        }),
{
    let mut out = String::new();
    match repair_into(input, &mut out, opts) {
        Ok(()) => {
            proof {
                assert(out@ =~= Seq::<char>::empty() + out@.skip(0));
                assert forall|x: Seq<char>| out@ == Seq::<char>::empty() + x implies out@ == x by {
                    assert(Seq::<char>::empty() + x =~= x);
                }
            }
            Ok(out)
        },
        Err(e) => Err(e),
    }
}

/// Like `repair_with`, appending to a caller-provided buffer. The buffer is
/// left untouched when repair fails.
pub fn repair_into(input: &str, out: &mut String, opts: Options) -> (r: Result<(), Error>)
    ensures
        r is Ok ==> final(out)@.len() >= old(out)@.len() && final(out)@.take(
            old(out)@.len() as int,
        ) == old(out)@ && is_rendering(final(out)@.skip(old(out)@.len() as int)),
        r is Err ==> final(out)@ == old(out)@,
        r matches Err(e) ==> e.spec_position() <= utf8_len(spec_effective_input(input@, spec_repairs(opts, 4))),
        input@.len() == 0 ==> (r matches Err(e) && e.spec_kind() == ErrorKind::NoValueFound),
        parser::bracket_run(spec_effective_input(input@, spec_repairs(opts, 4)), 0, MAX_NESTING_DEPTH + 1)
            ==> (r matches Err(e) && e.spec_kind() == ErrorKind::DepthLimitExceeded),
        is_rendering(input@) ==> (r is Ok && final(out)@ == old(out)@ + input@),
        is_json_text(input@, false) ==> (r is Ok && exists|w: Value|
            final(out)@ == old(out)@ + #[trigger] render(w) && is_text_of(w, input@)),
        is_json_text(input@, false) ==> (r is Ok && final(out)@ == old(out)@ + spec_canonical_text(
            input@,
        )),
        is_json_text(spec_effective_input(input@, spec_repairs(opts, 4)), false) ==> (r is Ok
            && exists|w: Value|
            final(out)@ == old(out)@ + #[trigger] render(w) && is_text_of(
                w,
                spec_effective_input(input@, spec_repairs(opts, 4)),
            )),
        is_json_text(spec_effective_input(input@, spec_repairs(opts, 4)), false) ==> (r is Ok
            && final(out)@ == old(out)@ + spec_canonical_text(
            spec_effective_input(input@, spec_repairs(opts, 4)),
        )),
        starts_with_closer(opts, spec_effective_input(input@, spec_repairs(opts, 4))) ==> (r matches Err(e) && e.spec_kind()
            == ErrorKind::NoValueFound && e.spec_position() == 0),
        parser::lone_word_at(opts, spec_effective_input(input@, spec_repairs(opts, 4)), 0) matches Some(
            text,
        ) ==> (r is Ok && exists|w: String|
            w@ == text && final(out)@ == old(out)@ + #[trigger] render(Value::String(w))),
        parser::lone_keyword_at(opts, spec_effective_input(input@, spec_repairs(opts, 4)), 0) matches Some(
            v,
        ) ==> (r is Ok && final(out)@ == old(out)@ + render(v)),
        parser::lone_string_at(opts, spec_effective_input(input@, spec_repairs(opts, 4)), 0) matches Some(
            text,
        ) ==> (r is Ok && exists|w: String|
            w@ == text && final(out)@ == old(out)@ + #[trigger] render(Value::String(w))),
        parser::lone_number_at(opts, spec_effective_input(input@, spec_repairs(opts, 4)), 0) matches Some(
            text,
        ) ==> (r is Ok && final(out)@ == old(out)@ + text),
        parser::lone_verbatim_number_at(opts, spec_effective_input(input@, spec_repairs(opts, 4)), 0) matches Some(
            text,
        ) ==> (r is Ok && exists|w: String|
            w@ == text && final(out)@ == old(out)@ + #[trigger] render(Value::String(w))),
        parser::lone_cut_word_at(opts, spec_effective_input(input@, spec_repairs(opts, 4)), 0) matches Some(q) ==> (r matches Err(e)
            && e.spec_kind() == ErrorKind::UnexpectedEnd && e.spec_position() == utf8_len(
            spec_effective_input(input@, spec_repairs(opts, 4)).take(q),
        )),
        parser::ndjson_numbers_at(opts, spec_effective_input(input@, spec_repairs(opts, 4)), 0) matches Some(texts) ==> ({
            &&& texts.len() == 1 ==> (r is Ok && final(out)@ == old(out)@ + texts[0])
            &&& texts.len() >= 2 ==> (r is Ok && exists|items: Vec<Value>|
                parser::numbers_with_texts(items@, texts) && final(out)@ == old(out)@
                    + #[trigger] render(Value::Array(items)))
        }),
{
    let value = match parse_with(input, opts) {
        Ok(v) => v,
        Err(e) => {
            return Err(e);
        },
    };
    let rendered = value.to_json_string();
    let rendered_chars = chars_of(rendered.as_str());
    proof {
        parser::lemma_structural_depth_of_layout(value, true);
    }
    // Anything emitted must survive `validate`, including its nesting limit.
    if structural_depth(rendered_chars.as_slice()) > MAX_NESTING_DEPTH {
        let before = str_byte_len(out.as_str());
        let n = str_byte_len(input);
        let pos = if before < n {
            before
        } else {
            n
        };
        return Err(Error::new(ErrorKind::DepthLimitExceeded, pos));
    }
    let ghost old_out = out@;
    push_str(out, rendered.as_str());
    proof {
        assert(out@.take(old_out.len() as int) =~= old_out);
        assert(out@.skip(old_out.len() as int) =~= render(value));
        assert(is_rendering(render(value)));
        assert(out@ =~= old_out + render(value));
    }
    Ok(())
}

/// The offset of the first byte of `b` that does not decode: the length of
/// the longest prefix of `b` that is valid UTF-8.
pub open spec fn spec_first_invalid_utf8(b: Seq<u8>) -> int {
    choose|n: int|
        0 <= n < b.len() && valid_utf8(b.subrange(0, n)) && forall|k: int|
            n < k <= b.len() ==> !valid_utf8(#[trigger] b.subrange(0, k))
}

/// Calls `core::str::from_utf8`: the string when `input` is valid UTF-8,
/// otherwise the offset of the first byte that does not decode
/// (`Utf8Error::valid_up_to`, the length of the longest valid prefix).
#[verifier::external_body]
fn str_from_utf8(input: &[u8]) -> (r: Result<&str, usize>)
    ensures
        r is Ok <==> valid_utf8(input@),
        r matches Ok(s) ==> encode_utf8(s@) == input@,
        r matches Err(n) ==> n < input@.len() && valid_utf8(input@.subrange(0, n as int)),
        r matches Err(n) ==> forall|k: int|
            n < k <= input@.len() ==> !valid_utf8(#[trigger] input@.subrange(0, k)),
{
    match core::str::from_utf8(input) {
        Ok(s) => Ok(s),
        Err(e) => Err(e.valid_up_to()),
    }
}

/// Byte-oriented `repair`: repairs `input` bytes and returns the repaired
/// document as bytes. Invalid UTF-8 fails with the offset of the first bad
/// byte.
pub fn repair_bytes(input: &[u8]) -> (r: Result<Vec<u8>, Error>)
    ensures
        !valid_utf8(input@) ==> (r matches Err(e) && e.spec_kind() == ErrorKind::InvalidUtf8
            && e.spec_position() == spec_first_invalid_utf8(input@)),
        r matches Ok(b) ==> exists|s: Seq<char>| is_rendering(s) && b@ == encode_utf8(s),
        (exists|s: Seq<char>| is_rendering(s) && input@ == encode_utf8(s)) ==> (r matches Ok(b)
            && b@ == input@),
{
    repair_bytes_with(input, Options::all())
}

/// Like `repair_bytes`, with explicit `Options`.
pub fn repair_bytes_with(input: &[u8], opts: Options) -> (r: Result<Vec<u8>, Error>)
    ensures
        !valid_utf8(input@) ==> (r matches Err(e) && e.spec_kind() == ErrorKind::InvalidUtf8
            && e.spec_position() == spec_first_invalid_utf8(input@)),
        r matches Ok(b) ==> exists|s: Seq<char>| is_rendering(s) && b@ == encode_utf8(s),
        (exists|s: Seq<char>| is_rendering(s) && input@ == encode_utf8(s)) ==> (r matches Ok(b)
            && b@ == input@),
{
    let mut out: Vec<u8> = Vec::new();
    match repair_bytes_into(input, &mut out, opts) {
        Ok(()) => {
            proof {
                assert(out@ =~= out@.skip(0));
            }
            Ok(out)
        },
        Err(e) => Err(e),
    }
}

/// Like `repair_bytes_with`, appending to a caller-provided byte buffer. The
/// buffer is left untouched when the repair fails or the input is not valid
/// UTF-8.
pub fn repair_bytes_into(input: &[u8], out: &mut Vec<u8>, opts: Options) -> (r: Result<(), Error>)
    ensures
        !valid_utf8(input@) ==> (r matches Err(e) && e.spec_kind() == ErrorKind::InvalidUtf8
            && e.spec_position() == spec_first_invalid_utf8(input@)),
        r is Err ==> final(out)@ == old(out)@,
        r is Ok ==> final(out)@.len() >= old(out)@.len() && final(out)@.take(
            old(out)@.len() as int,
        ) == old(out)@ && exists|s: Seq<char>|
            is_rendering(s) && final(out)@.skip(old(out)@.len() as int) == encode_utf8(s),
        (exists|s: Seq<char>| is_rendering(s) && input@ == encode_utf8(s)) ==> (r is Ok
            && final(out)@ == old(out)@ + input@),
{
    proof {
        if exists|s: Seq<char>| is_rendering(s) && input@ == encode_utf8(s) {
            let s = choose|s: Seq<char>| is_rendering(s) && input@ == encode_utf8(s);
            encode_utf8_valid_utf8(s);
            encode_utf8_decode_utf8(s);
        }
    }
    let text = match str_from_utf8(input) {
        Ok(s) => s,
        Err(n) => {
            proof {
                assert(0 <= n < input@.len() && valid_utf8(input@.subrange(0, n as int)) && forall|
                    k: int,
                | n < k <= input@.len() ==> !valid_utf8(#[trigger] input@.subrange(0, k)));
                let m = spec_first_invalid_utf8(input@);
                if m < n {
                    assert(!valid_utf8(input@.subrange(0, n as int)));
                } else if n < m {
                    assert(!valid_utf8(input@.subrange(0, m)));
                }
            }
            return Err(Error::new(ErrorKind::InvalidUtf8, n));
        },
    };
    proof {
        if exists|s: Seq<char>| is_rendering(s) && input@ == encode_utf8(s) {
            let s = choose|s: Seq<char>| is_rendering(s) && input@ == encode_utf8(s);
            encode_utf8_decode_utf8(text@);
            assert(text@ == s);
        }
    }
    let repaired = match repair_with(text, opts) {
        Ok(t) => t,
        Err(e) => {
            return Err(e);
        },
    };
    let bytes = repaired.as_str().as_bytes();
    let ghost old_out = out@;
    let mut i: usize = 0;
    while i < bytes.len()
        invariant
            i <= bytes@.len(),
            out@ == old_out + bytes@.take(i as int),
        decreases bytes@.len() - i,
    {
        out.push(bytes[i]);
        i = i + 1;
        proof {
            assert(out@ =~= old_out + bytes@.take(i as int));
        }
    }
    proof {
        assert(bytes@.take(bytes@.len() as int) =~= bytes@);
        assert(out@.take(old_out.len() as int) =~= old_out);
        assert(out@.skip(old_out.len() as int) =~= bytes@);
        assert(bytes@ == encode_utf8(repaired@));
    }
    Ok(())
}

/// Extracts the first JSON value from `input` (prose, fences, logs) and
/// repairs it; falls back to repairing the whole input when no value region
/// is found or when the extracted span cannot be repaired.
pub fn repair_extract(input: &str) -> (r: Result<String, Error>)
    ensures
        r matches Ok(out) ==> is_rendering(out@),
        match extract::spec_extract_span(input@) {
            Some((a, b)) => {
                &&& spec_repair_contract(input@.subrange(a, b), r) || spec_repair_contract(
                    input@,
                    r,
                )
                &&& is_rendering(input@.subrange(a, b)) ==> (r matches Ok(out) && out@
                    == input@.subrange(a, b))
                &&& is_json_text(input@.subrange(a, b), false) ==> (r matches Ok(out) && exists|
                    w: Value,
                | out@ == #[trigger] render(w) && is_text_of(w, input@.subrange(a, b)))
                &&& is_json_text(input@.subrange(a, b), false) ==> (r matches Ok(out) && out@
                    == spec_canonical_text(input@.subrange(a, b)))
            },
            None => {
                &&& spec_repair_contract(input@, r)
                &&& is_rendering(input@) ==> (r matches Ok(out) && out@ == input@)
                &&& is_json_text(input@, false) ==> (r matches Ok(out) && exists|w: Value|
                    out@ == #[trigger] render(w) && is_text_of(w, input@))
                &&& is_json_text(input@, false) ==> (r matches Ok(out) && out@ == spec_canonical_text(
                    input@,
                ))
            },
        },
{
    match extract(input) {
        Some(span) => match repair(span) {
            Ok(out) => Ok(out),
            Err(_) => repair(input),
        },
        None => repair(input),
    }
}

/// Incremental `looks_double_escaped` verdict for streaming callers: a
/// quote's escaped/raw classification depends only on the run of
/// backslashes immediately before it, so the verdict folds chunk by chunk.
pub struct DoubleEscapeScanner {
    saw_escaped: bool,
    saw_raw: bool,
    /// Whether the backslash run before the scan position is odd.
    odd_backslashes: bool,
    /// State before the most recent `push`, restored by `rollback`.
    snapshot: (bool, bool, bool),
    seen: Ghost<Seq<char>>,
    seen_before: Ghost<Seq<char>>,
}

/// The scanner state after reading `s`.
pub open spec fn spec_scan_state(s: Seq<char>) -> (bool, bool, bool) {
    (
        exists|i: int| spec_escaped_quote_at(s, i),
        exists|i: int| spec_raw_quote_at(s, i),
        spec_backslash_run(s, s.len() as int) % 2 == 1,
    )
}

impl View for DoubleEscapeScanner {
    type V = Seq<char>;

    /// Everything pushed so far.
    closed spec fn view(&self) -> Seq<char> {
        self.seen@
    }
}

proof fn lemma_run_prefix(a: Seq<char>, b: Seq<char>, i: int)
    requires
        0 <= i <= a.len(),
    ensures
        spec_backslash_run(a + b, i) == spec_backslash_run(a, i),
    decreases i,
{
    if i > 0 {
        lemma_run_prefix(a, b, i - 1);
        assert((a + b)[i - 1] == a[i - 1]);
    }
}

impl DoubleEscapeScanner {
    /// The fields reflect everything pushed, and the snapshot everything
    /// pushed before the last chunk.
    pub closed spec fn wf(&self) -> bool {
        &&& (self.saw_escaped, self.saw_raw, self.odd_backslashes) == spec_scan_state(self.seen@)
        &&& self.snapshot == spec_scan_state(self.seen_before@)
    }

    /// Everything pushed before the most recent chunk.
    pub closed spec fn before_last_push(&self) -> Seq<char> {
        self.seen_before@
    }

    /// A scanner that has seen nothing.
    pub fn new() -> (r: Self)
        ensures
            r.wf(),
            r@ == Seq::<char>::empty(),
            r.before_last_push() == Seq::<char>::empty(),
    {
        let r = DoubleEscapeScanner {
            saw_escaped: false,
            saw_raw: false,
            odd_backslashes: false,
            snapshot: (false, false, false),
            seen: Ghost(Seq::empty()),
            seen_before: Ghost(Seq::empty()),
        };
        proof {
            assert(spec_backslash_run(Seq::<char>::empty(), 0) == 0);
        }
        r
    }

    /// Folds `chunk` into the verdict, keeping the previous state so the
    /// chunk can be undone with `rollback`.
    #[verifier::rlimit(40)]
    pub fn push(&mut self, chunk: &str)
        requires
            old(self).wf(),
        ensures
            final(self).wf(),
            final(self)@ == old(self)@ + chunk@,
            final(self).before_last_push() == old(self)@,
    {
        self.snapshot = (self.saw_escaped, self.saw_raw, self.odd_backslashes);
        self.seen_before = Ghost(self.seen@);
        let ghost a = self.seen@;
        let c_all = chars_of(chunk);
        let mut i: usize = 0;
        // Length of the backslash run inside the chunk read so far, when the
        // chunk so far is all backslashes.
        while i < c_all.len()
            invariant
                i <= c_all@.len(),
                c_all@ == chunk@,
                self.seen_before@ == a,
                self.snapshot == spec_scan_state(a),
                (self.saw_escaped, self.saw_raw, self.odd_backslashes) == spec_scan_state(
                    a + c_all@.take(i as int),
                ),
            decreases c_all@.len() - i,
        {
            let ghost s0 = a + c_all@.take(i as int);
            let ghost s1 = a + c_all@.take(i + 1);
            let c = c_all[i];
            proof {
                assert(s1 =~= s0.push(c));
                lemma_scan_step(s0, c);
            }
            if c == '\\' {
                self.odd_backslashes = !self.odd_backslashes;
            } else {
                if c == '"' {
                    if self.odd_backslashes {
                        self.saw_escaped = true;
                    } else {
                        self.saw_raw = true;
                    }
                }
                self.odd_backslashes = false;
            }
            i = i + 1;
        }
        proof {
            assert(c_all@.take(c_all@.len() as int) =~= c_all@);
        }
        self.seen = Ghost(a + chunk@);
    }

    /// Undoes the most recent `push`.
    pub fn rollback(&mut self)
        requires
            old(self).wf(),
        ensures
            final(self).wf(),
            final(self)@ == old(self).before_last_push(),
            final(self).before_last_push() == old(self).before_last_push(),
    {
        let (e, r, b) = self.snapshot;
        self.saw_escaped = e;
        self.saw_raw = r;
        self.odd_backslashes = b;
        self.seen = Ghost(self.seen_before@);
    }

    /// The verdict for everything pushed so far: exactly
    /// `looks_double_escaped` over that input.
    pub fn verdict(&self) -> (r: bool)
        requires
            self.wf(),
        ensures
            r == spec_looks_double_escaped(self@),
    {
        self.saw_escaped && !self.saw_raw
    }
}

/// The scanner state after one more character `c`.
pub open spec fn spec_scan_step(st: (bool, bool, bool), c: char) -> (bool, bool, bool) {
    if c == '\\' {
        (st.0, st.1, !st.2)
    } else if c == '"' {
        if st.2 {
            (true, st.1, false)
        } else {
            (st.0, true, false)
        }
    } else {
        (st.0, st.1, false)
    }
}

/// The scanner state after the characters of `b`, starting from `st`.
pub open spec fn spec_scan_fold(st: (bool, bool, bool), b: Seq<char>) -> (bool, bool, bool)
    decreases b.len(),
{
    if b.len() == 0 {
        st
    } else {
        spec_scan_step(spec_scan_fold(st, b.drop_last()), b.last())
    }
}

/// The scanner state folds chunk by chunk: the state after `a + b` is the
/// state after `a`, advanced by the characters of `b` alone. So the
/// double-escape verdict of a stream needs only the state reached so far.
pub proof fn lemma_scan_state_folds(a: Seq<char>, b: Seq<char>)
    ensures
        spec_scan_state(a + b) == spec_scan_fold(spec_scan_state(a), b),
        spec_looks_double_escaped(a + b) == ({
            let st = spec_scan_fold(spec_scan_state(a), b);
            st.0 && !st.1
        }),
    decreases b.len(),
{
    if b.len() == 0 {
        assert(a + b =~= a);
    } else {
        let c = b.last();
        lemma_scan_state_folds(a, b.drop_last());
        assert(a + b =~= (a + b.drop_last()).push(c));
        lemma_scan_step(a + b.drop_last(), c);
    }
}

/// One character more: how the scanner state changes.
proof fn lemma_scan_step(s: Seq<char>, c: char)
    ensures
        spec_scan_state(s.push(c)) == (if c == '\\' {
            (spec_scan_state(s).0, spec_scan_state(s).1, !spec_scan_state(s).2)
        } else if c == '"' {
            if spec_scan_state(s).2 {
                (true, spec_scan_state(s).1, false)
            } else {
                (spec_scan_state(s).0, true, false)
            }
        } else {
            (spec_scan_state(s).0, spec_scan_state(s).1, false)
        }),
{
    let t = s.push(c);
    let n = s.len() as int;
    assert forall|i: int| 0 <= i <= n implies spec_backslash_run(t, i) == spec_backslash_run(
        s,
        i,
    ) by {
        lemma_run_prefix(s, seq![c], i);
        assert(s + seq![c] =~= t);
    }
    assert(t[n] == c);
    if c == '\\' {
        assert(spec_backslash_run(t, n + 1) == 1 + spec_backslash_run(t, n));
    } else {
        assert(spec_backslash_run(t, n + 1) == 0);
    }
    assert((exists|i: int| spec_escaped_quote_at(t, i)) == ((exists|i: int|
        spec_escaped_quote_at(s, i)) || spec_escaped_quote_at(t, n))) by {
        if exists|i: int| spec_escaped_quote_at(t, i) {
            let i = choose|i: int| spec_escaped_quote_at(t, i);
            if i < n {
                assert(spec_escaped_quote_at(s, i));
            }
        }
        if exists|i: int| spec_escaped_quote_at(s, i) {
            let i = choose|i: int| spec_escaped_quote_at(s, i);
            assert(spec_escaped_quote_at(t, i));
        }
    }
    assert((exists|i: int| spec_raw_quote_at(t, i)) == ((exists|i: int| spec_raw_quote_at(s, i))
        || spec_raw_quote_at(t, n))) by {
        if exists|i: int| spec_raw_quote_at(t, i) {
            let i = choose|i: int| spec_raw_quote_at(t, i);
            if i < n {
                assert(spec_raw_quote_at(s, i));
            }
        }
        if exists|i: int| spec_raw_quote_at(s, i) {
            let i = choose|i: int| spec_raw_quote_at(s, i);
            assert(spec_raw_quote_at(t, i));
        }
    }
}

} // verus!
