//! The tolerant recursive-descent parser.
//!
//! It is deliberately forgiving: the grammar accepts anything a repair pass can
//! fix, and each repair is gated on a `Repairs` flag so strict parsing is the
//! same code path with those flags cleared. Positions are character indices.
use vstd::prelude::*;
use crate::chars::{is_quote, is_unicode_ws, spec_is_digit, spec_is_quote, spec_is_ws, spec_starts_with};
use crate::error::{Error, ErrorKind};
use crate::lexer::{
    canon_string_at, canon_token, canon_value_start, first_token_len, lemma_canon_start_quiet,
    lemma_skip_trivia_at_bracket, spec_punct_token, spec_quiet_at, spec_skip_trivia, spec_word_end,
    spec_word_keyword, token_ok, word_scanned, quote_scanned, spec_quote_family, spec_str_run,
    spec_str_text, str_state, Opener, StrStep, spec_scan_number, number_token_is, NumberScan,
    token_start, Lexer, Spanned, Token,
};
use crate::options::{spec_repairs, Allow, Options, Repairs};
use crate::text::string_of;
use crate::value::{
    colon, comma, depth, items_depth, items_valid, layout, lemma_items_index, lemma_members_index,
    lemma_render_first, lemma_render_items_first, lemma_render_items_split,
    lemma_render_members_first, lemma_render_members_split, members_depth, members_valid,
    numbers_valid, render, render_items, render_member, render_members, same_text,
    spec_escape_body, spec_escape_char, spec_hex_digit, spec_quote, lemma_number_chars, Number,
    Value,
};

verus! {

/// Maximum container/group nesting depth accepted by the parser.
///
/// Input nested deeper than this fails with `ErrorKind::DepthLimitExceeded`
/// instead of risking a stack overflow, no matter which repair passes are
/// enabled.
pub const MAX_NESTING_DEPTH: usize = 256;

/// A payload-free view of a token, cheap to compare and copy.
#[derive(Debug, Clone, Copy, PartialEq, Eq, Structural)]
pub enum Tag {
    OpenBrace,
    CloseBrace,
    OpenBracket,
    CloseBracket,
    Colon,
    Comma,
    Semicolon,
    Plus,
    Ellipsis,
    OpenParen,
    CloseParen,
    Str { truncated: bool },
    Num { truncated: bool },
    Bool,
    Null,
    Undefined,
    Word { truncated: bool },
}

/// The tag of a token.
pub open spec fn spec_tag_of(token: Token) -> Tag {
    match token {
        Token::OpenBrace => Tag::OpenBrace,
        Token::CloseBrace => Tag::CloseBrace,
        Token::OpenBracket => Tag::OpenBracket,
        Token::CloseBracket => Tag::CloseBracket,
        Token::Colon => Tag::Colon,
        Token::Comma => Tag::Comma,
        Token::Semicolon => Tag::Semicolon,
        Token::Plus => Tag::Plus,
        Token::Ellipsis => Tag::Ellipsis,
        Token::OpenParen => Tag::OpenParen,
        Token::CloseParen => Tag::CloseParen,
        Token::Str { truncated, .. } => Tag::Str { truncated },
        Token::Num { truncated, .. } => Tag::Num { truncated },
        Token::Bool(_) => Tag::Bool,
        Token::Null => Tag::Null,
        Token::Undefined => Tag::Undefined,
        Token::Word { truncated, .. } => Tag::Word { truncated },
    }
}

/// The tag of a token.
pub fn tag_of(token: &Token) -> (r: Tag)
    ensures
        r == spec_tag_of(*token),
{
    match token {
        Token::OpenBrace => Tag::OpenBrace,
        Token::CloseBrace => Tag::CloseBrace,
        Token::OpenBracket => Tag::OpenBracket,
        Token::CloseBracket => Tag::CloseBracket,
        Token::Colon => Tag::Colon,
        Token::Comma => Tag::Comma,
        Token::Semicolon => Tag::Semicolon,
        Token::Plus => Tag::Plus,
        Token::Ellipsis => Tag::Ellipsis,
        Token::OpenParen => Tag::OpenParen,
        Token::CloseParen => Tag::CloseParen,
        Token::Str { truncated, .. } => Tag::Str { truncated: *truncated },
        Token::Num { truncated, .. } => Tag::Num { truncated: *truncated },
        Token::Bool(_) => Tag::Bool,
        Token::Null => Tag::Null,
        Token::Undefined => Tag::Undefined,
        Token::Word { truncated, .. } => Tag::Word { truncated: *truncated },
    }
}

impl Tag {
    /// Whether this token can begin a JSON value.
    pub open spec fn spec_starts_value(self) -> bool {
        match self {
            Tag::OpenBrace | Tag::OpenBracket | Tag::Str { .. } | Tag::Num { .. } | Tag::Bool
            | Tag::Null | Tag::Undefined | Tag::Word { .. } | Tag::OpenParen => true,
            _ => false,
        }
    }

    /// The character of a punctuation token; NUL for a value token.
    pub open spec fn spec_punct_char(self) -> char {
        match self {
            Tag::OpenBrace => '{',
            Tag::CloseBrace => '}',
            Tag::OpenBracket => '[',
            Tag::CloseBracket => ']',
            Tag::Colon => ':',
            Tag::Comma => ',',
            Tag::Semicolon => ';',
            Tag::Plus => '+',
            Tag::Ellipsis => '.',
            Tag::OpenParen => '(',
            Tag::CloseParen => ')',
            _ => '\0',
        }
    }

    /// Whether top-level reading drops this token as noise outside strict
    /// mode (and rejects it in strict mode).
    pub open spec fn spec_top_noise(self) -> bool {
        match self {
            Tag::Semicolon | Tag::Ellipsis | Tag::Plus | Tag::Colon | Tag::CloseParen
            | Tag::CloseBrace | Tag::CloseBracket => true,
            _ => false,
        }
    }

    /// Whether this token closes a container or separates values: nothing
    /// that a value reader skips or starts a value with.
    pub open spec fn spec_ends_value(self) -> bool {
        match self {
            Tag::CloseBrace | Tag::CloseBracket | Tag::CloseParen | Tag::Colon | Tag::Comma => true,
            _ => false,
        }
    }

    /// Whether this token can begin a JSON value.
    pub fn starts_value(self) -> (r: bool)
        ensures
            r == self.spec_starts_value(),
    {
        match self {
            Tag::OpenBrace | Tag::OpenBracket | Tag::Str { .. } | Tag::Num { .. } | Tag::Bool
            | Tag::Null | Tag::Undefined | Tag::Word { .. } | Tag::OpenParen => true,
            _ => false,
        }
    }

    /// The character this token reports in `UnexpectedCharacter` errors;
    /// value tags report NUL.
    pub fn punct_char(self) -> (r: char)
        ensures
            r == self.spec_punct_char(),
    {
        match self {
            Tag::OpenBrace => '{',
            Tag::CloseBrace => '}',
            Tag::OpenBracket => '[',
            Tag::CloseBracket => ']',
            Tag::Colon => ':',
            Tag::Comma => ',',
            Tag::Semicolon => ';',
            Tag::Plus => '+',
            Tag::Ellipsis => '.',
            Tag::OpenParen => '(',
            Tag::CloseParen => ')',
            _ => '\0',
        }
    }
}

/// The tolerant parser: a `Lexer` plus one token of lookahead.
pub struct Parser<'a> {
    pub lexer: Lexer<'a>,
    /// One token of lookahead plus its tag.
    pub peeked: Option<(Spanned, Tag)>,
    pub opts: Options,
    /// Open containers and groups around the cursor.
    pub depth: usize,
}

impl<'a> Parser<'a> {
    /// Well-formedness: the lexer is in range, the lookahead token was read
    /// before the lexer position, and the nesting stays within the limit.
    pub open spec fn wf(&self) -> bool {
        &&& self.lexer.wf()
        &&& self.lexer.opts == self.opts
        &&& self.depth <= MAX_NESTING_DEPTH
        &&& (self.peeked matches Some((sp, t)) ==> sp.start < self.lexer.pos && t == spec_tag_of(
            sp.token,
        ) && token_ok(sp.token))
        &&& (self.peeked matches Some((sp, _)) ==> (sp.token is CloseBrace
            ==> self.lexer.src@[sp.start as int] == '}' && self.lexer.pos == sp.start + 1))
        &&& (self.peeked matches Some((sp, _)) ==> (sp.token is CloseBracket
            ==> self.lexer.src@[sp.start as int] == ']' && self.lexer.pos == sp.start + 1))
    }

    /// Where the next token starts (the lookahead token, if one was read).
    pub open spec fn cursor(&self) -> int {
        match self.peeked {
            Some((sp, _)) => sp.start as int,
            None => self.lexer.pos as int,
        }
    }

    /// The number of characters in the source.
    pub open spec fn len(&self) -> int {
        self.lexer.src@.len() as int
    }

    /// Whether nothing is left: no lookahead token and the lexer at the end.
    pub open spec fn at_end(&self) -> bool {
        self.peeked is None && self.lexer.pos == self.lexer.src@.len()
    }

    /// Where the next token starts on canonical text: at the lookahead
    /// token, or after at most one space.
    pub open spec fn canon_cursor(&self) -> int {
        match self.peeked {
            Some((sp, _)) => sp.start as int,
            None => token_start(self.lexer.src@, self.lexer.pos as int),
        }
    }

    /// The canonical text of `v` stands at the cursor, with valid numbers
    /// and within the nesting budget; a lookahead token is its first.
    pub open spec fn expects(&self, v: Value, spaced: bool) -> bool {
        &&& numbers_valid(v)
        &&& depth(v) + self.depth <= MAX_NESTING_DEPTH
        &&& canon_at(self.lexer.src@, self.canon_cursor(), v, spaced, in_container_at(self.depth))
        &&& (self.peeked matches Some((sp, _)) ==> canon_token(sp.token, v) && self.lexer.pos
            == sp.start + first_token_len(v))
    }

    /// The opening bracket or brace of the container `v` was just taken:
    /// the canonical text of `v` starts right before the lexer position.
    pub open spec fn entered(&self, v: Value, spaced: bool) -> bool {
        &&& self.peeked is None
        &&& 1 <= self.lexer.pos
        &&& numbers_valid(v)
        &&& depth(v) + self.depth <= MAX_NESTING_DEPTH + 1
        &&& canon_at(
            self.lexer.src@,
            self.lexer.pos - 1,
            v,
            spaced,
            in_container_at((self.depth - 1) as usize),
        )
    }

    /// The text of the lookahead token and whether it was cut off, if it is
    /// a string.
    pub open spec fn peeked_str(&self) -> Option<(Seq<char>, bool)> {
        match self.peeked {
            Some((sp, _)) => match sp.token {
                Token::Str { text, truncated } => Some((text@, truncated)),
                _ => None,
            },
            None => None,
        }
    }

    /// The tag of the lookahead token, if any.
    pub open spec fn peeked_tag(&self) -> Option<Tag> {
        match self.peeked {
            Some((_, t)) => Some(t),
            None => None,
        }
    }

    /// The next significant character closes a container or separates
    /// values.
    pub open spec fn closer_ahead(&self) -> bool {
        let s = self.lexer.src@;
        let q = spec_skip_trivia(self.opts, s, self.lexer.pos as int).0;
        q < s.len() && (s[q] == '}' || s[q] == ']' || s[q] == ')' || s[q] == ':' || s[q] == ',')
    }

    /// The next significant character is `(`.
    pub open spec fn paren_ahead(&self) -> bool {
        let s = self.lexer.src@;
        let q = spec_skip_trivia(self.opts, s, self.lexer.pos as int).0;
        q < s.len() && s[q] == '('
    }

    /// The lookahead is `(` and the next significant character after it is
    /// `)`.
    pub open spec fn empty_group(&self) -> bool {
        let s = self.lexer.src@;
        let q = spec_skip_trivia(self.opts, s, self.lexer.pos as int).0;
        self.peeked_tag() == Some(Tag::OpenParen) && q < s.len() && s[q] == ')'
    }

    /// The next token is the first of `k` opening brackets.
    pub open spec fn deep_ahead(&self, k: int) -> bool {
        match self.peeked {
            None => bracket_run(self.lexer.src@, self.lexer.pos as int, k),
            Some((sp, t)) => t == Tag::OpenBracket && sp.start + 1 == self.lexer.pos && bracket_run(
                self.lexer.src@,
                sp.start as int,
                k,
            ),
        }
    }

    pub fn new(src: &'a [char], opts: Options) -> (r: Self)
        ensures
            r.wf(),
            r.lexer.src == src,
            r.lexer.pos == 0,
            r.peeked is None,
            r.opts == opts,
            r.depth == 0,
    {
        Parser { lexer: Lexer::new(src, opts), peeked: None, opts, depth: 0 }
    }
}

/// What may follow a value in JSON text: the end of input, or, inside a
/// container, `,`, `]`, or `}`.
pub open spec fn value_follow(src: Seq<char>, e: int, in_container: bool) -> bool {
    e == src.len() || (0 <= e < src.len() && in_container && (src[e] == ',' || src[e] == ']'
        || src[e] == '}'))
}

/// The text of `v`, laid out with or without spaces, stands at `p`,
/// followed by what may follow a value.
pub open spec fn canon_at(src: Seq<char>, p: int, v: Value, spaced: bool, in_container: bool) -> bool {
    &&& 0 <= p
    &&& p + layout(v, spaced).len() <= src.len()
    &&& src.subrange(p, p + layout(v, spaced).len()) == layout(v, spaced)
    &&& value_follow(src, p + layout(v, spaced).len(), in_container)
}

/// The text of a value starts with the token `canon_value_start` describes.
pub proof fn lemma_canon_at_start(src: Seq<char>, p: int, v: Value, spaced: bool, in_container: bool)
    requires
        canon_at(src, p, v, spaced, in_container),
        numbers_valid(v),
    ensures
        canon_value_start(src, p, v, in_container),
{
    let r = layout(v, spaced);
    assert forall|k: int| 0 <= k < r.len() implies #[trigger] src[p + k] == r[k] by {
        assert(src.subrange(p, p + r.len())[k] == src[p + k]);
    }
    match v {
        Value::Array(items) => {
            assert(src[p] == r[0]);
            assert(src[p + 1] == r[1]);
            if items@.len() > 0 {
                lemma_render_items_first(items@, spaced);
                lemma_items_index(items@, 0);
                lemma_render_first(items@[0], spaced);
                let ri = render_items(items@, spaced);
                assert(ri[0] == ri.subrange(0, layout(items@[0], spaced).len() as int)[0]);
                assert(r[1] == ri[0]);
            }
        },
        Value::Object(members) => {
            assert(src[p] == r[0]);
            assert(src[p + 1] == r[1]);
            if members@.len() > 0 {
                lemma_render_members_first(members@, spaced);
                assert(r[1] == render_members(members@, spaced)[0]);
            }
        },
        Value::Number(n) => {
            assert(src.subrange(p, p + n@.len()) == n@);
        },
        _ => {},
    }
}

/// A piece of text that stands at `p` stands there piece by piece.
proof fn lemma_sub(src: Seq<char>, p: int, x: Seq<char>, a: int, len: int)
    requires
        0 <= p,
        p + x.len() <= src.len(),
        src.subrange(p, p + x.len()) == x,
        0 <= a,
        0 <= len,
        a + len <= x.len(),
    ensures
        src.subrange(p + a, p + a + len) == x.subrange(a, a + len),
        forall|j: int| 0 <= j < x.len() ==> #[trigger] src[p + j] == x[j],
{
    assert forall|j: int| 0 <= j < x.len() implies #[trigger] src[p + j] == x[j] by {
        assert(src.subrange(p, p + x.len())[j] == src[p + j]);
    }
    assert(src.subrange(p + a, p + a + len) =~= x.subrange(a, a + len));
}

/// Where the parts of an array's text stand: after the first `k` elements
/// comes the closing bracket, or the separator and the next element in its
/// place.
#[verifier::rlimit(60)]
#[verifier::spinoff_prover]
proof fn lemma_array_layout(src: Seq<char>, p: int, its: Seq<Value>, k: int, spaced: bool)
    requires
        0 <= p,
        p + (seq!['['] + render_items(its, spaced) + seq![']']).len() <= src.len(),
        src.subrange(p, p + (seq!['['] + render_items(its, spaced) + seq![']']).len()) == seq![
            '[',
        ] + render_items(its, spaced) + seq![']'],
        0 <= k <= its.len(),
        items_valid(its),
    ensures
        ({
            let ri = render_items(its, spaced);
            let ek = p + 1 + render_items(its.take(k), spaced).len();
            &&& ek <= p + 1 + ri.len()
            &&& k == its.len() ==> src[ek] == ']' && ek + 1 == p + ri.len() + 2
            &&& 1 <= k < its.len() ==> src[ek] == ',' && (spaced ==> src[ek + 1] == ' ')
                && canon_at(src, ek + comma(spaced).len(), its[k], spaced, true)
            &&& k == 0 < its.len() ==> canon_at(src, p + 1, its[0], spaced, true)
        }),
{
    let ri = render_items(its, spaced);
    let x = seq!['['] + ri + seq![']'];
    let n = its.len() as int;
    let lri = ri.len() as int;
    let lc = comma(spaced).len() as int;
    lemma_sub(src, p, x, 0, 0);
    if k == n {
        assert(its.take(k) =~= its);
        assert(x[lri + 1] == ']');
    } else if k >= 1 {
        lemma_render_items_split(its, k, spaced);
        lemma_items_index(its, k);
        let rt = render_items(its.take(k), spaced);
        let rk = layout(its[k], spaced);
        let lrt = rt.len() as int;
        let lrk = rk.len() as int;
        let rest = render_items(its.skip(k), spaced);
        assert(x =~= seq!['['] + rt + comma(spaced) + rest + seq![']']);
        assert(x[1 + lrt] == ',');
        if spaced {
            assert(x[2 + lrt] == ' ');
        }
        let q = 1 + lrt + lc;
        lemma_sub(src, p, x, q, lrk);
        if k + 1 == n {
            assert(x.subrange(q, q + lrk) =~= rk);
            assert(x[q + lrk] == ']');
        } else {
            assert(x.subrange(q, q + lrk) =~= rk);
            assert(x[q + lrk] == ',');
        }
    } else if n > 0 {
        lemma_items_index(its, 0);
        let r0 = layout(its[0], spaced);
        let lr0 = r0.len() as int;
        lemma_render_items_first(its, spaced);
        lemma_sub(src, p, x, 1, lr0);
        assert(x.subrange(1, 1 + lr0) =~= ri.subrange(0, lr0));
        if n == 1 {
            assert(its =~= its.take(1));
            assert(x[1 + lr0] == ']');
        } else {
            lemma_render_items_split(its, 1, spaced);
            assert(its.take(1).drop_last() =~= Seq::<Value>::empty());
            assert(ri =~= r0 + comma(spaced) + render_items(its.skip(1), spaced));
            assert(x[1 + lr0] == ',');
        }
    }
}

/// A member followed by `,` or `}`: its key in canonical string position,
/// then the key separator and its value in place.
proof fn lemma_member_at(src: Seq<char>, q: int, m: (String, Value), spaced: bool)
    requires
        0 <= q,
        q + render_member(m, spaced).len() < src.len(),
        src.subrange(q, q + render_member(m, spaced).len()) == render_member(m, spaced),
        src[q + render_member(m, spaced).len()] == ',' || src[q + render_member(m, spaced).len()]
            == '}',
    ensures
        ({
            let kq = spec_quote(m.0@);
            &&& render_member(m, spaced) == kq + colon(spaced) + layout(m.1, spaced)
            &&& canon_string_at(src, q, m.0@, true)
            &&& src[q + kq.len()] == ':'
            &&& spaced ==> src[q + kq.len() + 1] == ' '
            &&& canon_at(src, q + kq.len() + colon(spaced).len(), m.1, spaced, true)
        }),
{
    let mk = render_member(m, spaced);
    let kq = spec_quote(m.0@);
    let rv = layout(m.1, spaced);
    let lq = kq.len() as int;
    let lv = rv.len() as int;
    let lc = colon(spaced).len() as int;
    assert(mk == kq + colon(spaced) + rv);
    lemma_sub(src, q, mk, 0, lq);
    lemma_sub(src, q, mk, lq + lc, lv);
    assert(mk.subrange(0, lq) =~= kq);
    assert(mk.subrange(lq + lc, lq + lc + lv) =~= rv);
    assert(mk[lq] == ':');
    if spaced {
        assert(mk[lq + 1] == ' ');
    }
}

/// Where the parts of an object's text stand: after the first `k` members
/// comes the closing brace, or the separator and the next member in its
/// place, followed by `,` or the closing brace.
#[verifier::rlimit(60)]
#[verifier::spinoff_prover]
proof fn lemma_object_layout(src: Seq<char>, p: int, ms: Seq<(String, Value)>, k: int, spaced: bool)
    requires
        0 <= p,
        p + (seq!['{'] + render_members(ms, spaced) + seq!['}']).len() <= src.len(),
        src.subrange(p, p + (seq!['{'] + render_members(ms, spaced) + seq!['}']).len()) == seq![
            '{',
        ] + render_members(ms, spaced) + seq!['}'],
        0 <= k <= ms.len(),
        members_valid(ms),
    ensures
        ({
            let rm = render_members(ms, spaced);
            let ek = p + 1 + render_members(ms.take(k), spaced).len();
            let ks = if k == 0 {
                p + 1
            } else {
                ek + comma(spaced).len()
            };
            &&& ek <= p + 1 + rm.len()
            &&& k == ms.len() ==> src[ek] == '}' && ek + 1 == p + rm.len() + 2
            &&& 1 <= k < ms.len() ==> src[ek] == ',' && (spaced ==> src[ek + 1] == ' ')
            &&& k < ms.len() ==> numbers_valid(ms[k].1) && depth(ms[k].1) <= members_depth(ms)
            &&& k < ms.len() ==> ks + render_member(ms[k], spaced).len() < src.len()
                && src.subrange(ks, ks + render_member(ms[k], spaced).len()) == render_member(
                ms[k],
                spaced,
            ) && (src[ks + render_member(ms[k], spaced).len()] == ',' || src[ks + render_member(
                ms[k],
                spaced,
            ).len()] == '}')
        }),
{
    let rm = render_members(ms, spaced);
    let x = seq!['{'] + rm + seq!['}'];
    let n = ms.len() as int;
    let lrm = rm.len() as int;
    let lc = comma(spaced).len() as int;
    lemma_sub(src, p, x, 0, 0);
    if k == n {
        assert(ms.take(k) =~= ms);
        assert(x[lrm + 1] == '}');
    } else {
        lemma_members_index(ms, k);
        let rt = render_members(ms.take(k), spaced);
        let lrt = rt.len() as int;
        let mk = render_member(ms[k], spaced);
        let lmk = mk.len() as int;
        // The members from the `k`-th on, and where they start in `x`.
        let rest = if k == 0 {
            rm
        } else {
            render_members(ms.skip(k), spaced)
        };
        let off = if k == 0 {
            1
        } else {
            1 + lrt + lc
        };
        if k >= 1 {
            lemma_render_members_split(ms, k, spaced);
            assert(x =~= seq!['{'] + rt + comma(spaced) + rest + seq!['}']);
            assert(x[1 + lrt] == ',');
            if spaced {
                assert(x[2 + lrt] == ' ');
            }
        } else {
            assert(ms.take(0) =~= Seq::<(String, Value)>::empty());
        }
        let tail = if k + 1 < n {
            comma(spaced) + render_members(ms.skip(k + 1), spaced)
        } else {
            Seq::<char>::empty()
        };
        assert(rest == mk + tail) by {
            if k + 1 < n {
                if k == 0 {
                    lemma_render_members_split(ms, 1, spaced);
                    assert(ms.take(1).drop_last() =~= Seq::<(String, Value)>::empty());
                }
            } else {
                if k == 0 {
                    assert(ms =~= ms.take(1));
                    assert(ms.take(1).drop_last() =~= Seq::<(String, Value)>::empty());
                }
                assert(mk + tail =~= mk);
            }
        }
        assert(x =~= x.subrange(0, off) + mk + tail + seq!['}']);
        lemma_sub(src, p, x, off, lmk);
        assert(x.subrange(off, off + lmk) =~= mk);
        if k + 1 < n {
            assert(x[off + lmk] == ',');
        } else {
            assert(x[off + lmk] == '}');
        }
    }
}

/// Whether a container is open at nesting `depth`.
pub open spec fn in_container_at(depth: usize) -> bool {
    depth > 0
}

/// The tag of the punctuation token that `c` is, among those that separate
/// and close canonical text.
pub open spec fn punct_tag(c: char) -> Option<Tag> {
    if c == ',' {
        Some(Tag::Comma)
    } else if c == ':' {
        Some(Tag::Colon)
    } else if c == ']' {
        Some(Tag::CloseBracket)
    } else if c == '}' {
        Some(Tag::CloseBrace)
    } else {
        None
    }
}

/// `k` opening brackets from `pos`, with no backtick right after them.
pub open spec fn bracket_run(src: Seq<char>, pos: int, k: int) -> bool {
    &&& 1 <= k
    &&& 0 <= pos
    &&& pos + k <= src.len()
    &&& forall|j: int| pos <= j < pos + k ==> #[trigger] src[j] == '['
    &&& !(pos + k < src.len() && src[pos + k] == '`')
}

/// A run of brackets starts with one bracket, and the rest is a run too.
proof fn lemma_bracket_run_split(src: Seq<char>, pos: int, k: int)
    requires
        bracket_run(src, pos, k),
    ensures
        bracket_run(src, pos, 1),
        k >= 2 ==> bracket_run(src, pos + 1, k - 1),
{
    assert(src[pos] == '[');
    if k >= 2 {
        assert(src[pos + 1] == '[');
    }
}

/// What reading one token at the lexer position gives on canonical text:
/// end of input, a separating or closing punctuation mark, or the first
/// token of a value's canonical text.
pub open spec fn lookahead_read(old: Parser, new: Parser) -> bool {
    let src = old.lexer.src@;
    let pos = old.lexer.pos as int;
    let ts = token_start(src, pos);
    let ic = in_container_at(old.depth);
    &&& pos == src.len() ==> new.peeked is None
    &&& (pos < src.len() && punct_tag(src[pos]) is Some) ==> (new.peeked matches Some((sp, t))
        && t == punct_tag(src[pos])->0 && sp.start == pos && new.lexer.pos == pos + 1)
    &&& forall|v: Value|
        #[trigger] canon_value_start(src, ts, v, ic) ==> (new.peeked matches Some((sp, t))
            && sp.start == ts && canon_token(sp.token, v) && new.lexer.pos == ts
            + first_token_len(v))
}

/// Whether the token at the lexer position is one that `lookahead_read`
/// describes, so that reading it cannot fail.
pub open spec fn lookahead_read_ok(old: Parser) -> bool {
    let src = old.lexer.src@;
    let pos = old.lexer.pos as int;
    ||| pos == src.len()
    ||| (pos < src.len() && punct_tag(src[pos]) is Some)
    ||| exists|v: Value|
        #[trigger] canon_value_start(src, token_start(src, pos), v, in_container_at(old.depth))
}

/// What every parser step keeps: the source, the options, and the nesting
/// stay the same, and the cursor never moves backwards.
pub open spec fn parser_step(old: Parser, new: Parser) -> bool {
    &&& new.wf()
    &&& new.lexer.src == old.lexer.src
    &&& new.opts == old.opts
    &&& new.depth == old.depth
    &&& old.cursor() <= new.cursor()
}

/// What the key scanner found.
pub enum KeyStep {
    /// A usable key, plus whether it was cut off at end of input.
    Key(Vec<char>, bool),
    /// Nothing key-like: one token was consumed, keep looking.
    Skip,
    /// End of input: stop the object.
    Stop,
}

proof fn lemma_items_depth_push(s: Seq<Value>, v: Value)
    ensures
        items_valid(s.push(v)) == (items_valid(s) && numbers_valid(v)),
        items_depth(s.push(v)) == (if items_depth(s) >= depth(v) {
            items_depth(s)
        } else {
            depth(v)
        }),
{
    assert(s.push(v).drop_last() =~= s);
}

proof fn lemma_members_depth_push(s: Seq<(String, Value)>, m: (String, Value))
    ensures
        members_valid(s.push(m)) == (members_valid(s) && numbers_valid(m.1)),
        members_depth(s.push(m)) == (if members_depth(s) >= depth(m.1) {
            members_depth(s)
        } else {
            depth(m.1)
        }),
{
    assert(s.push(m).drop_last() =~= s);
}

/// Appends the member `key: null`.
pub fn push_null_member(members: &mut Vec<(String, Value)>, key: &[char])
    ensures
        final(members)@.len() == old(members)@.len() + 1,
        final(members)@.last().0@ == key@,
        final(members)@.last().1 == Value::Null,
        final(members)@.drop_last() == old(members)@,
        members_depth(final(members)@) == members_depth(old(members)@),
        members_valid(final(members)@) == members_valid(old(members)@),
{
    let m = (string_of(key), Value::Null);
    proof {
        lemma_members_depth_push(members@, m);
    }
    members.push(m);
    proof {
        assert(members@.drop_last() =~= old(members)@);
    }
}

/// Whether any character of `text` is Unicode whitespace.
pub fn any_unicode_ws(text: &[char]) -> (r: bool)
    ensures
        r == exists|j: int| 0 <= j < text@.len() && crate::chars::spec_is_unicode_ws(#[trigger] text@[j]),
{
    let mut i: usize = 0;
    while i < text.len()
        invariant
            i <= text@.len(),
            forall|j: int| 0 <= j < i ==> !crate::chars::spec_is_unicode_ws(#[trigger] text@[j]),
        decreases text@.len() - i,
    {
        if is_unicode_ws(text[i]) {
            return true;
        }
        i = i + 1;
    }
    false
}

impl<'a> Parser<'a> {
    /// Whether every repair pass is disabled.
    pub fn strict(&self) -> (r: bool)
        ensures
            r == (self.opts.repairs@ == 0),
    {
        self.opts.repairs.bits() == 0
    }

    /// The position of the token under the cursor.
    pub fn position(&self) -> (r: usize)
        requires
            self.wf(),
        ensures
            r == self.cursor(),
            r <= self.len(),
    {
        match &self.peeked {
            Some((spanned, _)) => spanned.start,
            None => self.lexer.pos,
        }
    }

    /// Reads the lookahead token when none is buffered.
    pub fn fill(&mut self, key_position: bool) -> (r: Result<(), Error>)
        requires
            old(self).wf(),
        ensures
            parser_step(*old(self), *final(self)),
            old(self).peeked is Some ==> *final(self) == *old(self),
            r is Ok && final(self).peeked is None ==> final(self).cursor() == final(self).len(),
            r matches Err(e) ==> e.spec_position() <= old(self).len(),
            old(self).peeked is None ==> lookahead_read(*old(self), *final(self)),
            old(self).peeked is None && lookahead_read_ok(*old(self)) ==> r is Ok,
            old(self).peeked is Some ==> r is Ok,
            old(self).peeked is None && bracket_run(old(self).lexer.src@, old(self).lexer.pos as int, 1)
                ==> ({
                &&& r is Ok
                &&& final(self).peeked matches Some((sp, t)) && t == Tag::OpenBracket && sp.start
                    == old(self).lexer.pos && final(self).lexer.pos == old(self).lexer.pos + 1
            }),
            old(self).peeked is None ==> ({
                let s = old(self).lexer.src@;
                let q = spec_skip_trivia(old(self).opts, s, old(self).lexer.pos as int).0;
                &&& q >= s.len() ==> r is Ok && final(self).peeked is None
                &&& (q < s.len() && spec_punct_token(s[q]) is Some) ==> (r is Ok
                    && (final(self).peeked matches Some((sp, _)) && sp.token == spec_punct_token(
                    s[q],
                )->0 && sp.start == q) && final(self).lexer.pos == q + 1)
                &&& (q < s.len() && number_start(s, q) && (spec_scan_number(old(self).opts, s, q) is Number
                    || spec_scan_number(old(self).opts, s, q) is Verbatim)) ==> (r is Ok && (final(self).peeked matches Some((sp, _)) && number_token_is(
                    spec_scan_number(old(self).opts, s, q),
                    s,
                    q,
                    sp.token,
                    final(self).lexer.pos as int,
                )))
                &&& (q < s.len() && string_start_char(old(self).opts, s[q])) ==> quote_scanned(
                    s,
                    old(self).opts,
                    in_container_at(old(self).depth),
                    q,
                    fill_result(r, *final(self)),
                    final(self).lexer.pos as int,
                )
                &&& (q < s.len() && word_start_char(old(self).opts, s[q])) ==> (r is Ok
                    && (final(self).peeked matches Some((sp, _)) && sp.start == q && word_scanned(
                    s,
                    q,
                    key_position,
                    old(self).opts,
                    sp.token,
                    final(self).lexer.pos as int,
                )))
            }),
            old(self).peeked is None ==> (final(self).peeked matches Some((sp, _))
                ==> sp.newline_before == spec_skip_trivia(
                old(self).opts,
                old(self).lexer.src@,
                old(self).lexer.pos as int,
            ).1),
    {
        if self.peeked.is_none() {
            proof {
                if bracket_run(self.lexer.src@, self.lexer.pos as int, 1) {
                    lemma_skip_trivia_at_bracket(
                        self.lexer.opts,
                        self.lexer.src@,
                        self.lexer.pos as int,
                    );
                }
            }
            self.lexer.set_in_container(self.depth > 0);
            match self.lexer.next_token(key_position) {
                Err(e) => {
                    return Err(e);
                },
                Ok(None) => {},
                Ok(Some(spanned)) => {
                    let tag = tag_of(&spanned.token);
                    self.peeked = Some((spanned, tag));
                },
            }
        }
        Ok(())
    }

    /// The tag of the lookahead token, reading it first when needed;
    /// `None` at end of input.
    pub fn peek_tag(&mut self, key_position: bool) -> (r: Result<Option<Tag>, Error>)
        requires
            old(self).wf(),
        ensures
            parser_step(*old(self), *final(self)),
            old(self).peeked is Some ==> *final(self) == *old(self),
            r matches Ok(t) ==> t == final(self).peeked_tag(),
            r matches Ok(None) ==> final(self).cursor() == final(self).len(),
            r matches Err(e) ==> e.spec_position() <= old(self).len(),
            old(self).peeked is None ==> lookahead_read(*old(self), *final(self)),
            old(self).peeked is None && lookahead_read_ok(*old(self)) ==> r is Ok,
            old(self).peeked is Some ==> r is Ok,
            old(self).peeked is None && bracket_run(old(self).lexer.src@, old(self).lexer.pos as int, 1)
                ==> ({
                &&& r == Ok::<Option<Tag>, Error>(Some(Tag::OpenBracket))
                &&& final(self).peeked matches Some((sp, t)) && sp.start == old(self).lexer.pos
                    && final(self).lexer.pos == old(self).lexer.pos + 1
            }),
            old(self).peeked is None ==> ({
                let s = old(self).lexer.src@;
                let q = spec_skip_trivia(old(self).opts, s, old(self).lexer.pos as int).0;
                &&& q >= s.len() ==> r == Ok::<Option<Tag>, Error>(None)
                &&& (q < s.len() && spec_punct_token(s[q]) is Some) ==> (r == Ok::<
                    Option<Tag>,
                    Error,
                >(Some(spec_tag_of(spec_punct_token(s[q])->0))) && (final(self).peeked matches Some(
                    (sp, _),
                ) && sp.token == spec_punct_token(s[q])->0 && sp.start == q) && final(self).lexer.pos
                    == q + 1)
                &&& (q < s.len() && number_start(s, q) && (spec_scan_number(old(self).opts, s, q) is Number
                    || spec_scan_number(old(self).opts, s, q) is Verbatim)) ==> (r is Ok && (final(self).peeked matches Some((sp, t)) && r == Ok::<Option<Tag>, Error>(Some(t))
                    && number_token_is(
                    spec_scan_number(old(self).opts, s, q),
                    s,
                    q,
                    sp.token,
                    final(self).lexer.pos as int,
                )))
                &&& (q < s.len() && string_start_char(old(self).opts, s[q])) ==> (quote_scanned(
                    s,
                    old(self).opts,
                    in_container_at(old(self).depth),
                    q,
                    match r {
                        Err(e) => Err(e),
                        Ok(_) => match final(self).peeked {
                            Some((sp, _)) => Ok(Some(sp)),
                            None => Ok(None),
                        },
                    },
                    final(self).lexer.pos as int,
                ) && (r is Ok ==> r == Ok::<Option<Tag>, Error>(final(self).peeked_tag())))
                &&& (q < s.len() && word_start_char(old(self).opts, s[q])) ==> (r is Ok
                    && (final(self).peeked matches Some((sp, t)) && r == Ok::<Option<Tag>, Error>(
                    Some(t),
                ) && sp.start == q && word_scanned(
                    s,
                    q,
                    key_position,
                    old(self).opts,
                    sp.token,
                    final(self).lexer.pos as int,
                )))
            }),
            old(self).peeked is None ==> (final(self).peeked matches Some((sp, _))
                ==> sp.newline_before == spec_skip_trivia(
                old(self).opts,
                old(self).lexer.src@,
                old(self).lexer.pos as int,
            ).1),
    {
        match self.fill(key_position) {
            Err(e) => Err(e),
            Ok(()) => match &self.peeked {
                Some((_, tag)) => Ok(Some(*tag)),
                None => Ok(None),
            },
        }
    }

    /// Whether the lookahead token follows a newline.
    pub fn peek_newline(&mut self) -> (r: Result<bool, Error>)
        requires
            old(self).wf(),
        ensures
            parser_step(*old(self), *final(self)),
            old(self).peeked is Some ==> *final(self) == *old(self),
            r matches Err(e) ==> e.spec_position() <= old(self).len(),
            old(self).peeked matches Some((sp, _)) ==> r == Ok::<bool, Error>(sp.newline_before),
            old(self).peeked is None ==> lookahead_read(*old(self), *final(self)),
            old(self).peeked is None && lookahead_read_ok(*old(self)) ==> r is Ok,
            r is Ok && final(self).peeked is None ==> final(self).cursor() == final(self).len(),
            r matches Ok(b) ==> b == (final(self).peeked matches Some((sp, _)) && sp.newline_before),
            old(self).peeked is None ==> (r matches Ok(b) ==> b == (final(self).peeked is Some
                && spec_skip_trivia(
                old(self).opts,
                old(self).lexer.src@,
                old(self).lexer.pos as int,
            ).1)),
    {
        match self.fill(false) {
            Err(e) => Err(e),
            Ok(()) => match &self.peeked {
                Some((spanned, _)) => Ok(spanned.newline_before),
                None => Ok(false),
            },
        }
    }

    /// Consumes the lookahead token.
    pub fn take(&mut self) -> (r: Spanned)
        requires
            old(self).wf(),
            old(self).peeked is Some,
        ensures
            parser_step(*old(self), *final(self)),
            final(self).peeked is None,
            final(self).lexer == old(self).lexer,
            final(self).cursor() > old(self).cursor(),
            old(self).peeked matches Some((sp, t)) && r == sp && t == spec_tag_of(r.token),
    {
        match self.peeked.take() {
            Some((spanned, _)) => spanned,
            None => {
                proof {
                    assert(false);
                }
                Spanned { token: Token::Null, start: 0, newline_before: false }
            },
        }
    }

    /// Applies the truncation policy to a collection that never closed:
    /// whether the caller keeps what it collected.
    pub fn finish_collection(&self, closed: bool, flag: Allow) -> (r: Result<bool, Error>)
        requires
            self.wf(),
        ensures
            closed ==> r == Ok::<bool, Error>(true),
            !closed && !crate::options::spec_repairs(self.opts, 1024) ==> r is Err,
            !closed && crate::options::spec_repairs(self.opts, 1024) ==> r == Ok::<bool, Error>(
                crate::options::spec_allows(self.opts, flag@),
            ),
            r matches Err(e) ==> e.spec_kind() == ErrorKind::UnexpectedEnd && e.spec_position()
                == self.cursor(),
    {
        if closed {
            return Ok(true);
        }
        if !self.opts.repairs(Repairs::TRUNCATION()) {
            return Err(Error::new(ErrorKind::UnexpectedEnd, self.position()));
        }
        Ok(self.opts.allows(flag))
    }
}


/// What a value parser promises: the parser stays well formed, an error
/// points into the source, a parsed value fits in the remaining nesting
/// budget, and a value (or a value-starting lookahead) is consumed.
pub open spec fn value_outcome(old: Parser, new: Parser, r: Result<Option<Value>, Error>) -> bool {
    &&& parser_step(old, new)
    &&& (r matches Err(e) ==> e.spec_position() <= old.len())
    &&& (r matches Ok(Some(v)) ==> depth(v) + old.depth <= MAX_NESTING_DEPTH && new.cursor()
        > old.cursor() && numbers_valid(v))
    &&& (r is Ok && (old.peeked_tag() matches Some(t) && t.spec_starts_value()) ==> new.cursor()
        > old.cursor())
}

/// Where a string may end without a `+` joining another string to it: the
/// end of input, or a character that stops trivia skipping and is not `+`.
pub open spec fn string_end_ok(src: Seq<char>, e: int) -> bool {
    spec_quiet_at(src, e) && (0 <= e < src.len() ==> src[e] != '+')
}

/// What may follow a value stops trivia skipping and is not `+`.
proof fn lemma_value_follow_quiet(src: Seq<char>, e: int, in_container: bool)
    requires
        value_follow(src, e, in_container),
    ensures
        string_end_ok(src, e),
{
}

/// What a container loop promises, one nesting level below its caller.
pub open spec fn loop_outcome(old: Parser, new: Parser, r: Result<Option<Value>, Error>) -> bool {
    &&& parser_step(old, new)
    &&& (r matches Err(e) ==> e.spec_position() <= old.len())
    &&& (r matches Ok(Some(v)) ==> depth(v) + old.depth <= MAX_NESTING_DEPTH + 1 && numbers_valid(v))
}

impl<'a> Parser<'a> {
    /// Parses one value. `None` when there is no value at the cursor, and
    /// also when the value was incomplete and the partial policy dropped it.
    #[verifier::rlimit(80)]
    #[verifier::spinoff_prover]
    pub fn parse_value(&mut self, Ghost(expect): Ghost<Option<(Value, bool)>>) -> (r: Result<
        Option<Value>,
        Error,
    >)
        requires
            old(self).wf(),
            expect matches Some((ev, sp)) ==> old(self).expects(ev, sp),
        ensures
            value_outcome(*old(self), *final(self), r),
            expect matches Some((ev, sp)) ==> (r matches Ok(Some(w)) && same_text(w, ev)
                && final(self).peeked is None && final(self).lexer.pos == old(self).canon_cursor()
                + layout(ev, sp).len()),
            old(self).at_end() ==> r matches Ok(None),
            expect is None && old(self).deep_ahead(MAX_NESTING_DEPTH - old(self).depth + 1) ==> (
            r matches Err(e) && e.spec_kind() == ErrorKind::DepthLimitExceeded),
            old(self).peeked_tag() matches Some(t) && t.spec_ends_value() ==> (r == Ok::<
                Option<Value>,
                Error,
            >(None) && *final(self) == *old(self)),
            old(self).peeked_tag() == Some(Tag::OpenParen) && old(self).opts.repairs@ == 0 ==> (
            r matches Err(e) && e.spec_position() == old(self).cursor() && e.spec_kind() == (if old(
                self,
            ).depth >= MAX_NESTING_DEPTH {
                ErrorKind::DepthLimitExceeded
            } else {
                ErrorKind::UnexpectedCharacter('(')
            })),
            old(self).peeked is None && old(self).closer_ahead() ==> ({
                let q = spec_skip_trivia(
                    old(self).opts,
                    old(self).lexer.src@,
                    old(self).lexer.pos as int,
                ).0;
                &&& r == Ok::<Option<Value>, Error>(None)
                &&& (final(self).peeked matches Some((sp, _)) && sp.start == q && sp.token
                    == spec_punct_token(old(self).lexer.src@[q])->0)
                &&& final(self).lexer.pos == q + 1
            }),
            old(self).peeked matches Some((sp, _)) ==> (sp.token matches Token::Word {
                text,
                truncated,
            } ==> ({
                let s = old(self).lexer.src@;
                let q = spec_skip_trivia(old(self).opts, s, old(self).lexer.pos as int).0;
                let call = q < s.len() && s[q] == '(';
                let unquoted = spec_repairs(old(self).opts, 4);
                let keep = !truncated || (spec_repairs(old(self).opts, 1024)
                    && crate::options::spec_allows(old(self).opts, 1));
                &&& call && !spec_repairs(old(self).opts, 64) ==> (r matches Err(e) && e.spec_kind()
                    == ErrorKind::UnexpectedCharacter('(') && e.spec_position() == sp.start)
                &&& !call && !unquoted ==> (r matches Err(e) && e.spec_kind()
                    == ErrorKind::UnquotedValue && e.spec_position() == sp.start)
                &&& !call && unquoted && truncated && !spec_repairs(old(self).opts, 1024) ==> (
                r matches Err(e) && e.spec_kind() == ErrorKind::UnexpectedEnd && e.spec_position()
                    == sp.start)
                &&& !call && unquoted && !keep && spec_repairs(old(self).opts, 1024) ==> r
                    == Ok::<Option<Value>, Error>(None)
                &&& !call && unquoted && keep ==> (r matches Ok(Some(Value::String(t))) && t@
                    == text@)
                &&& !call ==> final(self).peeked is None && final(self).lexer.pos == old(
                    self,
                ).lexer.pos
            })),
            old(self).peeked matches Some((sp, _)) ==> (sp.token matches Token::Bool(b) ==> (r
                == Ok::<Option<Value>, Error>(Some(Value::Bool(b))) && final(self).peeked is None
                && final(self).lexer == old(self).lexer)),
            old(self).peeked matches Some((sp, _)) ==> ((sp.token is Null || sp.token is Undefined)
                ==> (r == Ok::<Option<Value>, Error>(Some(Value::Null)) && final(self).peeked is None
                && final(self).lexer == old(self).lexer)),
            old(self).peeked_str() matches Some((text, tr)) ==> (!tr && string_end_ok(
                old(self).lexer.src@,
                old(self).lexer.pos as int,
            ) ==> (r matches Ok(Some(Value::String(w))) && w@ == text && final(self).peeked is None
                && final(self).lexer.pos == old(self).lexer.pos)),
            old(self).peeked matches Some((sp, _)) ==> (sp.token matches Token::Num { text, truncated }
                ==> ({
                &&& truncated && !crate::options::spec_allows(old(self).opts, 2) ==> r == Ok::<
                    Option<Value>,
                    Error,
                >(None)
                &&& (!truncated || crate::options::spec_allows(old(self).opts, 2)) ==> (r matches Ok(
                    Some(Value::Number(n)),
                ) && n@ == text@)
                &&& final(self).peeked is None
                &&& final(self).lexer == old(self).lexer
            })),
            old(self).opts.repairs@ == 0 ==> (r matches Ok(Some(v)) ==> (v is Object ==> (final(self).peeked is None
                && 1 <= final(self).lexer.pos <= final(self).len()
                && final(self).lexer.src@[final(self).lexer.pos - 1] == '}'))),
            old(self).opts.repairs@ == 0 ==> (r matches Ok(Some(v)) ==> (v is Array ==> (final(self).peeked is None
                && 1 <= final(self).lexer.pos <= final(self).len()
                && final(self).lexer.src@[final(self).lexer.pos - 1] == ']'))),
        decreases MAX_NESTING_DEPTH - old(self).depth, 5int,
    {
        let ghost closer_ahead = old(self).peeked is None && old(self).closer_ahead();
        let ghost q = spec_skip_trivia(old(self).opts, old(self).lexer.src@, old(self).lexer.pos as int).0;
        // Stray separators before a value are dropped (but not in strict mode).
        loop
            invariant
                old(self).wf(),
                closer_ahead == (old(self).peeked is None && old(self).closer_ahead()),
                q == spec_skip_trivia(old(self).opts, old(self).lexer.src@, old(self).lexer.pos as int).0,
                old(self).peeked_tag() matches Some(t) && t.spec_ends_value() ==> *self == *old(self),
                closer_ahead ==> (*self == *old(self) || (self.peeked matches Some((sp, _))
                    && sp.start == q && sp.token == spec_punct_token(old(self).lexer.src@[q])->0
                    && self.lexer.pos == q + 1)),
                parser_step(*old(self), *self),
                old(self).at_end() ==> self.at_end(),
                expect is None && old(self).deep_ahead(MAX_NESTING_DEPTH - old(self).depth + 1)
                    ==> self.deep_ahead(MAX_NESTING_DEPTH - old(self).depth + 1),
                (old(self).peeked_tag() matches Some(t) && t.spec_starts_value()) ==> *self == *old(
                    self,
                ),
                expect matches Some((ev, sp)) ==> self.expects(ev, sp) && self.canon_cursor() == old(
                    self,
                ).canon_cursor(),
            decreases self.len() - self.cursor(),
        {
            proof {
                if let Some((ev, sp)) = expect {
                    if self.peeked is None {
                        lemma_canon_at_start(
                            self.lexer.src@,
                            self.canon_cursor(),
                            ev,
                            sp,
                            in_container_at(self.depth),
                        );
                    }
                }
                if expect is None && self.deep_ahead(MAX_NESTING_DEPTH - old(self).depth + 1)
                    && self.peeked is None {
                    lemma_bracket_run_split(
                        self.lexer.src@,
                        self.lexer.pos as int,
                        MAX_NESTING_DEPTH - old(self).depth + 1,
                    );
                }
            }
            let tag = match self.peek_tag(false) {
                Err(e) => {
                    return Err(e);
                },
                Ok(t) => t,
            };
            match tag {
                Some(Tag::Ellipsis) | Some(Tag::Semicolon) | Some(Tag::Plus) => {
                    if self.strict() {
                        let c = match tag {
                            Some(Tag::Ellipsis) => '.',
                            Some(Tag::Semicolon) => ';',
                            _ => '+',
                        };
                        return Err(Error::new(ErrorKind::UnexpectedCharacter(c), self.position()));
                    }
                    self.take();
                },
                _ => {
                    break;
                },
            }
        }
        proof {
            if let Some((ev, sp)) = expect {
                if self.peeked is None {
                    lemma_canon_at_start(
                        self.lexer.src@,
                        self.canon_cursor(),
                        ev,
                        sp,
                        in_container_at(self.depth),
                    );
                }
            }
        }
        let tag = match self.peek_tag(false) {
            Err(e) => {
                return Err(e);
            },
            Ok(None) => {
                return Ok(None);
            },
            Ok(Some(t)) => t,
        };
        proof {
            if let Some((ev, sp)) = expect {
                lemma_value_follow_quiet(
                    self.lexer.src@,
                    self.canon_cursor() + layout(ev, sp).len(),
                    in_container_at(self.depth),
                );
            }
        }
        match tag {
            Tag::OpenBrace => self.parse_object(Ghost(expect)),
            Tag::OpenBracket => self.parse_array(Ghost(expect)),
            Tag::OpenParen => self.parse_group(),
            Tag::Str { truncated } => self.parse_string_value(truncated),
            Tag::Num { truncated } => {
                let spanned = self.take();
                if truncated && !self.opts.allows(Allow::NUM()) {
                    return Ok(None);
                }
                match spanned.token {
                    Token::Num { text, .. } => Ok(
                        Some(Value::Number(Number::from_normalized(string_of(text.as_slice())))),
                    ),
                    _ => Ok(None),
                }
            },
            Tag::Bool => {
                let spanned = self.take();
                match spanned.token {
                    Token::Bool(value) => Ok(Some(Value::Bool(value))),
                    _ => Ok(None),
                }
            },
            Tag::Null | Tag::Undefined => {
                self.take();
                Ok(Some(Value::Null))
            },
            Tag::Word { .. } => {
                proof {
                    let x = self.opts.repairs@;
                    assert(x == 0u32 ==> x & 4u32 != 4u32 && x & 64u32 != 64u32) by (bit_vector);
                }
                self.parse_word_value()
            },
            _ => Ok(None),
        }
    }

    /// A parenthesised value, as produced by JavaScript-ish serializers.
    pub fn parse_group(&mut self) -> (r: Result<Option<Value>, Error>)
        requires
            old(self).wf(),
            old(self).peeked_tag() == Some(Tag::OpenParen),
        ensures
            value_outcome(*old(self), *final(self), r),
            old(self).depth >= MAX_NESTING_DEPTH ==> (r matches Err(e) && e.spec_kind()
                == ErrorKind::DepthLimitExceeded && e.spec_position() == old(self).cursor()),
            old(self).depth < MAX_NESTING_DEPTH && old(self).opts.repairs@ == 0 ==> (r matches Err(e)
                && e.spec_kind() == ErrorKind::UnexpectedCharacter('(') && e.spec_position() == old(
                self,
            ).cursor()),
            old(self).depth < MAX_NESTING_DEPTH && old(self).opts.repairs@ != 0
                && old(self).empty_group() ==> ({
                let q = spec_skip_trivia(
                    old(self).opts,
                    old(self).lexer.src@,
                    old(self).lexer.pos as int,
                ).0;
                &&& r == Ok::<Option<Value>, Error>(None)
                &&& final(self).peeked is None
                &&& final(self).lexer.pos == q + 1
            }),
        decreases MAX_NESTING_DEPTH - old(self).depth, 3int,
    {
        if self.depth >= MAX_NESTING_DEPTH {
            return Err(Error::new(ErrorKind::DepthLimitExceeded, self.position()));
        }
        self.depth = self.depth + 1;
        let result = self.parse_group_inner();
        self.depth = self.depth - 1;
        result
    }

    /// The body of a group; the `(` is the lookahead token.
    pub fn parse_group_inner(&mut self) -> (r: Result<Option<Value>, Error>)
        requires
            old(self).wf(),
            old(self).depth >= 1,
            old(self).peeked_tag() == Some(Tag::OpenParen),
        ensures
            parser_step(*old(self), *final(self)),
            r matches Err(e) ==> e.spec_position() <= old(self).len(),
            r is Ok ==> final(self).cursor() > old(self).cursor(),
            r matches Ok(Some(v)) ==> depth(v) + old(self).depth <= MAX_NESTING_DEPTH
                && numbers_valid(v),
            old(self).opts.repairs@ == 0 ==> (r matches Err(e) && e.spec_kind()
                == ErrorKind::UnexpectedCharacter('(') && e.spec_position() == old(self).cursor()),
            old(self).opts.repairs@ != 0 && old(self).empty_group() ==> ({
                let q = spec_skip_trivia(
                    old(self).opts,
                    old(self).lexer.src@,
                    old(self).lexer.pos as int,
                ).0;
                &&& r == Ok::<Option<Value>, Error>(None)
                &&& final(self).peeked is None
                &&& final(self).lexer.pos == q + 1
            }),
        decreases MAX_NESTING_DEPTH - old(self).depth, 6int,
    {
        let ghost empty = old(self).opts.repairs@ != 0 && old(self).empty_group();
        let ghost q = spec_skip_trivia(old(self).opts, old(self).lexer.src@, old(self).lexer.pos as int).0;
        if self.strict() {
            // Parenthesised values are not JSON.
            return Err(Error::new(ErrorKind::UnexpectedCharacter('('), self.position()));
        }
        self.take();
        let mut inner = match self.parse_value(Ghost(None)) {
            Err(e) => {
                return Err(e);
            },
            Ok(v) => v,
        };
        loop
            invariant_except_break
                empty ==> inner is None && (self.peeked matches Some((sp, _)) && sp.token
                    is CloseParen && sp.start == q) && self.lexer.pos == q + 1,
            invariant
                parser_step(*old(self), *self),
                self.cursor() > old(self).cursor(),
                inner matches Some(v) ==> depth(v) + old(self).depth <= MAX_NESTING_DEPTH
                    && numbers_valid(v),
                old(self).opts.repairs@ != 0,
                empty == (old(self).opts.repairs@ != 0 && old(self).empty_group()),
                q == spec_skip_trivia(old(self).opts, old(self).lexer.src@, old(self).lexer.pos as int).0,
            ensures
                empty ==> inner is None && self.peeked is None && self.lexer.pos == q + 1,
            decreases self.len() - self.cursor(),
        {
            let tag = match self.peek_tag(false) {
                Err(e) => {
                    return Err(e);
                },
                Ok(t) => t,
            };
            match tag {
                Some(Tag::CloseParen) => {
                    self.take();
                    break;
                },
                Some(Tag::Semicolon) => {
                    self.take();
                },
                Some(t) => {
                    if t.starts_value() && inner.is_none() {
                        inner = match self.parse_value(Ghost(None)) {
                            Err(e) => {
                                return Err(e);
                            },
                            Ok(v) => v,
                        };
                    } else {
                        break;
                    }
                },
                None => {
                    break;
                },
            }
        }
        Ok(inner)
    }

    /// A string value, joined with following strings across `+`.
    pub fn parse_string_value(&mut self, truncated: bool) -> (r: Result<Option<Value>, Error>)
        requires
            old(self).wf(),
            old(self).peeked_tag() == Some(Tag::Str { truncated }),
        ensures
            parser_step(*old(self), *final(self)),
            r matches Err(e) ==> e.spec_position() <= old(self).len(),
            final(self).cursor() > old(self).cursor(),
            r matches Ok(Some(v)) ==> v is String,
            old(self).peeked_str() matches Some((text, tr)) ==> (!tr && string_end_ok(
                old(self).lexer.src@,
                old(self).lexer.pos as int,
            ) ==> (r matches Ok(Some(Value::String(s))) && s@ == text && final(self).peeked is None
                && final(self).lexer.pos == old(self).lexer.pos)),
    {
        let spanned = self.take();
        let start = spanned.start;
        let mut text = match spanned.token {
            Token::Str { text, .. } => text,
            _ => {
                return Ok(None);
            },
        };
        if truncated && !self.opts.repairs(Repairs::TRUNCATION()) {
            return Err(Error::new(ErrorKind::UnexpectedEnd, start));
        }
        if truncated && !self.opts.allows(Allow::STR()) {
            return Ok(None);
        }
        let ghost plain = !truncated && string_end_ok(old(self).lexer.src@, old(self).lexer.pos as int);
        let ghost text0 = text@;
        // `"long text" + "more text"`: the lookahead only lexes when a `+`
        // follows, so a following object key is not lexed in value context.
        loop
            invariant
                parser_step(*old(self), *self),
                self.cursor() > old(self).cursor(),
                plain == (!truncated && string_end_ok(old(self).lexer.src@, old(self).lexer.pos as int)),
                old(self).peeked_str() matches Some((_, tr)) ==> tr == truncated,
                plain ==> self.peeked is None && self.lexer.pos == old(self).lexer.pos && text@
                    == text0,
            decreases self.len() - self.cursor(),
        {
            if self.peeked.is_none() {
                match self.lexer.peek_significant_char() {
                    Some('+') => {},
                    _ => {
                        break;
                    },
                }
            }
            match self.peek_tag(false) {
                Err(e) => {
                    return Err(e);
                },
                Ok(Some(Tag::Plus)) => {},
                Ok(_) => {
                    break;
                },
            }
            if !self.opts.repairs(Repairs::CONCATENATION()) {
                return Err(Error::new(ErrorKind::UnexpectedCharacter('+'), self.position()));
            }
            // Only lex the token after `+` when it looks like a string.
            let next = self.lexer.peek_significant_char();
            let looks_string = match next {
                Some(c) => is_quote(c) || c == '&' || c == '\\',
                None => false,
            };
            if !looks_string {
                break;
            }
            self.take();
            match self.peek_tag(false) {
                Err(e) => {
                    return Err(e);
                },
                Ok(Some(Tag::Str { .. })) => {
                    let more = self.take();
                    match more.token {
                        Token::Str { text: next_text, .. } => {
                            let mut next_text = next_text;
                            text.append(&mut next_text);
                        },
                        _ => {},
                    }
                },
                Ok(_) => {
                    break;
                },
            }
        }
        Ok(Some(Value::String(string_of(text.as_slice()))))
    }

    /// A bare word: either a function-call wrapper or an unquoted string.
    pub fn parse_word_value(&mut self) -> (r: Result<Option<Value>, Error>)
        requires
            old(self).wf(),
            old(self).peeked_tag() matches Some(Tag::Word { .. }),
        ensures
            value_outcome(*old(self), *final(self), r),
            final(self).cursor() > old(self).cursor(),
            old(self).peeked matches Some((sp, _)) ==> (sp.token matches Token::Word {
                text,
                truncated,
            } ==> ({
                let s = old(self).lexer.src@;
                let q = spec_skip_trivia(old(self).opts, s, old(self).lexer.pos as int).0;
                let call = q < s.len() && s[q] == '(';
                let unquoted = spec_repairs(old(self).opts, 4);
                let keep = !truncated || (spec_repairs(old(self).opts, 1024)
                    && crate::options::spec_allows(old(self).opts, 1));
                &&& call && !spec_repairs(old(self).opts, 64) ==> (r matches Err(e) && e.spec_kind()
                    == ErrorKind::UnexpectedCharacter('(') && e.spec_position() == sp.start)
                &&& !call && !unquoted ==> (r matches Err(e) && e.spec_kind()
                    == ErrorKind::UnquotedValue && e.spec_position() == sp.start)
                &&& !call && unquoted && truncated && !spec_repairs(old(self).opts, 1024) ==> (
                r matches Err(e) && e.spec_kind() == ErrorKind::UnexpectedEnd && e.spec_position()
                    == sp.start)
                &&& !call && unquoted && !keep && spec_repairs(old(self).opts, 1024) ==> r
                    == Ok::<Option<Value>, Error>(None)
                &&& !call && unquoted && keep ==> (r matches Ok(Some(Value::String(t))) && t@
                    == text@)
                &&& !call ==> final(self).peeked is None && final(self).lexer.pos == old(
                    self,
                ).lexer.pos
            })),
        decreases MAX_NESTING_DEPTH - old(self).depth, 4int,
    {
        let spanned = self.take();
        let start = spanned.start;
        let (text, truncated) = match spanned.token {
            Token::Word { text, truncated } => (text, truncated),
            _ => {
                return Ok(None);
            },
        };
        // Only lex `(`: any other next char stays unlexed so a following
        // object key is scanned in key position.
        let next_is_call = if self.peeked.is_none() && self.lexer.peek_significant_char() != Some(
            '(',
        ) {
            false
        } else {
            match self.peek_tag(false) {
                Err(e) => {
                    return Err(e);
                },
                Ok(Some(Tag::OpenParen)) => true,
                Ok(_) => false,
            }
        };
        if next_is_call {
            if !self.opts.repairs(Repairs::CALLS()) {
                return Err(Error::new(ErrorKind::UnexpectedCharacter('('), start));
            }
            // `NumberLong(2)` and `cb({...})` both reduce to the inner value.
            return self.parse_group();
        }
        if !self.opts.repairs(Repairs::UNQUOTED()) {
            return Err(Error::new(ErrorKind::UnquotedValue, start));
        }
        // A word cut off by truncation is treated like a cut-off string.
        if truncated && !self.opts.repairs(Repairs::TRUNCATION()) {
            return Err(Error::new(ErrorKind::UnexpectedEnd, start));
        }
        if truncated && !self.opts.allows(Allow::STR()) {
            return Ok(None);
        }
        Ok(Some(Value::String(string_of(text.as_slice()))))
    }

    /// Reads an object key.
    pub fn parse_key(&mut self) -> (r: Result<KeyStep, Error>)
        requires
            old(self).wf(),
        ensures
            parser_step(*old(self), *final(self)),
            r matches Err(e) ==> e.spec_position() <= old(self).len(),
            r matches Ok(KeyStep::Key(_, _)) ==> final(self).cursor() > old(self).cursor(),
            r matches Ok(KeyStep::Skip) ==> final(self).cursor() > old(self).cursor(),
            old(self).peeked_str() matches Some((text, tr)) ==> (r matches Ok(KeyStep::Key(key, t))
                && key@ == text && t == tr && final(self).peeked is None && final(self).lexer == old(
                self,
            ).lexer),
    {
        let tag = match self.peek_tag(true) {
            Err(e) => {
                return Err(e);
            },
            Ok(None) => {
                return Ok(KeyStep::Stop);
            },
            Ok(Some(t)) => t,
        };
        match tag {
            Tag::Str { truncated } => {
                let spanned = self.take();
                match spanned.token {
                    Token::Str { text, .. } => Ok(KeyStep::Key(text, truncated)),
                    _ => Ok(KeyStep::Skip),
                }
            },
            Tag::Word { truncated } => {
                let spanned = self.take();
                let start = spanned.start;
                match spanned.token {
                    Token::Word { text, .. } => {
                        if !self.opts.repairs(Repairs::UNQUOTED()) {
                            return Err(Error::new(ErrorKind::UnquotedValue, start));
                        }
                        Ok(KeyStep::Key(text, truncated))
                    },
                    _ => Ok(KeyStep::Skip),
                }
            },
            Tag::Num { truncated } => {
                let spanned = self.take();
                match spanned.token {
                    Token::Num { text, .. } => Ok(KeyStep::Key(text, truncated)),
                    _ => Ok(KeyStep::Skip),
                }
            },
            Tag::Bool => {
                let spanned = self.take();
                match spanned.token {
                    Token::Bool(value) => {
                        let key = if value {
                            vec!['t', 'r', 'u', 'e']
                        } else {
                            vec!['f', 'a', 'l', 's', 'e']
                        };
                        Ok(KeyStep::Key(key, false))
                    },
                    _ => Ok(KeyStep::Skip),
                }
            },
            Tag::Null | Tag::Undefined => {
                self.take();
                Ok(KeyStep::Key(vec!['n', 'u', 'l', 'l'], false))
            },
            _ => {
                if self.strict() {
                    return Err(Error::new(ErrorKind::ExpectedObjectKey, self.position()));
                }
                self.take();
                Ok(KeyStep::Skip)
            },
        }
    }

    /// An object; the `{` is the lookahead token.
    pub fn parse_object(&mut self, Ghost(expect): Ghost<Option<(Value, bool)>>) -> (r: Result<
        Option<Value>,
        Error,
    >)
        requires
            old(self).wf(),
            old(self).peeked_tag() == Some(Tag::OpenBrace),
            expect matches Some((ev, sp)) ==> ev is Object && old(self).expects(ev, sp),
        ensures
            value_outcome(*old(self), *final(self), r),
            r matches Ok(Some(v)) ==> v is Object,
            expect matches Some((ev, sp)) ==> (r matches Ok(Some(w)) && same_text(w, ev)
                && final(self).peeked is None && final(self).lexer.pos == old(self).canon_cursor()
                + layout(ev, sp).len()),
            old(self).opts.repairs@ == 0 && r is Ok ==> (final(self).peeked is None && 1
                <= final(self).lexer.pos <= final(self).len() && final(self).lexer.src@[
                final(self).lexer.pos - 1] == '}'),
        decreases MAX_NESTING_DEPTH - old(self).depth, 3int,
    {
        if self.depth >= MAX_NESTING_DEPTH {
            return Err(Error::new(ErrorKind::DepthLimitExceeded, self.position()));
        }
        self.depth = self.depth + 1;
        self.take();
        let result = self.run_object_loop(Ghost(expect));
        self.depth = self.depth - 1;
        result
    }

    /// The member loop; the `{` has been consumed.
    #[verifier::rlimit(100)]
    #[verifier::spinoff_prover]
    pub fn run_object_loop(&mut self, Ghost(expect): Ghost<Option<(Value, bool)>>) -> (r: Result<
        Option<Value>,
        Error,
    >)
        requires
            old(self).wf(),
            old(self).depth >= 1,
            expect matches Some((ev, sp)) ==> ev is Object && old(self).entered(ev, sp),
        ensures
            loop_outcome(*old(self), *final(self), r),
            r matches Ok(Some(v)) ==> v is Object,
            expect matches Some((ev, sp)) ==> (r matches Ok(Some(w)) && same_text(w, ev)
                && final(self).peeked is None && final(self).lexer.pos == old(self).lexer.pos - 1
                + layout(ev, sp).len()),
            old(self).opts.repairs@ == 0 && r is Ok ==> (final(self).peeked is None && 1
                <= final(self).lexer.pos <= final(self).len() && final(self).lexer.src@[
                final(self).lexer.pos - 1] == '}'),
        decreases MAX_NESTING_DEPTH - old(self).depth, 6int,
    {
        let mut members: Vec<(String, Value)> = Vec::new();
        let mut closed = false;
        let mut first = true;
        let mut comma_pending = false;
        // On JSON text: the members expected, the layout, where the object
        // starts, and how many members were parsed.
        let ghost canon = expect is Some;
        let ghost ev = match expect {
            Some((v, _)) => v,
            None => Value::Null,
        };
        let ghost sp = match expect {
            Some((_, b)) => b,
            None => true,
        };
        let ghost ms: Seq<(String, Value)> = match ev {
            Value::Object(v) => v@,
            _ => Seq::empty(),
        };
        let ghost p = old(self).lexer.pos - 1;
        let ghost mut k: int = 0;
        loop
            invariant_except_break
                !closed,
                canon ==> k == members@.len() && 0 <= k <= ms.len() && render_members(
                    members@,
                    true,
                ) == render_members(ms.take(k), true) && render_members(members@, false)
                    == render_members(ms.take(k), false) && self.peeked is None && !closed && first
                    == (k == 0) && (comma_pending ==> 1 <= k < ms.len()) && self.lexer.pos == p + 1
                    + render_members(ms.take(k), sp).len() + (if comma_pending {
                    1int
                } else {
                    0int
                }),
            invariant
                parser_step(*old(self), *self),
                self.depth >= 1,
                members_depth(members@) + old(self).depth <= MAX_NESTING_DEPTH,
                members_valid(members@),
                canon == (expect is Some),
                canon ==> expect == Some((ev, sp)) && ev is Object && old(
                    self,
                ).entered(ev, sp) && ms == ev->Object_0@ && p == old(self).lexer.pos - 1 && layout(
                    ev,
                    sp,
                ) == seq!['{'] + render_members(ms, sp) + seq!['}'] && members_valid(ms) && depth(
                    ev,
                ) == 1 + members_depth(ms),
            ensures
                old(self).opts.repairs@ == 0 && closed ==> (self.peeked is None && 1
                    <= self.lexer.pos <= self.len() && self.lexer.src@[self.lexer.pos - 1] == '}'),
                canon ==> closed && render_members(members@, true) == render_members(ms, true)
                    && render_members(members@, false) == render_members(ms, false)
                    && self.peeked is None && self.lexer.pos == p + layout(ev, sp).len(),
            decreases self.len() - self.cursor(),
        {
            let ghost ks: int = if k == 0 {
                p + 1
            } else {
                p + 1 + render_members(ms.take(k), sp).len() + comma(sp).len()
            };
            proof {
                if canon {
                    lemma_object_layout(self.lexer.src@, p, ms, k, sp);
                    if k < ms.len() {
                        let ic = in_container_at(self.depth);
                        lemma_member_at(self.lexer.src@, ks, ms[k], sp);
                        let kv = Value::String(ms[k].0);
                        assert(canon_value_start(self.lexer.src@, ks, kv, ic));
                        lemma_canon_start_quiet(self.lexer.src@, ks, kv, ic);
                        if k == 0 || comma_pending {
                            assert(token_start(self.lexer.src@, self.lexer.pos as int) == ks);
                        }
                    }
                }
            }
            let tag = match self.peek_tag(true) {
                Err(e) => {
                    return Err(e);
                },
                Ok(None) => {
                    break;
                },
                Ok(Some(t)) => t,
            };
            if tag == Tag::CloseBrace || tag == Tag::CloseBracket {
                if tag != Tag::CloseBrace && self.strict() {
                    return Err(
                        Error::new(ErrorKind::UnexpectedCharacter(tag.punct_char()), self.position()),
                    );
                }
                if comma_pending && self.strict() {
                    return Err(Error::new(ErrorKind::TrailingComma, self.position()));
                }
                self.take();
                closed = true;
                proof {
                    if canon {
                        assert(ms.take(k) =~= ms);
                    }
                }
                break;
            }
            if tag == Tag::Comma {
                self.take();
                // A leading or doubled comma is dropped when repairing.
                if (first || comma_pending) && self.strict() {
                    return Err(Error::new(ErrorKind::TrailingComma, self.position()));
                }
                comma_pending = true;
                continue;
            }
            if tag == Tag::Semicolon || tag == Tag::Ellipsis || tag == Tag::Colon || tag
                == Tag::Plus {
                if self.strict() {
                    return Err(
                        Error::new(ErrorKind::UnexpectedCharacter(tag.punct_char()), self.position()),
                    );
                }
                self.take();
                continue;
            }
            if !first && !comma_pending && self.strict() {
                return Err(Error::new(ErrorKind::ExpectedComma, self.position()));
            }
            // A structural value at key position ends this object; the parent
            // decides what to do with it (`[{"i":1,{"i":2}]`).
            if tag == Tag::OpenBrace || tag == Tag::OpenBracket {
                break;
            }
            let (key, key_truncated) = match self.parse_key() {
                Err(e) => {
                    return Err(e);
                },
                Ok(KeyStep::Key(key, truncated)) => (key, truncated),
                Ok(KeyStep::Skip) => {
                    continue;
                },
                Ok(KeyStep::Stop) => {
                    break;
                },
            };
            if key_truncated {
                // A cut-off key follows the same policy as a cut-off value.
                if !self.opts.repairs(Repairs::TRUNCATION()) {
                    return Err(Error::new(ErrorKind::UnexpectedEnd, self.position()));
                }
                if !self.opts.allows(Allow::KEY()) {
                    break;
                }
            }
            let after_key = match self.peek_tag(false) {
                Err(e) => {
                    return Err(e);
                },
                Ok(t) => t,
            };
            match after_key {
                Some(Tag::Colon) => {
                    self.take();
                },
                Some(Tag::Comma) | Some(Tag::Semicolon) => {
                    push_null_member(&mut members, key.as_slice());
                    first = false;
                    comma_pending = false;
                    continue;
                },
                None => {
                    if self.opts.repairs(Repairs::TRUNCATION()) && self.opts.allows(Allow::KEY()) {
                        push_null_member(&mut members, key.as_slice());
                    }
                    break;
                },
                Some(other) => {
                    if other.starts_value() {
                        if self.strict() {
                            return Err(Error::new(ErrorKind::ExpectedColon, self.position()));
                        }
                        // A missing colon is repaired by inserting one.
                    } else {
                        self.take();
                        push_null_member(&mut members, key.as_slice());
                        first = false;
                        comma_pending = false;
                        continue;
                    }
                },
            }
            let ghost vq: int = ks + spec_quote(ms[k].0@).len() + colon(sp).len();
            proof {
                if canon {
                    assert(self.lexer.pos == ks + spec_quote(ms[k].0@).len() + 1);
                    assert(self.peeked is None);
                    let ic = in_container_at(self.depth);
                    lemma_members_index(ms, k);
                    assert(canon_at(self.lexer.src@, vq, ms[k].1, sp, ic));
                    lemma_canon_at_start(self.lexer.src@, vq, ms[k].1, sp, ic);
                    lemma_canon_start_quiet(self.lexer.src@, vq, ms[k].1, ic);
                    assert(token_start(self.lexer.src@, self.lexer.pos as int) == vq);
                }
            }
            let value_tag = match self.peek_tag(false) {
                Err(e) => {
                    return Err(e);
                },
                Ok(t) => t,
            };
            // Colon consumed but end of input: `{"foo":` becomes `{"foo": null}`.
            if value_tag.is_none() {
                if self.opts.repairs(Repairs::TRUNCATION()) {
                    push_null_member(&mut members, key.as_slice());
                }
                break;
            }
            // The value is missing entirely: insert `null` (`{"a":}`).
            let missing = match value_tag {
                Some(Tag::CloseBrace) | Some(Tag::CloseBracket) | Some(Tag::Comma) | Some(
                    Tag::Semicolon,
                ) => true,
                _ => false,
            };
            if missing && !self.strict() {
                push_null_member(&mut members, key.as_slice());
                first = false;
                comma_pending = false;
                continue;
            }
            let ghost member_value = if canon {
                Some((ms[k].1, sp))
            } else {
                None
            };
            match self.parse_value(Ghost(member_value)) {
                Err(e) => {
                    return Err(e);
                },
                Ok(Some(value)) => {
                    let name = string_of(key.as_slice());
                    proof {
                        lemma_members_depth_push(members@, (name, value));
                        if canon {
                            assert(members@.push((name, value)).drop_last() =~= members@);
                        }
                    }
                    members.push((name, value));
                },
                Ok(None) => {
                    break;
                },
            }
            first = false;
            comma_pending = false;
            proof {
                if canon {
                    let m = members@.last();
                    assert(m.0@ == ms[k].0@);
                    assert(render_member(m, true) == render_member(ms[k], true));
                    assert(render_member(m, false) == render_member(ms[k], false));
                    if k == 0 {
                        assert(ms.take(1) =~= seq![ms[0]]);
                        assert(members@ =~= seq![m]);
                    } else {
                        lemma_render_members_split(ms, k, true);
                        lemma_render_members_split(ms, k, false);
                    }
                    assert(render_members(members@, true) == render_members(ms.take(k + 1), true));
                    assert(render_members(members@, false) == render_members(ms.take(k + 1), false));
                    assert(self.lexer.pos == p + 1 + render_members(ms.take(k + 1), sp).len());
                    k = k + 1;
                }
            }
        }
        proof {
            let x = old(self).opts.repairs@;
            assert(x == 0u32 ==> x & 1024u32 != 1024u32) by (bit_vector);
        }
        let keep = match self.finish_collection(closed, Allow::OBJ()) {
            Err(e) => {
                return Err(e);
            },
            Ok(k) => k,
        };
        if keep {
            Ok(Some(Value::Object(members)))
        } else {
            Ok(None)
        }
    }

    /// An array; the `[` is the lookahead token.
    pub fn parse_array(&mut self, Ghost(expect): Ghost<Option<(Value, bool)>>) -> (r: Result<
        Option<Value>,
        Error,
    >)
        requires
            old(self).wf(),
            old(self).peeked_tag() == Some(Tag::OpenBracket),
            expect matches Some((ev, sp)) ==> ev is Array && old(self).expects(ev, sp),
        ensures
            value_outcome(*old(self), *final(self), r),
            r matches Ok(Some(v)) ==> v is Array,
            expect matches Some((ev, sp)) ==> (r matches Ok(Some(w)) && same_text(w, ev)
                && final(self).peeked is None && final(self).lexer.pos == old(self).canon_cursor()
                + layout(ev, sp).len()),
            expect is None && old(self).deep_ahead(MAX_NESTING_DEPTH - old(self).depth + 1) ==> (
            r matches Err(e) && e.spec_kind() == ErrorKind::DepthLimitExceeded),
            old(self).opts.repairs@ == 0 && r is Ok ==> (final(self).peeked is None && 1
                <= final(self).lexer.pos <= final(self).len() && final(self).lexer.src@[
                final(self).lexer.pos - 1] == ']'),
        decreases MAX_NESTING_DEPTH - old(self).depth, 3int,
    {
        if self.depth >= MAX_NESTING_DEPTH {
            return Err(Error::new(ErrorKind::DepthLimitExceeded, self.position()));
        }
        proof {
            if expect is None && self.deep_ahead(MAX_NESTING_DEPTH - self.depth + 1) {
                if let Some((sp, _)) = &self.peeked {
                    lemma_bracket_run_split(
                        self.lexer.src@,
                        sp.start as int,
                        MAX_NESTING_DEPTH - self.depth + 1,
                    );
                }
            }
        }
        self.depth = self.depth + 1;
        self.take();
        let result = self.run_array_loop(Ghost(expect));
        self.depth = self.depth - 1;
        result
    }

    /// The element loop; the `[` has been consumed.
    #[verifier::rlimit(100)]
    #[verifier::spinoff_prover]
    pub fn run_array_loop(&mut self, Ghost(expect): Ghost<Option<(Value, bool)>>) -> (r: Result<
        Option<Value>,
        Error,
    >)
        requires
            old(self).wf(),
            old(self).depth >= 1,
            expect matches Some((ev, sp)) ==> ev is Array && old(self).entered(ev, sp),
        ensures
            loop_outcome(*old(self), *final(self), r),
            r matches Ok(Some(v)) ==> v is Array,
            expect matches Some((ev, sp)) ==> (r matches Ok(Some(w)) && same_text(w, ev)
                && final(self).peeked is None && final(self).lexer.pos == old(self).lexer.pos - 1
                + layout(ev, sp).len()),
            expect is None && old(self).peeked is None && bracket_run(
                old(self).lexer.src@,
                old(self).lexer.pos as int,
                MAX_NESTING_DEPTH - old(self).depth + 1,
            ) ==> (r matches Err(e) && e.spec_kind() == ErrorKind::DepthLimitExceeded),
            old(self).opts.repairs@ == 0 && r is Ok ==> (final(self).peeked is None && 1
                <= final(self).lexer.pos <= final(self).len() && final(self).lexer.src@[
                final(self).lexer.pos - 1] == ']'),
        decreases MAX_NESTING_DEPTH - old(self).depth, 6int,
    {
        let ghost deep0 = expect is None && old(self).peeked is None && bracket_run(
            old(self).lexer.src@,
            old(self).lexer.pos as int,
            MAX_NESTING_DEPTH - old(self).depth + 1,
        );
        let mut items: Vec<Value> = Vec::new();
        let mut closed = false;
        let mut first = true;
        let mut comma_pending = false;
        // On JSON text: the elements expected, the layout, where the array
        // starts, and how many elements were parsed.
        let ghost canon = expect is Some;
        let ghost ev = match expect {
            Some((v, _)) => v,
            None => Value::Null,
        };
        let ghost sp = match expect {
            Some((_, b)) => b,
            None => true,
        };
        let ghost its: Seq<Value> = match ev {
            Value::Array(v) => v@,
            _ => Seq::empty(),
        };
        let ghost p = old(self).lexer.pos - 1;
        let ghost mut k: int = 0;
        loop
            invariant_except_break
                !closed,
                canon ==> k == items@.len() && 0 <= k <= its.len() && render_items(items@, true)
                    == render_items(its.take(k), true) && render_items(items@, false)
                    == render_items(its.take(k), false) && self.peeked is None && !closed && first
                    == (k == 0) && (comma_pending ==> 1 <= k < its.len()) && self.lexer.pos == p + 1
                    + render_items(its.take(k), sp).len() + (if comma_pending {
                    1int
                } else {
                    0int
                }),
            invariant
                parser_step(*old(self), *self),
                self.depth >= 1,
                items_depth(items@) + old(self).depth <= MAX_NESTING_DEPTH,
                items_valid(items@),
                canon == (expect is Some),
                canon ==> expect == Some((ev, sp)) && ev is Array && old(self).entered(
                    ev,
                    sp,
                ) && its == ev->Array_0@ && p == old(self).lexer.pos - 1 && layout(ev, sp) == seq![
                    '[',
                ] + render_items(its, sp) + seq![']'] && items_valid(its) && depth(ev) == 1
                    + items_depth(its),
                deep0 == (expect is None && old(self).peeked is None && bracket_run(
                    old(self).lexer.src@,
                    old(self).lexer.pos as int,
                    MAX_NESTING_DEPTH - old(self).depth + 1,
                )),
                deep0 ==> first && self.peeked is None && self.lexer.pos == old(self).lexer.pos,
            ensures
                old(self).opts.repairs@ == 0 && closed ==> (self.peeked is None && 1
                    <= self.lexer.pos <= self.len() && self.lexer.src@[self.lexer.pos - 1] == ']'),
                canon ==> closed && render_items(items@, true) == render_items(its, true)
                    && render_items(items@, false) == render_items(its, false) && self.peeked is None
                    && self.lexer.pos == p + layout(ev, sp).len(),
                !deep0,
            decreases self.len() - self.cursor(),
        {
            proof {
                if canon {
                    lemma_array_layout(self.lexer.src@, p, its, k, sp);
                    if k < its.len() && (k == 0 || comma_pending) {
                        let q = if k == 0 {
                            p + 1
                        } else {
                            p + 1 + render_items(its.take(k), sp).len() + comma(sp).len()
                        };
                        let ic = in_container_at(self.depth);
                        lemma_items_index(its, k);
                        assert(canon_at(self.lexer.src@, q, its[k], sp, ic));
                        lemma_canon_at_start(self.lexer.src@, q, its[k], sp, ic);
                        lemma_canon_start_quiet(self.lexer.src@, q, its[k], ic);
                        assert(token_start(self.lexer.src@, self.lexer.pos as int) == q);
                    }
                }
                if deep0 {
                    lemma_bracket_run_split(
                        self.lexer.src@,
                        self.lexer.pos as int,
                        MAX_NESTING_DEPTH - self.depth + 1,
                    );
                }
            }
            let tag = match self.peek_tag(false) {
                Err(e) => {
                    return Err(e);
                },
                Ok(None) => {
                    break;
                },
                Ok(Some(t)) => t,
            };
            if tag == Tag::CloseBracket || tag == Tag::CloseBrace {
                if tag != Tag::CloseBracket && self.strict() {
                    return Err(
                        Error::new(ErrorKind::UnexpectedCharacter(tag.punct_char()), self.position()),
                    );
                }
                if comma_pending && self.strict() {
                    return Err(Error::new(ErrorKind::TrailingComma, self.position()));
                }
                self.take();
                closed = true;
                proof {
                    if canon {
                        assert(its.take(k) =~= its);
                    }
                }
                break;
            }
            if tag == Tag::Comma {
                self.take();
                if (first || comma_pending) && self.strict() {
                    return Err(Error::new(ErrorKind::TrailingComma, self.position()));
                }
                comma_pending = true;
                continue;
            }
            if tag == Tag::Semicolon || tag == Tag::Ellipsis || tag == Tag::Colon || tag
                == Tag::Plus {
                if self.strict() {
                    return Err(
                        Error::new(ErrorKind::UnexpectedCharacter(tag.punct_char()), self.position()),
                    );
                }
                self.take();
                continue;
            }
            if !first && !comma_pending && self.strict() {
                return Err(Error::new(ErrorKind::ExpectedComma, self.position()));
            }
            let ghost item = if canon {
                Some((its[k], sp))
            } else {
                None
            };
            match self.parse_value(Ghost(item)) {
                Err(e) => {
                    return Err(e);
                },
                Ok(Some(value)) => {
                    proof {
                        lemma_items_depth_push(items@, value);
                        if canon {
                            assert(items@.push(value).drop_last() =~= items@);
                            if k == 0 {
                                assert(its.take(1) =~= seq![its[0]]);
                                assert(items@.push(value) =~= seq![value]);
                            } else {
                                lemma_render_items_split(its, k, true);
                                lemma_render_items_split(its, k, false);
                            }
                        }
                    }
                    items.push(value);
                    first = false;
                    comma_pending = false;
                    proof {
                        if canon {
                            k = k + 1;
                        }
                    }
                },
                Ok(None) => {
                    break;
                },
            }
        }
        proof {
            let x = old(self).opts.repairs@;
            assert(x == 0u32 ==> x & 1024u32 != 1024u32) by (bit_vector);
        }
        let keep = match self.finish_collection(closed, Allow::ARR()) {
            Err(e) => {
                return Err(e);
            },
            Ok(k) => k,
        };
        if keep {
            Ok(Some(Value::Array(items)))
        } else {
            Ok(None)
        }
    }
}


/// A character at which the lexer reads a bare word.
pub open spec fn word_start_char(opts: Options, c: char) -> bool {
    &&& spec_punct_token(c) is None
    &&& c != '.'
    &&& c != '/'
    &&& !(c == '\\' && spec_repairs(opts, 4))
    &&& c != '&'
    &&& !spec_is_quote(c)
    &&& c != '-'
    &&& !spec_is_digit(c)
}

/// The document from `pos` on is one bare word that reading keeps as an
/// unquoted string, followed by trivia and top-level noise only: the word's
/// text.
pub open spec fn lone_word_at(opts: Options, s: Seq<char>, pos: int) -> Option<Seq<char>> {
    let q = spec_skip_trivia(opts, s, pos).0;
    let e = spec_word_end(s, q, false);
    let text = s.subrange(q, e);
    let truncated = forall|j: int| e <= j < s.len() ==> spec_is_ws(#[trigger] s[j]);
    let end = if e < s.len() && s[e] == '"' {
        e + 1
    } else {
        e
    };
    if q < s.len() && word_start_char(opts, s[q]) && spec_word_keyword(
        text,
        truncated,
        false,
        opts,
    ) is None && spec_repairs(opts, 4) && (!truncated || (spec_repairs(opts, 1024)
        && crate::options::spec_allows(opts, 1))) && noise_only(opts, s, end) {
        Some(text)
    } else {
        None
    }
}

/// The document from `pos` on is one bare word that reads as a keyword
/// (`true`, `None`, a cut-off `tru` and the like), followed by trivia and
/// top-level noise only (nothing at all when reading is strict): the value
/// the keyword stands for.
pub open spec fn lone_keyword_at(opts: Options, s: Seq<char>, pos: int) -> Option<Value> {
    let q = spec_skip_trivia(opts, s, pos).0;
    let e = spec_word_end(s, q, false);
    let text = s.subrange(q, e);
    let truncated = forall|j: int| e <= j < s.len() ==> spec_is_ws(#[trigger] s[j]);
    let end = if e < s.len() && s[e] == '"' {
        e + 1
    } else {
        e
    };
    if q < s.len() && word_start_char(opts, s[q]) && noise_only(opts, s, end) && (opts.repairs@
        != 0 || end == s.len()) {
        match spec_word_keyword(text, truncated, false, opts) {
            Some(Token::Bool(b)) => Some(Value::Bool(b)),
            Some(Token::Null) => Some(Value::Null),
            Some(Token::Undefined) => Some(Value::Null),
            _ => None,
        }
    } else {
        None
    }
}

/// What a token read leaves: the error, or the lookahead token if any.
pub open spec fn fill_result(r: Result<(), Error>, p: Parser) -> Result<Option<Spanned>, Error> {
    match r {
        Err(e) => Err(e),
        Ok(()) => match p.peeked {
            Some((sp, _)) => Ok(Some(sp)),
            None => Ok(None),
        },
    }
}

/// A quote character at which the lexer reads a string under `opts`.
pub open spec fn string_start_char(opts: Options, c: char) -> bool {
    spec_is_quote(c) && (c == '"' || spec_repairs(opts, 256))
}

/// The document from `pos` on is one string, read to the very end of the
/// input and not cut off: its text.
pub open spec fn lone_string_at(opts: Options, s: Seq<char>, pos: int) -> Option<Seq<char>> {
    let q = spec_skip_trivia(opts, s, pos).0;
    if 0 <= q < s.len() && string_start_char(opts, s[q]) {
        let op = Opener { ch: s[q], len: 1, from_entity: false, family: spec_quote_family(s[q]) };
        match spec_str_run(
            s,
            opts,
            op,
            false,
            q + 1,
            str_state(
                (q + 1) as usize,
                (q + 1) as usize,
                false,
                Seq::empty(),
                false,
                false,
                false,
                0,
                false,
            ),
        ) {
            StrStep::Done(st) => if !st.truncated && st.pos == s.len() {
                Some(spec_str_text(s, q + 1, st))
            } else {
                None
            },
            _ => None,
        }
    } else {
        None
    }
}

/// At `q` the lexer reads a number.
pub open spec fn number_start(s: Seq<char>, q: int) -> bool {
    s[q] == '-' || spec_is_digit(s[q]) || (s[q] == '.' && !spec_starts_with(
        s,
        q,
        seq!['.', '.', '.'],
    ))
}

/// The document from `pos` on is one number that reading keeps, followed by
/// trivia and top-level noise only (nothing at all when reading is strict):
/// its (normalized) text.
pub open spec fn lone_number_at(opts: Options, s: Seq<char>, pos: int) -> Option<Seq<char>> {
    let q = spec_skip_trivia(opts, s, pos).0;
    if 0 <= q < s.len() && number_start(s, q) {
        match spec_scan_number(opts, s, q) {
            NumberScan::Number { text, truncated, end } => if (!truncated
                || crate::options::spec_allows(opts, 2)) && noise_only(opts, s, end) && (
            opts.repairs@ != 0 || end == s.len()) {
                Some(text)
            } else {
                None
            },
            _ => None,
        }
    } else {
        None
    }
}

/// The document from `pos` on is one number with a leading zero, kept
/// verbatim as a string that runs to the end of the input: its text.
pub open spec fn lone_verbatim_number_at(opts: Options, s: Seq<char>, pos: int) -> Option<Seq<char>> {
    let q = spec_skip_trivia(opts, s, pos).0;
    if 0 <= q < s.len() && number_start(s, q) {
        match spec_scan_number(opts, s, q) {
            NumberScan::Verbatim { end } => if end == s.len() {
                Some(s.subrange(q, end))
            } else {
                None
            },
            _ => None,
        }
    } else {
        None
    }
}

/// The document from `pos` on is one bare word cut off by the end of the
/// input while truncation repair is off: where the word starts.
pub open spec fn lone_cut_word_at(opts: Options, s: Seq<char>, pos: int) -> Option<int> {
    let q = spec_skip_trivia(opts, s, pos).0;
    let e = spec_word_end(s, q, false);
    let text = s.subrange(q, e);
    let truncated = forall|j: int| e <= j < s.len() ==> spec_is_ws(#[trigger] s[j]);
    if q < s.len() && word_start_char(opts, s[q]) && spec_word_keyword(text, truncated, false, opts)
        is None && spec_repairs(opts, 4) && truncated && !spec_repairs(opts, 1024) && spec_skip_trivia(
        opts,
        s,
        e,
    ).0 >= s.len() {
        Some(q)
    } else {
        None
    }
}

/// From `pos` on, `s` holds numbers that each start a new line, followed by
/// trivia and top-level noise only: their texts, in order.
pub open spec fn ndjson_numbers_from(opts: Options, s: Seq<char>, pos: int) -> Option<
    Seq<Seq<char>>,
>
    decreases s.len() - pos,
{
    let (q, nl) = spec_skip_trivia(opts, s, pos);
    if noise_only(opts, s, pos) {
        Some(Seq::empty())
    } else if 0 <= pos <= q < s.len() && nl && number_start(s, q) {
        match spec_scan_number(opts, s, q) {
            NumberScan::Number { text, truncated, end } => if !truncated && q < end <= s.len() {
                match ndjson_numbers_from(opts, s, end) {
                    Some(rest) => Some(seq![text] + rest),
                    None => None,
                }
            } else {
                None
            },
            _ => None,
        }
    } else {
        None
    }
}

/// One step of a run of numbers on separate lines: the first number, and
/// the run after it.
pub proof fn lemma_ndjson_step(opts: Options, s: Seq<char>, pos: int)
    requires
        ndjson_numbers_from(opts, s, pos) is Some,
        !noise_only(opts, s, pos),
    ensures
        ({
            let (q, nl) = spec_skip_trivia(opts, s, pos);
            &&& 0 <= pos <= q < s.len()
            &&& nl
            &&& number_start(s, q)
            &&& spec_scan_number(opts, s, q) matches NumberScan::Number { text, truncated, end }
                && !truncated && q < end <= s.len() && ndjson_numbers_from(opts, s, end) is Some
                && ndjson_numbers_from(opts, s, pos) == Some(
                seq![text] + ndjson_numbers_from(opts, s, end)->0,
            )
        }),
{
}

/// The first number of a document of numbers on separate lines, and the run
/// after it.
pub proof fn lemma_ndjson_at_step(opts: Options, s: Seq<char>, pos: int)
    requires
        ndjson_numbers_at(opts, s, pos) is Some,
    ensures
        ({
            let q = spec_skip_trivia(opts, s, pos).0;
            &&& 0 <= q < s.len()
            &&& number_start(s, q)
            &&& spec_repairs(opts, 2048)
            &&& spec_scan_number(opts, s, q) matches NumberScan::Number { text, truncated, end }
                && !truncated && end <= s.len() && ndjson_numbers_from(opts, s, end) is Some
                && ndjson_numbers_at(opts, s, pos) == Some(
                seq![text] + ndjson_numbers_from(opts, s, end)->0,
            )
        }),
{
}

/// Values that are all numbers nest no deeper than zero.
pub proof fn lemma_numbers_depth(vals: Seq<Value>)
    requires
        forall|i: int| 0 <= i < vals.len() ==> #[trigger] vals[i] is Number,
    ensures
        crate::value::items_depth(vals) == 0,
    decreases vals.len(),
{
    if vals.len() > 0 {
        assert forall|i: int| 0 <= i < vals.drop_last().len() implies #[trigger] vals.drop_last()[i]
            is Number by {
            assert(vals.drop_last()[i] == vals[i]);
        }
        lemma_numbers_depth(vals.drop_last());
        assert(vals[vals.len() - 1] is Number);
        assert(crate::value::depth(vals.last()) == 0);
    }
}

/// The document from `pos` on is numbers on separate lines and NDJSON repair
/// is on: their texts, in order.
pub open spec fn ndjson_numbers_at(opts: Options, s: Seq<char>, pos: int) -> Option<Seq<Seq<char>>> {
    let q = spec_skip_trivia(opts, s, pos).0;
    if 0 <= q < s.len() && number_start(s, q) && spec_repairs(opts, 2048) {
        match spec_scan_number(opts, s, q) {
            NumberScan::Number { text, truncated, end } => if !truncated && end <= s.len() {
                match ndjson_numbers_from(opts, s, end) {
                    Some(rest) => Some(seq![text] + rest),
                    None => None,
                }
            } else {
                None
            },
            _ => None,
        }
    } else {
        None
    }
}

/// `values` are numbers with the texts `texts`, in order.
pub open spec fn numbers_with_texts(values: Seq<Value>, texts: Seq<Seq<char>>) -> bool {
    &&& values.len() == texts.len()
    &&& forall|i: int|
        0 <= i < values.len() ==> (#[trigger] values[i] matches Value::Number(n) && n@ == texts[i])
}

/// A character that top-level reading skips as noise between values when
/// repairing: a separator, a closer, `;`, `+`, or `:`.
pub open spec fn is_top_noise_char(c: char) -> bool {
    c == ',' || c == ';' || c == '+' || c == ':' || c == ')' || c == '}' || c == ']'
}

/// From `pos` on, `s` holds only trivia and top-level noise characters.
pub open spec fn noise_only(opts: Options, s: Seq<char>, pos: int) -> bool
    decreases s.len() - pos,
{
    let q = spec_skip_trivia(opts, s, pos).0;
    if q >= s.len() {
        true
    } else if q < pos {
        false
    } else {
        is_top_noise_char(s[q]) && noise_only(opts, s, q + 1)
    }
}

/// All values fit in the nesting limit.
pub open spec fn all_within_limit(values: Seq<Value>) -> bool {
    forall|i: int|
        0 <= i < values.len() ==> depth(#[trigger] values[i]) <= MAX_NESTING_DEPTH
            && numbers_valid(values[i])
}

impl<'a> Parser<'a> {
    /// Parses the top level: the first value, then any further values
    /// separated by commas or newlines (NDJSON).
    #[verifier::rlimit(60)]
    #[verifier::spinoff_prover]
    pub fn parse_top(&mut self, values: &mut Vec<Value>, Ghost(expect): Ghost<Option<(Value, bool)>>) -> (r:
        Result<(), Error>)
        requires
            old(self).wf(),
            old(self).depth == 0,
            old(values)@.len() == 0,
            expect matches Some((ev, sp)) ==> old(self).peeked is None && old(self).expects(ev, sp),
        ensures
            parser_step(*old(self), *final(self)),
            r matches Err(e) ==> e.spec_position() <= old(self).len(),
            r is Ok ==> final(values)@.len() >= 1 && all_within_limit(final(values)@),
            expect matches Some((ev, sp)) ==> (r is Ok && final(values)@.len() == 1 && same_text(
                final(values)@[0],
                ev,
            )),
            old(self).at_end() ==> (r matches Err(e) && e.spec_kind() == ErrorKind::NoValueFound),
            expect is None && old(self).peeked is None && bracket_run(
                old(self).lexer.src@,
                old(self).lexer.pos as int,
                MAX_NESTING_DEPTH + 1,
            ) ==> (r matches Err(e) && e.spec_kind() == ErrorKind::DepthLimitExceeded),
            old(self).peeked is None && old(self).closer_ahead() ==> (r matches Err(e)
                && e.spec_kind() == ErrorKind::NoValueFound && e.spec_position() == old(
                self,
            ).cursor()),
            old(self).peeked is None ==> (lone_word_at(
                old(self).opts,
                old(self).lexer.src@,
                old(self).lexer.pos as int,
            ) matches Some(text) ==> (r is Ok && final(values)@.len() == 1
                && (final(values)@[0] matches Value::String(w) && w@ == text))),
            old(self).peeked is None ==> (lone_string_at(
                old(self).opts,
                old(self).lexer.src@,
                old(self).lexer.pos as int,
            ) matches Some(text) ==> (r is Ok && final(values)@.len() == 1
                && (final(values)@[0] matches Value::String(w) && w@ == text))),
            old(self).peeked is None ==> (lone_number_at(
                old(self).opts,
                old(self).lexer.src@,
                old(self).lexer.pos as int,
            ) matches Some(text) ==> (r is Ok && final(values)@.len() == 1
                && (final(values)@[0] matches Value::Number(n) && n@ == text))),
            old(self).peeked is None ==> (lone_verbatim_number_at(
                old(self).opts,
                old(self).lexer.src@,
                old(self).lexer.pos as int,
            ) matches Some(text) ==> (r is Ok && final(values)@.len() == 1
                && (final(values)@[0] matches Value::String(w) && w@ == text))),
            old(self).peeked is None ==> (lone_cut_word_at(
                old(self).opts,
                old(self).lexer.src@,
                old(self).lexer.pos as int,
            ) matches Some(q) ==> (r matches Err(e) && e.spec_kind() == ErrorKind::UnexpectedEnd
                && e.spec_position() == q)),
            old(self).peeked is None ==> (ndjson_numbers_at(
                old(self).opts,
                old(self).lexer.src@,
                old(self).lexer.pos as int,
            ) matches Some(texts) ==> (r is Ok && numbers_with_texts(final(values)@, texts))),
            old(self).peeked is None ==> (lone_keyword_at(
                old(self).opts,
                old(self).lexer.src@,
                old(self).lexer.pos as int,
            ) matches Some(v) ==> (r is Ok && final(values)@ == seq![v])),
            old(self).peeked is None && old(self).opts.repairs@ == 0 && old(self).paren_ahead() ==> (
            r matches Err(e) && e.spec_kind() == ErrorKind::UnexpectedCharacter('(')
                && e.spec_position() == spec_skip_trivia(
                old(self).opts,
                old(self).lexer.src@,
                old(self).lexer.pos as int,
            ).0),
    {
        let position = self.position();
        proof {
            let x = self.opts.repairs@;
            assert(x & 4u32 == 4u32 ==> x != 0u32) by (bit_vector);
        }
        proof {
            if expect is None && self.peeked is None && bracket_run(
                self.lexer.src@,
                self.lexer.pos as int,
                MAX_NESTING_DEPTH + 1,
            ) {
                lemma_bracket_run_split(self.lexer.src@, self.lexer.pos as int, MAX_NESTING_DEPTH + 1);
            }
        }
        proof {
            if let Some((ev, sp)) = expect {
                lemma_canon_at_start(
                    self.lexer.src@,
                    self.canon_cursor(),
                    ev,
                    sp,
                    in_container_at(self.depth),
                );
            }
        }
        let ghost ndjson = old(self).peeked is None && ndjson_numbers_at(
            old(self).opts,
            old(self).lexer.src@,
            old(self).lexer.pos as int,
        ) is Some;
        proof {
            if ndjson {
                lemma_ndjson_at_step(old(self).opts, old(self).lexer.src@, old(self).lexer.pos as int);
            }
        }
        match self.peek_tag(false) {
            Err(e) => {
                return Err(e);
            },
            Ok(_) => {},
        }
        proof {
            if ndjson {
                assert(self.peeked matches Some((sp, _)) && sp.token is Num);
            }
        }
        // A first value that is a multi-word bare string is prose: prose
        // must go through `extract`, not wrap into an NDJSON array.
        let prose_first = match &self.peeked {
            Some((spanned, _)) => match &spanned.token {
                Token::Word { text, .. } => any_unicode_ws(text.as_slice()),
                _ => false,
            },
            None => false,
        };
        let first = match self.parse_value(Ghost(expect)) {
            Err(e) => {
                return Err(e);
            },
            Ok(None) => {
                return Err(Error::new(ErrorKind::NoValueFound, position));
            },
            Ok(Some(v)) => v,
        };
        values.push(first);
        proof {
            assert(all_within_limit(values@));
            if ndjson {
                let texts = ndjson_numbers_at(
                    old(self).opts,
                    old(self).lexer.src@,
                    old(self).lexer.pos as int,
                )->0;
                assert(!prose_first);
                assert(values@.len() == 1);
                assert(values@[0] matches Value::Number(n) && n@ == texts[0]);
                assert(self.peeked is None);
            }
        }
        let r = self.top_continue(values, prose_first);
        proof {
            if ndjson {
                let texts = ndjson_numbers_at(
                    old(self).opts,
                    old(self).lexer.src@,
                    old(self).lexer.pos as int,
                )->0;
                if r is Ok {
                    assert(values@ =~= values@.take(1) + values@.skip(1));
                    assert forall|i: int| 0 <= i < values@.len() implies (#[trigger] values@[i]
                        matches Value::Number(n) && n@ == texts[i]) by {
                        if i >= 1 {
                            assert(values@[i] == values@.skip(1)[i - 1]);
                        } else {
                            assert(values@[0] == values@.take(1)[0]);
                        }
                    }
                }
            }
        }
        r
    }

    /// The top-level loop after the first value.
    #[verifier::rlimit(80)]
    #[verifier::spinoff_prover]
    pub fn top_continue(&mut self, values: &mut Vec<Value>, prose_first: bool) -> (r: Result<
        (),
        Error,
    >)
        requires
            old(self).wf(),
            old(self).depth == 0,
            old(values)@.len() >= 1,
            all_within_limit(old(values)@),
        ensures
            parser_step(*old(self), *final(self)),
            r matches Err(e) ==> e.spec_position() <= old(self).len(),
            final(values)@.len() >= 1,
            all_within_limit(final(values)@),
            old(self).peeked is None && old(self).lexer.pos == old(self).len() ==> r is Ok
                && final(values)@ == old(values)@,
            final(values)@.len() >= old(values)@.len(),
            final(values)@.take(old(values)@.len() as int) == old(values)@,
            r is Ok && !(spec_repairs(old(self).opts, 2048) && !prose_first) ==> ({
                &&& final(self).peeked is None
                &&& final(self).lexer.pos == final(self).len()
                &&& final(values)@ == old(values)@
            }),
            old(self).peeked matches Some((sp, t)) ==> (t.spec_starts_value() && (!sp.newline_before
                || prose_first || !spec_repairs(old(self).opts, 2048)) ==> (r matches Err(e)
                && e.spec_kind() == ErrorKind::TrailingValue && e.spec_position() == old(
                self,
            ).cursor())),
            old(self).peeked matches Some((_, t)) ==> (t.spec_top_noise() && old(self).opts.repairs@
                == 0 ==> (r matches Err(e) && e.spec_kind() == ErrorKind::UnexpectedCharacter(
                t.spec_punct_char(),
            ) && e.spec_position() == old(self).cursor())),
            old(self).opts.repairs@ != 0 && old(self).peeked is None && noise_only(
                old(self).opts,
                old(self).lexer.src@,
                old(self).lexer.pos as int,
            ) ==> ({
                &&& r is Ok
                &&& final(values)@ == old(values)@
                &&& final(self).peeked is None
                &&& final(self).lexer.pos == final(self).len()
            }),
            spec_repairs(old(self).opts, 2048) && !prose_first && old(self).peeked is None
                ==> (ndjson_numbers_from(
                old(self).opts,
                old(self).lexer.src@,
                old(self).lexer.pos as int,
            ) matches Some(texts) ==> ({
                &&& r is Ok
                &&& final(values)@.take(old(values)@.len() as int) == old(values)@
                &&& numbers_with_texts(final(values)@.skip(old(values)@.len() as int), texts)
            })),
    {
        let ghost texts = ndjson_numbers_from(
            old(self).opts,
            old(self).lexer.src@,
            old(self).lexer.pos as int,
        );
        let ghost nd = spec_repairs(old(self).opts, 2048) && !prose_first && old(self).peeked is None
            && texts is Some;
        let ghost n0 = old(values)@.len() as int;
        let ghost mut k: int = 0;
        proof {
            let x = old(self).opts.repairs@;
            assert(x & 2048u32 == 2048u32 ==> x != 0u32) by (bit_vector);
        }
        let ghost quiet = old(self).opts.repairs@ != 0 && old(self).peeked is None && noise_only(
            old(self).opts,
            old(self).lexer.src@,
            old(self).lexer.pos as int,
        );
        let ghost stop = old(self).peeked matches Some((sp, t)) && ((t.spec_starts_value() && (
        !sp.newline_before || prose_first || !spec_repairs(old(self).opts, 2048))) || (
        t.spec_top_noise() && old(self).opts.repairs@ == 0));
        // Nothing is left after the first value.
        let ghost at_end = old(self).peeked is None && old(self).lexer.pos == old(self).len();
        // Whether further top-level values may be collected.
        let ghost more = spec_repairs(old(self).opts, 2048) && !prose_first;
        loop
            invariant_except_break
                quiet ==> self.peeked is None && noise_only(
                    self.opts,
                    self.lexer.src@,
                    self.lexer.pos as int,
                ),
                nd ==> self.peeked is None && 0 <= k <= texts->0.len() && ndjson_numbers_from(
                    self.opts,
                    self.lexer.src@,
                    self.lexer.pos as int,
                ) == Some(texts->0.skip(k)) && values@.len() == n0 + k && numbers_with_texts(
                    values@.skip(n0),
                    texts->0.take(k),
                ),
            invariant
                texts == ndjson_numbers_from(
                    old(self).opts,
                    old(self).lexer.src@,
                    old(self).lexer.pos as int,
                ),
                nd == (spec_repairs(old(self).opts, 2048) && !prose_first && old(self).peeked is None
                    && texts is Some),
                n0 == old(values)@.len(),
                nd ==> old(self).opts.repairs@ != 0,
                parser_step(*old(self), *self),
                self.depth == 0,
                values@.len() >= 1,
                all_within_limit(values@),
                at_end == (old(self).peeked is None && old(self).lexer.pos == old(self).len()),
                at_end ==> self.peeked is None && self.lexer.pos == self.len() && values@ == old(
                    values,
                )@,
                more == (spec_repairs(old(self).opts, 2048) && !prose_first),
                values@.len() >= old(values)@.len(),
                values@.take(old(values)@.len() as int) == old(values)@,
                !more ==> values@ == old(values)@,
                stop == (old(self).peeked matches Some((sp, t)) && ((t.spec_starts_value() && (
                !sp.newline_before || prose_first || !spec_repairs(old(self).opts, 2048))) || (
                t.spec_top_noise() && old(self).opts.repairs@ == 0))),
                stop ==> *self == *old(self),
                quiet == (old(self).opts.repairs@ != 0 && old(self).peeked is None && noise_only(
                    old(self).opts,
                    old(self).lexer.src@,
                    old(self).lexer.pos as int,
                )),
                quiet ==> values@ == old(values)@,
            ensures
                !more ==> self.peeked is None && self.lexer.pos == self.len(),
                !stop,
                quiet ==> self.peeked is None && self.lexer.pos == self.len() && values@ == old(
                    values,
                )@,
                nd ==> self.peeked is None && self.lexer.pos == self.len() && numbers_with_texts(
                    values@.skip(n0),
                    texts->0,
                ),
            decreases self.len() - self.cursor(),
        {
            // Between top-level values only separators, stray closers, and
            // punctuation noise appear; repair mode drops the noise.
            let ghost iteration_start = self.cursor();
            let ghost it = *self;
            let ghost vals_it = values@;
            let ghost noise_now = nd && noise_only(it.opts, it.lexer.src@, it.lexer.pos as int);
            let ghost num_now = nd && !noise_now;
            let ghost q = spec_skip_trivia(it.opts, it.lexer.src@, it.lexer.pos as int).0;
            proof {
                if num_now {
                    lemma_ndjson_step(it.opts, it.lexer.src@, it.lexer.pos as int);
                }
            }
            let mut pending_comma = false;
            loop
                invariant_except_break
                    quiet ==> self.peeked is None && noise_only(
                        self.opts,
                        self.lexer.src@,
                        self.lexer.pos as int,
                    ),
                    noise_now ==> self.peeked is None && noise_only(
                        self.opts,
                        self.lexer.src@,
                        self.lexer.pos as int,
                    ),
                    num_now ==> *self == it && !pending_comma,
                invariant
                    noise_now == (nd && noise_only(it.opts, it.lexer.src@, it.lexer.pos as int)),
                    num_now == (nd && !noise_now),
                    q == spec_skip_trivia(it.opts, it.lexer.src@, it.lexer.pos as int).0,
                    nd ==> it.peeked is None && ndjson_numbers_from(
                        it.opts,
                        it.lexer.src@,
                        it.lexer.pos as int,
                    ) is Some && spec_repairs(it.opts, 2048),
                    values@ == vals_it,
                    texts == ndjson_numbers_from(
                        old(self).opts,
                        old(self).lexer.src@,
                        old(self).lexer.pos as int,
                    ),
                    nd == (spec_repairs(old(self).opts, 2048) && !prose_first && old(self).peeked
                        is None && texts is Some),
                    nd ==> old(self).opts.repairs@ != 0,
                    num_now ==> !noise_only(it.opts, it.lexer.src@, it.lexer.pos as int),
                    parser_step(*old(self), *self),
                    self.cursor() >= iteration_start,
                    self.depth == 0,
                    values@.len() >= 1,
                    all_within_limit(values@),
                    at_end == (old(self).peeked is None && old(self).lexer.pos == old(self).len()),
                    at_end ==> self.peeked is None && self.lexer.pos == self.len() && values@ == old(
                        values,
                    )@ && !pending_comma,
                    more == (spec_repairs(old(self).opts, 2048) && !prose_first),
                    values@.len() >= old(values)@.len(),
                    values@.take(old(values)@.len() as int) == old(values)@,
                    !more ==> values@ == old(values)@,
                    stop == (old(self).peeked matches Some((sp, t)) && ((t.spec_starts_value() && (
                    !sp.newline_before || prose_first || !spec_repairs(old(self).opts, 2048))) || (
                    t.spec_top_noise() && old(self).opts.repairs@ == 0))),
                    stop ==> *self == *old(self) && !pending_comma,
                    quiet == (old(self).opts.repairs@ != 0 && old(self).peeked is None && noise_only(
                        old(self).opts,
                        old(self).lexer.src@,
                        old(self).lexer.pos as int,
                    )),
                    quiet ==> values@ == old(values)@,
                ensures
                    quiet ==> self.peeked is None && self.lexer.pos == self.len(),
                    noise_now ==> self.peeked is None && self.lexer.pos == self.len(),
                    num_now ==> !pending_comma && (self.peeked matches Some((sp, _))
                        && sp.newline_before == spec_skip_trivia(
                        it.opts,
                        it.lexer.src@,
                        it.lexer.pos as int,
                    ).1 && number_token_is(
                        spec_scan_number(it.opts, it.lexer.src@, q),
                        it.lexer.src@,
                        q,
                        sp.token,
                        self.lexer.pos as int,
                    )),
                    (self.peeked is None && self.cursor() == self.len()) || (self.peeked_tag() matches Some(
                        t,
                    ) && t.spec_starts_value()),
                decreases self.len() - self.cursor(),
            {
                let tag = match self.peek_tag(false) {
                    Err(e) => {
                        return Err(e);
                    },
                    Ok(t) => t,
                };
                match tag {
                    Some(Tag::Comma) => {
                        self.take();
                        if pending_comma && self.strict() {
                            return Err(Error::new(ErrorKind::TrailingComma, self.position()));
                        }
                        pending_comma = true;
                    },
                    Some(Tag::Semicolon) | Some(Tag::Ellipsis) | Some(Tag::Plus) | Some(
                        Tag::Colon,
                    ) | Some(Tag::CloseParen) | Some(Tag::CloseBrace) | Some(Tag::CloseBracket) => {
                        if self.strict() {
                            let c = match tag {
                                Some(t) => t.punct_char(),
                                None => '\0',
                            };
                            return Err(
                                Error::new(ErrorKind::UnexpectedCharacter(c), self.position()),
                            );
                        }
                        self.take();
                    },
                    _ => {
                        break;
                    },
                }
            }
            let next_is_value = match self.peek_tag(false) {
                Err(e) => {
                    return Err(e);
                },
                Ok(Some(t)) => t.starts_value(),
                Ok(None) => false,
            };
            if !next_is_value {
                if pending_comma && self.strict() {
                    return Err(Error::new(ErrorKind::TrailingComma, self.position()));
                }
                break;
            }
            // A second top-level value needs a comma or newline before it,
            // unless the first value was prose.
            let separated = if pending_comma {
                true
            } else {
                match self.peek_newline() {
                    Err(e) => {
                        return Err(e);
                    },
                    Ok(b) => b,
                }
            };
            if !separated || prose_first || !self.opts.repairs(Repairs::NDJSON()) {
                return Err(Error::new(ErrorKind::TrailingValue, self.position()));
            }
            match self.parse_value(Ghost(None)) {
                Err(e) => {
                    return Err(e);
                },
                Ok(Some(value)) => {
                    let ghost prev = values@;
                    values.push(value);
                    proof {
                        if nd {
                            lemma_ndjson_step(it.opts, it.lexer.src@, it.lexer.pos as int);
                            assert(texts->0.skip(k).len() >= 1);
                            assert(texts->0.skip(k)[0] == texts->0[k]);
                            assert(values@.skip(n0) =~= prev.skip(n0).push(value));
                            assert(texts->0.take(k + 1) =~= texts->0.take(k).push(texts->0[k]));
                            assert(texts->0.skip(k + 1) =~= texts->0.skip(k).drop_first());
                            k = k + 1;
                        }
                        assert(values@.take(old(values)@.len() as int) =~= prev.take(
                            old(values)@.len() as int,
                        ));
                        assert forall|i: int| 0 <= i < values@.len() implies depth(
                            #[trigger] values@[i],
                        ) <= MAX_NESTING_DEPTH && numbers_valid(values@[i]) by {
                            if i < prev.len() {
                                assert(values@[i] == prev[i]);
                            }
                        }
                    }
                },
                Ok(None) => {
                    break;
                },
            }
        }
        Ok(())
    }

    /// Parses the whole input into one value, wrapping several top-level
    /// values into an array when NDJSON repair is enabled.
    pub fn parse_document(&mut self, Ghost(expect): Ghost<Option<(Value, bool)>>) -> (r: Result<
        Value,
        Error,
    >)
        requires
            old(self).wf(),
            old(self).depth == 0,
            expect matches Some((ev, sp)) ==> old(self).peeked is None && old(self).expects(ev, sp),
        ensures
            parser_step(*old(self), *final(self)),
            r matches Err(e) ==> e.spec_position() <= old(self).len(),
            r matches Ok(v) ==> depth(v) <= MAX_NESTING_DEPTH && numbers_valid(v),
            expect matches Some((ev, sp)) ==> (r matches Ok(w) && same_text(w, ev)),
            old(self).at_end() ==> (r matches Err(e) && e.spec_kind() == ErrorKind::NoValueFound),
            expect is None && old(self).peeked is None && bracket_run(
                old(self).lexer.src@,
                old(self).lexer.pos as int,
                MAX_NESTING_DEPTH + 1,
            ) ==> (r matches Err(e) && e.spec_kind() == ErrorKind::DepthLimitExceeded),
            old(self).peeked is None && old(self).closer_ahead() ==> (r matches Err(e)
                && e.spec_kind() == ErrorKind::NoValueFound && e.spec_position() == old(
                self,
            ).cursor()),
            old(self).peeked is None && old(self).opts.repairs@ == 0 && old(self).paren_ahead() ==> (
            r matches Err(e) && e.spec_kind() == ErrorKind::UnexpectedCharacter('(')
                && e.spec_position() == spec_skip_trivia(
                old(self).opts,
                old(self).lexer.src@,
                old(self).lexer.pos as int,
            ).0),
            old(self).peeked is None ==> (lone_word_at(
                old(self).opts,
                old(self).lexer.src@,
                old(self).lexer.pos as int,
            ) matches Some(text) ==> (r matches Ok(Value::String(w)) && w@ == text)),
            old(self).peeked is None ==> (lone_string_at(
                old(self).opts,
                old(self).lexer.src@,
                old(self).lexer.pos as int,
            ) matches Some(text) ==> (r matches Ok(Value::String(w)) && w@ == text)),
            old(self).peeked is None ==> (lone_number_at(
                old(self).opts,
                old(self).lexer.src@,
                old(self).lexer.pos as int,
            ) matches Some(text) ==> (r matches Ok(Value::Number(n)) && n@ == text)),
            old(self).peeked is None ==> (lone_verbatim_number_at(
                old(self).opts,
                old(self).lexer.src@,
                old(self).lexer.pos as int,
            ) matches Some(text) ==> (r matches Ok(Value::String(w)) && w@ == text)),
            old(self).peeked is None ==> (lone_cut_word_at(
                old(self).opts,
                old(self).lexer.src@,
                old(self).lexer.pos as int,
            ) matches Some(q) ==> (r matches Err(e) && e.spec_kind() == ErrorKind::UnexpectedEnd
                && e.spec_position() == q)),
            old(self).peeked is None ==> (ndjson_numbers_at(
                old(self).opts,
                old(self).lexer.src@,
                old(self).lexer.pos as int,
            ) matches Some(texts) ==> ({
                &&& texts.len() == 1 ==> (r matches Ok(Value::Number(n)) && n@ == texts[0])
                &&& texts.len() >= 2 ==> (r matches Ok(Value::Array(items)) && numbers_with_texts(
                    items@,
                    texts,
                ))
            })),
            old(self).peeked is None ==> (lone_keyword_at(
                old(self).opts,
                old(self).lexer.src@,
                old(self).lexer.pos as int,
            ) matches Some(v) ==> r == Ok::<Value, Error>(v)),
    {
        let mut values: Vec<Value> = Vec::new();
        match self.parse_top(&mut values, Ghost(expect)) {
            Err(e) => {
                return Err(e);
            },
            Ok(()) => {},
        }
        if values.len() == 1 {
            proof {
                assert(depth(values@[0]) <= MAX_NESTING_DEPTH && numbers_valid(values@[0]));
            }
            let v = values.pop().unwrap();
            return Ok(v);
        }
        // Wrapping several values in one array adds a level the container
        // parser never counted.
        proof {
            lemma_items_depth_bound(values@);
            if old(self).peeked is None && ndjson_numbers_at(
                old(self).opts,
                old(self).lexer.src@,
                old(self).lexer.pos as int,
            ) is Some {
                let texts = ndjson_numbers_at(
                    old(self).opts,
                    old(self).lexer.src@,
                    old(self).lexer.pos as int,
                )->0;
                assert forall|i: int| 0 <= i < values@.len() implies #[trigger] values@[i]
                    is Number by {
                    assert(values@[i] matches Value::Number(n) && n@ == texts[i]);
                }
                lemma_numbers_depth(values@);
            }
        }
        let max_member = max_depth(values.as_slice());
        if max_member >= MAX_NESTING_DEPTH {
            return Err(Error::new(ErrorKind::DepthLimitExceeded, self.lexer.pos));
        }
        Ok(Value::Array(values))
    }
}

/// The nesting depth of a value within the limit.
pub fn value_depth(v: &Value) -> (r: usize)
    requires
        depth(*v) <= MAX_NESTING_DEPTH,
    ensures
        r == depth(*v),
    decreases v,
{
    match v {
        Value::Array(items) => 1 + max_depth(items.as_slice()),
        Value::Object(members) => {
            let mut m: usize = 0;
            let mut i: usize = 0;
            while i < members.len()
                invariant
                    i <= members@.len(),
                    depth(*v) <= MAX_NESTING_DEPTH,
                    *v == Value::Object(*members),
                    m == members_depth(members@.take(i as int)),
                decreases members@.len() - i,
            {
                proof {
                    assert(members@.take(i + 1).drop_last() =~= members@.take(i as int));
                    lemma_members_depth_prefix(members@, i + 1);
                }
                let d = value_depth(&members[i].1);
                if d > m {
                    m = d;
                }
                i = i + 1;
            }
            proof {
                assert(members@.take(members@.len() as int) =~= members@);
            }
            1 + m
        },
        _ => 0,
    }
}

/// The deepest value of a slice, each within the limit.
pub fn max_depth(items: &[Value]) -> (r: usize)
    requires
        items_depth(items@) <= MAX_NESTING_DEPTH,
    ensures
        r == items_depth(items@),
    decreases items@, 0int,
{
    let mut m: usize = 0;
    let mut i: usize = 0;
    while i < items.len()
        invariant
            i <= items@.len(),
            items_depth(items@) <= MAX_NESTING_DEPTH,
            m == items_depth(items@.take(i as int)),
        decreases items@.len() - i,
    {
        proof {
            assert(items@.take(i + 1).drop_last() =~= items@.take(i as int));
            lemma_items_depth_prefix(items@, i + 1);
        }
        let d = value_depth(&items[i]);
        if d > m {
            m = d;
        }
        i = i + 1;
    }
    proof {
        assert(items@.take(items@.len() as int) =~= items@);
    }
    m
}

proof fn lemma_items_depth_bound(s: Seq<Value>)
    requires
        all_within_limit(s),
    ensures
        items_depth(s) <= MAX_NESTING_DEPTH,
        items_valid(s),
    decreases s.len(),
{
    if s.len() > 0 {
        assert(all_within_limit(s.drop_last())) by {
            assert forall|i: int| 0 <= i < s.drop_last().len() implies depth(
                #[trigger] s.drop_last()[i],
            ) <= MAX_NESTING_DEPTH && numbers_valid(s.drop_last()[i]) by {
                assert(s.drop_last()[i] == s[i]);
            }
        }
        lemma_items_depth_bound(s.drop_last());
        assert(depth(s[s.len() - 1]) <= MAX_NESTING_DEPTH && numbers_valid(s[s.len() - 1]));
    }
}

proof fn lemma_items_depth_prefix(s: Seq<Value>, k: int)
    requires
        0 <= k <= s.len(),
    ensures
        items_depth(s.take(k)) <= items_depth(s),
        k > 0 ==> depth(s[k - 1]) <= items_depth(s),
    decreases s.len(),
{
    if s.len() == 0 {
    } else if k == s.len() {
        assert(s.take(k) =~= s);
        assert(s.drop_last().take(k - 1) =~= s.drop_last());
    } else {
        lemma_items_depth_prefix(s.drop_last(), k);
        assert(s.drop_last().take(k) =~= s.take(k));
        if k > 0 {
            assert(s.drop_last()[k - 1] == s[k - 1]);
        }
    }
}

proof fn lemma_members_depth_prefix(s: Seq<(String, Value)>, k: int)
    requires
        0 <= k <= s.len(),
    ensures
        members_depth(s.take(k)) <= members_depth(s),
        k > 0 ==> depth(s[k - 1].1) <= members_depth(s),
    decreases s.len(),
{
    if s.len() == 0 {
    } else if k == s.len() {
        assert(s.take(k) =~= s);
    } else {
        lemma_members_depth_prefix(s.drop_last(), k);
        assert(s.drop_last().take(k) =~= s.take(k));
        if k > 0 {
            assert(s.drop_last()[k - 1] == s[k - 1]);
        }
    }
}


/// The scanner state of `structural_depth`: current nesting, deepest
/// nesting so far, inside a string, after a backslash in a string.
pub type NestState = (nat, nat, bool, bool);

/// One character of the nesting scan.
pub open spec fn nest_step(st: NestState, c: char) -> NestState {
    let (d, m, in_str, esc) = st;
    if in_str {
        if esc {
            (d, m, true, false)
        } else if c == '\\' {
            (d, m, true, true)
        } else if c == '"' {
            (d, m, false, false)
        } else {
            (d, m, true, false)
        }
    } else if c == '"' {
        (d, m, true, false)
    } else if c == '[' || c == '{' {
        (d + 1, if m >= d + 1 {
            m
        } else {
            d + 1
        }, false, false)
    } else if c == ']' || c == '}' {
        (if d > 0 {
            (d - 1) as nat
        } else {
            0
        }, m, false, false)
    } else {
        (d, m, false, false)
    }
}

/// The nesting scan of `s` from state `st`.
pub open spec fn nest_run(st: NestState, s: Seq<char>) -> NestState
    decreases s.len(),
{
    if s.len() == 0 {
        st
    } else {
        nest_step(nest_run(st, s.drop_last()), s.last())
    }
}

/// The scanner state of `structural_depth` after reading `s`.
pub open spec fn spec_nesting_state(s: Seq<char>) -> NestState {
    nest_run((0, 0, false, false), s)
}

/// Scanning a concatenation scans one part after the other.
proof fn lemma_nest_concat(st: NestState, a: Seq<char>, b: Seq<char>)
    ensures
        nest_run(st, a + b) == nest_run(nest_run(st, a), b),
    decreases b.len(),
{
    if b.len() == 0 {
        assert(a + b =~= a);
    } else {
        lemma_nest_concat(st, a, b.drop_last());
        assert((a + b).drop_last() =~= a + b.drop_last());
        assert((a + b).last() == b.last());
    }
}

/// Outside strings, characters that are neither quotes nor brackets nor
/// braces leave the scan where it was.
proof fn lemma_nest_plain(d: nat, m: nat, s: Seq<char>)
    requires
        forall|i: int|
            0 <= i < s.len() ==> #[trigger] s[i] != '"' && s[i] != '[' && s[i] != '{' && s[i]
                != ']' && s[i] != '}',
    ensures
        nest_run((d, m, false, false), s) == (d, m, false, false),
    decreases s.len(),
{
    if s.len() > 0 {
        lemma_nest_plain(d, m, s.drop_last());
        assert(s.last() == s[s.len() - 1]);
    }
}

/// Inside a string, the escape of one character leaves the scan inside
/// the string.
proof fn lemma_nest_escape(d: nat, m: nat, c: char)
    ensures
        nest_run((d, m, true, false), spec_escape_char(c)) == (d, m, true, false),
{
    let st = (d, m, true, false);
    let u = spec_escape_char(c);
    assert(nest_run(st, Seq::<char>::empty()) == st);
    if u.len() == 1 {
        assert(u.drop_last() =~= Seq::<char>::empty());
    } else if u.len() == 2 {
        assert(u.drop_last() =~= seq!['\\']);
        assert(seq!['\\'].drop_last() =~= Seq::<char>::empty());
        assert(nest_run(st, seq!['\\']) == (d, m, true, true));
    } else {
        let code = c as u32;
        assert(u == seq!['\\', 'u', '0', '0', spec_hex_digit(code / 16), spec_hex_digit(code % 16)]);
        let x = spec_hex_digit(code / 16);
        let y = spec_hex_digit(code % 16);
        assert(x != '"' && x != '\\' && y != '"' && y != '\\');
        let u1 = seq!['\\'];
        let u2 = u1.push('u');
        let u3 = u2.push('0');
        let u4 = u3.push('0');
        let u5 = u4.push(x);
        assert(u1.drop_last() =~= Seq::<char>::empty());
        assert(nest_run(st, u1) == (d, m, true, true));
        assert(u2.drop_last() =~= u1);
        assert(nest_run(st, u2) == st);
        assert(u3.drop_last() =~= u2);
        assert(nest_run(st, u3) == st);
        assert(u4.drop_last() =~= u3);
        assert(nest_run(st, u4) == st);
        assert(u5.drop_last() =~= u4);
        assert(nest_run(st, u5) == st);
        assert(u =~= u5.push(y));
        assert(u.drop_last() =~= u5);
    }
}

/// Inside a string, its escaped body leaves the scan inside the string.
proof fn lemma_nest_string_body(d: nat, m: nat, t: Seq<char>)
    ensures
        nest_run((d, m, true, false), spec_escape_body(t)) == (d, m, true, false),
    decreases t.len(),
{
    if t.len() > 0 {
        lemma_nest_string_body(d, m, t.drop_last());
        lemma_nest_concat(
            (d, m, true, false),
            spec_escape_body(t.drop_last()),
            spec_escape_char(t.last()),
        );
        lemma_nest_escape(d, m, t.last());
    }
}

/// A quoted string leaves the scan where it was.
proof fn lemma_nest_quote(d: nat, m: nat, t: Seq<char>)
    ensures
        nest_run((d, m, false, false), spec_quote(t)) == (d, m, false, false),
{
    let b = spec_escape_body(t);
    lemma_nest_concat((d, m, false, false), seq!['"'], b);
    lemma_nest_concat((d, m, false, false), seq!['"'] + b, seq!['"']);
    assert(nest_run((d, m, false, false), seq!['"']) == (d, m, true, false)) by {
        assert(seq!['"'].drop_last() =~= Seq::<char>::empty());
        assert(nest_run((d, m, false, false), Seq::<char>::empty()) == (d, m, false, false));
    }
    lemma_nest_string_body(d, m, t);
    assert(nest_run((d, m, true, false), seq!['"']) == (d, m, false, false)) by {
        assert(seq!['"'].drop_last() =~= Seq::<char>::empty());
        assert(nest_run((d, m, true, false), Seq::<char>::empty()) == (d, m, true, false));
    }
}

/// A bracketed body: the opening bracket goes one level deeper, the body
/// is scanned there, and the closing bracket comes back.
proof fn lemma_nest_container(d: nat, m: nat, open: char, body: Seq<char>, close: char)
    requires
        open == '[' || open == '{',
        close == ']' || close == '}',
    ensures
        nest_run((d, m, false, false), seq![open] + body + seq![close]) == ({
            let (d1, m1, s1, e1) = nest_run((d + 1, nat_max(m, d + 1), false, false), body);
            nest_step((d1, m1, s1, e1), close)
        }),
{
    let st = (d, m, false, false);
    lemma_nest_concat(st, seq![open], body);
    lemma_nest_concat(st, seq![open] + body, seq![close]);
    assert(seq![open].drop_last() =~= Seq::<char>::empty());
    assert(seq![close].drop_last() =~= Seq::<char>::empty());
    assert(nest_run(st, Seq::<char>::empty()) == st);
    assert(nest_run(st, seq![open]) == (d + 1, nat_max(m, d + 1), false, false));
    let mid = nest_run(st, seq![open] + body);
    assert(nest_run(mid, Seq::<char>::empty()) == mid);
}

/// The larger of two numbers.
pub open spec fn nat_max(a: nat, b: nat) -> nat {
    if a >= b {
        a
    } else {
        b
    }
}

/// Scanning the text of a value at nesting `d` reaches its depth below `d`.
proof fn lemma_nest_layout(v: Value, spaced: bool, d: nat, m: nat)
    requires
        m >= d,
        numbers_valid(v),
    ensures
        nest_run((d, m, false, false), layout(v, spaced)) == (d, nat_max(m, d + depth(v)), false, false),
    decreases v,
{
    match v {
        Value::Null => {
            assert(layout(v, spaced) == seq!['n', 'u', 'l', 'l']);
            lemma_nest_plain(d, m, seq!['n', 'u', 'l', 'l']);
            assert(d + depth(v) == d);
        },
        Value::Bool(b) => {
            lemma_nest_plain(d, m, layout(v, spaced));
        },
        Value::Number(n) => {
            lemma_number_chars(n@);
            lemma_nest_plain(d, m, n@);
        },
        Value::String(t) => {
            lemma_nest_quote(d, m, t@);
        },
        Value::Array(items) => {
            let body = render_items(items@, spaced);
            lemma_nest_container(d, m, '[', body, ']');
            lemma_nest_items(items@, spaced, (d + 1) as nat, nat_max(m, d + 1));
        },
        Value::Object(members) => {
            let body = render_members(members@, spaced);
            lemma_nest_container(d, m, '{', body, '}');
            lemma_nest_members(members@, spaced, (d + 1) as nat, nat_max(m, d + 1));
        },
    }
}

/// Scanning the text of elements at nesting `d` reaches their depth below `d`.
proof fn lemma_nest_items(s: Seq<Value>, spaced: bool, d: nat, m: nat)
    requires
        m >= d,
        items_valid(s),
    ensures
        nest_run((d, m, false, false), render_items(s, spaced)) == (d, nat_max(
            m,
            d + items_depth(s),
        ), false, false),
    decreases s,
{
    if s.len() == 1 {
        lemma_nest_layout(s[0], spaced, d, m);
        assert(s.drop_last() =~= Seq::<Value>::empty());
    } else if s.len() > 1 {
        let a = render_items(s.drop_last(), spaced);
        let c = comma(spaced);
        lemma_nest_items(s.drop_last(), spaced, d, m);
        let m1 = nat_max(m, d + items_depth(s.drop_last()));
        lemma_nest_concat((d, m, false, false), a, c);
        lemma_nest_concat((d, m, false, false), a + c, layout(s.last(), spaced));
        lemma_nest_plain(d, m1, c);
        lemma_nest_layout(s.last(), spaced, d, m1);
    } else {
        assert(nest_run((d, m, false, false), render_items(s, spaced)) == (d, m, false, false));
    }
}

/// Scanning the text of members at nesting `d` reaches their depth below `d`.
proof fn lemma_nest_members(s: Seq<(String, Value)>, spaced: bool, d: nat, m: nat)
    requires
        m >= d,
        members_valid(s),
    ensures
        nest_run((d, m, false, false), render_members(s, spaced)) == (d, nat_max(
            m,
            d + members_depth(s),
        ), false, false),
    decreases s,
{
    if s.len() >= 1 {
        let mm = s.last();
        let q = spec_quote(mm.0@);
        let k = colon(spaced);
        let rv = layout(mm.1, spaced);
        let (a, m1) = if s.len() > 1 {
            (render_members(s.drop_last(), spaced) + comma(spaced), nat_max(
                m,
                d + members_depth(s.drop_last()),
            ))
        } else {
            (Seq::<char>::empty(), m)
        };
        if s.len() > 1 {
            lemma_nest_members(s.drop_last(), spaced, d, m);
            lemma_nest_concat((d, m, false, false), render_members(s.drop_last(), spaced), comma(
                spaced,
            ));
            lemma_nest_plain(d, m1, comma(spaced));
        } else {
            assert(s.drop_last() =~= Seq::<(String, Value)>::empty());
        }
        assert(nest_run((d, m, false, false), a) == (d, m1, false, false));
        assert(render_members(s, spaced) =~= a + q + k + rv) by {
            assert(render_member(mm, spaced) == q + k + rv);
            if s.len() == 1 {
                assert(mm == s[0]);
            }
        }
        lemma_nest_concat((d, m, false, false), a, q);
        lemma_nest_quote(d, m1, mm.0@);
        lemma_nest_concat((d, m, false, false), a + q, k);
        lemma_nest_plain(d, m1, k);
        lemma_nest_concat((d, m, false, false), a + q + k, rv);
        lemma_nest_layout(mm.1, spaced, d, m1);
    } else {
        assert(nest_run((d, m, false, false), render_members(s, spaced)) == (d, m, false, false));
    }
}

/// The nesting scan never lowers the deepest nesting seen.
proof fn lemma_nest_max_mono(st: NestState, s: Seq<char>)
    ensures
        nest_run(st, s).1 >= st.1,
    decreases s.len(),
{
    if s.len() > 0 {
        lemma_nest_max_mono(st, s.drop_last());
    }
}

/// Text that starts with `k` opening brackets nests at least `k` deep.
pub proof fn lemma_bracket_prefix_depth(text: Seq<char>, k: nat)
    requires
        k <= text.len(),
        forall|j: int| 0 <= j < k ==> #[trigger] text[j] == '[',
    ensures
        spec_structural_depth(text) >= k,
    decreases k,
{
    let init: NestState = (0, 0, false, false);
    let a = text.take(k as int);
    assert(nest_run(init, a) == (k, k, false, false)) by {
        lemma_bracket_run_state(text, k);
    }
    assert(text =~= a + text.skip(k as int));
    lemma_nest_concat(init, a, text.skip(k as int));
    lemma_nest_max_mono(nest_run(init, a), text.skip(k as int));
}

/// The nesting scan over `k` opening brackets is `k` deep.
proof fn lemma_bracket_run_state(text: Seq<char>, k: nat)
    requires
        k <= text.len(),
        forall|j: int| 0 <= j < k ==> #[trigger] text[j] == '[',
    ensures
        nest_run((0, 0, false, false), text.take(k as int)) == (k, k, false, false),
    decreases k,
{
    if k > 0 {
        lemma_bracket_run_state(text, (k - 1) as nat);
        assert(text.take(k as int).drop_last() =~= text.take(k - 1));
        assert(text.take(k as int).last() == text[k - 1]);
    } else {
        assert(text.take(0) =~= Seq::<char>::empty());
    }
}

/// The structural depth of the text of a value is its depth.
pub proof fn lemma_structural_depth_of_layout(v: Value, spaced: bool)
    requires
        numbers_valid(v),
    ensures
        spec_structural_depth(layout(v, spaced)) == depth(v),
{
    lemma_nest_layout(v, spaced, 0, 0);
}

/// Maximum nesting of brackets and braces outside strings in `s`.
pub open spec fn spec_structural_depth(s: Seq<char>) -> nat {
    spec_nesting_state(s).1
}

/// Maximum structural nesting of `text` (brackets and braces outside strings).
pub fn structural_depth(text: &[char]) -> (r: usize)
    ensures
        r == spec_structural_depth(text@),
{
    let mut d: usize = 0;
    let mut m: usize = 0;
    let mut in_str = false;
    let mut esc = false;
    let mut i: usize = 0;
    while i < text.len()
        invariant
            i <= text@.len(),
            (d as nat, m as nat, in_str, esc) == spec_nesting_state(text@.take(i as int)),
            d <= i,
            m <= i,
        decreases text@.len() - i,
    {
        proof {
            assert(text@.take(i + 1).drop_last() =~= text@.take(i as int));
        }
        let c = text[i];
        if in_str {
            if esc {
                esc = false;
            } else if c == '\\' {
                esc = true;
            } else if c == '"' {
                in_str = false;
            }
        } else if c == '"' {
            in_str = true;
        } else if c == '[' || c == '{' {
            d = d + 1;
            if d > m {
                m = d;
            }
        } else if c == ']' || c == '}' {
            if d > 0 {
                d = d - 1;
            }
        }
        i = i + 1;
    }
    proof {
        assert(text@.take(text@.len() as int) =~= text@);
    }
    m
}

} // verus!
