//! Parse errors with byte-accurate positions.
use vstd::prelude::*;
use crate::text::{push_char, push_str};

verus! {

/// What went wrong while repairing or parsing.
#[derive(Debug, Clone, PartialEq, Eq, Structural)]
#[non_exhaustive]
pub enum ErrorKind {
    /// The input ended before a complete value was read.
    UnexpectedEnd,
    /// A character appeared where the grammar does not allow it.
    UnexpectedCharacter(char),
    /// An object key was expected but something else was found.
    ExpectedObjectKey,
    /// A `:` was expected between an object key and its value.
    ExpectedColon,
    /// The input does not contain a JSON value at all.
    NoValueFound,
    /// An escape sequence was malformed and repairs were disabled.
    InvalidEscape,
    /// A `\u` escape did not contain four hexadecimal digits.
    InvalidUnicodeEscape,
    /// Two values were not separated by a comma.
    ExpectedComma,
    /// A comma appeared before a closing bracket or at the end of the input.
    TrailingComma,
    /// A second value appeared at the top level while NDJSON repair was off.
    TrailingValue,
    /// A bare word appeared as a value while unquoted-value repair was off.
    UnquotedValue,
    /// The input nested objects, arrays, or groups deeper than
    /// `MAX_NESTING_DEPTH`.
    DepthLimitExceeded,
    /// The byte input was not valid UTF-8; the position is the offset of the
    /// first byte that does not decode.
    InvalidUtf8,
}

/// A repair or parse failure, carrying the byte offset where it was detected.
#[derive(Debug, Clone, PartialEq, Eq, Structural)]
pub struct Error {
    kind: ErrorKind,
    position: usize,
}

/// The stable message of each error kind.
pub open spec fn spec_message(kind: ErrorKind) -> Seq<char> {
    match kind {
        ErrorKind::UnexpectedEnd => "unexpected end of input"@,
        ErrorKind::UnexpectedCharacter(_) => "unexpected character"@,
        ErrorKind::ExpectedObjectKey => "object key expected"@,
        ErrorKind::ExpectedColon => "colon expected"@,
        ErrorKind::NoValueFound => "no JSON value found"@,
        ErrorKind::InvalidEscape => "invalid escape sequence"@,
        ErrorKind::InvalidUnicodeEscape => "invalid unicode escape"@,
        ErrorKind::ExpectedComma => "comma expected"@,
        ErrorKind::TrailingComma => "trailing comma"@,
        ErrorKind::TrailingValue => "unexpected text around the first top-level value (try extract())"@,
        ErrorKind::UnquotedValue => "unquoted value"@,
        ErrorKind::DepthLimitExceeded => "maximum nesting depth exceeded"@,
        ErrorKind::InvalidUtf8 => "input is not valid UTF-8"@,
    }
}

/// The decimal digits of `n`, most significant first.
pub open spec fn spec_decimal(n: nat) -> Seq<char>
    decreases n,
{
    if n < 10 {
        seq![spec_digit_char(n)]
    } else {
        spec_decimal(n / 10).push(spec_digit_char(n % 10))
    }
}

/// The ASCII digit for `d < 10`.
pub open spec fn spec_digit_char(d: nat) -> char {
    (d + '0' as nat) as char
}

/// The text of `{c:?}`, the `Debug` rendering of a character (quoted and
/// escaped by the standard library's rules).
pub uninterp spec fn char_debug_text(c: char) -> Seq<char>;

/// Appends the `Debug` rendering of `c` (`format!("{c:?}")`).
///
/// The standard library renders a `char` as a quoted, escaped literal; the
/// contract names that text `char_debug_text(c)` without spelling out the
/// escaping rules.
#[verifier::external_body]
fn push_char_debug(out: &mut String, c: char)
    ensures
        final(out)@ == old(out)@ + char_debug_text(c),
{
    out.push_str(&format!("{c:?}"))
}

/// Appends the decimal digits of `n`.
pub fn push_decimal(out: &mut String, n: usize)
    ensures
        final(out)@ == old(out)@ + spec_decimal(n as nat),
    decreases n,
{
    if n >= 10 {
        push_decimal(out, n / 10);
    }
    let d = (n % 10) as u32;
    let c: char = if d == 0 {
        '0'
    } else if d == 1 {
        '1'
    } else if d == 2 {
        '2'
    } else if d == 3 {
        '3'
    } else if d == 4 {
        '4'
    } else if d == 5 {
        '5'
    } else if d == 6 {
        '6'
    } else if d == 7 {
        '7'
    } else if d == 8 {
        '8'
    } else {
        '9'
    };
    proof {
        assert(c == spec_digit_char((n % 10) as nat));
    }
    push_char(out, c);
    proof {
        if n >= 10 {
            assert(spec_decimal(n as nat) == spec_decimal((n / 10) as nat).push(
                spec_digit_char((n % 10) as nat),
            ));
        }
    }
}

/// The rendering of an error: message, position, and for an unexpected
/// character the character itself.
pub open spec fn spec_error_text(kind: ErrorKind, position: usize) -> Seq<char> {
    let base = spec_message(kind) + " at byte "@ + spec_decimal(position as nat);
    match kind {
        ErrorKind::UnexpectedCharacter(c) => base + " ("@ + char_debug_text(c) + ")"@,
        _ => base,
    }
}

impl Error {
    /// The class of failure (spec accessor).
    pub closed spec fn spec_kind(&self) -> ErrorKind {
        self.kind
    }

    /// The byte offset of the failure (spec accessor).
    pub closed spec fn spec_position(&self) -> usize {
        self.position
    }

    /// Builds an error from a kind and a byte offset into the input.
    pub fn new(kind: ErrorKind, position: usize) -> (r: Self)
        ensures
            r.spec_kind() == kind,
            r.spec_position() == position,
    {
        Error { kind, position }
    }

    /// The same failure reported at another position.
    pub fn at_position(&self, position: usize) -> (r: Self)
        ensures
            r.spec_kind() == self.spec_kind(),
            r.spec_position() == position,
    {
        let kind = match &self.kind {
            ErrorKind::UnexpectedEnd => ErrorKind::UnexpectedEnd,
            ErrorKind::UnexpectedCharacter(c) => ErrorKind::UnexpectedCharacter(*c),
            ErrorKind::ExpectedObjectKey => ErrorKind::ExpectedObjectKey,
            ErrorKind::ExpectedColon => ErrorKind::ExpectedColon,
            ErrorKind::NoValueFound => ErrorKind::NoValueFound,
            ErrorKind::InvalidEscape => ErrorKind::InvalidEscape,
            ErrorKind::InvalidUnicodeEscape => ErrorKind::InvalidUnicodeEscape,
            ErrorKind::ExpectedComma => ErrorKind::ExpectedComma,
            ErrorKind::TrailingComma => ErrorKind::TrailingComma,
            ErrorKind::TrailingValue => ErrorKind::TrailingValue,
            ErrorKind::UnquotedValue => ErrorKind::UnquotedValue,
            ErrorKind::DepthLimitExceeded => ErrorKind::DepthLimitExceeded,
            ErrorKind::InvalidUtf8 => ErrorKind::InvalidUtf8,
        };
        Error { kind, position }
    }

    /// Returns the class of failure.
    pub fn kind(&self) -> (r: &ErrorKind)
        ensures
            *r == self.spec_kind(),
    {
        &self.kind
    }

    /// Returns the byte offset (0-based) into the input where the failure was detected.
    pub fn position(&self) -> (r: usize)
        ensures
            r == self.spec_position(),
    {
        self.position
    }

    /// Returns a stable, human-readable message for this error.
    pub fn message(&self) -> (r: &'static str)
        ensures
            r@ == spec_message(self.spec_kind()),
    {
        match self.kind {
            ErrorKind::UnexpectedEnd => "unexpected end of input",
            ErrorKind::UnexpectedCharacter(_) => "unexpected character",
            ErrorKind::ExpectedObjectKey => "object key expected",
            ErrorKind::ExpectedColon => "colon expected",
            ErrorKind::NoValueFound => "no JSON value found",
            ErrorKind::InvalidEscape => "invalid escape sequence",
            ErrorKind::InvalidUnicodeEscape => "invalid unicode escape",
            ErrorKind::ExpectedComma => "comma expected",
            ErrorKind::TrailingComma => "trailing comma",
            ErrorKind::TrailingValue => "unexpected text around the first top-level value (try extract())",
            ErrorKind::UnquotedValue => "unquoted value",
            ErrorKind::DepthLimitExceeded => "maximum nesting depth exceeded",
            ErrorKind::InvalidUtf8 => "input is not valid UTF-8",
        }
    }

    /// Renders the error as text: `"<message> at byte <position>"`, followed by
    /// the offending character for [`ErrorKind::UnexpectedCharacter`].
    pub fn to_string(&self) -> (r: String)
        ensures
            r@ == spec_error_text(self.spec_kind(), self.spec_position()),
    {
        let mut out = String::new();
        push_str(&mut out, self.message());
        push_str(&mut out, " at byte ");
        push_decimal(&mut out, self.position);
        match self.kind {
            ErrorKind::UnexpectedCharacter(c) => {
                push_str(&mut out, " (");
                push_char_debug(&mut out, c);
                push_str(&mut out, ")");
            },
            _ => {},
        }
        out
    }
}

} // verus!
