//! Pulling JSON values out of prose, markdown, and log lines.
use vstd::prelude::*;
use crate::chars::{is_digit, is_double_quote, is_single_quote, is_unicode_ws, is_ws, spec_is_digit, spec_is_double_quote, spec_is_single_quote, spec_is_unicode_ws, spec_is_ws};
use crate::text::{chars_of, sub_str};
use crate::value::{
    colon, comma, depth, items_valid, layout, lemma_number_chars, lemma_render_first, members_valid, numbers_valid, render_items,
    render_member, render_members, spec_escape_body, spec_escape_char, spec_number_char, spec_quote, Value,
};
use crate::is_json_text;
use crate::parser::MAX_NESTING_DEPTH;

verus! {

/// Characters that end a bare scalar during extraction.
pub open spec fn spec_is_scalar_delimiter(c: char) -> bool {
    c == ',' || c == '}' || c == ']' || c == ')' || c == ';' || spec_is_ws(c)
}

/// Characters that end a bare scalar during extraction.
pub fn is_scalar_delimiter(c: char) -> (r: bool)
    ensures
        r == spec_is_scalar_delimiter(c),
{
    c == ',' || c == '}' || c == ']' || c == ')' || c == ';' || is_ws(c)
}

/// Whether `c` (followed by `next`) can begin a JSON value. Bare words are
/// excluded, a `.` counts only before a digit, and the backtick / acute
/// quote pairings do not count.
pub open spec fn spec_is_value_start(c: char, next: Option<char>) -> bool {
    if c == '{' || c == '[' || c == '-' || c == '+' {
        true
    } else if c == '.' {
        next matches Some(n) && spec_is_digit(n)
    } else {
        spec_is_digit(c) || spec_is_double_quote(c) || (spec_is_single_quote(c) && c as u32
            != 0x60 && c as u32 != 0xB4)
    }
}

/// Whether `c` (followed by `next`) can begin a JSON value.
pub fn is_value_start(c: char, next: Option<char>) -> (r: bool)
    ensures
        r == spec_is_value_start(c, next),
{
    if c == '{' || c == '[' || c == '-' || c == '+' {
        true
    } else if c == '.' {
        match next {
            Some(n) => is_digit(n),
            None => false,
        }
    } else {
        is_digit(c) || is_double_quote(c) || (is_single_quote(c) && c as u32 != 0x60 && c as u32
            != 0xB4)
    }
}

/// The character after position `i`, if any.
pub open spec fn spec_next_char(s: Seq<char>, i: int) -> Option<char> {
    if i + 1 < s.len() {
        Some(s[i + 1])
    } else {
        None
    }
}

/// Whether position `i` of `s` can start a value.
pub open spec fn spec_value_start_at(s: Seq<char>, i: int) -> bool {
    0 <= i < s.len() && spec_is_value_start(s[i], spec_next_char(s, i))
}

/// Whether position `i` of `s` holds `{` or `[`.
pub open spec fn spec_opener_at(s: Seq<char>, i: int) -> bool {
    0 <= i < s.len() && (s[i] == '{' || s[i] == '[')
}

/// The first position at or after `from` where a value starts: the first `{`
/// or `[` when there is one, otherwise the first other value start.
pub open spec fn spec_first_value_start(s: Seq<char>, from: int) -> Option<int> {
    if exists|i: int| from <= i && spec_opener_at(s, i) {
        Some(choose|i: int| from <= i && spec_opener_at(s, i) && forall|j: int| from <= j < i ==> !spec_opener_at(s, j))
    } else if exists|i: int| from <= i && spec_value_start_at(s, i) {
        Some(choose|i: int| from <= i && spec_value_start_at(s, i) && forall|j: int| from <= j < i ==> !spec_value_start_at(s, j))
    } else {
        None
    }
}

/// The position of the first character at or after `from` that can start a
/// value: structural values (`{`, `[`) are preferred; a bare scalar is only
/// used when there is nothing better in the input.
pub fn first_value_start(s: &[char], from: usize) -> (r: Option<usize>)
    requires
        from <= s@.len(),
    ensures
        r matches Some(i) ==> Some(i as int) == spec_first_value_start(s@, from as int),
        r is None ==> spec_first_value_start(s@, from as int) is None,
        r matches Some(i) ==> from <= i < s@.len(),
{
    let mut fallback: Option<usize> = None;
    let mut i = from;
    while i < s.len()
        invariant
            from <= i <= s@.len(),
            forall|j: int| from <= j < i ==> !spec_opener_at(s@, j),
            fallback is None ==> forall|j: int| from <= j < i ==> !spec_value_start_at(s@, j),
            fallback matches Some(f) ==> from <= f < i && spec_value_start_at(s@, f as int)
                && forall|j: int| from <= j < f ==> !spec_value_start_at(s@, j),
        decreases s@.len() - i,
    {
        let c = s[i];
        if c == '{' || c == '[' {
            proof {
                let w = choose|k: int|
                    from <= k && spec_opener_at(s@, k) && forall|j: int|
                        from <= j < k ==> !spec_opener_at(s@, j);
                assert(spec_opener_at(s@, i as int));
                if w < i {
                } else if w > i {
                    assert(!spec_opener_at(s@, i as int));
                }
            }
            return Some(i);
        }
        let next = if i + 1 < s.len() {
            Some(s[i + 1])
        } else {
            None
        };
        if fallback.is_none() && is_value_start(c, next) {
            fallback = Some(i);
        }
        i = i + 1;
    }
    proof {
        assert(!(exists|k: int| from <= k && spec_opener_at(s@, k)));
        match fallback {
            Some(f) => {
                let w = choose|k: int|
                    from <= k && spec_value_start_at(s@, k) && forall|j: int|
                        from <= j < k ==> !spec_value_start_at(s@, j);
                assert(spec_value_start_at(s@, f as int));
                if w < f {
                } else if w > f {
                    assert(!spec_value_start_at(s@, f as int));
                }
            },
            None => {
                assert(!(exists|k: int| from <= k && spec_value_start_at(s@, k)));
            },
        }
    }
    fallback
}

/// A position at or after `from` that holds `{` or `[` means there is a first one.
proof fn lemma_least_opener(s: Seq<char>, from: int, k: int)
    requires
        from <= k,
        spec_opener_at(s, k),
    ensures
        exists|w: int|
            from <= w && spec_opener_at(s, w) && forall|j: int| from <= j < w ==> !spec_opener_at(s, j),
    decreases k - from,
{
    if exists|j: int| from <= j < k && spec_opener_at(s, j) {
        let j = choose|j: int| from <= j < k && spec_opener_at(s, j);
        lemma_least_opener(s, from, j);
    }
}

/// A position at or after `from` that can start a value means there is a first one.
proof fn lemma_least_value_start(s: Seq<char>, from: int, k: int)
    requires
        from <= k,
        spec_value_start_at(s, k),
    ensures
        exists|w: int|
            from <= w && spec_value_start_at(s, w) && forall|j: int|
                from <= j < w ==> !spec_value_start_at(s, j),
    decreases k - from,
{
    if exists|j: int| from <= j < k && spec_value_start_at(s, j) {
        let j = choose|j: int| from <= j < k && spec_value_start_at(s, j);
        lemma_least_value_start(s, from, j);
    }
}

/// The first value start at or after `from` lies in `[from, s.len())`.
#[verifier::spinoff_prover]
#[verifier::rlimit(40)]
pub proof fn lemma_first_value_start_bounds(s: Seq<char>, from: int)
    ensures
        spec_first_value_start(s, from) matches Some(i) ==> from <= i < s.len(),
{
    if exists|i: int| from <= i && spec_opener_at(s, i) {
        let k = choose|i: int| from <= i && spec_opener_at(s, i);
        lemma_least_opener(s, from, k);
        let w = choose|i: int|
            from <= i && spec_opener_at(s, i) && forall|j: int| from <= j < i ==> !spec_opener_at(s, j);
        assert(spec_first_value_start(s, from) == Some(w));
    } else if exists|i: int| from <= i && spec_value_start_at(s, i) {
        let k = choose|i: int| from <= i && spec_value_start_at(s, i);
        lemma_least_value_start(s, from, k);
        let w = choose|i: int|
            from <= i && spec_value_start_at(s, i) && forall|j: int|
                from <= j < i ==> !spec_value_start_at(s, j);
        assert(spec_first_value_start(s, from) == Some(w));
    }
}

/// Whether `c` closes a string opened by `open`.
pub open spec fn spec_closes(open: char, c: char) -> bool {
    if open == '"' {
        c == '"'
    } else if open == '\'' {
        c == '\''
    } else if spec_is_double_quote(open) {
        spec_is_double_quote(c) || c == '"'
    } else {
        spec_is_single_quote(c) || c == '\''
    }
}

/// Whether `c` closes a string opened by `open`.
pub fn closes(open: char, c: char) -> (r: bool)
    ensures
        r == spec_closes(open, c),
{
    if open == '"' {
        c == '"'
    } else if open == '\'' {
        c == '\''
    } else if is_double_quote(open) {
        is_double_quote(c) || c == '"'
    } else {
        is_single_quote(c) || c == '\''
    }
}

/// Where a quoted string ends when the scan is at `i` (after a backslash
/// when `escaped`): just past the first closing quote that no backslash
/// escapes.
pub open spec fn spec_string_scan(s: Seq<char>, i: int, open: char, escaped: bool) -> Option<int>
    decreases s.len() - i,
{
    if i < 0 || i >= s.len() {
        None
    } else if escaped {
        spec_string_scan(s, i + 1, open, false)
    } else if s[i] == '\\' {
        spec_string_scan(s, i + 1, open, true)
    } else if spec_closes(open, s[i]) {
        Some(i + 1)
    } else {
        spec_string_scan(s, i + 1, open, false)
    }
}

/// The end of a scanned string: past its closing quote, or, when `partial`,
/// the end of input for a string that never closes.
pub open spec fn spec_string_end(s: Seq<char>, start: int, open: char, partial: bool) -> Option<
    int,
> {
    match spec_string_scan(s, start + 1, open, false) {
        Some(e) => Some(e),
        None => if partial {
            Some(s.len() as int)
        } else {
            None
        },
    }
}

proof fn lemma_string_scan_bounds(s: Seq<char>, i: int, open: char, escaped: bool)
    requires
        0 <= i,
    ensures
        spec_string_scan(s, i, open, escaped) matches Some(e) ==> i < e <= s.len() && spec_closes(
            open,
            s[e - 1],
        ),
    decreases s.len() - i,
{
    if i < s.len() {
        lemma_string_scan_bounds(s, i + 1, open, false);
        lemma_string_scan_bounds(s, i + 1, open, true);
    }
}

/// Scans a quoted string opened at `start`, returning the position just past
/// its closing quote; an unterminated string extends to the end of input when
/// `partial` is set.
pub fn scan_string(s: &[char], start: usize, open: char, partial: bool) -> (r: Option<usize>)
    requires
        start < s.len(),
    ensures
        r matches Some(e) ==> start < e <= s@.len(),
        r matches Some(e) ==> (!partial ==> spec_closes(open, s@[e - 1])),
        match spec_string_end(s@, start as int, open, partial) {
            Some(e) => r == Some(e as usize),
            None => r is None,
        },
{
    proof {
        lemma_string_scan_bounds(s@, start + 1, open, false);
    }
    let mut escaped = false;
    let mut i = start + 1;
    while i < s.len()
        invariant
            start < i <= s@.len(),
            spec_string_scan(s@, start + 1, open, false) == spec_string_scan(s@, i as int, open, escaped),
        decreases s@.len() - i,
    {
        let c = s[i];
        if escaped {
            escaped = false;
        } else if c == '\\' {
            escaped = true;
        } else if closes(open, c) {
            return Some(i + 1);
        }
        i = i + 1;
    }
    if partial {
        Some(s.len())
    } else {
        None
    }
}

/// Past the first line break at or after `i`, or the end of input.
pub open spec fn spec_line_end(s: Seq<char>, i: int) -> int
    decreases s.len() - i,
{
    if i < 0 || i >= s.len() {
        s.len() as int
    } else if s[i] == '\n' {
        i + 1
    } else {
        spec_line_end(s, i + 1)
    }
}

/// Past the first `*/` at or after `i`, or the end of input.
pub open spec fn spec_block_end(s: Seq<char>, i: int) -> int
    decreases s.len() - i,
{
    if i < 0 || i >= s.len() {
        s.len() as int
    } else if s[i] == '*' && i + 1 < s.len() && s[i + 1] == '/' {
        i + 2
    } else {
        spec_block_end(s, i + 1)
    }
}

/// Past the comment whose `/` is at `at`: a line comment ends after its
/// line break, a block comment after its `*/`.
pub open spec fn spec_comment_end(s: Seq<char>, at: int) -> int {
    if s[at + 1] == '/' {
        spec_line_end(s, at + 2)
    } else {
        spec_block_end(s, at + 2)
    }
}

pub proof fn lemma_comment_end_bounds(s: Seq<char>, i: int)
    requires
        0 <= i <= s.len(),
    ensures
        i <= spec_line_end(s, i) <= s.len(),
        i <= spec_block_end(s, i) <= s.len(),
    decreases s.len() - i,
{
    if i < s.len() {
        lemma_comment_end_bounds(s, i + 1);
    }
}

/// Skips a `//` or `/* */` comment whose `/` is at `at` and whose second
/// character is at `at + 1`; returns the position after it.
pub fn skip_comment(s: &[char], at: usize) -> (r: usize)
    requires
        at + 1 < s.len(),
    ensures
        at + 2 <= r <= s@.len(),
        r == spec_comment_end(s@, at as int),
{
    proof {
        lemma_comment_end_bounds(s@, at + 2);
    }
    if s[at + 1] == '/' {
        let mut i = at + 2;
        while i < s.len()
            invariant
                at + 2 <= i <= s@.len(),
                spec_line_end(s@, at + 2) == spec_line_end(s@, i as int),
                s@[at + 1] == '/',
                at + 1 < s@.len(),
            decreases s@.len() - i,
        {
            if s[i] == '\n' {
                return i + 1;
            }
            i = i + 1;
        }
        i
    } else {
        let mut i = at + 2;
        while i < s.len()
            invariant
                at + 2 <= i <= s@.len(),
                spec_block_end(s@, at + 2) == spec_block_end(s@, i as int),
                s@[at + 1] != '/',
                at + 1 < s@.len(),
            decreases s@.len() - i,
        {
            if s[i] == '*' && i + 1 < s.len() && s[i + 1] == '/' {
                return i + 2;
            }
            i = i + 1;
        }
        i
    }
}

/// Where the bracket scan ends when it is at `i` with `depth` brackets
/// open, inside the string opened by `quote` if any (after a backslash when
/// `escaped`): just past the bracket that closes the last open one. Strings
/// and comments hide brackets; a stray closer at depth zero ends the scan.
pub open spec fn spec_container_scan(
    s: Seq<char>,
    i: int,
    depth: nat,
    quote: Option<char>,
    escaped: bool,
) -> Option<int>
    decreases s.len() - i,
{
    if i < 0 || i >= s.len() {
        None
    } else {
        let c = s[i];
        match quote {
            Some(open) => if escaped {
                spec_container_scan(s, i + 1, depth, quote, false)
            } else if c == '\\' {
                spec_container_scan(s, i + 1, depth, quote, true)
            } else if spec_closes(open, c) {
                spec_container_scan(s, i + 1, depth, None, false)
            } else {
                spec_container_scan(s, i + 1, depth, quote, false)
            },
            None => if spec_is_double_quote(c) || spec_is_single_quote(c) {
                spec_container_scan(s, i + 1, depth, Some(c), escaped)
            } else if c == '/' && i + 1 < s.len() && (s[i + 1] == '/' || s[i + 1] == '*') {
                proof {
                    lemma_comment_end_bounds(s, i + 2);
                }
                spec_container_scan(s, spec_comment_end(s, i), depth, None, escaped)
            } else if c == '{' || c == '[' {
                spec_container_scan(s, i + 1, depth + 1, None, escaped)
            } else if c == '}' || c == ']' {
                if depth <= 1 {
                    Some(i + 1)
                } else {
                    spec_container_scan(s, i + 1, (depth - 1) as nat, None, escaped)
                }
            } else {
                spec_container_scan(s, i + 1, depth, None, escaped)
            },
        }
    }
}

/// A line comment ends after its line break.
proof fn lemma_line_end_at(s: Seq<char>, i: int, j: int)
    requires
        0 <= i <= j < s.len(),
        s[j] == '\n',
        forall|k: int| i <= k < j ==> #[trigger] s[k] != '\n',
    ensures
        spec_line_end(s, i) == j + 1,
    decreases j - i,
{
    if i < j {
        lemma_line_end_at(s, i + 1, j);
    }
}

/// The bracket scan skips a `//` comment outside strings up to its line
/// break and goes on from the next line: the brackets on later lines still
/// count, and a comment never runs past its line.
pub proof fn lemma_scan_skips_line_comment(
    s: Seq<char>,
    at: int,
    j: int,
    depth: nat,
    escaped: bool,
)
    requires
        0 <= at,
        at + 2 <= j < s.len(),
        s[at] == '/',
        s[at + 1] == '/',
        s[j] == '\n',
        forall|k: int| at + 2 <= k < j ==> #[trigger] s[k] != '\n',
    ensures
        spec_comment_end(s, at) == j + 1,
        spec_container_scan(s, at, depth, None, escaped) == spec_container_scan(
            s,
            j + 1,
            depth,
            None,
            escaped,
        ),
{
    lemma_line_end_at(s, at + 2, j);
}

/// A block comment ends after its first `*/`.
proof fn lemma_block_end_at(s: Seq<char>, i: int, j: int)
    requires
        0 <= i <= j,
        j + 1 < s.len(),
        s[j] == '*',
        s[j + 1] == '/',
        forall|k: int| i <= k < j ==> !(#[trigger] s[k] == '*' && s[k + 1] == '/'),
    ensures
        spec_block_end(s, i) == j + 2,
    decreases j - i,
{
    if i < j {
        lemma_block_end_at(s, i + 1, j);
    }
}

/// The bracket scan skips a `/* */` comment outside strings up to its first
/// `*/` and goes on right after it.
pub proof fn lemma_scan_skips_block_comment(
    s: Seq<char>,
    at: int,
    j: int,
    depth: nat,
    escaped: bool,
)
    requires
        0 <= at,
        at + 2 <= j,
        j + 1 < s.len(),
        s[at] == '/',
        s[at + 1] == '*',
        s[j] == '*',
        s[j + 1] == '/',
        forall|k: int| at + 2 <= k < j ==> !(#[trigger] s[k] == '*' && s[k + 1] == '/'),
    ensures
        spec_comment_end(s, at) == j + 2,
        spec_container_scan(s, at, depth, None, escaped) == spec_container_scan(
            s,
            j + 2,
            depth,
            None,
            escaped,
        ),
{
    lemma_block_end_at(s, at + 2, j);
}

/// The end of a scanned container: past its closing bracket, or, when
/// `partial`, the end of input for one that never closes.
pub open spec fn spec_container_end(s: Seq<char>, start: int, partial: bool) -> Option<int> {
    match spec_container_scan(s, start, 0, None, false) {
        Some(e) => Some(e),
        None => if partial {
            Some(s.len() as int)
        } else {
            None
        },
    }
}

proof fn lemma_container_scan_bounds(
    s: Seq<char>,
    i: int,
    depth: nat,
    quote: Option<char>,
    escaped: bool,
)
    requires
        0 <= i,
    ensures
        spec_container_scan(s, i, depth, quote, escaped) matches Some(e) ==> i < e <= s.len() && (s[e
            - 1] == '}' || s[e - 1] == ']'),
    decreases s.len() - i,
{
    if i < s.len() {
        let c = s[i];
        lemma_container_scan_bounds(s, i + 1, depth, quote, false);
        lemma_container_scan_bounds(s, i + 1, depth, quote, true);
        lemma_container_scan_bounds(s, i + 1, depth, None, false);
        lemma_container_scan_bounds(s, i + 1, depth, None, escaped);
        lemma_container_scan_bounds(s, i + 1, depth, Some(c), escaped);
        lemma_container_scan_bounds(s, i + 1, depth + 1, None, escaped);
        if depth > 1 {
            lemma_container_scan_bounds(s, i + 1, (depth - 1) as nat, None, escaped);
        }
        if i + 1 < s.len() {
            lemma_comment_end_bounds(s, i + 2);
            let e2 = spec_comment_end(s, i);
            lemma_container_scan_bounds(s, e2, depth, None, escaped);
        }
    }
}

/// Bracket-matching scan that is aware of strings and comments. Returns the
/// span `[start, end)` ending at the bracket that brings the depth back to
/// zero; an unbalanced container extends to the end of input when `partial`
/// is set.
pub fn scan_container(s: &[char], start: usize, partial: bool) -> (r: Option<(usize, usize)>)
    requires
        start < s@.len(),
    ensures
        r matches Some((a, e)) ==> a == start && start < e <= s@.len(),
        r matches Some((a, e)) ==> (!partial ==> (s@[e - 1] == '}' || s@[e - 1] == ']')),
        match spec_container_end(s@, start as int, partial) {
            Some(e) => r == Some((start, e as usize)),
            None => r is None,
        },
{
    proof {
        lemma_container_scan_bounds(s@, start as int, 0, None, false);
    }
    let mut depth: usize = 0;
    let mut quote: Option<char> = None;
    let mut escaped = false;
    let mut i = start;
    while i < s.len()
        invariant
            start <= i <= s@.len(),
            depth <= i - start,
            spec_container_scan(s@, start as int, 0, None, false) == spec_container_scan(
                s@,
                i as int,
                depth as nat,
                quote,
                escaped,
            ),
        decreases s@.len() - i,
    {
        let c = s[i];
        match quote {
            Some(open) => {
                if escaped {
                    escaped = false;
                } else if c == '\\' {
                    escaped = true;
                } else if closes(open, c) {
                    quote = None;
                }
                i = i + 1;
            },
            None => {
                if is_double_quote(c) || is_single_quote(c) {
                    quote = Some(c);
                    i = i + 1;
                } else if c == '/' && i + 1 < s.len() && (s[i + 1] == '/' || s[i + 1] == '*') {
                    let next = skip_comment(s, i);
                    i = next;
                } else if c == '{' || c == '[' {
                    depth = depth + 1;
                    i = i + 1;
                } else if c == '}' || c == ']' {
                    if depth > 0 {
                        depth = depth - 1;
                    }
                    if depth == 0 {
                        return Some((start, i + 1));
                    }
                    i = i + 1;
                } else {
                    i = i + 1;
                }
            },
        }
    }
    if partial {
        Some((start, s.len()))
    } else {
        None
    }
}

/// The first position at or after `i` that holds a scalar delimiter, or the
/// end of input.
pub open spec fn spec_scalar_end(s: Seq<char>, i: int) -> int
    decreases s.len() - i,
{
    if i < 0 || i >= s.len() || spec_is_scalar_delimiter(s[i]) {
        i
    } else {
        spec_scalar_end(s, i + 1)
    }
}

/// Where the value that starts at `start` ends: a container at its matching
/// bracket, a string past its closing quote, anything else at the first
/// scalar delimiter (and nothing when that leaves it empty).
pub open spec fn spec_value_end(s: Seq<char>, start: int, partial: bool) -> Option<int> {
    if start < 0 || start >= s.len() {
        None
    } else if s[start] == '{' || s[start] == '[' {
        spec_container_end(s, start, partial)
    } else if spec_is_double_quote(s[start]) || spec_is_single_quote(s[start]) {
        spec_string_end(s, start, s[start], partial)
    } else if spec_scalar_end(s, start) > start {
        Some(spec_scalar_end(s, start))
    } else {
        None
    }
}

/// A bare scalar from `i` ends within `[i, s.len()]`.
proof fn lemma_scalar_end_bounds(s: Seq<char>, i: int)
    requires
        0 <= i <= s.len(),
    ensures
        i <= spec_scalar_end(s, i) <= s.len(),
    decreases s.len() - i,
{
    if i < s.len() && !spec_is_scalar_delimiter(s[i]) {
        lemma_scalar_end_bounds(s, i + 1);
    }
}

/// A value that starts at `start` ends after it and within the input.
pub proof fn lemma_value_end_bounds(s: Seq<char>, start: int, partial: bool)
    requires
        0 <= start,
    ensures
        spec_value_end(s, start, partial) matches Some(e) ==> start < e <= s.len(),
{
    if start < s.len() {
        lemma_container_scan_bounds(s, start, 0, None, false);
        lemma_string_scan_bounds(s, start + 1, s[start], false);
        lemma_scalar_end_bounds(s, start);
    }
}

/// Scans the value starting at `start`, returning its `[start, end)` span.
pub fn scan_value(s: &[char], start: usize, partial: bool) -> (r: Option<(usize, usize)>)
    requires
        start <= s@.len(),
    ensures
        r matches Some((a, e)) ==> a == start && start < e <= s@.len(),
        spec_value_end(s@, start as int, partial) == match r {
            Some((_, e)) => Some(e as int),
            None => None,
        },
{
    if start >= s.len() {
        return None;
    }
    let first = s[start];
    proof {
        lemma_container_scan_bounds(s@, start as int, 0, None, false);
        lemma_string_scan_bounds(s@, start + 1, first, false);
    }
    if first == '{' || first == '[' {
        scan_container(s, start, partial)
    } else if is_double_quote(first) || is_single_quote(first) {
        match scan_string(s, start, first, partial) {
            Some(end) => Some((start, end)),
            None => None,
        }
    } else {
        let mut i = start;
        while i < s.len() && !is_scalar_delimiter(s[i])
            invariant
                start <= i <= s@.len(),
                spec_scalar_end(s@, start as int) == spec_scalar_end(s@, i as int),
            decreases s@.len() - i,
        {
            i = i + 1;
        }
        if i > start {
            Some((start, i))
        } else {
            None
        }
    }
}

/// The span `[a, b)` with Unicode whitespace removed from both ends (`str::trim`).
pub open spec fn spec_trimmed(s: Seq<char>, a: int, b: int, ra: int, rb: int) -> bool {
    &&& a <= ra <= rb <= b
    &&& forall|j: int| a <= j < ra ==> spec_is_unicode_ws(s[j])
    &&& forall|j: int| rb <= j < b ==> spec_is_unicode_ws(s[j])
    &&& ra < rb ==> !spec_is_unicode_ws(s[ra]) && !spec_is_unicode_ws(s[rb - 1])
}

/// The first position of `[a, b)` that is not Unicode whitespace, or `b`.
pub open spec fn spec_trim_front(s: Seq<char>, a: int, b: int) -> int
    decreases b - a,
{
    if a < b && spec_is_unicode_ws(s[a]) {
        spec_trim_front(s, a + 1, b)
    } else {
        a
    }
}

/// Past the last position of `[a, b)` that is not Unicode whitespace, or `a`.
pub open spec fn spec_trim_back(s: Seq<char>, a: int, b: int) -> int
    decreases b - a,
{
    if a < b && spec_is_unicode_ws(s[b - 1]) {
        spec_trim_back(s, a, b - 1)
    } else {
        b
    }
}

/// The span `[a, b)` trimmed of Unicode whitespace at both ends.
pub open spec fn spec_trim(s: Seq<char>, a: int, b: int) -> (int, int) {
    let ra = spec_trim_front(s, a, b);
    (ra, spec_trim_back(s, ra, b))
}

/// Trims Unicode whitespace from both ends of the span `[a, b)`.
pub fn trim_span(s: &[char], a: usize, b: usize) -> (r: (usize, usize))
    requires
        a <= b <= s@.len(),
    ensures
        spec_trimmed(s@, a as int, b as int, r.0 as int, r.1 as int),
        (r.0 as int, r.1 as int) == spec_trim(s@, a as int, b as int),
{
    let mut ra = a;
    while ra < b && is_unicode_ws(s[ra])
        invariant
            a <= ra <= b <= s@.len(),
            forall|j: int| a <= j < ra ==> spec_is_unicode_ws(s@[j]),
            spec_trim_front(s@, a as int, b as int) == spec_trim_front(s@, ra as int, b as int),
        decreases b - ra,
    {
        ra = ra + 1;
    }
    let mut rb = b;
    while rb > ra && is_unicode_ws(s[rb - 1])
        invariant
            a <= ra <= rb <= b <= s@.len(),
            forall|j: int| rb <= j < b ==> spec_is_unicode_ws(s@[j]),
            spec_trim_back(s@, ra as int, b as int) == spec_trim_back(s@, ra as int, rb as int),
        decreases rb - ra,
    {
        rb = rb - 1;
    }
    (ra, rb)
}

/// Whether every character of the span is Unicode whitespace.
fn span_is_blank(s: &[char], a: usize, b: usize) -> (r: bool)
    requires
        a <= b <= s@.len(),
    ensures
        r == forall|j: int| a <= j < b ==> spec_is_unicode_ws(s@[j]),
{
    let mut i = a;
    while i < b
        invariant
            a <= i <= b <= s@.len(),
            forall|j: int| a <= j < i ==> spec_is_unicode_ws(s@[j]),
        decreases b - i,
    {
        if !is_unicode_ws(s[i]) {
            return false;
        }
        i = i + 1;
    }
    true
}

/// The first position at or after `i` where three backticks start.
pub open spec fn spec_find_fence(s: Seq<char>, i: int) -> Option<int>
    decreases s.len() - i,
{
    if i < 0 || i + 3 > s.len() {
        None
    } else if s[i] == '`' && s[i + 1] == '`' && s[i + 2] == '`' {
        Some(i)
    } else {
        spec_find_fence(s, i + 1)
    }
}

proof fn lemma_find_fence_bounds(s: Seq<char>, i: int)
    requires
        0 <= i,
    ensures
        spec_find_fence(s, i) matches Some(o) ==> i <= o && o + 3 <= s.len(),
    decreases s.len() - i,
{
    if i + 3 <= s.len() {
        lemma_find_fence_bounds(s, i + 1);
    }
}

/// The first position at or after `from` where three backticks start.
fn find_fence(s: &[char], from: usize) -> (r: Option<usize>)
    requires
        from <= s@.len(),
    ensures
        r matches Some(i) ==> from <= i && i + 3 <= s@.len() && s@[i as int] == '`' && s@[i + 1]
            == '`' && s@[i + 2] == '`',
        match spec_find_fence(s@, from as int) {
            Some(o) => r == Some(o as usize),
            None => r is None,
        },
{
    proof {
        lemma_find_fence_bounds(s@, from as int);
    }
    let mut i = from;
    while i < s.len() && s.len() - i >= 3
        invariant
            from <= i <= s@.len(),
            spec_find_fence(s@, from as int) == spec_find_fence(s@, i as int),
        decreases s@.len() - i,
    {
        if s[i] == '`' && s[i + 1] == '`' && s[i + 2] == '`' {
            return Some(i);
        }
        i = i + 1;
    }
    None
}

/// Whether the language tag `s[a..b]` starts with `json`, ignoring ASCII
/// case.
pub open spec fn spec_json_tag(s: Seq<char>, a: int, b: int) -> bool {
    &&& b - a >= 4
    &&& (s[a] == 'j' || s[a] == 'J')
    &&& (s[a + 1] == 's' || s[a + 1] == 'S')
    &&& (s[a + 2] == 'o' || s[a + 2] == 'O')
    &&& (s[a + 3] == 'n' || s[a + 3] == 'N')
}

/// The first line break at or after `i`, or the end of input.
pub open spec fn spec_newline_at(s: Seq<char>, i: int) -> int
    decreases s.len() - i,
{
    if i < 0 || i >= s.len() || s[i] == '\n' {
        i
    } else {
        spec_newline_at(s, i + 1)
    }
}

proof fn lemma_newline_bounds(s: Seq<char>, i: int)
    requires
        0 <= i <= s.len(),
    ensures
        i <= spec_newline_at(s, i) <= s.len(),
    decreases s.len() - i,
{
    if i < s.len() {
        lemma_newline_bounds(s, i + 1);
    }
}

/// Whether every character of `s[a..b]` is Unicode whitespace.
pub open spec fn spec_blank(s: Seq<char>, a: int, b: int) -> bool {
    forall|j: int| a <= j < b ==> spec_is_unicode_ws(s[j])
}

/// The fenced blocks from `search` on: the body of the first nonblank one
/// tagged `json`, else the first nonblank one (`first`, once found). A
/// block's body runs from the line after its opening fence to the next
/// fence or the end of input.
pub open spec fn spec_fenced(s: Seq<char>, search: int, first: Option<(int, int)>) -> Option<
    (int, int),
>
    decreases s.len() - search,
{
    if search < 0 || search >= s.len() {
        first
    } else {
        match spec_find_fence(s, search) {
            None => first,
            Some(o) => {
                let open = o + 3;
                let nl = spec_newline_at(s, open);
                let body_start = if nl < s.len() {
                    nl + 1
                } else {
                    nl
                };
                let tag = spec_trim(s, open, body_start);
                let body_end = match spec_find_fence(s, body_start) {
                    Some(o2) => o2,
                    None => s.len() as int,
                };
                let nonblank = body_end > body_start && !spec_blank(s, body_start, body_end);
                if nonblank && spec_json_tag(s, tag.0, tag.1) {
                    Some((body_start, body_end))
                } else {
                    let first2 = if nonblank && first is None {
                        Some((body_start, body_end))
                    } else {
                        first
                    };
                    if body_end <= search {
                        first2
                    } else {
                        spec_fenced(
                            s,
                            if body_end < s.len() && s.len() - body_end >= 3 {
                                body_end + 3
                            } else {
                                s.len() as int
                            },
                            first2,
                        )
                    }
                }
            },
        }
    }
}

/// Whether the (already trimmed) language tag of a fence starts with `json`,
/// ignoring ASCII case.
fn is_json_tag(s: &[char], a: usize, b: usize) -> (r: bool)
    requires
        a <= b <= s@.len(),
    ensures
        r == spec_json_tag(s@, a as int, b as int),
{
    if b - a < 4 {
        return false;
    }
    let c0 = s[a];
    let c1 = s[a + 1];
    let c2 = s[a + 2];
    let c3 = s[a + 3];
    (c0 == 'j' || c0 == 'J') && (c1 == 's' || c1 == 'S') && (c2 == 'o' || c2 == 'O') && (c3 == 'n'
        || c3 == 'N')
}

/// Finds the first non-empty fenced code block, preferring one tagged `json`;
/// returns the body span.
pub fn fenced_block(s: &[char]) -> (r: Option<(usize, usize)>)
    ensures
        r matches Some((a, b)) ==> a < b <= s@.len(),
        spec_fenced(s@, 0, None) == match r {
            Some((a, b)) => Some((a as int, b as int)),
            None => None,
        },
{
    let mut first: Option<(usize, usize)> = None;
    let mut search: usize = 0;
    while search < s.len()
        invariant
            search <= s@.len(),
            first matches Some((a, b)) ==> a < b <= s@.len(),
            spec_fenced(s@, 0, None) == spec_fenced(
                s@,
                search as int,
                match first {
                    Some((a, b)) => Some((a as int, b as int)),
                    None => None,
                },
            ),
        ensures
            spec_fenced(s@, 0, None) == match first {
                Some((a, b)) => Some((a as int, b as int)),
                None => None,
            },
        decreases s@.len() - search,
    {
        let found = find_fence(s, search);
        let offset = match found {
            Some(o) => o,
            None => {
                break;
            },
        };
        let open = offset + 3;
        let mut line_end = open;
        proof {
            lemma_newline_bounds(s@, open as int);
            lemma_find_fence_bounds(s@, search as int);
        }
        while line_end < s.len() && s[line_end] != '\n'
            invariant
                open <= line_end <= s@.len(),
                spec_newline_at(s@, open as int) == spec_newline_at(s@, line_end as int),
            decreases s@.len() - line_end,
        {
            line_end = line_end + 1;
        }
        if line_end < s.len() {
            line_end = line_end + 1;
        }
        let (ta, tb) = trim_span(s, open, line_end);
        let is_json = is_json_tag(s, ta, tb);
        let body_start = line_end;
        proof {
            lemma_find_fence_bounds(s@, body_start as int);
        }
        let body_end = match find_fence(s, body_start) {
            Some(o) => o,
            None => s.len(),
        };
        if body_end > body_start && !span_is_blank(s, body_start, body_end) {
            if is_json {
                return Some((body_start, body_end));
            }
            if first.is_none() {
                first = Some((body_start, body_end));
            }
        }
        if body_end <= search {
            break;
        }
        search = if body_end < s.len() && s.len() - body_end >= 3 {
            body_end + 3
        } else {
            s.len()
        };
    }
    first
}

/// Whether `x` is a contiguous piece of `input`.
pub open spec fn spec_is_span_of(x: Seq<char>, input: Seq<char>) -> bool {
    exists|a: int, b: int| 0 <= a <= b <= input.len() && x == input.subrange(a, b)
}

/// The span `extract` returns: the trimmed body of the fenced block when
/// there is one, else the trimmed first value from its start.
pub open spec fn spec_extract_span(s: Seq<char>) -> Option<(int, int)> {
    match spec_fenced(s, 0, None) {
        Some((a, b)) => Some(spec_trim(s, a, b)),
        None => match spec_first_value_start(s, 0) {
            None => None,
            Some(i) => match spec_value_end(s, i, false) {
                Some(e) => Some(spec_trim(s, i, e)),
                None => None,
            },
        },
    }
}

/// Returns the first JSON value found in `input`, trimmed of surrounding prose.
///
/// A fenced markdown block wins over loose text; inside loose text the first
/// balanced `{...}` or `[...]` wins.
#[verifier::rlimit(60)]
pub fn extract(input: &str) -> (r: Option<&str>)
    ensures
        r matches Some(x) ==> spec_is_span_of(x@, input@),
        match spec_extract_span(input@) {
            Some((a, b)) => r matches Some(x) && x@ == input@.subrange(a, b),
            None => r is None,
        },
{
    let s = chars_of(input);
    if let Some((start, end)) = fenced_block(&s) {
        let (a, b) = trim_span(&s, start, end);
        proof {
            assert(spec_extract_span(input@) == Some((a as int, b as int)));
        }
        return Some(sub_str(input, &s, a, b));
    }
    proof {
        assert(spec_fenced(input@, 0, None) is None);
    }
    let start = match first_value_start(&s, 0) {
        Some(i) => i,
        None => {
            return None;
        },
    };
    match scan_value(&s, start, false) {
        Some((_, end)) => {
            let (a, b) = trim_span(&s, start, end);
            proof {
                assert(spec_value_end(input@, start as int, false) == Some(end as int));
                assert(spec_extract_span(input@) == Some((a as int, b as int)));
            }
            Some(sub_str(input, &s, a, b))
        },
        None => None,
    }
}

/// Returns everything from the first JSON value to the end of the input, or
/// an empty string while no value has started yet.
pub fn extract_partial(input: &str) -> (r: &str)
    ensures
        match spec_first_value_start(input@, 0) {
            Some(i) => r@ == input@.subrange(i, input@.len() as int),
            None => r@.len() == 0,
        },
{
    let s = chars_of(input);
    match first_value_start(&s, 0) {
        Some(start) => sub_str(input, &s, start, s.len()),
        None => sub_str(input, &s, 0, 0),
    }
}

/// The spans `extract_all` returns from position `pos` on: the trimmed span
/// of each value in turn, scanning on from the end of the last one.
#[verifier::opaque]
pub open spec fn spec_extract_all(s: Seq<char>, pos: int) -> Seq<(int, int)>
    decreases s.len() - pos,
{
    if pos < 0 || pos >= s.len() {
        Seq::empty()
    } else {
        match spec_first_value_start(s, pos) {
            None => Seq::empty(),
            Some(i) => match spec_value_end(s, i, false) {
                None => Seq::empty(),
                Some(e) => {
                    proof {
                        lemma_first_value_start_bounds(s, pos);
                        lemma_value_end_bounds(s, i, false);
                    }
                    let next = if e > i + 1 {
                        e
                    } else {
                        i + 1
                    };
                    seq![spec_trim(s, i, e)].add(spec_extract_all(s, next))
                },
            },
        }
    }
}

/// One step of `spec_extract_all`: nothing when no complete value starts at
/// or after `pos`, else the value found followed by the rest.
proof fn lemma_extract_all_step(s: Seq<char>, pos: int)
    requires
        0 <= pos,
    ensures
        spec_extract_all(s, pos) == if pos >= s.len() {
            Seq::<(int, int)>::empty()
        } else {
            match spec_first_value_start(s, pos) {
                None => Seq::<(int, int)>::empty(),
                Some(i) => match spec_value_end(s, i, false) {
                    None => Seq::<(int, int)>::empty(),
                    Some(e) => seq![spec_trim(s, i, e)].add(
                        spec_extract_all(
                            s,
                            if e > i + 1 {
                                e
                            } else {
                                i + 1
                            },
                        ),
                    ),
                },
            }
        },
{
    reveal(spec_extract_all);
}

/// Returns every top-level value in `input`, in order (NDJSON and log lines).
#[verifier::rlimit(60)]
pub fn extract_all(input: &str) -> (r: Vec<&str>)
    ensures
        forall|k: int| 0 <= k < r@.len() ==> spec_is_span_of(#[trigger] r@[k]@, input@),
        r@.len() == spec_extract_all(input@, 0).len(),
        forall|k: int|
            0 <= k < r@.len() ==> #[trigger] r@[k]@ == input@.subrange(
                spec_extract_all(input@, 0)[k].0,
                spec_extract_all(input@, 0)[k].1,
            ),
{
    let s = chars_of(input);
    let mut values: Vec<&str> = Vec::new();
    let mut pos: usize = 0;
    let ghost mut done: Seq<(int, int)> = Seq::empty();
    proof {
        lemma_extract_all_step(input@, 0);
        assert(done + spec_extract_all(input@, 0) =~= spec_extract_all(input@, 0));
    }
    while pos < s.len()
        invariant
            pos <= s@.len(),
            s@ == input@,
            forall|k: int| 0 <= k < values@.len() ==> spec_is_span_of(#[trigger] values@[k]@, input@),
            spec_extract_all(input@, 0) == done + spec_extract_all(input@, pos as int),
            pos >= s@.len() ==> spec_extract_all(input@, pos as int) =~= Seq::<(int, int)>::empty(),
            values@.len() == done.len(),
            forall|k: int|
                0 <= k < values@.len() ==> #[trigger] values@[k]@ == input@.subrange(
                    done[k].0,
                    done[k].1,
                ),
        ensures
            spec_extract_all(input@, 0) == done,
            values@.len() == done.len(),
            forall|k: int|
                0 <= k < values@.len() ==> #[trigger] values@[k]@ == input@.subrange(
                    done[k].0,
                    done[k].1,
                ),
            forall|k: int| 0 <= k < values@.len() ==> spec_is_span_of(#[trigger] values@[k]@, input@),
        decreases s@.len() - pos,
    {
        proof {
            lemma_extract_all_step(input@, pos as int);
        }
        let start = match first_value_start(&s, pos) {
            Some(i) => i,
            None => {
                assert(done + spec_extract_all(input@, pos as int) =~= done);
                break;
            },
        };
        let end = match scan_value(&s, start, false) {
            Some((_, e)) => e,
            None => {
                assert(done + spec_extract_all(input@, pos as int) =~= done);
                break;
            },
        };
        let (a, b) = trim_span(&s, start, end);
        let piece = sub_str(input, &s, a, b);
        let next = if end > start + 1 {
            end
        } else {
            start + 1
        };
        proof {
            assert(spec_extract_all(input@, pos as int) == seq![(a as int, b as int)].add(
                spec_extract_all(input@, next as int),
            ));
            assert(done + spec_extract_all(input@, pos as int) =~= done.push((a as int, b as int))
                + spec_extract_all(input@, next as int));
            done = done.push((a as int, b as int));
            lemma_extract_all_step(input@, next as int);
        }
        values.push(piece);
        pos = next;
    }
    values
}

/// `t` stands in `s` from position `i` on.
pub open spec fn spec_piece_at(s: Seq<char>, i: int, t: Seq<char>) -> bool {
    0 <= i && i + t.len() <= s.len() && s.subrange(i, i + t.len()) == t
}

/// The two halves of a piece stand in `s` one after the other.
proof fn lemma_piece_split(s: Seq<char>, i: int, a: Seq<char>, b: Seq<char>)
    requires
        spec_piece_at(s, i, a + b),
    ensures
        spec_piece_at(s, i, a),
        spec_piece_at(s, i + a.len(), b),
{
    let w = s.subrange(i, i + a.len() + b.len());
    assert(w == a + b);
    assert forall|k: int| 0 <= k < a.len() implies s.subrange(i, i + a.len())[k] == a[k] by {
        assert(w[k] == (a + b)[k]);
    }
    assert forall|k: int| 0 <= k < b.len() implies s.subrange(
        i + a.len(),
        i + a.len() + b.len(),
    )[k] == b[k] by {
        assert(w[a.len() + k] == (a + b)[a.len() + k]);
    }
    assert(s.subrange(i, i + a.len()) =~= a);
    assert(s.subrange(i + a.len(), i + a.len() + b.len()) =~= b);
}

/// Characters the bracket scan passes over outside strings without a change.
pub open spec fn spec_scan_plain(c: char) -> bool {
    !spec_is_double_quote(c) && !spec_is_single_quote(c) && c != '/' && c != '{' && c != '['
        && c != '}' && c != ']'
}

/// Outside strings, plain characters leave the bracket scan as it was.
proof fn lemma_scan_plain(s: Seq<char>, i: int, t: Seq<char>, depth: nat)
    requires
        spec_piece_at(s, i, t),
        forall|k: int| 0 <= k < t.len() ==> spec_scan_plain(#[trigger] t[k]),
    ensures
        spec_container_scan(s, i, depth, None, false) == spec_container_scan(
            s,
            i + t.len(),
            depth,
            None,
            false,
        ),
    decreases t.len(),
{
    if t.len() > 0 {
        assert(s[i] == t[0]);
        assert(spec_scan_plain(t[0]));
        let rest = t.subrange(1, t.len() as int);
        assert(s.subrange(i + 1, i + 1 + rest.len()) =~= rest);
        lemma_scan_plain(s, i + 1, rest, depth);
    }
}

/// Inside a string, the escape of one character leaves both scans inside it.
proof fn lemma_scan_escape_char(s: Seq<char>, i: int, c: char, depth: nat)
    requires
        spec_piece_at(s, i, spec_escape_char(c)),
    ensures
        spec_container_scan(s, i, depth, Some('"'), false) == spec_container_scan(
            s,
            i + spec_escape_char(c).len(),
            depth,
            Some('"'),
            false,
        ),
        spec_string_scan(s, i, '"', false) == spec_string_scan(
            s,
            i + spec_escape_char(c).len(),
            '"',
            false,
        ),
{
    let u = spec_escape_char(c);
    let q = Some('"');
    assert(s[i] == u[0]);
    if u.len() == 1 {
        assert(u[0] != '"' && u[0] != '\\');
    } else if u.len() == 2 {
        assert(u[0] == '\\');
        assert(spec_container_scan(s, i, depth, q, false) == spec_container_scan(s, i + 1, depth, q, true));
        assert(spec_string_scan(s, i, '"', false) == spec_string_scan(s, i + 1, '"', true));
    } else {
        let code = c as u32;
        assert(u == seq!['\\', 'u', '0', '0', crate::value::spec_hex_digit(code / 16), crate::value::spec_hex_digit(code % 16)]);
        assert(s[i + 2] == u[2] && s[i + 3] == u[3] && s[i + 4] == u[4] && s[i + 5] == u[5]);
        assert(u[4] != '"' && u[4] != '\\' && u[5] != '"' && u[5] != '\\');
        assert(spec_container_scan(s, i, depth, q, false) == spec_container_scan(s, i + 1, depth, q, true));
        assert(spec_container_scan(s, i + 1, depth, q, true) == spec_container_scan(s, i + 2, depth, q, false));
        assert(spec_container_scan(s, i + 2, depth, q, false) == spec_container_scan(s, i + 3, depth, q, false));
        assert(spec_container_scan(s, i + 3, depth, q, false) == spec_container_scan(s, i + 4, depth, q, false));
        assert(spec_container_scan(s, i + 4, depth, q, false) == spec_container_scan(s, i + 5, depth, q, false));
        assert(spec_string_scan(s, i, '"', false) == spec_string_scan(s, i + 1, '"', true));
        assert(spec_string_scan(s, i + 1, '"', true) == spec_string_scan(s, i + 2, '"', false));
        assert(spec_string_scan(s, i + 2, '"', false) == spec_string_scan(s, i + 3, '"', false));
        assert(spec_string_scan(s, i + 3, '"', false) == spec_string_scan(s, i + 4, '"', false));
        assert(spec_string_scan(s, i + 4, '"', false) == spec_string_scan(s, i + 5, '"', false));
    }
}

/// Inside a string, an escaped body leaves both scans inside it.
proof fn lemma_scan_escape_body(s: Seq<char>, i: int, t: Seq<char>, depth: nat)
    requires
        spec_piece_at(s, i, spec_escape_body(t)),
    ensures
        spec_container_scan(s, i, depth, Some('"'), false) == spec_container_scan(
            s,
            i + spec_escape_body(t).len(),
            depth,
            Some('"'),
            false,
        ),
        spec_string_scan(s, i, '"', false) == spec_string_scan(
            s,
            i + spec_escape_body(t).len(),
            '"',
            false,
        ),
    decreases t.len(),
{
    if t.len() > 0 {
        let a = spec_escape_body(t.drop_last());
        let b = spec_escape_char(t.last());
        lemma_piece_split(s, i, a, b);
        lemma_scan_escape_body(s, i, t.drop_last(), depth);
        lemma_scan_escape_char(s, i + a.len(), t.last(), depth);
    }
}

/// A quoted string leaves the bracket scan outside strings, past its end;
/// the string scan from just inside it ends right after it.
proof fn lemma_scan_quote(s: Seq<char>, i: int, t: Seq<char>, depth: nat)
    requires
        spec_piece_at(s, i, spec_quote(t)),
    ensures
        spec_container_scan(s, i, depth, None, false) == spec_container_scan(
            s,
            i + spec_quote(t).len(),
            depth,
            None,
            false,
        ),
        spec_string_scan(s, i + 1, '"', false) == Some(i + spec_quote(t).len()),
{
    let b = spec_escape_body(t);
    lemma_piece_split(s, i, seq!['"'] + b, seq!['"']);
    lemma_piece_split(s, i, seq!['"'], b);
    assert(s[i] == '"') by {
        assert(s.subrange(i, i + 1)[0] == s[i]);
    }
    let j = i + 1 + b.len();
    assert(s[j] == '"') by {
        assert(s.subrange(j, j + 1)[0] == s[j]);
    }
    lemma_scan_escape_body(s, i + 1, t, depth);
    assert(spec_container_scan(s, i, depth, None, false) == spec_container_scan(
        s,
        i + 1,
        depth,
        Some('"'),
        false,
    ));
    assert(spec_container_scan(s, j, depth, Some('"'), false) == spec_container_scan(
        s,
        j + 1,
        depth,
        None,
        false,
    ));
    assert(spec_string_scan(s, j, '"', false) == Some(j + 1));
}

/// Number characters are plain to the bracket scan.
proof fn lemma_number_plain(n: Seq<char>)
    requires
        forall|k: int| 0 <= k < n.len() ==> spec_number_char(#[trigger] n[k]),
    ensures
        forall|k: int| 0 <= k < n.len() ==> spec_scan_plain(#[trigger] n[k]),
{
}

/// Separators are plain to the bracket scan.
proof fn lemma_separators_plain(spaced: bool)
    ensures
        forall|k: int| 0 <= k < comma(spaced).len() ==> spec_scan_plain(#[trigger] comma(spaced)[k]),
        forall|k: int| 0 <= k < colon(spaced).len() ==> spec_scan_plain(#[trigger] colon(spaced)[k]),
{
}

/// Inside brackets, the text of a value leaves the bracket scan outside
/// strings, at the same depth, past its end.
proof fn lemma_scan_layout(s: Seq<char>, i: int, v: Value, spaced: bool, depth: nat)
    requires
        depth >= 1,
        numbers_valid(v),
        spec_piece_at(s, i, layout(v, spaced)),
    ensures
        spec_container_scan(s, i, depth, None, false) == spec_container_scan(
            s,
            i + layout(v, spaced).len(),
            depth,
            None,
            false,
        ),
    decreases v,
{
    match v {
        Value::Null => {
            let w = seq!['n', 'u', 'l', 'l'];
            assert(layout(v, spaced) == w);
            assert forall|k: int| 0 <= k < w.len() implies spec_scan_plain(#[trigger] w[k]) by {}
            lemma_scan_plain(s, i, w, depth);
        },
        Value::Bool(b) => {
            let w = layout(v, spaced);
            assert forall|k: int| 0 <= k < w.len() implies spec_scan_plain(#[trigger] w[k]) by {}
            lemma_scan_plain(s, i, w, depth);
        },
        Value::Number(n) => {
            lemma_number_chars(n@);
            lemma_number_plain(n@);
            lemma_scan_plain(s, i, n@, depth);
        },
        Value::String(t) => {
            lemma_scan_quote(s, i, t@, depth);
        },
        Value::Array(items) => {
            let body = render_items(items@, spaced);
            lemma_piece_split(s, i, seq!['['] + body, seq![']']);
            lemma_piece_split(s, i, seq!['['], body);
            assert(s[i] == '[') by {
                assert(s.subrange(i, i + 1)[0] == s[i]);
            }
            let j = i + 1 + body.len();
            assert(s[j] == ']') by {
                assert(s.subrange(j, j + 1)[0] == s[j]);
            }
            lemma_scan_items(s, i + 1, items@, spaced, depth + 1);
            assert(spec_container_scan(s, i, depth, None, false) == spec_container_scan(
                s,
                i + 1,
                depth + 1,
                None,
                false,
            ));
            assert(spec_container_scan(s, j, depth + 1, None, false) == spec_container_scan(
                s,
                j + 1,
                depth,
                None,
                false,
            ));
        },
        Value::Object(members) => {
            let body = render_members(members@, spaced);
            lemma_piece_split(s, i, seq!['{'] + body, seq!['}']);
            lemma_piece_split(s, i, seq!['{'], body);
            assert(s[i] == '{') by {
                assert(s.subrange(i, i + 1)[0] == s[i]);
            }
            let j = i + 1 + body.len();
            assert(s[j] == '}') by {
                assert(s.subrange(j, j + 1)[0] == s[j]);
            }
            lemma_scan_members(s, i + 1, members@, spaced, depth + 1);
            assert(spec_container_scan(s, i, depth, None, false) == spec_container_scan(
                s,
                i + 1,
                depth + 1,
                None,
                false,
            ));
            assert(spec_container_scan(s, j, depth + 1, None, false) == spec_container_scan(
                s,
                j + 1,
                depth,
                None,
                false,
            ));
        },
    }
}

/// Inside brackets, the text of elements leaves the bracket scan outside
/// strings, at the same depth, past its end.
proof fn lemma_scan_items(s: Seq<char>, i: int, items: Seq<Value>, spaced: bool, depth: nat)
    requires
        depth >= 1,
        items_valid(items),
        spec_piece_at(s, i, render_items(items, spaced)),
    ensures
        spec_container_scan(s, i, depth, None, false) == spec_container_scan(
            s,
            i + render_items(items, spaced).len(),
            depth,
            None,
            false,
        ),
    decreases items,
{
    if items.len() == 1 {
        lemma_scan_layout(s, i, items[0], spaced, depth);
    } else if items.len() > 1 {
        let a = render_items(items.drop_last(), spaced);
        let c = comma(spaced);
        let l = layout(items.last(), spaced);
        lemma_piece_split(s, i, a + c, l);
        lemma_piece_split(s, i, a, c);
        lemma_scan_items(s, i, items.drop_last(), spaced, depth);
        lemma_separators_plain(spaced);
        lemma_scan_plain(s, i + a.len(), c, depth);
        lemma_scan_layout(s, i + a.len() + c.len(), items.last(), spaced, depth);
    }
}

/// Inside braces, the text of members leaves the bracket scan outside
/// strings, at the same depth, past its end.
proof fn lemma_scan_members(
    s: Seq<char>,
    i: int,
    members: Seq<(String, Value)>,
    spaced: bool,
    depth: nat,
)
    requires
        depth >= 1,
        members_valid(members),
        spec_piece_at(s, i, render_members(members, spaced)),
    ensures
        spec_container_scan(s, i, depth, None, false) == spec_container_scan(
            s,
            i + render_members(members, spaced).len(),
            depth,
            None,
            false,
        ),
    decreases members,
{
    if members.len() >= 1 {
        let mm = members.last();
        let q = spec_quote(mm.0@);
        let k = colon(spaced);
        let rv = layout(mm.1, spaced);
        let a = if members.len() > 1 {
            render_members(members.drop_last(), spaced) + comma(spaced)
        } else {
            Seq::<char>::empty()
        };
        assert(render_members(members, spaced) =~= a + q + k + rv) by {
            assert(render_member(mm, spaced) == q + k + rv);
            if members.len() == 1 {
                assert(mm == members[0]);
            }
        }
        lemma_piece_split(s, i, a + q + k, rv);
        lemma_piece_split(s, i, a + q, k);
        lemma_piece_split(s, i, a, q);
        lemma_separators_plain(spaced);
        if members.len() > 1 {
            lemma_piece_split(s, i, render_members(members.drop_last(), spaced), comma(spaced));
            lemma_scan_members(s, i, members.drop_last(), spaced, depth);
            lemma_scan_plain(
                s,
                i + render_members(members.drop_last(), spaced).len(),
                comma(spaced),
                depth,
            );
        }
        lemma_scan_quote(s, i + a.len(), mm.0@, depth);
        lemma_scan_plain(s, i + a.len() + q.len(), k, depth);
        lemma_scan_layout(s, i + a.len() + q.len() + k.len(), mm.1, spaced, depth);
    }
}

/// Without backticks there is no fence.
proof fn lemma_no_fence(s: Seq<char>, i: int)
    requires
        0 <= i,
        forall|k: int| 0 <= k < s.len() ==> s[k] != '`',
    ensures
        spec_find_fence(s, i) is None,
    decreases s.len() - i,
{
    if i + 3 <= s.len() {
        assert(s[i] != '`');
        lemma_no_fence(s, i + 1);
    }
}

/// Without backticks there is no fenced block.
proof fn lemma_not_fenced(s: Seq<char>)
    requires
        forall|k: int| 0 <= k < s.len() ==> s[k] != '`',
    ensures
        spec_fenced(s, 0, None) is None,
{
    lemma_no_fence(s, 0);
}

/// A run of number characters to the end of input is one bare scalar.
proof fn lemma_scalar_to_end(s: Seq<char>, i: int)
    requires
        0 <= i <= s.len(),
        forall|k: int| i <= k < s.len() ==> spec_number_char(#[trigger] s[k]),
    ensures
        spec_scalar_end(s, i) == s.len(),
    decreases s.len() - i,
{
    if i < s.len() {
        assert(spec_number_char(s[i]));
        lemma_scalar_to_end(s, i + 1);
    }
}

/// A text that starts with a value and, unless that is a bracket or brace,
/// holds none, has its first value at position 0.
proof fn lemma_value_at_start(text: Seq<char>)
    requires
        text.len() >= 1,
        text[0] == '{' || text[0] == '[' || (spec_value_start_at(text, 0) && forall|k: int|
            0 <= k < text.len() ==> text[k] != '{' && text[k] != '['),
    ensures
        spec_first_value_start(text, 0) == Some(0int),
{
    if text[0] == '{' || text[0] == '[' {
        assert(spec_opener_at(text, 0));
        lemma_least_opener(text, 0, 0);
        let w = choose|i: int|
            0 <= i && spec_opener_at(text, i) && forall|j: int| 0 <= j < i ==> !spec_opener_at(text, j);
        assert(w == 0);
    } else {
        assert(!exists|i: int| 0 <= i && spec_opener_at(text, i));
        lemma_least_value_start(text, 0, 0);
        let w = choose|i: int|
            0 <= i && spec_value_start_at(text, i) && forall|j: int|
                0 <= j < i ==> !spec_value_start_at(text, j);
        assert(w == 0);
    }
}

/// The text of a bracketed value ends where the bracket scan from its
/// start ends.
proof fn lemma_container_text_end(v: Value, spaced: bool)
    requires
        numbers_valid(v),
        v is Array || v is Object,
    ensures
        spec_value_end(layout(v, spaced), 0, false) == Some(layout(v, spaced).len() as int),
        !spec_is_unicode_ws(layout(v, spaced)[layout(v, spaced).len() - 1]),
{
    let text = layout(v, spaced);
    let n = text.len() as int;
    assert(spec_piece_at(text, 0, text)) by {
        assert(text.subrange(0, n) =~= text);
    }
    match v {
        Value::Array(items) => {
            let body = render_items(items@, spaced);
            lemma_piece_split(text, 0, seq!['['] + body, seq![']']);
            lemma_piece_split(text, 0, seq!['['], body);
            lemma_scan_items(text, 1, items@, spaced, 1);
            assert(text[n - 1] == ']');
        },
        Value::Object(members) => {
            let body = render_members(members@, spaced);
            lemma_piece_split(text, 0, seq!['{'] + body, seq!['}']);
            lemma_piece_split(text, 0, seq!['{'], body);
            lemma_scan_members(text, 1, members@, spaced, 1);
            assert(text[n - 1] == '}');
        },
        _ => {},
    }
    assert(spec_container_scan(text, 0, 0, None, false) == spec_container_scan(
        text,
        1,
        1,
        None,
        false,
    ));
    assert(spec_container_scan(text, n - 1, 1, None, false) == Some(n));
}

/// The text of a string or number ends at the end of its value.
proof fn lemma_scalar_text_end(v: Value, spaced: bool)
    requires
        numbers_valid(v),
        v is String || v is Number,
    ensures
        spec_value_end(layout(v, spaced), 0, false) == Some(layout(v, spaced).len() as int),
        !spec_is_unicode_ws(layout(v, spaced)[layout(v, spaced).len() - 1]),
{
    let text = layout(v, spaced);
    let n = text.len() as int;
    lemma_render_first(v, spaced);
    match v {
        Value::String(t) => {
            assert(spec_piece_at(text, 0, spec_quote(t@))) by {
                assert(text.subrange(0, n) =~= text);
            }
            lemma_scan_quote(text, 0, t@, 0);
            assert(text[n - 1] == '"');
        },
        Value::Number(num) => {
            lemma_number_chars(num@);
            lemma_scalar_to_end(text, 0);
            assert(spec_number_char(text[n - 1]));
            assert(spec_number_char(text[0]));
        },
        _ => {},
    }
}

/// When the text is only a JSON document that starts with a bracket, a
/// brace, a quote, or a number (and holds no backtick, nor, unless it
/// starts with one, a bracket or brace), extraction finds the whole text.
/// Bare keywords are not extracted: they read as prose.
pub proof fn lemma_extract_whole_document(text: Seq<char>, spaced: bool)
    requires
        is_json_text(text, spaced),
        forall|k: int| 0 <= k < text.len() ==> text[k] != '`',
        text[0] == '{' || text[0] == '[' || ((text[0] == '"' || spec_is_digit(text[0]) || text[0]
            == '-') && forall|k: int| 0 <= k < text.len() ==> text[k] != '{' && text[k] != '['),
    ensures
        spec_extract_span(text) == Some((0int, text.len() as int)),
{
    let v = choose|v: Value|
        depth(v) <= MAX_NESTING_DEPTH && numbers_valid(v) && #[trigger] layout(v, spaced) == text;
    lemma_render_first(v, spaced);
    let n = text.len() as int;
    lemma_not_fenced(text);
    assert(spec_value_start_at(text, 0));
    lemma_value_at_start(text);
    if v is Array || v is Object {
        lemma_container_text_end(v, spaced);
    } else if v is String || v is Number {
        lemma_scalar_text_end(v, spaced);
    } else {
        assert(text[0] == 'n' || text[0] == 't' || text[0] == 'f');
    }
    assert(spec_value_end(text, 0, false) == Some(n));
    assert(!spec_is_unicode_ws(text[0]));
    assert(spec_trim_front(text, 0, n) == 0);
    assert(spec_trim_back(text, 0, n) == n);
}

} // verus!
