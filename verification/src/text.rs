//! Text plumbing: `str` to `char` sequences and back, byte offsets of
//! character positions, and slicing a `str` by character positions.
use vstd::prelude::*;
use vstd::utf8::*;
use vstd::string::*;

verus! {

broadcast use vstd::string::group_string_axioms;

/// The characters of `s`, in order.
pub fn chars_of(s: &str) -> (v: Vec<char>)
    ensures
        v@ == s@,
{
    let mut v: Vec<char> = Vec::new();
    for c in it: s.chars()
        invariant
            v@ == it.seq().take(it.index() as int),
            it.seq() == s@,
    {
        v.push(c);
    }
    v
}

/// A `String` holding exactly the characters of `v`.
pub fn string_of(v: &[char]) -> (s: String)
    ensures
        s@ == v@,
{
    let mut s = String::new();
    let mut i: usize = 0;
    while i < v.len()
        invariant
            i <= v@.len(),
            s@ == v@.take(i as int),
        decreases v@.len() - i,
    {
        push_char(&mut s, v[i]);
        i = i + 1;
        proof {
            assert(s@ =~= v@.take(i as int));
        }
    }
    proof {
        assert(v@.take(v@.len() as int) =~= v@);
    }
    s
}

/// Appends one character (`String::push`).
#[verifier::external_body]
pub fn push_char(s: &mut String, c: char)
    ensures
        final(s)@ == old(s)@.push(c),
{
    s.push(c)
}

/// Appends a string slice.
pub fn push_str(s: &mut String, t: &str)
    ensures
        final(s)@ == old(s)@ + t@,
{
    s.append(t)
}

/// Number of bytes of the UTF-8 encoding of `s`.
pub open spec fn utf8_len(s: Seq<char>) -> nat {
    encode_utf8(s).len()
}

/// Encoding distributes over concatenation.
pub proof fn lemma_encode_concat(a: Seq<char>, b: Seq<char>)
    ensures
        encode_utf8(a + b) == encode_utf8(a) + encode_utf8(b),
    decreases a.len(),
{
    if a.len() == 0 {
        assert(a + b =~= b);
        assert(encode_utf8(a) + encode_utf8(b) =~= encode_utf8(b));
    } else {
        lemma_encode_concat(a.drop_first(), b);
        assert((a + b).drop_first() =~= a.drop_first() + b);
        assert((a + b)[0] == a[0]);
        assert(encode_utf8(a + b) =~= encode_scalar(a[0] as u32) + encode_utf8(a.drop_first() + b));
        assert(encode_utf8(a) =~= encode_scalar(a[0] as u32) + encode_utf8(a.drop_first()));
    }
}

/// Number of bytes of the UTF-8 encoding of `c`.
pub open spec fn char_width(c: char) -> nat {
    encode_scalar(c as u32).len()
}

/// Number of bytes of the UTF-8 encoding of `c` (`char::len_utf8`).
pub fn char_len_utf8(c: char) -> (n: usize)
    ensures
        n == char_width(c),
        1 <= n <= 4,
{
    let u = c as u32;
    if u < 0x80 {
        1
    } else if u < 0x800 {
        2
    } else if u < 0x10000 {
        3
    } else {
        4
    }
}

/// The encoding of a one-character extension.
pub proof fn lemma_encode_push(s: Seq<char>, c: char)
    ensures
        utf8_len(s.push(c)) == utf8_len(s) + char_width(c),
{
    lemma_encode_concat(s, seq![c]);
    assert(s.push(c) =~= s + seq![c]);
    assert(seq![c].drop_first() =~= Seq::<char>::empty());
    assert(encode_utf8(seq![c]) =~= encode_scalar(c as u32) + encode_utf8(Seq::<char>::empty()));
}

/// Prefix encodings never exceed the whole encoding.
pub proof fn lemma_utf8_len_prefix(s: Seq<char>, i: int)
    requires
        0 <= i <= s.len(),
    ensures
        utf8_len(s.take(i)) <= utf8_len(s),
{
    lemma_encode_concat(s.take(i), s.skip(i));
    assert(s.take(i) + s.skip(i) =~= s);
}

/// The byte offset of character position `i` in `s`.
pub fn byte_offset(s: &[char], i: usize) -> (r: usize)
    requires
        i <= s@.len(),
        utf8_len(s@) <= usize::MAX,
    ensures
        r == utf8_len(s@.take(i as int)),
{
    let mut k: usize = 0;
    let mut acc: usize = 0;
    while k < i
        invariant
            k <= i <= s@.len(),
            utf8_len(s@) <= usize::MAX,
            acc == utf8_len(s@.take(k as int)),
        decreases i - k,
    {
        proof {
            assert(s@.take(k + 1) =~= s@.take(k as int).push(s@[k as int]));
            lemma_encode_push(s@.take(k as int), s@[k as int]);
            lemma_utf8_len_prefix(s@, k + 1);
        }
        acc = acc + char_len_utf8(s[k]);
        k = k + 1;
    }
    acc
}

/// The prefix encoding ends on a character boundary of the whole encoding.
pub proof fn lemma_boundary(a: Seq<char>, b: Seq<char>)
    ensures
        valid_utf8(encode_utf8(a + b)),
        is_char_boundary(encode_utf8(a + b), encode_utf8(a).len() as int),
    decreases a.len(),
{
    encode_utf8_valid_utf8(a + b);
    if a.len() == 0 {
    } else {
        let ab = a + b;
        let bytes = encode_utf8(ab);
        encode_utf8_first_scalar(ab);
        assert(pop_first_scalar(bytes) =~= encode_utf8(ab.drop_first()));
        assert(ab.drop_first() =~= a.drop_first() + b);
        assert(ab[0] == a[0]);
        assert(encode_utf8(a) =~= encode_scalar(a[0] as u32) + encode_utf8(a.drop_first()));
        lemma_boundary(a.drop_first(), b);
    }
}

/// The characters of a byte range that starts and ends on the encodings of
/// character positions.
proof fn lemma_split_chars(s: Seq<char>, i: int)
    requires
        0 <= i <= s.len(),
    ensures
        valid_utf8(encode_utf8(s)),
        is_char_boundary(encode_utf8(s), utf8_len(s.take(i)) as int),
        encode_utf8(s).subrange(0, utf8_len(s.take(i)) as int) == encode_utf8(s.take(i)),
        encode_utf8(s).subrange(utf8_len(s.take(i)) as int, utf8_len(s) as int) == encode_utf8(
            s.skip(i),
        ),
{
    assert(s.take(i) + s.skip(i) =~= s);
    lemma_boundary(s.take(i), s.skip(i));
    lemma_encode_concat(s.take(i), s.skip(i));
}

/// `str::split_at` at a character position: returns the slices holding the
/// characters before and after position `i`.
pub fn split_at_char<'a>(s: &'a str, chars: &[char], i: usize) -> (r: (&'a str, &'a str))
    requires
        chars@ == s@,
        i <= chars@.len(),
    ensures
        r.0@ == s@.take(i as int),
        r.1@ == s@.skip(i as int),
{
    let n = str_byte_len(s);
    let b = byte_offset(chars, i);
    proof {
        lemma_split_chars(s@, i as int);
    }
    let r = s.split_at(b);
    proof {
        encode_utf8_decode_utf8(r.0@);
        encode_utf8_decode_utf8(r.1@);
        encode_utf8_decode_utf8(s@.take(i as int));
        encode_utf8_decode_utf8(s@.skip(i as int));
    }
    r
}

/// The slice of `s` holding its characters `start..end`.
pub fn sub_str<'a>(s: &'a str, chars: &[char], start: usize, end: usize) -> (r: &'a str)
    requires
        chars@ == s@,
        start <= end <= chars@.len(),
    ensures
        r@ == s@.subrange(start as int, end as int),
{
    let (_, tail) = split_at_char(s, chars, start);
    let tail_chars = chars_of(tail);
    let (mid, _) = split_at_char(tail, &tail_chars, end - start);
    assert(s@.skip(start as int).take(end - start) =~= s@.subrange(start as int, end as int));
    mid
}

/// The byte length of `s`, which is the length of its UTF-8 encoding.
pub fn str_byte_len(s: &str) -> (n: usize)
    ensures
        n == utf8_len(s@),
{
    let b = s.as_bytes();
    b.len()
}

} // verus!
