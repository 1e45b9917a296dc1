//! Streaming repair for input that arrives in chunks: LLM tokens, pipes, logs.
use vstd::prelude::*;
use crate::error::{Error, ErrorKind};
use crate::options::{spec_repairs, Options};
use crate::parser::bracket_run;
use crate::text::{byte_offset, chars_of, push_str, str_byte_len, sub_str, utf8_len};
use crate::value::{depth, render, Value};
use crate::{
    is_json_text, is_rendering, is_text_of, spec_canonical_text, spec_effective_input,
    starts_with_closer, MAX_NESTING_DEPTH,
};

verus! {

broadcast use vstd::string::group_string_axioms;

/// What changed between two consecutive repaired outputs.
#[derive(Debug, Clone, Copy, PartialEq, Eq)]
pub struct Delta<'a> {
    /// Keep this many bytes of your previous buffer.
    pub keep: usize,
    /// Then append this text.
    pub text: &'a str,
}

/// The length of the longest common prefix of `a` and `b`.
pub open spec fn spec_common_prefix_len(a: Seq<char>, b: Seq<char>) -> nat
    decreases a.len(),
{
    if a.len() == 0 || b.len() == 0 || a[0] != b[0] {
        0
    } else {
        1 + spec_common_prefix_len(a.drop_first(), b.drop_first())
    }
}

proof fn lemma_common_prefix(a: Seq<char>, b: Seq<char>)
    ensures
        spec_common_prefix_len(a, b) <= a.len(),
        spec_common_prefix_len(a, b) <= b.len(),
        a.take(spec_common_prefix_len(a, b) as int) == b.take(spec_common_prefix_len(a, b) as int),
    decreases a.len(),
{
    if a.len() == 0 || b.len() == 0 || a[0] != b[0] {
        assert(a.take(0) =~= b.take(0));
    } else {
        lemma_common_prefix(a.drop_first(), b.drop_first());
        let k = spec_common_prefix_len(a, b) as int;
        assert(a.take(k) =~= seq![a[0]] + a.drop_first().take(k - 1));
        assert(b.take(k) =~= seq![b[0]] + b.drop_first().take(k - 1));
    }
}

/// The number of leading characters that `x` and `y` share.
fn common_prefix_chars(x: &[char], y: &[char]) -> (r: usize)
    ensures
        r == spec_common_prefix_len(x@, y@),
{
    let mut k: usize = 0;
    proof {
        assert(x@.skip(0) =~= x@);
        assert(y@.skip(0) =~= y@);
    }
    while k < x.len() && k < y.len() && x[k] == y[k]
        invariant
            k <= x@.len(),
            k <= y@.len(),
            spec_common_prefix_len(x@, y@) == k + spec_common_prefix_len(
                x@.skip(k as int),
                y@.skip(k as int),
            ),
        decreases x@.len() - k,
    {
        proof {
            assert(x@.skip(k as int).drop_first() =~= x@.skip(k + 1));
            assert(y@.skip(k as int).drop_first() =~= y@.skip(k + 1));
        }
        k = k + 1;
    }
    proof {
        assert(spec_common_prefix_len(x@.skip(k as int), y@.skip(k as int)) == 0);
    }
    k
}

/// Repairs a document that is revealed one chunk at a time.
///
/// The whole input is retained so that every chunk produces the same result
/// as repairing the complete document in one call. Feed chunks with `push`
/// and render the returned text; call `reset` when a document is finished.
#[derive(Debug)]
pub struct StreamRepairer {
    input: String,
    current: String,
    opts: Options,
}

impl StreamRepairer {
    /// The output is empty or the canonical rendering of a value.
    #[verifier::type_invariant]
    spec fn output_is_rendering(self) -> bool {
        self.current@.len() == 0 || is_rendering(self.current@)
    }

    /// The input accumulated so far.
    pub closed spec fn spec_input(&self) -> Seq<char> {
        self.input@
    }

    /// The output of the last successful push.
    pub closed spec fn spec_output(&self) -> Seq<char> {
        self.current@
    }

    /// The options every render uses.
    pub closed spec fn spec_options(&self) -> Options {
        self.opts
    }

    /// A stream repairer that runs every repair pass.
    pub fn new() -> (r: Self)
        ensures
            r.spec_input().len() == 0,
            r.spec_output().len() == 0,
            r.spec_options().allow@ == 127,
            r.spec_options().repairs@ == 4095,
    {
        Self::with_options(Options::all())
    }

    /// A stream repairer with explicit options, e.g. a partial policy.
    pub fn with_options(opts: Options) -> (r: Self)
        ensures
            r.spec_input().len() == 0,
            r.spec_output().len() == 0,
            r.spec_options() == opts,
    {
        StreamRepairer { input: String::new(), current: String::new(), opts }
    }

    /// Appends `chunk` and returns the whole repaired document so far.
    ///
    /// If the accumulated input cannot be repaired, the chunk is rolled back
    /// and the error is returned: the stream still holds the last state that
    /// parsed.
    pub fn push(&mut self, chunk: &str) -> (r: Result<&str, Error>)
        ensures
            final(self).spec_options() == old(self).spec_options(),
            r is Ok ==> final(self).spec_input() == old(self).spec_input() + chunk@,
            r is Ok ==> is_rendering(final(self).spec_output()),
            r matches Ok(out) ==> out@ == final(self).spec_output(),
            r is Err ==> final(self).spec_input() == old(self).spec_input(),
            r is Err ==> final(self).spec_output() == old(self).spec_output(),
            is_rendering(old(self).spec_input() + chunk@) ==> r is Ok && final(self).spec_output()
                == final(self).spec_input(),
            is_json_text(old(self).spec_input() + chunk@, false) ==> r is Ok && exists|w: Value|
                final(self).spec_output() == #[trigger] render(w) && is_text_of(
                    w,
                    final(self).spec_input(),
                ),
            is_json_text(old(self).spec_input() + chunk@, false) ==> r is Ok
                && final(self).spec_output() == spec_canonical_text(final(self).spec_input()),
            starts_with_closer(
                old(self).spec_options(),
                spec_effective_input(
                    old(self).spec_input() + chunk@,
                    spec_repairs(old(self).spec_options(), 4),
                ),
            ) ==> (r matches Err(e) && e.spec_kind() == ErrorKind::NoValueFound
                && final(self).spec_input() == old(self).spec_input()),
            crate::parser::lone_word_at(
                old(self).spec_options(),
                spec_effective_input(
                    old(self).spec_input() + chunk@,
                    spec_repairs(old(self).spec_options(), 4),
                ),
                0,
            ) matches Some(text) ==> (r is Ok && exists|w: String|
                w@ == text && final(self).spec_output() == #[trigger] render(Value::String(w))),
            crate::parser::lone_keyword_at(
                old(self).spec_options(),
                spec_effective_input(
                    old(self).spec_input() + chunk@,
                    spec_repairs(old(self).spec_options(), 4),
                ),
                0,
            ) matches Some(v) ==> (r is Ok && final(self).spec_output() == render(v)),
            crate::parser::lone_string_at(
                old(self).spec_options(),
                spec_effective_input(
                    old(self).spec_input() + chunk@,
                    spec_repairs(old(self).spec_options(), 4),
                ),
                0,
            ) matches Some(text) ==> (r is Ok && exists|w: String|
                w@ == text && final(self).spec_output() == #[trigger] render(Value::String(w))),
            crate::parser::lone_number_at(
                old(self).spec_options(),
                spec_effective_input(
                    old(self).spec_input() + chunk@,
                    spec_repairs(old(self).spec_options(), 4),
                ),
                0,
            ) matches Some(text) ==> (r is Ok && final(self).spec_output() == text),
            crate::parser::ndjson_numbers_at(
                old(self).spec_options(),
                spec_effective_input(
                    old(self).spec_input() + chunk@,
                    spec_repairs(old(self).spec_options(), 4),
                ),
                0,
            ) matches Some(texts) ==> (texts.len() >= 2 ==> (r is Ok && exists|items: Vec<Value>|
                crate::parser::numbers_with_texts(items@, texts) && final(self).spec_output()
                    == #[trigger] render(Value::Array(items)))),
    {
        proof {
            use_type_invariant(&*self);
        }
        let mut candidate = String::new();
        push_str(&mut candidate, self.input.as_str());
        push_str(&mut candidate, chunk);
        proof {
            assert(candidate@ =~= self.input@ + chunk@);
        }
        match crate::repair_with(candidate.as_str(), self.opts) {
            Ok(out) => {
                self.input = candidate;
                self.current = out;
                Ok(self.current.as_str())
            },
            Err(e) => Err(e),
        }
    }

    /// Appends `chunk` and returns only the changed tail: truncate your
    /// buffer to `keep` bytes and append `text`. On error the chunk is rolled
    /// back, as in `push`.
    pub fn push_delta(&mut self, chunk: &str) -> (r: Result<Delta<'_>, Error>)
        ensures
            final(self).spec_options() == old(self).spec_options(),
            r is Ok ==> final(self).spec_input() == old(self).spec_input() + chunk@,
            r is Ok ==> is_rendering(final(self).spec_output()),
            r matches Ok(d) ==> ({
                let k = spec_common_prefix_len(old(self).spec_output(), final(self).spec_output());
                &&& k <= old(self).spec_output().len()
                &&& k <= final(self).spec_output().len()
                &&& old(self).spec_output().take(k as int) == final(self).spec_output().take(
                    k as int,
                )
                &&& d.keep == utf8_len(final(self).spec_output().take(k as int))
                &&& d.text@ == final(self).spec_output().skip(k as int)
            }),
            r is Err ==> final(self).spec_input() == old(self).spec_input(),
            r is Err ==> final(self).spec_output() == old(self).spec_output(),
            is_rendering(old(self).spec_input() + chunk@) ==> r is Ok && final(self).spec_output()
                == final(self).spec_input(),
            is_json_text(old(self).spec_input() + chunk@, false) ==> r is Ok && exists|w: Value|
                final(self).spec_output() == #[trigger] render(w) && is_text_of(
                    w,
                    final(self).spec_input(),
                ),
            is_json_text(old(self).spec_input() + chunk@, false) ==> r is Ok
                && final(self).spec_output() == spec_canonical_text(final(self).spec_input()),
            (old(self).spec_input() + chunk@).len() == 0 ==> (r matches Err(e) && e.spec_kind()
                == ErrorKind::NoValueFound),
            bracket_run(
                spec_effective_input(
                    old(self).spec_input() + chunk@,
                    spec_repairs(old(self).spec_options(), 4),
                ),
                0,
                MAX_NESTING_DEPTH + 1,
            ) ==> (r matches Err(e) && e.spec_kind() == ErrorKind::DepthLimitExceeded),
            starts_with_closer(
                old(self).spec_options(),
                spec_effective_input(
                    old(self).spec_input() + chunk@,
                    spec_repairs(old(self).spec_options(), 4),
                ),
            ) ==> (r matches Err(e) && e.spec_kind() == ErrorKind::NoValueFound
                && final(self).spec_input() == old(self).spec_input()),
            crate::parser::lone_word_at(
                old(self).spec_options(),
                spec_effective_input(
                    old(self).spec_input() + chunk@,
                    spec_repairs(old(self).spec_options(), 4),
                ),
                0,
            ) matches Some(text) ==> (r is Ok && exists|w: String|
                w@ == text && final(self).spec_output() == #[trigger] render(Value::String(w))),
            crate::parser::lone_keyword_at(
                old(self).spec_options(),
                spec_effective_input(
                    old(self).spec_input() + chunk@,
                    spec_repairs(old(self).spec_options(), 4),
                ),
                0,
            ) matches Some(v) ==> (r is Ok && final(self).spec_output() == render(v)),
            crate::parser::lone_string_at(
                old(self).spec_options(),
                spec_effective_input(
                    old(self).spec_input() + chunk@,
                    spec_repairs(old(self).spec_options(), 4),
                ),
                0,
            ) matches Some(text) ==> (r is Ok && exists|w: String|
                w@ == text && final(self).spec_output() == #[trigger] render(Value::String(w))),
            crate::parser::lone_number_at(
                old(self).spec_options(),
                spec_effective_input(
                    old(self).spec_input() + chunk@,
                    spec_repairs(old(self).spec_options(), 4),
                ),
                0,
            ) matches Some(text) ==> (r is Ok && final(self).spec_output() == text),
            crate::parser::ndjson_numbers_at(
                old(self).spec_options(),
                spec_effective_input(
                    old(self).spec_input() + chunk@,
                    spec_repairs(old(self).spec_options(), 4),
                ),
                0,
            ) matches Some(texts) ==> (texts.len() >= 2 ==> (r is Ok && exists|items: Vec<Value>|
                crate::parser::numbers_with_texts(items@, texts) && final(self).spec_output()
                    == #[trigger] render(Value::Array(items)))),
    {
        proof {
            use_type_invariant(&*self);
        }
        let mut candidate = String::new();
        push_str(&mut candidate, self.input.as_str());
        push_str(&mut candidate, chunk);
        proof {
            assert(candidate@ =~= self.input@ + chunk@);
        }
        match crate::repair_with(candidate.as_str(), self.opts) {
            Ok(out) => {
                let old_chars = chars_of(self.current.as_str());
                let new_chars = chars_of(out.as_str());
                let k = common_prefix_chars(old_chars.as_slice(), new_chars.as_slice());
                proof {
                    lemma_common_prefix(self.current@, out@);
                }
                let _ = str_byte_len(out.as_str());
                let keep = byte_offset(new_chars.as_slice(), k);
                self.input = candidate;
                self.current = out;
                let text = sub_str(self.current.as_str(), new_chars.as_slice(), k, new_chars.len());
                proof {
                    assert(self.current@.subrange(k as int, self.current@.len() as int)
                        =~= self.current@.skip(k as int));
                }
                Ok(Delta { keep, text })
            },
            Err(e) => Err(e),
        }
    }

    /// Parses everything pushed so far.
    pub fn value(&self) -> (r: Result<Value, Error>)
        ensures
            r matches Ok(v) ==> depth(v) <= MAX_NESTING_DEPTH && crate::value::numbers_valid(v),
            r matches Ok(v) ==> is_rendering(render(v)),
            self.spec_input().len() == 0 ==> (r matches Err(e) && e.spec_kind()
                == ErrorKind::NoValueFound),
            is_rendering(self.spec_input()) ==> (r matches Ok(w) && render(w) == self.spec_input()),
            is_json_text(self.spec_input(), false) ==> (r matches Ok(w) && is_text_of(
                w,
                self.spec_input(),
            ) && render(w) == spec_canonical_text(self.spec_input())),
            ({
                let eff = spec_effective_input(
                    self.spec_input(),
                    spec_repairs(self.spec_options(), 4),
                );
                &&& is_rendering(eff) ==> (r matches Ok(w) && render(w) == eff)
                &&& is_json_text(eff, false) ==> (r matches Ok(w) && is_text_of(w, eff) && render(w)
                    == spec_canonical_text(eff))
                &&& bracket_run(eff, 0, MAX_NESTING_DEPTH + 1) ==> (r matches Err(e)
                    && e.spec_kind() == ErrorKind::DepthLimitExceeded)
            }),
            starts_with_closer(
                self.spec_options(),
                spec_effective_input(self.spec_input(), spec_repairs(self.spec_options(), 4)),
            ) ==> (r matches Err(e) && e.spec_kind() == ErrorKind::NoValueFound
                && e.spec_position() == 0),
            crate::parser::lone_word_at(
                self.spec_options(),
                spec_effective_input(self.spec_input(), spec_repairs(self.spec_options(), 4)),
                0,
            ) matches Some(text) ==> (r matches Ok(Value::String(w)) && w@ == text),
            crate::parser::lone_keyword_at(
                self.spec_options(),
                spec_effective_input(self.spec_input(), spec_repairs(self.spec_options(), 4)),
                0,
            ) matches Some(v) ==> r == Ok::<Value, Error>(v),
            crate::parser::lone_string_at(
                self.spec_options(),
                spec_effective_input(self.spec_input(), spec_repairs(self.spec_options(), 4)),
                0,
            ) matches Some(text) ==> (r matches Ok(Value::String(w)) && w@ == text),
            crate::parser::lone_number_at(
                self.spec_options(),
                spec_effective_input(self.spec_input(), spec_repairs(self.spec_options(), 4)),
                0,
            ) matches Some(text) ==> (r matches Ok(Value::Number(n)) && n@ == text),
            crate::parser::ndjson_numbers_at(
                self.spec_options(),
                spec_effective_input(self.spec_input(), spec_repairs(self.spec_options(), 4)),
                0,
            ) matches Some(texts) ==> (texts.len() >= 2 ==> (r matches Ok(Value::Array(items))
                && crate::parser::numbers_with_texts(items@, texts))),
    {
        crate::parse_with(self.input.as_str(), self.opts)
    }

    /// The raw input accumulated so far.
    pub fn input(&self) -> (r: &str)
        ensures
            r@ == self.spec_input(),
    {
        self.input.as_str()
    }

    /// The repaired output produced by the last successful push: empty, or
    /// the canonical rendering of a value.
    pub fn output(&self) -> (r: &str)
        ensures
            r@ == self.spec_output(),
            r@.len() == 0 || is_rendering(r@),
    {
        proof {
            use_type_invariant(self);
        }
        self.current.as_str()
    }

    /// Number of input bytes accumulated.
    pub fn len(&self) -> (r: usize)
        ensures
            r == utf8_len(self.spec_input()),
    {
        str_byte_len(self.input.as_str())
    }

    /// Whether nothing has been pushed yet.
    pub fn is_empty(&self) -> (r: bool)
        ensures
            r == (self.spec_input().len() == 0),
    {
        let n = str_byte_len(self.input.as_str());
        proof {
            vstd::utf8::encode_utf8_decode_utf8(self.input@);
            if self.input@.len() > 0 {
                assert(self.input@ == vstd::utf8::decode_utf8(vstd::utf8::encode_utf8(self.input@)));
            }
        }
        n == 0
    }

    /// Forgets the current document so the next chunk starts a new one.
    pub fn reset(&mut self)
        ensures
            final(self).spec_input().len() == 0,
            final(self).spec_output().len() == 0,
            final(self).spec_options() == old(self).spec_options(),
    {
        proof {
            use_type_invariant(&*self);
        }
        self.input = String::new();
        self.current = String::new();
    }
}

impl Default for StreamRepairer {
    fn default() -> (r: Self)
        ensures
            r.spec_input().len() == 0,
            r.spec_output().len() == 0,
            r.spec_options().allow@ == 127,
            r.spec_options().repairs@ == 4095,
    {
        StreamRepairer::new()
    }
}

} // verus!
