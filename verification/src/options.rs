//! Repair switches and partial-parsing policy.
use vstd::prelude::*;

verus! {

/// Which incomplete constructs a partial parse is allowed to keep.
///
/// With `Allow::OBJ | Allow::STR`, the input `{"key": "v` parses to
/// `{"key": "v"}`, while the input `{"key": "v, "x` keeps `"v"` and drops the
/// unfinished member.
#[derive(Clone, Copy, PartialEq, Eq, Hash, Debug, Structural)]
pub struct Allow(u16);

impl View for Allow {
    type V = u16;

    closed spec fn view(&self) -> u16 {
        self.0
    }
}

impl Allow {
    /// Keep nothing incomplete; every value must be complete.
    #[allow(non_snake_case)]
    pub fn NOTHING() -> (r: Allow)
        ensures
            r@ == 0,
    {
        Allow(0)
    }
    /// Keep a string that is cut off before its closing quote.
    #[allow(non_snake_case)]
    pub fn STR() -> (r: Allow)
        ensures
            r@ == 1,
    {
        Allow(1)
    }
    /// Keep a number that is cut off (`1.`, `2e`, `-`).
    #[allow(non_snake_case)]
    pub fn NUM() -> (r: Allow)
        ensures
            r@ == 2,
    {
        Allow(2)
    }
    /// Keep an array that is cut off before its closing bracket.
    #[allow(non_snake_case)]
    pub fn ARR() -> (r: Allow)
        ensures
            r@ == 4,
    {
        Allow(4)
    }
    /// Keep an object that is cut off before its closing brace.
    #[allow(non_snake_case)]
    pub fn OBJ() -> (r: Allow)
        ensures
            r@ == 8,
    {
        Allow(8)
    }
    /// Keep an object whose key is cut off.
    #[allow(non_snake_case)]
    pub fn KEY() -> (r: Allow)
        ensures
            r@ == 16,
    {
        Allow(16)
    }
    /// Keep a boolean that is cut off (`tru`, `fal`).
    #[allow(non_snake_case)]
    pub fn BOOL() -> (r: Allow)
        ensures
            r@ == 32,
    {
        Allow(32)
    }
    /// Keep a `null` that is cut off (`nul`).
    #[allow(non_snake_case)]
    pub fn NULL() -> (r: Allow)
        ensures
            r@ == 64,
    {
        Allow(64)
    }
    /// Both scalar keywords: [`Allow::BOOL`] plus [`Allow::NULL`].
    #[allow(non_snake_case)]
    pub fn ATOM() -> (r: Allow)
        ensures
            r@ == 96,
    {
        Allow(96)
    }
    /// Both collections: [`Allow::ARR`] plus [`Allow::OBJ`].
    #[allow(non_snake_case)]
    pub fn COLLECTION() -> (r: Allow)
        ensures
            r@ == 12,
    {
        Allow(12)
    }
    /// Every flag; the default for [`Options::all`].
    #[allow(non_snake_case)]
    pub fn ALL() -> (r: Allow)
        ensures
            r@ == 127,
    {
        Allow(127)
    }
    /// Alias for [`Allow::NOTHING`], for symmetry with [`Repairs::NONE`].
    #[allow(non_snake_case)]
    pub fn NONE() -> (r: Allow)
        ensures
            r@ == 0,
    {
        Allow(0)
    }

    /// Whether every flag in `other` is present in `self`.
    pub fn contains(self, other: Allow) -> (r: bool)
        ensures
            r == (self@ & other@ == other@),
    {
        (self.0 & other.0) == other.0
    }

    /// Whether no flag is set.
    pub fn is_empty(self) -> (r: bool)
        ensures
            r == (self@ == 0),
    {
        self.0 == 0
    }

    /// The raw bitmask.
    pub fn bits(self) -> (r: u16)
        ensures
            r == self@,
    {
        self.0
    }

    /// Set union.
    pub fn union(self, other: Allow) -> (r: Allow)
        ensures
            r@ == self@ | other@,
    {
        Allow(self.0 | other.0)
    }

    /// Set difference.
    pub fn without(self, other: Allow) -> (r: Allow)
        ensures
            r@ == self@ & !other@,
    {
        Allow(self.0 & !other.0)
    }
}

impl core::ops::BitOr for Allow {
    type Output = Allow;

    fn bitor(self, rhs: Allow) -> (r: Allow)
        ensures
            r@ == self@ | rhs@,
    {
        self.union(rhs)
    }
}

impl vstd::std_specs::ops::BitOrSpecImpl for Allow {
    open spec fn obeys_bitor_spec() -> bool {
        true
    }

    open spec fn bitor_req(self, rhs: Allow) -> bool {
        true
    }

    closed spec fn bitor_spec(self, rhs: Allow) -> Allow {
        Allow(self.0 | rhs.0)
    }
}

/// Which repair passes run. Construct one with `|` or start from a preset.
#[derive(Clone, Copy, PartialEq, Eq, Debug, Structural)]
pub struct Repairs(u32);

impl View for Repairs {
    type V = u32;

    closed spec fn view(&self) -> u32 {
        self.0
    }
}

impl Repairs {
    /// Run no repair pass: the input must already be valid JSON.
    #[allow(non_snake_case)]
    pub fn NONE() -> (r: Repairs)
        ensures
            r@ == 0,
    {
        Repairs(0)
    }
    /// Strip markdown code fences such as ```` ```json ````.
    #[allow(non_snake_case)]
    pub fn FENCES() -> (r: Repairs)
        ensures
            r@ == 1,
    {
        Repairs(1)
    }
    /// Strip `//` line comments and `/* ... */` block comments.
    #[allow(non_snake_case)]
    pub fn COMMENTS() -> (r: Repairs)
        ensures
            r@ == 2,
    {
        Repairs(2)
    }
    /// Quote bare object keys and bare string values.
    #[allow(non_snake_case)]
    pub fn UNQUOTED() -> (r: Repairs)
        ensures
            r@ == 4,
    {
        Repairs(4)
    }
    /// Convert `True`/`False`/`None`, `undefined`, and lone `NaN`/`Infinity`.
    #[allow(non_snake_case)]
    pub fn KEYWORDS() -> (r: Repairs)
        ensures
            r@ == 8,
    {
        Repairs(8)
    }
    /// Fix numeric literals: leading zeros, `.5`, `2.`, `2e`, a lone `-`.
    #[allow(non_snake_case)]
    pub fn NUMBERS() -> (r: Repairs)
        ensures
            r@ == 16,
    {
        Repairs(16)
    }
    /// Join adjacent strings across `+`, as produced by code generators.
    #[allow(non_snake_case)]
    pub fn CONCATENATION() -> (r: Repairs)
        ensures
            r@ == 32,
    {
        Repairs(32)
    }
    /// Unwrap `NumberLong(2)`, `ISODate("...")`, and JSONP `cb({...})` wrappers.
    #[allow(non_snake_case)]
    pub fn CALLS() -> (r: Repairs)
        ensures
            r@ == 64,
    {
        Repairs(64)
    }
    /// Decode HTML entities such as `&quot;` and `&#34;`.
    #[allow(non_snake_case)]
    pub fn ENTITIES() -> (r: Repairs)
        ensures
            r@ == 128,
    {
        Repairs(128)
    }
    /// Accept `'single quoted'` strings and typographic quotes.
    #[allow(non_snake_case)]
    pub fn QUOTES() -> (r: Repairs)
        ensures
            r@ == 256,
    {
        Repairs(256)
    }
    /// Accept non-ASCII whitespace such as U+00A0 and U+3000.
    #[allow(non_snake_case)]
    pub fn WHITESPACE() -> (r: Repairs)
        ensures
            r@ == 512,
    {
        Repairs(512)
    }
    /// Tolerate input that ends early: close open brackets and strings.
    #[allow(non_snake_case)]
    pub fn TRUNCATION() -> (r: Repairs)
        ensures
            r@ == 1024,
    {
        Repairs(1024)
    }
    /// Turn several top-level values (newline/comma separated) into an array.
    #[allow(non_snake_case)]
    pub fn NDJSON() -> (r: Repairs)
        ensures
            r@ == 2048,
    {
        Repairs(2048)
    }
    /// Every pass: the default.
    #[allow(non_snake_case)]
    pub fn ALL() -> (r: Repairs)
        ensures
            r@ == 4095,
    {
        Repairs(4095)
    }

    /// Whether every flag in `other` is present in `self`.
    pub fn contains(self, other: Repairs) -> (r: bool)
        ensures
            r == (self@ & other@ == other@),
    {
        (self.0 & other.0) == other.0
    }

    /// The raw bitmask.
    pub fn bits(self) -> (r: u32)
        ensures
            r == self@,
    {
        self.0
    }

    /// Set union.
    pub fn union(self, other: Repairs) -> (r: Repairs)
        ensures
            r@ == self@ | other@,
    {
        Repairs(self.0 | other.0)
    }

    /// Set difference.
    pub fn without(self, other: Repairs) -> (r: Repairs)
        ensures
            r@ == self@ & !other@,
    {
        Repairs(self.0 & !other.0)
    }
}

impl core::ops::BitOr for Repairs {
    type Output = Repairs;

    fn bitor(self, rhs: Repairs) -> (r: Repairs)
        ensures
            r@ == self@ | rhs@,
    {
        self.union(rhs)
    }
}

impl vstd::std_specs::ops::BitOrSpecImpl for Repairs {
    open spec fn obeys_bitor_spec() -> bool {
        true
    }

    open spec fn bitor_req(self, rhs: Repairs) -> bool {
        true
    }

    closed spec fn bitor_spec(self, rhs: Repairs) -> Repairs {
        Repairs(self.0 | rhs.0)
    }
}

/// How `repair_with` and friends behave.
#[derive(Clone, Copy, PartialEq, Eq, Debug, Structural)]
pub struct Options {
    /// Which complete values are kept out of values cut off at end of input.
    pub allow: Allow,
    /// Which repair passes run.
    pub repairs: Repairs,
}

/// Whether the repair pass with bit `flag` is enabled in `opts`.
pub open spec fn spec_repairs(opts: Options, flag: u32) -> bool {
    opts.repairs@ & flag == flag
}

/// Whether the partial value with bit `flag` is allowed in `opts`.
pub open spec fn spec_allows(opts: Options, flag: u16) -> bool {
    opts.allow@ & flag == flag
}

impl Options {
    /// The options of `all`.
    pub closed spec fn spec_all() -> Options {
        Options { allow: Allow(127), repairs: Repairs(4095) }
    }

    /// The options of `strict`.
    pub closed spec fn spec_strict() -> Options {
        Options { allow: Allow(0), repairs: Repairs(0) }
    }

    /// Repair everything, keep every incomplete trailing value.
    pub fn all() -> (r: Self)
        ensures
            r.allow@ == 127,
            r.repairs@ == 4095,
            r == Options::spec_all(),
    {
        Options { allow: Allow(127), repairs: Repairs(4095) }
    }

    /// No repairs, nothing incomplete: the input must be valid JSON.
    pub fn strict() -> (r: Self)
        ensures
            r.allow@ == 0,
            r.repairs@ == 0,
            r == Options::spec_strict(),
    {
        Options { allow: Allow(0), repairs: Repairs(0) }
    }

    /// Full repair with an explicit partial-parsing policy.
    pub fn partial(allow: Allow) -> (r: Self)
        ensures
            r.allow == allow,
            r.repairs@ == 4095,
    {
        Options { allow, repairs: Repairs(4095) }
    }

    /// Replaces the repair mask.
    pub fn with_repairs(self, repairs: Repairs) -> (r: Self)
        ensures
            r.allow == self.allow,
            r.repairs == repairs,
    {
        Options { allow: self.allow, repairs }
    }

    /// Replaces the partial-parsing policy.
    pub fn with_allow(self, allow: Allow) -> (r: Self)
        ensures
            r.allow == allow,
            r.repairs == self.repairs,
    {
        Options { allow, repairs: self.repairs }
    }

    /// Whether the `flag` repair pass is enabled.
    pub fn repairs(self, flag: Repairs) -> (r: bool)
        ensures
            r == spec_repairs(self, flag@),
    {
        self.repairs.contains(flag)
    }

    /// Whether the `flag` partial value is allowed.
    pub fn allows(self, flag: Allow) -> (r: bool)
        ensures
            r == spec_allows(self, flag@),
    {
        self.allow.contains(flag)
    }
}

impl Default for Options {
    fn default() -> (r: Self)
        ensures
            r.allow@ == 127,
            r.repairs@ == 4095,
    {
        Options::all()
    }
}

} // verus!
