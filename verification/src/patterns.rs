//! The two patterns of the classifier, compiled once.
//!
//! Matching is left to the `regex` crate. What the crate does is not proved
//! here: the library names what a pattern accepts and reasons about that name.

use vstd::prelude::*;
use regex::Regex;

verus! {

/// The pattern of a fraction token: `a/b`, `a/b-c/d`, and `+` joined fractions
/// behind either. Digits are the ASCII digits.
pub const ZEILEN_BRUCH_PATTERN: &'static str =
    "^(-?[0-9]+/[0-9]+)(-[0-9]+/[0-9]+)?((\\+)([0-9]+/[0-9]+))*$";

/// The pattern of an integer token: `a`, `a-b`, with an optional `v` in front,
/// and `+` joined numbers behind either. Digits are the ASCII digits.
pub const ZEILEN_PATTERN: &'static str = "^(v?-?[0-9]+)(-[0-9]+)?((\\+)([0-9]+))*$";

/// `regex::Regex`, a compiled expression. Nothing of its inside is known
/// here.
#[verifier::external_type_specification]
#[verifier::external_body]
pub struct ExRegex(regex::Regex);

/// `regex::Error`, what compiling gives in place of an expression.
#[verifier::external_type_specification]
#[verifier::external_body]
pub struct ExRegexError(regex::Error);

/// Whether the compiled expression `re` finds a match in `text`: what
/// `Regex::is_match` returns.
pub uninterp spec fn regex_accepts(re: Regex, text: Seq<char>) -> bool;

/// Whether the expression that `pattern` compiles to finds a match in `text`.
pub uninterp spec fn pattern_accepts(pattern: Seq<char>, text: Seq<char>) -> bool;

/// Whether `pattern` compiles: whether `Regex::new` gives an expression for
/// it.
pub uninterp spec fn pattern_compiles(pattern: Seq<char>) -> bool;

/// Whether `re` accepts exactly what `pattern` accepts.
pub open spec fn compiled_from(re: Regex, pattern: Seq<char>) -> bool {
    forall|text: Seq<char>| #[trigger] regex_accepts(re, text) == pattern_accepts(pattern, text)
}

/// `Regex::new` compiles `re` with the crate's default options, or fails
/// where `re` is no valid pattern or asks for an expression beyond the
/// crate's size limit. Whether it compiles and what the compiled expression
/// matches depend on the pattern alone: two that were compiled from the same
/// pattern match the same texts.
pub assume_specification[ Regex::new ](re: &str) -> (r: Result<Regex, regex::Error>)
    ensures
        r is Ok <==> pattern_compiles(re@),
        r matches Ok(compiled) ==> forall|text: Seq<char>| #[trigger]
            regex_accepts(compiled, text) == pattern_accepts(re@, text),
;

/// `Regex::is_match` says whether the expression finds a match anywhere in
/// `haystack`; with a pattern anchored by `^` and `$`, whether the whole of it
/// matches.
pub assume_specification[ Regex::is_match ](re: &Regex, haystack: &str) -> (b: bool)
    ensures
        b == regex_accepts(*re, haystack@),
;

/// Which of the two patterns did not compile.
#[derive(Clone, Copy, Debug)]
pub enum PatternError {
    /// The pattern of fraction tokens.
    Fraction,
    /// The pattern of integer tokens.
    Integer,
}

/// The compiled patterns of the classifier.
pub struct Patterns {
    fraction: Regex,
    integer: Regex,
}

impl Patterns {
    /// Each expression accepts what its pattern accepts.
    #[verifier::type_invariant]
    spec fn compiled(self) -> bool {
        &&& compiled_from(self.fraction, ZEILEN_BRUCH_PATTERN@)
        &&& compiled_from(self.integer, ZEILEN_PATTERN@)
    }

    /// The compiled expression for fraction tokens.
    pub closed spec fn fraction_regex(&self) -> Regex {
        self.fraction
    }

    /// The compiled expression for integer tokens.
    pub closed spec fn integer_regex(&self) -> Regex {
        self.integer
    }

    /// The patterns, from what compiling each of them gave: both if both
    /// compiled, else the error that names the first that did not.
    pub fn from_compiled(
        fraction: Result<Regex, regex::Error>,
        integer: Result<Regex, regex::Error>,
    ) -> (r: Result<Patterns, PatternError>)
        requires
            fraction matches Ok(re) ==> compiled_from(re, ZEILEN_BRUCH_PATTERN@),
            integer matches Ok(re) ==> compiled_from(re, ZEILEN_PATTERN@),
        ensures
            r is Ok <==> fraction is Ok && integer is Ok,
            r matches Ok(p) ==> fraction == Ok::<Regex, regex::Error>(p.fraction_regex())
                && integer == Ok::<Regex, regex::Error>(p.integer_regex()),
            fraction is Err ==> r matches Err(PatternError::Fraction),
            fraction is Ok && integer is Err ==> r matches Err(PatternError::Integer),
    {
        match fraction {
            Ok(fraction) => match integer {
                Ok(integer) => Ok(Patterns { fraction, integer }),
                Err(_) => Err(PatternError::Integer),
            },
            Err(_) => Err(PatternError::Fraction),
        }
    }

    /// Compiles both patterns. Where both compile, the expressions held accept
    /// what the two patterns accept; else the error names the first pattern
    /// that did not compile.
    pub fn new() -> (r: Result<Patterns, PatternError>)
        ensures
            r is Ok <==> pattern_compiles(ZEILEN_BRUCH_PATTERN@) && pattern_compiles(
                ZEILEN_PATTERN@,
            ),
            r matches Ok(p) ==> compiled_from(p.fraction_regex(), ZEILEN_BRUCH_PATTERN@)
                && compiled_from(p.integer_regex(), ZEILEN_PATTERN@),
            !pattern_compiles(ZEILEN_BRUCH_PATTERN@) ==> r matches Err(PatternError::Fraction),
            pattern_compiles(ZEILEN_BRUCH_PATTERN@) && !pattern_compiles(ZEILEN_PATTERN@)
                ==> r matches Err(PatternError::Integer),
    {
        let fraction = Regex::new(ZEILEN_BRUCH_PATTERN);
        let integer = Regex::new(ZEILEN_PATTERN);
        let r = Patterns::from_compiled(fraction, integer);
        proof {
            if r is Ok {
                assert(fraction->Ok_0 == r->Ok_0.fraction_regex());
                assert(integer->Ok_0 == r->Ok_0.integer_regex());
            }
        }
        r
    }

    /// Whether `text` matches the pattern of fraction tokens.
    pub fn matches_fraction(&self, text: &str) -> (r: bool)
        ensures
            r == pattern_accepts(ZEILEN_BRUCH_PATTERN@, text@),
    {
        proof {
            use_type_invariant(self);
        }
        self.fraction.is_match(text)
    }

    /// Whether `text` matches the pattern of integer tokens.
    pub fn matches_integer(&self, text: &str) -> (r: bool)
        ensures
            r == pattern_accepts(ZEILEN_PATTERN@, text@),
    {
        proof {
            use_type_invariant(self);
        }
        self.integer.is_match(text)
    }
}

} // verus!
