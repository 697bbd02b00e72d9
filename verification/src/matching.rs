//! Regular expressions from the `regex` crate, and fresh word ids from the
//! `uuid` crate.
use vstd::prelude::*;

verus! {

/// `regex::Regex`, a compiled regular expression.
#[verifier::external_type_specification]
#[verifier::external_body]
pub struct ExRegex(regex::Regex);

/// Whether `regex::Regex::new` accepts `pattern`: its syntax is valid and
/// the compiled program stays within the crate's default size limits.
pub uninterp spec fn regex_compiles(pattern: Seq<char>) -> bool;

/// The text (`Display`) of the error that `regex::Regex::new` gives for
/// `pattern` when it refuses it.
pub uninterp spec fn regex_error_message(pattern: Seq<char>) -> Seq<char>;

/// Whether `regex::Regex::is_match` finds a match of the regex compiled from
/// `pattern` anywhere in `haystack`.
pub uninterp spec fn regex_matches(pattern: Seq<char>, haystack: Seq<char>) -> bool;

/// A compiled regular expression together with the pattern it was compiled
/// from. Only `Pattern::compile` makes one.
pub struct Pattern {
    source: String,
    re: regex::Regex,
}

impl View for Pattern {
    type V = Seq<char>;

    closed spec fn view(&self) -> Seq<char> {
        self.source@
    }
}

impl Pattern {
    /// Calls `regex::Regex::new(source)`, and on a refusal the `Display`
    /// text of its `regex::Error`. Claimed: it succeeds exactly when
    /// `regex_compiles(source)`, what it gives is kept with `source`, and a
    /// refusal's text is `regex_error_message(source)`.
    #[verifier::external_body]
    pub(crate) fn compile(source: &str) -> (r: Result<Pattern, String>)
        ensures
            r is Ok <==> regex_compiles(source@),
            r matches Ok(p) ==> p@ == source@,
            r matches Err(m) ==> m@ == regex_error_message(source@),
    {
        match regex::Regex::new(source) {
            Ok(re) => Ok(Pattern { source: source.to_string(), re }),
            Err(e) => Err(e.to_string()),
        }
    }

    /// Calls `regex::Regex::is_match(haystack)` on the compiled expression.
    /// Claimed: the answer is `regex_matches` of the pattern and `haystack`.
    #[verifier::external_body]
    pub(crate) fn is_match(&self, haystack: &str) -> (b: bool)
        ensures
            b == regex_matches(self@, haystack@),
    {
        self.re.is_match(haystack)
    }
}

/// Whether an id is a version 7 UUID: its version nibble (bits 76 to 79)
/// is 7.
pub open spec fn is_version_seven(id: u128) -> bool {
    (id >> 76u128) & 0xFu128 == 7
}

/// Calls `uuid::Uuid::now_v7()` and gives the id as a `u128`
/// (`Uuid::as_u128`). The value rests on the clock and on random bits;
/// claimed only that it is a version 7 UUID, whose version nibble is 7.
#[verifier::external_body]
pub(crate) fn fresh_word_id() -> (id: u128)
    ensures
        (id >> 76u128) & 0xFu128 == 7,
{
    uuid::Uuid::now_v7().as_u128()
}

} // verus!
