//! Compiled regular expressions from the `regex` crate, with what the rest of
//! the library relies on stated over the pattern's source text.

use regex::Regex;
use vstd::prelude::*;

verus! {

#[verifier::external_type_specification]
#[verifier::external_body]
pub struct ExRegex(Regex);

/// Whether `regex::Regex::new` accepts `pattern` (it rejects invalid syntax and
/// patterns whose compiled form exceeds the default size limit).
pub uninterp spec fn regex_accepts(pattern: Seq<char>) -> bool;

/// For each successive non-overlapping match that `Regex::captures_iter` finds
/// of `pattern` in `haystack`, the text of capture group 1, or `None` where that
/// group did not take part in the match.
pub uninterp spec fn regex_group1_captures(pattern: Seq<char>, haystack: Seq<char>) -> Seq<
    Option<Seq<char>>,
>;

/// What `Regex::replace_all` returns for `pattern`, `haystack` and the
/// replacement template `replacement`.
pub uninterp spec fn regex_replaced_all(
    pattern: Seq<char>,
    haystack: Seq<char>,
    replacement: Seq<char>,
) -> Seq<char>;

/// A regular expression together with the source text it was compiled from.
/// The two fields are private and set together only by `CompiledPattern::new`,
/// so `regex` is always the compilation of `source`.
pub struct CompiledPattern {
    source: String,
    regex: Regex,
}

impl View for CompiledPattern {
    type V = Seq<char>;

    closed spec fn view(&self) -> Seq<char> {
        self.source@
    }
}

/// `Regex::new`: claims that it succeeds exactly on the patterns it accepts.
#[verifier::external_body]
fn compile_regex(pattern: &str) -> (r: Option<Regex>)
    ensures
        r is Some <==> regex_accepts(pattern@),
{
    Regex::new(pattern).ok()
}

/// `Regex::captures_iter`: claims that the group-1 texts it yields, in order,
/// are the named `regex_group1_captures` of the pattern's source and the haystack.
#[verifier::external_body]
pub(crate) fn captures_group1(pattern: &CompiledPattern, haystack: &str) -> (r: Vec<Option<String>>)
    ensures
        r.deep_view() == regex_group1_captures(pattern@, haystack@),
{
    pattern.regex.captures_iter(haystack).map(|c| c.get(1).map(|m| m.as_str().to_string())).collect()
}

/// `Regex::replace_all`: claims that its result is the named `regex_replaced_all`
/// of the pattern's source, the haystack and the replacement.
#[verifier::external_body]
pub(crate) fn replace_all(pattern: &CompiledPattern, haystack: &str, replacement: &str) -> (r: String)
    ensures
        r@ == regex_replaced_all(pattern@, haystack@, replacement@),
{
    pattern.regex.replace_all(haystack, replacement).into_owned()
}

impl CompiledPattern {
    /// Compiles `source`; `None` exactly when the regex crate rejects it.
    pub fn new(source: &str) -> (r: Option<CompiledPattern>)
        ensures
            r is Some <==> regex_accepts(source@),
            r matches Some(p) ==> p@ == source@,
    {
        match compile_regex(source) {
            Some(regex) => Some(CompiledPattern { source: source.to_owned(), regex }),
            None => None,
        }
    }
}

} // verus!
