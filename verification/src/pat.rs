//! Key-pattern matching for `KEYS`, delegated to the `glob` crate, and the
//! lossy text decoding of binary keys. Both calls compute pure functions of
//! their arguments; their results are given names that the dispatcher's
//! contracts are stated over.
use vstd::prelude::*;

verus! {

/// What `String::from_utf8_lossy` decodes the bytes to.
pub uninterp spec fn lossy_decode(s: Seq<u8>) -> Seq<char>;

/// Whether the glob crate accepts the pattern text.
pub uninterp spec fn glob_pat_ok(p: Seq<char>) -> bool;

/// Whether the candidate matches the pattern, under the glob crate's
/// default match options.
pub uninterp spec fn glob_match(p: Seq<char>, text: Seq<char>) -> bool;

/// Relies on String::from_utf8_lossy: the characters depend on the bytes
/// alone (invalid sequences become replacement characters).
#[verifier::external_body]
pub fn lossy_string(b: &Vec<u8>) -> (r: String)
    ensures
        r@ == lossy_decode(b@),
{
    String::from_utf8_lossy(b.as_slice()).into_owned()
}

#[verifier::external_type_specification]
#[verifier::external_body]
pub struct ExPattern(glob::Pattern);

/// A compiled glob pattern together with the text it was compiled from.
pub struct CompiledPattern {
    pat: glob::Pattern,
    src: Ghost<Seq<char>>,
}

impl CompiledPattern {
    pub closed spec fn src(&self) -> Seq<char> {
        self.src@
    }
}

/// Relies on glob::Pattern::new: whether a pattern compiles depends on its
/// text alone, and the plain pattern `*` always compiles.
#[verifier::external_body]
fn glob_new(pat: &str) -> (r: Option<glob::Pattern>)
    ensures
        r is Some <==> glob_pat_ok(pat@),
        pat@ == seq!['*'] ==> r is Some,
{
    glob::Pattern::new(pat).ok()
}

/// Compiles a pattern, remembering the text it came from. This constructor
/// is the only way a `CompiledPattern` is made, so the pattern a value
/// carries was always compiled from the text `src()` reports.
pub fn compile_pattern(pat: &str) -> (r: Option<CompiledPattern>)
    ensures
        r is Some <==> glob_pat_ok(pat@),
        (r matches Some(c) ==> c.src() == pat@),
        pat@ == seq!['*'] ==> r is Some,
{
    match glob_new(pat) {
        Some(p) => Some(CompiledPattern { pat: p, src: Ghost(pat@) }),
        None => None,
    }
}

/// Relies on glob::Pattern::matches: the outcome depends only on the
/// pattern text and the candidate, and the pattern `*` matches every
/// candidate (its single token matches any character sequence under the
/// default match options).
#[verifier::external_body]
pub fn pattern_matches(c: &CompiledPattern, text: &str) -> (r: bool)
    ensures
        r == glob_match(c.src(), text@),
        c.src() == seq!['*'] ==> r,
{
    c.pat.matches(text)
}

} // verus!
