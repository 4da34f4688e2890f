//! String literals of generated source text.

use vstd::prelude::*;

verus! {

/// The source text of the string literal that stands for `s`: `s` between
/// double quotes, with the characters that cannot stand there as they are
/// written as escapes.
pub uninterp spec fn string_literal(s: Seq<char>) -> Seq<char>;

/// Writes `s` as a string literal.
///
/// Calls `proc_macro2::Literal::string` and prints the token it returns.
/// In a process that is not the compiler expanding a procedural macro, as
/// every process that runs this library is, the call is answered by the
/// crate's own implementation, and the token's text depends on `s` alone.
/// Nothing more is claimed of it.
#[verifier::external_body]
pub(crate) fn quote_str(s: &str) -> (lit: String)
    ensures
        lit@ == string_literal(s@),
{
    proc_macro2::Literal::string(s).to_string()
}

} // verus!
