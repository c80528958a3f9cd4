//! Host-language syntax: reading a block and printing its statements.
use vstd::prelude::*;

verus! {

/// Relies on syn's `parse_str::<syn::Block>` to read `src` as a block (`None`
/// when it is not one), and on quote's `TokenStreamExt::append_all` and
/// `TokenStream::to_string` to print its statements. How the tokens are
/// printed depends on where this runs (inside a procedural macro or not, and
/// the compiler's version), so nothing is stated of the text returned.
#[verifier::external_body]
pub(crate) fn statements_of_block(src: &str) -> Option<String> {
    let block = syn::parse_str::<syn::Block>(src).ok()?;
    let mut tokens = proc_macro2::TokenStream::new();
    quote::TokenStreamExt::append_all(&mut tokens, &block.stmts);
    Some(tokens.to_string())
}

} // verus!
