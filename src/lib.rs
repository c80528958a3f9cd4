//! Templates with `<% code %>` and `<%= expr %>` tags: a byte-level parser, a
//! whitespace-trim pass, an HTML-escaping writer, a write-plan generator and
//! the dynamic-mode text cache.
use vstd::prelude::*;

pub mod parser;
pub mod segment;
pub mod escape;
pub mod plan;
pub mod emit;
pub mod dynamic;
pub mod error;
pub mod tokens;

verus! {

/// The sink rejected a write.
#[derive(Clone, Copy, Debug, PartialEq, Eq, Structural)]
pub struct WriteError;

/// Relies on `String::with_capacity`: an empty string.
#[verifier::external_body]
fn string_with_capacity(n: usize) -> (r: String)
    ensures
        r@ == Seq::<char>::empty(),
{
    String::with_capacity(n)
}

/// What a compiled template offers its callers.
pub trait Template {
    /// The text this value renders as. The default is closed: to callers
    /// it says nothing, and implementations written outside Verus (such as
    /// derived ones) need not define it.
    closed spec fn rendered(&self) -> Seq<char> {
        Seq::empty()
    }

    /// Whether rendering succeeds (the sink accepts every write). Closed by
    /// default, as `rendered` is.
    closed spec fn renders_ok(&self) -> bool {
        true
    }

    /// Appends the rendered text to `out`. On a failure the text written
    /// before it stays: `out` then holds a prefix of the rendered text after
    /// what it held.
    fn render_into(&self, out: &mut String) -> (r: Result<(), WriteError>)
        ensures
            r is Ok <==> self.renders_ok(),
            r is Ok ==> final(out)@ == old(out)@ + self.rendered(),
            r is Err ==> exists|k: int| 0 <= k <= self.rendered().len()
                && final(out)@ == old(out)@ + self.rendered().subrange(0, k);

    /// The capacity to reserve for the output.
    fn size_hint() -> usize;

    /// The rendered text in a buffer of `size_hint()` capacity, or the error
    /// of `render_into`.
    fn render(&self) -> (r: Result<String, WriteError>)
        ensures
            r is Ok <==> self.renders_ok(),
            r matches Ok(s) ==> s@ == self.rendered(),
    {
        let mut buffer = string_with_capacity(Self::size_hint());
        match self.render_into(&mut buffer) {
            Ok(()) => Ok(buffer),
            Err(e) => Err(e),
        }
    }
}

/// Prepares dynamic mode's change detection; static mode has none to do.
pub fn rerun_if_templates_changed() -> (r: Result<(), error::Error>)
    ensures
        r is Ok,
{
    Ok(())
}

} // verus!
