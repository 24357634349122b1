//! The preprocessor's identity and capability answers.
//!
//! The host drives the preprocessor over a request/response protocol; the
//! library's part of it is the preprocessor's name and which renderers it
//! supports — only the `html` renderer is.

use vstd::prelude::*;
use vstd::string::*;

verus! {

/// Preprocessor that extracts info from the git metadata of each chapter of
/// a book.
pub struct GitInfoPreprocessor;

/// Whether two strings hold the same characters.
fn str_eq(a: &str, b: &str) -> (r: bool)
    ensures
        r == (a@ == b@),
{
    let an = a.unicode_len();
    let bn = b.unicode_len();
    if an != bn {
        return false;
    }
    let mut i: usize = 0;
    while i < an
        invariant
            0 <= i <= an == a@.len(),
            an == bn == b@.len(),
            forall|j: int| 0 <= j < i ==> a@[j] == b@[j],
        decreases an - i,
    {
        if a.get_char(i) != b.get_char(i) {
            return false;
        }
        i = i + 1;
    }
    proof {
        assert(a@ =~= b@);
    }
    true
}

impl GitInfoPreprocessor {
    /// Creates the preprocessor; it carries no state.
    pub fn new() -> GitInfoPreprocessor {
        GitInfoPreprocessor
    }

    /// The name under which the host addresses this preprocessor.
    pub fn name(&self) -> (r: &'static str)
        ensures
            r@ == "git-info"@,
    {
        "git-info"
    }

    /// Answers the host's capability query: exactly the `html` renderer is
    /// supported.
    pub fn supports_renderer(&self, renderer: &str) -> (r: bool)
        ensures
            r == (renderer@ == "html"@),
    {
        str_eq(renderer, "html")
    }
}

} // verus!
