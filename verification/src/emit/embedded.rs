//! The embedded-code formatting hook. A `#script (lang) … #end` body is opaque
//! to the ASP formatter; this is the single seam through which a language
//! sub-formatter could be invoked. It is the identity: total, and on any language
//! it returns the original text unchanged, keeping the region an honest implicit
//! `fmt: off`.

use vstd::prelude::*;

verus! {

/// Format an embedded `#script` body: the identity.
pub fn format_embedded<'a>(lang: &str, code: &'a str) -> (r: &'a str)
    ensures
        r@ == code@,
{
    code
}

} // verus!
