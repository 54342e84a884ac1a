//! Fast-path variant of the transform for single-unit-per-character input:
//! words are split on ASCII whitespace only.

use vstd::prelude::*;

use crate::justify_input;
use crate::model::transform_spec;

verus! {

/// Same as [`crate::transform`], but splits words on ASCII whitespace only,
/// for input known to hold one addressable unit per character. On other
/// input it still returns a well-defined result: only the separator set
/// differs from the generic variant.
pub fn transform(input: &str, line_width: u32) -> (r: String)
    ensures
        r@ == transform_spec(input@, line_width as nat, true),
{
    justify_input(input, line_width, true)
}

} // verus!
