//! The types of the outside JSON library that this crate carries through.

use vstd::prelude::*;

verus! {

/// A JSON number as the outside library holds it. Nothing in this crate looks inside one:
/// numbers are carried from the parser to the serializer untouched.
#[verifier::external_type_specification]
#[verifier::external_body]
pub struct ExNumber(sonic_rs::Number);

/// The outside library's own document tree, opaque to the verifier.
#[verifier::external_type_specification]
#[verifier::external_body]
pub struct ExRawValue(sonic_rs::Value);

} // verus!
