//! A message fetched from a broker, as plain values.

use vstd::prelude::*;
use vstd::utf8::{decode_utf8, valid_utf8};

verus! {

/// One message of a topic partition.
pub struct Message<'a> {
    /// The offset at which the message resides in its partition.
    pub offset: i64,
    /// The key of the message; empty if it has none.
    pub key: &'a [u8],
    /// The payload of the message; empty if it has none.
    pub value: &'a [u8],
}

/// What `String::from_utf8_lossy` makes of a run of bytes: their text, with a replacement
/// character for each part that is not UTF-8.
pub uninterp spec fn lossy_text(bytes: Seq<u8>) -> Seq<char>;

/// Calls `String::from_utf8_lossy`. Claimed: the result is the text that the call gives for
/// these bytes, and for bytes that are UTF-8 it is the text they encode.
#[verifier::external_body]
fn lossy(bytes: &[u8]) -> (r: String)
    ensures
        r@ == lossy_text(bytes@),
        valid_utf8(bytes@) ==> r@ == decode_utf8(bytes@),
{
    String::from_utf8_lossy(bytes).into_owned()
}

impl<'a> Message<'a> {
    /// A message from its parts.
    pub fn new(offset: i64, key: &'a [u8], value: &'a [u8]) -> (r: Self)
        ensures
            r.offset == offset,
            r.key@ == key@,
            r.value@ == value@,
    {
        Message { offset, key, value }
    }

    /// The key as text, for display.
    pub fn key_text(&self) -> (r: String)
        ensures
            r@ == lossy_text(self.key@),
            valid_utf8(self.key@) ==> r@ == decode_utf8(self.key@),
    {
        lossy(self.key)
    }

    /// The payload as text, for display.
    pub fn value_text(&self) -> (r: String)
        ensures
            r@ == lossy_text(self.value@),
            valid_utf8(self.value@) ==> r@ == decode_utf8(self.value@),
    {
        lossy(self.value)
    }
}

} // verus!
