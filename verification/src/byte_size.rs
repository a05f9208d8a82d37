//! Byte sizes as `byte_unit` reads them: `500MiB`, `2 GB`, `1024`.
//!
//! Nothing in this file is proved. The reading is left to `byte_unit`, and
//! the contracts here say what the rest of the crate takes on trust about it.

use vstd::prelude::*;

verus! {

/// The error of `byte_unit::Byte::parse_str`. Nothing is known of what it
/// holds.
#[verifier::external_type_specification]
#[verifier::external_body]
pub struct ExParseError(byte_unit::ParseError);

/// What `byte_unit::Byte::parse_str` makes of the text and the flag, taken as
/// bytes by `byte_unit::Byte::as_u64`: the size, or `None` where the text is
/// refused. Nothing is said of which texts are sizes or of what they amount
/// to; the name only stands for the outcome, which the text and the flag
/// alone decide.
pub uninterp spec fn byte_size_of(text: Seq<char>, ignore_case: bool) -> Option<u64>;

/// Calls `byte_unit::Byte::parse_str(text, ignore_case)` and, where it accepts
/// the text, `byte_unit::Byte::as_u64` on the size it returns. Taken on trust:
/// the call returns for every text, and its outcome is [`byte_size_of`] of the
/// text and the flag.
#[verifier::external_body]
pub(crate) fn parse_byte_size(text: &str, ignore_case: bool) -> (size: Result<
    u64,
    byte_unit::ParseError,
>)
    ensures
        size is Ok <==> byte_size_of(text@, ignore_case) is Some,
        size matches Ok(bytes) ==> byte_size_of(text@, ignore_case) == Some(bytes),
{
    match byte_unit::Byte::parse_str(text, ignore_case) {
        Ok(size) => Ok(size.as_u64()),
        Err(error) => Err(error),
    }
}

} // verus!
