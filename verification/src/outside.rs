//! What this library takes on trust: two functions that it calls without
//! reading them, and one type that it only carries.

use std::borrow::Cow;
use vstd::prelude::*;
use vstd::utf8::{decode_utf8, valid_utf8};

verus! {

/// `std::io::Error`, which an error of this library may hold. Nothing is
/// said of what is in it.
#[verifier::external_type_specification]
#[verifier::external_body]
pub struct ExIoError(std::io::Error);

/// The path that `path_clean::clean` makes of `path`: slashes that repeat
/// are reduced to one, `.` elements are dropped, and each `..` element is
/// resolved against the element before it, all without a look at any file
/// system.
pub uninterp spec fn cleaned_path(path: Seq<char>) -> Seq<char>;

/// The text that `String::from_utf8_lossy` makes of `bytes`: their UTF-8
/// reading, with U+FFFD in place of whatever is not UTF-8.
pub uninterp spec fn utf8_lossy(bytes: Seq<u8>) -> Seq<char>;

/// Calls `path_clean::clean`. The claim is only that its result depends on
/// nothing but the characters of `path`.
#[verifier::external_body]
pub(crate) fn clean_path(path: &str) -> (cleaned: String)
    ensures
        cleaned@ == cleaned_path(path@),
{
    path_clean::clean(path)
}

/// Calls `String::from_utf8_lossy`. The claim is that its result depends on
/// nothing but `bytes`, and that bytes which are UTF-8 are read as the
/// characters that they encode.
#[verifier::external_body]
pub(crate) fn lossy_text<'a>(bytes: &'a [u8]) -> (text: Cow<'a, str>)
    ensures
        text@ == utf8_lossy(bytes@),
        valid_utf8(bytes@) ==> text@ == decode_utf8(bytes@),
{
    String::from_utf8_lossy(bytes)
}

} // verus!
