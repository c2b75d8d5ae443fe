//! What this library takes on trust from the standard library and from
//! other crates. Nothing here is proved: each item says what it assumes.

use crate::tree::texts_of;
use vstd::prelude::*;

verus! {

/// `str`'s `==`: two string slices are equal exactly when they hold the same
/// characters.
pub assume_specification[ <str as PartialEq>::eq ](a: &str, b: &str) -> (same: bool)
    ensures
        same == (a@ == b@),
;

/// `String::push` appends the character to the end of the string.
pub assume_specification[ String::push ](text: &mut String, ch: char)
    ensures
        final(text)@ == old(text)@.push(ch),
;

/// `serde_json::Error`, carried through as it comes: nothing is read from it.
#[verifier::external_type_specification]
#[verifier::external_body]
pub struct ExJsonError(serde_json::Error);

/// The JSON text that `serde_json` writes for an array of these strings, or
/// nothing where it refuses them.
pub uninterp spec fn json_array_text(items: Seq<Seq<char>>) -> Option<Seq<char>>;

/// `serde_json::to_string` on a list of strings. What it writes depends on
/// the strings alone; this says no more of it than that.
#[verifier::external_body]
pub(crate) fn json_array(items: &Vec<String>) -> (text: Result<String, serde_json::Error>)
    ensures
        match json_array_text(texts_of(items@)) {
            Some(written) => text is Ok && text->Ok_0@ == written,
            None => text is Err,
        },
{
    serde_json::to_string(items)
}

/// What `{:?}` writes for a string: the string between double quotes, with
/// what cannot stand there as it is written as an escape.
pub uninterp spec fn debug_text(text: Seq<char>) -> Seq<char>;

/// `format!` with `{:?}` on a string slice, that is std's `Debug` for `str`.
/// What it writes depends on the characters alone; this says no more of it
/// than that.
#[verifier::external_body]
pub(crate) fn debug_string(text: &str) -> (quoted: String)
    ensures
        quoted@ == debug_text(text@),
{
    format!("{:?}", text)
}

/// The path that `camino` gives for `name` adjoined to `directory`. Which
/// separator stands between the two, and when `name` takes the place of
/// `directory`, is left to `camino` and to the platform the library is built
/// for.
pub uninterp spec fn joined_path(directory: Seq<char>, name: Seq<char>) -> Seq<char>;

/// `camino::Utf8Path::join`, which adjoins `name` to `directory` without
/// looking at the disk or at the environment. What it gives depends on the
/// two paths alone; this says no more of it than that.
#[verifier::external_body]
pub(crate) fn join_path(directory: &str, name: &str) -> (joined: String)
    ensures
        joined@ == joined_path(directory@, name@),
{
    camino::Utf8Path::new(directory).join(name).into_string()
}

} // verus!
