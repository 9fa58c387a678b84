//! Conversions of the library's errors into `std::io::Error`.
use vstd::prelude::*;

verus! {

/// `std::io::Error`, the error type of I/O.
#[verifier::external_type_specification]
#[verifier::external_body]
pub struct ExIoError(std::io::Error);

/// The code [`io_error_parts`] gives the kind `InvalidData`.
pub const IO_INVALID_DATA: u8 = 0;

/// The code [`io_error_parts`] gives the kind `Other`.
pub const IO_OTHER: u8 = 1;

/// The kind of an I/O error (`std::io::Error::kind`), as a code: `IO_INVALID_DATA`,
/// `IO_OTHER`, or another code for every other kind.
pub uninterp spec fn io_error_kind(e: std::io::Error) -> u8;

/// The message an I/O error built around a `String` carries, and displays. Only the two
/// constructors below, which build such errors, say anything of it.
pub uninterp spec fn built_message(e: std::io::Error) -> Seq<char>;

/// The kind of an error built by the library, with the message it was built around.
pub open spec fn io_error_parts(e: std::io::Error) -> (u8, Seq<char>) {
    (io_error_kind(e), built_message(e))
}

/// The text an I/O error displays (`to_string` through its `Display`). Nothing is said of it:
/// an operating-system error's text depends on the locale, and a custom error's on its payload.
#[verifier::external_body]
pub(crate) fn io_error_text(e: &std::io::Error) -> String {
    e.to_string()
}

/// `std::io::Error::new` with kind `InvalidData` around a message: an error of that kind that
/// displays the message.
#[verifier::external_body]
pub(crate) fn invalid_data_error(message: String) -> (r: std::io::Error)
    ensures
        io_error_kind(r) == IO_INVALID_DATA,
        built_message(r) == message@,
{
    std::io::Error::new(std::io::ErrorKind::InvalidData, message)
}

/// `std::io::Error::other` around a message: an error of kind `Other` that displays the
/// message.
#[verifier::external_body]
pub(crate) fn other_error(message: String) -> (r: std::io::Error)
    ensures
        io_error_kind(r) == IO_OTHER,
        built_message(r) == message@,
{
    std::io::Error::other(message)
}

} // verus!
