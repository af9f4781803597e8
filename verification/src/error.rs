//! What goes wrong, in words for the person at the terminal.
use vstd::prelude::*;

verus! {

/// A failure, with the message that explains it.
#[derive(Debug, Clone, PartialEq, Eq)]
pub struct Error {
    /// The message.
    pub message: String,
}

impl View for Error {
    type V = Seq<char>;

    open spec fn view(&self) -> Seq<char> {
        self.message@
    }
}

impl Error {
    /// The failure that `message` explains.
    pub fn new(message: String) -> (r: Error)
        ensures
            r@ == message@,
    {
        Error { message }
    }

    /// The failure that `message` explains.
    pub fn from_text(message: &str) -> (r: Error)
        ensures
            r@ == message@,
    {
        Error { message: message.to_owned() }
    }
}

/// Names what `format!` writes for `text` with `{:?}`.
pub uninterp spec fn debug_text(text: Seq<char>) -> Seq<char>;

/// The `Debug` form of `str`, through `format!`: the text between quotation
/// marks, with the characters that need it escaped. Which characters need it
/// follows tables of Unicode; the result is only named.
#[verifier::external_body]
pub(crate) fn quoted(text: &str) -> (r: String)
    ensures
        r@ == debug_text(text@),
{
    format!("{:?}", text)
}

} // verus!
