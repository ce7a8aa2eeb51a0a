//! What the parsers share.

use vstd::prelude::*;

verus! {

/// A message that does not follow the protocol, and what is wrong with it.
#[derive(Debug, PartialEq, Eq)]
pub struct ProtocolError(pub String);

impl View for ProtocolError {
    type V = Seq<char>;

    open spec fn view(&self) -> Seq<char> {
        self.0@
    }
}

/// The error with the text `message`.
pub fn protocol_error(message: &str) -> (result: ProtocolError)
    ensures
        result@ == message@,
{
    ProtocolError(message.to_string())
}

/// The error with the text `message`, followed by `subject`.
pub fn protocol_error_about(message: &str, subject: &str) -> (result: ProtocolError)
    ensures
        result@ == message@ + subject@,
{
    let mut text = message.to_string();
    text.append(subject);
    ProtocolError(text)
}

/// Whether two texts are the same.
pub fn same_text(first: &str, second: &str) -> (result: bool)
    ensures
        result == (first@ == second@),
{
    first.to_string() == second.to_string()
}

/// What an event does to a row, given by records `R` that hold its columns.
#[derive(Debug, PartialEq, Eq)]
pub enum RowChange<R> {
    Insert(R),
    Delete(R),
    Update { before: R, after: R },
}

}
