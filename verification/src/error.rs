//! The library's error value: a human-readable message.

use vstd::prelude::*;

verus! {

/// An error carrying a message for the user.
#[derive(Debug)]
pub struct ErrorReport {
    message: String,
}

impl View for ErrorReport {
    type V = Seq<char>;

    closed spec fn view(&self) -> Seq<char> {
        self.message@
    }
}

/// The prefix under which an error is shown to the user.
pub open spec fn error_prefix() -> Seq<char> {
    seq!['e', 'r', 'r', 'o', 'r', ':', ' ']
}

impl ErrorReport {
    /// An error with the given message.
    pub fn new(message: String) -> (e: ErrorReport)
        ensures
            e@ == message@,
    {
        ErrorReport { message }
    }

    /// An error with the given message.
    pub fn from_str(message: &str) -> (e: ErrorReport)
        ensures
            e@ == message@,
    {
        ErrorReport { message: message.to_owned() }
    }

    /// The message.
    pub fn message(&self) -> (m: &String)
        ensures
            m@ == self@,
    {
        &self.message
    }

    /// The error as shown to the user: `error: ` followed by the message.
    pub fn report(&self) -> (s: String)
        ensures
            s@ == error_prefix() + self@,
    {
        let mut s = String::new();
        s.append("error: ");
        proof {
            reveal_strlit("error: ");
            assert(s@ =~= error_prefix());
        }
        s.append(self.message.as_str());
        s
    }
}

/// The outcome of a fallible text computation, as plain values: the text,
/// or the error message.
pub open spec fn outcome(r: Result<String, ErrorReport>) -> Result<Seq<char>, Seq<char>> {
    match r {
        Ok(s) => Ok(s@),
        Err(e) => Err(e@),
    }
}

} // verus!
