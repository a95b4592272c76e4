//! The tool's own error value.
use vstd::prelude::*;

verus! {

/// An error with a message for the user.
#[derive(Debug, Clone)]
pub struct MrtError {
    msg: String,
}

impl MrtError {
    /// The message that this error carries.
    pub closed spec fn message_view(&self) -> Seq<char> {
        self.msg@
    }

    /// An error carrying `msg`.
    pub fn new(msg: &str) -> (r: MrtError)
        ensures
            r.message_view() == msg@,
    {
        MrtError { msg: msg.to_string() }
    }

    /// The message that this error carries.
    pub fn message(&self) -> (r: String)
        ensures
            r@ == self.message_view(),
    {
        self.msg.clone()
    }

    /// The text shown for any such error.
    pub fn to_string(&self) -> (r: String)
        ensures
            r@ == "Something wrong"@,
    {
        "Something wrong".to_string()
    }
}

} // verus!
