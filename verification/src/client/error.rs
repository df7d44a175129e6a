//! The message that the client shows when it could not start a game.
use vstd::prelude::*;

verus! {

/// A text to show.
#[derive(Clone, Debug)]
pub struct Message {
    message: String,
}

impl View for Message {
    type V = Seq<char>;

    closed spec fn view(&self) -> Seq<char> {
        self.message@
    }
}

impl Message {
    pub fn new(message: String) -> (shown: Message)
        ensures
            shown@ == message@,
    {
        Message { message }
    }

    /// The text.
    pub fn message(&self) -> (text: &String)
        ensures
            text@ == self@,
    {
        &self.message
    }
}

} // verus!
