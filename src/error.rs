use vstd::prelude::*;

verus! {

/// An error that carries a message for people.
#[derive(Debug)]
pub struct Error {
    message: String,
}

impl Error {
    pub closed spec fn spec_message(&self) -> Seq<char> {
        self.message@
    }

    pub fn new(message: &str) -> (r: Self)
        ensures
            r.spec_message() == message@,
    {
        Error { message: message.to_owned() }
    }

    pub fn message(&self) -> (r: &str)
        ensures
            r@ == self.spec_message(),
    {
        self.message.as_str()
    }
}

} // verus!
