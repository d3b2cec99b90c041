use vstd::prelude::*;

verus! {

/// An error reported to the caller, carrying a human-readable message.
#[derive(Debug)]
pub struct MemexError {
    pub message: String,
}

impl MemexError {
    pub fn new(msg: &str) -> (r: Self)
        ensures
            r.message@ == msg@,
    {
        MemexError { message: msg.to_owned() }
    }
}

} // verus!
