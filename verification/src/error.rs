use vstd::prelude::*;

verus! {

/// A connection string error, carrying a human-readable message.
#[derive(Debug)]
pub struct Error {
    msg: String,
}

impl View for Error {
    type V = Seq<char>;

    closed spec fn view(&self) -> Seq<char> {
        self.msg@
    }
}

impl Error {
    /// Create a new instance of `Error`.
    pub fn new(msg: &str) -> (e: Error)
        ensures
            e@ == msg@,
    {
        Error { msg: msg.to_owned() }
    }

    /// The full human-readable description of the error.
    pub fn message(&self) -> (r: String)
        ensures
            r@ == "Conversion error: "@ + self@,
    {
        let mut r = String::from_str("Conversion error: ");
        r.append(self.msg.as_str());
        r
    }
}

} // verus!
