//! A minimal string-backed error value.  The presentation traits for it
//! live with the caller; here the message is the whole content.

use vstd::prelude::*;

verus! {

/// An error that is nothing but its message.
pub struct GenericError {
    message: String,
}

impl GenericError {
    /// The error text.
    pub closed spec fn spec_message(&self) -> Seq<char> {
        self.message@
    }

    /// Wrap a message.
    pub fn new(message: String) -> (r: GenericError)
        ensures
            r.spec_message() == message@,
    {
        GenericError { message }
    }

    /// Read the error text.
    pub fn message(&self) -> (r: &String)
        ensures
            r@ == self.spec_message(),
    {
        &self.message
    }
}

/// Turn plain text into a `GenericError`.
pub trait ToGenericError: Sized {
    /// The text the error will carry.
    spec fn text(&self) -> Seq<char>;

    /// Wrap `self` as an error carrying its text.
    fn to_error(self) -> (r: GenericError)
        ensures
            r.spec_message() == self.text(),
    ;
}

impl ToGenericError for String {
    open spec fn text(&self) -> Seq<char> {
        self@
    }

    fn to_error(self) -> (r: GenericError) {
        GenericError::new(self)
    }
}

impl ToGenericError for &str {
    open spec fn text(&self) -> Seq<char> {
        self@
    }

    fn to_error(self) -> (r: GenericError) {
        GenericError::new(self.to_owned())
    }
}

} // verus!
