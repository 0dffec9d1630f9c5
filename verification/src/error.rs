use vstd::prelude::*;

verus! {

/// The single failure signal of the codec: it carries a message, which may be empty,
/// and nothing else.
#[derive(Eq, PartialOrd, PartialEq, Hash, Ord, Debug)]
pub struct ParseError(String);

impl View for ParseError {
    type V = Seq<char>;

    /// The message that the error carries.
    closed spec fn view(&self) -> Seq<char> {
        self.0@
    }
}

impl ParseError {
    /// An error with an empty message.
    pub fn new() -> (r: Self)
        ensures
            r@ == Seq::<char>::empty(),
    {
        ParseError(String::new())
    }

    /// The same error with `msg` in place of its message.
    pub fn with_msg(self, msg: &str) -> (r: Self)
        ensures
            r@ == msg@,
    {
        ParseError(msg.to_owned())
    }

    /// A copy of the message.
    pub fn message(&self) -> (r: String)
        ensures
            r@ == self@,
    {
        self.0.clone()
    }
}

impl Default for ParseError {
    /// An error with an empty message.
    fn default() -> (r: Self)
        ensures
            r@ == Seq::<char>::empty(),
    {
        ParseError(String::new())
    }
}

impl Clone for ParseError {
    /// An error with the same message.
    fn clone(&self) -> (r: Self)
        ensures
            r@ == self@,
    {
        ParseError(self.0.clone())
    }
}

impl From<String> for ParseError {
    /// An error with `value` as its message.
    fn from(value: String) -> (r: Self)
        ensures
            r@ == value@,
    {
        ParseError(value)
    }
}

impl vstd::std_specs::convert::FromSpecImpl<String> for ParseError {
    open spec fn obeys_from_spec() -> bool {
        true
    }

    closed spec fn from_spec(value: String) -> Self {
        ParseError(value)
    }
}

impl From<()> for ParseError {
    /// An error with an empty message.
    fn from(_value: ()) -> (r: Self)
        ensures
            r@ == Seq::<char>::empty(),
    {
        ParseError(String::new())
    }
}

impl vstd::std_specs::convert::FromSpecImpl<()> for ParseError {
    open spec fn obeys_from_spec() -> bool {
        false
    }

    open spec fn from_spec(_value: ()) -> Self {
        arbitrary()
    }
}

} // verus!
