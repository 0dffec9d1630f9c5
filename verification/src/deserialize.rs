use crate::error::ParseError;
use crate::grammar::document;
use crate::parser::Parser;
use crate::values::Values;
use vstd::prelude::*;
use vstd::string::*;

verus! {

/// Reading a value of a type out of JSON text: the text is parsed, and the tree is
/// handed to the type's conversion. Every type with a conversion from `Values`
/// whose error is `ParseError` has it.
pub trait Deserialize: TryFrom<Values, Error = ParseError> {
    /// The value that the text `str` holds. A text that is no document gives an
    /// error with an empty message; otherwise the conversion decides.
    fn deserialize(str: String) -> (r: Result<Self, ParseError>)
        ensures
            match document(vstd::utf8::encode_utf8(str@)) {
                Some(j) => exists|v: Values| v@ == j && call_ensures(Self::try_from, (v,), r),
                None => r matches Err(e) && e@ == Seq::<char>::empty(),
            },
    {
        Self::deserialize_str(str.as_str())
    }

    /// The value that the text `str` holds. A text that is no document gives an
    /// error with an empty message; otherwise the conversion decides.
    fn deserialize_str(str: &str) -> (r: Result<Self, ParseError>)
        ensures
            match document(str.spec_bytes()) {
                Some(j) => exists|v: Values| v@ == j && call_ensures(Self::try_from, (v,), r),
                None => r matches Err(e) && e@ == Seq::<char>::empty(),
            },
    {
        match Parser::new(str).parse() {
            Ok(v) => Self::try_from(v),
            Err(e) => Err(e),
        }
    }
}

impl<T> Deserialize for T where T: TryFrom<Values, Error = ParseError> {

}

} // verus!
