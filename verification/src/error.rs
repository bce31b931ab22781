use vstd::prelude::*;

verus! {

/// The failure kinds shared by every layer of the decoder.
///
/// The structural kinds (`Eof`, `Syntax`, the `Expected*` family and
/// `TrailingCharacters`) are raised by the parsers themselves.
/// `IntegerOverflow` and `LengthOutOfBounds` turn the two faults that a
/// lenient decoder would hit (a literal wider than 64 bits, a byte-string
/// length running past the buffer) into typed errors.
/// `NegativeZero`, `NonASCII`, `ZeroLength`, `NegativeLength` and
/// `NonLexicographical` are reserved for future validation policy and are
/// raised by no parser here.
/// `Message` carries a caller-side semantic failure, distinguishable from
/// every structural kind.
#[derive(Debug, PartialEq, Eq)]
pub enum Error {
    Message(String),
    // integer
    NegativeZero,
    NonASCII,
    ExpectedInteger,
    ExpectedI,
    ExpectedE,
    IntegerOverflow,
    // bytes
    ZeroLength,
    NegativeLength,
    ExpectedColon,
    LengthOutOfBounds,
    // dictionary
    NonLexicographical,
    ExpectedDict,
    ExpectedDictEnd,
    // list
    ExpectedList,
    ExpectedListEnd,
    TrailingCharacters,
    Eof,
    Syntax,
}

impl Error {
    /// The message that each kind shows, as a mathematical value.
    pub open spec fn spec_describe(&self) -> Seq<char> {
        match self {
            Error::Message(msg) => msg@,
            Error::NegativeZero => "disallowed negative zero"@,
            Error::NonASCII => "disallowed non-ascii character"@,
            Error::ExpectedInteger => "expected an integer"@,
            Error::ExpectedI => "expected the integer opener"@,
            Error::ExpectedE => "expected a closing marker"@,
            Error::IntegerOverflow => "integer literal out of range"@,
            Error::ZeroLength => "disallowed zero-length byte string"@,
            Error::NegativeLength => "disallowed negative length byte string"@,
            Error::ExpectedColon => "expected a colon between length and string"@,
            Error::LengthOutOfBounds => "byte-string length runs past the end of the input"@,
            Error::NonLexicographical => "keys not lexicographically sorted"@,
            Error::ExpectedDict => "expected a dictionary"@,
            Error::ExpectedDictEnd => "expected the end of a dictionary"@,
            Error::ExpectedList => "expected a list"@,
            Error::ExpectedListEnd => "expected the end of a list"@,
            Error::TrailingCharacters => "unexpected trailing characters"@,
            Error::Eof => "unexpected end of input"@,
            Error::Syntax => "syntax error"@,
        }
    }

    /// A human-readable account of the failure.
    pub fn describe(&self) -> (r: String)
        ensures
            r@ == self.spec_describe(),
    {
        match self {
            Error::Message(msg) => msg.clone(),
            Error::NegativeZero => "disallowed negative zero".to_owned(),
            Error::NonASCII => "disallowed non-ascii character".to_owned(),
            Error::ExpectedInteger => "expected an integer".to_owned(),
            Error::ExpectedI => "expected the integer opener".to_owned(),
            Error::ExpectedE => "expected a closing marker".to_owned(),
            Error::IntegerOverflow => "integer literal out of range".to_owned(),
            Error::ZeroLength => "disallowed zero-length byte string".to_owned(),
            Error::NegativeLength => "disallowed negative length byte string".to_owned(),
            Error::ExpectedColon => "expected a colon between length and string".to_owned(),
            Error::LengthOutOfBounds => "byte-string length runs past the end of the input".to_owned(),
            Error::NonLexicographical => "keys not lexicographically sorted".to_owned(),
            Error::ExpectedDict => "expected a dictionary".to_owned(),
            Error::ExpectedDictEnd => "expected the end of a dictionary".to_owned(),
            Error::ExpectedList => "expected a list".to_owned(),
            Error::ExpectedListEnd => "expected the end of a list".to_owned(),
            Error::TrailingCharacters => "unexpected trailing characters".to_owned(),
            Error::Eof => "unexpected end of input".to_owned(),
            Error::Syntax => "syntax error".to_owned(),
        }
    }
}

} // verus!
