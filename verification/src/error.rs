//! Why reading a JSON text fails.
use vstd::prelude::*;

verus! {

/// The ways in which a text is refused.
#[derive(Debug, Clone, Copy, PartialEq, Eq, Structural)]
pub enum JsonError {
    /// Brackets or braces that do not match, or a field without a colon.
    NotValidJson,
    /// Nothing (or only white space) where a value was expected.
    EmptyString,
    /// A string that opens with one kind of quotation mark and does not close with it.
    QuoteMismatch,
    /// A control character inside a string.
    ControlCharacter,
    /// A `\u` escape whose code point is not a Unicode scalar value.
    EscapeOutOfRange,
    /// A `\u` escape that is not followed by a hexadecimal number.
    EscapeNotHex,
    /// A backslash before a character that cannot be escaped.
    InvalidEscape,
    /// A quotation mark that would end the string early.
    UnescapedQuote,
    /// White space inside an unquoted string.
    UnquotedSpace,
    /// An object or an array where a field name was expected.
    UnexpectedKind,
}

/// How a read ends without a value: a refusal with its reason, or an input on which the
/// reader is undefined (its slicing arithmetic would run backwards).
#[derive(Debug, Clone, Copy, PartialEq, Eq, Structural)]
pub enum Failure {
    Refused(JsonError),
    Undefined,
}

pub open spec fn error_text(e: JsonError) -> Seq<char> {
    match e {
        JsonError::NotValidJson => "Given string is not valid json !"@,
        JsonError::EmptyString => "An empty string cannot be deserialized !"@,
        JsonError::QuoteMismatch => "A string must start and end with the same quotation mark (either single or double quotes) !"@,
        JsonError::ControlCharacter => "Control characters in strings must be represented as `\\uXXXX` where X is a hex number !"@,
        JsonError::EscapeOutOfRange => "Given string contains an escape with value out of range for utf-8 encoding !"@,
        JsonError::EscapeNotHex => "Given string contains an escape with codepoint unparsable as a hex number !"@,
        JsonError::InvalidEscape => "Given string contains an invalid escape !"@,
        JsonError::UnescapedQuote => "Given string contains unescaped quotation marks !"@,
        JsonError::UnquotedSpace => "Unquoted string may only be one word !"@,
        JsonError::UnexpectedKind => "JsonObject::decode_string(…) returned unexpected JsonObject type !"@,
    }
}

impl JsonError {
    /// The message that names this refusal.
    pub fn message(&self) -> (r: &'static str)
        ensures
            r@ == error_text(*self),
    {
        match self {
            JsonError::NotValidJson => "Given string is not valid json !",
            JsonError::EmptyString => "An empty string cannot be deserialized !",
            JsonError::QuoteMismatch => "A string must start and end with the same quotation mark (either single or double quotes) !",
            JsonError::ControlCharacter => "Control characters in strings must be represented as `\\uXXXX` where X is a hex number !",
            JsonError::EscapeOutOfRange => "Given string contains an escape with value out of range for utf-8 encoding !",
            JsonError::EscapeNotHex => "Given string contains an escape with codepoint unparsable as a hex number !",
            JsonError::InvalidEscape => "Given string contains an invalid escape !",
            JsonError::UnescapedQuote => "Given string contains unescaped quotation marks !",
            JsonError::UnquotedSpace => "Unquoted string may only be one word !",
            JsonError::UnexpectedKind => "JsonObject::decode_string(…) returned unexpected JsonObject type !",
        }
    }
}

} // verus!
