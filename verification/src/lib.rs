//! A JSON reader and writer: texts become `JsonObject` values and values become texts.
pub mod chars;
pub mod deriving;
pub mod error;
pub mod integers;
pub mod json;
pub mod number;
pub mod parse;
pub mod primitives;
pub mod reader_laws;
pub mod round_trip;
pub mod scan;
pub mod serialize;
pub mod spacing_laws;
pub mod text;

pub use error::{Failure, JsonError};
pub use json::{Json, JsonMap, JsonObject};
pub use parse::{deserialize_array, deserialize_field, deserialize_object, deserialize_string, read_text};
pub use scan::find_chars;
pub use serialize::{construct_object_or_array, serialize_string};
pub use text::Trimmable;

use vstd::prelude::*;
use crate::error::error_text;
use crate::parse::{parse_text, defined};
use crate::serialize::json_text;
use crate::text::{chars_of_str, string_of_chars};

verus! {

/// The message of a refused conversion, around the converter's own message.
pub open spec fn conversion_message(msg: Seq<char>) -> Seq<char> {
    "T::try_from(…) failed with message `"@ + msg + "`"@
}

/// What `from_json` answers for a conversion's result.
pub open spec fn converted_to<T>(converted: Result<T, String>, r: Result<T, String>) -> bool {
    match converted {
        Ok(v) => r == Ok::<T, String>(v),
        Err(m) => r matches Err(e) && e@ == conversion_message(m@),
    }
}

/// The answer of `from_json` once the conversion has given `converted`: the value, or
/// the conversion's message wrapped in a note that the conversion failed.
pub fn conversion_outcome<T>(converted: Result<T, String>) -> (r: Result<T, String>)
    ensures
        converted_to(converted, r),
{
    match converted {
        Ok(v) => Ok(v),
        Err(msg) => {
            let mut out = chars_of_str("T::try_from(…) failed with message `");
            let mut m = chars_of_str(msg.as_str());
            out.append(&mut m);
            let mut close = chars_of_str("`");
            out.append(&mut close);
            Err(string_of_chars(out.as_slice()))
        },
    }
}

/// Reads a JSON text and converts the value to `T`.
pub fn from_json<T>(json: &str) -> (r: Result<T, String>) where T: TryFrom<JsonObject, Error = String>
    requires
        defined(parse_text(json@)),
    ensures
        match parse_text(json@) {
            Err(Failure::Refused(e)) => r matches Err(m) && m@ == error_text(e),
            Err(Failure::Undefined) => false,
            Ok(j) => exists|o: JsonObject, c: Result<T, String>|
                o@ == j && call_ensures(T::try_from, (o,), c) && converted_to(c, r),
        },
{
    match JsonObject::try_from(json) {
        Err(msg) => Err(msg.to_owned()),
        Ok(obj) => conversion_outcome(T::try_from(obj)),
    }
}

/// The JSON text of a value that converts into a `JsonObject`: the text of what the
/// conversion gives.
pub fn into_json<T>(obj: T) -> (r: String) where T: Into<JsonObject>
    ensures
        exists|o: JsonObject| call_ensures(<T as Into<JsonObject>>::into, (obj,), o) && r@ == json_text(o@),
{
    let o = obj.into();
    o.into_json()
}

/// The JSON text of a value whose reference converts into a `JsonObject`: the text of
/// what the conversion gives.
pub fn to_json<'a, T>(obj: &'a T) -> (r: String) where &'a T: Into<JsonObject>
    ensures
        exists|o: JsonObject| call_ensures(<&'a T as Into<JsonObject>>::into, (obj,), o) && r@ == json_text(o@),
{
    let o = obj.into();
    o.into_json()
}

} // verus!
