//! The integer types' conversions to and from JSON values: an integer becomes a scalar
//! holding its decimal text, and a scalar converts back where its text parses as a number
//! of the type.
use vstd::prelude::*;
use crate::json::{Json, JsonObject};
use crate::primitives::{int_text, int_from_json, int_result, signed_text, unsigned_text, signed_from_json, unsigned_from_json};

verus! {

impl From<i8> for JsonObject {
    /// A scalar holding the number's decimal text.
    fn from(n: i8) -> (r: JsonObject)
        ensures
            r@ == Json::Value(int_text(n as int)),
    {
        JsonObject::Value { value: signed_text(n as i128) }
    }
}

impl vstd::std_specs::convert::FromSpecImpl<i8> for JsonObject {
    open spec fn obeys_from_spec() -> bool {
        false
    }

    open spec fn from_spec(n: i8) -> JsonObject {
        choose|o: JsonObject| o@ == Json::Value(int_text(n as int))
    }
}

impl<'a> From<&'a i8> for JsonObject {
    /// A scalar holding the number's decimal text.
    fn from(n: &'a i8) -> (r: JsonObject)
        ensures
            r@ == Json::Value(int_text(*n as int)),
    {
        JsonObject::from(*n)
    }
}

impl<'a> vstd::std_specs::convert::FromSpecImpl<&'a i8> for JsonObject {
    open spec fn obeys_from_spec() -> bool {
        false
    }

    open spec fn from_spec(n: &'a i8) -> JsonObject {
        choose|o: JsonObject| o@ == Json::Value(int_text(*n as int))
    }
}

impl TryFrom<JsonObject> for i8 {
    type Error = String;

    /// The number that the scalar's text parses to as a `i8`.
    fn try_from(json: JsonObject) -> (r: Result<i8, String>)
        ensures
            int_result(r) == int_from_json(json@, i8::MIN as int, i8::MAX as int, "i8"@),
    {
        match signed_from_json(json, i8::MIN as i128, i8::MAX as i128, "i8") {
            Ok(n) => Ok(n as i8),
            Err(m) => Err(m),
        }
    }
}

impl vstd::std_specs::convert::TryFromSpecImpl<JsonObject> for i8 {
    open spec fn obeys_try_from_spec() -> bool {
        false
    }

    open spec fn try_from_spec(json: JsonObject) -> Result<Self, Self::Error> {
        choose|r: Result<i8, String>| int_result(r) == int_from_json(json@, i8::MIN as int, i8::MAX as int, "i8"@)
    }
}

impl From<i16> for JsonObject {
    /// A scalar holding the number's decimal text.
    fn from(n: i16) -> (r: JsonObject)
        ensures
            r@ == Json::Value(int_text(n as int)),
    {
        JsonObject::Value { value: signed_text(n as i128) }
    }
}

impl vstd::std_specs::convert::FromSpecImpl<i16> for JsonObject {
    open spec fn obeys_from_spec() -> bool {
        false
    }

    open spec fn from_spec(n: i16) -> JsonObject {
        choose|o: JsonObject| o@ == Json::Value(int_text(n as int))
    }
}

impl<'a> From<&'a i16> for JsonObject {
    /// A scalar holding the number's decimal text.
    fn from(n: &'a i16) -> (r: JsonObject)
        ensures
            r@ == Json::Value(int_text(*n as int)),
    {
        JsonObject::from(*n)
    }
}

impl<'a> vstd::std_specs::convert::FromSpecImpl<&'a i16> for JsonObject {
    open spec fn obeys_from_spec() -> bool {
        false
    }

    open spec fn from_spec(n: &'a i16) -> JsonObject {
        choose|o: JsonObject| o@ == Json::Value(int_text(*n as int))
    }
}

impl TryFrom<JsonObject> for i16 {
    type Error = String;

    /// The number that the scalar's text parses to as a `i16`.
    fn try_from(json: JsonObject) -> (r: Result<i16, String>)
        ensures
            int_result(r) == int_from_json(json@, i16::MIN as int, i16::MAX as int, "i16"@),
    {
        match signed_from_json(json, i16::MIN as i128, i16::MAX as i128, "i16") {
            Ok(n) => Ok(n as i16),
            Err(m) => Err(m),
        }
    }
}

impl vstd::std_specs::convert::TryFromSpecImpl<JsonObject> for i16 {
    open spec fn obeys_try_from_spec() -> bool {
        false
    }

    open spec fn try_from_spec(json: JsonObject) -> Result<Self, Self::Error> {
        choose|r: Result<i16, String>| int_result(r) == int_from_json(json@, i16::MIN as int, i16::MAX as int, "i16"@)
    }
}

impl From<i32> for JsonObject {
    /// A scalar holding the number's decimal text.
    fn from(n: i32) -> (r: JsonObject)
        ensures
            r@ == Json::Value(int_text(n as int)),
    {
        JsonObject::Value { value: signed_text(n as i128) }
    }
}

impl vstd::std_specs::convert::FromSpecImpl<i32> for JsonObject {
    open spec fn obeys_from_spec() -> bool {
        false
    }

    open spec fn from_spec(n: i32) -> JsonObject {
        choose|o: JsonObject| o@ == Json::Value(int_text(n as int))
    }
}

impl<'a> From<&'a i32> for JsonObject {
    /// A scalar holding the number's decimal text.
    fn from(n: &'a i32) -> (r: JsonObject)
        ensures
            r@ == Json::Value(int_text(*n as int)),
    {
        JsonObject::from(*n)
    }
}

impl<'a> vstd::std_specs::convert::FromSpecImpl<&'a i32> for JsonObject {
    open spec fn obeys_from_spec() -> bool {
        false
    }

    open spec fn from_spec(n: &'a i32) -> JsonObject {
        choose|o: JsonObject| o@ == Json::Value(int_text(*n as int))
    }
}

impl TryFrom<JsonObject> for i32 {
    type Error = String;

    /// The number that the scalar's text parses to as a `i32`.
    fn try_from(json: JsonObject) -> (r: Result<i32, String>)
        ensures
            int_result(r) == int_from_json(json@, i32::MIN as int, i32::MAX as int, "i32"@),
    {
        match signed_from_json(json, i32::MIN as i128, i32::MAX as i128, "i32") {
            Ok(n) => Ok(n as i32),
            Err(m) => Err(m),
        }
    }
}

impl vstd::std_specs::convert::TryFromSpecImpl<JsonObject> for i32 {
    open spec fn obeys_try_from_spec() -> bool {
        false
    }

    open spec fn try_from_spec(json: JsonObject) -> Result<Self, Self::Error> {
        choose|r: Result<i32, String>| int_result(r) == int_from_json(json@, i32::MIN as int, i32::MAX as int, "i32"@)
    }
}

impl From<i64> for JsonObject {
    /// A scalar holding the number's decimal text.
    fn from(n: i64) -> (r: JsonObject)
        ensures
            r@ == Json::Value(int_text(n as int)),
    {
        JsonObject::Value { value: signed_text(n as i128) }
    }
}

impl vstd::std_specs::convert::FromSpecImpl<i64> for JsonObject {
    open spec fn obeys_from_spec() -> bool {
        false
    }

    open spec fn from_spec(n: i64) -> JsonObject {
        choose|o: JsonObject| o@ == Json::Value(int_text(n as int))
    }
}

impl<'a> From<&'a i64> for JsonObject {
    /// A scalar holding the number's decimal text.
    fn from(n: &'a i64) -> (r: JsonObject)
        ensures
            r@ == Json::Value(int_text(*n as int)),
    {
        JsonObject::from(*n)
    }
}

impl<'a> vstd::std_specs::convert::FromSpecImpl<&'a i64> for JsonObject {
    open spec fn obeys_from_spec() -> bool {
        false
    }

    open spec fn from_spec(n: &'a i64) -> JsonObject {
        choose|o: JsonObject| o@ == Json::Value(int_text(*n as int))
    }
}

impl TryFrom<JsonObject> for i64 {
    type Error = String;

    /// The number that the scalar's text parses to as a `i64`.
    fn try_from(json: JsonObject) -> (r: Result<i64, String>)
        ensures
            int_result(r) == int_from_json(json@, i64::MIN as int, i64::MAX as int, "i64"@),
    {
        match signed_from_json(json, i64::MIN as i128, i64::MAX as i128, "i64") {
            Ok(n) => Ok(n as i64),
            Err(m) => Err(m),
        }
    }
}

impl vstd::std_specs::convert::TryFromSpecImpl<JsonObject> for i64 {
    open spec fn obeys_try_from_spec() -> bool {
        false
    }

    open spec fn try_from_spec(json: JsonObject) -> Result<Self, Self::Error> {
        choose|r: Result<i64, String>| int_result(r) == int_from_json(json@, i64::MIN as int, i64::MAX as int, "i64"@)
    }
}

impl From<i128> for JsonObject {
    /// A scalar holding the number's decimal text.
    fn from(n: i128) -> (r: JsonObject)
        ensures
            r@ == Json::Value(int_text(n as int)),
    {
        JsonObject::Value { value: signed_text(n as i128) }
    }
}

impl vstd::std_specs::convert::FromSpecImpl<i128> for JsonObject {
    open spec fn obeys_from_spec() -> bool {
        false
    }

    open spec fn from_spec(n: i128) -> JsonObject {
        choose|o: JsonObject| o@ == Json::Value(int_text(n as int))
    }
}

impl<'a> From<&'a i128> for JsonObject {
    /// A scalar holding the number's decimal text.
    fn from(n: &'a i128) -> (r: JsonObject)
        ensures
            r@ == Json::Value(int_text(*n as int)),
    {
        JsonObject::from(*n)
    }
}

impl<'a> vstd::std_specs::convert::FromSpecImpl<&'a i128> for JsonObject {
    open spec fn obeys_from_spec() -> bool {
        false
    }

    open spec fn from_spec(n: &'a i128) -> JsonObject {
        choose|o: JsonObject| o@ == Json::Value(int_text(*n as int))
    }
}

impl TryFrom<JsonObject> for i128 {
    type Error = String;

    /// The number that the scalar's text parses to as a `i128`.
    fn try_from(json: JsonObject) -> (r: Result<i128, String>)
        ensures
            int_result(r) == int_from_json(json@, i128::MIN as int, i128::MAX as int, "i128"@),
    {
        match signed_from_json(json, i128::MIN as i128, i128::MAX as i128, "i128") {
            Ok(n) => Ok(n as i128),
            Err(m) => Err(m),
        }
    }
}

impl vstd::std_specs::convert::TryFromSpecImpl<JsonObject> for i128 {
    open spec fn obeys_try_from_spec() -> bool {
        false
    }

    open spec fn try_from_spec(json: JsonObject) -> Result<Self, Self::Error> {
        choose|r: Result<i128, String>| int_result(r) == int_from_json(json@, i128::MIN as int, i128::MAX as int, "i128"@)
    }
}

impl From<isize> for JsonObject {
    /// A scalar holding the number's decimal text.
    fn from(n: isize) -> (r: JsonObject)
        ensures
            r@ == Json::Value(int_text(n as int)),
    {
        JsonObject::Value { value: signed_text(n as i128) }
    }
}

impl vstd::std_specs::convert::FromSpecImpl<isize> for JsonObject {
    open spec fn obeys_from_spec() -> bool {
        false
    }

    open spec fn from_spec(n: isize) -> JsonObject {
        choose|o: JsonObject| o@ == Json::Value(int_text(n as int))
    }
}

impl<'a> From<&'a isize> for JsonObject {
    /// A scalar holding the number's decimal text.
    fn from(n: &'a isize) -> (r: JsonObject)
        ensures
            r@ == Json::Value(int_text(*n as int)),
    {
        JsonObject::from(*n)
    }
}

impl<'a> vstd::std_specs::convert::FromSpecImpl<&'a isize> for JsonObject {
    open spec fn obeys_from_spec() -> bool {
        false
    }

    open spec fn from_spec(n: &'a isize) -> JsonObject {
        choose|o: JsonObject| o@ == Json::Value(int_text(*n as int))
    }
}

impl TryFrom<JsonObject> for isize {
    type Error = String;

    /// The number that the scalar's text parses to as a `isize`.
    fn try_from(json: JsonObject) -> (r: Result<isize, String>)
        ensures
            int_result(r) == int_from_json(json@, isize::MIN as int, isize::MAX as int, "isize"@),
    {
        match signed_from_json(json, isize::MIN as i128, isize::MAX as i128, "isize") {
            Ok(n) => Ok(n as isize),
            Err(m) => Err(m),
        }
    }
}

impl vstd::std_specs::convert::TryFromSpecImpl<JsonObject> for isize {
    open spec fn obeys_try_from_spec() -> bool {
        false
    }

    open spec fn try_from_spec(json: JsonObject) -> Result<Self, Self::Error> {
        choose|r: Result<isize, String>| int_result(r) == int_from_json(json@, isize::MIN as int, isize::MAX as int, "isize"@)
    }
}

impl From<u8> for JsonObject {
    /// A scalar holding the number's decimal text.
    fn from(n: u8) -> (r: JsonObject)
        ensures
            r@ == Json::Value(int_text(n as int)),
    {
        JsonObject::Value { value: unsigned_text(n as u128) }
    }
}

impl vstd::std_specs::convert::FromSpecImpl<u8> for JsonObject {
    open spec fn obeys_from_spec() -> bool {
        false
    }

    open spec fn from_spec(n: u8) -> JsonObject {
        choose|o: JsonObject| o@ == Json::Value(int_text(n as int))
    }
}

impl<'a> From<&'a u8> for JsonObject {
    /// A scalar holding the number's decimal text.
    fn from(n: &'a u8) -> (r: JsonObject)
        ensures
            r@ == Json::Value(int_text(*n as int)),
    {
        JsonObject::from(*n)
    }
}

impl<'a> vstd::std_specs::convert::FromSpecImpl<&'a u8> for JsonObject {
    open spec fn obeys_from_spec() -> bool {
        false
    }

    open spec fn from_spec(n: &'a u8) -> JsonObject {
        choose|o: JsonObject| o@ == Json::Value(int_text(*n as int))
    }
}

impl TryFrom<JsonObject> for u8 {
    type Error = String;

    /// The number that the scalar's text parses to as a `u8`.
    fn try_from(json: JsonObject) -> (r: Result<u8, String>)
        ensures
            int_result(r) == int_from_json(json@, 0, u8::MAX as int, "u8"@),
    {
        match unsigned_from_json(json, u8::MAX as u128, "u8") {
            Ok(n) => Ok(n as u8),
            Err(m) => Err(m),
        }
    }
}

impl vstd::std_specs::convert::TryFromSpecImpl<JsonObject> for u8 {
    open spec fn obeys_try_from_spec() -> bool {
        false
    }

    open spec fn try_from_spec(json: JsonObject) -> Result<Self, Self::Error> {
        choose|r: Result<u8, String>| int_result(r) == int_from_json(json@, 0, u8::MAX as int, "u8"@)
    }
}

impl From<u16> for JsonObject {
    /// A scalar holding the number's decimal text.
    fn from(n: u16) -> (r: JsonObject)
        ensures
            r@ == Json::Value(int_text(n as int)),
    {
        JsonObject::Value { value: unsigned_text(n as u128) }
    }
}

impl vstd::std_specs::convert::FromSpecImpl<u16> for JsonObject {
    open spec fn obeys_from_spec() -> bool {
        false
    }

    open spec fn from_spec(n: u16) -> JsonObject {
        choose|o: JsonObject| o@ == Json::Value(int_text(n as int))
    }
}

impl<'a> From<&'a u16> for JsonObject {
    /// A scalar holding the number's decimal text.
    fn from(n: &'a u16) -> (r: JsonObject)
        ensures
            r@ == Json::Value(int_text(*n as int)),
    {
        JsonObject::from(*n)
    }
}

impl<'a> vstd::std_specs::convert::FromSpecImpl<&'a u16> for JsonObject {
    open spec fn obeys_from_spec() -> bool {
        false
    }

    open spec fn from_spec(n: &'a u16) -> JsonObject {
        choose|o: JsonObject| o@ == Json::Value(int_text(*n as int))
    }
}

impl TryFrom<JsonObject> for u16 {
    type Error = String;

    /// The number that the scalar's text parses to as a `u16`.
    fn try_from(json: JsonObject) -> (r: Result<u16, String>)
        ensures
            int_result(r) == int_from_json(json@, 0, u16::MAX as int, "u16"@),
    {
        match unsigned_from_json(json, u16::MAX as u128, "u16") {
            Ok(n) => Ok(n as u16),
            Err(m) => Err(m),
        }
    }
}

impl vstd::std_specs::convert::TryFromSpecImpl<JsonObject> for u16 {
    open spec fn obeys_try_from_spec() -> bool {
        false
    }

    open spec fn try_from_spec(json: JsonObject) -> Result<Self, Self::Error> {
        choose|r: Result<u16, String>| int_result(r) == int_from_json(json@, 0, u16::MAX as int, "u16"@)
    }
}

impl From<u32> for JsonObject {
    /// A scalar holding the number's decimal text.
    fn from(n: u32) -> (r: JsonObject)
        ensures
            r@ == Json::Value(int_text(n as int)),
    {
        JsonObject::Value { value: unsigned_text(n as u128) }
    }
}

impl vstd::std_specs::convert::FromSpecImpl<u32> for JsonObject {
    open spec fn obeys_from_spec() -> bool {
        false
    }

    open spec fn from_spec(n: u32) -> JsonObject {
        choose|o: JsonObject| o@ == Json::Value(int_text(n as int))
    }
}

impl<'a> From<&'a u32> for JsonObject {
    /// A scalar holding the number's decimal text.
    fn from(n: &'a u32) -> (r: JsonObject)
        ensures
            r@ == Json::Value(int_text(*n as int)),
    {
        JsonObject::from(*n)
    }
}

impl<'a> vstd::std_specs::convert::FromSpecImpl<&'a u32> for JsonObject {
    open spec fn obeys_from_spec() -> bool {
        false
    }

    open spec fn from_spec(n: &'a u32) -> JsonObject {
        choose|o: JsonObject| o@ == Json::Value(int_text(*n as int))
    }
}

impl TryFrom<JsonObject> for u32 {
    type Error = String;

    /// The number that the scalar's text parses to as a `u32`.
    fn try_from(json: JsonObject) -> (r: Result<u32, String>)
        ensures
            int_result(r) == int_from_json(json@, 0, u32::MAX as int, "u32"@),
    {
        match unsigned_from_json(json, u32::MAX as u128, "u32") {
            Ok(n) => Ok(n as u32),
            Err(m) => Err(m),
        }
    }
}

impl vstd::std_specs::convert::TryFromSpecImpl<JsonObject> for u32 {
    open spec fn obeys_try_from_spec() -> bool {
        false
    }

    open spec fn try_from_spec(json: JsonObject) -> Result<Self, Self::Error> {
        choose|r: Result<u32, String>| int_result(r) == int_from_json(json@, 0, u32::MAX as int, "u32"@)
    }
}

impl From<u64> for JsonObject {
    /// A scalar holding the number's decimal text.
    fn from(n: u64) -> (r: JsonObject)
        ensures
            r@ == Json::Value(int_text(n as int)),
    {
        JsonObject::Value { value: unsigned_text(n as u128) }
    }
}

impl vstd::std_specs::convert::FromSpecImpl<u64> for JsonObject {
    open spec fn obeys_from_spec() -> bool {
        false
    }

    open spec fn from_spec(n: u64) -> JsonObject {
        choose|o: JsonObject| o@ == Json::Value(int_text(n as int))
    }
}

impl<'a> From<&'a u64> for JsonObject {
    /// A scalar holding the number's decimal text.
    fn from(n: &'a u64) -> (r: JsonObject)
        ensures
            r@ == Json::Value(int_text(*n as int)),
    {
        JsonObject::from(*n)
    }
}

impl<'a> vstd::std_specs::convert::FromSpecImpl<&'a u64> for JsonObject {
    open spec fn obeys_from_spec() -> bool {
        false
    }

    open spec fn from_spec(n: &'a u64) -> JsonObject {
        choose|o: JsonObject| o@ == Json::Value(int_text(*n as int))
    }
}

impl TryFrom<JsonObject> for u64 {
    type Error = String;

    /// The number that the scalar's text parses to as a `u64`.
    fn try_from(json: JsonObject) -> (r: Result<u64, String>)
        ensures
            int_result(r) == int_from_json(json@, 0, u64::MAX as int, "u64"@),
    {
        match unsigned_from_json(json, u64::MAX as u128, "u64") {
            Ok(n) => Ok(n as u64),
            Err(m) => Err(m),
        }
    }
}

impl vstd::std_specs::convert::TryFromSpecImpl<JsonObject> for u64 {
    open spec fn obeys_try_from_spec() -> bool {
        false
    }

    open spec fn try_from_spec(json: JsonObject) -> Result<Self, Self::Error> {
        choose|r: Result<u64, String>| int_result(r) == int_from_json(json@, 0, u64::MAX as int, "u64"@)
    }
}

impl From<u128> for JsonObject {
    /// A scalar holding the number's decimal text.
    fn from(n: u128) -> (r: JsonObject)
        ensures
            r@ == Json::Value(int_text(n as int)),
    {
        JsonObject::Value { value: unsigned_text(n as u128) }
    }
}

impl vstd::std_specs::convert::FromSpecImpl<u128> for JsonObject {
    open spec fn obeys_from_spec() -> bool {
        false
    }

    open spec fn from_spec(n: u128) -> JsonObject {
        choose|o: JsonObject| o@ == Json::Value(int_text(n as int))
    }
}

impl<'a> From<&'a u128> for JsonObject {
    /// A scalar holding the number's decimal text.
    fn from(n: &'a u128) -> (r: JsonObject)
        ensures
            r@ == Json::Value(int_text(*n as int)),
    {
        JsonObject::from(*n)
    }
}

impl<'a> vstd::std_specs::convert::FromSpecImpl<&'a u128> for JsonObject {
    open spec fn obeys_from_spec() -> bool {
        false
    }

    open spec fn from_spec(n: &'a u128) -> JsonObject {
        choose|o: JsonObject| o@ == Json::Value(int_text(*n as int))
    }
}

impl TryFrom<JsonObject> for u128 {
    type Error = String;

    /// The number that the scalar's text parses to as a `u128`.
    fn try_from(json: JsonObject) -> (r: Result<u128, String>)
        ensures
            int_result(r) == int_from_json(json@, 0, u128::MAX as int, "u128"@),
    {
        match unsigned_from_json(json, u128::MAX as u128, "u128") {
            Ok(n) => Ok(n as u128),
            Err(m) => Err(m),
        }
    }
}

impl vstd::std_specs::convert::TryFromSpecImpl<JsonObject> for u128 {
    open spec fn obeys_try_from_spec() -> bool {
        false
    }

    open spec fn try_from_spec(json: JsonObject) -> Result<Self, Self::Error> {
        choose|r: Result<u128, String>| int_result(r) == int_from_json(json@, 0, u128::MAX as int, "u128"@)
    }
}

impl From<usize> for JsonObject {
    /// A scalar holding the number's decimal text.
    fn from(n: usize) -> (r: JsonObject)
        ensures
            r@ == Json::Value(int_text(n as int)),
    {
        JsonObject::Value { value: unsigned_text(n as u128) }
    }
}

impl vstd::std_specs::convert::FromSpecImpl<usize> for JsonObject {
    open spec fn obeys_from_spec() -> bool {
        false
    }

    open spec fn from_spec(n: usize) -> JsonObject {
        choose|o: JsonObject| o@ == Json::Value(int_text(n as int))
    }
}

impl<'a> From<&'a usize> for JsonObject {
    /// A scalar holding the number's decimal text.
    fn from(n: &'a usize) -> (r: JsonObject)
        ensures
            r@ == Json::Value(int_text(*n as int)),
    {
        JsonObject::from(*n)
    }
}

impl<'a> vstd::std_specs::convert::FromSpecImpl<&'a usize> for JsonObject {
    open spec fn obeys_from_spec() -> bool {
        false
    }

    open spec fn from_spec(n: &'a usize) -> JsonObject {
        choose|o: JsonObject| o@ == Json::Value(int_text(*n as int))
    }
}

impl TryFrom<JsonObject> for usize {
    type Error = String;

    /// The number that the scalar's text parses to as a `usize`.
    fn try_from(json: JsonObject) -> (r: Result<usize, String>)
        ensures
            int_result(r) == int_from_json(json@, 0, usize::MAX as int, "usize"@),
    {
        match unsigned_from_json(json, usize::MAX as u128, "usize") {
            Ok(n) => Ok(n as usize),
            Err(m) => Err(m),
        }
    }
}

impl vstd::std_specs::convert::TryFromSpecImpl<JsonObject> for usize {
    open spec fn obeys_try_from_spec() -> bool {
        false
    }

    open spec fn try_from_spec(json: JsonObject) -> Result<Self, Self::Error> {
        choose|r: Result<usize, String>| int_result(r) == int_from_json(json@, 0, usize::MAX as int, "usize"@)
    }
}

} // verus!
