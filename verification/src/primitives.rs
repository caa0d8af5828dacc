//! Conversions between Rust's primitive values and JSON values: a number, a boolean or a
//! character becomes a scalar holding its text, and a scalar converts back by the rules
//! with which Rust parses that type from text.
use vstd::prelude::*;
use crate::chars::{hex_digit_lower, lower_hex_digit};
use crate::json::{Json, JsonObject, variant_text};
use crate::number::{is_ascii_digit, all_digits, digits_value, digit_char};
use crate::text::{chars_of_str, string_of_chars};

verus! {

/// The decimal digits of `n`, without leading zeros.
pub open spec fn nat_text(n: nat) -> Seq<char>
    decreases n,
{
    if n < 10 {
        seq![hex_digit_lower(n)]
    } else {
        nat_text(n / 10).push(hex_digit_lower(n % 10))
    }
}

/// How Rust writes an integer: its decimal digits, after a minus sign where it is negative.
pub open spec fn int_text(n: int) -> Seq<char> {
    if n < 0 {
        seq!['-'] + nat_text((-n) as nat)
    } else {
        nat_text(n as nat)
    }
}

/// The integer that Rust's `parse` reads from `s` for an integer type whose values run
/// from `lo` to `hi`: an optional `+` (or `-`, for a signed type), then one or more ASCII
/// digits, whose value lies in the type's range.
pub open spec fn int_value(s: Seq<char>, lo: int, hi: int) -> Option<int> {
    let negative = lo < 0 && s.len() > 0 && s[0] == '-';
    let d = if s.len() > 0 && (s[0] == '+' || negative) {
        s.drop_first()
    } else {
        s
    };
    let n = if negative {
        -(digits_value(d) as int)
    } else {
        digits_value(d) as int
    };
    if d.len() > 0 && all_digits(d) && lo <= n <= hi {
        Some(n)
    } else {
        None
    }
}

/// The message of a conversion to `typ` from a value that is not a scalar.
pub open spec fn kind_refusal(j: Json, typ: Seq<char>) -> Seq<char> {
    "Cannot deserialize "@ + typ + " from `"@ + variant_text(j) + "`"@
}

/// The message of a conversion to `typ` from a scalar whose text `v` does not parse.
pub open spec fn parse_refusal(v: Seq<char>, typ: Seq<char>) -> Seq<char> {
    "Cannot parse `"@ + v + "` into "@ + typ + " !"@
}

/// What converting a JSON value to the integer type `typ`, whose values run from `lo` to
/// `hi`, gives: the number that its text parses to, or the message of its refusal.
pub open spec fn int_from_json(j: Json, lo: int, hi: int, typ: Seq<char>) -> Result<int, Seq<char>> {
    match j {
        Json::Value(v) => match int_value(v, lo, hi) {
            Some(n) => Ok(n),
            None => Err(parse_refusal(v, typ)),
        },
        _ => Err(kind_refusal(j, typ)),
    }
}

/// The model of an integer conversion's result.
pub open spec fn int_result<T: Integer>(r: Result<T, String>) -> Result<int, Seq<char>> {
    match r {
        Ok(n) => Ok(n as int),
        Err(m) => Err(m@),
    }
}

fn push_decimal(n: u128, out: &mut Vec<char>)
    ensures
        final(out)@ == old(out)@ + nat_text(n as nat),
    decreases n,
{
    if n >= 10 {
        push_decimal(n / 10, out);
    }
    let d: u32 = (n % 10) as u32;
    out.push(lower_hex_digit(d));
    proof {
        if n >= 10 {
            assert(nat_text(n as nat) == nat_text((n / 10) as nat).push(hex_digit_lower((n % 10) as nat)));
        }
    }
}

/// How Rust writes an unsigned integer.
pub fn unsigned_text(n: u128) -> (r: String)
    ensures
        r@ == int_text(n as int),
{
    let mut out: Vec<char> = Vec::new();
    push_decimal(n, &mut out);
    assert(out@ =~= nat_text(n as nat));
    string_of_chars(out.as_slice())
}

/// How Rust writes a signed integer.
pub fn signed_text(n: i128) -> (r: String)
    ensures
        r@ == int_text(n as int),
{
    let mut out: Vec<char> = Vec::new();
    if n < 0 {
        out.push('-');
        let m: u128 = ((-(n + 1)) as u128) + 1;
        assert(m as int == -(n as int));
        push_decimal(m, &mut out);
    } else {
        push_decimal(n as u128, &mut out);
        assert(out@ =~= nat_text(n as nat));
    }
    string_of_chars(out.as_slice())
}

proof fn lemma_digits_step(s: Seq<char>, k: int)
    requires
        0 <= k < s.len(),
    ensures
        digits_value(s.take(k + 1)) == digits_value(s.take(k)) * 10 + ((s[k] as u32) - 0x30) as nat,
{
    assert(s.take(k + 1).drop_last() =~= s.take(k));
    assert(s.take(k + 1).last() == s[k]);
}

proof fn lemma_digits_grow(s: Seq<char>, k: int)
    requires
        0 <= k <= s.len(),
        all_digits(s),
    ensures
        digits_value(s.take(k)) <= digits_value(s),
    decreases s.len() - k,
{
    if k < s.len() {
        lemma_digits_step(s, k);
        assert(is_ascii_digit(s[k]));
        lemma_digits_grow(s, k + 1);
    } else {
        assert(s.take(k) =~= s);
    }
}

/// The value of the digits `s[lo..]`, where they are one or more digits whose value is at
/// most `bound`; `None` otherwise.
fn parse_digits(s: &[char], lo: usize, bound: u128) -> (r: Option<u128>)
    requires
        lo <= s@.len(),
    ensures
        ({
            let d = s@.skip(lo as int);
            if d.len() > 0 && all_digits(d) && digits_value(d) <= bound {
                r == Some(digits_value(d) as u128)
            } else {
                r is None
            }
        }),
{
    let ghost d = s@.skip(lo as int);
    if lo == s.len() {
        return None;
    }
    let mut acc: u128 = 0;
    let mut i: usize = lo;
    assert(d.take(0) =~= Seq::<char>::empty());
    while i < s.len()
        invariant
            lo <= i <= s@.len(),
            d == s@.skip(lo as int),
            all_digits(d.take(i - lo)),
            acc as nat == digits_value(d.take(i - lo)),
            acc <= bound,
        decreases s.len() - i,
    {
        let c = s[i];
        assert(d[i - lo] == c);
        if !digit_char(c) {
            assert(!all_digits(d));
            return None;
        }
        let v: u128 = ((c as u32) - 0x30) as u128;
        proof {
            lemma_digits_step(d, i - lo);
        }
        if v > bound || acc > (bound - v) / 10 {
            proof {
                assert(acc * 10 + v > bound) by (nonlinear_arith)
                    requires
                        v > bound || acc > (bound - v) / 10,
                        v < 10,
                ;
                if all_digits(d) {
                    lemma_digits_grow(d, i - lo + 1);
                }
            }
            return None;
        }
        assert(acc * 10 + v <= bound) by (nonlinear_arith)
            requires
                acc <= (bound - v) / 10,
                v <= bound,
        ;
        acc = acc * 10 + v;
        i = i + 1;
        assert(all_digits(d.take(i - lo))) by {
            assert forall|j: int| 0 <= j < i - lo implies is_ascii_digit(#[trigger] d.take(i - lo)[j]) by {
                if j < i - lo - 1 {
                    assert(d.take(i - lo)[j] == d.take(i - lo - 1)[j]);
                }
            }
        }
    }
    assert(d.take(i - lo) =~= d);
    Some(acc)
}

/// Rust's `parse` for an unsigned integer type whose largest value is `max`.
pub fn parse_unsigned(s: &[char], max: u128) -> (r: Option<u128>)
    ensures
        r == match int_value(s@, 0, max as int) {
            Some(n) => Some(n as u128),
            None => None::<u128>,
        },
{
    let lo: usize = if s.len() > 0 && s[0] == '+' { 1 } else { 0 };
    assert(s@.skip(0) =~= s@);
    assert(s@.len() > 0 ==> s@.skip(1) =~= s@.drop_first());
    parse_digits(s, lo, max)
}

/// Rust's `parse` for a signed integer type whose values run from `min` to `max`.
pub fn parse_signed(s: &[char], min: i128, max: i128) -> (r: Option<i128>)
    requires
        min < 0 <= max,
    ensures
        r == match int_value(s@, min as int, max as int) {
            Some(n) => Some(n as i128),
            None => None::<i128>,
        },
{
    assert(s@.skip(0) =~= s@);
    assert(s@.len() > 0 ==> s@.skip(1) =~= s@.drop_first());
    if s.len() > 0 && s[0] == '-' {
        let bound: u128 = ((-(min + 1)) as u128) + 1;
        assert(bound as int == -(min as int));
        match parse_digits(s, 1, bound) {
            None => None,
            Some(m) => {
                if m == 0 {
                    Some(0)
                } else {
                    let k: i128 = (m - 1) as i128;
                    Some(-k - 1)
                }
            },
        }
    } else {
        let lo: usize = if s.len() > 0 && s[0] == '+' { 1 } else { 0 };
        match parse_digits(s, lo, max as u128) {
            None => None,
            Some(m) => Some(m as i128),
        }
    }
}

fn append_text(out: &mut Vec<char>, t: &str)
    ensures
        final(out)@ == old(out)@ + t@,
{
    let mut v = chars_of_str(t);
    out.append(&mut v);
}

/// The refusal of a conversion to `typ` from a value that is not a scalar.
pub fn kind_refusal_message(json: &JsonObject, typ: &str) -> (r: String)
    ensures
        r@ == kind_refusal(json@, typ@),
{
    let mut out = chars_of_str("Cannot deserialize ");
    append_text(&mut out, typ);
    append_text(&mut out, " from `");
    append_text(&mut out, json.variant_name());
    append_text(&mut out, "`");
    string_of_chars(out.as_slice())
}

/// The refusal of a conversion to `typ` from a scalar whose text does not parse.
pub fn parse_refusal_message(text: &str, typ: &str) -> (r: String)
    ensures
        r@ == parse_refusal(text@, typ@),
{
    let mut out = chars_of_str("Cannot parse `");
    append_text(&mut out, text);
    append_text(&mut out, "` into ");
    append_text(&mut out, typ);
    append_text(&mut out, " !");
    string_of_chars(out.as_slice())
}

/// The text of a scalar, or the refusal of a conversion to `typ` from any other value.
pub fn scalar_text(json: JsonObject, typ: &str) -> (r: Result<String, String>)
    ensures
        match json@ {
            Json::Value(v) => r matches Ok(s) && s@ == v,
            _ => r matches Err(m) && m@ == kind_refusal(json@, typ@),
        },
{
    let refusal = kind_refusal_message(&json, typ);
    match json {
        JsonObject::Value { value } => Ok(value),
        _ => Err(refusal),
    }
}

/// Converts a JSON value to the signed integer type `typ`, whose values run from `min` to
/// `max`.
pub fn signed_from_json(json: JsonObject, min: i128, max: i128, typ: &str) -> (r: Result<i128, String>)
    requires
        min < 0 <= max,
    ensures
        int_result(r) == int_from_json(json@, min as int, max as int, typ@),
        r matches Ok(n) ==> min <= n <= max,
{
    let ghost j = json@;
    match scalar_text(json, typ) {
        Err(m) => Err(m),
        Ok(text) => {
            let chars = chars_of_str(text.as_str());
            match parse_signed(chars.as_slice(), min, max) {
                Some(n) => Ok(n),
                None => Err(parse_refusal_message(text.as_str(), typ)),
            }
        },
    }
}

/// Converts a JSON value to the unsigned integer type `typ`, whose largest value is `max`.
pub fn unsigned_from_json(json: JsonObject, max: u128, typ: &str) -> (r: Result<u128, String>)
    ensures
        int_result(r) == int_from_json(json@, 0, max as int, typ@),
        r matches Ok(n) ==> n <= max,
{
    match scalar_text(json, typ) {
        Err(m) => Err(m),
        Ok(text) => {
            let chars = chars_of_str(text.as_str());
            match parse_unsigned(chars.as_slice(), max) {
                Some(n) => Ok(n),
                None => Err(parse_refusal_message(text.as_str(), typ)),
            }
        },
    }
}

/// The model of a conversion's result, its message taken as text.
pub open spec fn result_model<T>(r: Result<T, String>) -> Result<T, Seq<char>> {
    match r {
        Ok(v) => Ok(v),
        Err(m) => Err(m@),
    }
}

/// How Rust writes a boolean.
pub open spec fn bool_text(b: bool) -> Seq<char> {
    if b {
        "true"@
    } else {
        "false"@
    }
}

/// What converting a JSON value to `bool` gives: a scalar reading exactly `true` or
/// `false` is that boolean; anything else is refused.
pub open spec fn bool_from_json(j: Json) -> Result<bool, Seq<char>> {
    match j {
        Json::Value(v) => if v == "true"@ {
            Ok(true)
        } else if v == "false"@ {
            Ok(false)
        } else {
            Err(parse_refusal(v, "bool"@))
        },
        _ => Err(kind_refusal(j, "bool"@)),
    }
}

/// What converting a JSON value to `char` gives: a scalar of exactly one character is
/// that character; anything else is refused.
pub open spec fn char_from_json(j: Json) -> Result<char, Seq<char>> {
    match j {
        Json::Value(v) => if v.len() == 1 {
            Ok(v[0])
        } else {
            Err(parse_refusal(v, "char"@))
        },
        _ => Err(kind_refusal(j, "char"@)),
    }
}

/// What converting a JSON value to `String` gives: a scalar's text; anything else is
/// refused with a message that names the type as `$typ`.
pub open spec fn string_from_json(j: Json) -> Result<Seq<char>, Seq<char>> {
    match j {
        Json::Value(v) => Ok(v),
        _ => Err(kind_refusal(j, "$typ"@)),
    }
}

/// The model of a text conversion's result.
pub open spec fn text_result(r: Result<String, String>) -> Result<Seq<char>, Seq<char>> {
    match r {
        Ok(v) => Ok(v@),
        Err(m) => Err(m@),
    }
}

impl From<bool> for JsonObject {
    /// A scalar holding `true` or `false`.
    fn from(b: bool) -> (r: JsonObject)
        ensures
            r@ == Json::Value(bool_text(b)),
    {
        let value = if b {
            "true".to_owned()
        } else {
            "false".to_owned()
        };
        JsonObject::Value { value }
    }
}

impl vstd::std_specs::convert::FromSpecImpl<bool> for JsonObject {
    open spec fn obeys_from_spec() -> bool {
        false
    }

    open spec fn from_spec(b: bool) -> JsonObject {
        choose|o: JsonObject| o@ == Json::Value(bool_text(b))
    }
}

impl<'a> From<&'a bool> for JsonObject {
    /// A scalar holding `true` or `false`.
    fn from(b: &'a bool) -> (r: JsonObject)
        ensures
            r@ == Json::Value(bool_text(*b)),
    {
        JsonObject::from(*b)
    }
}

impl<'a> vstd::std_specs::convert::FromSpecImpl<&'a bool> for JsonObject {
    open spec fn obeys_from_spec() -> bool {
        false
    }

    open spec fn from_spec(b: &'a bool) -> JsonObject {
        choose|o: JsonObject| o@ == Json::Value(bool_text(*b))
    }
}

impl TryFrom<JsonObject> for bool {
    type Error = String;

    /// The boolean that the scalar's text names.
    fn try_from(json: JsonObject) -> (r: Result<bool, String>)
        ensures
            result_model(r) == bool_from_json(json@),
    {
        match scalar_text(json, "bool") {
            Err(m) => Err(m),
            Ok(text) => {
                if text == "true".to_owned() {
                    Ok(true)
                } else if text == "false".to_owned() {
                    Ok(false)
                } else {
                    Err(parse_refusal_message(text.as_str(), "bool"))
                }
            },
        }
    }
}

impl vstd::std_specs::convert::TryFromSpecImpl<JsonObject> for bool {
    open spec fn obeys_try_from_spec() -> bool {
        false
    }

    open spec fn try_from_spec(json: JsonObject) -> Result<Self, Self::Error> {
        choose|r: Result<bool, String>| result_model(r) == bool_from_json(json@)
    }
}

impl From<char> for JsonObject {
    /// A scalar holding the character.
    fn from(c: char) -> (r: JsonObject)
        ensures
            r@ == Json::Value(seq![c]),
    {
        let v: Vec<char> = vec![c];
        assert(v@ =~= seq![c]);
        JsonObject::Value { value: string_of_chars(v.as_slice()) }
    }
}

impl vstd::std_specs::convert::FromSpecImpl<char> for JsonObject {
    open spec fn obeys_from_spec() -> bool {
        false
    }

    open spec fn from_spec(c: char) -> JsonObject {
        choose|o: JsonObject| o@ == Json::Value(seq![c])
    }
}

impl<'a> From<&'a char> for JsonObject {
    /// A scalar holding the character.
    fn from(c: &'a char) -> (r: JsonObject)
        ensures
            r@ == Json::Value(seq![*c]),
    {
        JsonObject::from(*c)
    }
}

impl<'a> vstd::std_specs::convert::FromSpecImpl<&'a char> for JsonObject {
    open spec fn obeys_from_spec() -> bool {
        false
    }

    open spec fn from_spec(c: &'a char) -> JsonObject {
        choose|o: JsonObject| o@ == Json::Value(seq![*c])
    }
}

impl TryFrom<JsonObject> for char {
    type Error = String;

    /// The one character of the scalar's text.
    fn try_from(json: JsonObject) -> (r: Result<char, String>)
        ensures
            result_model(r) == char_from_json(json@),
    {
        match scalar_text(json, "char") {
            Err(m) => Err(m),
            Ok(text) => {
                let chars = chars_of_str(text.as_str());
                if chars.len() == 1 {
                    Ok(chars[0])
                } else {
                    Err(parse_refusal_message(text.as_str(), "char"))
                }
            },
        }
    }
}

impl vstd::std_specs::convert::TryFromSpecImpl<JsonObject> for char {
    open spec fn obeys_try_from_spec() -> bool {
        false
    }

    open spec fn try_from_spec(json: JsonObject) -> Result<Self, Self::Error> {
        choose|r: Result<char, String>| result_model(r) == char_from_json(json@)
    }
}

impl From<String> for JsonObject {
    /// A scalar holding the text.
    fn from(s: String) -> (r: JsonObject)
        ensures
            r@ == Json::Value(s@),
    {
        JsonObject::Value { value: s }
    }
}

impl vstd::std_specs::convert::FromSpecImpl<String> for JsonObject {
    open spec fn obeys_from_spec() -> bool {
        true
    }

    open spec fn from_spec(s: String) -> JsonObject {
        JsonObject::Value { value: s }
    }
}

impl<'a> From<&'a String> for JsonObject {
    /// A scalar holding a copy of the text.
    fn from(s: &'a String) -> (r: JsonObject)
        ensures
            r@ == Json::Value(s@),
    {
        JsonObject::Value { value: s.clone() }
    }
}

impl<'a> vstd::std_specs::convert::FromSpecImpl<&'a String> for JsonObject {
    open spec fn obeys_from_spec() -> bool {
        true
    }

    open spec fn from_spec(s: &'a String) -> JsonObject {
        JsonObject::Value { value: *s }
    }
}

impl TryFrom<JsonObject> for String {
    type Error = String;

    /// The scalar's text.
    fn try_from(json: JsonObject) -> (r: Result<String, String>)
        ensures
            text_result(r) == string_from_json(json@),
    {
        scalar_text(json, "$typ")
    }
}

impl vstd::std_specs::convert::TryFromSpecImpl<JsonObject> for String {
    open spec fn obeys_try_from_spec() -> bool {
        false
    }

    open spec fn try_from_spec(json: JsonObject) -> Result<Self, Self::Error> {
        choose|r: Result<String, String>| text_result(r) == string_from_json(json@)
    }
}

proof fn lemma_decimal_digit(n: nat)
    requires
        n < 10,
    ensures
        is_ascii_digit(hex_digit_lower(n)),
        ((hex_digit_lower(n) as u32) - 0x30) as nat == n,
{
}

/// The decimal text of a number is one or more digits that denote the number.
pub proof fn lemma_nat_text(n: nat)
    ensures
        nat_text(n).len() > 0,
        all_digits(nat_text(n)),
        digits_value(nat_text(n)) == n,
    decreases n,
{
    let t = nat_text(n);
    if n < 10 {
        lemma_decimal_digit(n);
        assert(t.drop_last() =~= Seq::<char>::empty());
        assert(t.last() == hex_digit_lower(n));
        assert(digits_value(Seq::<char>::empty()) == 0);
    } else {
        lemma_nat_text(n / 10);
        lemma_decimal_digit(n % 10);
        let p = nat_text(n / 10);
        assert(t.drop_last() =~= p);
        assert(t.last() == hex_digit_lower(n % 10));
        assert(digits_value(t) == digits_value(p) * 10 + (n % 10));
        assert((n / 10) * 10 + n % 10 == n);
        assert forall|i: int| 0 <= i < t.len() implies is_ascii_digit(#[trigger] t[i]) by {
            if i < p.len() {
                assert(t[i] == p[i]);
            }
        }
    }
}

/// Reading an integer back: the text that Rust writes for a number within a type's range
/// parses, for that type, to the number.
pub proof fn law_int_text_parses_back(n: int, lo: int, hi: int)
    requires
        lo <= n <= hi,
        lo <= 0,
    ensures
        int_value(int_text(n), lo, hi) == Some(n),
{
    let t = int_text(n);
    if n < 0 {
        lemma_nat_text((-n) as nat);
        assert(t[0] == '-');
        assert(t.drop_first() =~= nat_text((-n) as nat));
    } else {
        lemma_nat_text(n as nat);
        let d = nat_text(n as nat);
        assert(is_ascii_digit(d[0]));
    }
}

/// Converting an integer to a JSON value and back gives the integer.
pub proof fn law_int_json_round_trip(n: int, lo: int, hi: int, typ: Seq<char>)
    requires
        lo <= n <= hi,
        lo <= 0,
    ensures
        int_from_json(Json::Value(int_text(n)), lo, hi, typ) == Ok::<int, Seq<char>>(n),
{
    law_int_text_parses_back(n, lo, hi);
}

/// Converting a boolean to a JSON value and back gives the boolean.
pub proof fn law_bool_json_round_trip(b: bool)
    ensures
        bool_from_json(Json::Value(bool_text(b))) == Ok::<bool, Seq<char>>(b),
{
    if !b {
        reveal_strlit("true");
        reveal_strlit("false");
        assert("false"@ != "true"@) by {
            assert("false"@[0] != "true"@[0]);
        }
    }
}

/// Converting a character to a JSON value and back gives the character.
pub proof fn law_char_json_round_trip(c: char)
    ensures
        char_from_json(Json::Value(seq![c])) == Ok::<char, Seq<char>>(c),
{
}

/// Converting a string to a JSON value and back gives the string.
pub proof fn law_string_json_round_trip(s: Seq<char>)
    ensures
        string_from_json(Json::Value(s)) == Ok::<Seq<char>, Seq<char>>(s),
{
}

} // verus!

verus! {

/// The two writings of `x` agree: what `x` converts into by value and what a reference to
/// it converts into are the same JSON value, so `into_json(x)` and `to_json(&x)` give the
/// same text.
pub open spec fn serializations_agree<'a, T>(x: &'a T) -> bool where T: Into<JsonObject>, &'a T: Into<JsonObject> {
    forall|o1: JsonObject, o2: JsonObject|
        #![trigger call_ensures(<T as Into<JsonObject>>::into, (*x,), o1), call_ensures(<&'a T as Into<JsonObject>>::into, (x,), o2)]
        call_ensures(<T as Into<JsonObject>>::into, (*x,), o1) && call_ensures(<&'a T as Into<JsonObject>>::into, (x,), o2)
            ==> o1@ == o2@
}

/// Writing a value of the library's integer types, `bool`, `char` or `String` gives the
/// same text whether the value is converted itself or through a reference.
pub proof fn law_serializations_agree<'a>(
    a: &'a i8,
    b: &'a i16,
    c: &'a i32,
    d: &'a i64,
    e: &'a i128,
    f: &'a isize,
    g: &'a u8,
    h: &'a u16,
    i: &'a u32,
    j: &'a u64,
    k: &'a u128,
    l: &'a usize,
    m: &'a bool,
    n: &'a char,
    s: &'a String,
)
    ensures
        serializations_agree(a),
        serializations_agree(b),
        serializations_agree(c),
        serializations_agree(d),
        serializations_agree(e),
        serializations_agree(f),
        serializations_agree(g),
        serializations_agree(h),
        serializations_agree(i),
        serializations_agree(j),
        serializations_agree(k),
        serializations_agree(l),
        serializations_agree(m),
        serializations_agree(n),
        serializations_agree(s),
{
}

} // verus!

verus! {

/// The number that a text denotes does not depend on the type it is parsed for: the
/// type's bounds only decide whether it is accepted. So an accepted number lies within the
/// bounds, and a text that denotes a number outside them (such as `300` for `u8`) is
/// refused, never clamped.
pub proof fn law_int_value_bounds(s: Seq<char>, lo: int, hi: int, lo2: int, hi2: int)
    ensures
        int_value(s, lo, hi) matches Some(n) ==> lo <= n <= hi,
        (lo < 0) == (lo2 < 0) && int_value(s, lo2, hi2) is Some ==> int_value(s, lo, hi) == {
            let m = int_value(s, lo2, hi2)->Some_0;
            if lo <= m <= hi {
                Some(m)
            } else {
                None::<int>
            }
        },
{
}

} // verus!
