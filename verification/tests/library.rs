use rusty_json::{
    construct_object_or_array, deserialize_array, deserialize_field, deserialize_object, deserialize_string,
    find_chars, from_json, into_json, read_text, serialize_string, to_json, Failure, JsonError, JsonMap,
    JsonObject, Trimmable,
};

fn chars(s: &str) -> Vec<char> {
    s.chars().collect::<Vec<char>>()
}

fn value(s: &str) -> JsonObject {
    JsonObject::Value { value: s.to_string() }
}

fn object(fields: Vec<(&str, JsonObject)>) -> JsonObject {
    let mut map = JsonMap::new();
    for (k, v) in fields {
        map.insert(k.to_string(), v);
    }
    JsonObject::Object { fields: map }
}

fn array(items: Vec<JsonObject>) -> JsonObject {
    JsonObject::Array { array: items }
}

fn read_back(obj: &JsonObject) -> JsonObject {
    JsonObject::try_from(obj.to_json().as_str()).expect("the written text was refused")
}

// Reading back what was written.

#[test]
fn law_read_after_write_nested_value() {
    let obj = object(vec![
        ("name", value("a \"quoted\" \\ text\twith\u{1} controls")),
        ("numbers", array(vec![value("1"), value("-2.5e3"), value("inf"), value("340282366920938463463374607431768211455")])),
        ("empty", object(vec![])),
        ("nothing", JsonObject::Null),
        ("list", array(vec![array(vec![]), object(vec![("k", value("v,{}[]:"))]), value("null")])),
        ("{not a key}", value("true")),
    ]);
    assert_eq!(read_back(&obj), obj);
}

#[test]
fn law_read_after_write_scalars() {
    for obj in [JsonObject::Null, value(""), value("word"), value("two words"), value("null"), value("0"), value("it's")] {
        assert_eq!(read_back(&obj), obj);
    }
}

#[test]
fn read_after_write_fails_on_single_quotes_inside_an_array() {
    let obj = array(vec![value("it's"), value("b")]);
    assert_eq!(obj.to_json(), "[\"it's\",\"b\"]");
    assert_eq!(
        JsonObject::try_from(obj.to_json().as_str()),
        Err("Given string contains unescaped quotation marks !")
    );
}

#[test]
fn read_after_write_fails_on_a_c1_control_character() {
    let obj = value("\u{85}");
    assert_eq!(
        JsonObject::try_from(obj.to_json().as_str()),
        Err("Control characters in strings must be represented as `\\uXXXX` where X is a hex number !")
    );
}

#[test]
fn law_string_read_after_write() {
    for s in ["", "plain", "it's", "back\\slash \"quote\"", "\u{0}\u{1f}\u{7f}", "żółw ∑"] {
        let written = serialize_string(s);
        assert_eq!(deserialize_string(&chars(&written)), Ok(value(s)));
    }
}

// The writer.

#[test]
fn writer_escapes_control_characters_in_lower_case_hex() {
    assert_eq!(serialize_string("\u{1b}\u{7f}\n"), "\"\\u001b\\u007f\\u000a\"");
}

#[test]
fn writer_keeps_numbers_bare_and_quotes_other_words() {
    assert_eq!(value("-12").to_json(), "-12");
    assert_eq!(value("+1.5E-3").to_json(), "+1.5E-3");
    assert_eq!(value("NaN").to_json(), "NaN");
    assert_eq!(value("-Infinity").to_json(), "-Infinity");
    assert_eq!(value(".5").to_json(), ".5");
    assert_eq!(value("5.").to_json(), "5.");
    assert_eq!(value("true").to_json(), "\"true\"");
    assert_eq!(value("1e").to_json(), "\"1e\"");
    assert_eq!(value(".").to_json(), "\".\"");
    assert_eq!(value("0x10").to_json(), "\"0x10\"");
}

#[test]
fn writer_orders_fields_by_name() {
    let obj = object(vec![("b", value("2")), ("a", value("1")), ("B", value("3"))]);
    assert_eq!(obj.to_json(), "{\"B\":3,\"a\":1,\"b\":2}");
}

#[test]
fn construct_joins_parts() {
    assert_eq!(construct_object_or_array(vec!["a".to_string()], '[', ',', ']'), "[a]");
    assert_eq!(
        construct_object_or_array(vec!["a".to_string(), "b".to_string(), "c".to_string()], '<', ';', '>'),
        "<a;b;c>"
    );
}

#[test]
fn into_json_and_to_json_write_the_converted_value() {
    assert_eq!(into_json(7u8), "7");
    assert_eq!(to_json(&-300i16), "-300");
    assert_eq!(into_json(String::from("text")), "\"text\"");
    assert_eq!(to_json(&true), "\"true\"");
    assert_eq!(into_json('x'), "\"x\"");
}

// The reader.

#[test]
fn reader_error_messages() {
    assert_eq!(JsonObject::try_from("[1,2"), Err("Given string is not valid json !"));
    assert_eq!(JsonObject::try_from("'"), Err("Given string is not valid json !"));
    assert_eq!(deserialize_string(&chars("  ")), Err("An empty string cannot be deserialized !"));
    assert_eq!(
        deserialize_string(&chars("\"abc'")),
        Err("A string must start and end with the same quotation mark (either single or double quotes) !")
    );
    assert_eq!(
        deserialize_string(&chars("\"a\u{7}b\"")),
        Err("Control characters in strings must be represented as `\\uXXXX` where X is a hex number !")
    );
    assert_eq!(
        deserialize_string(&chars("\"\\ud800\"")),
        Err("Given string contains an escape with value out of range for utf-8 encoding !")
    );
    assert_eq!(
        deserialize_string(&chars("\"\\uzz\"")),
        Err("Given string contains an escape with codepoint unparsable as a hex number !")
    );
    assert_eq!(deserialize_string(&chars("\"\\q\"")), Err("Given string contains an invalid escape !"));
    assert_eq!(deserialize_string(&chars("\"a\"b\"")), Err("Given string contains unescaped quotation marks !"));
    assert_eq!(deserialize_string(&chars("two words")), Err("Unquoted string may only be one word !"));
    assert_eq!(
        deserialize_field(&chars("[1]:2")),
        Err("JsonObject::decode_string(…) returned unexpected JsonObject type !")
    );
}

#[test]
fn reader_resolves_unicode_escapes() {
    assert_eq!(deserialize_string(&chars("\"\\u0041\\u00e9\\u20AC\"")), Ok(value("Aé€")));
    assert_eq!(deserialize_string(&chars("\"\\u+041x\"")), Ok(value("Ax")));
    assert_eq!(deserialize_string(&chars("\"\\u41\"")), Ok(value("A")));
    assert_eq!(deserialize_string(&chars("'\\/\\'\\\\'")), Ok(value("/'\\")));
    assert_eq!(deserialize_string(&chars("\"\\n\"")), Err("Given string contains an invalid escape !"));
}

#[test]
fn reader_keeps_the_last_of_repeated_fields() {
    let obj = deserialize_object(&chars("{\"k\":1,\"j\":2,\"k\":3}")).unwrap();
    assert_eq!(obj, object(vec![("j", value("2")), ("k", value("3"))]));
}

#[test]
fn reader_accepts_trailing_commas_and_white_space() {
    assert_eq!(
        deserialize_array(&chars(" [ 1 , [] , {} , ] ")),
        Ok(array(vec![value("1"), array(vec![]), object(vec![])]))
    );
    assert_eq!(deserialize_array(&chars("[  ]")), Ok(array(vec![])));
    assert_eq!(deserialize_array(&chars("[ ]")), Err("Unquoted string may only be one word !"));
    assert_eq!(JsonObject::try_from(" \n\t "), Ok(JsonObject::Null));
}

#[test]
fn reader_names_a_null_key_null() {
    assert_eq!(deserialize_field(&chars("null : x")), Ok(("null".to_string(), value("x"))));
}

#[test]
fn reader_reports_an_undefined_read() {
    assert_eq!(read_text("[ ,1]"), Err(Failure::Undefined));
    assert_eq!(read_text("{\"a\":}"), Err(Failure::Refused(JsonError::EmptyString)));
    assert_eq!(read_text("\"").map(|_| ()), Err(Failure::Refused(JsonError::NotValidJson)));
}

#[test]
fn error_messages_match_their_variants() {
    assert_eq!(JsonError::NotValidJson.message(), "Given string is not valid json !");
    assert_eq!(JsonError::UnexpectedKind.message(), "JsonObject::decode_string(…) returned unexpected JsonObject type !");
}

// The separator search and the trim.

#[test]
fn law_find_chars_positions() {
    let s = chars("a,\"b,c\",[d,e],{f:g,h},'i,j',k");
    assert_eq!(find_chars(&s, ',', false), Ok(vec![1, 7, 13, 21, 27]));
    assert_eq!(find_chars(&s, ',', true), Ok(vec![1]));
    assert_eq!(find_chars(&chars("a:b:c"), ':', true), Ok(vec![1]));
    assert_eq!(find_chars(&chars("abc"), ',', false), Ok(vec![]));
}

#[test]
fn find_chars_refuses_an_unmatched_closing_bracket() {
    assert_eq!(find_chars(&chars("a],b"), ',', false), Err("Given string is not valid json !"));
    assert_eq!(find_chars(&chars("a,b}"), ',', true), Ok(vec![1]));
    assert_eq!(find_chars(&chars("a,b}"), ',', false), Err("Given string is not valid json !"));
}

#[test]
fn law_slice_trim() {
    let s = chars("  a b \n");
    assert_eq!((&s[..]).trim(), &chars("a b")[..]);
    let one = chars(" ");
    assert_eq!((&one[..]).trim(), &chars(" ")[..]);
    let two = chars("\t ");
    assert_eq!((&two[..]).trim(), &chars("")[..]);
    let empty: Vec<char> = Vec::new();
    assert_eq!((&empty[..]).trim(), &empty[..]);
}

// Maps.

#[test]
fn law_map_insert() {
    let mut m = JsonMap::new();
    assert!(m.is_empty());
    assert_eq!(m.insert("b".to_string(), value("1")), None);
    assert_eq!(m.insert("a".to_string(), value("2")), None);
    assert_eq!(m.len(), 2);
    assert_eq!(m.insert("b".to_string(), value("3")), Some(value("1")));
    assert_eq!(m.len(), 2);
    assert_eq!(m.get("b"), Some(&value("3")));
    assert_eq!(m.get("a"), Some(&value("2")));
    assert_eq!(m.get("c"), None);
}

// Conversions of primitive values.

#[test]
fn law_int_round_trip_bounds() {
    assert_eq!(from_json::<i8>(&to_json(&i8::MIN)), Ok(i8::MIN));
    assert_eq!(from_json::<i8>(&to_json(&i8::MAX)), Ok(i8::MAX));
    assert_eq!(from_json::<i16>(&to_json(&i16::MIN)), Ok(i16::MIN));
    assert_eq!(from_json::<i32>(&to_json(&i32::MIN)), Ok(i32::MIN));
    assert_eq!(from_json::<i64>(&to_json(&i64::MIN)), Ok(i64::MIN));
    assert_eq!(from_json::<i128>(&to_json(&i128::MIN)), Ok(i128::MIN));
    assert_eq!(from_json::<i128>(&to_json(&i128::MAX)), Ok(i128::MAX));
    assert_eq!(from_json::<isize>(&to_json(&isize::MIN)), Ok(isize::MIN));
    assert_eq!(from_json::<u8>(&to_json(&u8::MAX)), Ok(u8::MAX));
    assert_eq!(from_json::<u16>(&to_json(&u16::MAX)), Ok(u16::MAX));
    assert_eq!(from_json::<u32>(&to_json(&u32::MAX)), Ok(u32::MAX));
    assert_eq!(from_json::<u64>(&to_json(&u64::MAX)), Ok(u64::MAX));
    assert_eq!(from_json::<u128>(&to_json(&u128::MAX)), Ok(u128::MAX));
    assert_eq!(from_json::<usize>(&to_json(&usize::MAX)), Ok(usize::MAX));
    assert_eq!(from_json::<u32>(&to_json(&0u32)), Ok(0));
}

#[test]
fn integers_are_written_in_decimal() {
    assert_eq!(JsonObject::from(-128i8), value("-128"));
    assert_eq!(JsonObject::from(&1234567890u64), value("1234567890"));
    assert_eq!(JsonObject::from(0i32), value("0"));
    assert_eq!(JsonObject::from(u128::MAX), value("340282366920938463463374607431768211455"));
}

#[test]
fn integers_parse_by_rust_rules() {
    assert_eq!(i8::try_from(value("+127")), Ok(127));
    assert_eq!(i8::try_from(value("-0")), Ok(0));
    assert_eq!(u8::try_from(value("007")), Ok(7));
    assert_eq!(i8::try_from(value("128")), Err("Cannot parse `128` into i8 !".to_string()));
    assert_eq!(u8::try_from(value("-1")), Err("Cannot parse `-1` into u8 !".to_string()));
    assert_eq!(u16::try_from(value("-0")), Err("Cannot parse `-0` into u16 !".to_string()));
    assert_eq!(i32::try_from(value("+")), Err("Cannot parse `+` into i32 !".to_string()));
    assert_eq!(i32::try_from(value(" 1")), Err("Cannot parse ` 1` into i32 !".to_string()));
    assert_eq!(u64::try_from(value("")), Err("Cannot parse `` into u64 !".to_string()));
    assert_eq!(
        u128::try_from(value("340282366920938463463374607431768211456")),
        Err("Cannot parse `340282366920938463463374607431768211456` into u128 !".to_string())
    );
    assert_eq!(i64::try_from(JsonObject::Null), Err("Cannot deserialize i64 from `JsonObject::Null`".to_string()));
    assert_eq!(
        usize::try_from(array(vec![])),
        Err("Cannot deserialize usize from `JsonObject::Array`".to_string())
    );
}

#[test]
fn booleans_characters_and_strings() {
    assert_eq!(JsonObject::from(false), value("false"));
    assert_eq!(bool::try_from(value("true")), Ok(true));
    assert_eq!(bool::try_from(value("True")), Err("Cannot parse `True` into bool !".to_string()));
    assert_eq!(JsonObject::from(&'ł'), value("ł"));
    assert_eq!(char::try_from(value("ł")), Ok('ł'));
    assert_eq!(char::try_from(value("ab")), Err("Cannot parse `ab` into char !".to_string()));
    assert_eq!(
        char::try_from(object(vec![])),
        Err("Cannot deserialize char from `JsonObject::Object`".to_string())
    );
    assert_eq!(JsonObject::from(&"s".to_string()), value("s"));
    assert_eq!(String::try_from(value("s")), Ok("s".to_string()));
    assert_eq!(String::try_from(JsonObject::Null), Err("Cannot deserialize $typ from `JsonObject::Null`".to_string()));
}

#[test]
fn law_primitive_text_round_trips() {
    assert_eq!(from_json::<bool>(&to_json(&false)), Ok(false));
    assert_eq!(from_json::<char>(&to_json(&'"')), Ok('"'));
    assert_eq!(from_json::<char>(&to_json(&'\u{1}')), Ok('\u{1}'));
    assert_eq!(from_json::<String>(&into_json("a 'b' \"c\"".to_string())), Ok("a 'b' \"c\"".to_string()));
}

#[test]
fn from_json_wraps_a_conversion_refusal() {
    assert_eq!(
        from_json::<i32>("[1]"),
        Err("T::try_from(…) failed with message `Cannot deserialize i32 from `JsonObject::Array``".to_string())
    );
    assert_eq!(from_json::<i32>("{"), Err("Given string is not valid json !".to_string()));
}

#[test]
fn variant_names() {
    assert_eq!(JsonObject::Null.variant_name(), "JsonObject::Null");
    assert_eq!(value("x").variant_name(), "JsonObject::Value");
    assert_eq!(array(vec![]).variant_name(), "JsonObject::Array");
    assert_eq!(object(vec![]).variant_name(), "JsonObject::Object");
}

// The shapes and plans of derived conversions.

use rusty_json::deriving::{field_layers, read_plan, write_plan, Layer, Parent, ReadPlan, TypeShape, UnsupportedKind, WritePlan};

fn path(t: &str) -> TypeShape {
    TypeShape::Path { text: t.to_string() }
}

fn item(t: &str) -> Layer {
    Layer::Item { text: t.to_string() }
}

#[test]
fn field_layers_follow_the_type() {
    let ty = TypeShape::Tuple {
        elems: vec![path("u8"), TypeShape::Array { elem: Box::new(path("char")) }],
    };
    assert_eq!(
        field_layers(&ty),
        Ok(Layer::Tuple { items: vec![item("u8"), Layer::Array { elem: Box::new(item("char")) }] })
    );
    assert_eq!(field_layers(&path("String")), Ok(item("String")));
}

#[test]
fn field_layers_report_the_shallowest_refused_type() {
    let ty = TypeShape::Tuple {
        elems: vec![
            TypeShape::Tuple { elems: vec![TypeShape::Unsupported { kind: UnsupportedKind::BareFn }] },
            TypeShape::Unsupported { kind: UnsupportedKind::Reference },
        ],
    };
    assert_eq!(field_layers(&ty), Err(UnsupportedKind::Reference));
    let ty = TypeShape::Array { elem: Box::new(TypeShape::Unsupported { kind: UnsupportedKind::Slice }) };
    assert_eq!(field_layers(&ty), Err(UnsupportedKind::Slice));
}

#[test]
fn read_plan_of_a_tuple_field() {
    let layer = Layer::Tuple { items: vec![item("u8"), Layer::Array { elem: Box::new(item("char")) }] };
    let expected = ReadPlan::TupleOf {
        items: vec![
            ReadPlan::InField {
                name: "t".to_string(),
                missing: "Cannot deserialize `t` to a tuple !".to_string(),
                inner: Box::new(ReadPlan::IndexValue {
                    index: 0,
                    ty: "u8".to_string(),
                    failed: "Failed to parse `t` with error `".to_string(),
                }),
            },
            ReadPlan::InField {
                name: "t".to_string(),
                missing: "Value `t` was not found !".to_string(),
                inner: Box::new(ReadPlan::AtIndex {
                    index: 1,
                    not_array: "An array was expected to deserialize an array within a tuple !".to_string(),
                    inner: Box::new(ReadPlan::Collect { inner: Box::new(ReadPlan::Unwrap) }),
                }),
            },
        ],
    };
    assert_eq!(read_plan("t", 0, &layer, Parent::Field), expected);
}

#[test]
fn read_plan_of_plain_and_array_fields() {
    assert_eq!(
        read_plan("n", 0, &item("usize"), Parent::Field),
        ReadPlan::FieldValue {
            name: "n".to_string(),
            missing: "Value `n` was not found !".to_string(),
            failed: "Failed to parse `n` with error `".to_string(),
        }
    );
    let layer = Layer::Array { elem: Box::new(Layer::Array { elem: Box::new(item("u8")) }) };
    assert_eq!(
        read_plan("a", 0, &layer, Parent::Field),
        ReadPlan::FieldElements {
            name: "a".to_string(),
            missing: "Field `a` was not found !".to_string(),
            not_array: "Field `a` was expected to be an array while it was `".to_string(),
            inner: Box::new(ReadPlan::Collect {
                inner: Box::new(ReadPlan::Whole {
                    not_array: "An array was expected to deserialize to an array !".to_string(),
                    inner: Box::new(ReadPlan::Collect { inner: Box::new(ReadPlan::Unwrap) }),
                }),
            }),
        }
    );
}

#[test]
fn write_plan_of_nested_fields() {
    let layer = Layer::Tuple { items: vec![item("u8"), Layer::Array { elem: Box::new(item("char")) }] };
    assert_eq!(
        write_plan(&Some("t".to_string()), &Vec::new(), &layer, true),
        WritePlan::TupleOf {
            items: vec![
                WritePlan::Convert { field: Some("t".to_string()), path: vec![0], clone: true },
                WritePlan::Elements {
                    field: Some("t".to_string()),
                    path: vec![1],
                    inner: Box::new(WritePlan::Convert { field: None, path: vec![], clone: false }),
                },
            ],
        }
    );
    let layer = Layer::Array { elem: Box::new(Layer::Tuple { items: vec![item("bool")] }) };
    assert_eq!(
        write_plan(&Some("a".to_string()), &Vec::new(), &layer, false),
        WritePlan::Elements {
            field: Some("a".to_string()),
            path: vec![],
            inner: Box::new(WritePlan::TupleOf {
                items: vec![WritePlan::Convert { field: None, path: vec![0], clone: false }],
            }),
        }
    );
}

#[test]
fn law_object_read_after_write_on_a_map_built_out_of_order() {
    let obj = object(vec![("z", value("1")), ("a", array(vec![object(vec![("y", JsonObject::Null), ("b", value("x"))])]))]);
    assert_eq!(obj.to_json(), "{\"a\":[{\"b\":\"x\",\"y\":null}],\"z\":1}");
    assert_eq!(read_back(&obj), obj);
}

#[test]
fn field_names_that_only_start_like_an_array_are_words() {
    assert_eq!(deserialize_field(&chars("[1]x:2")), Ok(("[1]x".to_string(), value("2"))));
    assert_eq!(deserialize_field(&chars("{a}b : c")), Ok(("{a}b".to_string(), value("c"))));
    assert_eq!(
        deserialize_field(&chars("{\"a\":1}:2")),
        Err("JsonObject::decode_string(…) returned unexpected JsonObject type !")
    );
}

#[test]
fn law_serializations_agree() {
    assert_eq!(to_json(&-5i64), into_json(-5i64));
    assert_eq!(to_json(&'q'), into_json('q'));
    assert_eq!(to_json(&"a\"b".to_string()), into_json("a\"b".to_string()));
    assert_eq!(to_json(&true), into_json(true));
}
