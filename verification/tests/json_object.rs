use rusty_json::{deserialize_array, deserialize_field, deserialize_object, deserialize_string, serialize_string, JsonMap, JsonObject, Trimmable};

fn chars(s: &str) -> Vec<char> {
    s.chars().collect::<Vec<char>>()
}

#[test]
fn test_deserialize_string_unquoted_empty()
{
    match deserialize_string(&Vec::new())
    {
        Err(_) => (),
        _ => panic!("deserialize_string returned Ok!"),
    }
}

#[test]
fn test_deserialize_string_double_quoted_empty()
{
    match deserialize_string(&chars(r#""""#))
    {
        Ok(obj) =>
        {
            if let JsonObject::Value { value } = obj
            {
                if value.len() == 0 { return }
                else { panic!("deserialize_string returned JsonObject::Value with length > 0!") }
            }
        },
        Err(reason) => panic!("{}", reason),
    }
}

#[test]
fn test_deserialize_string_single_quoted_empty()
{
    match deserialize_string(&chars(r#"''"#))
    {
        Ok(obj) =>
        {
            if let JsonObject::Value { value } = obj
            {
                if value.len() == 0 { return }
                else { panic!("deserialize_string returned JsonObject::Value with length > 0!") }
            }
        },
        Err(reason) => panic!("{}", reason),
    }
}

#[test]
fn test_deserialize_string_invalid_ends_with_double_quote()
{
    match deserialize_string(&chars(r#"something""#))
    {
        Ok(_) => panic!("deserialize_string returned Ok!"),
        Err(_) => return,
    }
}

#[test]
fn test_deserialize_string_invalid_ends_with_single_quote()
{
    match deserialize_string(&chars(r#"something'"#))
    {
        Ok(_) => panic!("deserialize_string returned Ok!"),
        Err(_) => return,
    }
}

#[test]
fn test_deserialize_string_invalid_starts_with_double_quote()
{
    match deserialize_string(&chars(r#""something"#))
    {
        Ok(_) => panic!("deserialize_string returned Ok!"),
        Err(_) => return,
    }
}

#[test]
fn test_deserialize_string_invalid_starts_with_single_quote()
{
    match deserialize_string(&chars(r#"'something"#))
    {
        Ok(_) => panic!("deserialize_string returned Ok!"),
        Err(_) => return,
    }
}

#[test]
fn test_deserialize_string_invalid_starts_with_double_quote_ends_with_single_quote()
{
    match deserialize_string(&chars(r#""something'"#))
    {
        Ok(_) => panic!("deserialize_string returned Ok!"),
        Err(_) => return,
    }
}

#[test]
fn test_deserialize_string_invalid_starts_with_single_quote_ends_with_double_quote()
{
    match deserialize_string(&chars(r#"'something""#))
    {
        Ok(_) => panic!("deserialize_string returned Ok!"),
        Err(_) => return,
    }
}

#[test]
fn test_deserialize_string_double_quoted_invalid_with_leading_word()
{
    match deserialize_string(&chars(r#"hello"world""#))
    {
        Ok(_) => panic!("deserialize_string returned Ok!"),
        Err(_) => return,
    }
}

#[test]
fn test_deserialize_string_single_quoted_invalid_with_leading_word()
{
    match deserialize_string(&chars(r#"hello'world'"#))
    {
        Ok(_) => panic!("deserialize_string returned Ok!"),
        Err(_) => return,
    }
}

#[test]
fn test_deserialize_string_double_quoted_invalid_with_trailing_word()
{
    match deserialize_string(&chars(r#""hello"world"#))
    {
        Ok(_) => panic!("deserialize_string returned Ok!"),
        Err(_) => return,
    }
}

#[test]
fn test_deserialize_string_single_quoted_invalid_with_trailing_word()
{
    match deserialize_string(&chars(r#"'hello'world"#))
    {
        Ok(_) => panic!("deserialize_string returned Ok!"),
        Err(_) => return,
    }
}

#[test]
fn test_deserialize_string_double_quoted_invalid_containing_unescaped_double_quote()
{
    match deserialize_string(&chars(r#""some"thing""#))
    {
        Ok(_) => panic!("deserialize_string returned Ok!"),
        Err(_) => return,
    }
}

#[test]
fn test_deserialize_string_double_quoted_containing_unescaped_single_quote()
{
    match deserialize_string(&chars(r#""some'thing""#))
    {
        Ok(_) => return,
        Err(reason) => panic!("{}", reason),
    }
}

#[test]
fn test_deserialize_string_single_quoted_containing_unescaped_double_quote()
{
    match deserialize_string(&chars(r#"'some"thing'"#))
    {
        Ok(_) => return,
        Err(reason) => panic!("{}", reason),
    }
}

#[test]
fn test_deserialize_string_single_quoted_invalid_containing_unescaped_single_quote()
{
    match deserialize_string(&chars(r#"'some'thing'"#))
    {
        Ok(_) => panic!("deserialize_string returned Ok!"),
        Err(_) => return,
    }
}

#[test]
fn test_deserialize_string_double_quoted_containing_bracket_opening()
{
    match deserialize_string(&chars(r#""hello[world!""#))
    {
        Ok(_) => return,
        Err(reason) => panic!("{}", reason),
    }
}

#[test]
fn test_deserialize_string_double_quoted_containing_bracket_closing()
{
    match deserialize_string(&chars(r#""hello]world!""#))
    {
        Ok(_) => return,
        Err(reason) => panic!("{}", reason),
    }
}

#[test]
fn test_deserialize_string_double_quoted_containing_brace_opening()
{
    match deserialize_string(&chars(r#""hello{world!""#))
    {
        Ok(_) => return,
        Err(reason) => panic!("{}", reason),
    }
}

#[test]
fn test_deserialize_string_double_quoted_containing_brace_closing()
{
    match deserialize_string(&chars(r#""hello}world!""#))
    {
        Ok(_) => return,
        Err(reason) => panic!("{}", reason),
    }
}

#[test]
fn test_deserialize_string_unquoted_multiple_words()
{
    match deserialize_string(&chars("test test"))
    {
        Ok(_) => panic!("deserialize_string returned Ok!"),
        Err(_) => return,
    }
}

#[test]
fn test_deserialize_string_double_quoted_multiple_words()
{
    match deserialize_string(&chars(r#""hello world!""#))
    {
        Ok(obj) =>
        {
            if let JsonObject::Value { value } = obj
            {
                if value == "hello world!" { return }
                else { panic!("deserialize_string returned `{}` instead of `hello world!`!", value) }
            }
            else { panic!("deserialize_string returned an incorrect JsonObject type!") }
        },
        Err(reason) => panic!("{}", reason),
    }
}

#[test]
fn test_deserialize_string_single_quoted_multiple_words()
{
    match deserialize_string(&chars(r#"'hello world!'"#))
    {
        Ok(obj) =>
        {
            if let JsonObject::Value { value } = obj
            {
                if value == "hello world!" { return }
                else { panic!("deserialize_string returned `{}` instead of `hello world!`!", value) }
            }
            else { panic!("deserialize_string returned an incorrect JsonObject type!") }
        },
        Err(reason) => panic!("{}", reason),
    }
}

#[test]
fn test_deserialize_string_unquoted_null()
{
    match deserialize_string(&chars("null"))
    {
        Ok(obj) =>
        {
            if let JsonObject::Null = obj { return }
            else { panic!("deserialize_string returned an incorrect JsonObject type!") }
        },
        Err(reason) => panic!("{}", reason),
    }
}

#[test]
fn test_deserialize_string_double_quoted_null()
{
    match deserialize_string(&chars(r#""null""#))
    {
        Ok(obj) =>
        {
            if let JsonObject::Value { value } = obj
            {
                if value == "null" { return }
                else { panic!("deserialize_string returned `{}` instead of `null`!", value) }
            }
            else { panic!("deserialize_string returned an incorrect JsonObject type!") }
        },
        Err(reason) => panic!("{}", reason),
    }
}

#[test]
fn test_deserialize_string_single_quoted_null()
{
    match deserialize_string(&chars(r#"'null'"#))
    {
        Ok(obj) =>
        {
            if let JsonObject::Value { value } = obj
            {
                if value == "null" { return }
                else { panic!("deserialize_string returned `{}` instead of `null`!", value) }
            }
            else { panic!("deserialize_string returned an incorrect JsonObject type!") }
        },
        Err(reason) => panic!("{}", reason),
    }
}

#[test]
fn test_deserialize_string_unquoted_one_word()
{
    match deserialize_string(&chars("something"))
    {
        Ok(obj) =>
        {
            if let JsonObject::Value { value } = obj
            {
                if value == "something" { return }
                else { panic!("deserialize_string returned `{}` instead of `something`!", value) }
            }
            else { panic!("deserialize_string returned an incorrect JsonObject type!") }
        },
        Err(reason) => panic!("{}", reason),
    }
}

#[test]
fn test_deserialize_string_double_quoted_one_word()
{
    match deserialize_string(&chars(r#""something""#))
    {
        Ok(obj) =>
        {
            if let JsonObject::Value { value } = obj
            {
                if value == "something" { return }
                else { panic!("deserialize_string returned `{}` instead of `something`!", value) }
            }
            else { panic!("deserialize_string returned an incorrect JsonObject type!") }
        },
        Err(reason) => panic!("{}", reason),
    }
}

#[test]
fn test_deserialize_string_single_quoted_one_word()
{
    match deserialize_string(&chars(r#"'something'"#))
    {
        Ok(obj) =>
        {
            if let JsonObject::Value { value } = obj
            {
                if value == "something" { return }
                else { panic!("deserialize_string returned `{}` instead of `something`!", value) }
            }
            else { panic!("deserialize_string returned an incorrect JsonObject type!") }
        },
        Err(reason) => panic!("{}", reason),
    }
}

#[test]
fn test_deserialize_string_double_quoted_containing_escaped_symbols()
{
    match deserialize_string(&chars(r#""\u0009\u000a\u000d\"\\""#))
    {
        Ok(json) =>
        {
            if let JsonObject::Value { value } = json
            {
                if value == "\t\n\r\"\\" { return }
                else { panic!("deserialize_string returned `{}`[{}] while `\\t\\n\\r\\\"\\`[5] (escaped) was expected!", value, value.len()) }
            }
            else { panic!("deserialize_string returned JsonObject of an unexpected variant!") }
        },
        Err(reason) => panic!("{}", reason),
    }
}

#[test]
fn test_deserialize_field_empty_string()
{
    match deserialize_field(&Vec::new())
    {
        Ok(_) => panic!("deserialize_field returned Ok!"),
        Err(_) => return,
    }
}

#[test]
fn test_deserialize_field_only_colon()
{
    match deserialize_field(&chars(":"))
    {
        Ok(_) => panic!("deserialize_field returned Ok!"),
        Err(_) => return,
    }
}

#[test]
fn test_deserialize_field_key_double_quoted_missing_value()
{
    match deserialize_field(&chars(r#""key":"#))
    {
        Ok(_) => panic!("deserialize_field returned Ok!"),
        Err(_) => return,
    }
}

#[test]
fn test_deserialize_field_key_missing_value_double_quoted()
{
    match deserialize_field(&chars(r#":"value""#))
    {
        Ok(_) => panic!("deserialize_field returned Ok!"),
        Err(_) => return,
    }
}

#[test]
fn test_deserialize_field_key_null_value_unquoted()
{
    match deserialize_field(&chars("null:b"))
    {
        Ok((key, json)) =>
        {
            if let JsonObject::Value { value } = json
            {
                if key == "null" && value == "b" { return }
                else { panic!("deserialize_field returned `{}:{}` instead of `null:b`!", key, value) }
            }
            else { panic!("deserialize_field returned field of unexpected type!") }
        },
        Err(reason) => panic!("{}", reason),
    }
}

#[test]
fn test_deserialize_field_key_unquoted_value_unquoted()
{
    match deserialize_field(&chars("a:b"))
    {
        Ok((key, json)) =>
        {
            if let JsonObject::Value { value } = json
            {
                if key == "a" && value == "b" { return }
                else { panic!("deserialize_field returned `{}:{}` instead of `a:b`!", key, value) }
            }
            else { panic!("deserialize_field returned field of unexpected type!") }
        },
        Err(reason) => panic!("{}", reason),
    }
}

#[test]
fn test_deserialize_field_key_double_quoted_value_unquoted()
{
    match deserialize_field(&chars(r#""a":b"#))
    {
        Ok((key, json)) =>
        {
            if let JsonObject::Value { value } = json
            {
                if key == "a" && value == "b" { return }
                else { panic!("deserialize_field returned `{}:{}` instead of `a:b`!", key, value) }
            }
            else { panic!("deserialize_field returned field of unexpected type!") }
        },
        Err(reason) => panic!("{}", reason),
    }
}

#[test]
fn test_deserialize_field_key_single_quoted_value_unquoted()
{
    match deserialize_field(&chars(r#"'a':b"#))
    {
        Ok((key, json)) =>
        {
            if let JsonObject::Value { value } = json
            {
                if key == "a" && value == "b" { return }
                else { panic!("deserialize_field returned `{}:{}` instead of `a:b`!", key, value) }
            }
            else { panic!("deserialize_field returned field of unexpected type!") }
        },
        Err(reason) => panic!("{}", reason),
    }
}

#[test]
fn test_deserialize_field_key_unquoted_value_double_quoted()
{
    match deserialize_field(&chars(r#"a:"b""#))
    {
        Ok((key, json)) =>
        {
            if let JsonObject::Value { value } = json
            {
                if key == "a" && value == "b" { return }
                else { panic!("deserialize_field returned `{}:{}` instead of `a:b`!", key, value) }
            }
            else { panic!("deserialize_field returned field of unexpected type!") }
        },
        Err(reason) => panic!("{}", reason),
    }
}

#[test]
fn test_deserialize_field_key_double_quoted_value_double_quoted()
{
    match deserialize_field(&chars(r#""a":"b""#))
    {
        Ok((key, json)) =>
        {
            if let JsonObject::Value { value } = json
            {
                if key == "a" && value == "b" { return }
                else { panic!("deserialize_field returned `{}:{}` instead of `a:b`!", key, value) }
            }
            else { panic!("deserialize_field returned field of unexpected type!") }
        },
        Err(reason) => panic!("{}", reason),
    }
}

#[test]
fn test_deserialize_field_key_single_quoted_value_double_quoted()
{
    match deserialize_field(&chars(r#"'a':"b""#))
    {
        Ok((key, json)) =>
        {
            if let JsonObject::Value { value } = json
            {
                if key == "a" && value == "b" { return }
                else { panic!("deserialize_field returned `{}:{}` instead of `a:b`!", key, value) }
            }
            else { panic!("deserialize_field returned field of unexpected type!") }
        },
        Err(reason) => panic!("{}", reason),
    }
}

#[test]
fn test_deserialize_field_key_unquoted_value_single_quoted()
{
    match deserialize_field(&chars(r#"a:'b'"#))
    {
        Ok((key, json)) =>
        {
            if let JsonObject::Value { value } = json
            {
                if key == "a" && value == "b" { return }
                else { panic!("deserialize_field returned `{}:{}` instead of `a:b`!", key, value) }
            }
            else { panic!("deserialize_field returned field of unexpected type!") }
        },
        Err(reason) => panic!("{}", reason),
    }
}

#[test]
fn test_deserialize_field_key_double_quoted_value_single_quoted()
{
    match deserialize_field(&chars(r#""a":'b'"#))
    {
        Ok((key, json)) =>
        {
            if let JsonObject::Value { value } = json
            {
                if key == "a" && value == "b" { return }
                else { panic!("deserialize_field returned `{}:{}` instead of `a:b`!", key, value) }
            }
            else { panic!("deserialize_field returned field of unexpected type!") }
        },
        Err(reason) => panic!("{}", reason),
    }
}

#[test]
fn test_deserialize_field_key_single_quoted_value_single_quoted()
{
    match deserialize_field(&chars(r#"'a':'b'"#))
    {
        Ok((key, json)) =>
        {
            if let JsonObject::Value { value } = json
            {
                if key == "a" && value == "b" { return }
                else { panic!("deserialize_field returned `{}:{}` instead of `a:b`!", key, value) }
            }
            else { panic!("deserialize_field returned field of unexpected type!") }
        },
        Err(reason) => panic!("{}", reason),
    }
}

#[test]
fn test_deserialize_field_key_object_value_double_quoted()
{
    match deserialize_field(&chars("{key:null}:null"))
    {
        Ok(_) => panic!("deserialize_field returned Ok!"),
        Err(_) => return,
    }
}

#[test]
fn test_deserialize_field_key_array_value_double_quoted()
{
    match deserialize_field(&chars(r#"[1,2]:"null""#))
    {
        Ok(_) => panic!("deserialize_field returned Ok!"),
        Err(_) => return,
    }
}

#[test]
fn test_deserialize_field_key_double_quoted_value_array()
{
    match deserialize_field(&chars(r#""key":[1,2,3]"#))
    {
        Ok(_) => return,
        Err(reason) => panic!("{}", reason),
    }
}

#[test]
fn test_deserialize_field_key_double_quoted_value_object()
{
    match deserialize_field(&chars(r#""key":{"inner-key":"value"}"#))
    {
        Ok(_) => return,
        Err(reason) => panic!("{}", reason),
    }
}

#[test]
fn test_deserialize_array_empty_string()
{
    match deserialize_array(&Vec::new())
    {
        Ok(_) => panic!("deserialize_array returned Ok!"),
        Err(_) => return,
    }
}

#[test]
fn test_deserialize_array_invalid_leading_character()
{
    match deserialize_array(&chars("f[1,2,3]"))
    {
        Ok(_) => panic!("deserialize_array returned Ok!"),
        Err(_) => return,
    }
}

#[test]
fn test_deserialize_array_invalid_trailing_character()
{
    match deserialize_array(&chars("[1,2,3]f"))
    {
        Ok(_) => panic!("deserialize_array returned Ok!"),
        Err(_) => return,
    }
}

#[test]
fn test_deserialize_array_empty_array()
{
    match deserialize_array(&chars("[]"))
    {
        Ok(json) =>
        {
            if let JsonObject::Array { array } = json
            {
                if array.is_empty() { return }
                else { panic!("deserialize_array returned non-empty array for input `[]`!") }
            }
            else { panic!("deserialize_array returned JsonObject of an unexpected variant!") }
        },
        Err(reason) => panic!("{}", reason),
    }
}

#[test]
fn test_deserialize_array_containing_single_string_without_trailing_comma()
{
    match deserialize_array(&chars(r#"["hello world!"]"#))
    {
        Ok(json) =>
        {
            if let JsonObject::Array { array } = json
            {
                if array.len() != 1 { panic!("deserialize_array returned an array of `{}` element(s) while `1` element was expected!", array.len()) }
                if let JsonObject::Value { value } = array.first().unwrap()
                {
                    if value == "hello world!" { return }
                    else { panic!(r#"deserialize_array returned `[{}]` instead of `["hello world!"]`!"#, value) }
                }
                else { panic!("deserialize_array returned an array containing JsonObject of unexpected variant!") }
            }
            else { panic!("deserialize_array returned JsonObject of an unexpected variant!") }
        },
        Err(reason) => panic!("{}", reason),
    }
}

#[test]
fn test_deserialize_array_containing_single_object_without_trailing_comma()
{
    match deserialize_array(&chars(r#"[{"key":null}]"#))
    {
        Ok(json) =>
        {
            if let JsonObject::Array { array } = json
            {
                if array.len() != 1 { panic!("deserialize_array returned an array of `{}` element(s) while `1` element was expected!", array.len()) }
                if let JsonObject::Object { fields } = array.first().unwrap()
                {
                    if fields.len() == 1 && matches!(fields.get("key").unwrap(), JsonObject::Null) { return }
                    else { panic!(r#"deserialize_array didn't return `[{{"key":null}}]`!"#) }
                }
                else { panic!("deserialize_array returned an array containing JsonObject of unexpected variant!") }
            }
            else { panic!("deserialize_array returned JsonObject of an unexpected variant!") }
        },
        Err(reason) => panic!("{}", reason),
    }
}

#[test]
fn test_deserialize_array_containing_single_array_without_trailing_comma()
{
    match deserialize_array(&chars("[[null]]"))
    {
        Ok(json) =>
        {
            if let JsonObject::Array { array } = json
            {
                if array.len() != 1 { panic!("deserialize_array returned an array of `{}` element(s) while `1` element was expected!", array.len()) }
                if let JsonObject::Array { array } = array.first().unwrap()
                {
                    if array.len() == 1 && matches!(array.first().unwrap(), JsonObject::Null) { return }
                    else { panic!(r#"deserialize_array didn't return `[[null]]`!"#) }
                }
                else { panic!("deserialize_array returned an array containing JsonObject of unexpected variant!") }
            }
            else { panic!("deserialize_array returned JsonObject of an unexpected variant!") }
        },
        Err(reason) => panic!("{}", reason),
    }
}

#[test]
fn test_deserialize_array_containing_single_string_with_trailing_comma()
{
    match deserialize_array(&chars(r#"["hello world!",]"#))
    {
        Ok(json) =>
        {
            if let JsonObject::Array { array } = json
            {
                if array.len() != 1 { panic!("deserialize_array returned an array of `{}` element(s) while `1` element was expected!", array.len()) }
                if let JsonObject::Value { value } = array.first().unwrap()
                {
                    if value == "hello world!" { return }
                    else { panic!(r#"deserialize_array returned `[{}]` instead of `["hello world!"]`!"#, value) }
                }
                else { panic!("deserialize_array returned an array containing JsonObject of unexpected variant!") }
            }
            else { panic!("deserialize_array returned JsonObject of an unexpected variant!") }
        },
        Err(reason) => panic!("{}", reason),
    }
}

#[test]
fn test_deserialize_array_containing_single_object_with_trailing_comma()
{
    match deserialize_array(&chars(r#"[{"key":null},]"#))
    {
        Ok(json) =>
        {
            if let JsonObject::Array { array } = json
            {
                if array.len() != 1 { panic!("deserialize_array returned an array of `{}` element(s) while `1` element was expected!", array.len()) }
                if let JsonObject::Object { fields } = array.first().unwrap()
                {
                    if fields.len() == 1 && matches!(fields.get("key").unwrap(), JsonObject::Null) { return }
                    else { panic!(r#"deserialize_array didn't return `[{{"key":null}}]`!"#) }
                }
                else { panic!("deserialize_array returned an array containing JsonObject of unexpected variant!") }
            }
            else { panic!("deserialize_array returned JsonObject of an unexpected variant!") }
        },
        Err(reason) => panic!("{}", reason),
    }
}

#[test]
fn test_deserialize_array_containing_single_array_with_trailing_comma()
{
    match deserialize_array(&chars("[[null],]"))
    {
        Ok(json) =>
        {
            if let JsonObject::Array { array } = json
            {
                if array.len() != 1 { panic!("deserialize_array returned an array of `{}` element(s) while `1` element was expected!", array.len()) }
                if let JsonObject::Array { array } = array.first().unwrap()
                {
                    if array.len() == 1 && matches!(array.first().unwrap(), JsonObject::Null) { return }
                    else { panic!(r#"deserialize_array didn't return `[[null]]`!"#) }
                }
                else { panic!("deserialize_array returned an array containing JsonObject of unexpected variant!") }
            }
            else { panic!("deserialize_array returned JsonObject of an unexpected variant!") }
        },
        Err(reason) => panic!("{}", reason),
    }
}

#[test]
fn test_deserialize_array_containing_string_object_array_without_trailing_comma()
{
    match deserialize_array(&chars(r#"["null",{"key":null},[]]"#))
    {
        Ok(json) =>
        {
            if let JsonObject::Array { array } = json
            {
                if array.len() != 3 { panic!("deserialize_array returned an array of length != 3!") }
                else if let (JsonObject::Value { value: string }, JsonObject::Object { fields: object }, JsonObject::Array { array: array_inner }) = (&array[0], &array[1], &array[2])
                {
                    if string == "null" && matches!(object.get("key"), Some(JsonObject::Null)) && array_inner.is_empty() { return }
                    else { panic!("deserialize_array returned an array containing 3 elements with unexpected values!") }
                }
                else { panic!("deserialize_array returned an array containing unexpected JsonObject variant(s)!") }
            }
            else { panic!("deserialize_array returned JsonObject of an unexpected variant!") }
        },
        Err(reason) => panic!("{}", reason),
    }
}

#[test]
fn test_deserialize_array_containing_object_string_array_without_trailing_comma()
{
    match deserialize_array(&chars(r#"[{"key":null},"null",[]]"#))
    {
        Ok(json) =>
        {
            if let JsonObject::Array { array } = json
            {
                if array.len() != 3 { panic!("deserialize_array returned an array of length != 3!") }
                else if let (JsonObject::Object { fields: object }, JsonObject::Value { value: string }, JsonObject::Array { array: array_inner }) = (&array[0], &array[1], &array[2])
                {
                    if string == "null" && matches!(object.get("key"), Some(JsonObject::Null)) && array_inner.is_empty() { return }
                    else { panic!("deserialize_array returned an array containing 3 elements with unexpected values!") }
                }
                else { panic!("deserialize_array returned an array containing unexpected JsonObject variant(s)!") }
            }
            else { panic!("deserialize_array returned JsonObject of an unexpected variant!") }
        },
        Err(reason) => panic!("{}", reason),
    }
}

#[test]
fn test_deserialize_array_containing_array_object_string_without_trailing_comma()
{
    match deserialize_array(&chars(r#"[[],{"key":null},"null"]"#))
    {
        Ok(json) =>
        {
            if let JsonObject::Array { array } = json
            {
                if array.len() != 3 { panic!("deserialize_array returned an array of length != 3!") }
                else if let (JsonObject::Array { array: array_inner }, JsonObject::Object { fields: object }, JsonObject::Value { value: string }) = (&array[0], &array[1], &array[2])
                {
                    if string == "null" && matches!(object.get("key"), Some(JsonObject::Null)) && array_inner.is_empty() { return }
                    else { panic!("deserialize_array returned an array containing 3 elements with unexpected values!") }
                }
                else { panic!("deserialize_array returned an array containing unexpected JsonObject variant(s)!") }
            }
            else { panic!("deserialize_array returned JsonObject of an unexpected variant!") }
        },
        Err(reason) => panic!("{}", reason),
    }
}

#[test]
fn test_deserialize_array_containing_string_object_array_with_trailing_comma()
{
    match deserialize_array(&chars(r#"["null",{"key":null},[],]"#))
    {
        Ok(json) =>
        {
            if let JsonObject::Array { array } = json
            {
                if array.len() != 3 { panic!("deserialize_array returned an array of length != 3!") }
                else if let (JsonObject::Value { value: string }, JsonObject::Object { fields: object }, JsonObject::Array { array: array_inner }) = (&array[0], &array[1], &array[2])
                {
                    if string == "null" && matches!(object.get("key"), Some(JsonObject::Null)) && array_inner.is_empty() { return }
                    else { panic!("deserialize_array returned an array containing 3 elements with unexpected values!") }
                }
                else { panic!("deserialize_array returned an array containing unexpected JsonObject variant(s)!") }
            }
            else { panic!("deserialize_array returned JsonObject of an unexpected variant!") }
        },
        Err(reason) => panic!("{}", reason),
    }
}

#[test]
fn test_deserialize_array_containing_object_string_array_with_trailing_comma()
{
    match deserialize_array(&chars(r#"[{"key":null},"null",[],]"#))
    {
        Ok(json) =>
        {
            if let JsonObject::Array { array } = json
            {
                if array.len() != 3 { panic!("deserialize_array returned an array of length != 3!") }
                else if let (JsonObject::Object { fields: object }, JsonObject::Value { value: string }, JsonObject::Array { array: array_inner }) = (&array[0], &array[1], &array[2])
                {
                    if string == "null" && matches!(object.get("key"), Some(JsonObject::Null)) && array_inner.is_empty() { return }
                    else { panic!("deserialize_array returned an array containing 3 elements with unexpected values!") }
                }
                else { panic!("deserialize_array returned an array containing unexpected JsonObject variant(s)!") }
            }
            else { panic!("deserialize_array returned JsonObject of an unexpected variant!") }
        },
        Err(reason) => panic!("{}", reason),
    }
}

#[test]
fn test_deserialize_array_containing_array_object_string_with_trailing_comma()
{
    match deserialize_array(&chars(r#"[[],{"key":null},"null",]"#))
    {
        Ok(json) =>
        {
            if let JsonObject::Array { array } = json
            {
                if array.len() != 3 { panic!("deserialize_array returned an array of length != 3!") }
                else if let (JsonObject::Array { array: array_inner }, JsonObject::Object { fields: object }, JsonObject::Value { value: string }) = (&array[0], &array[1], &array[2])
                {
                    if string == "null" && matches!(object.get("key"), Some(JsonObject::Null)) && array_inner.is_empty() { return }
                    else { panic!("deserialize_array returned an array containing 3 elements with unexpected values!") }
                }
                else { panic!("deserialize_array returned an array containing unexpected JsonObject variant(s)!") }
            }
            else { panic!("deserialize_array returned JsonObject of an unexpected variant!") }
        },
        Err(reason) => panic!("{}", reason),
    }
}

#[test]
fn test_deserialize_object_empty_string()
{
    match deserialize_object(&Vec::new())
    {
        Ok(_) => panic!("deserialize_object returned Ok!"),
        Err(_) => return,
    }
}

#[test]
fn test_deserialize_object_invalid_leading_character()
{
    match deserialize_object(&chars("!]"))
    {
        Ok(_) => panic!("deserialize_object returned Ok!"),
        Err(_) => return,
    }
}

#[test]
fn test_deserialize_object_invalid_trailing_character()
{
    match deserialize_object(&chars("[!"))
    {
        Ok(_) => panic!("deserialize_object returned Ok!"),
        Err(_) => return,
    }
}

#[test]
fn test_deserialize_object_empty_object()
{
    match deserialize_object(&chars("{}"))
    {
        Ok(json) =>
        {
            if let JsonObject::Object { fields } = json
            {
                if fields.is_empty() { return }
                else { panic!("deserialize_object returned a non-empty object!") }
            }
            else { panic!("deserialize_object returned JsonObject of an unexpected variant!") }
        },
        Err(reason) => panic!("{}", reason),
    }
}

#[test]
fn test_deserialize_object_single_field_without_trailing_comma()
{
    match deserialize_object(&chars(r#"{"key":null}"#))
    {
        Ok(json) =>
        {
            if let JsonObject::Object { fields } = json
            {
                if fields.len() == 1
                {
                    if matches!(fields.get("key"), Some(JsonObject::Null)) { return }
                    else { panic!("deserialize_object returned JsonObject with unexpected contents!") }
                }
                else { panic!("deserialize_object returned JsonObject with an unexpected number of fields!") }
            }
            else { panic!("deserialize_object returned JsonObject of an unexpected variant!") }
        },
        Err(reason) => panic!("{}", reason),
    }
}

#[test]
fn test_deserialize_object_single_field_with_trailing_comma()
{
    match deserialize_object(&chars(r#"{"key":null,}"#))
    {
        Ok(json) =>
        {
            if let JsonObject::Object { fields } = json
            {
                if fields.len() == 1
                {
                    if matches!(fields.get("key"), Some(JsonObject::Null)) { return }
                    else { panic!("deserialize_object returned JsonObject with unexpected contents!") }
                }
                else { panic!("deserialize_object returned JsonObject with an unexpected number of fields!") }
            }
            else { panic!("deserialize_object returned JsonObject of an unexpected variant!") }
        },
        Err(reason) => panic!("{}", reason),
    }
}

#[test]
fn test_deserialize_object_double_field_without_trailing_comma()
{
    match deserialize_object(&chars(r#"{"first":1,"second":2}"#))
    {
        Ok(json) =>
        {
            if let JsonObject::Object { fields } = json
            {
                if fields.len() == 2
                {
                    if matches!(fields.get("first"), Some(JsonObject::Value { value }) if value == "1")
                        && matches!(fields.get("second"), Some(JsonObject::Value { value }) if value == "2")
                    {
                        return
                    }
                    else { panic!("deserialize_object returned JsonObject with unexpected contents!") }
                }
                else { panic!("deserialize_object returned JsonObject with an unexpected number of fields!") }
            }
            else { panic!("deserialize_object returned JsonObject of an unexpected variant!") }
        },
        Err(reason) => panic!("{}", reason),
    }
}

#[test]
fn test_deserialize_object_double_field_with_trailing_comma()
{
    match deserialize_object(&chars(r#"{"first":1,"second":2,}"#))
    {
        Ok(json) =>
        {
            if let JsonObject::Object { fields } = json
            {
                if fields.len() == 2
                {
                    if matches!(fields.get("first"), Some(JsonObject::Value { value }) if value == "1")
                        && matches!(fields.get("second"), Some(JsonObject::Value { value }) if value == "2")
                    {
                        return
                    }
                    else { panic!("deserialize_object returned JsonObject with unexpected contents!") }
                }
                else { panic!("deserialize_object returned JsonObject with an unexpected number of fields!") }
            }
            else { panic!("deserialize_object returned JsonObject of an unexpected variant!") }
        },
        Err(reason) => panic!("{}", reason),
    }
}

#[test]
fn test_deserialize_object_triple_field_without_trailing_comma()
{
    match deserialize_object(&chars(r#"{"first":1,"second":2,"third":3}"#))
    {
        Ok(json) =>
        {
            if let JsonObject::Object { fields } = json
            {
                if fields.len() == 3
                {
                    if matches!(fields.get("first"), Some(JsonObject::Value { value }) if value == "1")
                        && matches!(fields.get("second"), Some(JsonObject::Value { value }) if value == "2")
                        && matches!(fields.get("third"), Some(JsonObject::Value { value }) if value == "3")
                    {
                        return
                    }
                    else { panic!("deserialize_object returned JsonObject with unexpected contents!") }
                }
                else { panic!("deserialize_object returned JsonObject with an unexpected number of fields!") }
            }
            else { panic!("deserialize_object returned JsonObject of an unexpected variant!") }
        },
        Err(reason) => panic!("{}", reason),
    }
}

#[test]
fn test_deserialize_object_triple_field_with_trailing_comma()
{
    match deserialize_object(&chars(r#"{"first":1,"second":2,"third":3,}"#))
    {
        Ok(json) =>
        {
            if let JsonObject::Object { fields } = json
            {
                if fields.len() == 3
                {
                    if matches!(fields.get("first"), Some(JsonObject::Value { value }) if value == "1")
                        && matches!(fields.get("second"), Some(JsonObject::Value { value }) if value == "2")
                        && matches!(fields.get("third"), Some(JsonObject::Value { value }) if value == "3")
                    {
                        return
                    }
                    else { panic!("deserialize_object returned JsonObject with unexpected contents!") }
                }
                else { panic!("deserialize_object returned JsonObject with an unexpected number of fields!") }
            }
            else { panic!("deserialize_object returned JsonObject of an unexpected variant!") }
        },
        Err(reason) => panic!("{}", reason),
    }
}

#[test]
fn test_json_object_empty_string()
{
    match JsonObject::try_from("")
    {
        Ok(json) =>
        {
            if let JsonObject::Null = json { return }
            else { panic!("JsonObject::try_from(…) returned JsonObject of an unexpected variant!") }
        },
        Err(reason) => panic!("{}", reason),
    }
}

#[test]
fn test_json_object_one_character_string()
{
    match JsonObject::try_from("1")
    {
        Ok(json) =>
        {
            if let JsonObject::Value { value } = json
            {
                if value == "1" { return }
                else { panic!("JsonObject::try_from(…) returned `{}` instead of `1`!", value) }
            }
            else { panic!("JsonObject::try_from(…) returned JsonObject of an unexpected variant!") }
        },
        Err(reason) => panic!("{}", reason),
    }
}

#[test]
fn test_json_object_object_with_single_field()
{
    match JsonObject::try_from(r#"{"key":null}"#)
    {
        Ok(json) =>
        {
            if let JsonObject::Object { fields } = json
            {
                if fields.len() != 1 { panic!("JsonObject::try_from(…) returned JsonObject with an unexpected number of fields!") }
                else if let JsonObject::Null = fields.get("key").unwrap() { return }
                else { panic!("JsonObject::try_from(…) returned JsonObject with an unexpected field!") }
            }
            else { panic!("JsonObject::try_from(…) returned JsonObject of an unexpected variant!") }
        },
        Err(reason) => panic!("{}", reason),
    }
}

#[test]
fn test_json_object_array_with_single_item()
{
    match JsonObject::try_from("[null]")
    {
        Ok(json) =>
        {
            if let JsonObject::Array { array } = json
            {
                if array.len() != 1 { panic!("JsonObject::try_from(…) returned an array of an unexpected length!") }
                else if let JsonObject::Null = array.first().unwrap() { return }
                else { panic!("JsonObject::try_from(…) returned an array containing an unexpected item!") }
            }
            else { panic!("JsonObject::try_from(…) returned JsonObject of an unexpected variant!") }
        },
        Err(reason) => panic!("{}", reason),
    }
}

#[test]
fn test_json_object_string()
{
    match JsonObject::try_from(r#""hello world!""#)
    {
        Ok(json) =>
        {
            if let JsonObject::Value { value } = json
            {
                if value == "hello world!" { return }
                else { panic!("JsonObject::try_from(…) returned `{}` instead of `hello world!`!", value) }
            }
            else { panic!("JsonObject::try_from(…) returned JsonObject of an unexpected variant!") }
        },
        Err(reason) => panic!("{}", reason),
    }
}

#[test]
fn test_serialize_null()
{
    assert_eq!(JsonObject::Null.to_json(), "null")
}

#[test]
fn test_serialize_value_string()
{
    assert_eq!(JsonObject::Value { value: "hello world!".to_string() }.to_json(), r#""hello world!""#)
}

#[test]
fn test_serialize_value_u128_positive()
{
    assert_eq!(JsonObject::Value { value: 8u128.to_string() }.to_json(), "8")
}

#[test]
fn test_serialize_value_i128_negative()
{
    assert_eq!(JsonObject::Value { value: (-8i128).to_string() }.to_json(), "-8")
}

#[test]
fn test_serialize_value_f64_negative()
{
    assert_eq!(JsonObject::Value { value: (-8.8f64).to_string() }.to_json(), "-8.8")
}

#[test]
fn test_serialize_object_empty()
{
    assert_eq!(JsonObject::Object { fields: JsonMap::new() }.to_json(), r#"{}"#)
}

#[test]
fn test_serialize_object_with_one_field()
{
    let mut fields = JsonMap::new();
    fields.insert("key".to_string(), JsonObject::Null);
    assert_eq!(JsonObject::Object { fields }.to_json(), r#"{"key":null}"#)
}

#[test]
fn test_serialize_object_with_three_fields()
{
    let mut fields = JsonMap::new();
    fields.insert("first".to_string(), JsonObject::Value { value: "1".to_string() });
    fields.insert("second".to_string(), JsonObject::Value { value: "2".to_string() });
    fields.insert("third".to_string(), JsonObject::Value { value: "3".to_string() });
    assert_eq!(JsonObject::Object { fields }.to_json(), r#"{"first":1,"second":2,"third":3}"#)
}

#[test]
fn test_serialize_array_empty()
{
    assert_eq!(JsonObject::Array { array: Vec::new() }.to_json(), r#"[]"#)
}

#[test]
fn test_serialize_array_with_one_field()
{
    assert_eq!(JsonObject::Array { array: vec![ JsonObject::Null ] }.to_json(), r#"[null]"#)
}

#[test]
fn test_serialize_array_with_three_fields()
{
    assert_eq!
    (
        JsonObject::Array { array: vec![ JsonObject::Value { value: "1".to_string() }, JsonObject::Value { value: "2".to_string() }, JsonObject::Value { value: "3".to_string() } ] }.to_json(),
        r#"[1,2,3]"#
    )
}

#[test]
fn test_serialize_string_empty()
{
    assert_eq!(serialize_string(""), "\"\"")
}

#[test]
fn test_serialize_string_without_escaped_characters()
{
    assert_eq!(serialize_string("hello world!"), "\"hello world!\"")
}

#[test]
fn test_serialize_string_with_escaped_characters()
{
    assert_eq!(serialize_string("\t\n\r\"\\"), r#""\u0009\u000a\u000d\"\\""#)
}

#[test]
fn test_trimmable()
{
    assert_eq!("\u{000B}\u{000C}\u{0085}hello      world!\u{2028}\u{2029}\t\n\t\r ".chars().collect::<Vec<char>>().as_slice().trim().iter().collect::<String>(), "hello      world!")
}
