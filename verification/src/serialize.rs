//! The writer: how a JSON value becomes text.
use vstd::prelude::*;
use crate::chars::{is_ascii_control, hex_digit_lower, char_is_ascii_control, lower_hex_digit};
use crate::json::Json;
use crate::number::is_number_text;
use crate::text::{chars_of_str, string_of_chars};

verus! {

/// How one character of a string is written: backslash and double quote are escaped
/// with a backslash, ASCII control characters as `\u` and four lower-case hex digits.
pub open spec fn escape_char(c: char) -> Seq<char> {
    if c == '\\' {
        seq!['\\', '\\']
    } else if c == '"' {
        seq!['\\', '"']
    } else if is_ascii_control(c) {
        seq![
            '\\',
            'u',
            '0',
            '0',
            hex_digit_lower(((c as u32) / 16) as nat),
            hex_digit_lower(((c as u32) % 16) as nat),
        ]
    } else {
        seq![c]
    }
}

pub open spec fn escape_all(s: Seq<char>) -> Seq<char>
    decreases s.len(),
{
    if s.len() == 0 {
        Seq::empty()
    } else {
        escape_all(s.drop_last()) + escape_char(s.last())
    }
}

/// A string written as a quoted JSON string.
pub open spec fn spec_serialize_string(s: Seq<char>) -> Seq<char> {
    seq!['"'] + escape_all(s) + seq!['"']
}

/// The parts joined by the separator.
pub open spec fn join_texts(parts: Seq<Seq<char>>, sep: char) -> Seq<char>
    decreases parts.len(),
{
    if parts.len() == 0 {
        Seq::empty()
    } else if parts.len() == 1 {
        parts[0]
    } else {
        join_texts(parts.drop_last(), sep) + seq![sep] + parts.last()
    }
}

/// The parts between an opening and a closing character, separated.
pub open spec fn enclose(parts: Seq<Seq<char>>, open: char, sep: char, close: char) -> Seq<char> {
    seq![open] + join_texts(parts, sep) + seq![close]
}

/// How one field of an object is written: its quoted name, a colon, its value.
pub open spec fn entry_text(name: Seq<char>, value_text: Seq<char>) -> Seq<char> {
    spec_serialize_string(name) + seq![':'] + value_text
}

pub open spec fn item_texts(items: Seq<Json>) -> Seq<Seq<char>>
    decreases items,
{
    if items.len() == 0 {
        Seq::empty()
    } else {
        item_texts(items.drop_last()).push(json_text(items.last()))
    }
}

pub open spec fn field_texts(fields: Seq<(Seq<char>, Json)>) -> Seq<Seq<char>>
    decreases fields,
{
    if fields.len() == 0 {
        Seq::empty()
    } else {
        field_texts(fields.drop_last()).push(
            entry_text(fields.last().0, json_text(fields.last().1)),
        )
    }
}

/// The text that the writer gives for a JSON value: `null`; a value bare where it reads
/// as a number and quoted otherwise; an object's fields in key order and an array's
/// items in order, comma-separated between braces or brackets.
pub open spec fn json_text(j: Json) -> Seq<char>
    decreases j,
{
    match j {
        Json::Null => seq!['n', 'u', 'l', 'l'],
        Json::Value(v) => if is_number_text(v) {
            v
        } else {
            spec_serialize_string(v)
        },
        Json::Object(fields) => if fields.len() == 0 {
            seq!['{', '}']
        } else {
            enclose(field_texts(fields), '{', ',', '}')
        },
        Json::Array(items) => if items.len() == 0 {
            seq!['[', ']']
        } else {
            enclose(item_texts(items), '[', ',', ']')
        },
    }
}

pub proof fn lemma_item_texts(items: Seq<Json>)
    ensures
        item_texts(items).len() == items.len(),
        forall|i: int|
            0 <= i < items.len() ==> #[trigger] item_texts(items)[i] == json_text(items[i]),
    decreases items.len(),
{
    if items.len() > 0 {
        lemma_item_texts(items.drop_last());
    }
}

pub proof fn lemma_field_texts(fields: Seq<(Seq<char>, Json)>)
    ensures
        field_texts(fields).len() == fields.len(),
        forall|i: int|
            0 <= i < fields.len() ==> #[trigger] field_texts(fields)[i] == entry_text(
                fields[i].0,
                json_text(fields[i].1),
            ),
    decreases fields.len(),
{
    if fields.len() > 0 {
        lemma_field_texts(fields.drop_last());
    }
}

/// The characters of `s` written as a quoted JSON string.
pub fn serialize_string_chars(s: &[char]) -> (r: Vec<char>)
    ensures
        r@ == spec_serialize_string(s@),
{
    let mut out: Vec<char> = Vec::new();
    out.push('"');
    let mut i: usize = 0;
    while i < s.len()
        invariant
            i <= s@.len(),
            out@ == seq!['"'] + escape_all(s@.take(i as int)),
        decreases s@.len() - i,
    {
        let c = s[i];
        let ghost before = out@;
        if c == '\\' {
            out.push('\\');
            out.push('\\');
        } else if c == '"' {
            out.push('\\');
            out.push('"');
        } else if char_is_ascii_control(c) {
            let u: u32 = c as u32;
            out.push('\\');
            out.push('u');
            out.push('0');
            out.push('0');
            out.push(lower_hex_digit(u / 16));
            out.push(lower_hex_digit(u % 16));
        } else {
            out.push(c);
        }
        proof {
            assert(s@.take(i + 1).drop_last() =~= s@.take(i as int));
            assert(s@.take(i + 1).last() == c);
            assert(out@ =~= before + escape_char(c));
        }
        i = i + 1;
    }
    out.push('"');
    assert(s@.take(s@.len() as int) =~= s@);
    out
}

/// A string written as a quoted JSON string.
pub fn serialize_string(value: &str) -> (r: String)
    ensures
        r@ == spec_serialize_string(value@),
{
    let chars = chars_of_str(value);
    let out = serialize_string_chars(chars.as_slice());
    string_of_chars(out.as_slice())
}

/// The parts between `open` and `close`, separated by `sep`.
pub fn construct_chars(parts: &Vec<Vec<char>>, open: char, sep: char, close: char) -> (r: Vec<char>)
    requires
        parts@.len() > 0,
    ensures
        r@ == enclose(parts@.map_values(|p: Vec<char>| p@), open, sep, close),
{
    let ghost views = parts@.map_values(|p: Vec<char>| p@);
    let mut out: Vec<char> = Vec::new();
    out.push(open);
    let mut i: usize = 0;
    while i < parts.len() - 1
        invariant
            parts@.len() > 0,
            i <= parts@.len() - 1,
            views == parts@.map_values(|p: Vec<char>| p@),
            out@ == seq![open] + join_texts(views.take(i as int), sep) + if i == 0 {
                Seq::<char>::empty()
            } else {
                seq![sep]
            },
        decreases parts@.len() - 1 - i,
    {
        let ghost before = out@;
        let mut piece = parts[i].clone();
        out.append(&mut piece);
        out.push(sep);
        proof {
            assert(views.take(i + 1).drop_last() =~= views.take(i as int));
            assert(views.take(i + 1).last() == parts@[i as int]@);
            if i == 0 {
                assert(join_texts(views.take(1), sep) == views.take(1)[0]);
            }
            assert(out@ =~= seq![open] + join_texts(views.take(i + 1), sep) + seq![sep]);
        }
        i = i + 1;
    }
    let mut last = parts[parts.len() - 1].clone();
    out.append(&mut last);
    out.push(close);
    proof {
        let n = parts@.len() as int;
        assert(views.take(n) =~= views);
        assert(views.take(n).drop_last() =~= views.take(n - 1));
        if n == 1 {
            assert(join_texts(views, sep) == views[0]);
        }
        assert(out@ =~= seq![open] + join_texts(views, sep) + seq![close]);
    }
    out
}

/// The strings between `open_char` and `close_char`, separated by `separator_char`.
pub fn construct_object_or_array(
    strings: Vec<String>,
    open_char: char,
    separator_char: char,
    close_char: char,
) -> (r: String)
    requires
        strings@.len() > 0,
    ensures
        r@ == enclose(
            strings@.map_values(|s: String| s@),
            open_char,
            separator_char,
            close_char,
        ),
{
    let mut parts: Vec<Vec<char>> = Vec::new();
    let mut i: usize = 0;
    while i < strings.len()
        invariant
            i <= strings@.len(),
            parts@.len() == i,
            forall|j: int| 0 <= j < i ==> #[trigger] parts@[j]@ == strings@[j]@,
        decreases strings@.len() - i,
    {
        parts.push(chars_of_str(strings[i].as_str()));
        i = i + 1;
    }
    let out = construct_chars(&parts, open_char, separator_char, close_char);
    assert(parts@.map_values(|p: Vec<char>| p@) =~= strings@.map_values(|s: String| s@));
    string_of_chars(out.as_slice())
}

} // verus!

verus! {

/// Decimal numbers are written bare: for all digit strings `a` and `b`, not both empty,
/// with an optional sign before them and an optional exponent after them, the text
/// `sign a . b exponent` is a number, and the writer gives it back as it stands
/// (for example `3.14`, `-.5`, `10.`, `1.5e-3`).
pub proof fn law_decimal_written_bare(sign: Seq<char>, a: Seq<char>, b: Seq<char>, exp: Seq<char>)
    requires
        crate::number::all_digits(a),
        crate::number::all_digits(b),
        a.len() + b.len() > 0,
        sign.len() == 0 || sign == seq!['-'] || sign == seq!['+'],
        exp.len() == 0 || (exp.len() > 1 && crate::number::is_exp_marker(exp[0])
            && crate::number::is_exponent(exp.drop_first())),
    ensures
        is_number_text(sign + a + seq!['.'] + b + exp),
        json_text(Json::Value(sign + a + seq!['.'] + b + exp)) == sign + a + seq!['.'] + b + exp,
{
    let m = a + seq!['.'] + b;
    let p = a.len() as int;
    assert(m[p] == '.');
    assert(m.take(p) =~= a);
    assert(m.skip(p + 1) =~= b);
    assert(crate::number::is_mantissa(m));
    let n = m + exp;
    assert(crate::number::is_float_number(n)) by {
        if exp.len() == 0 {
            assert(n =~= m);
        } else {
            let k = m.len() as int;
            assert(n[k] == exp[0]);
            assert(n.take(k) =~= m);
            assert(n.skip(k + 1) =~= exp.drop_first());
        }
    }
    let s = sign + a + seq!['.'] + b + exp;
    assert(s =~= sign + n);
    if sign.len() == 0 {
        assert(s =~= n);
        assert(!crate::number::is_sign(n[0])) by {
            if a.len() > 0 {
                assert(n[0] == a[0]);
                assert(crate::number::is_ascii_digit(a[0]));
            } else {
                assert(n[0] == '.');
            }
        }
        assert(crate::number::strip_sign(s) == n);
    } else {
        assert(s[0] == sign[0]);
        assert(s.drop_first() =~= n);
        assert(crate::number::strip_sign(s) == n);
    }
    assert(crate::number::parses_as_f64(s));
}

} // verus!
