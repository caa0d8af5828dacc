//! The reader: how a JSON text becomes a value.
use vstd::prelude::*;
use crate::chars::{is_control, is_scalar_value, hex_value, char_is_control, char_hex_value, char_from_code_point};
use crate::error::{JsonError, Failure, error_text};
use crate::json::{Json, JsonObject, JsonMap, sorted_insert, view_list, lemma_view_list};
use crate::scan::{find_chars_spec, find_chars_in, lemma_scan_positions, positions_within, scan_start, as_ints};
use crate::text::{slice_trim, slice_trim_fails, slice_trim_start, slice_trim_drop, slice_trim_bounds, trim_ws, ws_trim_bounds, chars_of_str, string_of_chars, lemma_leading_ws_bound, lemma_trailing_ws_bound};

verus! {

pub open spec fn is_quote(c: char) -> bool {
    c == '"' || c == '\''
}

/// The characters that a backslash may escape, besides `u`.
pub open spec fn is_escapable(c: char) -> bool {
    ||| c == '\\'
    ||| c == '"'
    ||| c == '\''
    ||| c == '/'
    ||| c == '\u{8}'
    ||| c == '\u{c}'
    ||| c == '\n'
    ||| c == '\r'
    ||| c == '\t'
}

pub open spec fn all_hex(d: Seq<char>) -> bool {
    forall|i: int| 0 <= i < d.len() ==> #[trigger] hex_value(d[i]) is Some
}

/// The number that a string of hexadecimal digits denotes.
pub open spec fn hex_digits_value(d: Seq<char>) -> nat
    decreases d.len(),
{
    if d.len() == 0 {
        0
    } else {
        hex_digits_value(d.drop_last()) * 16 + hex_value(d.last()).unwrap() as nat
    }
}

/// `u32::from_str_radix(h, 16)`: an optional `+`, then one or more hexadecimal digits
/// whose value fits in 32 bits.
pub open spec fn hex_number(h: Seq<char>) -> Option<u32> {
    let d = if h.len() > 0 && h[0] == '+' {
        h.drop_first()
    } else {
        h
    };
    if d.len() > 0 && all_hex(d) && hex_digits_value(d) <= u32::MAX {
        Some(hex_digits_value(d) as u32)
    } else {
        None
    }
}

/// The text of a string body from position `i` on, with `out` already decoded:
/// escapes are resolved (`\u` takes up to four following characters as a hexadecimal
/// code point), and control characters, stray quotation marks and (outside quotes)
/// spaces are refused.
pub open spec fn unescape_from(
    b: Seq<char>,
    i: int,
    closing: Option<char>,
    escaping: bool,
    out: Seq<char>,
) -> Result<Seq<char>, JsonError>
    decreases b.len() - i,
{
    if i >= b.len() || i < 0 {
        Ok(out)
    } else {
        let c = b[i];
        if is_control(c) {
            Err(JsonError::ControlCharacter)
        } else if c == '\\' && !escaping {
            unescape_from(b, i + 1, closing, true, out)
        } else if c == 'u' && escaping {
            let end = if i + 5 <= b.len() {
                i + 5
            } else {
                b.len() as int
            };
            match hex_number(b.subrange(i + 1, end)) {
                None => Err(JsonError::EscapeNotHex),
                Some(u) => if is_scalar_value(u) {
                    unescape_from(b, end, closing, false, out.push(u as char))
                } else {
                    Err(JsonError::EscapeOutOfRange)
                },
            }
        } else if escaping {
            if is_escapable(c) {
                unescape_from(b, i + 1, closing, false, out.push(c))
            } else {
                Err(JsonError::InvalidEscape)
            }
        } else if is_quote(c) && (closing is None || closing == Some(c)) {
            Err(JsonError::UnescapedQuote)
        } else if c == ' ' && closing is None {
            Err(JsonError::UnquotedSpace)
        } else {
            unescape_from(b, i + 1, closing, escaping, out.push(c))
        }
    }
}

/// The four characters `null`.
pub open spec fn null_text() -> Seq<char> {
    seq!['n', 'u', 'l', 'l']
}

/// Reading a scalar: after trimming, `null` is the null value; a text in matching single
/// or double quotation marks is a string, with its escapes resolved; any other text is
/// read as it stands (a number, `true`, a bare word).
pub open spec fn parse_string(s: Seq<char>) -> Result<Json, Failure> {
    if slice_trim_fails(s) {
        Err(Failure::Undefined)
    } else {
        let v = slice_trim(s);
        if v.len() == 0 {
            Err(Failure::Refused(JsonError::EmptyString))
        } else if v == null_text() {
            Ok(Json::Null)
        } else if is_quote(v[0]) && v.last() != v[0] {
            Err(Failure::Refused(JsonError::QuoteMismatch))
        } else if is_quote(v[0]) && v.len() == 1 {
            Err(Failure::Undefined)
        } else {
            let (body, closing) = if is_quote(v[0]) {
                (v.subrange(1, v.len() - 1), Some(v[0]))
            } else {
                (v, None)
            };
            match unescape_from(body, 0, closing, false, Seq::empty()) {
                Ok(text) => Ok(Json::Value(text)),
                Err(e) => Err(Failure::Refused(e)),
            }
        }
    }
}

/// The pieces of `s` between the cut positions, from `start` on; the piece after the
/// last cut is kept only when it is not empty.
pub open spec fn pieces(s: Seq<char>, cuts: Seq<int>, start: int) -> Seq<Seq<char>>
    decreases cuts.len(),
{
    if cuts.len() == 0 {
        if start < s.len() {
            seq![s.subrange(start, s.len() as int)]
        } else {
            Seq::empty()
        }
    } else {
        seq![s.subrange(start, cuts[0])] + pieces(s, cuts.drop_first(), cuts[0] + 1)
    }
}

/// The pieces' lengths, each counted with the separator that follows it.
pub open spec fn total_len(segs: Seq<Seq<char>>) -> nat
    decreases segs.len(),
{
    if segs.len() == 0 {
        0
    } else {
        segs[0].len() + 1 + total_len(segs.drop_first())
    }
}

/// The pieces of a text are no longer, together, than the text and one separator.
pub proof fn lemma_pieces_total(s: Seq<char>, cuts: Seq<int>, start: int)
    requires
        0 <= start <= s.len(),
        positions_within(cuts, start, s.len() as int),
    ensures
        total_len(pieces(s, cuts, start)) <= s.len() - start + 1,
    decreases cuts.len(),
{
    if cuts.len() > 0 {
        let rest = cuts.drop_first();
        assert(positions_within(rest, cuts[0] + 1, s.len() as int)) by {
            assert forall|i: int| 0 <= i < rest.len() implies cuts[0] + 1 <= #[trigger] rest[i] < s.len() by {
                assert(rest[i] == cuts[i + 1]);
                assert(cuts[0] < cuts[i + 1]);
            }
            assert forall|i: int, j: int| 0 <= i < j < rest.len() implies #[trigger] rest[i] < #[trigger] rest[j] by {
                assert(rest[i] == cuts[i + 1]);
                assert(rest[j] == cuts[j + 1]);
            }
        }
        lemma_pieces_total(s, rest, cuts[0] + 1);
        let p = pieces(s, cuts, start);
        assert(p.drop_first() =~= pieces(s, rest, cuts[0] + 1));
        assert(p[0].len() == cuts[0] - start);
    } else if start < s.len() {
        let p = pieces(s, cuts, start);
        assert(p.drop_first() =~= Seq::<Seq<char>>::empty());
        assert(total_len(p.drop_first()) == 0);
    }
}

pub proof fn lemma_slice_trim_len(s: Seq<char>)
    ensures
        !slice_trim_fails(s) ==> 0 <= slice_trim_start(s) <= s.len() - slice_trim_drop(s) <= s.len(),
        !slice_trim_fails(s) ==> slice_trim(s).len() == s.len() - slice_trim_drop(s) - slice_trim_start(s),
        !slice_trim_fails(s) ==> slice_trim(s).len() <= s.len(),
{
    lemma_leading_ws_bound(s);
    lemma_trailing_ws_bound(s);
}

/// Reading any value: an object where the text starts with `{`, an array where it starts
/// with `[`, a scalar otherwise.
pub open spec fn parse_value(x: Seq<char>) -> Result<Json, Failure>
    decreases x.len(), 3int, 0int,
{
    if x.len() == 0 {
        parse_string(x)
    } else if x[0] == '[' {
        parse_array(x)
    } else if x[0] == '{' {
        parse_object(x)
    } else {
        parse_string(x)
    }
}

/// The name that a key value gives a field: its text, or "null" for the null value;
/// an object or an array is refused.
pub open spec fn key_name(key: Json) -> Result<Seq<char>, Failure> {
    match key {
        Json::Null => Ok(null_text()),
        Json::Value(k) => Ok(k),
        _ => Err(Failure::Refused(JsonError::UnexpectedKind)),
    }
}

/// How the text before a field's colon is read, given what it reads as a value (`whole`)
/// and as a scalar (`scalar`): a text that reads completely as an object or an array is
/// refused as a name; any other text is read as a scalar.
pub open spec fn key_reading(whole: Result<Json, Failure>, scalar: Result<Json, Failure>) -> Result<Json, Failure> {
    match whole {
        Ok(Json::Object(_)) => Err(Failure::Refused(JsonError::UnexpectedKind)),
        Ok(Json::Array(_)) => Err(Failure::Refused(JsonError::UnexpectedKind)),
        _ => scalar,
    }
}

/// Reading one field `name: value` of an object: the first top-level colon separates the
/// name from the value; the name is the scalar that the text before it reads as (`null`
/// names the field "null"), unless that text reads completely as an object or an array,
/// which is refused.
pub open spec fn parse_field(x: Seq<char>) -> Result<(Seq<char>, Json), Failure>
    decreases x.len(), 0int, 0int,
{
    if slice_trim_fails(x) {
        Err(Failure::Undefined)
    } else {
        let v = slice_trim(x);
        match find_chars_spec(v, ':', true) {
            None => Err(Failure::Refused(JsonError::NotValidJson)),
            Some(colons) => if colons.len() == 0 {
                Err(Failure::Refused(JsonError::NotValidJson))
            } else {
                let c = colons[0];
                proof {
                    lemma_slice_trim_len(x);
                    lemma_scan_positions(v, 0, scan_start(), ':', true);
                }
                match key_reading(parse_value(v.take(c)), parse_string(v.take(c))) {
                    Err(f) => Err(f),
                    Ok(key) => {
                        match key_name(key) {
                            Err(f) => Err(f),
                            Ok(name) => {
                                let rest = v.skip(c + 1);
                                if slice_trim_fails(rest) {
                                    Err(Failure::Undefined)
                                } else {
                                    proof {
                                        lemma_slice_trim_len(rest);
                                    }
                                    match parse_value(slice_trim(rest)) {
                                        Err(f) => Err(f),
                                        Ok(value) => Ok((name, value)),
                                    }
                                }
                            },
                        }
                    },
                }
            },
        }
    }
}

/// Reads the fields in the pieces in turn, each inserted into `acc` in key order (a
/// later field replaces an earlier one of the same name); the first failure stops it.
pub open spec fn fields_from(segs: Seq<Seq<char>>, acc: Seq<(Seq<char>, Json)>) -> Result<
    Seq<(Seq<char>, Json)>,
    Failure,
>
    decreases total_len(segs), 1int, 0int,
{
    if segs.len() == 0 {
        Ok(acc)
    } else {
        match parse_field(segs[0]) {
            Err(f) => Err(f),
            Ok((k, v)) => fields_from(segs.drop_first(), sorted_insert(acc, k, v)),
        }
    }
}

/// Reading one item of an array: it is trimmed, and an empty item leaves the reader
/// undefined.
pub open spec fn parse_item(seg: Seq<char>) -> Result<Json, Failure>
    decreases seg.len(), 4int, 0int,
{
    if slice_trim_fails(seg) || slice_trim(seg).len() == 0 {
        Err(Failure::Undefined)
    } else {
        proof {
            lemma_slice_trim_len(seg);
        }
        parse_value(slice_trim(seg))
    }
}

/// Reads the items in the pieces in turn; the first failure stops it.
pub open spec fn items_from(segs: Seq<Seq<char>>, acc: Seq<Json>) -> Result<Seq<Json>, Failure>
    decreases total_len(segs), 1int, 0int,
{
    if segs.len() == 0 {
        Ok(acc)
    } else {
        match parse_item(segs[0]) {
            Err(f) => Err(f),
            Ok(v) => items_from(segs.drop_first(), acc.push(v)),
        }
    }
}

/// The text between the outer braces or brackets, trimmed; `None` where the text does
/// not start with `open` and end with `close`, `Some(Err(..))` where trimming is undefined.
pub open spec fn enclosed(x: Seq<char>, open: char, close: char) -> Option<Result<Seq<char>, Failure>> {
    if slice_trim_fails(x) {
        Some(Err(Failure::Undefined))
    } else {
        let v = slice_trim(x);
        if v.len() == 0 || v[0] != open || v.last() != close {
            None
        } else {
            let inner = v.subrange(1, v.len() - 1);
            if slice_trim_fails(inner) {
                Some(Err(Failure::Undefined))
            } else {
                Some(Ok(slice_trim(inner)))
            }
        }
    }
}

pub proof fn lemma_enclosed_len(x: Seq<char>, open: char, close: char)
    requires
        open != close,
    ensures
        enclosed(x, open, close) matches Some(Ok(inner)) ==> inner.len() + 2 <= x.len(),
{
    if !slice_trim_fails(x) {
        let v = slice_trim(x);
        lemma_slice_trim_len(x);
        if v.len() >= 2 {
            let inner = v.subrange(1, v.len() - 1);
            lemma_slice_trim_len(inner);
        }
    }
}

/// Reading an object: braces around fields separated by top-level commas (a trailing
/// comma is allowed).
pub open spec fn parse_object(x: Seq<char>) -> Result<Json, Failure>
    decreases x.len(), 2int, 0int,
{
    match enclosed(x, '{', '}') {
        None => Err(Failure::Refused(JsonError::NotValidJson)),
        Some(Err(f)) => Err(f),
        Some(Ok(inner)) => if inner.len() == 0 {
            Ok(Json::Object(Seq::empty()))
        } else {
            match find_chars_spec(inner, ',', false) {
                None => Err(Failure::Refused(JsonError::NotValidJson)),
                Some(commas) => match {
                    proof {
                        lemma_enclosed_len(x, '{', '}');
                        lemma_scan_positions(inner, 0, scan_start(), ',', false);
                        lemma_pieces_total(inner, commas, 0);
                    }
                    fields_from(pieces(inner, commas, 0), Seq::empty())
                } {
                    Err(f) => Err(f),
                    Ok(fields) => Ok(Json::Object(fields)),
                },
            }
        },
    }
}

/// Reading an array: brackets around items separated by top-level commas (a trailing
/// comma is allowed).
pub open spec fn parse_array(x: Seq<char>) -> Result<Json, Failure>
    decreases x.len(), 2int, 0int,
{
    match enclosed(x, '[', ']') {
        None => Err(Failure::Refused(JsonError::NotValidJson)),
        Some(Err(f)) => Err(f),
        Some(Ok(inner)) => if inner.len() == 0 {
            Ok(Json::Array(Seq::empty()))
        } else {
            match find_chars_spec(inner, ',', false) {
                None => Err(Failure::Refused(JsonError::NotValidJson)),
                Some(commas) => match {
                    proof {
                        lemma_enclosed_len(x, '[', ']');
                        lemma_scan_positions(inner, 0, scan_start(), ',', false);
                        lemma_pieces_total(inner, commas, 0);
                    }
                    items_from(pieces(inner, commas, 0), Seq::empty())
                } {
                    Err(f) => Err(f),
                    Ok(items) => Ok(Json::Array(items)),
                },
            }
        },
    }
}

/// Reading a whole JSON text: it is trimmed; nothing is `null`; a lone quotation mark is
/// refused; anything else is read as a value.
pub open spec fn parse_text(text: Seq<char>) -> Result<Json, Failure> {
    let t = trim_ws(text);
    if t.len() == 0 {
        Ok(Json::Null)
    } else if t.len() == 1 && is_quote(t[0]) {
        Err(Failure::Refused(JsonError::NotValidJson))
    } else {
        parse_value(t)
    }
}

} // verus!

verus! {

/// The model of a read's result.
pub open spec fn result_json(r: Result<JsonObject, Failure>) -> Result<Json, Failure> {
    match r {
        Ok(o) => Ok(o@),
        Err(f) => Err(f),
    }
}

pub open spec fn result_field(r: Result<(String, JsonObject), Failure>) -> Result<(Seq<char>, Json), Failure> {
    match r {
        Ok((k, v)) => Ok((k@, v@)),
        Err(f) => Err(f),
    }
}

spec fn hex_bound(k: int) -> int {
    if k <= 0 {
        1
    } else if k == 1 {
        16
    } else if k == 2 {
        256
    } else if k == 3 {
        4096
    } else {
        65536
    }
}

/// `u32::from_str_radix(s[lo..hi], 16)` for at most four characters.
fn hex_number_in(s: &[char], lo: usize, hi: usize) -> (r: Option<u32>)
    requires
        lo <= hi <= s@.len(),
        hi - lo <= 4,
    ensures
        r == hex_number(s@.subrange(lo as int, hi as int)),
{
    let ghost h = s@.subrange(lo as int, hi as int);
    let start: usize = if lo < hi && s[lo] == '+' {
        lo + 1
    } else {
        lo
    };
    let ghost d = if h.len() > 0 && h[0] == '+' {
        h.drop_first()
    } else {
        h
    };
    assert(d =~= s@.subrange(start as int, hi as int));
    if start == hi {
        return None;
    }
    let mut v: u32 = 0;
    let mut i: usize = start;
    while i < hi
        invariant
            start <= i <= hi <= s@.len(),
            hi - start <= 4,
            d == s@.subrange(start as int, hi as int),
            h == s@.subrange(lo as int, hi as int),
            d == (if h.len() > 0 && h[0] == '+' {
                h.drop_first()
            } else {
                h
            }),
            all_hex(s@.subrange(start as int, i as int)),
            v == hex_digits_value(s@.subrange(start as int, i as int)),
            v < hex_bound(i - start),
        decreases hi - i,
    {
        match char_hex_value(s[i]) {
            None => {
                proof {
                    assert(d[i - start] == s@[i as int]);
                    assert(hex_value(d[i - start]) is None);
                    assert(!all_hex(d));
                }
                return None;
            },
            Some(x) => {
                proof {
                    let p = s@.subrange(start as int, i + 1);
                    assert(p.drop_last() =~= s@.subrange(start as int, i as int));
                    assert(p.last() == s@[i as int]);
                    assert forall|k: int| 0 <= k < p.len() implies #[trigger] hex_value(p[k]) is Some by {
                        if k < p.len() - 1 {
                            assert(p[k] == s@.subrange(start as int, i as int)[k]);
                        }
                    }
                }
                v = v * 16 + x;
                i = i + 1;
            },
        }
    }
    proof {
        assert(s@.subrange(start as int, i as int) =~= d);
    }
    Some(v)
}

/// A character that a backslash may escape, besides `u`.
fn escapable(c: char) -> (r: bool)
    ensures
        r == is_escapable(c),
{
    c == '\\' || c == '"' || c == '\'' || c == '/' || c == '\u{8}' || c == '\u{c}' || c == '\n'
        || c == '\r' || c == '\t'
}

/// Reads `s[lo..hi]` as a scalar.
pub fn read_string(s: &[char], lo: usize, hi: usize) -> (r: Result<JsonObject, Failure>)
    requires
        lo <= hi <= s@.len(),
    ensures
        result_json(r) == parse_string(s@.subrange(lo as int, hi as int)),
{
    let ghost x = s@.subrange(lo as int, hi as int);
    let (b, e) = match slice_trim_bounds(s, lo, hi) {
        None => {
            return Err(Failure::Undefined);
        },
        Some(p) => p,
    };
    let ghost v = slice_trim(x);
    proof {
        lemma_slice_trim_len(x);
        assert(v =~= s@.subrange(b as int, e as int));
    }
    if b == e {
        return Err(Failure::Refused(JsonError::EmptyString));
    }
    if e - b == 4 && s[b] == 'n' && s[b + 1] == 'u' && s[b + 2] == 'l' && s[b + 3] == 'l' {
        assert(v =~= null_text());
        return Ok(JsonObject::Null);
    }
    assert(v != null_text()) by {
        if v == null_text() {
            assert(v[0] == s@[b as int]);
            assert(v[1] == s@[b + 1]);
            assert(v[2] == s@[b + 2]);
            assert(v[3] == s@[b + 3]);
        }
    }
    let first = s[b];
    assert(v[0] == first);
    assert(v.last() == s@[e - 1]);
    let quoted = first == '"' || first == '\'';
    if quoted && s[e - 1] != first {
        return Err(Failure::Refused(JsonError::QuoteMismatch));
    }
    if quoted && e - b == 1 {
        return Err(Failure::Undefined);
    }
    let blo: usize = if quoted { b + 1 } else { b };
    let bhi: usize = if quoted { e - 1 } else { e };
    let closing: Option<char> = if quoted { Some(first) } else { None };
    let ghost body = s@.subrange(blo as int, bhi as int);
    proof {
        if quoted {
            assert(body =~= v.subrange(1, v.len() - 1));
        } else {
            assert(body =~= v);
        }
    }
    assert(parse_string(x) == match unescape_from(body, 0, closing, false, Seq::empty()) {
        Ok(text) => Ok(Json::Value(text)),
        Err(e) => Err(Failure::Refused(e)),
    });
    let mut out: Vec<char> = Vec::new();
    let mut escaping: bool = false;
    let mut i: usize = blo;
    while i < bhi
        invariant
            blo <= i <= bhi <= s@.len(),
            body == s@.subrange(blo as int, bhi as int),
            parse_string(s@.subrange(lo as int, hi as int)) == match unescape_from(
                body,
                0,
                closing,
                false,
                Seq::empty(),
            ) {
                Ok(text) => Ok(Json::Value(text)),
                Err(e) => Err(Failure::Refused(e)),
            },
            unescape_from(body, 0, closing, false, Seq::empty()) == unescape_from(
                body,
                i - blo,
                closing,
                escaping,
                out@,
            ),
        decreases bhi - i,
    {
        let c = s[i];
        let ghost j = i - blo;
        assert(body[j] == c);
        if char_is_control(c) {
            return Err(Failure::Refused(JsonError::ControlCharacter));
        } else if c == '\\' && !escaping {
            escaping = true;
            i = i + 1;
        } else if c == 'u' && escaping {
            let end: usize = if bhi - i >= 5 { i + 5 } else { bhi };
            assert(body.subrange(j + 1, end - blo) =~= s@.subrange(i + 1, end as int));
            match hex_number_in(s, i + 1, end) {
                None => {
                    return Err(Failure::Refused(JsonError::EscapeNotHex));
                },
                Some(u) => {
                    match char_from_code_point(u) {
                        None => {
                            return Err(Failure::Refused(JsonError::EscapeOutOfRange));
                        },
                        Some(ch) => {
                            out.push(ch);
                            escaping = false;
                            i = end;
                        },
                    }
                },
            }
        } else if escaping {
            if escapable(c) {
                out.push(c);
                escaping = false;
                i = i + 1;
            } else {
                return Err(Failure::Refused(JsonError::InvalidEscape));
            }
        } else if (c == '"' || c == '\'') && match closing {
            None => true,
            Some(q) => q == c,
        } {
            return Err(Failure::Refused(JsonError::UnescapedQuote));
        } else if c == ' ' && closing.is_none() {
            return Err(Failure::Refused(JsonError::UnquotedSpace));
        } else {
            out.push(c);
            i = i + 1;
        }
    }
    let text = string_of_chars(out.as_slice());
    Ok(JsonObject::Value { value: text })
}

} // verus!

verus! {

/// Each piece is a stretch of `s` from `start` on.
pub proof fn lemma_pieces(s: Seq<char>, cuts: Seq<int>, start: int)
    requires
        0 <= start,
        positions_within(cuts, start, s.len() as int),
    ensures
        forall|i: int|
            0 <= i < pieces(s, cuts, start).len() ==> #[trigger] pieces(s, cuts, start)[i].len()
                <= s.len() - start,
    decreases cuts.len(),
{
    if cuts.len() > 0 {
        let rest = cuts.drop_first();
        assert(positions_within(rest, cuts[0] + 1, s.len() as int)) by {
            assert forall|i: int| 0 <= i < rest.len() implies cuts[0] + 1 <= #[trigger] rest[i] < s.len() by {
                assert(rest[i] == cuts[i + 1]);
                assert(cuts[0] < cuts[i + 1]);
            }
            assert forall|i: int, j: int| 0 <= i < j < rest.len() implies #[trigger] rest[i] < #[trigger] rest[j] by {
                assert(rest[i] == cuts[i + 1]);
                assert(rest[j] == cuts[j + 1]);
            }
        }
        lemma_pieces(s, rest, cuts[0] + 1);
        let p = pieces(s, cuts, start);
        assert forall|i: int| 0 <= i < p.len() implies #[trigger] p[i].len() <= s.len() - start by {
            if i > 0 {
                assert(p[i] == pieces(s, rest, cuts[0] + 1)[i - 1]);
            }
        }
    }
}

/// The pieces after the `j`-th cut, starting after the previous one.
proof fn lemma_pieces_step(s: Seq<char>, cuts: Seq<int>, j: int, start: int)
    requires
        0 <= j < cuts.len(),
    ensures
        pieces(s, cuts.skip(j), start) == seq![s.subrange(start, cuts[j])] + pieces(
            s,
            cuts.skip(j + 1),
            cuts[j] + 1,
        ),
{
    assert(cuts.skip(j)[0] == cuts[j]);
    assert(cuts.skip(j).drop_first() =~= cuts.skip(j + 1));
}

/// Cut positions from the `j`-th on are within `s` after `start`.
proof fn lemma_cuts_suffix(cuts: Seq<int>, j: int, start: int, n: int)
    requires
        positions_within(cuts, 0, n),
        0 <= j <= cuts.len(),
        0 <= start,
        j < cuts.len() ==> start <= cuts[j],
    ensures
        positions_within(cuts.skip(j), start, n),
{
    let t = cuts.skip(j);
    assert forall|i: int| 0 <= i < t.len() implies start <= #[trigger] t[i] < n by {
        assert(t[i] == cuts[i + j]);
        if i > 0 {
            assert(cuts[j] < cuts[i + j]);
        }
    }
    assert forall|a: int, b: int| 0 <= a < b < t.len() implies #[trigger] t[a] < #[trigger] t[b] by {
        assert(t[a] == cuts[a + j]);
        assert(t[b] == cuts[b + j]);
    }
}

/// Reads `s[lo..hi]` as any value.
pub fn read_value(s: &[char], lo: usize, hi: usize) -> (r: Result<JsonObject, Failure>)
    requires
        lo <= hi <= s@.len(),
    ensures
        result_json(r) == parse_value(s@.subrange(lo as int, hi as int)),
    decreases hi - lo, 3int, 0int,
{
    let ghost x = s@.subrange(lo as int, hi as int);
    if lo == hi {
        read_string(s, lo, hi)
    } else {
        assert(x[0] == s@[lo as int]);
        if s[lo] == '[' {
            read_array(s, lo, hi)
        } else if s[lo] == '{' {
            read_object(s, lo, hi)
        } else {
            read_string(s, lo, hi)
        }
    }
}

/// The name that a key gives a field.
fn field_name(key: JsonObject) -> (r: Result<String, Failure>)
    ensures
        match key_name(key@) {
            Ok(n) => r matches Ok(m) && m@ == n,
            Err(f) => r == Err::<String, Failure>(f),
        },
{
    match key {
        JsonObject::Null => {
            let n = ['n', 'u', 'l', 'l'];
            assert(n@ =~= null_text());
            Ok(string_of_chars(n.as_slice()))
        },
        JsonObject::Value { value } => Ok(value),
        _ => Err(Failure::Refused(JsonError::UnexpectedKind)),
    }
}

/// Reads `s[lo..hi]` as a field `name: value`.
pub fn read_field(s: &[char], lo: usize, hi: usize) -> (r: Result<(String, JsonObject), Failure>)
    requires
        lo <= hi <= s@.len(),
    ensures
        result_field(r) == parse_field(s@.subrange(lo as int, hi as int)),
    decreases hi - lo, 0int, 0int,
{
    let ghost x = s@.subrange(lo as int, hi as int);
    let (b, e) = match slice_trim_bounds(s, lo, hi) {
        None => {
            return Err(Failure::Undefined);
        },
        Some(p) => p,
    };
    let ghost v = slice_trim(x);
    proof {
        lemma_slice_trim_len(x);
        assert(v =~= s@.subrange(b as int, e as int));
    }
    let colons = match find_chars_in(s, b, e, ':', true) {
        None => {
            return Err(Failure::Refused(JsonError::NotValidJson));
        },
        Some(cs) => cs,
    };
    if colons.len() == 0 {
        assert(as_ints(colons@) =~= Seq::<int>::empty());
        return Err(Failure::Refused(JsonError::NotValidJson));
    }
    let c = colons[0];
    proof {
        lemma_scan_positions(v, 0, scan_start(), ':', true);
        assert(as_ints(colons@)[0] == c as int);
        assert(v.take(c as int) =~= s@.subrange(b as int, b + c));
        assert(v.skip(c + 1) =~= s@.subrange(b + c + 1, e as int));
    }
    let whole = read_value(s, b, b + c);
    let container = match &whole {
        Ok(JsonObject::Object { .. }) => true,
        Ok(JsonObject::Array { .. }) => true,
        _ => false,
    };
    if container {
        return Err(Failure::Refused(JsonError::UnexpectedKind));
    }
    let key = match read_string(s, b, b + c) {
        Err(f) => {
            return Err(f);
        },
        Ok(k) => k,
    };
    let name = match field_name(key) {
        Err(f) => {
            return Err(f);
        },
        Ok(n) => n,
    };
    let (fb, fe) = match slice_trim_bounds(s, b + c + 1, e) {
        None => {
            return Err(Failure::Undefined);
        },
        Some(p) => p,
    };
    proof {
        let rest = s@.subrange(b + c + 1, e as int);
        lemma_slice_trim_len(rest);
        assert(slice_trim(rest) =~= s@.subrange(fb as int, fe as int));
    }
    let value = match read_value(s, fb, fe) {
        Err(f) => {
            return Err(f);
        },
        Ok(v) => v,
    };
    Ok((name, value))
}

/// The trimmed text between `open` and `close`, as bounds into `s`.
fn enclosed_bounds(s: &[char], lo: usize, hi: usize, open: char, close: char) -> (r: Option<Result<(usize, usize), Failure>>)
    requires
        lo <= hi <= s@.len(),
        open != close,
    ensures
        match enclosed(s@.subrange(lo as int, hi as int), open, close) {
            None => r is None,
            Some(Err(f)) => r == Some(Err::<(usize, usize), Failure>(f)),
            Some(Ok(inner)) => r matches Some(Ok((ib, ie))) && lo < ib <= ie < hi && s@.subrange(
                ib as int,
                ie as int,
            ) == inner,
        },
{
    let ghost x = s@.subrange(lo as int, hi as int);
    let (b, e) = match slice_trim_bounds(s, lo, hi) {
        None => {
            return Some(Err(Failure::Undefined));
        },
        Some(p) => p,
    };
    let ghost v = slice_trim(x);
    proof {
        lemma_slice_trim_len(x);
        assert(v =~= s@.subrange(b as int, e as int));
    }
    if b == e || s[b] != open || s[e - 1] != close {
        return None;
    }
    assert(v[0] == s@[b as int]);
    assert(v.last() == s@[e - 1]);
    assert(e - b >= 2);
    let ghost inner = v.subrange(1, v.len() - 1);
    assert(inner =~= s@.subrange(b + 1, e - 1));
    match slice_trim_bounds(s, b + 1, e - 1) {
        None => Some(Err(Failure::Undefined)),
        Some((ib, ie)) => {
            proof {
                lemma_slice_trim_len(inner);
                assert(slice_trim(inner) =~= s@.subrange(ib as int, ie as int));
            }
            Some(Ok((ib, ie)))
        },
    }
}

} // verus!

verus! {

/// Reads `s[lo..hi]` as an object.
pub fn read_object(s: &[char], lo: usize, hi: usize) -> (r: Result<JsonObject, Failure>)
    requires
        lo <= hi <= s@.len(),
    ensures
        result_json(r) == parse_object(s@.subrange(lo as int, hi as int)),
    decreases hi - lo, 2int, 0int,
{
    let ghost x = s@.subrange(lo as int, hi as int);
    let (ib, ie) = match enclosed_bounds(s, lo, hi, '{', '}') {
        None => {
            return Err(Failure::Refused(JsonError::NotValidJson));
        },
        Some(Err(f)) => {
            return Err(f);
        },
        Some(Ok(p)) => p,
    };
    let ghost inner = s@.subrange(ib as int, ie as int);
    if ib == ie {
        let fields = JsonMap::new();
        return Ok(JsonObject::Object { fields });
    }
    let commas = match find_chars_in(s, ib, ie, ',', false) {
        None => {
            return Err(Failure::Refused(JsonError::NotValidJson));
        },
        Some(cs) => cs,
    };
    let ghost cs = as_ints(commas@);
    let ghost bound = x.len() as int;
    let ghost n = (ie - ib) as int;
    proof {
        lemma_scan_positions(inner, 0, scan_start(), ',', false);
        assert(cs.skip(0) =~= cs);
        assert(enclosed(x, '{', '}') == Some(Ok::<Seq<char>, Failure>(inner)));
        assert(find_chars_spec(inner, ',', false) == Some(cs));
        assert(inner.len() > 0);
    }
    let mut fields = JsonMap::new();
    let mut start: usize = 0;
    let mut j: usize = 0;
    while j < commas.len()
        invariant
            lo < ib <= ie < hi <= s@.len(),
            x == s@.subrange(lo as int, hi as int),
            bound == x.len(),
            inner == s@.subrange(ib as int, ie as int),
            n == ie - ib,
            cs == as_ints(commas@),
            cs.len() == commas@.len(),
            positions_within(cs, 0, n),
            j <= commas@.len(),
            start <= n,
            j < cs.len() ==> start <= cs[j as int],
            parse_object(x) == match fields_from(pieces(inner, cs, 0), Seq::empty()) {
                Err(f) => Err(f),
                Ok(fs) => Ok(Json::Object(fs)),
            },
            fields_from(pieces(inner, cs, 0), Seq::empty()) == fields_from(
                pieces(inner, cs.skip(j as int), start as int),
                fields@,
            ),
        decreases commas@.len() - j,
    {
        let c = commas[j];
        assert(cs[j as int] == c as int);
        proof {
            lemma_cuts_suffix(cs, j as int, start as int, n);
            lemma_pieces(inner, cs.skip(j as int), start as int);
            lemma_pieces_step(inner, cs, j as int, start as int);
            assert(inner.subrange(start as int, c as int) =~= s@.subrange(ib + start, ib + c));
            let ps = pieces(inner, cs.skip(j as int), start as int);
            assert(ps[0] == inner.subrange(start as int, c as int));
            assert(ps.drop_first() =~= pieces(inner, cs.skip(j + 1), c + 1));
        }
        match read_field(s, ib + start, ib + c) {
            Err(f) => {
                return Err(f);
            },
            Ok((k, v)) => {
                fields.insert(k, v);
            },
        }
        start = c + 1;
        j = j + 1;
        proof {
            if j < cs.len() {
                assert(cs[j - 1] < cs[j as int]);
            }
        }
    }
    proof {
        lemma_cuts_suffix(cs, j as int, start as int, n);
        lemma_pieces(inner, cs.skip(j as int), start as int);
        assert(cs.skip(j as int) =~= Seq::<int>::empty());
    }
    if start < ie - ib {
        let ghost ps = pieces(inner, cs.skip(j as int), start as int);
        proof {
            assert(ps =~= seq![inner.subrange(start as int, n)]);
            assert(inner.subrange(start as int, n) =~= s@.subrange(ib + start, ie as int));
            assert(ps.drop_first() =~= Seq::<Seq<char>>::empty());
        }
        let ghost acc = fields@;
        match read_field(s, ib + start, ie) {
            Err(f) => {
                return Err(f);
            },
            Ok((k, v)) => {
                fields.insert(k, v);
                assert(fields_from(Seq::<Seq<char>>::empty(), fields@) == Ok::<Seq<(Seq<char>, Json)>, Failure>(fields@));
            },
        }
    } else {
        proof {
            let ps = pieces(inner, cs.skip(j as int), start as int);
            assert(ps =~= Seq::<Seq<char>>::empty());
        }
    }
    Ok(JsonObject::Object { fields })
}

/// Reads `s[lo..hi]` as one item of an array.
pub fn read_item(s: &[char], lo: usize, hi: usize) -> (r: Result<JsonObject, Failure>)
    requires
        lo <= hi <= s@.len(),
    ensures
        result_json(r) == parse_item(s@.subrange(lo as int, hi as int)),
    decreases hi - lo, 4int, 0int,
{
    let ghost seg = s@.subrange(lo as int, hi as int);
    let (db, de) = match slice_trim_bounds(s, lo, hi) {
        None => {
            return Err(Failure::Undefined);
        },
        Some(p) => p,
    };
    proof {
        lemma_slice_trim_len(seg);
        assert(slice_trim(seg) =~= s@.subrange(db as int, de as int));
    }
    if db == de {
        return Err(Failure::Undefined);
    }
    read_value(s, db, de)
}

/// Reads `s[lo..hi]` as an array.
pub fn read_array(s: &[char], lo: usize, hi: usize) -> (r: Result<JsonObject, Failure>)
    requires
        lo <= hi <= s@.len(),
    ensures
        result_json(r) == parse_array(s@.subrange(lo as int, hi as int)),
    decreases hi - lo, 2int, 0int,
{
    let ghost x = s@.subrange(lo as int, hi as int);
    let (ib, ie) = match enclosed_bounds(s, lo, hi, '[', ']') {
        None => {
            return Err(Failure::Refused(JsonError::NotValidJson));
        },
        Some(Err(f)) => {
            return Err(f);
        },
        Some(Ok(p)) => p,
    };
    let ghost inner = s@.subrange(ib as int, ie as int);
    if ib == ie {
        let array: Vec<JsonObject> = Vec::new();
        assert(view_list(array@) =~= Seq::<Json>::empty());
        return Ok(JsonObject::Array { array });
    }
    let commas = match find_chars_in(s, ib, ie, ',', false) {
        None => {
            return Err(Failure::Refused(JsonError::NotValidJson));
        },
        Some(cs) => cs,
    };
    let ghost cs = as_ints(commas@);
    let ghost bound = x.len() as int;
    let ghost n = (ie - ib) as int;
    let mut items: Vec<JsonObject> = Vec::new();
    proof {
        lemma_scan_positions(inner, 0, scan_start(), ',', false);
        assert(cs.skip(0) =~= cs);
        assert(view_list(items@) =~= Seq::<Json>::empty());
        assert(enclosed(x, '[', ']') == Some(Ok::<Seq<char>, Failure>(inner)));
        assert(find_chars_spec(inner, ',', false) == Some(cs));
    }
    let mut start: usize = 0;
    let mut j: usize = 0;
    while j < commas.len()
        invariant
            lo < ib <= ie < hi <= s@.len(),
            x == s@.subrange(lo as int, hi as int),
            bound == x.len(),
            inner == s@.subrange(ib as int, ie as int),
            n == ie - ib,
            cs == as_ints(commas@),
            cs.len() == commas@.len(),
            positions_within(cs, 0, n),
            j <= commas@.len(),
            start <= n,
            j < cs.len() ==> start <= cs[j as int],
            parse_array(x) == match items_from(pieces(inner, cs, 0), Seq::empty()) {
                Err(f) => Err(f),
                Ok(its) => Ok(Json::Array(its)),
            },
            items_from(pieces(inner, cs, 0), Seq::empty()) == items_from(
                pieces(inner, cs.skip(j as int), start as int),
                view_list(items@),
            ),
        decreases commas@.len() - j,
    {
        let c = commas[j];
        assert(cs[j as int] == c as int);
        proof {
            lemma_cuts_suffix(cs, j as int, start as int, n);
            lemma_pieces(inner, cs.skip(j as int), start as int);
            lemma_pieces_step(inner, cs, j as int, start as int);
            assert(inner.subrange(start as int, c as int) =~= s@.subrange(ib + start, ib + c));
            let ps = pieces(inner, cs.skip(j as int), start as int);
            assert(ps[0] == inner.subrange(start as int, c as int));
            assert(ps.drop_first() =~= pieces(inner, cs.skip(j + 1), c + 1));
        }
        let item = match read_item(s, ib + start, ib + c) {
            Err(f) => {
                return Err(f);
            },
            Ok(v) => v,
        };
        let ghost before = items@;
        items.push(item);
        proof {
            lemma_view_list(items@);
            lemma_view_list(before);
            assert(view_list(items@) =~= view_list(before).push(item@));
        }
        start = c + 1;
        j = j + 1;
        proof {
            if j < cs.len() {
                assert(cs[j - 1] < cs[j as int]);
            }
        }
    }
    proof {
        lemma_cuts_suffix(cs, j as int, start as int, n);
        lemma_pieces(inner, cs.skip(j as int), start as int);
        assert(cs.skip(j as int) =~= Seq::<int>::empty());
    }
    if start < ie - ib {
        proof {
            let ps = pieces(inner, cs.skip(j as int), start as int);
            assert(ps =~= seq![inner.subrange(start as int, n)]);
            assert(inner.subrange(start as int, n) =~= s@.subrange(ib + start, ie as int));
            assert(ps.drop_first() =~= Seq::<Seq<char>>::empty());
        }
        let item = match read_item(s, ib + start, ie) {
            Err(f) => {
                return Err(f);
            },
            Ok(v) => v,
        };
        let ghost before = items@;
        items.push(item);
        proof {
            lemma_view_list(items@);
            lemma_view_list(before);
            assert(view_list(items@) =~= view_list(before).push(item@));
            assert(items_from(Seq::<Seq<char>>::empty(), view_list(items@)) == Ok::<Seq<Json>, Failure>(view_list(items@)));
        }
    } else {
        proof {
            let ps = pieces(inner, cs.skip(j as int), start as int);
            assert(ps =~= Seq::<Seq<char>>::empty());
        }
    }
    Ok(JsonObject::Array { array: items })
}

} // verus!

verus! {

/// The reader is defined on the input: it gives a value or a refusal.
pub open spec fn defined<T>(p: Result<T, Failure>) -> bool {
    p != Err::<T, Failure>(Failure::Undefined)
}

/// The result answers the model: the model's value, or the message of its refusal.
pub open spec fn answers(r: Result<JsonObject, &str>, p: Result<Json, Failure>) -> bool {
    match p {
        Ok(j) => r matches Ok(o) && o@ == j,
        Err(Failure::Refused(e)) => r matches Err(m) && m@ == error_text(e),
        Err(Failure::Undefined) => false,
    }
}

fn publish(r: Result<JsonObject, Failure>) -> (out: Result<JsonObject, &'static str>)
    requires
        r != Err::<JsonObject, Failure>(Failure::Undefined),
    ensures
        answers(out, result_json(r)),
{
    match r {
        Ok(o) => Ok(o),
        Err(Failure::Refused(e)) => Err(e.message()),
        Err(Failure::Undefined) => {
            assert(false);
            Err(JsonError::NotValidJson.message())
        },
    }
}

/// Reads a scalar (see `parse_string`).
pub fn deserialize_string(value: &[char]) -> (r: Result<JsonObject, &'static str>)
    requires
        defined(parse_string(value@)),
    ensures
        answers(r, parse_string(value@)),
{
    assert(value@.subrange(0, value@.len() as int) =~= value@);
    publish(read_string(value, 0, value.len()))
}

/// Reads an array (see `parse_array`).
pub fn deserialize_array(value: &[char]) -> (r: Result<JsonObject, &'static str>)
    requires
        defined(parse_array(value@)),
    ensures
        answers(r, parse_array(value@)),
{
    assert(value@.subrange(0, value@.len() as int) =~= value@);
    publish(read_array(value, 0, value.len()))
}

/// Reads an object (see `parse_object`).
pub fn deserialize_object(value: &[char]) -> (r: Result<JsonObject, &'static str>)
    requires
        defined(parse_object(value@)),
    ensures
        answers(r, parse_object(value@)),
{
    assert(value@.subrange(0, value@.len() as int) =~= value@);
    publish(read_object(value, 0, value.len()))
}

/// Reads one field `name: value` of an object (see `parse_field`).
pub fn deserialize_field(value: &[char]) -> (r: Result<(String, JsonObject), &'static str>)
    requires
        defined(parse_field(value@)),
    ensures
        match parse_field(value@) {
            Ok((k, v)) => r matches Ok((name, o)) && name@ == k && o@ == v,
            Err(Failure::Refused(e)) => r matches Err(m) && m@ == error_text(e),
            Err(Failure::Undefined) => false,
        },
{
    assert(value@.subrange(0, value@.len() as int) =~= value@);
    match read_field(value, 0, value.len()) {
        Ok(p) => Ok(p),
        Err(Failure::Refused(e)) => Err(e.message()),
        Err(Failure::Undefined) => {
            assert(false);
            Err(JsonError::NotValidJson.message())
        },
    }
}

/// Reads a whole JSON text, or tells why it cannot (see `parse_text`).
pub fn read_text(value: &str) -> (r: Result<JsonObject, Failure>)
    ensures
        result_json(r) == parse_text(value@),
{
    let chars = chars_of_str(value);
    let (b, e) = ws_trim_bounds(chars.as_slice(), 0, chars.len());
    proof {
        assert(chars@.subrange(0, chars@.len() as int) =~= chars@);
    }
    if b == e {
        return Ok(JsonObject::Null);
    }
    let ghost t = trim_ws(value@);
    assert(t[0] == chars@[b as int]);
    if e - b == 1 && (chars[b] == '"' || chars[b] == '\'') {
        return Err(Failure::Refused(JsonError::NotValidJson));
    }
    read_value(chars.as_slice(), b, e)
}

impl JsonObject {
    /// Reads a JSON text (see `parse_text`).
    pub fn try_from(value: &str) -> (r: Result<JsonObject, &'static str>)
        requires
            defined(parse_text(value@)),
        ensures
            answers(r, parse_text(value@)),
    {
        publish(read_text(value))
    }
}

} // verus!
