//! Reading back what was written: the reader takes the writer's text back to the same
//! value wherever the value's strings avoid the C1 control characters, which the reader
//! refuses inside strings, and, inside objects and arrays, the single quotation mark,
//! which the separator scan takes for a string delimiter.
use vstd::prelude::*;
use crate::chars::{is_white_space, is_control, is_ascii_control, hex_digit_lower, hex_value, is_scalar_value};
use crate::json::{Json, JsonObject, keys_increasing, key_lt, sorted_insert, lemma_key_lt_irreflexive, lemma_key_lt_asymmetric, ordered, lemma_object_ordered};
use crate::number::{is_number_text, strip_sign, is_float_special, is_float_number, matches_word, is_mantissa, is_exponent, is_ascii_digit, all_digits, eq_ignore_case, is_exp_marker, lemma_integer_text_is_float_text};
use crate::parse::{parse_text, parse_value, parse_string, parse_field, parse_item, items_from, fields_from, pieces, enclosed, unescape_from, null_text, hex_number, hex_digits_value, all_hex, is_quote, is_escapable};
use crate::scan::{ScanState, scan_step, scan_from, scan_start, find_chars_spec};
use crate::serialize::{json_text, spec_serialize_string, escape_all, escape_char, join_texts, enclose, item_texts, field_texts, entry_text, lemma_item_texts, lemma_field_texts};
use crate::text::{slice_trim, slice_trim_fails, trim_ws, leading_ws, trailing_ws};
use crate::primitives::{int_text, nat_text, lemma_nat_text, int_from_json, law_int_json_round_trip, bool_text, bool_from_json, law_bool_json_round_trip, char_from_json, law_char_json_round_trip, string_from_json, law_string_json_round_trip};

verus! {

/// The scanner run over all of `seg` from `st`: the state it ends in, or `None` where it
/// meets a top-level `target` or an unmatched closing brace or bracket.
pub open spec fn scan_run(seg: Seq<char>, st: ScanState, target: char) -> Option<ScanState>
    decreases seg.len(),
{
    if seg.len() == 0 {
        Some(st)
    } else {
        match scan_step(st, seg[0], target) {
            None => None,
            Some((next, hit)) => if hit {
                None
            } else {
                scan_run(seg.drop_first(), next, target)
            },
        }
    }
}

/// A stretch that the scanner crosses without stopping can be skipped.
pub proof fn lemma_scan_skip(s: Seq<char>, i: int, seg: Seq<char>, st: ScanState, target: char, first: bool)
    requires
        0 <= i,
        i + seg.len() <= s.len(),
        s.subrange(i, i + seg.len()) == seg,
        scan_run(seg, st, target) is Some,
    ensures
        scan_from(s, i, st, target, first) == scan_from(
            s,
            i + seg.len(),
            scan_run(seg, st, target).unwrap(),
            target,
            first,
        ),
    decreases seg.len(),
{
    if seg.len() > 0 {
        assert(s[i] == seg[0]) by {
            assert(s.subrange(i, i + seg.len())[0] == s[i]);
        }
        let (next, hit) = scan_step(st, seg[0], target).unwrap();
        assert(s.subrange(i + 1, i + 1 + seg.drop_first().len()) =~= seg.drop_first()) by {
            assert forall|k: int| 0 <= k < seg.drop_first().len() implies s.subrange(
                i + 1,
                i + 1 + seg.drop_first().len(),
            )[k] == seg.drop_first()[k] by {
                assert(s.subrange(i, i + seg.len())[k + 1] == s[i + 1 + k]);
            }
        }
        lemma_scan_skip(s, i + 1, seg.drop_first(), next, target, first);
    }
}

/// Running over two stretches in a row.
pub proof fn lemma_scan_run_concat(a: Seq<char>, b: Seq<char>, st: ScanState, target: char)
    ensures
        scan_run(a + b, st, target) == match scan_run(a, st, target) {
            None => None,
            Some(mid) => scan_run(b, mid, target),
        },
    decreases a.len(),
{
    if a.len() == 0 {
        assert(a + b =~= b);
    } else {
        assert((a + b)[0] == a[0]);
        assert((a + b).drop_first() =~= a.drop_first() + b);
        match scan_step(st, a[0], target) {
            None => {},
            Some((next, hit)) => {
                if !hit {
                    lemma_scan_run_concat(a.drop_first(), b, next, target);
                }
            },
        }
    }
}


/// A character that the scanner and the reader pass over as it stands, whatever the
/// state: no white space, control character, quotation mark, brace, bracket,
/// backslash, comma or colon.
pub open spec fn neutral(c: char) -> bool {
    &&& !is_white_space(c)
    &&& !is_control(c)
    &&& c != '"'
    &&& c != '\''
    &&& c != '{'
    &&& c != '}'
    &&& c != '['
    &&& c != ']'
    &&& c != '\\'
    &&& c != ','
    &&& c != ':'
}

pub open spec fn all_neutral(s: Seq<char>) -> bool {
    forall|i: int| 0 <= i < s.len() ==> neutral(#[trigger] s[i])
}

/// The separators that the round trip is stated for.
pub open spec fn is_separator(t: char) -> bool {
    t == ',' || t == ':'
}

proof fn lemma_neutral_step(c: char, cl: Option<char>, o: nat, a: nat, t: char)
    requires
        neutral(c),
        is_separator(t),
    ensures
        scan_step((cl, false, o, a), c, t) == Some(((cl, false, o, a), false)),
{
}

pub proof fn lemma_scan_neutral(s: Seq<char>, cl: Option<char>, o: nat, a: nat, t: char)
    requires
        all_neutral(s),
        is_separator(t),
    ensures
        scan_run(s, (cl, false, o, a), t) == Some((cl, false, o, a)),
    decreases s.len(),
{
    if s.len() > 0 {
        lemma_neutral_step(s[0], cl, o, a, t);
        assert forall|i: int| 0 <= i < s.drop_first().len() implies neutral(#[trigger] s.drop_first()[i]) by {
            assert(s.drop_first()[i] == s[i + 1]);
        }
        lemma_scan_neutral(s.drop_first(), cl, o, a, t);
    }
}

proof fn lemma_digits_neutral(s: Seq<char>)
    requires
        all_digits(s),
    ensures
        all_neutral(s),
{
    assert forall|i: int| 0 <= i < s.len() implies neutral(#[trigger] s[i]) by {
        assert(is_ascii_digit(s[i]));
    }
}

proof fn lemma_word_neutral(s: Seq<char>, w: Seq<char>)
    requires
        matches_word(s, w),
        forall|i: int| 0 <= i < w.len() ==> 0x61 <= (#[trigger] w[i] as u32) <= 0x7a,
    ensures
        all_neutral(s),
{
    assert forall|i: int| 0 <= i < s.len() implies neutral(#[trigger] s[i]) by {
        assert(eq_ignore_case(s[i], w[i]));
        assert(0x61 <= (w[i] as u32) <= 0x7a);
    }
}

proof fn lemma_mantissa_neutral(m: Seq<char>)
    requires
        is_mantissa(m),
    ensures
        all_neutral(m),
        m.len() > 0,
{
    if m.len() > 0 && all_digits(m) {
        lemma_digits_neutral(m);
    } else {
        let p = choose|p: int|
            0 <= p < m.len() && #[trigger] m[p] == '.' && all_digits(m.take(p)) && all_digits(
                m.skip(p + 1),
            ) && m.len() > 1;
        assert forall|i: int| 0 <= i < m.len() implies neutral(#[trigger] m[i]) by {
            if i < p {
                assert(m.take(p)[i] == m[i]);
                assert(is_ascii_digit(m.take(p)[i]));
            } else if i > p {
                assert(m.skip(p + 1)[i - p - 1] == m[i]);
                assert(is_ascii_digit(m.skip(p + 1)[i - p - 1]));
            }
        }
    }
}

/// The text of a number is made of neutral characters, and is not empty.
pub proof fn lemma_number_neutral(v: Seq<char>)
    requires
        is_number_text(v),
    ensures
        all_neutral(v),
        v.len() > 0,
        v != null_text(),
{
    lemma_integer_text_is_float_text(v);
    let b = strip_sign(v);
    let off: int = if v.len() > 0 && (v[0] == '+' || v[0] == '-') { 1 } else { 0 };
    assert(b =~= v.skip(off));
    if is_float_special(b) {
        if matches_word(b, seq!['i', 'n', 'f']) {
            lemma_word_neutral(b, seq!['i', 'n', 'f']);
        } else if matches_word(b, seq!['i', 'n', 'f', 'i', 'n', 'i', 't', 'y']) {
            lemma_word_neutral(b, seq!['i', 'n', 'f', 'i', 'n', 'i', 't', 'y']);
        } else {
            lemma_word_neutral(b, seq!['n', 'a', 'n']);
        }
    } else {
        if is_mantissa(b) {
            lemma_mantissa_neutral(b);
        } else {
            let k = choose|k: int|
                0 <= k < b.len() && is_exp_marker(#[trigger] b[k]) && is_mantissa(b.take(k))
                    && is_exponent(b.skip(k + 1));
            lemma_mantissa_neutral(b.take(k));
            let x = b.skip(k + 1);
            let xs = strip_sign(x);
            let xo: int = if x.len() > 0 && (x[0] == '+' || x[0] == '-') { 1 } else { 0 };
            assert(xs =~= x.skip(xo));
            lemma_digits_neutral(xs);
            assert forall|i: int| 0 <= i < b.len() implies neutral(#[trigger] b[i]) by {
                if i < k {
                    assert(b.take(k)[i] == b[i]);
                } else if i > k {
                    assert(x[i - k - 1] == b[i]);
                    if i - k - 1 >= xo {
                        assert(xs[i - k - 1 - xo] == x[i - k - 1]);
                    }
                }
            }
        }
    }
    assert forall|i: int| 0 <= i < v.len() implies neutral(#[trigger] v[i]) by {
        if i >= off {
            assert(b[i - off] == v[i]);
        }
    }
    if v == null_text() {
        assert(v[0] == 'n');
        assert(off == 0);
        assert(b == v);
        assert(!matches_word(b, seq!['i', 'n', 'f'])) by {
            assert(!eq_ignore_case(b[0], 'i'));
        }
        assert(!matches_word(b, seq!['i', 'n', 'f', 'i', 'n', 'i', 't', 'y']));
        assert(!matches_word(b, seq!['n', 'a', 'n']));
        assert(!is_ascii_digit(b[0]));
        assert(!is_mantissa(b)) by {
            if exists|p: int|
                0 <= p < b.len() && #[trigger] b[p] == '.' && all_digits(b.take(p)) && all_digits(
                    b.skip(p + 1),
                ) && b.len() > 1 {
                let p = choose|p: int|
                    0 <= p < b.len() && #[trigger] b[p] == '.' && all_digits(b.take(p))
                        && all_digits(b.skip(p + 1)) && b.len() > 1;
                if p > 0 {
                    assert(b.take(p)[0] == b[0]);
                }
            }
        }
        assert(!is_float_number(b)) by {
            if exists|k: int|
                0 <= k < b.len() && is_exp_marker(#[trigger] b[k]) && is_mantissa(b.take(k))
                    && is_exponent(b.skip(k + 1)) {
                let k = choose|k: int|
                    0 <= k < b.len() && is_exp_marker(#[trigger] b[k]) && is_mantissa(b.take(k))
                        && is_exponent(b.skip(k + 1));
                assert(b[k] == v[k]);
            }
        }
    }
}

/// A text that starts and ends with non-white-space characters is left as it is by both
/// trims.
pub proof fn lemma_trim_keeps(s: Seq<char>)
    requires
        s.len() > 0,
        !is_white_space(s[0]),
        !is_white_space(s.last()),
    ensures
        !slice_trim_fails(s),
        slice_trim(s) == s,
        trim_ws(s) == s,
{
    assert(leading_ws(s) == 0);
    assert(trailing_ws(s) == 0);
    assert(s.subrange(0, s.len() as int) =~= s);
}

/// Unescaping passes over neutral characters as they stand.
pub proof fn lemma_unescape_neutral(b: Seq<char>, i: int, cl: Option<char>, out: Seq<char>)
    requires
        0 <= i <= b.len(),
        forall|k: int| i <= k < b.len() ==> neutral(#[trigger] b[k]),
    ensures
        unescape_from(b, i, cl, false, out) == Ok::<Seq<char>, crate::error::JsonError>(out + b.subrange(i, b.len() as int)),
    decreases b.len() - i,
{
    if i < b.len() {
        assert(neutral(b[i]));
        lemma_unescape_neutral(b, i + 1, cl, out.push(b[i]));
        assert(out.push(b[i]) + b.subrange(i + 1, b.len() as int) =~= out + b.subrange(i, b.len() as int));
    } else {
        assert(b.subrange(i, b.len() as int) =~= Seq::<char>::empty());
        assert(out + Seq::<char>::empty() =~= out);
    }
}

/// A number's text reads back as itself.
pub proof fn lemma_number_reads_back(v: Seq<char>)
    requires
        is_number_text(v),
    ensures
        parse_value(v) == Ok::<Json, crate::error::Failure>(Json::Value(v)),
{
    lemma_number_neutral(v);
    lemma_trim_keeps(v);
    assert(neutral(v[0]));
    lemma_unescape_neutral(v, 0, None, Seq::empty());
    assert(Seq::<char>::empty() + v.subrange(0, v.len() as int) =~= v);
}


/// A character that a quoted string carries through the reader: anything but a C1
/// control character, which the writer leaves as it is and the reader refuses.
pub open spec fn quotable_char(c: char) -> bool {
    !(0x80 <= (c as u32) <= 0x9F)
}

pub open spec fn quotable_text(s: Seq<char>) -> bool {
    forall|i: int| 0 <= i < s.len() ==> quotable_char(#[trigger] s[i])
}

/// A character that survives a trip through a quoted string inside any JSON text: a
/// quotable character that is not a single quotation mark, which the separator scan
/// takes for a string delimiter.
pub open spec fn plain_char(c: char) -> bool {
    c != '\'' && quotable_char(c)
}

pub open spec fn plain_text(s: Seq<char>) -> bool {
    forall|i: int| 0 <= i < s.len() ==> plain_char(#[trigger] s[i])
}

pub proof fn lemma_plain_quotable(s: Seq<char>)
    requires
        plain_text(s),
    ensures
        quotable_text(s),
{
    assert forall|i: int| 0 <= i < s.len() implies quotable_char(#[trigger] s[i]) by {
        assert(plain_char(s[i]));
    }
}

pub proof fn lemma_escape_all_concat(a: Seq<char>, b: Seq<char>)
    ensures
        escape_all(a + b) == escape_all(a) + escape_all(b),
    decreases b.len(),
{
    if b.len() == 0 {
        assert(a + b =~= a);
        assert(escape_all(a) + Seq::<char>::empty() =~= escape_all(a));
    } else {
        assert((a + b).drop_last() =~= a + b.drop_last());
        assert((a + b).last() == b.last());
        lemma_escape_all_concat(a, b.drop_last());
        assert(escape_all(a) + escape_all(b.drop_last()) + escape_char(b.last()) =~= escape_all(a)
            + (escape_all(b.drop_last()) + escape_char(b.last())));
    }
}

proof fn lemma_hex_digit_value(n: nat)
    requires
        n < 16,
    ensures
        hex_value(hex_digit_lower(n)) == Some(n as u32),
{
}

proof fn lemma_hex_four(a: nat, b: nat)
    requires
        a < 16,
        b < 16,
    ensures
        hex_number(seq!['0', '0', hex_digit_lower(a), hex_digit_lower(b)]) == Some((a * 16 + b) as u32),
{
    let h = seq!['0', '0', hex_digit_lower(a), hex_digit_lower(b)];
    let h1 = seq!['0'];
    let h2 = seq!['0', '0'];
    let h3 = seq!['0', '0', hex_digit_lower(a)];
    lemma_hex_digit_value(a);
    lemma_hex_digit_value(b);
    assert(h[0] != '+');
    assert(all_hex(h)) by {
        assert forall|i: int| 0 <= i < h.len() implies #[trigger] hex_value(h[i]) is Some by {
            if i >= 2 {
            }
        }
    }
    assert(h1.drop_last() =~= Seq::<char>::empty());
    assert(h2.drop_last() =~= h1);
    assert(h3.drop_last() =~= h2);
    assert(h.drop_last() =~= h3);
    assert(hex_digits_value(Seq::<char>::empty()) == 0);
    assert(hex_digits_value(h1) == 0);
    assert(hex_digits_value(h2) == 0);
    assert(hex_digits_value(h3) == a);
    assert(hex_digits_value(h) == a * 16 + b);
}

/// Unescaping one written character gives it back.
proof fn lemma_unescape_char(s: Seq<char>, i: int, c: char, out: Seq<char>)
    requires
        quotable_char(c),
        0 <= i,
        i + escape_char(c).len() <= s.len(),
        s.subrange(i, i + escape_char(c).len()) == escape_char(c),
    ensures
        unescape_from(s, i, Some('"'), false, out) == unescape_from(
            s,
            i + escape_char(c).len(),
            Some('"'),
            false,
            out.push(c),
        ),
{
    let e = escape_char(c);
    let cl = Some('"');
    assert forall|k: int| 0 <= k < e.len() implies s[i + k] == #[trigger] e[k] by {
        assert(s.subrange(i, i + e.len())[k] == s[i + k]);
    }
    if c == '\\' || c == '"' {
        assert(e[0] == '\\' && e[1] == c);
        assert(s[i] == '\\');
        assert(s[i + 1] == c);
        assert(is_escapable(c));
        assert(unescape_from(s, i, cl, false, out) == unescape_from(s, i + 1, cl, true, out));
        assert(unescape_from(s, i + 1, cl, true, out) == unescape_from(s, i + 2, cl, false, out.push(c)));
    } else if is_ascii_control(c) {
        let u = c as u32;
        assert(e[0] == '\\' && e[1] == 'u' && e[2] == '0' && e[3] == '0');
        assert(s[i] == '\\');
        assert(s[i + 1] == 'u');
        let h = s.subrange(i + 2, i + 6);
        assert(h[0] == s[i + 2] && h[1] == s[i + 3] && h[2] == s[i + 4] && h[3] == s[i + 5]);
        assert(e[4] == hex_digit_lower((u / 16) as nat));
        assert(e[5] == hex_digit_lower((u % 16) as nat));
        assert(h =~= seq!['0', '0', hex_digit_lower((u / 16) as nat), hex_digit_lower((u % 16) as nat)]);
        lemma_hex_four((u / 16) as nat, (u % 16) as nat);
        assert(hex_number(h) == Some(u));
        assert(is_scalar_value(u));
        assert((u as char) == c);
        assert(unescape_from(s, i, cl, false, out) == unescape_from(s, i + 1, cl, true, out));
        assert(unescape_from(s, i + 1, cl, true, out) == unescape_from(s, i + 6, cl, false, out.push(c)));
    } else {
        assert(e[0] == c);
        assert(s[i] == c);
        assert(!is_control(c));
        assert(unescape_from(s, i, cl, false, out) == unescape_from(s, i + 1, cl, false, out.push(c)));
    }
}

/// Unescaping the written form of a plain text gives the text back.
pub proof fn lemma_unescape_written(v: Seq<char>, w: Seq<char>, k: int, out: Seq<char>)
    requires
        quotable_text(v),
        0 <= k <= v.len(),
        w == escape_all(v),
    ensures
        unescape_from(w, escape_all(v.take(k)).len() as int, Some('"'), false, out) == Ok::<Seq<char>, crate::error::JsonError>(out + v.skip(k)),
    decreases v.len() - k,
{
    if k == v.len() {
        assert(v.take(k) =~= v);
        assert(v.skip(k) =~= Seq::<char>::empty());
        assert(out + Seq::<char>::empty() =~= out);
    } else {
        let c = v[k];
        let pre = escape_all(v.take(k));
        assert(v.take(k + 1).drop_last() =~= v.take(k));
        assert(v.take(k + 1).last() == c);
        assert(escape_all(v.take(k + 1)) == pre + escape_char(c));
        assert(v =~= v.take(k + 1) + v.skip(k + 1));
        lemma_escape_all_concat(v.take(k + 1), v.skip(k + 1));
        assert(w == pre + escape_char(c) + escape_all(v.skip(k + 1)));
        assert(w.subrange(pre.len() as int, (pre.len() + escape_char(c).len()) as int) =~= escape_char(c));
        assert(quotable_char(c));
        lemma_unescape_char(w, pre.len() as int, c, out);
        lemma_unescape_written(v, w, k + 1, out.push(c));
        assert(out.push(c) + v.skip(k + 1) =~= out + v.skip(k));
    }
}

/// A quotable text, written as a quoted string, reads back as itself.
pub proof fn lemma_string_reads_back(v: Seq<char>)
    requires
        quotable_text(v),
    ensures
        parse_value(spec_serialize_string(v)) == Ok::<Json, crate::error::Failure>(Json::Value(v)),
{
    let t = spec_serialize_string(v);
    lemma_trim_keeps(t);
    assert(t[0] == '"');
    assert(t.last() == '"');
    assert(t.subrange(1, t.len() - 1) =~= escape_all(v));
    assert(v.take(0) =~= Seq::<char>::empty());
    assert(escape_all(Seq::<char>::empty()).len() == 0);
    lemma_unescape_written(v, escape_all(v), 0, Seq::empty());
    assert(Seq::<char>::empty() + v.skip(0) =~= v);
    assert(t != null_text()) by {
        assert(t[0] != null_text()[0]);
    }
}

/// The scanner crosses the written form of a plain character inside a string.
proof fn lemma_scan_escape_char(c: char, o: nat, a: nat, t: char)
    requires
        plain_char(c),
        is_separator(t),
    ensures
        scan_run(escape_char(c), (Some('"'), false, o, a), t) == Some((Some('"'), false, o, a)),
{
    let st = (Some('"'), false, o, a);
    let esc = (Some('"'), true, o, a);
    let e = escape_char(c);
    let empty = Seq::<char>::empty();
    assert(scan_run(empty, st, t) == Some(st));
    if c == '\\' || c == '"' {
        let e1 = seq![c];
        assert(e.drop_first() =~= e1);
        assert(e1.drop_first() =~= empty);
        assert(scan_step(esc, c, t) == Some((st, false)));
        assert(scan_run(e1, esc, t) == Some(st));
        assert(scan_step(st, '\\', t) == Some((esc, false)));
        assert(scan_run(e, st, t) == Some(st));
    } else if is_ascii_control(c) {
        let u = c as u32;
        let d1 = hex_digit_lower((u / 16) as nat);
        let d2 = hex_digit_lower((u % 16) as nat);
        let e5 = seq![d2];
        let e4 = seq![d1, d2];
        let e3 = seq!['0', d1, d2];
        let e2 = seq!['0', '0', d1, d2];
        let e1 = seq!['u', '0', '0', d1, d2];
        assert(e.drop_first() =~= e1);
        assert(e1.drop_first() =~= e2);
        assert(e2.drop_first() =~= e3);
        assert(e3.drop_first() =~= e4);
        assert(e4.drop_first() =~= e5);
        assert(e5.drop_first() =~= empty);
        assert(scan_run(e5, st, t) == Some(st));
        assert(scan_run(e4, st, t) == Some(st));
        assert(scan_run(e3, st, t) == Some(st));
        assert(scan_run(e2, st, t) == Some(st));
        assert(scan_step(esc, 'u', t) == Some((st, false)));
        assert(scan_run(e1, esc, t) == Some(st));
        assert(scan_run(e, st, t) == Some(st));
    } else {
        assert(e.drop_first() =~= empty);
        assert(scan_step(st, c, t) == Some((st, false)));
        assert(scan_run(e, st, t) == Some(st));
    }
}

proof fn lemma_scan_escape_all(v: Seq<char>, o: nat, a: nat, t: char)
    requires
        plain_text(v),
        is_separator(t),
    ensures
        scan_run(escape_all(v), (Some('"'), false, o, a), t) == Some((Some('"'), false, o, a)),
    decreases v.len(),
{
    if v.len() > 0 {
        assert forall|i: int| 0 <= i < v.drop_last().len() implies plain_char(#[trigger] v.drop_last()[i]) by {
            assert(v.drop_last()[i] == v[i]);
        }
        lemma_scan_escape_all(v.drop_last(), o, a, t);
        lemma_scan_run_concat(escape_all(v.drop_last()), escape_char(v.last()), (Some('"'), false, o, a), t);
        lemma_scan_escape_char(v.last(), o, a, t);
    }
}

/// The scanner crosses a written plain string and comes back to where it was.
pub proof fn lemma_scan_string(v: Seq<char>, o: nat, a: nat, t: char)
    requires
        plain_text(v),
        is_separator(t),
    ensures
        scan_run(spec_serialize_string(v), (None, false, o, a), t) == Some((None::<char>, false, o, a)),
{
    let st = (None::<char>, false, o, a);
    let ins = (Some('"'), false, o, a);
    let q = seq!['"'];
    let empty = Seq::<char>::empty();
    assert(q.drop_first() =~= empty);
    assert(q[0] == '"');
    assert(scan_run(empty, ins, t) == Some(ins));
    assert(scan_run(empty, st, t) == Some(st));
    assert(scan_step(st, '"', t) == Some((ins, false)));
    assert(scan_run(q, st, t) == Some(ins));
    assert(scan_step(ins, '"', t) == Some((st, false)));
    assert(scan_run(q, ins, t) == Some(st));
    lemma_scan_run_concat(q, escape_all(v), st, t);
    lemma_scan_escape_all(v, o, a, t);
    lemma_scan_run_concat(q + escape_all(v), q, st, t);
}

} // verus!

verus! {

/// A value whose written text the reader takes back unchanged: its strings and names are
/// plain texts (numbers may be written bare), and its objects' names are in increasing
/// order, as the reader keeps them.
pub open spec fn plain(j: Json) -> bool
    decreases j,
{
    match j {
        Json::Null => true,
        Json::Value(v) => is_number_text(v) || plain_text(v),
        Json::Object(fields) => keys_increasing(fields) && forall|i: int|
            0 <= i < fields.len() ==> plain_text(#[trigger] fields[i].0) && plain(fields[i].1),
        Json::Array(items) => forall|i: int| 0 <= i < items.len() ==> plain(#[trigger] items[i]),
    }
}

/// A join of two or more parts is the first part, the separator, and the join of the rest.
pub proof fn lemma_join_front(parts: Seq<Seq<char>>, sep: char)
    requires
        parts.len() >= 2,
    ensures
        join_texts(parts, sep) == parts[0] + seq![sep] + join_texts(parts.drop_first(), sep),
    decreases parts.len(),
{
    if parts.len() == 2 {
        assert(parts.drop_last().len() == 1);
        assert(join_texts(parts.drop_last(), sep) == parts[0]);
        assert(parts.drop_first().len() == 1);
        assert(join_texts(parts.drop_first(), sep) == parts[1]);
    } else {
        lemma_join_front(parts.drop_last(), sep);
        assert(parts.drop_last().drop_first() =~= parts.drop_first().drop_last());
        assert(parts.drop_first().last() == parts.last());
        assert(join_texts(parts.drop_first(), sep) == join_texts(parts.drop_first().drop_last(), sep)
            + seq![sep] + parts.drop_first().last());
        assert(parts.drop_last()[0] == parts[0]);
        assert(join_texts(parts, sep) =~= parts[0] + seq![sep] + join_texts(parts.drop_first(), sep));
    }
}

/// A join of non-empty parts starts with the first part's first character and ends with
/// the last part's last character.
pub proof fn lemma_join_edges(parts: Seq<Seq<char>>, sep: char)
    requires
        parts.len() >= 1,
        forall|i: int| 0 <= i < parts.len() ==> (#[trigger] parts[i]).len() > 0,
    ensures
        join_texts(parts, sep).len() > 0,
        join_texts(parts, sep)[0] == parts[0][0],
        join_texts(parts, sep).last() == parts.last().last(),
    decreases parts.len(),
{
    assert(parts[0].len() > 0);
    assert(parts.last().len() > 0);
    if parts.len() > 1 {
        lemma_join_edges(parts.drop_last(), sep);
        assert(parts.drop_last()[0] == parts[0]);
        let j = join_texts(parts.drop_last(), sep);
        assert((j + seq![sep] + parts.last())[0] == j[0]);
    }
}

/// Every written text is non-empty and starts and ends with a character that is not white
/// space.
pub proof fn lemma_text_edges(j: Json)
    ensures
        json_text(j).len() > 0,
        !is_white_space(json_text(j)[0]),
        !is_white_space(json_text(j).last()),
        json_text(j).len() == 1 ==> !is_quote(json_text(j)[0]),
{
    let t = json_text(j);
    match j {
        Json::Null => {},
        Json::Value(v) => {
            if is_number_text(v) {
                lemma_number_neutral(v);
                assert(neutral(v[0]));
                assert(neutral(v[v.len() - 1]));
            }
        },
        Json::Object(fields) => {
            if fields.len() > 0 {
                assert(t[0] == '{');
                assert(t.last() == '}');
            }
        },
        Json::Array(items) => {
            if items.len() > 0 {
                assert(t[0] == '[');
                assert(t.last() == ']');
            }
        },
    }
}

/// The scanner, in a state outside strings, crosses a join of parts that each bring it
/// back to that state, when the separator leaves it there too.
pub proof fn lemma_scan_join(parts: Seq<Seq<char>>, sep: char, st: ScanState, t: char)
    requires
        forall|i: int| 0 <= i < parts.len() ==> scan_run(#[trigger] parts[i], st, t) == Some(st),
        scan_step(st, sep, t) == Some((st, false)),
    ensures
        scan_run(join_texts(parts, sep), st, t) == Some(st),
    decreases parts.len(),
{
    if parts.len() == 0 {
    } else if parts.len() == 1 {
        assert(scan_run(parts[0], st, t) == Some(st));
    } else {
        let init = parts.drop_last();
        assert forall|i: int| 0 <= i < init.len() implies scan_run(#[trigger] init[i], st, t) == Some(st) by {
            assert(init[i] == parts[i]);
        }
        lemma_scan_join(init, sep, st, t);
        let s1 = seq![sep];
        assert(s1.drop_first() =~= Seq::<char>::empty());
        assert(s1[0] == sep);
        assert(scan_run(Seq::<char>::empty(), st, t) == Some(st));
        assert(scan_run(s1, st, t) == Some(st));
        assert(scan_run(parts.last(), st, t) == Some(st)) by {
            assert(parts.last() == parts[parts.len() - 1]);
        }
        lemma_scan_run_concat(join_texts(init, sep), s1, st, t);
        lemma_scan_run_concat(join_texts(init, sep) + s1, parts.last(), st, t);
    }
}

} // verus!

verus! {

proof fn lemma_scan_one(c: char, st: ScanState, next: ScanState, t: char)
    requires
        scan_step(st, c, t) == Some((next, false)),
    ensures
        scan_run(seq![c], st, t) == Some(next),
{
    let s1 = seq![c];
    assert(s1.drop_first() =~= Seq::<char>::empty());
    assert(s1[0] == c);
    assert(scan_run(Seq::<char>::empty(), next, t) == Some(next));
}

/// The scanner crosses a written field and comes back to where it was, unless the field's
/// colon is the separator it looks for at the top level.
pub proof fn lemma_scan_entry(name: Seq<char>, vt: Seq<char>, o: nat, a: nat, t: char)
    requires
        plain_text(name),
        is_separator(t),
        t == ',' || o > 0 || a > 0,
        scan_run(vt, (None, false, o, a), t) == Some((None::<char>, false, o, a)),
    ensures
        scan_run(entry_text(name, vt), (None, false, o, a), t) == Some((None::<char>, false, o, a)),
{
    let st = (None::<char>, false, o, a);
    lemma_scan_string(name, o, a, t);
    assert(scan_step(st, ':', t) == Some((st, false)));
    lemma_scan_one(':', st, st, t);
    lemma_scan_run_concat(spec_serialize_string(name), seq![':'], st, t);
    lemma_scan_run_concat(spec_serialize_string(name) + seq![':'], vt, st, t);
}

/// The scanner crosses the written text of a plain value and comes back to where it was:
/// every separator in it stands inside a string, an object or an array of its own.
pub proof fn lemma_scan_balanced(j: Json, o: nat, a: nat, t: char)
    requires
        plain(j),
        is_separator(t),
    ensures
        scan_run(json_text(j), (None, false, o, a), t) == Some((None::<char>, false, o, a)),
    decreases j,
{
    let st = (None::<char>, false, o, a);
    match j {
        Json::Null => {
            assert(all_neutral(json_text(j))) by {
                assert forall|i: int| 0 <= i < json_text(j).len() implies neutral(#[trigger] json_text(j)[i]) by {
                    assert(json_text(j) == seq!['n', 'u', 'l', 'l']);
                }
            }
            lemma_scan_neutral(json_text(j), None, o, a, t);
        },
        Json::Value(v) => {
            if is_number_text(v) {
                lemma_number_neutral(v);
                lemma_scan_neutral(v, None, o, a, t);
            } else {
                lemma_scan_string(v, o, a, t);
            }
        },
        Json::Object(fields) => {
            let inner = (None::<char>, false, o + 1, a);
            assert(scan_step(st, '{', t) == Some((inner, false)));
            assert(scan_step(inner, '}', t) == Some((st, false)));
            lemma_scan_one('{', st, inner, t);
            lemma_scan_one('}', inner, st, t);
            if fields.len() == 0 {
                lemma_scan_run_concat(seq!['{'], seq!['}'], st, t);
                assert(json_text(j) =~= seq!['{'] + seq!['}']);
            } else {
                let parts = field_texts(fields);
                lemma_field_texts(fields);
                assert forall|i: int| 0 <= i < parts.len() implies scan_run(#[trigger] parts[i], inner, t) == Some(inner) by {
                    assert(plain_text(fields[i].0) && plain(fields[i].1));
                    lemma_scan_balanced(fields[i].1, o + 1, a, t);
                    lemma_scan_entry(fields[i].0, json_text(fields[i].1), o + 1, a, t);
                }
                assert(scan_step(inner, ',', t) == Some((inner, false)));
                lemma_scan_join(parts, ',', inner, t);
                lemma_scan_run_concat(seq!['{'], join_texts(parts, ','), st, t);
                lemma_scan_run_concat(seq!['{'] + join_texts(parts, ','), seq!['}'], st, t);
            }
        },
        Json::Array(items) => {
            let inner = (None::<char>, false, o, a + 1);
            assert(scan_step(st, '[', t) == Some((inner, false)));
            assert(scan_step(inner, ']', t) == Some((st, false)));
            lemma_scan_one('[', st, inner, t);
            lemma_scan_one(']', inner, st, t);
            if items.len() == 0 {
                lemma_scan_run_concat(seq!['['], seq![']'], st, t);
                assert(json_text(j) =~= seq!['['] + seq![']']);
            } else {
                let parts = item_texts(items);
                lemma_item_texts(items);
                assert forall|i: int| 0 <= i < parts.len() implies scan_run(#[trigger] parts[i], inner, t) == Some(inner) by {
                    assert(plain(items[i]));
                    lemma_scan_balanced(items[i], o, a + 1, t);
                }
                assert(scan_step(inner, ',', t) == Some((inner, false)));
                lemma_scan_join(parts, ',', inner, t);
                lemma_scan_run_concat(seq!['['], join_texts(parts, ','), st, t);
                lemma_scan_run_concat(seq!['['] + join_texts(parts, ','), seq![']'], st, t);
            }
        },
    }
}

} // verus!

verus! {

/// Where the separators stand in a join of `parts` that starts at position `base`.
pub open spec fn cut_points(parts: Seq<Seq<char>>, base: int) -> Seq<int>
    decreases parts.len(),
{
    if parts.len() <= 1 {
        Seq::empty()
    } else {
        seq![base + parts[0].len()] + cut_points(parts.drop_first(), base + parts[0].len() + 1)
    }
}

/// Splitting a join at its front.
pub proof fn lemma_join_split(s: Seq<char>, i: int, parts: Seq<Seq<char>>)
    requires
        0 <= i <= s.len(),
        parts.len() >= 2,
        s.subrange(i, s.len() as int) == join_texts(parts, ','),
    ensures
        i + parts[0].len() < s.len(),
        s.subrange(i, i + parts[0].len()) == parts[0],
        s[i + parts[0].len()] == ',',
        s.subrange(i + parts[0].len() + 1, s.len() as int) == join_texts(parts.drop_first(), ','),
{
    lemma_join_front(parts, ',');
    let p0 = parts[0];
    let m = i + p0.len();
    let j = join_texts(parts, ',');
    let rest = join_texts(parts.drop_first(), ',');
    assert(j.len() == p0.len() + 1 + rest.len());
    assert(s.subrange(i, m) =~= p0) by {
        assert forall|k: int| 0 <= k < p0.len() implies s.subrange(i, m)[k] == p0[k] by {
            assert(s.subrange(i, s.len() as int)[k] == j[k]);
        }
    }
    assert(s[m] == ',') by {
        assert(s.subrange(i, s.len() as int)[p0.len() as int] == j[p0.len() as int]);
    }
    assert(s.subrange(m + 1, s.len() as int) =~= rest) by {
        assert forall|k: int| 0 <= k < rest.len() implies s.subrange(m + 1, s.len() as int)[k] == rest[k] by {
            assert(s.subrange(i, s.len() as int)[p0.len() + 1 + k] == j[p0.len() + 1 + k]);
        }
    }
}

/// The top-level commas of a join of parts that the scanner crosses are exactly the
/// separators of the join.
pub proof fn lemma_find_cuts(s: Seq<char>, i: int, parts: Seq<Seq<char>>)
    requires
        0 <= i <= s.len(),
        parts.len() >= 1,
        s.subrange(i, s.len() as int) == join_texts(parts, ','),
        forall|k: int| 0 <= k < parts.len() ==> scan_run(#[trigger] parts[k], scan_start(), ',') == Some(scan_start()),
    ensures
        scan_from(s, i, scan_start(), ',', false) == Some(cut_points(parts, i)),
    decreases parts.len(),
{
    let st0 = scan_start();
    let p0 = parts[0];
    assert(scan_run(p0, st0, ',') == Some(st0));
    if parts.len() == 1 {
        assert(join_texts(parts, ',') == p0);
        assert(s.subrange(i, i + p0.len()) == p0);
        lemma_scan_skip(s, i, p0, st0, ',', false);
    } else {
        lemma_join_split(s, i, parts);
        let m = i + p0.len();
        lemma_scan_skip(s, i, p0, st0, ',', false);
        let rest = parts.drop_first();
        assert forall|k: int| 0 <= k < rest.len() implies scan_run(#[trigger] rest[k], scan_start(), ',') == Some(scan_start()) by {
            assert(rest[k] == parts[k + 1]);
        }
        lemma_find_cuts(s, m + 1, rest);
        assert(scan_step(st0, ',', ',') == Some((st0, true)));
    }
}

/// Cutting a join at its separators gives the parts back.
pub proof fn lemma_pieces_cuts(s: Seq<char>, i: int, parts: Seq<Seq<char>>)
    requires
        0 <= i <= s.len(),
        parts.len() >= 1,
        s.subrange(i, s.len() as int) == join_texts(parts, ','),
        forall|k: int| 0 <= k < parts.len() ==> (#[trigger] parts[k]).len() > 0,
    ensures
        pieces(s, cut_points(parts, i), i) == parts,
    decreases parts.len(),
{
    let p0 = parts[0];
    assert(p0.len() > 0);
    if parts.len() == 1 {
        assert(join_texts(parts, ',') == p0);
        assert(pieces(s, cut_points(parts, i), i) =~= parts);
    } else {
        lemma_join_split(s, i, parts);
        let m = i + p0.len();
        let rest = parts.drop_first();
        assert forall|k: int| 0 <= k < rest.len() implies (#[trigger] rest[k]).len() > 0 by {
            assert(rest[k] == parts[k + 1]);
        }
        lemma_pieces_cuts(s, m + 1, rest);
        let cuts = cut_points(parts, i);
        assert(cuts[0] == m);
        assert(cuts.drop_first() =~= cut_points(rest, m + 1));
        assert(pieces(s, cuts, i) =~= parts);
    }
}

} // verus!

verus! {

/// Inserting a name greater than every name present appends the field.
pub proof fn lemma_sorted_insert_last(acc: Seq<(Seq<char>, Json)>, k: Seq<char>, v: Json)
    requires
        forall|i: int| 0 <= i < acc.len() ==> key_lt(#[trigger] acc[i].0, k),
    ensures
        sorted_insert(acc, k, v) == acc.push((k, v)),
    decreases acc.len(),
{
    if acc.len() > 0 {
        assert(key_lt(acc[0].0, k));
        lemma_key_lt_irreflexive(k);
        lemma_key_lt_asymmetric(acc[0].0, k);
        let rest = acc.drop_first();
        assert forall|i: int| 0 <= i < rest.len() implies key_lt(#[trigger] rest[i].0, k) by {
            assert(rest[i] == acc[i + 1]);
        }
        lemma_sorted_insert_last(rest, k, v);
        assert(seq![acc[0]] + rest.push((k, v)) =~= acc.push((k, v)));
    } else {
        assert(seq![(k, v)] =~= acc.push((k, v)));
    }
}

/// Reading items that each read back gives them all, in order.
pub proof fn lemma_items_from(parts: Seq<Seq<char>>, items: Seq<Json>, acc: Seq<Json>)
    requires
        parts.len() == items.len(),
        forall|k: int| 0 <= k < parts.len() ==> parse_item(#[trigger] parts[k]) == Ok::<Json, crate::error::Failure>(items[k]),
    ensures
        items_from(parts, acc) == Ok::<Seq<Json>, crate::error::Failure>(acc + items),
    decreases parts.len(),
{
    if parts.len() == 0 {
        assert(acc + items =~= acc);
    } else {
        assert(parse_item(parts[0]) == Ok::<Json, crate::error::Failure>(items[0]));
        let rp = parts.drop_first();
        let ri = items.drop_first();
        assert forall|k: int| 0 <= k < rp.len() implies parse_item(#[trigger] rp[k]) == Ok::<Json, crate::error::Failure>(ri[k]) by {
            assert(rp[k] == parts[k + 1]);
            assert(parse_item(parts[k + 1]) == Ok::<Json, crate::error::Failure>(items[k + 1]));
        }
        lemma_items_from(rp, ri, acc.push(items[0]));
        assert(acc.push(items[0]) + ri =~= acc + items);
    }
}

/// Reading fields that each read back, with names in increasing order after those
/// already read, gives them all, in order.
pub proof fn lemma_fields_from(
    parts: Seq<Seq<char>>,
    fields: Seq<(Seq<char>, Json)>,
    acc: Seq<(Seq<char>, Json)>,
)
    requires
        parts.len() == fields.len(),
        forall|k: int| 0 <= k < parts.len() ==> parse_field(#[trigger] parts[k]) == Ok::<(Seq<char>, Json), crate::error::Failure>(fields[k]),
        keys_increasing(acc + fields),
    ensures
        fields_from(parts, acc) == Ok::<Seq<(Seq<char>, Json)>, crate::error::Failure>(acc + fields),
    decreases parts.len(),
{
    if parts.len() == 0 {
        assert(acc + fields =~= acc);
    } else {
        let all = acc + fields;
        let f0 = fields[0];
        assert(parse_field(parts[0]) == Ok::<(Seq<char>, Json), crate::error::Failure>(f0));
        assert forall|i: int| 0 <= i < acc.len() implies key_lt(#[trigger] acc[i].0, f0.0) by {
            assert(all[i] == acc[i]);
            assert(all[acc.len() as int] == f0);
        }
        lemma_sorted_insert_last(acc, f0.0, f0.1);
        let rp = parts.drop_first();
        let rf = fields.drop_first();
        assert(acc.push(f0) + rf =~= all);
        assert forall|k: int| 0 <= k < rp.len() implies parse_field(#[trigger] rp[k]) == Ok::<(Seq<char>, Json), crate::error::Failure>(rf[k]) by {
            assert(rp[k] == parts[k + 1]);
            assert(parse_field(parts[k + 1]) == Ok::<(Seq<char>, Json), crate::error::Failure>(fields[k + 1]));
        }
        lemma_fields_from(rp, rf, acc.push(f0));
    }
}

/// A written text that reads back as a value reads back as an array item too.
pub proof fn lemma_item_reads_back(x: Json)
    requires
        parse_value(json_text(x)) == Ok::<Json, crate::error::Failure>(x),
    ensures
        parse_item(json_text(x)) == Ok::<Json, crate::error::Failure>(x),
{
    lemma_text_edges(x);
    lemma_trim_keeps(json_text(x));
}

/// A written field reads back as its name and value.
pub proof fn lemma_field_reads_back(name: Seq<char>, val: Json)
    requires
        plain_text(name),
        parse_value(json_text(val)) == Ok::<Json, crate::error::Failure>(val),
    ensures
        parse_field(entry_text(name, json_text(val))) == Ok::<(Seq<char>, Json), crate::error::Failure>((name, val)),
{
    let st0 = scan_start();
    let q = spec_serialize_string(name);
    let vt = json_text(val);
    let x = entry_text(name, vt);
    let c = q.len() as int;
    lemma_text_edges(val);
    assert(x[0] == '"');
    assert(x.last() == vt.last());
    lemma_trim_keeps(x);
    lemma_scan_string(name, 0, 0, ':');
    assert(x.subrange(0, c) =~= q);
    lemma_scan_skip(x, 0, q, st0, ':', true);
    assert(x[c] == ':');
    assert(scan_step(st0, ':', ':') == Some((st0, true)));
    assert(find_chars_spec(x, ':', true) == Some(seq![c]));
    assert(x.take(c) =~= q);
    lemma_plain_quotable(name);
    lemma_string_reads_back(name);
    assert(x.skip(c + 1) =~= vt);
    lemma_trim_keeps(vt);
}

} // verus!

verus! {

/// The join of the written parts of a non-empty list, between `open` and `close`: the
/// reader's `enclosed` gives the join back, and the separator scan finds the parts.
proof fn lemma_enclosed_join(parts: Seq<Seq<char>>, open: char, close: char)
    requires
        parts.len() >= 1,
        !is_white_space(open),
        !is_white_space(close),
        open != close,
        forall|k: int| 0 <= k < parts.len() ==> (#[trigger] parts[k]).len() > 0,
        !is_white_space(parts[0][0]),
        !is_white_space(parts.last().last()),
    ensures
        enclosed(enclose(parts, open, ',', close), open, close) == Some(
            Ok::<Seq<char>, crate::error::Failure>(join_texts(parts, ',')),
        ),
{
    let jn = join_texts(parts, ',');
    let t = enclose(parts, open, ',', close);
    lemma_join_edges(parts, ',');
    assert(t[0] == open);
    assert(t.last() == close);
    lemma_trim_keeps(t);
    assert(t.subrange(1, t.len() - 1) =~= jn);
    lemma_trim_keeps(jn);
}

/// The written text of a non-empty object whose fields read back reads back as the object.
proof fn lemma_object_reads_back(fields: Seq<(Seq<char>, Json)>)
    requires
        fields.len() > 0,
        keys_increasing(fields),
        forall|k: int| 0 <= k < fields.len() ==> plain_text(#[trigger] fields[k].0) && plain(fields[k].1),
        forall|k: int| 0 <= k < fields.len() ==> parse_value(json_text(#[trigger] fields[k].1)) == Ok::<Json, crate::error::Failure>(fields[k].1),
    ensures
        parse_value(json_text(Json::Object(fields))) == Ok::<Json, crate::error::Failure>(Json::Object(fields)),
{
    let t = json_text(Json::Object(fields));
    let parts = field_texts(fields);
    lemma_field_texts(fields);
    assert(t == enclose(parts, '{', ',', '}'));
    assert forall|k: int| 0 <= k < parts.len() implies (#[trigger] parts[k]).len() > 0 by {
        assert(parts[k][0] == '"');
    }
    let last = fields.last();
    assert(last == fields[fields.len() - 1]);
    lemma_text_edges(last.1);
    assert(parts.last() == parts[parts.len() - 1]);
    assert(parts.last().last() == json_text(last.1).last());
    assert(parts[0][0] == '"');
    lemma_enclosed_join(parts, '{', '}');
    let jn = join_texts(parts, ',');
    assert(jn.subrange(0, jn.len() as int) =~= jn);
    assert forall|k: int| 0 <= k < parts.len() implies scan_run(#[trigger] parts[k], scan_start(), ',') == Some(scan_start()) by {
        assert(plain_text(fields[k].0) && plain(fields[k].1));
        lemma_scan_balanced(fields[k].1, 0, 0, ',');
        lemma_scan_entry(fields[k].0, json_text(fields[k].1), 0, 0, ',');
    }
    lemma_find_cuts(jn, 0, parts);
    lemma_pieces_cuts(jn, 0, parts);
    assert forall|k: int| 0 <= k < parts.len() implies parse_field(#[trigger] parts[k]) == Ok::<(Seq<char>, Json), crate::error::Failure>(fields[k]) by {
        assert(plain_text(fields[k].0));
        assert(parse_value(json_text(fields[k].1)) == Ok::<Json, crate::error::Failure>(fields[k].1));
        lemma_field_reads_back(fields[k].0, fields[k].1);
    }
    assert(Seq::<(Seq<char>, Json)>::empty() + fields =~= fields);
    lemma_fields_from(parts, fields, Seq::empty());
    assert(t[0] == '{');
}

/// The written text of a non-empty array whose items read back reads back as the array.
proof fn lemma_array_reads_back(items: Seq<Json>)
    requires
        items.len() > 0,
        forall|k: int| 0 <= k < items.len() ==> plain(#[trigger] items[k]),
        forall|k: int| 0 <= k < items.len() ==> parse_value(json_text(#[trigger] items[k])) == Ok::<Json, crate::error::Failure>(items[k]),
    ensures
        parse_value(json_text(Json::Array(items))) == Ok::<Json, crate::error::Failure>(Json::Array(items)),
{
    let t = json_text(Json::Array(items));
    let parts = item_texts(items);
    lemma_item_texts(items);
    assert(t == enclose(parts, '[', ',', ']'));
    assert forall|k: int| 0 <= k < parts.len() implies (#[trigger] parts[k]).len() > 0 by {
        lemma_text_edges(items[k]);
    }
    lemma_text_edges(items[0]);
    lemma_text_edges(items.last());
    assert(items.last() == items[items.len() - 1]);
    assert(parts.last() == parts[parts.len() - 1]);
    lemma_enclosed_join(parts, '[', ']');
    let jn = join_texts(parts, ',');
    assert(jn.subrange(0, jn.len() as int) =~= jn);
    assert forall|k: int| 0 <= k < parts.len() implies scan_run(#[trigger] parts[k], scan_start(), ',') == Some(scan_start()) by {
        assert(plain(items[k]));
        lemma_scan_balanced(items[k], 0, 0, ',');
    }
    lemma_find_cuts(jn, 0, parts);
    lemma_pieces_cuts(jn, 0, parts);
    assert forall|k: int| 0 <= k < parts.len() implies parse_item(#[trigger] parts[k]) == Ok::<Json, crate::error::Failure>(items[k]) by {
        assert(parse_value(json_text(items[k])) == Ok::<Json, crate::error::Failure>(items[k]));
        lemma_item_reads_back(items[k]);
    }
    assert(Seq::<Json>::empty() + items =~= items);
    lemma_items_from(parts, items, Seq::empty());
    assert(t[0] == '[');
}

/// The written text of an empty object or array, or of a scalar, reads back as it.
proof fn lemma_leaf_reads_back(j: Json)
    requires
        plain(j),
        j matches Json::Object(f) ==> f.len() == 0,
        j matches Json::Array(a) ==> a.len() == 0,
    ensures
        parse_value(json_text(j)) == Ok::<Json, crate::error::Failure>(j),
{
    let t = json_text(j);
    lemma_text_edges(j);
    lemma_trim_keeps(t);
    match j {
        Json::Null => {
            assert(t =~= null_text());
        },
        Json::Value(v) => {
            if is_number_text(v) {
                lemma_number_reads_back(v);
            } else {
                lemma_plain_quotable(v);
                lemma_string_reads_back(v);
            }
        },
        Json::Object(fields) => {
            assert(t.subrange(1, t.len() - 1) =~= Seq::<char>::empty());
            assert(fields =~= Seq::<(Seq<char>, Json)>::empty());
        },
        Json::Array(items) => {
            assert(t.subrange(1, t.len() - 1) =~= Seq::<char>::empty());
            assert(items =~= Seq::<Json>::empty());
        },
    }
}

/// The written text of a plain value reads back as the value.
pub proof fn lemma_value_reads_back(j: Json)
    requires
        plain(j),
    ensures
        parse_value(json_text(j)) == Ok::<Json, crate::error::Failure>(j),
    decreases j,
{
    match j {
        Json::Object(fields) => {
            if fields.len() == 0 {
                lemma_leaf_reads_back(j);
            } else {
                assert forall|k: int| 0 <= k < fields.len() implies parse_value(json_text(#[trigger] fields[k].1)) == Ok::<Json, crate::error::Failure>(fields[k].1) by {
                    let f = fields[k];
                    assert(plain_text(f.0));
                    assert(plain(f.1));
                    lemma_value_reads_back(f.1);
                }
                assert(keys_increasing(fields));
                assert(forall|i: int| 0 <= i < fields.len() ==> plain_text(#[trigger] fields[i].0) && plain(fields[i].1));
                lemma_object_reads_back(fields);
            }
        },
        Json::Array(items) => {
            if items.len() == 0 {
                lemma_leaf_reads_back(j);
            } else {
                assert forall|k: int| 0 <= k < items.len() implies parse_value(json_text(#[trigger] items[k])) == Ok::<Json, crate::error::Failure>(items[k]) by {
                    assert(plain(items[k]));
                    lemma_value_reads_back(items[k]);
                }
                lemma_array_reads_back(items);
            }
        },
        _ => {
            lemma_leaf_reads_back(j);
        },
    }
}

/// What the reader takes back unchanged from the writer: a plain value, or, standing
/// alone, a number or a quotable string (a single quotation mark does no harm outside
/// objects and arrays).
pub open spec fn readable(j: Json) -> bool {
    match j {
        Json::Value(v) => is_number_text(v) || quotable_text(v),
        _ => plain(j),
    }
}

/// Reading back what was written: for every readable value, that is every value whose
/// strings avoid the C1 control characters, whose strings and names inside objects and
/// arrays avoid the single quotation mark too, and whose object names are in increasing
/// order (as every object the reader builds has them), the reader takes the writer's text
/// back to the same value.
pub proof fn law_read_after_write(j: Json)
    requires
        readable(j),
    ensures
        parse_text(json_text(j)) == Ok::<Json, crate::error::Failure>(j),
{
    lemma_text_edges(j);
    lemma_trim_keeps(json_text(j));
    match j {
        Json::Value(v) => {
            if is_number_text(v) {
                lemma_number_reads_back(v);
            } else {
                lemma_string_reads_back(v);
            }
        },
        _ => {
            lemma_value_reads_back(j);
        },
    }
}

/// A string written by the writer reads back as the same string wherever it has no C1
/// control character.
pub proof fn law_string_read_after_write(v: Seq<char>)
    requires
        quotable_text(v),
    ensures
        parse_string(spec_serialize_string(v)) == Ok::<Json, crate::error::Failure>(Json::Value(v)),
{
    lemma_string_reads_back(v);
    assert(spec_serialize_string(v)[0] == '"');
}

} // verus!

verus! {

proof fn lemma_int_text_quotable(n: int)
    ensures
        quotable_text(int_text(n)),
{
    let t = int_text(n);
    let m: nat = if n < 0 { (-n) as nat } else { n as nat };
    lemma_nat_text(m);
    assert forall|i: int| 0 <= i < t.len() implies quotable_char(#[trigger] t[i]) by {
        if n < 0 {
            if i > 0 {
                assert(t[i] == nat_text(m)[i - 1]);
                assert(is_ascii_digit(nat_text(m)[i - 1]));
            }
        } else {
            assert(is_ascii_digit(nat_text(m)[i]));
        }
    }
}

/// Writing an integer as a JSON text and reading it back as the same type gives the
/// integer: the text reads back as the scalar, and the scalar converts to the number.
pub proof fn law_int_text_round_trip(n: int, lo: int, hi: int, typ: Seq<char>)
    requires
        lo <= n <= hi,
        lo <= 0,
    ensures
        parse_text(json_text(Json::Value(int_text(n)))) == Ok::<Json, crate::error::Failure>(Json::Value(int_text(n))),
        int_from_json(Json::Value(int_text(n)), lo, hi, typ) == Ok::<int, Seq<char>>(n),
{
    lemma_int_text_quotable(n);
    law_read_after_write(Json::Value(int_text(n)));
    law_int_json_round_trip(n, lo, hi, typ);
}

/// Writing a boolean as a JSON text and reading it back gives the boolean.
pub proof fn law_bool_text_round_trip(b: bool)
    ensures
        parse_text(json_text(Json::Value(bool_text(b)))) == Ok::<Json, crate::error::Failure>(Json::Value(bool_text(b))),
        bool_from_json(Json::Value(bool_text(b))) == Ok::<bool, Seq<char>>(b),
{
    reveal_strlit("true");
    reveal_strlit("false");
    assert(quotable_text(bool_text(b)));
    law_read_after_write(Json::Value(bool_text(b)));
    law_bool_json_round_trip(b);
}

/// Writing a character as a JSON text and reading it back gives the character, unless it
/// is a C1 control character.
pub proof fn law_char_text_round_trip(c: char)
    requires
        quotable_char(c),
    ensures
        parse_text(json_text(Json::Value(seq![c]))) == Ok::<Json, crate::error::Failure>(Json::Value(seq![c])),
        char_from_json(Json::Value(seq![c])) == Ok::<char, Seq<char>>(c),
{
    assert(quotable_text(seq![c]));
    law_read_after_write(Json::Value(seq![c]));
    law_char_json_round_trip(c);
}

/// Writing a string as a JSON text and reading it back gives the string, unless it holds
/// a C1 control character.
pub proof fn law_string_text_round_trip(s: Seq<char>)
    requires
        quotable_text(s),
    ensures
        parse_text(json_text(Json::Value(s))) == Ok::<Json, crate::error::Failure>(Json::Value(s)),
        string_from_json(Json::Value(s)) == Ok::<Seq<char>, Seq<char>>(s),
{
    law_read_after_write(Json::Value(s));
    law_string_json_round_trip(s);
}

} // verus!

verus! {

/// The strings and names of `j` are plain texts (numbers may be written bare).
pub open spec fn plain_texts(j: Json) -> bool
    decreases j,
{
    match j {
        Json::Null => true,
        Json::Value(v) => is_number_text(v) || plain_text(v),
        Json::Object(fields) => forall|i: int|
            0 <= i < fields.len() ==> plain_text(#[trigger] fields[i].0) && plain_texts(fields[i].1),
        Json::Array(items) => forall|i: int| 0 <= i < items.len() ==> plain_texts(#[trigger] items[i]),
    }
}

/// The strings of a value that the reader takes back unchanged: plain texts, or, standing
/// alone, a number or a quotable string.
pub open spec fn readable_texts(j: Json) -> bool {
    match j {
        Json::Value(v) => is_number_text(v) || quotable_text(v),
        _ => plain_texts(j),
    }
}

pub proof fn lemma_plain_of_parts(j: Json)
    requires
        ordered(j),
        plain_texts(j),
    ensures
        plain(j),
    decreases j,
{
    match j {
        Json::Object(fields) => {
            assert forall|i: int| 0 <= i < fields.len() implies plain_text(#[trigger] fields[i].0) && plain(fields[i].1) by {
                let f = fields[i];
                assert(plain_text(f.0) && plain_texts(f.1));
                assert(ordered(f.1));
                lemma_plain_of_parts(f.1);
            }
        },
        Json::Array(items) => {
            assert forall|i: int| 0 <= i < items.len() implies plain(#[trigger] items[i]) by {
                assert(plain_texts(items[i]) && ordered(items[i]));
                lemma_plain_of_parts(items[i]);
            }
        },
        _ => {},
    }
}

/// Reading back what was written, for values: every `JsonObject` whose strings avoid
/// the C1 control characters, and whose strings and names inside objects and arrays
/// avoid the single quotation mark too, is read back from its JSON text as itself.
pub proof fn law_object_read_after_write(o: JsonObject)
    requires
        readable_texts(o@),
    ensures
        parse_text(json_text(o@)) == Ok::<Json, crate::error::Failure>(o@),
{
    lemma_object_ordered(o);
    match o@ {
        Json::Value(v) => {},
        _ => {
            lemma_plain_of_parts(o@);
        },
    }
    law_read_after_write(o@);
}

} // verus!

