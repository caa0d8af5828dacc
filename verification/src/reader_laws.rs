//! What the reader does with scalars, fields, arrays and objects, stated as laws over its
//! model.
use vstd::prelude::*;
use crate::chars::{is_control, hex_value};
use crate::error::{Failure, JsonError};
use crate::json::Json;
use crate::parse::{parse_string, unescape_from, is_quote, null_text, hex_number, parse_field, parse_value, key_name};
use crate::scan::{find_chars_spec, lemma_scan_positions, scan_start, scan_from, scan_step, ScanState};
use crate::text::{slice_trim, slice_trim_fails};
use crate::chars::is_white_space;
use crate::parse::{parse_array, parse_object, enclosed, pieces, items_from, fields_from};
use crate::serialize::join_texts;
use crate::round_trip::{cut_points, lemma_join_split, lemma_pieces_cuts, lemma_trim_keeps};

verus! {

/// A character that a string body carries over as it stands: not a control character, a
/// backslash, a quotation mark that would end the string, or (in a bare word) a space.
pub open spec fn verbatim_char(c: char, closing: Option<char>) -> bool {
    &&& !is_control(c)
    &&& c != '\\'
    &&& !(is_quote(c) && (closing is None || closing == Some(c)))
    &&& !(c == ' ' && closing is None)
}

/// A character that stops the string reader where it meets it: a control character, or
/// (in a bare word) a space.
pub open spec fn refused_char(c: char, closing: Option<char>) -> bool {
    is_control(c) || (c == ' ' && closing is None)
}

proof fn lemma_unescape_verbatim(b: Seq<char>, i: int, closing: Option<char>, out: Seq<char>)
    requires
        0 <= i <= b.len(),
        forall|k: int| i <= k < b.len() ==> verbatim_char(#[trigger] b[k], closing),
    ensures
        unescape_from(b, i, closing, false, out) == Ok::<Seq<char>, JsonError>(out + b.subrange(i, b.len() as int)),
    decreases b.len() - i,
{
    if i < b.len() {
        assert(verbatim_char(b[i], closing));
        lemma_unescape_verbatim(b, i + 1, closing, out.push(b[i]));
        assert(out.push(b[i]) + b.subrange(i + 1, b.len() as int) =~= out + b.subrange(i, b.len() as int));
    } else {
        assert(out + b.subrange(i, b.len() as int) =~= out);
    }
}

proof fn lemma_hex_refuses(h: Seq<char>, k: int)
    requires
        0 <= k < h.len(),
        refused_char(h[k], None) || refused_char(h[k], Some('"')),
    ensures
        hex_number(h) is None,
{
    if hex_number(h) is Some {
        let d = if h.len() > 0 && h[0] == '+' { h.drop_first() } else { h };
        if h.len() > 0 && h[0] == '+' {
            if k > 0 {
                assert(d[k - 1] == h[k]);
                assert(hex_value(d[k - 1]) is Some);
            }
        } else {
            assert(hex_value(d[k]) is Some);
        }
    }
}

/// The string reader stops with a refusal at a refused character, wherever it stands.
proof fn lemma_unescape_refuses(b: Seq<char>, i: int, closing: Option<char>, escaping: bool, out: Seq<char>, k: int)
    requires
        0 <= i <= k < b.len(),
        refused_char(b[k], closing),
    ensures
        unescape_from(b, i, closing, escaping, out) is Err,
    decreases b.len() - i,
{
    let c = b[i];
    if is_control(c) {
    } else if c == '\\' && !escaping {
        if i < k {
            lemma_unescape_refuses(b, i + 1, closing, true, out, k);
        }
    } else if c == 'u' && escaping {
        let end = if i + 5 <= b.len() { i + 5 } else { b.len() as int };
        if k < end {
            if k > i {
                let h = b.subrange(i + 1, end);
                assert(h[k - i - 1] == b[k]);
                if closing is None {
                    lemma_hex_refuses(h, k - i - 1);
                } else {
                    assert(refused_char(b[k], Some('"')));
                    lemma_hex_refuses(h, k - i - 1);
                }
            }
        } else {
            match hex_number(b.subrange(i + 1, end)) {
                None => {},
                Some(u) => {
                    lemma_unescape_refuses(b, end, closing, false, out.push(u as char), k);
                },
            }
        }
    } else if escaping {
        if i < k && crate::parse::is_escapable(c) {
            lemma_unescape_refuses(b, i + 1, closing, false, out.push(c), k);
        }
    } else if is_quote(c) && (closing is None || closing == Some(c)) {
    } else if c == ' ' && closing is None {
    } else {
        if i < k {
            lemma_unescape_refuses(b, i + 1, closing, escaping, out.push(c), k);
        }
    }
}

/// A bare word is read as it stands: where the trimmed text is not `null` and holds no
/// control character, backslash, quotation mark or space, it is the value's text.
pub proof fn law_bare_word(s: Seq<char>)
    requires
        !slice_trim_fails(s),
        slice_trim(s).len() > 0,
        slice_trim(s) != null_text(),
        forall|k: int| 0 <= k < slice_trim(s).len() ==> verbatim_char(#[trigger] slice_trim(s)[k], None),
    ensures
        parse_string(s) == Ok::<Json, Failure>(Json::Value(slice_trim(s))),
{
    let t = slice_trim(s);
    assert(verbatim_char(t[0], None));
    lemma_unescape_verbatim(t, 0, None, Seq::empty());
    assert(Seq::<char>::empty() + t.subrange(0, t.len() as int) =~= t);
}

/// A quoted string without escapes is read as its contents: where the trimmed text is a
/// quotation mark, characters that are neither that mark, a backslash nor a control
/// character, and the same mark, the value's text is what stands between the marks.
pub proof fn law_quoted_string(s: Seq<char>, q: char, w: Seq<char>)
    requires
        !slice_trim_fails(s),
        is_quote(q),
        slice_trim(s) == seq![q] + w + seq![q],
        forall|k: int| 0 <= k < w.len() ==> (#[trigger] w[k] != q && w[k] != '\\' && !is_control(w[k])),
    ensures
        parse_string(s) == Ok::<Json, Failure>(Json::Value(w)),
{
    let t = slice_trim(s);
    assert(t[0] == q);
    assert(t.last() == q);
    assert(t != null_text()) by {
        assert(t[0] != null_text()[0]);
    }
    assert(t.subrange(1, t.len() - 1) =~= w);
    assert forall|k: int| 0 <= k < w.len() implies verbatim_char(#[trigger] w[k], Some(q)) by {
        assert(w[k] != q);
    }
    lemma_unescape_verbatim(w, 0, Some(q), Seq::empty());
    assert(Seq::<char>::empty() + w.subrange(0, w.len() as int) =~= w);
}

/// Control characters must be written as `\uXXXX`, and a bare word is one word: a text
/// that holds a control character, or a bare word that holds a space, is refused.
pub proof fn law_string_refuses(s: Seq<char>, k: int)
    requires
        !slice_trim_fails(s),
        0 <= k < slice_trim(s).len(),
        is_control(slice_trim(s)[k]) || (slice_trim(s)[k] == ' ' && !is_quote(slice_trim(s)[0])),
    ensures
        parse_string(s) is Err,
{
    let t = slice_trim(s);
    if t != null_text() && !(is_quote(t[0]) && t.last() != t[0]) && !(is_quote(t[0]) && t.len() == 1) {
        if is_quote(t[0]) {
            let body = t.subrange(1, t.len() - 1);
            assert(is_control(t[k]));
            if k == 0 || k == t.len() - 1 {
                assert(is_quote(t[k]));
            } else {
                assert(body[k - 1] == t[k]);
                lemma_unescape_refuses(body, 0, Some(t[0]), false, Seq::empty(), k - 1);
            }
        } else {
            lemma_unescape_refuses(t, 0, None, false, Seq::empty(), k);
        }
    } else if t == null_text() {
        assert(t[k] == null_text()[k]);
    }
}

/// How a field is read: without a top-level colon it is refused; where the text before
/// the first top-level colon reads completely as an object or an array, the field is
/// refused; where it is read, the name is what that text reads as a scalar (`null`
/// naming it "null"), and the value is what the trimmed text after the colon reads as.
pub proof fn law_field_parts(x: Seq<char>)
    requires
        !slice_trim_fails(x),
    ensures
        find_chars_spec(slice_trim(x), ':', true) == Some(Seq::<int>::empty()) ==> parse_field(x) is Err,
        ({
            let t = slice_trim(x);
            &&& find_chars_spec(t, ':', true) matches Some(p)
            &&& p.len() > 0
            &&& parse_value(t.take(p[0])) matches Ok(key)
            &&& (key is Object || key is Array)
        }) ==> parse_field(x) == Err::<(Seq<char>, Json), Failure>(Failure::Refused(JsonError::UnexpectedKind)),
        parse_field(x) matches Ok((k, j)) ==> {
            let t = slice_trim(x);
            &&& find_chars_spec(t, ':', true) matches Some(p)
            &&& p.len() == 1
            &&& !(parse_value(t.take(p[0])) matches Ok(Json::Object(_)))
            &&& !(parse_value(t.take(p[0])) matches Ok(Json::Array(_)))
            &&& parse_string(t.take(p[0])) matches Ok(key)
            &&& key_name(key) == Ok::<Seq<char>, Failure>(k)
            &&& !slice_trim_fails(t.skip(p[0] + 1))
            &&& parse_value(slice_trim(t.skip(p[0] + 1))) == Ok::<Json, Failure>(j)
        },
{
    let t = slice_trim(x);
    lemma_scan_positions(t, 0, scan_start(), ':', true);
}

/// The text between the brackets of an array or the braces of an object: the parts joined
/// by commas, with one more comma after them where `trailing`.
pub open spec fn joined(parts: Seq<Seq<char>>, trailing: bool) -> Seq<char> {
    if trailing {
        join_texts(parts, ',').push(',')
    } else {
        join_texts(parts, ',')
    }
}

/// Where the commas of `joined(parts, trailing)` stand.
pub open spec fn joined_cuts(parts: Seq<Seq<char>>, trailing: bool) -> Seq<int> {
    if trailing {
        cut_points(parts, 0).push(join_texts(parts, ',').len() as int)
    } else {
        cut_points(parts, 0)
    }
}

proof fn lemma_pieces_trailing(s: Seq<char>, i: int, parts: Seq<Seq<char>>)
    requires
        0 <= i < s.len(),
        parts.len() >= 1,
        s.subrange(i, s.len() as int) == join_texts(parts, ',').push(','),
    ensures
        pieces(s, cut_points(parts, i).push(s.len() - 1), i) == parts,
    decreases parts.len(),
{
    let p0 = parts[0];
    let s2 = s.subrange(0, s.len() - 1);
    let jn = join_texts(parts, ',');
    assert(s.subrange(i, s.len() as int).len() == s.len() - i);
    assert(s.len() - i == jn.len() + 1);
    assert(s2.subrange(i, s2.len() as int) =~= jn) by {
        assert forall|k: int| 0 <= k < s2.len() - i implies s2.subrange(i, s2.len() as int)[k] == jn[k] by {
            assert(s.subrange(i, s.len() as int)[k] == s[i + k]);
            assert(jn.push(',')[k] == jn[k]);
        }
    }
    if parts.len() == 1 {
        assert(join_texts(parts, ',') == p0);
        let cuts = cut_points(parts, i).push(s.len() - 1);
        assert(cuts =~= seq![s.len() - 1]);
        assert(s.subrange(i, s.len() - 1) =~= p0) by {
            assert forall|k: int| 0 <= k < p0.len() implies s.subrange(i, s.len() - 1)[k] == p0[k] by {
                assert(s.subrange(i, s.len() as int)[k] == s[i + k]);
            }
        }
        assert(cuts[0] == s.len() - 1);
        assert(cuts.drop_first() =~= Seq::<int>::empty());
        assert(pieces(s, Seq::<int>::empty(), s.len() as int) =~= Seq::<Seq<char>>::empty());
        assert(pieces(s, cuts, i) =~= parts);
    } else {
        lemma_join_split(s2, i, parts);
        let m = i + p0.len();
        let rest = parts.drop_first();
        assert(s.subrange(m + 1, s.len() as int) =~= join_texts(rest, ',').push(',')) by {
            assert forall|k: int| 0 <= k < s.len() - (m + 1) implies s.subrange(m + 1, s.len() as int)[k] == join_texts(rest, ',').push(',')[k] by {
                if k < s.len() - 1 - (m + 1) {
                    assert(s2.subrange(m + 1, s2.len() as int)[k] == s2[m + 1 + k]);
                } else {
                    assert(s.subrange(i, s.len() as int)[s.len() - 1 - i] == ',');
                }
            }
        }
        lemma_pieces_trailing(s, m + 1, rest);
        let cuts = cut_points(parts, i).push(s.len() - 1);
        assert(cuts[0] == m);
        assert(cuts.drop_first() =~= cut_points(rest, m + 1).push(s.len() - 1));
        assert(s.subrange(i, m) =~= s2.subrange(i, m));
        assert(pieces(s, cuts, i) =~= parts);
    }
}

/// The parts of a joined list, cut at its commas.
proof fn lemma_joined_pieces(parts: Seq<Seq<char>>, trailing: bool)
    requires
        parts.len() >= 1,
        forall|k: int| 0 <= k < parts.len() ==> (#[trigger] parts[k]).len() > 0,
    ensures
        pieces(joined(parts, trailing), joined_cuts(parts, trailing), 0) == parts,
{
    let s = joined(parts, trailing);
    if trailing {
        assert(s.subrange(0, s.len() as int) =~= s);
        lemma_pieces_trailing(s, 0, parts);
    } else {
        assert(s.subrange(0, s.len() as int) =~= s);
        lemma_pieces_cuts(s, 0, parts);
    }
}

proof fn lemma_enclosed_inner(inner: Seq<char>, open: char, close: char)
    requires
        inner.len() > 0,
        !is_white_space(inner[0]),
        !is_white_space(inner.last()),
        !is_white_space(open),
        !is_white_space(close),
    ensures
        enclosed(seq![open] + inner + seq![close], open, close) == Some(Ok::<Seq<char>, Failure>(inner)),
{
    let t = seq![open] + inner + seq![close];
    assert(t[0] == open);
    assert(t.last() == close);
    lemma_trim_keeps(t);
    assert(t.subrange(1, t.len() - 1) =~= inner);
    lemma_trim_keeps(inner);
}

/// How an array is read: where the text between the brackets is non-empty parts joined by
/// commas (and perhaps one more comma after them), trimmed, and the commas that the
/// separator search finds are exactly the joining ones, the array holds the parts read in
/// turn as items; the first part that fails stops the reading with its failure.
pub proof fn law_array_parts(parts: Seq<Seq<char>>, trailing: bool)
    requires
        parts.len() >= 1,
        forall|k: int| 0 <= k < parts.len() ==> (#[trigger] parts[k]).len() > 0,
        !is_white_space(join_texts(parts, ',')[0]),
        !is_white_space(join_texts(parts, ',').last()),
        find_chars_spec(joined(parts, trailing), ',', false) == Some(joined_cuts(parts, trailing)),
    ensures
        parse_array(seq!['['] + joined(parts, trailing) + seq![']']) == match items_from(parts, Seq::empty()) {
            Ok(items) => Ok::<Json, Failure>(Json::Array(items)),
            Err(f) => Err(f),
        },
{
    let s = joined(parts, trailing);
    crate::round_trip::lemma_join_edges(parts, ',');
    if trailing {
        assert(s[0] == join_texts(parts, ',')[0]);
    }
    lemma_enclosed_inner(s, '[', ']');
    lemma_joined_pieces(parts, trailing);
    assert((seq!['['] + s + seq![']'])[0] == '[');
}

/// How an object is read: where the text between the braces is non-empty parts joined by
/// commas (and perhaps one more comma after them), trimmed, and the commas that the
/// separator search finds are exactly the joining ones, the object holds the parts read in
/// turn as fields, each inserted in name order, a later field replacing an earlier one of
/// the same name; the first part that fails stops the reading with its failure.
pub proof fn law_object_parts(parts: Seq<Seq<char>>, trailing: bool)
    requires
        parts.len() >= 1,
        forall|k: int| 0 <= k < parts.len() ==> (#[trigger] parts[k]).len() > 0,
        !is_white_space(join_texts(parts, ',')[0]),
        !is_white_space(join_texts(parts, ',').last()),
        find_chars_spec(joined(parts, trailing), ',', false) == Some(joined_cuts(parts, trailing)),
    ensures
        parse_object(seq!['{'] + joined(parts, trailing) + seq!['}']) == match fields_from(parts, Seq::empty()) {
            Ok(fields) => Ok::<Json, Failure>(Json::Object(fields)),
            Err(f) => Err(f),
        },
{
    let s = joined(parts, trailing);
    crate::round_trip::lemma_join_edges(parts, ',');
    if trailing {
        assert(s[0] == join_texts(parts, ',')[0]);
    }
    lemma_enclosed_inner(s, '{', '}');
    lemma_joined_pieces(parts, trailing);
    assert((seq!['{'] + s + seq!['}'])[0] == '{');
}

/// How many double quotation marks stand before position `i`.
pub open spec fn quote_count(s: Seq<char>, i: int) -> nat
    decreases i,
{
    if i <= 0 {
        0
    } else {
        quote_count(s, i - 1) + if s[i - 1] == '"' { 1nat } else { 0nat }
    }
}

/// Position `i` stands outside strings: an even number of quotation marks precede it.
pub open spec fn outside(s: Seq<char>, i: int) -> bool {
    quote_count(s, i) % 2 == 0
}

/// How many `open` characters outside strings before position `i` are not closed by a
/// `close` character outside strings.
pub open spec fn depth(s: Seq<char>, i: int, open: char, close: char) -> int
    decreases i,
{
    if i <= 0 {
        0
    } else {
        depth(s, i - 1, open, close) + if outside(s, i - 1) && s[i - 1] == open {
            1int
        } else if outside(s, i - 1) && s[i - 1] == close {
            -1int
        } else {
            0int
        }
    }
}

/// A closing brace or bracket outside strings with nothing to close.
pub open spec fn unmatched_at(s: Seq<char>, j: int) -> bool {
    outside(s, j) && ((s[j] == '}' && depth(s, j, '{', '}') == 0) || (s[j] == ']' && depth(s, j, '[', ']') == 0))
}

/// An occurrence of `t` outside strings, objects and arrays.
pub open spec fn top_level_at(s: Seq<char>, j: int, t: char) -> bool {
    s[j] == t && outside(s, j) && depth(s, j, '{', '}') == 0 && depth(s, j, '[', ']') == 0
}

/// The top-level occurrences of `t` from position `i` on, in increasing order.
pub open spec fn top_level_from(s: Seq<char>, i: int, t: char) -> Seq<int>
    decreases s.len() - i,
{
    if i >= s.len() || i < 0 {
        Seq::empty()
    } else {
        (if top_level_at(s, i, t) { seq![i] } else { Seq::empty() }) + top_level_from(s, i + 1, t)
    }
}

/// A text without single quotation marks or backslashes.
pub open spec fn simple_text(s: Seq<char>) -> bool {
    forall|k: int| 0 <= k < s.len() ==> (#[trigger] s[k] != '\'' && s[k] != '\\')
}

/// The scanner's state after the first `i` characters of a simple text.
pub open spec fn state_at(s: Seq<char>, i: int) -> ScanState {
    (
        if outside(s, i) { None } else { Some('"') },
        false,
        depth(s, i, '{', '}') as nat,
        depth(s, i, '[', ']') as nat,
    )
}

proof fn lemma_depth_nonneg(s: Seq<char>, i: int)
    requires
        0 <= i <= s.len(),
        forall|j: int| 0 <= j < i ==> !#[trigger] unmatched_at(s, j),
    ensures
        depth(s, i, '{', '}') >= 0,
        depth(s, i, '[', ']') >= 0,
    decreases i,
{
    if i > 0 {
        assert(!unmatched_at(s, i - 1));
        lemma_depth_nonneg(s, i - 1);
    }
}

proof fn lemma_scan_counts(s: Seq<char>, i: int, t: char)
    requires
        simple_text(s),
        t != '"' && t != '{' && t != '}' && t != '[' && t != ']',
        0 <= i <= s.len(),
        forall|j: int| 0 <= j < i ==> !#[trigger] unmatched_at(s, j),
    ensures
        scan_from(s, i, state_at(s, i), t, false) == if exists|j: int| i <= j < s.len() && #[trigger] unmatched_at(s, j) {
            None
        } else {
            Some(top_level_from(s, i, t))
        },
    decreases s.len() - i,
{
    lemma_depth_nonneg(s, i);
    if i < s.len() {
        let c = s[i];
        let st = state_at(s, i);
        assert(c != '\'' && c != '\\');
        assert(quote_count(s, i + 1) == quote_count(s, i) + if c == '"' { 1nat } else { 0nat });
        if unmatched_at(s, i) {
            assert(scan_step(st, c, t) is None);
        } else {
            assert(scan_step(st, c, t) == Some((state_at(s, i + 1), top_level_at(s, i, t))));
            assert forall|j: int| 0 <= j < i + 1 implies !#[trigger] unmatched_at(s, j) by {}
            lemma_scan_counts(s, i + 1, t);
            if exists|j: int| i <= j < s.len() && #[trigger] unmatched_at(s, j) {
                let j = choose|j: int| i <= j < s.len() && #[trigger] unmatched_at(s, j);
                assert(j != i);
                assert(i + 1 <= j < s.len() && unmatched_at(s, j));
            } else {
                assert(!exists|j: int| i + 1 <= j < s.len() && #[trigger] unmatched_at(s, j)) by {
                    if exists|j: int| i + 1 <= j < s.len() && #[trigger] unmatched_at(s, j) {
                        let j = choose|j: int| i + 1 <= j < s.len() && #[trigger] unmatched_at(s, j);
                        assert(i <= j < s.len() && unmatched_at(s, j));
                    }
                }
            }
        }
    }
}

/// The separator search on a text without single quotation marks or backslashes, for a
/// character that is no quotation mark, brace or bracket: where a closing brace or
/// bracket outside strings has nothing to close, the search is refused; otherwise it finds
/// exactly the occurrences that stand outside strings (after an even number of quotation
/// marks), objects and arrays, in increasing order.
pub proof fn law_find_chars_counts(s: Seq<char>, t: char)
    requires
        simple_text(s),
        t != '"' && t != '{' && t != '}' && t != '[' && t != ']',
    ensures
        find_chars_spec(s, t, false) == if exists|j: int| 0 <= j < s.len() && #[trigger] unmatched_at(s, j) {
            None
        } else {
            Some(top_level_from(s, 0, t))
        },
{
    assert(state_at(s, 0) == scan_start());
    lemma_scan_counts(s, 0, t);
}

} // verus!
