//! White space and escapes in the reader: white space around a value or after a field's
//! colon never changes a reading, and every escape `\c` of a backslash, a slash or a
//! quotation mark reads as `c`.
use vstd::prelude::*;
use crate::chars::{is_control, is_white_space};
use crate::error::Failure;
use crate::json::Json;
use crate::parse::{parse_string, parse_field, parse_item, parse_value, unescape_from, is_quote, is_escapable, null_text};
use crate::scan::{find_chars_spec, scan_from, scan_step, scan_start, lemma_scan_positions, ScanState};
use crate::text::{
    slice_trim, slice_trim_fails, slice_trim_start, leading_ws, trailing_ws, all_white_space,
    lemma_leading_ws_bound, lemma_trailing_ws_bound, lemma_ws_counts_exact, lemma_trailing_counts_exact,
};
use crate::round_trip::lemma_trim_keeps;

verus! {

/// Padding a text that is not all white space with white space on either side leaves its
/// trim as it is.
pub proof fn lemma_trim_padded(w: Seq<char>, r: Seq<char>, z: Seq<char>)
    requires
        all_white_space(w),
        all_white_space(z),
        !all_white_space(r),
    ensures
        !slice_trim_fails(r),
        !slice_trim_fails(w + r + z),
        slice_trim(w + r + z) == slice_trim(r),
{
    let x = w + r + z;
    lemma_leading_ws_bound(r);
    lemma_trailing_ws_bound(r);
    let l = leading_ws(r) as int;
    let t = trailing_ws(r) as int;
    let k = choose|k: int| 0 <= k < r.len() && !is_white_space(#[trigger] r[k]);
    assert(l < r.len()) by {
        if l == r.len() {
            assert(is_white_space(r[k]));
        }
    }
    assert(t < r.len()) by {
        if t == r.len() {
            assert(is_white_space(r[k]));
        }
    }
    assert(l <= r.len() - 1 - t) by {
        if l > r.len() - 1 - t {
            assert(is_white_space(r[l]));
        }
    }
    assert forall|i: int| 0 <= i < w.len() + l implies is_white_space(#[trigger] x[i]) by {
        if i < w.len() {
            assert(x[i] == w[i]);
        } else {
            assert(x[i] == r[i - w.len()]);
        }
    }
    assert(x[w.len() + l] == r[l]);
    lemma_ws_counts_exact(x, w.len() + l);
    assert forall|i: int| x.len() - (z.len() + t) <= i < x.len() implies is_white_space(#[trigger] x[i]) by {
        if i >= w.len() + r.len() {
            assert(x[i] == z[i - w.len() - r.len()]);
        } else {
            assert(x[i] == r[i - w.len()]);
        }
    }
    assert(x[x.len() - 1 - (z.len() + t)] == r[r.len() - 1 - t]);
    lemma_trailing_counts_exact(x, z.len() + t);
    assert(slice_trim(x) =~= slice_trim(r));
}

/// White space around an array item never changes its reading: an item made of a text
/// that starts and ends with characters other than white space, with any white space
/// before and after it, reads as that text.
pub proof fn law_item_white_space(p: Seq<char>, s: Seq<char>, q: Seq<char>)
    requires
        all_white_space(p),
        all_white_space(q),
        s.len() > 0,
        !is_white_space(s[0]),
        !is_white_space(s.last()),
    ensures
        parse_item(p + s + q) == parse_value(s),
{
    assert(!all_white_space(s)) by {
        assert(!is_white_space(s[0]));
    }
    lemma_trim_padded(p, s, q);
    lemma_trim_keeps(s);
}

/// Where the separator scan first meets its target at `k`, any text that agrees with the
/// scanned one up to `k` meets it there first too.
proof fn lemma_scan_first_prefix(s1: Seq<char>, s2: Seq<char>, i: int, st: ScanState, target: char, k: int)
    requires
        0 <= i <= k,
        k < s1.len(),
        k < s2.len(),
        forall|j: int| i <= j <= k ==> s1[j] == s2[j],
        scan_from(s1, i, st, target, true) == Some(seq![k]),
    ensures
        scan_from(s2, i, st, target, true) == Some(seq![k]),
    decreases k - i,
{
    assert(s1[i] == s2[i]);
    match scan_step(st, s1[i], target) {
        None => {},
        Some((next, hit)) => {
            if !hit {
                lemma_scan_positions(s1, i + 1, next, target, true);
                let rest = scan_from(s1, i + 1, next, target, true).unwrap();
                assert(rest == seq![k]);
                assert(rest[0] == k);
                lemma_scan_first_prefix(s1, s2, i + 1, next, target, k);
            }
        },
    }
}

/// White space after a field's colon never changes the field's reading: inserting any
/// white space right after the first top-level colon of the trimmed field text gives the
/// same result.
pub proof fn law_field_space_after_colon(x: Seq<char>, w: Seq<char>, c: int)
    requires
        !slice_trim_fails(x),
        all_white_space(w),
        find_chars_spec(slice_trim(x), ':', true) == Some(seq![c]),
    ensures
        parse_field(slice_trim(x).take(c + 1) + w + slice_trim(x).skip(c + 1)) == parse_field(x),
{
    let t = slice_trim(x);
    lemma_scan_positions(t, 0, scan_start(), ':', true);
    assert(0 <= c < t.len());
    assert(t[c] == ':');
    crate::text::law_slice_trim(x);
    assert(!all_white_space(x)) by {
        assert(t[c] == x[slice_trim_start(x) + c]);
        assert(!is_white_space(x[slice_trim_start(x) + c]));
    }
    let a = t.take(c + 1);
    let rest = t.skip(c + 1);
    let x2 = a + w + rest;
    assert(t =~= a + rest);
    assert(!all_white_space(t)) by {
        assert(!is_white_space(t[c]));
    }
    if rest.len() == 0 {
        assert(x2 =~= Seq::<char>::empty() + t + w);
        assert(all_white_space(Seq::<char>::empty()));
        lemma_trim_padded(Seq::empty(), t, w);
        lemma_trim_keeps(t);
    } else {
        assert(x2[0] == t[0]);
        assert(x2.last() == t.last());
        lemma_trim_keeps(x2);
        assert(slice_trim(x2) == x2);
        assert forall|j: int| 0 <= j <= c implies t[j] == x2[j] by {}
        lemma_scan_first_prefix(t, x2, 0, scan_start(), ':', c);
        assert(x2.take(c) =~= t.take(c));
        assert(x2.skip(c + 1) =~= w + rest);
        assert(!all_white_space(rest)) by {
            assert(rest.last() == t.last());
        }
        assert(w + rest =~= w + rest + Seq::<char>::empty());
        assert(all_white_space(Seq::<char>::empty()));
        lemma_trim_padded(w, rest, Seq::empty());
    }
}

/// How a backslash-escaping writer writes a character: a backslash, a slash or a quotation
/// mark after a backslash, any other character as it stands.
pub open spec fn backslash_escape(c: char) -> Seq<char> {
    if c == '\\' || c == '/' || is_quote(c) {
        seq!['\\', c]
    } else {
        seq![c]
    }
}

pub open spec fn backslash_escaped(w: Seq<char>) -> Seq<char>
    decreases w.len(),
{
    if w.len() == 0 {
        Seq::empty()
    } else {
        backslash_escaped(w.drop_last()) + backslash_escape(w.last())
    }
}

proof fn lemma_escaped_concat(a: Seq<char>, b: Seq<char>)
    ensures
        backslash_escaped(a + b) == backslash_escaped(a) + backslash_escaped(b),
    decreases b.len(),
{
    if b.len() == 0 {
        assert(a + b =~= a);
        assert(backslash_escaped(a) + Seq::<char>::empty() =~= backslash_escaped(a));
    } else {
        assert((a + b).drop_last() =~= a + b.drop_last());
        assert((a + b).last() == b.last());
        lemma_escaped_concat(a, b.drop_last());
        assert(backslash_escaped(a) + backslash_escaped(b.drop_last()) + backslash_escape(b.last())
            =~= backslash_escaped(a) + (backslash_escaped(b.drop_last()) + backslash_escape(b.last())));
    }
}

proof fn lemma_unescape_one(s: Seq<char>, i: int, c: char, q: char, out: Seq<char>)
    requires
        is_quote(q),
        !is_control(c),
        0 <= i,
        i + backslash_escape(c).len() <= s.len(),
        s.subrange(i, i + backslash_escape(c).len()) == backslash_escape(c),
    ensures
        unescape_from(s, i, Some(q), false, out) == unescape_from(
            s,
            i + backslash_escape(c).len(),
            Some(q),
            false,
            out.push(c),
        ),
{
    let e = backslash_escape(c);
    assert forall|k: int| 0 <= k < e.len() implies s[i + k] == #[trigger] e[k] by {
        assert(s.subrange(i, i + e.len())[k] == s[i + k]);
    }
    if c == '\\' || c == '/' || is_quote(c) {
        assert(e[0] == '\\' && e[1] == c);
        assert(s[i] == '\\');
        assert(s[i + 1] == c);
        assert(is_escapable(c));
        assert(unescape_from(s, i, Some(q), false, out) == unescape_from(s, i + 1, Some(q), true, out));
    } else {
        assert(e[0] == c);
        assert(s[i + 0] == e[0]);
        assert(s[i] == c);
    }
}

proof fn lemma_unescape_all(w: Seq<char>, e: Seq<char>, k: int, q: char, out: Seq<char>)
    requires
        is_quote(q),
        forall|j: int| 0 <= j < w.len() ==> !is_control(#[trigger] w[j]),
        0 <= k <= w.len(),
        e == backslash_escaped(w),
    ensures
        unescape_from(e, backslash_escaped(w.take(k)).len() as int, Some(q), false, out) == Ok::<Seq<char>, crate::error::JsonError>(out + w.skip(k)),
    decreases w.len() - k,
{
    if k == w.len() {
        assert(w.take(k) =~= w);
        assert(w.skip(k) =~= Seq::<char>::empty());
        assert(out + Seq::<char>::empty() =~= out);
    } else {
        let c = w[k];
        let pre = backslash_escaped(w.take(k));
        assert(w.take(k + 1).drop_last() =~= w.take(k));
        assert(w.take(k + 1).last() == c);
        assert(w =~= w.take(k + 1) + w.skip(k + 1));
        lemma_escaped_concat(w.take(k + 1), w.skip(k + 1));
        assert(e == pre + backslash_escape(c) + backslash_escaped(w.skip(k + 1)));
        assert(e.subrange(pre.len() as int, (pre.len() + backslash_escape(c).len()) as int) =~= backslash_escape(c));
        lemma_unescape_one(e, pre.len() as int, c, q, out);
        lemma_unescape_all(w, e, k + 1, q, out.push(c));
        assert(out.push(c) + w.skip(k + 1) =~= out + w.skip(k));
    }
}

/// Every escape `\c` of a backslash, a slash or a quotation mark reads as `c`, inside
/// either kind of quotation marks: a text without control characters, written between
/// quotation marks with each of those characters escaped by a backslash, reads back as
/// itself.
pub proof fn law_backslash_escapes(w: Seq<char>, q: char)
    requires
        is_quote(q),
        forall|j: int| 0 <= j < w.len() ==> !is_control(#[trigger] w[j]),
    ensures
        parse_string(seq![q] + backslash_escaped(w) + seq![q]) == Ok::<Json, Failure>(Json::Value(w)),
{
    let e = backslash_escaped(w);
    let t = seq![q] + e + seq![q];
    assert(t[0] == q);
    assert(t.last() == q);
    lemma_trim_keeps(t);
    assert(t != null_text()) by {
        assert(t[0] != null_text()[0]);
    }
    assert(t.subrange(1, t.len() - 1) =~= e);
    assert(w.take(0) =~= Seq::<char>::empty());
    lemma_unescape_all(w, e, 0, q, Seq::empty());
    assert(Seq::<char>::empty() + w.skip(0) =~= w);
}

} // verus!
