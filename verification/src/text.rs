//! Text as sequences of characters: conversions between `str` and `Vec<char>`, and
//! the two trimming rules of the library.
use vstd::prelude::*;
use crate::chars::{is_white_space, char_is_whitespace};

verus! {

/// Number of white-space characters at the front of `s`.
pub open spec fn leading_ws(s: Seq<char>) -> nat
    decreases s.len(),
{
    if s.len() == 0 {
        0
    } else if is_white_space(s[0]) {
        1 + leading_ws(s.drop_first())
    } else {
        0
    }
}

/// Number of white-space characters at the back of `s`.
pub open spec fn trailing_ws(s: Seq<char>) -> nat
    decreases s.len(),
{
    if s.len() == 0 {
        0
    } else if is_white_space(s.last()) {
        1 + trailing_ws(s.drop_last())
    } else {
        0
    }
}

/// `s` without its leading and trailing white space (the rule of `str::trim`).
pub open spec fn trim_ws(s: Seq<char>) -> Seq<char> {
    if leading_ws(s) == s.len() {
        Seq::empty()
    } else {
        s.subrange(leading_ws(s) as int, s.len() - trailing_ws(s))
    }
}

/// Where the character-slice trim starts: the first non-white-space character, or the
/// last character when there is none.
pub open spec fn slice_trim_start(s: Seq<char>) -> int {
    if s.len() == 0 {
        0
    } else if leading_ws(s) == s.len() {
        s.len() - 1
    } else {
        leading_ws(s) as int
    }
}

/// How many characters the character-slice trim drops at the back: the trailing white
/// space, or all but one character when the slice is all white space.
pub open spec fn slice_trim_drop(s: Seq<char>) -> int {
    if s.len() == 0 {
        0
    } else if trailing_ws(s) == s.len() {
        s.len() - 1
    } else {
        trailing_ws(s) as int
    }
}

/// The character-slice trim fails (its range is reversed) exactly on slices made of
/// three or more white-space characters.
pub open spec fn slice_trim_fails(s: Seq<char>) -> bool {
    slice_trim_start(s) > s.len() - slice_trim_drop(s)
}

/// The result of the character-slice trim, where it does not fail.
pub open spec fn slice_trim(s: Seq<char>) -> Seq<char> {
    s.subrange(slice_trim_start(s), s.len() - slice_trim_drop(s))
}

pub proof fn lemma_leading_ws_bound(s: Seq<char>)
    ensures
        leading_ws(s) <= s.len(),
        forall|i: int| 0 <= i < leading_ws(s) ==> is_white_space(#[trigger] s[i]),
        leading_ws(s) < s.len() ==> !is_white_space(s[leading_ws(s) as int]),
    decreases s.len(),
{
    if s.len() > 0 && is_white_space(s[0]) {
        lemma_leading_ws_bound(s.drop_first());
        assert forall|i: int| 0 <= i < leading_ws(s) implies is_white_space(#[trigger] s[i]) by {
            if i > 0 {
                assert(s[i] == s.drop_first()[i - 1]);
            }
        }
    }
}

pub proof fn lemma_trailing_ws_bound(s: Seq<char>)
    ensures
        trailing_ws(s) <= s.len(),
        forall|i: int| s.len() - trailing_ws(s) <= i < s.len() ==> is_white_space(#[trigger] s[i]),
        trailing_ws(s) < s.len() ==> !is_white_space(s[s.len() - 1 - trailing_ws(s)]),
    decreases s.len(),
{
    if s.len() > 0 && is_white_space(s.last()) {
        lemma_trailing_ws_bound(s.drop_last());
        assert forall|i: int| s.len() - trailing_ws(s) <= i < s.len() implies is_white_space(
            #[trigger] s[i],
        ) by {
            if i < s.len() - 1 {
                assert(s[i] == s.drop_last()[i]);
            }
        }
    }
}

/// The two counts characterise the first and last non-white-space positions.
pub proof fn lemma_ws_counts_exact(s: Seq<char>, k: int)
    requires
        0 <= k <= s.len(),
        forall|i: int| 0 <= i < k ==> is_white_space(#[trigger] s[i]),
        k < s.len() ==> !is_white_space(s[k]),
    ensures
        leading_ws(s) == k,
    decreases s.len(),
{
    if s.len() > 0 && k > 0 {
        assert(is_white_space(s[0]));
        assert forall|i: int| 0 <= i < k - 1 implies is_white_space(#[trigger] s.drop_first()[i]) by {
            assert(s.drop_first()[i] == s[i + 1]);
        }
        if k < s.len() {
            assert(s.drop_first()[k - 1] == s[k]);
        }
        lemma_ws_counts_exact(s.drop_first(), k - 1);
    }
}

pub proof fn lemma_trailing_counts_exact(s: Seq<char>, k: int)
    requires
        0 <= k <= s.len(),
        forall|i: int| s.len() - k <= i < s.len() ==> is_white_space(#[trigger] s[i]),
        k < s.len() ==> !is_white_space(s[s.len() - 1 - k]),
    ensures
        trailing_ws(s) == k,
    decreases s.len(),
{
    if s.len() > 0 && k > 0 {
        assert(is_white_space(s[s.len() - 1]));
        assert forall|i: int| s.len() - 1 - (k - 1) <= i < s.len() - 1 implies is_white_space(
            #[trigger] s.drop_last()[i],
        ) by {
            assert(s.drop_last()[i] == s[i]);
        }
        if k < s.len() {
            assert(s.drop_last()[s.len() - 1 - 1 - (k - 1)] == s[s.len() - 1 - k]);
        }
        lemma_trailing_counts_exact(s.drop_last(), k - 1);
    }
}

pub open spec fn all_white_space(s: Seq<char>) -> bool {
    forall|i: int| 0 <= i < s.len() ==> is_white_space(#[trigger] s[i])
}

/// Where the character-slice trim is defined: it fails exactly on slices of three or more
/// characters that are all white space. Where it is defined and the slice holds a
/// character that is not white space, the result starts and ends with such a character
/// and is what `str::trim` gives.
pub proof fn law_slice_trim(s: Seq<char>)
    ensures
        slice_trim_fails(s) <==> (s.len() >= 3 && all_white_space(s)),
        !all_white_space(s) ==> {
            &&& slice_trim(s).len() > 0
            &&& !is_white_space(slice_trim(s)[0])
            &&& !is_white_space(slice_trim(s).last())
            &&& slice_trim(s) == trim_ws(s)
        },
{
    lemma_leading_ws_bound(s);
    lemma_trailing_ws_bound(s);
    if all_white_space(s) {
        lemma_ws_counts_exact(s, s.len() as int);
        lemma_trailing_counts_exact(s, s.len() as int);
    } else {
        let k = choose|k: int| 0 <= k < s.len() && !is_white_space(#[trigger] s[k]);
        assert(leading_ws(s) < s.len()) by {
            if leading_ws(s) == s.len() {
                assert(is_white_space(s[k]));
            }
        }
        assert(trailing_ws(s) < s.len()) by {
            if trailing_ws(s) == s.len() {
                assert(is_white_space(s[k]));
            }
        }
        let l = leading_ws(s) as int;
        let t = trailing_ws(s) as int;
        assert(l <= s.len() - 1 - t) by {
            if l > s.len() - 1 - t {
                assert(is_white_space(s[l]));
            }
        }
        let r = slice_trim(s);
        assert(r[0] == s[l]);
        assert(r.last() == s[s.len() - 1 - t]);
    }
}

/// The characters of a string slice, in order.
pub fn chars_of_str(s: &str) -> (v: Vec<char>)
    ensures
        v@ == s@,
{
    let mut v: Vec<char> = Vec::new();
    for c in it: s.chars()
        invariant
            v@ == it.seq().take(it.index() as int),
    {
        v.push(c);
    }
    v
}

/// Collects characters into a `String` (`FromIterator<&char>` for `String`); the
/// result holds exactly the given characters, in order.
#[verifier::external_body]
pub(crate) fn string_of_chars(v: &[char]) -> (s: String)
    ensures
        s@ == v@,
{
    v.iter().collect::<String>()
}

/// Bounds `(b, e)` of the character-slice trim of `s[lo..hi]`, relative to `s`;
/// `None` where that trim fails.
pub fn slice_trim_bounds(s: &[char], lo: usize, hi: usize) -> (r: Option<(usize, usize)>)
    requires
        lo <= hi <= s@.len(),
    ensures
        ({
            let t = s@.subrange(lo as int, hi as int);
            match r {
                None => slice_trim_fails(t),
                Some((b, e)) => !slice_trim_fails(t) && b == lo + slice_trim_start(t) && e == hi
                    - slice_trim_drop(t) && lo <= b <= e <= hi,
            }
        }),
{
    let ghost t = s@.subrange(lo as int, hi as int);
    proof {
        lemma_leading_ws_bound(t);
        lemma_trailing_ws_bound(t);
    }
    if lo == hi {
        return Some((lo, hi));
    }
    let mut b: usize = lo;
    while b < hi && char_is_whitespace(s[b])
        invariant
            lo <= b <= hi,
            hi <= s@.len(),
            t == s@.subrange(lo as int, hi as int),
            forall|i: int| 0 <= i < b - lo ==> is_white_space(#[trigger] t[i]),
        decreases hi - b,
    {
        b = b + 1;
    }
    proof {
        lemma_ws_counts_exact(t, b - lo);
    }
    let mut d: usize = 0;
    while d < hi - lo && char_is_whitespace(s[hi - 1 - d])
        invariant
            d <= hi - lo,
            lo < hi <= s@.len(),
            t == s@.subrange(lo as int, hi as int),
            forall|i: int| t.len() - d <= i < t.len() ==> is_white_space(#[trigger] t[i]),
        decreases hi - lo - d,
    {
        d = d + 1;
    }
    proof {
        lemma_trailing_counts_exact(t, d as int);
    }
    let start: usize = if b == hi { hi - 1 } else { b };
    let drop: usize = if d == hi - lo { hi - lo - 1 } else { d };
    if start > hi - drop {
        None
    } else {
        Some((start, hi - drop))
    }
}

/// Bounds of `s[lo..hi]` without leading and trailing white space.
pub fn ws_trim_bounds(s: &[char], lo: usize, hi: usize) -> (r: (usize, usize))
    requires
        lo <= hi <= s@.len(),
    ensures
        lo <= r.0 <= r.1 <= hi,
        s@.subrange(r.0 as int, r.1 as int) == trim_ws(s@.subrange(lo as int, hi as int)),
{
    let ghost t = s@.subrange(lo as int, hi as int);
    proof {
        lemma_leading_ws_bound(t);
        lemma_trailing_ws_bound(t);
    }
    let mut b: usize = lo;
    while b < hi && char_is_whitespace(s[b])
        invariant
            lo <= b <= hi,
            hi <= s@.len(),
            t == s@.subrange(lo as int, hi as int),
            forall|i: int| 0 <= i < b - lo ==> is_white_space(#[trigger] t[i]),
        decreases hi - b,
    {
        b = b + 1;
    }
    proof {
        lemma_ws_counts_exact(t, b - lo);
    }
    if b == hi {
        assert(s@.subrange(b as int, b as int) =~= Seq::<char>::empty());
        return (b, b);
    }
    let mut e: usize = hi;
    while e > b && char_is_whitespace(s[e - 1])
        invariant
            b < hi,
            b <= e <= hi,
            hi <= s@.len(),
            lo <= b,
            t == s@.subrange(lo as int, hi as int),
            !is_white_space(s@[b as int]),
            forall|i: int| e - lo <= i < t.len() ==> is_white_space(#[trigger] t[i]),
        decreases e - b,
    {
        e = e - 1;
    }
    proof {
        assert(t[b - lo] == s@[b as int]);
        if e < hi {
            assert(t[e - 1 - lo] == s@[e - 1]);
        }
        lemma_trailing_counts_exact(t, hi - e);
        assert(s@.subrange(b as int, e as int) =~= t.subrange(b - lo, t.len() - (hi - e)));
    }
    (b, e)
}

/// Trimming of character slices.
pub trait Trimmable<T>: Sized {
    /// Whether trimming `self` is defined.
    spec fn trim_defined(&self) -> bool;

    /// How the result of trimming relates to `self`.
    spec fn trimmed_to(&self, r: T) -> bool;

    fn trim(&self) -> (r: T)
        requires
            self.trim_defined(),
        ensures
            self.trimmed_to(r),
    ;
}

impl<'a> Trimmable<&'a [char]> for &'a [char] {
    open spec fn trim_defined(&self) -> bool {
        !slice_trim_fails(self@)
    }

    open spec fn trimmed_to(&self, r: &'a [char]) -> bool {
        r@ == slice_trim(self@)
    }

    /// Drops the leading and trailing white space of a character slice. A slice of one
    /// white-space character is kept as it is, one of two such characters becomes empty,
    /// and from three white-space characters on the trim is undefined.
    fn trim(&self) -> (r: &'a [char]) {
        let s: &'a [char] = *self;
        let b = slice_trim_bounds(s, 0, s.len());
        assert(s@.subrange(0, s@.len() as int) =~= s@);
        match b {
            Some((lo, hi)) => {
                let r = vstd::slice::slice_subrange(s, lo, hi);
                r
            },
            None => {
                proof {
                    assert(false);
                }
                s
            },
        }
    }
}

} // verus!
