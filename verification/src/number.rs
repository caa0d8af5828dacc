//! Which texts the writer emits bare, as numbers: those that Rust reads as an `i128`, a
//! `u128` or an `f64`. The grammars are those that the documentation of `FromStr` for
//! these types gives.
use vstd::prelude::*;

verus! {

pub open spec fn is_ascii_digit(c: char) -> bool {
    0x30 <= (c as u32) <= 0x39
}

pub open spec fn all_digits(s: Seq<char>) -> bool {
    forall|i: int| 0 <= i < s.len() ==> is_ascii_digit(#[trigger] s[i])
}

/// The number that a string of decimal digits denotes.
pub open spec fn digits_value(s: Seq<char>) -> nat
    decreases s.len(),
{
    if s.len() == 0 {
        0
    } else {
        digits_value(s.drop_last()) * 10 + ((s.last() as u32) - 0x30) as nat
    }
}

pub open spec fn is_sign(c: char) -> bool {
    c == '+' || c == '-'
}

/// `s` without one leading sign character.
pub open spec fn strip_sign(s: Seq<char>) -> Seq<char> {
    if s.len() > 0 && is_sign(s[0]) {
        s.drop_first()
    } else {
        s
    }
}

/// `str::parse::<u128>` succeeds: an optional `+`, then one or more digits whose value
/// fits in 128 bits.
pub open spec fn parses_as_u128(s: Seq<char>) -> bool {
    let d = if s.len() > 0 && s[0] == '+' {
        s.drop_first()
    } else {
        s
    };
    d.len() > 0 && all_digits(d) && digits_value(d) <= u128::MAX
}

/// `str::parse::<i128>` succeeds: an optional sign, then one or more digits whose signed
/// value lies in the range of `i128`.
pub open spec fn parses_as_i128(s: Seq<char>) -> bool {
    let d = strip_sign(s);
    let negative = s.len() > 0 && s[0] == '-';
    &&& d.len() > 0
    &&& all_digits(d)
    &&& if negative {
        digits_value(d) <= 0x8000_0000_0000_0000_0000_0000_0000_0000
    } else {
        digits_value(d) <= 0x7fff_ffff_ffff_ffff_ffff_ffff_ffff_ffff
    }
}

/// `c` is the lower-case ASCII letter `lower`, in either case.
pub open spec fn eq_ignore_case(c: char, lower: char) -> bool {
    c == lower || (c as u32) + 32 == (lower as u32)
}

pub open spec fn matches_word(s: Seq<char>, w: Seq<char>) -> bool {
    s.len() == w.len() && forall|i: int| 0 <= i < s.len() ==> eq_ignore_case(#[trigger] s[i], w[i])
}

pub open spec fn is_float_special(s: Seq<char>) -> bool {
    ||| matches_word(s, seq!['i', 'n', 'f'])
    ||| matches_word(s, seq!['i', 'n', 'f', 'i', 'n', 'i', 't', 'y'])
    ||| matches_word(s, seq!['n', 'a', 'n'])
}

/// `Digit+ | Digit+ '.' Digit* | Digit* '.' Digit+`
pub open spec fn is_mantissa(m: Seq<char>) -> bool {
    ||| m.len() > 0 && all_digits(m)
    ||| exists|p: int|
        0 <= p < m.len() && #[trigger] m[p] == '.' && all_digits(m.take(p)) && all_digits(
            m.skip(p + 1),
        ) && m.len() > 1
}

pub open spec fn is_exp_marker(c: char) -> bool {
    c == 'e' || c == 'E'
}

/// `Sign? Digit+`
pub open spec fn is_exponent(x: Seq<char>) -> bool {
    strip_sign(x).len() > 0 && all_digits(strip_sign(x))
}

/// `Mantissa Exp?` where `Exp ::= 'e' Sign? Digit+`.
pub open spec fn is_float_number(n: Seq<char>) -> bool {
    ||| is_mantissa(n)
    ||| exists|k: int|
        0 <= k < n.len() && is_exp_marker(#[trigger] n[k]) && is_mantissa(n.take(k)) && is_exponent(
            n.skip(k + 1),
        )
}

/// `str::parse::<f64>` succeeds: `Sign? ('inf' | 'infinity' | 'nan' | Number)`, with the
/// letters in either case.
pub open spec fn parses_as_f64(s: Seq<char>) -> bool {
    is_float_special(strip_sign(s)) || is_float_number(strip_sign(s))
}

/// A value that the writer emits without quotes.
pub open spec fn is_number_text(s: Seq<char>) -> bool {
    parses_as_i128(s) || parses_as_u128(s) || parses_as_f64(s)
}

/// Every text that Rust reads as a 128-bit integer it also reads as an `f64`, so the
/// writer's test comes down to the `f64` grammar.
pub proof fn lemma_integer_text_is_float_text(s: Seq<char>)
    ensures
        is_number_text(s) <==> parses_as_f64(s),
{
    if parses_as_u128(s) {
        if s.len() > 0 && s[0] == '+' {
            assert(strip_sign(s) == s.drop_first());
        } else {
            assert(s[0] != '-') by {
                assert(is_ascii_digit(s[0]));
            }
            assert(strip_sign(s) == s);
        }
    }
}

pub(crate) fn digit_char(c: char) -> (r: bool)
    ensures
        r == is_ascii_digit(c),
{
    let u: u32 = c as u32;
    0x30 <= u && u <= 0x39
}

fn ieq(c: char, lower: char) -> (r: bool)
    requires
        0x61 <= (lower as u32) <= 0x7a,
    ensures
        r == eq_ignore_case(c, lower),
{
    let u: u32 = c as u32;
    let l: u32 = lower as u32;
    c == lower || u + 32 == l
}

/// Whether `s[lo..hi]` is all digits.
fn all_digits_range(s: &[char], lo: usize, hi: usize) -> (r: bool)
    requires
        lo <= hi <= s@.len(),
    ensures
        r == all_digits(s@.subrange(lo as int, hi as int)),
{
    let mut i: usize = lo;
    while i < hi
        invariant
            lo <= i <= hi <= s@.len(),
            forall|j: int| lo <= j < i ==> is_ascii_digit(#[trigger] s@[j]),
        decreases hi - i,
    {
        if !digit_char(s[i]) {
            assert(s@.subrange(lo as int, hi as int)[i - lo] == s@[i as int]);
            return false;
        }
        i = i + 1;
    }
    assert forall|j: int| 0 <= j < hi - lo implies is_ascii_digit(
        #[trigger] s@.subrange(lo as int, hi as int)[j],
    ) by {
        assert(s@.subrange(lo as int, hi as int)[j] == s@[lo + j]);
    }
    true
}

/// Whether `s[lo..hi]` is a mantissa.
fn mantissa_range(s: &[char], lo: usize, hi: usize) -> (r: bool)
    requires
        lo <= hi <= s@.len(),
    ensures
        r == is_mantissa(s@.subrange(lo as int, hi as int)),
{
    let ghost m = s@.subrange(lo as int, hi as int);
    let mut p: usize = lo;
    while p < hi && digit_char(s[p])
        invariant
            lo <= p <= hi <= s@.len(),
            m == s@.subrange(lo as int, hi as int),
            forall|j: int| lo <= j < p ==> is_ascii_digit(#[trigger] s@[j]),
        decreases hi - p,
    {
        p = p + 1;
    }
    let ghost q = p - lo;
    assert(all_digits(m.take(q))) by {
        assert forall|j: int| 0 <= j < q implies is_ascii_digit(#[trigger] m.take(q)[j]) by {
            assert(m.take(q)[j] == s@[lo + j]);
        }
    }
    if p == hi {
        assert(m.take(q) =~= m);
        return hi > lo;
    }
    assert(m[q] == s@[p as int]);
    assert(!all_digits(m)) by {
        assert(!is_ascii_digit(m[q]));
    }
    if s[p] != '.' {
        assert(!is_mantissa(m)) by {
            if exists|p2: int|
                0 <= p2 < m.len() && #[trigger] m[p2] == '.' && all_digits(m.take(p2)) && all_digits(
                    m.skip(p2 + 1),
                ) && m.len() > 1 {
                let p2 = choose|p2: int|
                    0 <= p2 < m.len() && #[trigger] m[p2] == '.' && all_digits(m.take(p2))
                        && all_digits(m.skip(p2 + 1)) && m.len() > 1;
                if p2 < q {
                    assert(m.take(q)[p2] == m[p2]);
                } else if p2 > q {
                    assert(m.take(p2)[q] == m[q]);
                }
            }
        }
        return false;
    }
    let rest = all_digits_range(s, p + 1, hi);
    proof {
        assert(m.skip(q + 1) =~= s@.subrange(p + 1, hi as int));
        if !rest {
            assert(!is_mantissa(m)) by {
                if exists|p2: int|
                    0 <= p2 < m.len() && #[trigger] m[p2] == '.' && all_digits(m.take(p2))
                        && all_digits(m.skip(p2 + 1)) && m.len() > 1 {
                    let p2 = choose|p2: int|
                        0 <= p2 < m.len() && #[trigger] m[p2] == '.' && all_digits(m.take(p2))
                            && all_digits(m.skip(p2 + 1)) && m.len() > 1;
                    if p2 < q {
                        assert(m.take(q)[p2] == m[p2]);
                    } else if p2 > q {
                        assert(m.take(p2)[q] == m[q]);
                    }
                }
            }
        }
    }
    rest && hi - lo > 1
}

/// Whether `s[lo..hi]` is an exponent: an optional sign, then digits.
fn exponent_range(s: &[char], lo: usize, hi: usize) -> (r: bool)
    requires
        lo <= hi <= s@.len(),
    ensures
        r == is_exponent(s@.subrange(lo as int, hi as int)),
{
    let ghost x = s@.subrange(lo as int, hi as int);
    let start: usize = if lo < hi && (s[lo] == '+' || s[lo] == '-') {
        lo + 1
    } else {
        lo
    };
    assert(strip_sign(x) =~= s@.subrange(start as int, hi as int));
    start < hi && all_digits_range(s, start, hi)
}

proof fn lemma_mantissa_has_no_marker(m: Seq<char>, i: int)
    requires
        is_mantissa(m),
        0 <= i < m.len(),
    ensures
        !is_exp_marker(m[i]),
{
    if m.len() > 0 && all_digits(m) {
        assert(is_ascii_digit(m[i]));
    } else {
        let p = choose|p: int|
            0 <= p < m.len() && #[trigger] m[p] == '.' && all_digits(m.take(p)) && all_digits(
                m.skip(p + 1),
            ) && m.len() > 1;
        if i < p {
            assert(m.take(p)[i] == m[i]);
            assert(is_ascii_digit(m.take(p)[i]));
        } else if i > p {
            assert(m.skip(p + 1)[i - p - 1] == m[i]);
            assert(is_ascii_digit(m.skip(p + 1)[i - p - 1]));
        }
    }
}

/// Whether `s[lo..hi]` is a decimal number, with an optional exponent.
fn float_number_range(s: &[char], lo: usize, hi: usize) -> (r: bool)
    requires
        lo <= hi <= s@.len(),
    ensures
        r == is_float_number(s@.subrange(lo as int, hi as int)),
{
    let ghost n = s@.subrange(lo as int, hi as int);
    let mut k: usize = lo;
    while k < hi && !(s[k] == 'e' || s[k] == 'E')
        invariant
            lo <= k <= hi <= s@.len(),
            n == s@.subrange(lo as int, hi as int),
            forall|j: int| lo <= j < k ==> !is_exp_marker(#[trigger] s@[j]),
        decreases hi - k,
    {
        k = k + 1;
    }
    if k == hi {
        let r = mantissa_range(s, lo, hi);
        proof {
            if !r {
                assert(!is_float_number(n)) by {
                    if exists|k2: int|
                        0 <= k2 < n.len() && is_exp_marker(#[trigger] n[k2]) && is_mantissa(
                            n.take(k2),
                        ) && is_exponent(n.skip(k2 + 1)) {
                        let k2 = choose|k2: int|
                            0 <= k2 < n.len() && is_exp_marker(#[trigger] n[k2]) && is_mantissa(
                                n.take(k2),
                            ) && is_exponent(n.skip(k2 + 1));
                        assert(n[k2] == s@[lo + k2]);
                    }
                }
            }
        }
        return r;
    }
    let ghost q = k - lo;
    assert(n[q] == s@[k as int]);
    let a = mantissa_range(s, lo, k);
    let b = exponent_range(s, k + 1, hi);
    proof {
        assert(n.take(q) =~= s@.subrange(lo as int, k as int));
        assert(n.skip(q + 1) =~= s@.subrange(k + 1, hi as int));
        if is_mantissa(n) {
            lemma_mantissa_has_no_marker(n, q);
        }
        if !(a && b) {
            assert(!is_float_number(n)) by {
                if exists|k2: int|
                    0 <= k2 < n.len() && is_exp_marker(#[trigger] n[k2]) && is_mantissa(n.take(k2))
                        && is_exponent(n.skip(k2 + 1)) {
                    let k2 = choose|k2: int|
                        0 <= k2 < n.len() && is_exp_marker(#[trigger] n[k2]) && is_mantissa(
                            n.take(k2),
                        ) && is_exponent(n.skip(k2 + 1));
                    if k2 < q {
                        assert(n[k2] == s@[lo + k2]);
                    } else if k2 > q {
                        assert(n.take(k2)[q] == n[q]);
                        lemma_mantissa_has_no_marker(n.take(k2), q);
                    }
                }
            }
        }
    }
    a && b
}

/// Whether `s[lo..hi]` spells `word` (given in lower case), letters in either case.
fn word_range(s: &[char], lo: usize, hi: usize, word: &[char]) -> (r: bool)
    requires
        lo <= hi <= s@.len(),
        forall|i: int| 0 <= i < word@.len() ==> 0x61 <= (#[trigger] word@[i] as u32) <= 0x7a,
    ensures
        r == matches_word(s@.subrange(lo as int, hi as int), word@),
{
    if hi - lo != word.len() {
        return false;
    }
    let mut i: usize = 0;
    while i < word.len()
        invariant
            lo <= hi <= s@.len(),
            hi - lo == word@.len(),
            i <= word@.len(),
            forall|j: int| 0 <= j < word@.len() ==> 0x61 <= (#[trigger] word@[j] as u32) <= 0x7a,
            forall|j: int| 0 <= j < i ==> eq_ignore_case(#[trigger] s@[lo + j], word@[j]),
        decreases word@.len() - i,
    {
        if !ieq(s[lo + i], word[i]) {
            assert(s@.subrange(lo as int, hi as int)[i as int] == s@[lo + i]);
            return false;
        }
        i = i + 1;
    }
    assert forall|j: int| 0 <= j < hi - lo implies eq_ignore_case(
        #[trigger] s@.subrange(lo as int, hi as int)[j],
        word@[j],
    ) by {
        assert(s@.subrange(lo as int, hi as int)[j] == s@[lo + j]);
    }
    true
}

/// Whether the writer emits `s` bare: whether Rust reads it as an `i128`, a `u128` or an
/// `f64`.
pub fn is_number_chars(s: &[char]) -> (r: bool)
    ensures
        r == is_number_text(s@),
{
    let n = s.len();
    let lo: usize = if n > 0 && (s[0] == '+' || s[0] == '-') {
        1
    } else {
        0
    };
    let ghost b = strip_sign(s@);
    assert(b =~= s@.subrange(lo as int, n as int));
    let inf: [char; 3] = ['i', 'n', 'f'];
    let infinity: [char; 8] = ['i', 'n', 'f', 'i', 'n', 'i', 't', 'y'];
    let nan: [char; 3] = ['n', 'a', 'n'];
    assert(inf@ =~= seq!['i', 'n', 'f']);
    assert(infinity@ =~= seq!['i', 'n', 'f', 'i', 'n', 'i', 't', 'y']);
    assert(nan@ =~= seq!['n', 'a', 'n']);
    let special = word_range(s, lo, n, inf.as_slice()) || word_range(
        s,
        lo,
        n,
        infinity.as_slice(),
    ) || word_range(s, lo, n, nan.as_slice());
    let r = special || float_number_range(s, lo, n);
    proof {
        lemma_integer_text_is_float_text(s@);
    }
    r
}

} // verus!
