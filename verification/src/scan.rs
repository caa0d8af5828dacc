//! Finding the separators of a JSON text that stand outside strings, objects and arrays.
use vstd::prelude::*;

verus! {

/// The scanner's state: the quotation mark of the string it is in (if any), whether the
/// previous character was an escaping backslash, and how many objects and arrays are open.
pub type ScanState = (Option<char>, bool, nat, nat);

pub open spec fn scan_start() -> ScanState {
    (None, false, 0, 0)
}

/// One step of the scanner on character `c`: the next state and whether `c` is an
/// occurrence of `target` at the top level; `None` where a closing brace or bracket has
/// nothing to close.
pub open spec fn scan_step(st: ScanState, c: char, target: char) -> Option<(ScanState, bool)> {
    let (closing, escaping, objects, arrays) = st;
    if (c == '"' || c == '\'') && !escaping {
        Some(((if closing is None { Some(c) } else { None }, escaping, objects, arrays), false))
    } else if c == '{' {
        Some(((closing, escaping, if closing is None { objects + 1 } else { objects }, arrays), false))
    } else if c == '[' {
        Some(((closing, escaping, objects, if closing is None { arrays + 1 } else { arrays }), false))
    } else if c == '}' && closing is None && !escaping {
        if objects > 0 {
            Some(((closing, escaping, (objects - 1) as nat, arrays), false))
        } else {
            None
        }
    } else if c == ']' && closing is None {
        if arrays > 0 {
            Some(((closing, escaping, objects, (arrays - 1) as nat), false))
        } else {
            None
        }
    } else if c == '\\' && closing is Some {
        Some(((closing, !escaping, objects, arrays), false))
    } else if c == target && closing is None && objects == 0 && arrays == 0 {
        Some(((closing, escaping, objects, arrays), true))
    } else {
        Some(((closing, false, objects, arrays), false))
    }
}

/// The positions, from `i` on, of the top-level occurrences of `target` (only the first
/// one when `first`); `None` where the scan meets an unmatched closing brace or bracket
/// before it stops.
pub open spec fn scan_from(s: Seq<char>, i: int, st: ScanState, target: char, first: bool) -> Option<
    Seq<int>,
>
    decreases s.len() - i,
{
    if i >= s.len() {
        Some(Seq::empty())
    } else {
        match scan_step(st, s[i], target) {
            None => None,
            Some((next, hit)) => if hit && first {
                Some(seq![i])
            } else {
                match scan_from(s, i + 1, next, target, first) {
                    None => None,
                    Some(rest) => Some(
                        if hit {
                            seq![i] + rest
                        } else {
                            rest
                        },
                    ),
                }
            },
        }
    }
}

/// The top-level positions of `target` in `s`.
pub open spec fn find_chars_spec(s: Seq<char>, target: char, first: bool) -> Option<Seq<int>> {
    scan_from(s, 0, scan_start(), target, first)
}

/// Positions that are strictly increasing, each at least `lo` and below `hi`.
pub open spec fn positions_within(p: Seq<int>, lo: int, hi: int) -> bool {
    &&& forall|i: int| 0 <= i < p.len() ==> lo <= #[trigger] p[i] < hi
    &&& forall|i: int, j: int| 0 <= i < j < p.len() ==> #[trigger] p[i] < #[trigger] p[j]
}

pub proof fn lemma_scan_positions(s: Seq<char>, i: int, st: ScanState, target: char, first: bool)
    requires
        0 <= i,
    ensures
        scan_from(s, i, st, target, first) matches Some(p) ==> positions_within(p, i, s.len() as int),
        scan_from(s, i, st, target, first) matches Some(p) ==> forall|k: int|
            0 <= k < p.len() ==> s[#[trigger] p[k]] == target,
        first ==> (scan_from(s, i, st, target, first) matches Some(p) ==> p.len() <= 1),
    decreases s.len() - i,
{
    if i < s.len() {
        match scan_step(st, s[i], target) {
            None => {},
            Some((next, hit)) => {
                if !(hit && first) {
                    lemma_scan_positions(s, i + 1, next, target, first);
                    if let Some(rest) = scan_from(s, i + 1, next, target, first) {
                        if hit {
                            let p = seq![i] + rest;
                            assert forall|k: int| 0 <= k < p.len() implies s[#[trigger] p[k]] == target by {
                                if k > 0 {
                                    assert(p[k] == rest[k - 1]);
                                }
                            }
                            assert forall|a: int, b: int| 0 <= a < b < p.len() implies #[trigger] p[a] < #[trigger] p[b] by {
                                assert(p[b] == rest[b - 1]);
                                if a > 0 {
                                    assert(p[a] == rest[a - 1]);
                                }
                            }
                            assert forall|a: int| 0 <= a < p.len() implies i <= #[trigger] p[a] < s.len() by {
                                if a > 0 {
                                    assert(p[a] == rest[a - 1]);
                                }
                            }
                        }
                    }
                }
            },
        }
    }
}

/// The first of the positions, if there is one.
pub open spec fn first_of(p: Seq<int>) -> Seq<int> {
    if p.len() == 0 {
        Seq::empty()
    } else {
        seq![p[0]]
    }
}

proof fn lemma_first_of_all(s: Seq<char>, i: int, st: ScanState, target: char)
    requires
        0 <= i,
    ensures
        scan_from(s, i, st, target, false) matches Some(all) ==> scan_from(s, i, st, target, true)
            == Some(first_of(all)),
    decreases s.len() - i,
{
    if i < s.len() {
        match scan_step(st, s[i], target) {
            None => {},
            Some((next, hit)) => {
                lemma_first_of_all(s, i + 1, next, target);
                if let Some(all) = scan_from(s, i, st, target, false) {
                    if hit {
                        assert(all[0] == i);
                    }
                }
            },
        }
    }
}

/// What the separator search finds: positions in increasing order within the text, each
/// holding the character searched for; at most one when only the first is asked for; and,
/// where the full search succeeds, the first-only search finds its first position.
pub proof fn law_find_chars(s: Seq<char>, target: char, first: bool)
    ensures
        find_chars_spec(s, target, first) matches Some(p) ==> positions_within(p, 0, s.len() as int),
        find_chars_spec(s, target, first) matches Some(p) ==> forall|k: int|
            0 <= k < p.len() ==> s[#[trigger] p[k]] == target,
        first ==> (find_chars_spec(s, target, first) matches Some(p) ==> p.len() <= 1),
        find_chars_spec(s, target, false) matches Some(all) ==> find_chars_spec(s, target, true)
            == Some(first_of(all)),
{
    lemma_scan_positions(s, 0, scan_start(), target, first);
    lemma_first_of_all(s, 0, scan_start(), target);
}

pub open spec fn as_ints(v: Seq<usize>) -> Seq<int> {
    v.map_values(|x: usize| x as int)
}

/// Top-level occurrences of `target` in `s[lo..hi]`, as positions relative to `lo`;
/// `None` where a closing brace or bracket is unmatched.
pub fn find_chars_in(s: &[char], lo: usize, hi: usize, target: char, first: bool) -> (r: Option<Vec<usize>>)
    requires
        lo <= hi <= s@.len(),
    ensures
        match r {
            None => find_chars_spec(s@.subrange(lo as int, hi as int), target, first) is None,
            Some(v) => find_chars_spec(s@.subrange(lo as int, hi as int), target, first) == Some(as_ints(v@)),
        },
{
    let ghost t = s@.subrange(lo as int, hi as int);
    let mut closing: Option<char> = None;
    let mut escaping: bool = false;
    let mut objects: u64 = 0;
    let mut arrays: u64 = 0;
    let mut found: Vec<usize> = Vec::new();
    let mut i: usize = lo;
    while i < hi
        invariant
            lo <= i <= hi <= s@.len(),
            t == s@.subrange(lo as int, hi as int),
            objects <= i - lo,
            arrays <= i - lo,
            hi - lo <= usize::MAX,
            first ==> found@.len() == 0,
            find_chars_spec(t, target, first) == match scan_from(
                t,
                i - lo,
                (closing, escaping, objects as nat, arrays as nat),
                target,
                first,
            ) {
                None => None,
                Some(rest) => Some(as_ints(found@) + rest),
            },
        decreases hi - i,
    {
        let c = s[i];
        let ghost st = (closing, escaping, objects as nat, arrays as nat);
        let ghost j = i - lo;
        assert(t[j] == c);
        let ghost step = scan_step(st, c, target);
        assert(scan_from(t, j, st, target, first) == match step {
            None => None,
            Some((next, hit)) => if hit && first {
                Some(seq![j])
            } else {
                match scan_from(t, j + 1, next, target, first) {
                    None => None,
                    Some(rest) => Some(
                        if hit {
                            seq![j] + rest
                        } else {
                            rest
                        },
                    ),
                }
            },
        });
        if (c == '"' || c == '\'') && !escaping {
            if closing.is_none() {
                closing = Some(c);
            } else {
                closing = None;
            }
        } else if c == '{' {
            if closing.is_none() {
                objects = objects + 1;
            }
        } else if c == '[' {
            if closing.is_none() {
                arrays = arrays + 1;
            }
        } else if c == '}' && closing.is_none() && !escaping {
            if objects > 0 {
                objects = objects - 1;
            } else {
                return None;
            }
        } else if c == ']' && closing.is_none() {
            if arrays > 0 {
                arrays = arrays - 1;
            } else {
                return None;
            }
        } else if c == '\\' && closing.is_some() {
            escaping = !escaping;
        } else if c == target && closing.is_none() && objects == 0 && arrays == 0 {
            let ghost before = found@;
            found.push(i - lo);
            proof {
                assert(as_ints(found@) =~= as_ints(before) + seq![j]);
            }
            if first {
                proof {
                    assert(as_ints(before) =~= Seq::<int>::empty());
                    assert(as_ints(found@) =~= seq![j]);
                }
                return Some(found);
            }
            proof {
                if let Some(rest) = scan_from(t, j + 1, st, target, first) {
                    assert(as_ints(found@) + rest =~= as_ints(before) + (seq![j] + rest));
                }
            }
        } else {
            escaping = false;
        }
        i = i + 1;
    }
    proof {
        assert(as_ints(found@) + Seq::<int>::empty() =~= as_ints(found@));
    }
    Some(found)
}

/// The top-level positions of `char_to_find` in `value` (only the first one when
/// `break_on_first_occurence`); an error where a closing brace or bracket is unmatched.
pub fn find_chars(value: &[char], char_to_find: char, break_on_first_occurence: bool) -> (r: Result<Vec<usize>, &'static str>)
    ensures
        match find_chars_spec(value@, char_to_find, break_on_first_occurence) {
            None => r matches Err(e) && e@ == crate::error::error_text(crate::error::JsonError::NotValidJson),
            Some(p) => r matches Ok(v) && as_ints(v@) == p,
        },
{
    assert(value@.subrange(0, value@.len() as int) =~= value@);
    match find_chars_in(value, 0, value.len(), char_to_find, break_on_first_occurence) {
        Some(v) => Ok(v),
        None => Err(crate::error::JsonError::NotValidJson.message()),
    }
}

} // verus!
