//! The JSON value type, its mathematical model, and the map that holds an object's
//! fields in key order.
use vstd::prelude::*;
use crate::text::{chars_of_str, string_of_chars};
use crate::serialize::{json_text, serialize_string_chars, construct_chars, entry_text, item_texts, field_texts, lemma_item_texts, lemma_field_texts};
use crate::number::is_number_chars;



verus! {

/// The mathematical model of a JSON value: an object is the sequence of its fields in
/// key order, a value is its text.
pub enum Json {
    Null,
    Object(Seq<(Seq<char>, Json)>),
    Value(Seq<char>),
    Array(Seq<Json>),
}

/// A JSON value. Scalars (numbers, booleans, strings) are kept as their text in `Value`.
#[derive(Debug, PartialEq)]
pub enum JsonObject {
    Null,
    Object { fields: JsonMap },
    Value { value: String },
    Array { array: Vec<JsonObject> },
}

/// The fields of a JSON object: a map from names to values whose entries stay sorted by
/// name, each name present at most once.
#[derive(Debug, PartialEq)]
pub struct JsonMap {
    entries: Vec<(String, JsonObject)>,
}

/// Lexicographic order on texts by code point, the order of `str`'s `Ord`.
pub open spec fn key_lt(a: Seq<char>, b: Seq<char>) -> bool
    decreases a.len(),
{
    if a.len() == 0 {
        b.len() > 0
    } else if b.len() == 0 {
        false
    } else if (a[0] as u32) < (b[0] as u32) {
        true
    } else if (a[0] as u32) > (b[0] as u32) {
        false
    } else {
        key_lt(a.drop_first(), b.drop_first())
    }
}

/// The keys of `s` are strictly increasing.
pub open spec fn keys_increasing(s: Seq<(Seq<char>, Json)>) -> bool {
    forall|i: int, j: int| 0 <= i < j < s.len() ==> key_lt(#[trigger] s[i].0, #[trigger] s[j].0)
}

/// The value stored under `k`, if any.
pub open spec fn lookup(s: Seq<(Seq<char>, Json)>, k: Seq<char>) -> Option<Json>
    decreases s.len(),
{
    if s.len() == 0 {
        None
    } else if s[0].0 == k {
        Some(s[0].1)
    } else {
        lookup(s.drop_first(), k)
    }
}

/// Insertion into a key-ordered field sequence: an existing key gets the new value in
/// place, a new key goes in before the first greater key.
pub open spec fn sorted_insert(s: Seq<(Seq<char>, Json)>, k: Seq<char>, v: Json) -> Seq<
    (Seq<char>, Json),
>
    decreases s.len(),
{
    if s.len() == 0 {
        seq![(k, v)]
    } else if s[0].0 == k {
        seq![(k, v)] + s.drop_first()
    } else if key_lt(k, s[0].0) {
        seq![(k, v)] + s
    } else {
        seq![s[0]] + sorted_insert(s.drop_first(), k, v)
    }
}

/// The fields as a map from names to values.
pub open spec fn fields_map(s: Seq<(Seq<char>, Json)>) -> Map<Seq<char>, Json>
    decreases s.len(),
{
    if s.len() == 0 {
        Map::empty()
    } else {
        fields_map(s.drop_first()).insert(s[0].0, s[0].1)
    }
}

pub open spec fn view_list(s: Seq<JsonObject>) -> Seq<Json>
    decreases s,
{
    if s.len() == 0 {
        Seq::empty()
    } else {
        seq![view_of(s[0])] + view_list(s.drop_first())
    }
}

pub closed spec fn view_entries(s: Seq<(String, JsonObject)>) -> Seq<(Seq<char>, Json)>
    decreases s,
{
    if s.len() == 0 {
        Seq::empty()
    } else {
        seq![(s[0].0@, view_of(s[0].1))] + view_entries(s.drop_first())
    }
}

/// The fields of a map in name order. Every map that a program holds keeps its names
/// increasing (the type's invariant), so this is the map's entries; the condition makes
/// the order a property of every view, which `lemma_map_ordered` states.
pub closed spec fn fields_view(m: JsonMap) -> Seq<(Seq<char>, Json)>
    decreases m,
{
    if keys_increasing(view_entries(m.entries@)) {
        view_entries(m.entries@)
    } else {
        Seq::empty()
    }
}

/// The name of a value's variant, as `Display` writes it.
pub open spec fn variant_text(j: Json) -> Seq<char> {
    match j {
        Json::Null => "JsonObject::Null"@,
        Json::Object(_) => "JsonObject::Object"@,
        Json::Value(_) => "JsonObject::Value"@,
        Json::Array(_) => "JsonObject::Array"@,
    }
}

pub open spec fn view_of(o: JsonObject) -> Json
    decreases o,
{
    match o {
        JsonObject::Null => Json::Null,
        JsonObject::Object { fields } => Json::Object(fields_view(fields)),
        JsonObject::Value { value } => Json::Value(value@),
        JsonObject::Array { array } => Json::Array(view_list(array@)),
    }
}

impl View for JsonObject {
    type V = Json;

    open spec fn view(&self) -> Json {
        view_of(*self)
    }
}

impl View for JsonMap {
    type V = Seq<(Seq<char>, Json)>;

    open spec fn view(&self) -> Seq<(Seq<char>, Json)> {
        fields_view(*self)
    }
}

pub proof fn lemma_view_list(s: Seq<JsonObject>)
    ensures
        view_list(s).len() == s.len(),
        forall|i: int| 0 <= i < s.len() ==> #[trigger] view_list(s)[i] == s[i]@,
    decreases s.len(),
{
    if s.len() > 0 {
        lemma_view_list(s.drop_first());
        assert forall|i: int| 0 <= i < s.len() implies #[trigger] view_list(s)[i] == s[i]@ by {
            if i > 0 {
                assert(s.drop_first()[i - 1] == s[i]);
            }
        }
    }
}

proof fn lemma_view_entries(s: Seq<(String, JsonObject)>)
    ensures
        view_entries(s).len() == s.len(),
        forall|i: int|
            0 <= i < s.len() ==> #[trigger] view_entries(s)[i] == (s[i].0@, s[i].1@),
    decreases s.len(),
{
    if s.len() > 0 {
        lemma_view_entries(s.drop_first());
        assert forall|i: int| 0 <= i < s.len() implies #[trigger] view_entries(s)[i] == (
            s[i].0@,
            s[i].1@,
        ) by {
            if i > 0 {
                assert(s.drop_first()[i - 1] == s[i]);
            }
        }
    }
}

/// Every map keeps its names in strictly increasing order.
pub proof fn lemma_map_ordered(m: JsonMap)
    ensures
        keys_increasing(m@),
{
}

/// Every object inside `j`, at any depth, has its names in strictly increasing order.
pub open spec fn ordered(j: Json) -> bool
    decreases j,
{
    match j {
        Json::Object(fields) => keys_increasing(fields) && forall|i: int|
            0 <= i < fields.len() ==> ordered(#[trigger] fields[i].1),
        Json::Array(items) => forall|i: int| 0 <= i < items.len() ==> ordered(#[trigger] items[i]),
        _ => true,
    }
}

/// Every value keeps the names of its objects, at any depth, in strictly increasing
/// order; so the writer, which writes a map's fields in the order of its view, writes
/// them in ascending name order.
pub proof fn lemma_object_ordered(o: JsonObject)
    ensures
        ordered(o@),
    decreases o,
{
    match o {
        JsonObject::Object { fields } => {
            let es = fields.entries@;
            lemma_view_entries(es);
            lemma_map_ordered(fields);
            assert(o@ == Json::Object(fields@));
            if keys_increasing(view_entries(es)) {
                assert forall|i: int| 0 <= i < fields@.len() implies ordered(#[trigger] fields@[i].1) by {
                    assert(fields@[i].1 == es[i].1@);
                    assert(decreases_to!(fields => fields.entries));
                    assert(decreases_to!(fields.entries => es));
                    assert(decreases_to!(es => es[i]));
                    assert(decreases_to!(es[i] => es[i].1));
                    lemma_object_ordered(es[i].1);
                }
            }
        },
        JsonObject::Array { array } => {
            lemma_view_list(array@);
            assert forall|i: int| 0 <= i < o@->Array_0.len() implies ordered(#[trigger] o@->Array_0[i]) by {
                assert(o@->Array_0[i] == array@[i]@);
                assert(decreases_to!(array => array@));
                assert(decreases_to!(array@ => array@[i]));
                lemma_object_ordered(array@[i]);
            }
        },
        _ => {},
    }
}

/// Reading a map after a write: once `k` is inserted with `v`, looking `k` up gives `v`,
/// every other name gives what it gave before, the names stay in increasing order, and
/// the map grows by one entry exactly when `k` was new. So a later field of an object
/// replaces an earlier field of the same name.
pub proof fn law_map_insert(s: Seq<(Seq<char>, Json)>, k: Seq<char>, v: Json, other: Seq<char>)
    requires
        keys_increasing(s),
    ensures
        lookup(sorted_insert(s, k, v), k) == Some(v),
        other != k ==> lookup(sorted_insert(s, k, v), other) == lookup(s, other),
        keys_increasing(sorted_insert(s, k, v)),
        sorted_insert(s, k, v).len() == if lookup(s, k) is Some {
            s.len()
        } else {
            s.len() + 1
        },
        fields_map(sorted_insert(s, k, v)) == fields_map(s).insert(k, v),
{
    lemma_sorted_insert(s, k, v);
    let r = sorted_insert(s, k, v);
    assert forall|x: Seq<char>| #[trigger] fields_map(r).contains_key(x) == fields_map(s).insert(k, v).contains_key(x) && (fields_map(r).contains_key(x) ==> fields_map(r)[x] == fields_map(s).insert(k, v)[x]) by {
        lemma_lookup_is_map(r, x);
        lemma_lookup_is_map(s, x);
    }
    assert(fields_map(r) =~= fields_map(s).insert(k, v));
}

// ---------------------------------------------------------------------------------------
// Laws of the key order and of the field sequence.

/// Distinct characters have distinct code points.
pub proof fn lemma_char_code_injective(x: char, y: char)
    ensures
        (x as u32) == (y as u32) ==> x == y,
{
}

pub proof fn lemma_key_lt_irreflexive(a: Seq<char>)
    ensures
        !key_lt(a, a),
    decreases a.len(),
{
    if a.len() > 0 {
        lemma_key_lt_irreflexive(a.drop_first());
    }
}

pub proof fn lemma_key_lt_asymmetric(a: Seq<char>, b: Seq<char>)
    ensures
        key_lt(a, b) ==> !key_lt(b, a),
    decreases a.len(),
{
    if a.len() > 0 && b.len() > 0 {
        lemma_key_lt_asymmetric(a.drop_first(), b.drop_first());
    }
}

pub proof fn lemma_key_lt_transitive(a: Seq<char>, b: Seq<char>, c: Seq<char>)
    ensures
        key_lt(a, b) && key_lt(b, c) ==> key_lt(a, c),
    decreases a.len(),
{
    if a.len() > 0 && b.len() > 0 && c.len() > 0 {
        lemma_key_lt_transitive(a.drop_first(), b.drop_first(), c.drop_first());
    }
}

pub proof fn lemma_key_lt_total(a: Seq<char>, b: Seq<char>)
    ensures
        a != b ==> key_lt(a, b) || key_lt(b, a),
    decreases a.len(),
{
    if a.len() > 0 && b.len() > 0 {
        lemma_key_lt_total(a.drop_first(), b.drop_first());
        if a[0] == b[0] && a.drop_first() == b.drop_first() {
            assert(a =~= seq![a[0]] + a.drop_first());
            assert(b =~= seq![b[0]] + b.drop_first());
        }
        lemma_char_code_injective(a[0], b[0]);
    } else if a.len() == 0 && b.len() == 0 {
        assert(a =~= b);
    }
}

/// In a key-ordered sequence, a key that is less than the first key is not present.
proof fn lemma_lookup_below_first(s: Seq<(Seq<char>, Json)>, k: Seq<char>)
    requires
        keys_increasing(s),
        s.len() > 0,
        key_lt(k, s[0].0),
    ensures
        lookup(s, k) is None,
    decreases s.len(),
{
    lemma_key_lt_irreflexive(k);
    if s.len() == 1 {
        assert(lookup(s.drop_first(), k) is None);
    }
    if s.len() > 1 {
        assert(key_lt(s[0].0, s[1].0));
        lemma_key_lt_transitive(k, s[0].0, s[1].0);
        assert(keys_increasing(s.drop_first())) by {
            assert forall|i: int, j: int| 0 <= i < j < s.drop_first().len() implies key_lt(
                #[trigger] s.drop_first()[i].0,
                #[trigger] s.drop_first()[j].0,
            ) by {
                assert(s.drop_first()[i] == s[i + 1]);
                assert(s.drop_first()[j] == s[j + 1]);
            }
        }
        lemma_lookup_below_first(s.drop_first(), k);
    }
}

proof fn lemma_increasing_tail(s: Seq<(Seq<char>, Json)>)
    requires
        keys_increasing(s),
        s.len() > 0,
    ensures
        keys_increasing(s.drop_first()),
{
    assert forall|i: int, j: int| 0 <= i < j < s.drop_first().len() implies key_lt(
        #[trigger] s.drop_first()[i].0,
        #[trigger] s.drop_first()[j].0,
    ) by {
        assert(s.drop_first()[i] == s[i + 1]);
        assert(s.drop_first()[j] == s[j + 1]);
    }
}

/// Inserting into a key-ordered sequence keeps it key-ordered, keeps its first key or
/// puts the new key first, and stores the value under the key.
pub proof fn lemma_sorted_insert(s: Seq<(Seq<char>, Json)>, k: Seq<char>, v: Json)
    requires
        keys_increasing(s),
    ensures
        keys_increasing(sorted_insert(s, k, v)),
        sorted_insert(s, k, v).len() > 0,
        sorted_insert(s, k, v)[0].0 == k || (s.len() > 0 && sorted_insert(s, k, v)[0].0
            == s[0].0),
        lookup(sorted_insert(s, k, v), k) == Some(v),
        forall|k2: Seq<char>| k2 != k ==> lookup(sorted_insert(s, k, v), k2) == lookup(s, k2),
        sorted_insert(s, k, v).len() == if lookup(s, k) is Some {
            s.len()
        } else {
            s.len() + 1
        },
    decreases s.len(),
{
    let r = sorted_insert(s, k, v);
    if s.len() == 0 {
        assert(r.drop_first() =~= Seq::<(Seq<char>, Json)>::empty());
        assert forall|k2: Seq<char>| k2 != k implies lookup(r, k2) == lookup(s, k2) by {
            assert(lookup(r.drop_first(), k2) is None);
        }
    } else if s[0].0 == k {
        lemma_increasing_tail(s);
        assert forall|i: int, j: int| 0 <= i < j < r.len() implies key_lt(
            #[trigger] r[i].0,
            #[trigger] r[j].0,
        ) by {
            assert(r[j] == s[j]);
            if i > 0 {
                assert(r[i] == s[i]);
            }
        }
        assert forall|k2: Seq<char>| k2 != k implies lookup(r, k2) == lookup(s, k2) by {
            assert(r.drop_first() =~= s.drop_first());
        }
    } else if key_lt(k, s[0].0) {
        lemma_lookup_below_first(s, k);
        assert forall|i: int, j: int| 0 <= i < j < r.len() implies key_lt(
            #[trigger] r[i].0,
            #[trigger] r[j].0,
        ) by {
            assert(r[j] == s[j - 1]);
            if i > 0 {
                assert(r[i] == s[i - 1]);
            } else if j > 1 {
                lemma_key_lt_transitive(k, s[0].0, s[j - 1].0);
            }
        }
        assert forall|k2: Seq<char>| k2 != k implies lookup(r, k2) == lookup(s, k2) by {
            assert(r.drop_first() =~= s);
        }
    } else {
        lemma_key_lt_total(k, s[0].0);
        lemma_increasing_tail(s);
        let t = sorted_insert(s.drop_first(), k, v);
        lemma_sorted_insert(s.drop_first(), k, v);
        assert(r =~= seq![s[0]] + t);
        assert forall|i: int, j: int| 0 <= i < j < r.len() implies key_lt(
            #[trigger] r[i].0,
            #[trigger] r[j].0,
        ) by {
            assert(r[j] == t[j - 1]);
            if i > 0 {
                assert(r[i] == t[i - 1]);
            } else {
                // r[0] == s[0], below every key of the tail and below k
                if t[j - 1].0 != k {
                    // t[j - 1] comes from the tail of s
                    if j - 1 == 0 {
                        assert(s.len() > 1);
                        assert(key_lt(s[0].0, s[1].0));
                    } else {
                        lemma_key_lt_transitive(s[0].0, t[0].0, t[j - 1].0);
                        if s.len() > 1 {
                            assert(key_lt(s[0].0, s[1].0));
                        }
                    }
                }
            }
        }
        assert(r.drop_first() =~= t);
        assert(s[0].0 != k);
        assert forall|k2: Seq<char>| k2 != k implies lookup(r, k2) == lookup(s, k2) by {
            assert(r[0] == s[0]);
            if s[0].0 != k2 {
                assert(lookup(r, k2) == lookup(r.drop_first(), k2));
                assert(lookup(t, k2) == lookup(s.drop_first(), k2));
            }
        }
    }
}

/// The lookups of a key-ordered sequence are those of its map.
pub proof fn lemma_lookup_is_map(s: Seq<(Seq<char>, Json)>, k: Seq<char>)
    ensures
        lookup(s, k) matches Some(v) ==> fields_map(s).contains_key(k) && fields_map(s)[k] == v,
        lookup(s, k) is None ==> !fields_map(s).contains_key(k),
    decreases s.len(),
{
    if s.len() > 0 {
        lemma_lookup_is_map(s.drop_first(), k);
    }
}

// ---------------------------------------------------------------------------------------

fn chars_eq(a: &[char], b: &[char]) -> (r: bool)
    ensures
        r == (a@ == b@),
{
    if a.len() != b.len() {
        return false;
    }
    let mut i: usize = 0;
    while i < a.len()
        invariant
            a@.len() == b@.len(),
            i <= a@.len(),
            forall|j: int| 0 <= j < i ==> a@[j] == b@[j],
        decreases a@.len() - i,
    {
        if a[i] != b[i] {
            return false;
        }
        i = i + 1;
    }
    assert(a@ =~= b@);
    true
}

fn chars_lt(a: &[char], b: &[char]) -> (r: bool)
    ensures
        r == key_lt(a@, b@),
{
    let mut i: usize = 0;
    assert(a@.skip(0) =~= a@);
    assert(b@.skip(0) =~= b@);
    while i < a.len() && i < b.len()
        invariant
            i <= a@.len(),
            i <= b@.len(),
            forall|j: int| 0 <= j < i ==> a@[j] == b@[j],
            key_lt(a@, b@) == key_lt(a@.skip(i as int), b@.skip(i as int)),
        decreases a@.len() - i,
    {
        let x: u32 = a[i] as u32;
        let y: u32 = b[i] as u32;
        assert(a@.skip(i as int)[0] == a@[i as int]);
        assert(b@.skip(i as int)[0] == b@[i as int]);
        if x < y {
            return true;
        }
        if x > y {
            return false;
        }
        proof {
            lemma_char_code_injective(a@[i as int], b@[i as int]);
        }
        assert(a@.skip(i as int).drop_first() =~= a@.skip(i + 1));
        assert(b@.skip(i as int).drop_first() =~= b@.skip(i + 1));
        i = i + 1;
    }
    i == a.len() && i < b.len()
}

impl JsonMap {
    #[verifier::type_invariant]
    spec fn wf(self) -> bool {
        keys_increasing(view_entries(self.entries@))
    }

    /// An object without fields.
    pub fn new() -> (m: JsonMap)
        ensures
            m@ == Seq::<(Seq<char>, Json)>::empty(),
    {
        let m = JsonMap { entries: Vec::new() };
        assert(view_entries(m.entries@) =~= Seq::<(Seq<char>, Json)>::empty());
        m
    }

    pub fn len(&self) -> (r: usize)
        ensures
            r == self@.len(),
    {
        proof {
            use_type_invariant(self);
            lemma_view_entries(self.entries@);
        }
        self.entries.len()
    }

    pub fn is_empty(&self) -> (r: bool)
        ensures
            r == (self@.len() == 0),
    {
        proof {
            use_type_invariant(self);
            lemma_view_entries(self.entries@);
        }
        self.entries.len() == 0
    }

    /// The value stored under `key`.
    pub fn get(&self, key: &str) -> (r: Option<&JsonObject>)
        ensures
            r is Some <==> lookup(self@, key@) is Some,
            r matches Some(v) ==> lookup(self@, key@) == Some(v@),
    {
        proof {
            use_type_invariant(self);
            lemma_view_entries(self.entries@);
        }
        let k = chars_of_str(key);
        let mut i: usize = 0;
        assert(self@.skip(0) =~= self@);
        while i < self.entries.len()
            invariant
                i <= self.entries@.len(),
                view_entries(self.entries@).len() == self.entries@.len(),
                forall|j: int|
                    0 <= j < self.entries@.len() ==> #[trigger] view_entries(self.entries@)[j]
                        == (self.entries@[j].0@, self.entries@[j].1@),
                k@ == key@,
                self@ == view_entries(self.entries@),
                lookup(self@, key@) == lookup(self@.skip(i as int), key@),
            decreases self.entries@.len() - i,
        {
            let name = chars_of_str(self.entries[i].0.as_str());
            let ghost rest = self@.skip(i as int);
            assert(rest[0] == self@[i as int]);
            if chars_eq(name.as_slice(), k.as_slice()) {
                return Some(&self.entries[i].1);
            }
            assert(rest.drop_first() =~= self@.skip(i + 1));
            i = i + 1;
        }
        assert(self@.skip(i as int).len() == 0);
        None
    }

    /// Stores `value` under `key`, in key order; gives back the value that `key` had.
    pub fn insert(&mut self, key: String, value: JsonObject) -> (r: Option<JsonObject>)
        ensures
            final(self)@ == sorted_insert(old(self)@, key@, value@),
            keys_increasing(final(self)@),
            r is Some <==> lookup(old(self)@, key@) is Some,
            r matches Some(v) ==> lookup(old(self)@, key@) == Some(v@),
    {
        proof {
            use_type_invariant(&*self);
            lemma_view_entries(self.entries@);
        }
        let ghost s = self@;
        let ghost kv = key@;
        let ghost vv = value@;
        proof {
            lemma_sorted_insert(s, kv, vv);
        }
        let mut entries: Vec<(String, JsonObject)> = Vec::new();
        std::mem::swap(&mut entries, &mut self.entries);
        let k = chars_of_str(key.as_str());
        let mut i: usize = 0;
        assert(s.skip(0) =~= s);
        assert(s.take(0) + s.skip(0) =~= s);
        assert(s.take(0) + sorted_insert(s.skip(0), kv, vv) =~= sorted_insert(s, kv, vv));
        while i < entries.len()
            invariant
                i <= entries@.len(),
                s == view_entries(entries@),
                s.len() == entries@.len(),
                forall|j: int|
                    0 <= j < entries@.len() ==> #[trigger] s[j] == (
                        entries@[j].0@,
                        entries@[j].1@,
                    ),
                k@ == kv,
                old(self)@ == s,
                key@ == kv,
                value@ == vv,
                keys_increasing(s),
                keys_increasing(sorted_insert(s, kv, vv)),
                sorted_insert(s, kv, vv) == s.take(i as int) + sorted_insert(
                    s.skip(i as int),
                    kv,
                    vv,
                ),
                lookup(s, kv) == lookup(s.skip(i as int), kv),
            decreases entries@.len() - i,
        {
            let name = chars_of_str(entries[i].0.as_str());
            let ghost rest = s.skip(i as int);
            assert(rest[0] == s[i as int]);
            assert(rest.drop_first() =~= s.skip(i + 1));
            if chars_eq(name.as_slice(), k.as_slice()) {
                let old_entry = entries.remove(i);
                entries.insert(i, (key, value));
                proof {
                    lemma_view_entries(entries@);
                    assert(view_entries(entries@) =~= s.take(i as int) + (seq![(kv, vv)]
                        + rest.drop_first()));
                }
                self.entries = entries;
                assert(rest[0].0 == kv);
                assert(sorted_insert(rest, kv, vv) == seq![(kv, vv)] + rest.drop_first());
                assert(lookup(rest, kv) == Some(rest[0].1));
                return Some(old_entry.1);
            }
            if chars_lt(k.as_slice(), name.as_slice()) {
                proof {
                    assert forall|a: int, b: int| 0 <= a < b < rest.len() implies key_lt(
                        #[trigger] rest[a].0,
                        #[trigger] rest[b].0,
                    ) by {
                        assert(rest[a] == s[a + i]);
                        assert(rest[b] == s[b + i]);
                    }
                    lemma_lookup_below_first(rest, kv);
                }
                entries.insert(i, (key, value));
                proof {
                    lemma_view_entries(entries@);
                    assert(view_entries(entries@) =~= s.take(i as int) + (seq![(kv, vv)] + rest));
                }
                self.entries = entries;
                return None;
            }
            proof {
                assert(s.take(i as int) + seq![rest[0]] =~= s.take(i + 1));
                assert(s.take(i as int) + (seq![rest[0]] + sorted_insert(
                    rest.drop_first(),
                    kv,
                    vv,
                )) =~= s.take(i + 1) + sorted_insert(rest.drop_first(), kv, vv));
            }
            i = i + 1;
        }
        entries.push((key, value));
        proof {
            lemma_view_entries(entries@);
            assert(s.skip(i as int) =~= Seq::<(Seq<char>, Json)>::empty());
            assert(s.take(i as int) =~= s);
            assert(view_entries(entries@) =~= s + seq![(kv, vv)]);
        }
        self.entries = entries;
        None
    }
}

impl JsonObject {
    /// The JSON text of this value, as characters.
    pub fn to_json_chars(&self) -> (r: Vec<char>)
        ensures
            r@ == json_text(self@),
        decreases self@,
    {
        match self {
            JsonObject::Null => vec!['n', 'u', 'l', 'l'],
            JsonObject::Value { value } => {
                let chars = chars_of_str(value.as_str());
                if is_number_chars(chars.as_slice()) {
                    chars
                } else {
                    serialize_string_chars(chars.as_slice())
                }
            },
            JsonObject::Object { fields } => {
                proof {
                    use_type_invariant(fields);
                    lemma_view_entries(fields.entries@);
                    lemma_field_texts(fields@);
                }
                if fields.entries.len() == 0 {
                    return vec!['{', '}'];
                }
                let mut parts: Vec<Vec<char>> = Vec::new();
                let mut i: usize = 0;
                while i < fields.entries.len()
                    invariant
                        i <= fields.entries@.len(),
                        parts@.len() == i,
                        fields@ == view_entries(fields.entries@),
                        *self == (JsonObject::Object { fields: *fields }),
                        fields@.len() == fields.entries@.len(),
                        forall|j: int|
                            0 <= j < fields.entries@.len() ==> #[trigger] fields@[j] == (
                                fields.entries@[j].0@,
                                fields.entries@[j].1@,
                            ),
                        forall|j: int|
                            0 <= j < i ==> #[trigger] parts@[j]@ == field_texts(fields@)[j],
                        field_texts(fields@).len() == fields@.len(),
                        forall|j: int|
                            0 <= j < fields@.len() ==> #[trigger] field_texts(fields@)[j]
                                == entry_text(fields@[j].0, json_text(fields@[j].1)),
                    decreases fields.entries@.len() - i,
                {
                    let entry = &fields.entries[i];
                    proof {
                        assert(self@ == Json::Object(fields@));
                        assert(decreases_to!(self@ => self@->Object_0));
                        assert(decreases_to!(fields@ => fields@[i as int]));
                        assert(decreases_to!(fields@[i as int] => fields@[i as int].1));
                        assert(fields@[i as int].1 == entry.1@);
                        assert(decreases_to!(self@ => entry.1@));
                    }
                    let name = chars_of_str(entry.0.as_str());
                    let mut field = serialize_string_chars(name.as_slice());
                    field.push(':');
                    let mut value_text = entry.1.to_json_chars();
                    field.append(&mut value_text);
                    parts.push(field);
                    i = i + 1;
                }
                assert(parts@.map_values(|p: Vec<char>| p@) =~= field_texts(fields@));
                construct_chars(&parts, '{', ',', '}')
            },
            JsonObject::Array { array } => {
                proof {
                    lemma_view_list(array@);
                    lemma_item_texts(self@->Array_0);
                }
                if array.len() == 0 {
                    return vec!['[', ']'];
                }
                let mut parts: Vec<Vec<char>> = Vec::new();
                let mut i: usize = 0;
                while i < array.len()
                    invariant
                        i <= array@.len(),
                        parts@.len() == i,
                        self@ == Json::Array(view_list(array@)),
                        *self == (JsonObject::Array { array: *array }),
                        view_list(array@).len() == array@.len(),
                        forall|j: int| 0 <= j < array@.len() ==> #[trigger] view_list(array@)[j] == array@[j]@,
                        item_texts(view_list(array@)).len() == array@.len(),
                        forall|j: int|
                            0 <= j < array@.len() ==> #[trigger] item_texts(view_list(array@))[j]
                                == json_text(view_list(array@)[j]),
                        forall|j: int|
                            0 <= j < i ==> #[trigger] parts@[j]@ == item_texts(view_list(array@))[j],
                    decreases array@.len() - i,
                {
                    proof {
                        assert(decreases_to!(self@ => self@->Array_0));
                        assert(decreases_to!(view_list(array@) => view_list(array@)[i as int]));
                        assert(decreases_to!(self@ => array@[i as int]@));
                    }
                    let t = array[i].to_json_chars();
                    parts.push(t);
                    i = i + 1;
                }
                assert(parts@.map_values(|p: Vec<char>| p@) =~= item_texts(view_list(array@)));
                construct_chars(&parts, '[', ',', ']')
            },
        }
    }

    /// The JSON text of this value.
    pub fn to_json(&self) -> (r: String)
        ensures
            r@ == json_text(self@),
    {
        let chars = self.to_json_chars();
        string_of_chars(chars.as_slice())
    }

    /// The JSON text of this value, consuming it.
    pub fn into_json(self) -> (r: String)
        ensures
            r@ == json_text(self@),
    {
        Self::to_json(&self)
    }

    /// The name of the variant, as `Display` writes it.
    pub fn variant_name(&self) -> (r: &'static str)
        ensures
            r@ == variant_text(self@),
    {
        match self {
            JsonObject::Null => "JsonObject::Null",
            JsonObject::Object { fields: _ } => "JsonObject::Object",
            JsonObject::Value { value: _ } => "JsonObject::Value",
            JsonObject::Array { array: _ } => "JsonObject::Array",
        }
    }
}

} // verus!
