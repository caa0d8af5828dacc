//! Deriving the JSON conversions of a struct: the shape that each field's type gives its
//! conversion, and the plan of the code that writes and reads the field.
//!
//! A path type converts on its own (an item); an array `[E; N]` becomes a JSON array of
//! the shape of `E`; a tuple becomes a JSON array of its elements' shapes, in order; any
//! other type is refused. The type is walked level by level, left to right, so the
//! refused type that is reported is the leftmost one at the smallest depth.
use vstd::prelude::*;
use crate::text::{chars_of_str, string_of_chars};

verus! {

/// The kinds of type that a derived conversion refuses.
#[derive(Debug, Clone, Copy, PartialEq, Eq, Structural)]
pub enum UnsupportedKind {
    BareFn,
    Group,
    ImplTrait,
    Infer,
    Macro,
    Never,
    Ptr,
    Reference,
    Slice,
    TraitObject,
    Verbatim,
    Other,
}

/// The shape of a field's type, as far as the derived conversions look at it.
#[derive(Debug, PartialEq)]
pub enum TypeShape {
    /// A type named by a path; `text` is how it is written.
    Path { text: String },
    Array { elem: Box<TypeShape> },
    Tuple { elems: Vec<TypeShape> },
    Unsupported { kind: UnsupportedKind },
}

/// How a field's value is converted: on its own, as an array, or as a tuple.
#[derive(Debug, PartialEq)]
pub enum Layer {
    /// A value that converts on its own, of the type written `text`.
    Item { text: String },
    Array { elem: Box<Layer> },
    Tuple { items: Vec<Layer> },
}

/// Two level-by-level profiles laid over each other: at each depth, the leftmost refused
/// type of the two.
pub open spec fn merge(p: Seq<Option<UnsupportedKind>>, q: Seq<Option<UnsupportedKind>>) -> Seq<Option<UnsupportedKind>> {
    Seq::new(
        if p.len() >= q.len() { p.len() } else { q.len() },
        |i: int| if i < p.len() && p[i] is Some { p[i] } else if i < q.len() { q[i] } else { None },
    )
}

/// For each depth of the type, from the type itself down, the leftmost refused type at
/// that depth, if any.
pub open spec fn profile(t: TypeShape) -> Seq<Option<UnsupportedKind>>
    decreases t,
{
    match t {
        TypeShape::Path { .. } => seq![None],
        TypeShape::Unsupported { kind } => seq![Some(kind)],
        TypeShape::Array { elem } => seq![None] + profile(*elem),
        TypeShape::Tuple { elems } => seq![None] + profiles(elems@),
    }
}

/// The profiles of a list of types, laid over each other from left to right.
pub open spec fn profiles(es: Seq<TypeShape>) -> Seq<Option<UnsupportedKind>>
    decreases es,
{
    if es.len() == 0 {
        Seq::empty()
    } else {
        merge(profile(es[0]), profiles(es.drop_first()))
    }
}

/// The first refused type of a profile: the one at the smallest depth.
pub open spec fn first_some(p: Seq<Option<UnsupportedKind>>) -> Option<UnsupportedKind>
    decreases p.len(),
{
    if p.len() == 0 {
        None
    } else if p[0] is Some {
        p[0]
    } else {
        first_some(p.drop_first())
    }
}

/// The refused type that the level-by-level walk of `t` meets first, if any.
pub open spec fn first_refused(t: TypeShape) -> Option<UnsupportedKind> {
    first_some(profile(t))
}

/// A type with no refused part.
pub open spec fn supported(t: TypeShape) -> bool
    decreases t,
{
    match t {
        TypeShape::Path { .. } => true,
        TypeShape::Unsupported { .. } => false,
        TypeShape::Array { elem } => supported(*elem),
        TypeShape::Tuple { elems } => forall|i: int| 0 <= i < elems@.len() ==> supported(#[trigger] elems@[i]),
    }
}

/// `l` is the layer of the supported type `t`: an item for a path, with the path's
/// text; an array of the element's layer; the elements' layers of a tuple, in order.
pub open spec fn layer_is(l: Layer, t: TypeShape) -> bool
    decreases l,
{
    match l {
        Layer::Item { text } => t matches TypeShape::Path { text: tt } && text@ == tt@,
        Layer::Array { elem } => t matches TypeShape::Array { elem: te } && layer_is(*elem, *te),
        Layer::Tuple { items } => t matches TypeShape::Tuple { elems } && items@.len() == elems@.len()
            && forall|i: int| 0 <= i < items@.len() ==> layer_is(#[trigger] items@[i], elems@[i]),
    }
}

pub open spec fn all_none(p: Seq<Option<UnsupportedKind>>) -> bool {
    forall|i: int| 0 <= i < p.len() ==> (#[trigger] p[i]) is None
}

proof fn lemma_first_some(p: Seq<Option<UnsupportedKind>>)
    ensures
        first_some(p) is None <==> all_none(p),
    decreases p.len(),
{
    if p.len() > 0 {
        lemma_first_some(p.drop_first());
        if p[0] is None {
            assert(all_none(p) <==> all_none(p.drop_first())) by {
                if all_none(p.drop_first()) {
                    assert forall|i: int| 0 <= i < p.len() implies (#[trigger] p[i]) is None by {
                        if i > 0 {
                            assert(p[i] == p.drop_first()[i - 1]);
                        }
                    }
                }
                if all_none(p) {
                    assert forall|i: int| 0 <= i < p.drop_first().len() implies (
                    #[trigger] p.drop_first()[i]) is None by {
                        assert(p.drop_first()[i] == p[i + 1]);
                    }
                }
            }
        }
    }
}

proof fn lemma_profiles_none(es: Seq<TypeShape>)
    requires
        all_none(profiles(es)),
    ensures
        forall|i: int| 0 <= i < es.len() ==> all_none(profile(#[trigger] es[i])),
    decreases es.len(),
{
    if es.len() > 0 {
        let p = profile(es[0]);
        let q = profiles(es.drop_first());
        let m = merge(p, q);
        assert(all_none(p)) by {
            assert forall|i: int| 0 <= i < p.len() implies (#[trigger] p[i]) is None by {
                assert(m[i] is None);
            }
        }
        assert(all_none(q)) by {
            assert forall|i: int| 0 <= i < q.len() implies (#[trigger] q[i]) is None by {
                assert(m[i] is None);
            }
        }
        lemma_profiles_none(es.drop_first());
        assert forall|i: int| 0 <= i < es.len() implies all_none(profile(#[trigger] es[i])) by {
            if i > 0 {
                assert(es[i] == es.drop_first()[i - 1]);
            }
        }
    }
}

/// A type whose walk meets no refused type has no refused part.
pub proof fn lemma_supported(t: TypeShape)
    requires
        all_none(profile(t)),
    ensures
        supported(t),
    decreases t,
{
    match t {
        TypeShape::Unsupported { kind } => {
            assert(profile(t)[0] == Some(kind));
        },
        TypeShape::Array { elem } => {
            let p = profile(*elem);
            assert forall|i: int| 0 <= i < p.len() implies (#[trigger] p[i]) is None by {
                assert(profile(t)[i + 1] == p[i]);
            }
            lemma_supported(*elem);
        },
        TypeShape::Tuple { elems } => {
            let p = profiles(elems@);
            assert forall|i: int| 0 <= i < p.len() implies (#[trigger] p[i]) is None by {
                assert(profile(t)[i + 1] == p[i]);
            }
            lemma_profiles_none(elems@);
            assert forall|i: int| 0 <= i < elems@.len() implies supported(#[trigger] elems@[i]) by {
                assert(all_none(profile(elems@[i])));
                lemma_supported(elems@[i]);
            }
        },
        _ => {},
    }
}

fn merge_profiles(p: Vec<Option<UnsupportedKind>>, q: Vec<Option<UnsupportedKind>>) -> (r: Vec<Option<UnsupportedKind>>)
    ensures
        r@ == merge(p@, q@),
{
    let n: usize = if p.len() >= q.len() { p.len() } else { q.len() };
    let mut r: Vec<Option<UnsupportedKind>> = Vec::new();
    let mut i: usize = 0;
    while i < n
        invariant
            i <= n,
            n == if p@.len() >= q@.len() { p@.len() } else { q@.len() },
            r@.len() == i,
            forall|j: int| 0 <= j < i ==> r@[j] == #[trigger] merge(p@, q@)[j],
        decreases n - i,
    {
        let v = if i < p.len() && p[i].is_some() {
            p[i]
        } else if i < q.len() {
            q[i]
        } else {
            None
        };
        r.push(v);
        i = i + 1;
    }
    assert(r@ =~= merge(p@, q@));
    r
}

/// The level-by-level profile of a type.
fn profile_of(t: &TypeShape) -> (r: Vec<Option<UnsupportedKind>>)
    ensures
        r@ == profile(*t),
    decreases t,
{
    match t {
        TypeShape::Path { .. } => vec![None],
        TypeShape::Unsupported { kind } => vec![Some(*kind)],
        TypeShape::Array { elem } => {
            let mut r = vec![None];
            let mut rest = profile_of(elem);
            r.append(&mut rest);
            r
        },
        TypeShape::Tuple { elems } => {
            let mut acc: Vec<Option<UnsupportedKind>> = Vec::new();
            let mut i: usize = elems.len();
            assert(elems@.skip(i as int) =~= Seq::<TypeShape>::empty());
            while i > 0
                invariant
                    i <= elems@.len(),
                    acc@ == profiles(elems@.skip(i as int)),
                    *t == (TypeShape::Tuple { elems: *elems }),
                decreases i,
            {
                i = i - 1;
                proof {
                    assert(decreases_to!(*t => (*t)->elems));
                    assert(decreases_to!((*t)->elems => ((*t)->elems)@));
                    assert(decreases_to!(elems@ => elems@[i as int]));
                }
                let pi = profile_of(&elems[i]);
                assert(elems@.skip(i as int).drop_first() =~= elems@.skip(i + 1));
                assert(elems@.skip(i as int)[0] == elems@[i as int]);
                acc = merge_profiles(pi, acc);
            }
            assert(elems@.skip(0) =~= elems@);
            let mut r = vec![None];
            r.append(&mut acc);
            r
        },
    }
}

fn first_of_profile(p: &Vec<Option<UnsupportedKind>>) -> (r: Option<UnsupportedKind>)
    ensures
        r == first_some(p@),
{
    let mut i: usize = 0;
    assert(p@.skip(0) =~= p@);
    while i < p.len()
        invariant
            i <= p@.len(),
            first_some(p@) == first_some(p@.skip(i as int)),
        decreases p@.len() - i,
    {
        assert(p@.skip(i as int)[0] == p@[i as int]);
        if p[i].is_some() {
            return p[i];
        }
        assert(p@.skip(i as int).drop_first() =~= p@.skip(i + 1));
        i = i + 1;
    }
    None
}

fn copy_text(s: &String) -> (r: String)
    ensures
        r@ == s@,
{
    s.clone()
}

/// The layer of a supported type.
fn layer_tree(t: &TypeShape) -> (r: Layer)
    requires
        supported(*t),
    ensures
        layer_is(r, *t),
    decreases t,
{
    match t {
        TypeShape::Path { text } => Layer::Item { text: copy_text(text) },
        TypeShape::Array { elem } => Layer::Array { elem: Box::new(layer_tree(elem)) },
        TypeShape::Tuple { elems } => {
            let mut items: Vec<Layer> = Vec::new();
            let mut i: usize = 0;
            assert(forall|j: int| 0 <= j < elems@.len() ==> supported(#[trigger] elems@[j]));
            while i < elems.len()
                invariant
                    i <= elems@.len(),
                    items@.len() == i,
                    *t == (TypeShape::Tuple { elems: *elems }),
                    forall|j: int| 0 <= j < elems@.len() ==> supported(#[trigger] elems@[j]),
                    forall|j: int| 0 <= j < i ==> layer_is(#[trigger] items@[j], elems@[j]),
                decreases elems@.len() - i,
            {
                proof {
                    assert(decreases_to!(*t => (*t)->elems));
                    assert(decreases_to!((*t)->elems => ((*t)->elems)@));
                    assert(decreases_to!(elems@ => elems@[i as int]));
                    assert(supported(elems@[i as int]));
                }
                let l = layer_tree(&elems[i]);
                items.push(l);
                i = i + 1;
            }
            Layer::Tuple { items }
        },
        TypeShape::Unsupported { .. } => Layer::Item { text: String::new() },
    }
}

/// The layer of a field's type: refused with the kind of the first refused type that
/// the level-by-level walk meets, if there is one.
pub fn field_layers(ty: &TypeShape) -> (r: Result<Layer, UnsupportedKind>)
    ensures
        match r {
            Ok(l) => first_refused(*ty) is None && layer_is(l, *ty),
            Err(k) => first_refused(*ty) == Some(k),
        },
{
    let p = profile_of(ty);
    match first_of_profile(&p) {
        Some(k) => Err(k),
        None => {
            proof {
                lemma_first_some(profile(*ty));
                lemma_supported(*ty);
            }
            Ok(layer_tree(ty))
        },
    }
}

/// What holds the value that a reading step reads: a field of the object, an item of an
/// array, or one of an array's elements.
#[derive(Debug, Clone, Copy, PartialEq, Eq, Structural)]
pub enum Parent {
    Field,
    Tuple,
    Array,
}

/// The plan of the code that reads a field's value out of an object. Each step names the
/// messages that the generated code returns where the JSON value does not fit.
#[derive(Debug, PartialEq)]
pub enum ReadPlan {
    /// The field `name` of the object, converted with `try_into`: `missing` where it is
    /// absent, `failed` then the conversion's message and a backquote where that fails.
    FieldValue { name: String, missing: String, failed: String },
    /// Item `index` of the array, converted to the type written `ty` and cloned; `failed`
    /// then the conversion's message and a backquote where that fails.
    IndexValue { index: usize, ty: String, failed: String },
    /// The array's items converted into the element type, which cannot fail.
    Unwrap,
    /// The array held by field `name`, read by `inner`; `missing` where there is none.
    InField { name: String, missing: String, inner: Box<ReadPlan> },
    /// Item `index` of the array, which must be an array (`not_array` otherwise), read by
    /// `inner`.
    AtIndex { index: usize, not_array: String, inner: Box<ReadPlan> },
    /// The value at hand, which must be an array (`not_array` otherwise), read by `inner`.
    Whole { not_array: String, inner: Box<ReadPlan> },
    /// The field `name` (`missing` where it is absent), which must be an array
    /// (`not_array` then the kind of value it holds and a backquote otherwise), read by
    /// `inner`.
    FieldElements { name: String, missing: String, not_array: String, inner: Box<ReadPlan> },
    /// Each element of the array read by `inner`, gathered into a fixed-size array.
    Collect { inner: Box<ReadPlan> },
    /// A tuple of the items' readings, in order.
    TupleOf { items: Vec<ReadPlan> },
}

pub open spec fn value_missing(name: Seq<char>) -> Seq<char> {
    "Value `"@ + name + "` was not found !"@
}

pub open spec fn failed_prefix(name: Seq<char>) -> Seq<char> {
    "Failed to parse `"@ + name + "` with error `"@
}

pub open spec fn not_tuple(name: Seq<char>) -> Seq<char> {
    "Cannot deserialize `"@ + name + "` to a tuple !"@
}

pub open spec fn field_missing(name: Seq<char>) -> Seq<char> {
    "Field `"@ + name + "` was not found !"@
}

pub open spec fn field_not_array(name: Seq<char>) -> Seq<char> {
    "Field `"@ + name + "` was expected to be an array while it was `"@
}

/// How the value of `l`, reached from `parent`, is read for the field `name`; `index` is
/// its position where `parent` is a tuple.
pub open spec fn reads(p: ReadPlan, name: Seq<char>, index: int, l: Layer, parent: Parent) -> bool
    decreases l, 1int,
{
    match l {
        Layer::Item { text } => match parent {
            Parent::Field => p matches ReadPlan::FieldValue { name: n, missing, failed } && n@ == name
                && missing@ == value_missing(name) && failed@ == failed_prefix(name),
            Parent::Tuple => p matches ReadPlan::IndexValue { index: i, ty, failed } && i == index
                && ty@ == text@ && failed@ == failed_prefix(name),
            Parent::Array => p is Unwrap,
        },
        Layer::Array { elem } => match parent {
            Parent::Tuple => p matches ReadPlan::Collect { inner } && reads(*inner, name, 0, *elem, Parent::Array),
            Parent::Array => {
                &&& p matches ReadPlan::Whole { not_array, inner }
                &&& not_array@ == "An array was expected to deserialize to an array !"@
                &&& *inner matches ReadPlan::Collect { inner: e }
                &&& reads(*e, name, 0, *elem, Parent::Array)
            },
            Parent::Field => {
                &&& p matches ReadPlan::FieldElements { name: n, missing, not_array, inner }
                &&& n@ == name
                &&& missing@ == field_missing(name)
                &&& not_array@ == field_not_array(name)
                &&& *inner matches ReadPlan::Collect { inner: e }
                &&& reads(*e, name, 0, *elem, Parent::Array)
            },
        },
        Layer::Tuple { items } => p matches ReadPlan::TupleOf { items: ps } && ps@.len() == items@.len()
            && forall|i: int| 0 <= i < items@.len() ==> tuple_item(#[trigger] ps@[i], name, i, items@[i], parent),
    }
}

/// How item `i` of a tuple, reached from the tuple's `parent`, is read for the field
/// `name`.
pub open spec fn tuple_item(q: ReadPlan, name: Seq<char>, i: int, item: Layer, parent: Parent) -> bool
    decreases item, 2int,
{
    let leaf = item is Item;
    match parent {
        Parent::Field => if leaf {
            q matches ReadPlan::InField { name: n, missing, inner } && n@ == name && missing@ == not_tuple(name)
                && reads(*inner, name, i, item, Parent::Tuple)
        } else {
            &&& q matches ReadPlan::InField { name: n, missing, inner }
            &&& n@ == name
            &&& missing@ == value_missing(name)
            &&& *inner matches ReadPlan::AtIndex { index, not_array, inner: e }
            &&& index == i
            &&& not_array@ == (if item is Tuple {
                "An array was expected to deserialize a tuple within a tuple !"@
            } else {
                "An array was expected to deserialize an array within a tuple !"@
            })
            &&& reads(*e, name, i, item, Parent::Tuple)
        },
        Parent::Tuple => if leaf {
            reads(q, name, i, item, Parent::Tuple)
        } else {
            q matches ReadPlan::AtIndex { index, not_array, inner } && index == i
                && not_array@ == value_missing(name) && reads(*inner, name, i, item, Parent::Tuple)
        },
        Parent::Array => {
            &&& q matches ReadPlan::Whole { not_array, inner }
            &&& not_array@ == "An array was expected to deserialize a tuple !"@
            &&& if leaf {
                reads(*inner, name, i, item, Parent::Tuple)
            } else {
                &&& *inner matches ReadPlan::AtIndex { index, not_array: na, inner: e }
                &&& index == i
                &&& na@ == "Only an array can be deserialized to a tuple !"@
                &&& reads(*e, name, i, item, Parent::Tuple)
            }
        },
    }
}

fn text3(a: &str, b: &str, c: &str) -> (r: String)
    ensures
        r@ == a@ + b@ + c@,
{
    let mut v = chars_of_str(a);
    let mut w = chars_of_str(b);
    v.append(&mut w);
    let mut x = chars_of_str(c);
    v.append(&mut x);
    string_of_chars(v.as_slice())
}

/// The plan that reads the value of `l`, reached from `parent`, for the field `name`;
/// `index` is its position where `parent` is a tuple.
pub fn read_plan(name: &str, index: usize, l: &Layer, parent: Parent) -> (p: ReadPlan)
    ensures
        reads(p, name@, index as int, *l, parent),
    decreases l, 1int,
{
    match l {
        Layer::Item { text } => match parent {
            Parent::Field => ReadPlan::FieldValue {
                name: name.to_owned(),
                missing: text3("Value `", name, "` was not found !"),
                failed: text3("Failed to parse `", name, "` with error `"),
            },
            Parent::Tuple => ReadPlan::IndexValue {
                index,
                ty: copy_text(text),
                failed: text3("Failed to parse `", name, "` with error `"),
            },
            Parent::Array => ReadPlan::Unwrap,
        },
        Layer::Array { elem } => {
            let e = read_plan(name, 0, elem, Parent::Array);
            let collect = ReadPlan::Collect { inner: Box::new(e) };
            match parent {
                Parent::Tuple => collect,
                Parent::Array => ReadPlan::Whole {
                    not_array: "An array was expected to deserialize to an array !".to_owned(),
                    inner: Box::new(collect),
                },
                Parent::Field => ReadPlan::FieldElements {
                    name: name.to_owned(),
                    missing: text3("Field `", name, "` was not found !"),
                    not_array: text3("Field `", name, "` was expected to be an array while it was `"),
                    inner: Box::new(collect),
                },
            }
        },
        Layer::Tuple { items } => {
            let mut ps: Vec<ReadPlan> = Vec::new();
            let mut i: usize = 0;
            while i < items.len()
                invariant
                    i <= items@.len(),
                    ps@.len() == i,
                    *l == (Layer::Tuple { items: *items }),
                    forall|j: int| 0 <= j < i ==> tuple_item(#[trigger] ps@[j], name@, j, items@[j], parent),
                decreases items@.len() - i,
            {
                proof {
                    assert(decreases_to!(*l => (*l)->items));
                    assert(decreases_to!((*l)->items => ((*l)->items)@));
                    assert(decreases_to!(items@ => items@[i as int]));
                }
                let q = tuple_item_plan(name, i, &items[i], parent);
                ps.push(q);
                i = i + 1;
            }
            ReadPlan::TupleOf { items: ps }
        },
    }
}

/// The plan that reads item `i` of a tuple reached from `parent`, for the field `name`.
fn tuple_item_plan(name: &str, i: usize, item: &Layer, parent: Parent) -> (q: ReadPlan)
    ensures
        tuple_item(q, name@, i as int, *item, parent),
    decreases item, 2int,
{
    let inner = read_plan(name, i, item, Parent::Tuple);
    let leaf = match item {
        Layer::Item { .. } => true,
        _ => false,
    };
    let is_tuple = match item {
        Layer::Tuple { .. } => true,
        _ => false,
    };
    match parent {
        Parent::Field => if leaf {
            ReadPlan::InField {
                name: name.to_owned(),
                missing: text3("Cannot deserialize `", name, "` to a tuple !"),
                inner: Box::new(inner),
            }
        } else {
            let not_array = if is_tuple {
                "An array was expected to deserialize a tuple within a tuple !".to_owned()
            } else {
                "An array was expected to deserialize an array within a tuple !".to_owned()
            };
            ReadPlan::InField {
                name: name.to_owned(),
                missing: text3("Value `", name, "` was not found !"),
                inner: Box::new(ReadPlan::AtIndex { index: i, not_array, inner: Box::new(inner) }),
            }
        },
        Parent::Tuple => if leaf {
            inner
        } else {
            ReadPlan::AtIndex {
                index: i,
                not_array: text3("Value `", name, "` was not found !"),
                inner: Box::new(inner),
            }
        },
        Parent::Array => {
            let body = if leaf {
                inner
            } else {
                ReadPlan::AtIndex {
                    index: i,
                    not_array: "Only an array can be deserialized to a tuple !".to_owned(),
                    inner: Box::new(inner),
                }
            };
            ReadPlan::Whole {
                not_array: "An array was expected to deserialize a tuple !".to_owned(),
                inner: Box::new(body),
            }
        },
    }
}

/// The plan of the code that writes a field's value: where the value is taken from
/// (`self.field`, or the array element at hand where `field` is `None`, then the tuple
/// positions of `path`), and how it becomes a JSON value.
#[derive(Debug, PartialEq)]
pub enum WritePlan {
    /// The value converted with `into`, cloned first where `clone`.
    Convert { field: Option<String>, path: Vec<usize>, clone: bool },
    /// A JSON array of the tuple's items, each written by its plan.
    TupleOf { items: Vec<WritePlan> },
    /// A JSON array of the array's elements, each written by `inner`.
    Elements { field: Option<String>, path: Vec<usize>, inner: Box<WritePlan> },
}

pub open spec fn text_of(f: Option<String>) -> Option<Seq<char>> {
    match f {
        Some(s) => Some(s@),
        None => None,
    }
}

/// How the value of `l` at the place `field`, `path` is written; values that convert on
/// their own are cloned first where `clone` (an array's elements are not).
pub open spec fn writes(p: WritePlan, field: Option<Seq<char>>, path: Seq<usize>, l: Layer, clone: bool) -> bool
    decreases l,
{
    match l {
        Layer::Item { .. } => p matches WritePlan::Convert { field: f, path: pp, clone: c } && text_of(f) == field
            && pp@ == path && c == clone,
        Layer::Tuple { items } => p matches WritePlan::TupleOf { items: ps } && ps@.len() == items@.len()
            && forall|i: int| 0 <= i < items@.len() ==> writes(#[trigger] ps@[i], field, path.push(i as usize), items@[i], clone),
        Layer::Array { elem } => p matches WritePlan::Elements { field: f, path: pp, inner } && text_of(f) == field
            && pp@ == path && if *elem is Item {
                *inner matches WritePlan::Convert { field: None, path: q, clone: false } && q@.len() == 0
            } else {
                writes(*inner, None, Seq::empty(), *elem, clone)
            },
    }
}

fn copy_field(f: &Option<String>) -> (r: Option<String>)
    ensures
        text_of(r) == text_of(*f),
{
    match f {
        Some(s) => Some(copy_text(s)),
        None => None,
    }
}

fn copy_path(v: &Vec<usize>) -> (r: Vec<usize>)
    ensures
        r@ == v@,
{
    let mut r: Vec<usize> = Vec::new();
    let mut i: usize = 0;
    while i < v.len()
        invariant
            i <= v@.len(),
            r@ == v@.take(i as int),
        decreases v@.len() - i,
    {
        r.push(v[i]);
        i = i + 1;
        assert(r@ =~= v@.take(i as int));
    }
    assert(v@.take(i as int) =~= v@);
    r
}

/// The plan that writes the value of `l` at the place `field`, `path`.
pub fn write_plan(field: &Option<String>, path: &Vec<usize>, l: &Layer, clone: bool) -> (p: WritePlan)
    ensures
        writes(p, text_of(*field), path@, *l, clone),
    decreases l,
{
    match l {
        Layer::Item { .. } => WritePlan::Convert { field: copy_field(field), path: copy_path(path), clone },
        Layer::Tuple { items } => {
            let mut ps: Vec<WritePlan> = Vec::new();
            let mut i: usize = 0;
            while i < items.len()
                invariant
                    i <= items@.len(),
                    ps@.len() == i,
                    *l == (Layer::Tuple { items: *items }),
                    forall|j: int| 0 <= j < i ==> writes(#[trigger] ps@[j], text_of(*field), path@.push(j as usize), items@[j], clone),
                decreases items@.len() - i,
            {
                proof {
                    assert(decreases_to!(*l => (*l)->items));
                    assert(decreases_to!((*l)->items => ((*l)->items)@));
                    assert(decreases_to!(items@ => items@[i as int]));
                }
                let mut sub = copy_path(path);
                sub.push(i);
                let q = write_plan(field, &sub, &items[i], clone);
                ps.push(q);
                i = i + 1;
            }
            WritePlan::TupleOf { items: ps }
        },
        Layer::Array { elem } => {
            let inner = match &**elem {
                Layer::Item { .. } => WritePlan::Convert { field: None, path: Vec::new(), clone: false },
                _ => write_plan(&None, &Vec::new(), elem, clone),
            };
            WritePlan::Elements { field: copy_field(field), path: copy_path(path), inner: Box::new(inner) }
        },
    }
}

} // verus!
