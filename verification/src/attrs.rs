//! User attributes of groups and arrays.
//!
//! Attributes are JSON. [`AttrValue`] is their form in this library, in which
//! every number has settled on the integer or floating-point form that Python
//! will see; [`AttrMap`] keeps a node's attributes in the order of their names.

use crate::ordered;
use crate::text;
use serde_json::{Number, Value};
use vstd::prelude::*;
use vstd::string::*;

verus! {

// ---------------------------------------------------------------------------
// JSON values
// ---------------------------------------------------------------------------

/// A JSON value of `serde_json`.
#[verifier::external_type_specification]
#[verifier::external_body]
pub struct ExValue(serde_json::Value);

/// A JSON number of `serde_json`.
#[verifier::external_type_specification]
#[verifier::external_body]
pub struct ExNumber(serde_json::Number);

/// The forms that a JSON number is held in.
pub enum NumberModel {
    /// An integer from zero on.
    PosInt(u64),
    /// An integer below zero.
    NegInt(i64),
    /// Any other number, by the bits of its double-precision form.
    Float(u64),
}

/// A JSON value.
pub enum JsonModel {
    Null,
    Bool(bool),
    Number(NumberModel),
    Text(Seq<char>),
    List(Seq<JsonModel>),
    /// Names and values in the order in which the document gives them.
    Dict(Seq<(Seq<char>, JsonModel)>),
}

/// What a `serde_json::Number` holds.
pub uninterp spec fn number_model(n: Number) -> NumberModel;

/// What a `serde_json::Value` holds.
pub uninterp spec fn json_model(v: Value) -> JsonModel;

/// The integer that a number is, where it fits `i64`.
pub open spec fn as_i64_of(n: NumberModel) -> Option<i64> {
    match n {
        NumberModel::PosInt(u) => if u <= i64::MAX {
            Some(u as i64)
        } else {
            None
        },
        NumberModel::NegInt(i) => Some(i),
        NumberModel::Float(_) => None,
    }
}

/// The bits of the double-precision number nearest to an integer, as a cast
/// gives it.
pub uninterp spec fn integer_double(i: int) -> u64;

/// The double-precision form of a number, by its bits.
pub open spec fn as_double_of(n: NumberModel) -> u64 {
    match n {
        NumberModel::PosInt(u) => integer_double(u as int),
        NumberModel::NegInt(i) => integer_double(i as int),
        NumberModel::Float(bits) => bits,
    }
}

/// `serde_json::Number::as_i64`. Claimed: an integer that fits `i64` is given,
/// and nothing else.
#[verifier::external_body]
fn number_as_i64(n: &Number) -> (r: Option<i64>)
    ensures
        r == as_i64_of(number_model(*n)),
{
    n.as_i64()
}

/// `serde_json::Number::as_u64`. Claimed: an integer from zero on is given, and
/// nothing else.
#[verifier::external_body]
pub(crate) fn number_as_u64(n: &Number) -> (r: Option<u64>)
    ensures
        r == match number_model(*n) {
            NumberModel::PosInt(u) => Some(u),
            _ => None,
        },
{
    n.as_u64()
}

/// `serde_json::Number::as_f64`, by the bits of the result. Claimed: there is
/// always a result; for a number that is not held as an integer it is that
/// number, and for an integer it is the cast of it, which depends on nothing
/// but the integer.
#[verifier::external_body]
fn number_as_f64_bits(n: &Number) -> (r: Option<u64>)
    ensures
        r == Some(
            match number_model(*n) {
                NumberModel::PosInt(u) => integer_double(u as int),
                NumberModel::NegInt(i) => integer_double(i as int),
                NumberModel::Float(bits) => bits,
            },
        ),
{
    n.as_f64().map(|x| x.to_bits())
}

/// One level of a JSON value.
pub enum JsonNode<'a> {
    Null,
    Bool(bool),
    Number(&'a Number),
    Text(&'a str),
    List(Vec<&'a Value>),
    Dict(Vec<(&'a str, &'a Value)>),
}

/// `node` is the outermost level of the value `m`.
pub open spec fn is_level_of(node: JsonNode, m: JsonModel) -> bool {
    match (node, m) {
        (JsonNode::Null, JsonModel::Null) => true,
        (JsonNode::Bool(a), JsonModel::Bool(b)) => a == b,
        (JsonNode::Number(a), JsonModel::Number(b)) => number_model(*a) == b,
        (JsonNode::Text(a), JsonModel::Text(b)) => a@ == b,
        (JsonNode::List(a), JsonModel::List(b)) => a@.len() == b.len() && forall|i: int|
            0 <= i < b.len() ==> json_model(*a@[i]) == #[trigger] b[i],
        (JsonNode::Dict(a), JsonModel::Dict(b)) => a@.len() == b.len() && forall|i: int|
            0 <= i < b.len() ==> a@[i].0@ == (#[trigger] b[i]).0 && json_model(*a@[i].1) == b[i].1,
        _ => false,
    }
}

/// The variants of `serde_json::Value`. Claimed: each is taken for what it is,
/// with the items of a list and the entries of an object in their order.
#[verifier::external_body]
pub(crate) fn level_of(v: &Value) -> (r: JsonNode<'_>)
    ensures
        is_level_of(r, json_model(*v)),
{
    match v {
        Value::Null => JsonNode::Null,
        Value::Bool(b) => JsonNode::Bool(*b),
        Value::Number(n) => JsonNode::Number(n),
        Value::String(s) => JsonNode::Text(s),
        Value::Array(items) => JsonNode::List(items.iter().collect()),
        Value::Object(map) => JsonNode::Dict(map.iter().map(|(k, v)| (k.as_str(), v)).collect()),
    }
}

// ---------------------------------------------------------------------------
// Attribute values
// ---------------------------------------------------------------------------

/// An attribute value.
pub enum AttrValue {
    Null,
    Bool(bool),
    /// An integer that fits `i64`.
    Int(i64),
    /// Any other number, by the bits of its double-precision form.
    Float(u64),
    Text(String),
    List(Vec<AttrValue>),
    /// Names and values in the order in which the document gives them.
    Dict(Vec<(String, AttrValue)>),
}

/// `value` is the attribute form of the JSON value `m`.
pub open spec fn is_attr_of(value: AttrValue, m: JsonModel) -> bool
    decreases m,
{
    match (value, m) {
        (AttrValue::Null, JsonModel::Null) => true,
        (AttrValue::Bool(a), JsonModel::Bool(b)) => a == b,
        (AttrValue::Int(a), JsonModel::Number(n)) => as_i64_of(n) == Some(a),
        (AttrValue::Float(a), JsonModel::Number(n)) => as_i64_of(n) is None && a == as_double_of(n),
        (AttrValue::Text(a), JsonModel::Text(b)) => a@ == b,
        (AttrValue::List(a), JsonModel::List(b)) => a@.len() == b.len() && forall|i: int|
            0 <= i < b.len() ==> is_attr_of(a@[i], #[trigger] b[i]),
        (AttrValue::Dict(a), JsonModel::Dict(b)) => a@.len() == b.len() && forall|i: int|
            0 <= i < b.len() ==> a@[i].0@ == (#[trigger] b[i]).0 && is_attr_of(a@[i].1, b[i].1),
        _ => false,
    }
}

/// Settles on a form for a number, given what it is as `i64` and, by its bits,
/// as a double: the first of these that there is. `shown` is the number's text,
/// for the message when there is none.
pub fn number_value(signed: Option<i64>, double: Option<u64>, shown: &str) -> (r: Result<
    AttrValue,
    String,
>)
    ensures
        match r {
            Ok(v) => {
                &&& signed is Some || double is Some
                &&& v == (match signed {
                    Some(i) => AttrValue::Int(i),
                    None => AttrValue::Float(double->0),
                })
            },
            Err(m) => {
                &&& signed is None && double is None
                &&& m@ == "unrepresentable JSON number: "@ + shown@
            },
        },
{
    match signed {
        Some(i) => Ok(AttrValue::Int(i)),
        None => match double {
            Some(bits) => Ok(AttrValue::Float(bits)),
            None => Err(text::joined("unrepresentable JSON number: ", shown)),
        },
    }
}

/// The text of a JSON number, as `serde_json::Number` displays it.
pub uninterp spec fn number_form(n: NumberModel) -> Seq<char>;

/// `Display` of `serde_json::Number`. Claimed: the text is that of what the
/// number holds.
#[verifier::external_body]
fn number_text(n: &Number) -> (r: String)
    ensures
        r@ == number_form(number_model(*n)),
{
    n.to_string()
}

/// The attribute form of a JSON value. Every JSON value has one.
pub fn json_to_attr(value: &Value) -> (r: AttrValue)
    ensures
        is_attr_of(r, json_model(*value)),
    decreases json_model(*value),
{
    let ghost m = json_model(*value);
    match level_of(value) {
        JsonNode::Null => AttrValue::Null,
        JsonNode::Bool(b) => AttrValue::Bool(b),
        JsonNode::Number(n) => {
            let settled: Result<AttrValue, String> = number_value(
                number_as_i64(n),
                number_as_f64_bits(n),
                number_text(n).as_str(),
            );
            match settled {
                Ok(v) => v,
                Err(_) => vstd::pervasive::unreached(),
            }
        },
        JsonNode::Text(s) => AttrValue::Text(s.to_owned()),
        JsonNode::List(items) => {
            let ghost model = m->List_0;
            let mut out: Vec<AttrValue> = Vec::new();
            let mut i: usize = 0;
            while i < items.len()
                invariant
                    m == json_model(*value),
                    m is List,
                    model == m->List_0,
                    is_level_of(JsonNode::List(items), m),
                    i <= items.len(),
                    out@.len() == i,
                    forall|j: int| 0 <= j < i ==> is_attr_of(out@[j], #[trigger] model[j]),
                decreases items.len() - i,
            {
                proof {
                    assert(json_model(*items@[i as int]) == model[i as int]);
                    assert(decreases_to!(m => model));
                    assert(decreases_to!(model => model[i as int]));
                }
                out.push(json_to_attr(items[i]));
                i += 1;
            }
            AttrValue::List(out)
        },
        JsonNode::Dict(entries) => {
            let ghost model = m->Dict_0;
            let mut out: Vec<(String, AttrValue)> = Vec::new();
            let mut i: usize = 0;
            while i < entries.len()
                invariant
                    m == json_model(*value),
                    m is Dict,
                    model == m->Dict_0,
                    is_level_of(JsonNode::Dict(entries), m),
                    i <= entries.len(),
                    out@.len() == i,
                    forall|j: int|
                        0 <= j < i ==> out@[j].0@ == (#[trigger] model[j]).0 && is_attr_of(
                            out@[j].1,
                            model[j].1,
                        ),
                decreases entries.len() - i,
            {
                proof {
                    assert(json_model(*entries@[i as int].1) == model[i as int].1);
                    assert(decreases_to!(m => model));
                    assert(decreases_to!(model => model[i as int]));
                    assert(decreases_to!(model[i as int] => model[i as int].1));
                }
                out.push((entries[i].0.to_owned(), json_to_attr(entries[i].1)));
                i += 1;
            }
            AttrValue::Dict(out)
        },
    }
}

// ---------------------------------------------------------------------------
// The attributes of a node
// ---------------------------------------------------------------------------

/// The attributes of a group or array, in the order of their names.
pub type AttrMap = Vec<(String, AttrValue)>;

/// The names and values that `entries` hold.
pub open spec fn entries_model(entries: Seq<(String, Value)>) -> Seq<(Seq<char>, JsonModel)> {
    entries.map_values(|e: (String, Value)| (e.0@, json_model(e.1)))
}

/// Entry `i` is the last in the document under its name.
pub open spec fn is_last_of_name(doc: Seq<(Seq<char>, JsonModel)>, i: int) -> bool {
    0 <= i < doc.len() && forall|k: int| i < k < doc.len() ==> (#[trigger] doc[k]).0 != doc[i].0
}

/// The attribute `entry` comes from entry `i` of the document.
pub open spec fn comes_from(
    entry: (String, AttrValue),
    doc: Seq<(Seq<char>, JsonModel)>,
    i: int,
) -> bool {
    is_last_of_name(doc, i) && entry.0@ == doc[i].0 && is_attr_of(entry.1, doc[i].1)
}

/// The attribute `entry` comes from the document.
pub open spec fn comes_from_doc(
    entry: (String, AttrValue),
    doc: Seq<(Seq<char>, JsonModel)>,
) -> bool {
    exists|i: int| #[trigger] comes_from(entry, doc, i)
}

/// `attrs` are the attributes that the document gives: one for each name in it,
/// in the order of the names, with the last value that the document has for it.
pub open spec fn is_attr_map_of(
    attrs: Seq<(String, AttrValue)>,
    doc: Seq<(Seq<char>, JsonModel)>,
) -> bool {
    &&& ordered::ascending(attrs)
    &&& forall|j: int| 0 <= j < attrs.len() ==> comes_from_doc(#[trigger] attrs[j], doc)
    &&& forall|i: int| 0 <= i < doc.len() ==> ordered::has_name(attrs, (#[trigger] doc[i]).0)
}

/// Two lists of attributes are what one document gives.
pub open spec fn are_of_one_document(
    a: Seq<(String, AttrValue)>,
    b: Seq<(String, AttrValue)>,
) -> bool {
    exists|doc: Seq<(Seq<char>, JsonModel)>|
        #![trigger is_attr_map_of(a, doc)]
        is_attr_map_of(a, doc) && is_attr_map_of(b, doc)
}

/// Brings the attributes of a document into the order of their names, so that
/// whoever walks over them sees them in the same order every time.
pub fn clone_attrs(entries: &Vec<(String, Value)>) -> (r: AttrMap)
    ensures
        is_attr_map_of(r@, entries_model(entries@)),
{
    let ghost doc = entries_model(entries@);
    let mut out: AttrMap = Vec::new();
    let mut i: usize = 0;
    while i < entries.len()
        invariant
            doc == entries_model(entries@),
            i <= entries.len(),
            is_attr_map_of(out@, doc.take(i as int)),
        decreases entries.len() - i,
    {
        let ghost before = out@;
        let ghost seen = doc.take(i as int);
        let ghost more = doc.take(i + 1);
        let value: AttrValue = json_to_attr(&entries[i].1);
        let at: usize = ordered::put(&mut out, entries[i].0.clone(), value);
        proof {
            let name = doc[i as int].0;
            assert(more =~= seen.push(doc[i as int]));
            assert(more[i as int] == doc[i as int]);
            assert(is_last_of_name(more, i as int));
            assert forall|j: int| 0 <= j < out@.len() implies comes_from_doc(
                #[trigger] out@[j],
                more,
            ) by {
                if j == at {
                    assert(comes_from(out@[j], more, i as int));
                } else {
                    let old_j = if ordered::has_name(before, name) || j < at {
                        j
                    } else {
                        j - 1
                    };
                    assert(out@[j] == before[old_j]);
                    assert(before[old_j].0@ != name) by {
                        if out@[j].0@ == name {
                            ordered::lemma_names_differ(out@, j, at as int);
                        }
                    }
                    assert(comes_from_doc(before[old_j], seen));
                    let k = choose|k: int| #[trigger] comes_from(before[old_j], seen, k);
                    assert(seen[k] == more[k]);
                    assert forall|l: int| k < l < more.len() implies (#[trigger] more[l]).0
                        != more[k].0 by {
                        if l < i {
                            assert(more[l] == seen[l]);
                        }
                    }
                    assert(comes_from(out@[j], more, k));
                }
            }
            assert forall|k: int| 0 <= k < more.len() implies ordered::has_name(
                out@,
                (#[trigger] more[k]).0,
            ) by {
                if k == i {
                    assert(out@[at as int].0@ == more[k].0);
                } else {
                    assert(more[k] == seen[k]);
                    let j = choose|j: int|
                        0 <= j < before.len() && (#[trigger] before[j]).0@ == seen[k].0;
                    if ordered::has_name(before, name) {
                        assert(out@[j].0@ == before[j].0@);
                    } else if j < at {
                        assert(out@[j] == before[j]);
                    } else {
                        assert(out@[j + 1] == before[j]);
                    }
                }
            }
        }
        i += 1;
    }
    assert(doc.take(doc.len() as int) =~= doc);
    out
}

// ---------------------------------------------------------------------------
// Laws
// ---------------------------------------------------------------------------

/// Negative integers are held as such only, and no integer is past `i64`.
pub open spec fn is_sound(m: JsonModel) -> bool
    decreases m,
{
    match m {
        JsonModel::Number(NumberModel::NegInt(i)) => i < 0,
        JsonModel::Number(NumberModel::PosInt(u)) => u <= i64::MAX,
        JsonModel::List(items) => forall|i: int|
            0 <= i < items.len() ==> is_sound(#[trigger] items[i]),
        JsonModel::Dict(entries) => forall|i: int|
            0 <= i < entries.len() ==> is_sound((#[trigger] entries[i]).1),
        _ => true,
    }
}

/// The attribute form of a value without integers past `i64` loses nothing:
/// two such JSON values with the same form are the same.
pub proof fn law_attribute_form_loses_nothing(value: AttrValue, a: JsonModel, b: JsonModel)
    requires
        is_attr_of(value, a),
        is_attr_of(value, b),
        is_sound(a),
        is_sound(b),
    ensures
        a == b,
    decreases a,
{
    match (value, a, b) {
        (AttrValue::List(items), JsonModel::List(x), JsonModel::List(y)) => {
            assert forall|i: int| 0 <= i < x.len() implies x[i] == y[i] by {
                assert(decreases_to!(a => x));
                assert(decreases_to!(x => x[i]));
                assert(is_attr_of(items@[i], x[i]) && is_attr_of(items@[i], y[i]));
                law_attribute_form_loses_nothing(items@[i], x[i], y[i]);
            }
            assert(x =~= y);
        },
        (AttrValue::Dict(items), JsonModel::Dict(x), JsonModel::Dict(y)) => {
            assert forall|i: int| 0 <= i < x.len() implies x[i] == y[i] by {
                assert(decreases_to!(a => x));
                assert(decreases_to!(x => x[i]));
                assert(decreases_to!(x[i] => x[i].1));
                assert(is_attr_of(items@[i].1, x[i].1) && is_attr_of(items@[i].1, y[i].1));
                assert(items@[i].0@ == x[i].0 && items@[i].0@ == y[i].0);
                law_attribute_form_loses_nothing(items@[i].1, x[i].1, y[i].1);
            }
            assert(x =~= y);
        },
        _ => {},
    }
}

/// Attributes come in the order of their names, whatever the order of the
/// document: two documents with the same names give them at the same places.
pub proof fn law_attribute_order_is_settled(
    a: Seq<(String, AttrValue)>,
    b: Seq<(String, AttrValue)>,
    x: Seq<(Seq<char>, JsonModel)>,
    y: Seq<(Seq<char>, JsonModel)>,
)
    requires
        is_attr_map_of(a, x),
        is_attr_map_of(b, y),
        forall|name: Seq<char>| #[trigger] is_named(x, name) <==> is_named(y, name),
    ensures
        a.len() == b.len(),
        forall|i: int| 0 <= i < a.len() ==> (#[trigger] a[i]).0@ == b[i].0@,
{
    lemma_names_carry_over(a, b, x, y);
    lemma_names_carry_over(b, a, y, x);
    ordered::lemma_same_names(a, b);
}

/// Some entry of the document has the name.
pub open spec fn is_named(doc: Seq<(Seq<char>, JsonModel)>, name: Seq<char>) -> bool {
    exists|i: int| 0 <= i < doc.len() && (#[trigger] doc[i]).0 == name
}

proof fn lemma_names_carry_over(
    a: Seq<(String, AttrValue)>,
    b: Seq<(String, AttrValue)>,
    x: Seq<(Seq<char>, JsonModel)>,
    y: Seq<(Seq<char>, JsonModel)>,
)
    requires
        is_attr_map_of(a, x),
        is_attr_map_of(b, y),
        forall|name: Seq<char>| #[trigger] is_named(x, name) <==> is_named(y, name),
    ensures
        forall|i: int| 0 <= i < a.len() ==> ordered::has_name(b, (#[trigger] a[i]).0@),
{
    assert forall|i: int| 0 <= i < a.len() implies ordered::has_name(b, (#[trigger] a[i]).0@) by {
        assert(comes_from_doc(a[i], x));
        let k = choose|k: int| #[trigger] comes_from(a[i], x, k);
        assert(x[k].0 == a[i].0@);
        assert(is_named(x, a[i].0@));
        let l = choose|l: int| 0 <= l < y.len() && (#[trigger] y[l]).0 == a[i].0@;
        assert(ordered::has_name(b, y[l].0));
    }
}

/// An attribute shows the JSON value that it stands for: a truth value as itself,
/// an integer that fits as that integer and any other number by its
/// double-precision form, a text with the same characters, a list item for item
/// and an object name for name, in their order.
pub proof fn law_attribute_shows_its_value(value: AttrValue, m: JsonModel)
    requires
        is_attr_of(value, m),
    ensures
        match m {
            JsonModel::Null => value is Null,
            JsonModel::Bool(b) => value == AttrValue::Bool(b),
            JsonModel::Number(NumberModel::PosInt(u)) => if u <= 0x7fff_ffff_ffff_ffff {
                value matches AttrValue::Int(i) && i == u
            } else {
                value == AttrValue::Float(integer_double(u as int))
            },
            JsonModel::Number(NumberModel::NegInt(i)) => value == AttrValue::Int(i),
            JsonModel::Number(NumberModel::Float(bits)) => value == AttrValue::Float(bits),
            JsonModel::Text(t) => value matches AttrValue::Text(s) && s@ == t,
            JsonModel::List(items) => value matches AttrValue::List(shown) && shown@.len()
                == items.len() && forall|i: int|
                0 <= i < items.len() ==> is_attr_of(#[trigger] shown@[i], items[i]),
            JsonModel::Dict(entries) => value matches AttrValue::Dict(shown) && shown@.len()
                == entries.len() && forall|i: int|
                0 <= i < entries.len() ==> (#[trigger] shown@[i]).0@ == entries[i].0 && is_attr_of(
                    shown@[i].1,
                    entries[i].1,
                ),
        },
{
    match (value, m) {
        (AttrValue::List(shown), JsonModel::List(items)) => {
            assert forall|i: int| 0 <= i < items.len() implies is_attr_of(
                #[trigger] shown@[i],
                items[i],
            ) by {
                assert(is_attr_of(shown@[i], items[i]));
            }
        },
        (AttrValue::Dict(shown), JsonModel::Dict(entries)) => {
            assert forall|i: int| 0 <= i < entries.len() implies (#[trigger] shown@[i]).0@
                == entries[i].0 && is_attr_of(shown@[i].1, entries[i].1) by {
                let e = entries[i];
                assert(shown@[i].0@ == e.0 && is_attr_of(shown@[i].1, e.1));
            }
        },
        _ => {},
    }
}

/// Texts are shown part by part: what a join is shown as is the join of what its
/// parts are shown as, and a single character is shown as itself.
pub proof fn law_texts_are_shown_part_by_part(
    whole: String,
    first: String,
    second: String,
    a: Seq<char>,
    b: Seq<char>,
    c: char,
)
    requires
        is_attr_of(AttrValue::Text(whole), JsonModel::Text(a + b)),
        is_attr_of(AttrValue::Text(first), JsonModel::Text(a)),
        is_attr_of(AttrValue::Text(second), JsonModel::Text(b)),
    ensures
        whole@ == first@ + second@,
        a == seq![c] ==> first@ == seq![c],
{
}

/// Every attribute of the document is shown, under its name and with its value;
/// where the document has a name twice, with the last value. Nothing else is
/// shown, and the names ascend.
pub proof fn law_document_settles_the_attributes(
    attrs: Seq<(String, AttrValue)>,
    doc: Seq<(Seq<char>, JsonModel)>,
    i: int,
)
    requires
        is_attr_map_of(attrs, doc),
    ensures
        0 <= i < doc.len() && (forall|k: int| i < k < doc.len() ==> (#[trigger] doc[k]).0 != doc[i].0)
            ==> exists|j: int|
            0 <= j < attrs.len() && (#[trigger] attrs[j]).0@ == doc[i].0 && is_attr_of(
                attrs[j].1,
                doc[i].1,
            ),
        0 <= i < attrs.len() ==> exists|k: int|
            0 <= k < doc.len() && (#[trigger] doc[k]).0 == attrs[i].0@ && is_attr_of(
                attrs[i].1,
                doc[k].1,
            ),
        forall|j: int, k: int|
            #![trigger attrs[j], attrs[k]]
            0 <= j < k < attrs.len() ==> text::text_lt(attrs[j].0@, attrs[k].0@),
{
    if 0 <= i < doc.len() && (forall|k: int|
        i < k < doc.len() ==> (#[trigger] doc[k]).0 != doc[i].0) {
        assert(ordered::has_name(attrs, doc[i].0));
        let j = choose|j: int| 0 <= j < attrs.len() && (#[trigger] attrs[j]).0@ == doc[i].0;
        assert(comes_from_doc(attrs[j], doc));
        let k = choose|k: int| #[trigger] comes_from(attrs[j], doc, k);
        assert(k == i) by {
            if k < i {
                assert(doc[i].0 != doc[k].0);
            } else if i < k {
                assert(doc[k].0 != doc[i].0);
            }
        }
    }
    if 0 <= i < attrs.len() {
        assert(comes_from_doc(attrs[i], doc));
        let k = choose|k: int| #[trigger] comes_from(attrs[i], doc, k);
        assert(doc[k].0 == attrs[i].0@);
    }
}

/// What entries hold is what each of them holds.
pub proof fn law_entries_are_taken_one_by_one(entries: Seq<(String, Value)>)
    ensures
        entries_model(entries).len() == entries.len(),
        forall|i: int|
            0 <= i < entries.len() ==> #[trigger] entries_model(entries)[i] == (
                entries[i].0@,
                json_model(entries[i].1),
            ),
{
}

} // verus!
