//! JSON values as plain data, and the calls into `serde_json`.
use crate::text::{
    copy_str, decimal, has_char, numeric_like, same_text, signed_dec, text_before, text_less, trim,
};
use serde_json::value::RawValue;
use serde_json::Value;
use std::collections::BTreeMap;
use vstd::prelude::*;

verus! {

/// A JSON number. A number with a fraction or an exponent is held as the shortest text that reads back
/// as the same double.
#[derive(Debug)]
pub enum Number {
    PosInt(u64),
    NegInt(i64),
    Float(String),
}

/// A JSON value. The fields of an object stand in the order of their names.
#[derive(Debug)]
pub enum Json {
    Null,
    Bool(bool),
    Number(Number),
    Text(String),
    Array(Vec<Json>),
    Object(Vec<(String, Json)>),
}

/// What a JSON value is.
pub ghost enum JsonModel {
    Null,
    Bool(bool),
    Int(int),
    Float(Seq<char>),
    Text(Seq<char>),
    Array(Seq<JsonModel>),
    Object(Seq<(Seq<char>, JsonModel)>),
}

pub open spec fn number_model(n: Number) -> JsonModel {
    match n {
        Number::PosInt(u) => JsonModel::Int(u as int),
        Number::NegInt(i) => JsonModel::Int(i as int),
        Number::Float(t) => JsonModel::Float(t@),
    }
}

pub open spec fn model(j: Json) -> JsonModel
    decreases j,
{
    match j {
        Json::Null => JsonModel::Null,
        Json::Bool(b) => JsonModel::Bool(b),
        Json::Number(n) => number_model(n),
        Json::Text(s) => JsonModel::Text(s@),
        Json::Array(v) => JsonModel::Array(
            Seq::new(
                v@.len(),
                |i: int|
                    if 0 <= i < v@.len() {
                        model(v@[i])
                    } else {
                        JsonModel::Null
                    },
            ),
        ),
        Json::Object(v) => JsonModel::Object(
            Seq::new(
                v@.len(),
                |i: int|
                    if 0 <= i < v@.len() {
                        (v@[i].0@, model(v@[i].1))
                    } else {
                        (Seq::empty(), JsonModel::Null)
                    },
            ),
        ),
    }
}

impl View for Json {
    type V = JsonModel;

    open spec fn view(&self) -> JsonModel {
        model(*self)
    }
}

/// The values of a vector.
pub open spec fn models(v: Seq<Json>) -> Seq<JsonModel> {
    Seq::new(v.len(), |i: int| model(v[i]))
}

/// The named values of a vector.
pub open spec fn field_models(v: Seq<(String, Json)>) -> Seq<(Seq<char>, JsonModel)> {
    Seq::new(v.len(), |i: int| (v[i].0@, model(v[i].1)))
}

pub broadcast proof fn lemma_array_model(v: Vec<Json>)
    ensures
        #[trigger] model(Json::Array(v)) == JsonModel::Array(models(v@)),
{
    assert(model(Json::Array(v))->Array_0 =~= models(v@));
}

pub broadcast proof fn lemma_object_model(v: Vec<(String, Json)>)
    ensures
        #[trigger] model(Json::Object(v)) == JsonModel::Object(field_models(v@)),
{
    assert(model(Json::Object(v))->Object_0 =~= field_models(v@));
}

pub broadcast proof fn lemma_models_push(v: Seq<Json>, j: Json)
    ensures
        #[trigger] models(v.push(j)) == models(v).push(model(j)),
{
    assert(models(v.push(j)) =~= models(v).push(model(j)));
}

pub broadcast proof fn lemma_field_models_push(v: Seq<(String, Json)>, f: (String, Json))
    ensures
        #[trigger] field_models(v.push(f)) == field_models(v).push((f.0@, model(f.1))),
{
    assert(field_models(v.push(f)) =~= field_models(v).push((f.0@, model(f.1))));
}

pub broadcast group group_json_models {
    lemma_array_model,
    lemma_object_model,
    lemma_models_push,
    lemma_field_models_push,
}

// ---------------------------------------------------------------------------
// Well-formedness
// ---------------------------------------------------------------------------

/// Field names in strictly ascending order.
pub open spec fn ascending(fields: Seq<(Seq<char>, JsonModel)>) -> bool {
    forall|i: int, j: int|
        0 <= i < j < fields.len() ==> text_less((#[trigger] fields[i]).0, (#[trigger] fields[j]).0)
}

/// Integers in the range that JSON numbers are read into, other numbers by their shortest text, arrays
/// that memory can hold, and objects with ascending names.
pub open spec fn well_formed(m: JsonModel) -> bool
    decreases m,
{
    match m {
        JsonModel::Int(n) => i64::MIN <= n <= u64::MAX,
        JsonModel::Float(t) => is_float_text(t),
        JsonModel::Array(v) => v.len() <= usize::MAX && forall|i: int|
            0 <= i < v.len() ==> well_formed(#[trigger] v[i]),
        JsonModel::Object(v) => ascending(v) && forall|i: int|
            0 <= i < v.len() ==> well_formed((#[trigger] v[i]).1),
        _ => true,
    }
}

impl JsonModel {
    /// Neither an array nor an object.
    pub open spec fn is_scalar(self) -> bool {
        !(self is Array) && !(self is Object)
    }

    /// The field `key` of an object.
    pub open spec fn get(self, key: Seq<char>) -> Option<JsonModel> {
        match self {
            JsonModel::Object(fields) => field(fields, key),
            _ => None,
        }
    }

    /// The field `key` where it is there and a string.
    pub open spec fn get_text(self, key: Seq<char>) -> Option<Seq<char>> {
        match self.get(key) {
            Some(JsonModel::Text(s)) => Some(s),
            _ => None,
        }
    }

    /// The field `key` where it is there and a truth value.
    pub open spec fn get_bool(self, key: Seq<char>) -> Option<bool> {
        match self.get(key) {
            Some(JsonModel::Bool(b)) => Some(b),
            _ => None,
        }
    }

    /// The field `key` where it is there and a number from 0 up.
    pub open spec fn get_unsigned(self, key: Seq<char>) -> Option<int> {
        match self.get(key) {
            Some(JsonModel::Int(n)) => if n >= 0 {
                Some(n)
            } else {
                None
            },
            _ => None,
        }
    }
}

/// The value of the first field named `key`.
pub open spec fn field(fields: Seq<(Seq<char>, JsonModel)>, key: Seq<char>) -> Option<JsonModel>
    decreases fields.len(),
{
    if fields.len() == 0 {
        None
    } else if fields[0].0 == key {
        Some(fields[0].1)
    } else {
        field(fields.drop_first(), key)
    }
}

pub proof fn lemma_field_at(fields: Seq<(Seq<char>, JsonModel)>, key: Seq<char>, k: int)
    requires
        0 <= k < fields.len(),
        fields[k].0 == key,
        forall|j: int| 0 <= j < k ==> (#[trigger] fields[j]).0 != key,
    ensures
        field(fields, key) == Some(fields[k].1),
    decreases fields.len(),
{
    if k > 0 {
        assert(fields[0].0 != key);
        let rest = fields.drop_first();
        assert forall|j: int| 0 <= j < k - 1 implies (#[trigger] rest[j]).0 != key by {
            assert(rest[j] == fields[j + 1]);
        }
        lemma_field_at(rest, key, k - 1);
    }
}

pub proof fn lemma_field_absent(fields: Seq<(Seq<char>, JsonModel)>, key: Seq<char>)
    requires
        forall|j: int| 0 <= j < fields.len() ==> (#[trigger] fields[j]).0 != key,
    ensures
        field(fields, key) is None,
    decreases fields.len(),
{
    if fields.len() > 0 {
        assert(fields[0].0 != key);
        let rest = fields.drop_first();
        assert forall|j: int| 0 <= j < rest.len() implies (#[trigger] rest[j]).0 != key by {
            assert(rest[j] == fields[j + 1]);
        }
        lemma_field_absent(rest, key);
    }
}

pub fn find_field<'a>(fields: &'a Vec<(String, Json)>, key: &str) -> (r: Option<&'a Json>)
    ensures
        r is Some <==> field(field_models(fields@), key@) is Some,
        r matches Some(j) ==> field(field_models(fields@), key@) == Some(j@),
        r matches Some(j) ==> decreases_to!(fields => j),
{
    let ghost all = field_models(fields@);
    let mut i: usize = 0;
    while i < fields.len()
        invariant
            i <= fields@.len(),
            all == field_models(fields@),
            forall|j: int| 0 <= j < i ==> (#[trigger] all[j]).0 != key@,
        decreases fields.len() - i,
    {
        assert(all[i as int].0 == fields@[i as int].0@);
        if same_text(fields[i].0.as_str(), key) {
            proof {
                lemma_field_at(all, key@, i as int);
                assert(decreases_to!(fields => fields@[i as int]));
            }
            return Some(&fields[i].1);
        }
        i = i + 1;
    }
    proof {
        lemma_field_absent(all, key@);
    }
    None
}

impl Json {
    pub open spec fn wf(&self) -> bool {
        well_formed(self@)
    }

    pub fn is_scalar(&self) -> (b: bool)
        ensures
            b == self@.is_scalar(),
    {
        match self {
            Json::Array(_) | Json::Object(_) => false,
            _ => true,
        }
    }

    pub fn get(&self, key: &str) -> (r: Option<&Json>)
        ensures
            r is Some <==> self@.get(key@) is Some,
            r matches Some(j) ==> self@.get(key@) == Some(j@),
            r matches Some(j) ==> decreases_to!(self => j),
    {
        broadcast use group_json_models;
        match self {
            Json::Object(fields) => find_field(fields, key),
            _ => None,
        }
    }

    pub fn get_text(&self, key: &str) -> (r: Option<&str>)
        ensures
            r is Some <==> self@.get_text(key@) is Some,
            r matches Some(s) ==> self@.get_text(key@) == Some(s@),
    {
        match self.get(key) {
            Some(Json::Text(s)) => Some(s.as_str()),
            _ => None,
        }
    }

    pub fn get_bool(&self, key: &str) -> (r: Option<bool>)
        ensures
            r == self@.get_bool(key@),
    {
        match self.get(key) {
            Some(Json::Bool(b)) => Some(*b),
            _ => None,
        }
    }

    pub fn get_unsigned(&self, key: &str) -> (r: Option<u64>)
        ensures
            r is Some <==> self@.get_unsigned(key@) is Some,
            r matches Some(n) ==> self@.get_unsigned(key@) == Some(n as int),
    {
        match self.get(key) {
            Some(Json::Number(Number::PosInt(n))) => Some(*n),
            Some(Json::Number(Number::NegInt(n))) => {
                if *n >= 0 {
                    Some(*n as u64)
                } else {
                    None
                }
            },
            _ => None,
        }
    }

    /// A value of its own that is the same.
    pub fn copy(&self) -> (r: Json)
        ensures
            r@ == self@,
        decreases *self,
    {
        broadcast use group_json_models;
        match self {
            Json::Null => Json::Null,
            Json::Bool(b) => Json::Bool(*b),
            Json::Number(Number::PosInt(n)) => Json::Number(Number::PosInt(*n)),
            Json::Number(Number::NegInt(n)) => Json::Number(Number::NegInt(*n)),
            Json::Number(Number::Float(t)) => Json::Number(Number::Float(t.clone())),
            Json::Text(s) => Json::Text(s.clone()),
            Json::Array(v) => {
                let mut out: Vec<Json> = Vec::new();
                let mut i: usize = 0;
                assert(models(out@) =~= models(v@).take(0));
                while i < v.len()
                    invariant
                        i <= v@.len(),
                        *self == Json::Array(*v),
                        models(out@) == models(v@).take(i as int),
                    decreases v.len() - i,
                {
                    broadcast use group_json_models;
                    assert(decreases_to!(*self => self->Array_0@[i as int]));
                    out.push(v[i].copy());
                    assert(models(v@).take(i + 1) =~= models(v@).take(i as int).push(model(v@[i as int])));
                    i = i + 1;
                }
                assert(models(v@).take(v@.len() as int) =~= models(v@));
                Json::Array(out)
            },
            Json::Object(v) => {
                let mut out: Vec<(String, Json)> = Vec::new();
                let mut i: usize = 0;
                assert(field_models(out@) =~= field_models(v@).take(0));
                while i < v.len()
                    invariant
                        i <= v@.len(),
                        *self == Json::Object(*v),
                        field_models(out@) == field_models(v@).take(i as int),
                    decreases v.len() - i,
                {
                    broadcast use group_json_models;
                    assert(decreases_to!(*self => self->Object_0@[i as int]));
                    out.push((v[i].0.clone(), v[i].1.copy()));
                    assert(field_models(v@).take(i + 1) =~= field_models(v@).take(i as int).push(
                        (v@[i as int].0@, model(v@[i as int].1)),
                    ));
                    i = i + 1;
                }
                assert(field_models(v@).take(v@.len() as int) =~= field_models(v@));
                Json::Object(out)
            },
        }
    }
}

pub fn text_value(s: &str) -> (j: Json)
    ensures
        j@ == JsonModel::Text(s@),
{
    Json::Text(copy_str(s))
}

pub fn count_value(n: usize) -> (j: Json)
    ensures
        j@ == JsonModel::Int(n as int),
{
    Json::Number(Number::PosInt(n as u64))
}

// ---------------------------------------------------------------------------
// Fields in order
// ---------------------------------------------------------------------------

/// The fields with `key` set to `value`: in place of the field of that name, or where it belongs in
/// ascending order.
pub open spec fn with_field(
    fields: Seq<(Seq<char>, JsonModel)>,
    key: Seq<char>,
    value: JsonModel,
) -> Seq<(Seq<char>, JsonModel)>
    decreases fields.len(),
{
    if fields.len() == 0 {
        seq![(key, value)]
    } else if fields[0].0 == key {
        seq![(key, value)] + fields.drop_first()
    } else if text_less(key, fields[0].0) {
        seq![(key, value)] + fields
    } else {
        seq![fields[0]] + with_field(fields.drop_first(), key, value)
    }
}

pub fn set_field(fields: &mut Vec<(String, Json)>, key: String, value: Json)
    ensures
        field_models(final(fields)@) == with_field(field_models(old(fields)@), key@, value@),
{
    let ghost all = field_models(fields@);
    let mut i: usize = 0;
    assert(all.skip(0) =~= all);
    assert(all.take(0) + with_field(all.skip(0), key@, value@) =~= with_field(all, key@, value@));
    while i < fields.len()
        invariant
            i <= fields@.len(),
            fields@ == old(fields)@,
            all == field_models(old(fields)@),
            all.take(i as int) + with_field(all.skip(i as int), key@, value@) == with_field(
                all,
                key@,
                value@,
            ),
        decreases fields.len() - i,
    {
        let ghost rest = all.skip(i as int);
        assert(rest[0] == all[i as int]);
        assert(rest.drop_first() =~= all.skip(i + 1));
        if same_text(fields[i].0.as_str(), key.as_str()) {
            let ghost k = key@;
            let ghost m = value@;
            fields.set(i, (key, value));
            assert(field_models(fields@) =~= all.take(i as int) + (seq![(k, m)] + all.skip(i + 1)));
            return ;
        }
        if text_before(key.as_str(), fields[i].0.as_str()) {
            let ghost k = key@;
            let ghost m = value@;
            fields.insert(i, (key, value));
            assert(field_models(fields@) =~= all.take(i as int) + (seq![(k, m)] + rest));
            return ;
        }
        assert(all.take(i + 1) + with_field(all.skip(i + 1), key@, value@) =~= all.take(i as int) + (
        seq![rest[0]] + with_field(rest.drop_first(), key@, value@)));
        i = i + 1;
    }
    let ghost k = key@;
    let ghost m = value@;
    assert(all.skip(i as int).len() == 0);
    fields.push((key, value));
    assert(field_models(fields@) =~= all.take(i as int) + seq![(k, m)]);
}

/// A name above all names of the fields goes to the end.
pub proof fn lemma_with_field_last(
    fields: Seq<(Seq<char>, JsonModel)>,
    key: Seq<char>,
    value: JsonModel,
)
    requires
        forall|i: int| 0 <= i < fields.len() ==> text_less((#[trigger] fields[i]).0, key),
    ensures
        with_field(fields, key, value) == fields.push((key, value)),
    decreases fields.len(),
{
    if fields.len() > 0 {
        let rest = fields.drop_first();
        assert(text_less(fields[0].0, key));
        crate::text::lemma_text_less_irreflexive(key);
        if text_less(key, fields[0].0) {
            crate::text::lemma_text_less_transitive(key, fields[0].0, key);
        }
        assert forall|i: int| 0 <= i < rest.len() implies text_less((#[trigger] rest[i]).0, key) by {
            assert(rest[i] == fields[i + 1]);
        }
        lemma_with_field_last(rest, key, value);
        assert(seq![fields[0]] + rest.push((key, value)) =~= fields.push((key, value)));
    } else {
        assert(seq![(key, value)] =~= fields.push((key, value)));
    }
}

/// Setting a field keeps the names ascending and gives the field its value.
pub proof fn lemma_with_field(fields: Seq<(Seq<char>, JsonModel)>, key: Seq<char>, value: JsonModel)
    requires
        ascending(fields),
    ensures
        ascending(with_field(fields, key, value)),
        field(with_field(fields, key, value), key) == Some(value),
        forall|i: int|
            0 <= i < with_field(fields, key, value).len() ==> (#[trigger] with_field(
                fields,
                key,
                value,
            )[i]) == (key, value) || fields.contains(with_field(fields, key, value)[i]),
    decreases fields.len(),
{
    let out = with_field(fields, key, value);
    if fields.len() == 0 {
    } else if fields[0].0 == key {
        assert forall|i: int, j: int| 0 <= i < j < out.len() implies text_less(
            (#[trigger] out[i]).0,
            (#[trigger] out[j]).0,
        ) by {
            assert(out[j] == fields[j]);
            assert(out[i].0 == fields[i].0);
        }
        assert forall|i: int| 0 <= i < out.len() implies (#[trigger] out[i]) == (key, value)
            || fields.contains(out[i]) by {
            if i > 0 {
                assert(out[i] == fields[i]);
            }
        }
    } else if text_less(key, fields[0].0) {
        assert forall|i: int, j: int| 0 <= i < j < out.len() implies text_less(
            (#[trigger] out[i]).0,
            (#[trigger] out[j]).0,
        ) by {
            assert(out[j] == fields[j - 1]);
            if i > 0 {
                assert(out[i] == fields[i - 1]);
            } else if j > 1 {
                assert(text_less(fields[0].0, fields[j - 1].0));
                crate::text::lemma_text_less_transitive(key, fields[0].0, fields[j - 1].0);
            }
        }
        assert forall|i: int| 0 <= i < out.len() implies (#[trigger] out[i]) == (key, value)
            || fields.contains(out[i]) by {
            if i > 0 {
                assert(out[i] == fields[i - 1]);
            }
        }
    } else {
        let rest = fields.drop_first();
        assert forall|i: int, j: int| 0 <= i < j < rest.len() implies text_less(
            (#[trigger] rest[i]).0,
            (#[trigger] rest[j]).0,
        ) by {
            assert(rest[i] == fields[i + 1] && rest[j] == fields[j + 1]);
        }
        lemma_with_field(rest, key, value);
        crate::text::lemma_text_less_total(key, fields[0].0);
        let tail = with_field(rest, key, value);
        assert(out.drop_first() =~= tail);
        assert forall|i: int, j: int| 0 <= i < j < out.len() implies text_less(
            (#[trigger] out[i]).0,
            (#[trigger] out[j]).0,
        ) by {
            assert(out[j] == tail[j - 1]);
            if i > 0 {
                assert(out[i] == tail[i - 1]);
            } else if tail[j - 1] != (key, value) {
                let k = choose|k: int| 0 <= k < rest.len() && rest[k] == tail[j - 1];
                assert(fields[k + 1] == tail[j - 1]);
            }
        }
        assert forall|i: int| 0 <= i < out.len() implies (#[trigger] out[i]) == (key, value)
            || fields.contains(out[i]) by {
            if i > 0 {
                assert(out[i] == tail[i - 1]);
                if tail[i - 1] != (key, value) {
                    let k = choose|k: int| 0 <= k < rest.len() && rest[k] == tail[i - 1];
                    assert(fields[k + 1] == tail[i - 1]);
                }
            } else {
                assert(out[0] == fields[0]);
            }
        }
    }
}

pub proof fn lemma_with_same_field(
    fields: Seq<(Seq<char>, JsonModel)>,
    key: Seq<char>,
    value: JsonModel,
)
    ensures
        field(with_field(fields, key, value), key) == Some(value),
    decreases fields.len(),
{
    if fields.len() > 0 && fields[0].0 != key && !text_less(key, fields[0].0) {
        lemma_with_same_field(fields.drop_first(), key, value);
        assert(with_field(fields, key, value).drop_first() =~= with_field(
            fields.drop_first(),
            key,
            value,
        ));
    }
}

/// Setting a field leaves the others as they are.
pub proof fn lemma_with_other_field(
    fields: Seq<(Seq<char>, JsonModel)>,
    key: Seq<char>,
    value: JsonModel,
    other: Seq<char>,
)
    requires
        key != other,
    ensures
        field(with_field(fields, key, value), other) == field(fields, other),
    decreases fields.len(),
{
    let out = with_field(fields, key, value);
    if fields.len() == 0 {
        assert(out.drop_first() =~= fields);
    } else if fields[0].0 == key {
        assert(out.drop_first() =~= fields.drop_first());
    } else if text_less(key, fields[0].0) {
        assert(out.drop_first() =~= fields);
    } else {
        lemma_with_other_field(fields.drop_first(), key, value, other);
        assert(out.drop_first() =~= with_field(fields.drop_first(), key, value));
    }
}

// ---------------------------------------------------------------------------
// Equality
// ---------------------------------------------------------------------------

/// The two doubles that are zero.
pub open spec fn is_zero_text(t: Seq<char>) -> bool {
    t == "0.0"@ || t == "-0.0"@
}

/// Whether two values are equal: element by element, with the two zeros the same number.
pub open spec fn json_equal(a: JsonModel, b: JsonModel) -> bool
    decreases a,
{
    match (a, b) {
        (JsonModel::Float(x), JsonModel::Float(y)) => x == y || is_zero_text(x) && is_zero_text(y),
        (JsonModel::Array(x), JsonModel::Array(y)) => x.len() == y.len() && forall|i: int|
            0 <= i < x.len() ==> json_equal(#[trigger] x[i], y[i]),
        (JsonModel::Object(x), JsonModel::Object(y)) => x.len() == y.len() && forall|i: int|
            0 <= i < x.len() ==> (#[trigger] x[i]).0 == y[i].0 && json_equal(x[i].1, y[i].1),
        _ => a == b,
    }
}

/// No number in the value is the negative zero.
pub open spec fn no_negative_zero(m: JsonModel) -> bool
    decreases m,
{
    match m {
        JsonModel::Float(t) => t != "-0.0"@,
        JsonModel::Array(v) => forall|i: int| 0 <= i < v.len() ==> no_negative_zero(#[trigger] v[i]),
        JsonModel::Object(v) => forall|i: int| 0 <= i < v.len() ==> no_negative_zero((#[trigger] v[i]).1),
        _ => true,
    }
}

/// A value is equal to itself, and values that are equal are the same but for the sign of zeros.
pub proof fn equal_values_are_the_same(a: JsonModel, b: JsonModel)
    ensures
        a == b ==> json_equal(a, b),
        json_equal(a, b) && no_negative_zero(a) && no_negative_zero(b) ==> a == b,
    decreases a,
{
    match (a, b) {
        (JsonModel::Array(x), JsonModel::Array(y)) => {
            assert forall|i: int| 0 <= i < x.len() && x.len() == y.len() implies (x[i] == y[i]
                ==> json_equal(#[trigger] x[i], y[i])) && (json_equal(x[i], y[i]) && no_negative_zero(
                x[i],
            ) && no_negative_zero(y[i]) ==> x[i] == y[i]) by {
                equal_values_are_the_same(x[i], y[i]);
            }
            if json_equal(a, b) && no_negative_zero(a) && no_negative_zero(b) {
                assert forall|i: int| 0 <= i < x.len() implies x[i] == y[i] by {
                    assert(json_equal(x[i], y[i]));
                    assert(no_negative_zero(x[i]) && no_negative_zero(y[i]));
                }
                assert(x =~= y);
            }
        },
        (JsonModel::Object(x), JsonModel::Object(y)) => {
            assert forall|i: int| 0 <= i < x.len() && x.len() == y.len() implies (x[i].1 == y[i].1
                ==> json_equal((#[trigger] x[i]).1, y[i].1)) && (json_equal(x[i].1, y[i].1)
                && no_negative_zero(x[i].1) && no_negative_zero(y[i].1) ==> x[i].1 == y[i].1) by {
                equal_values_are_the_same(x[i].1, y[i].1);
            }
            if json_equal(a, b) && no_negative_zero(a) && no_negative_zero(b) {
                assert forall|i: int| 0 <= i < x.len() implies x[i] == y[i] by {
                    assert(x[i].0 == y[i].0 && json_equal(x[i].1, y[i].1));
                    assert(no_negative_zero(x[i].1) && no_negative_zero(y[i].1));
                }
                assert(x =~= y);
            }
        },
        _ => {},
    }
}

fn is_zero(t: &str) -> (b: bool)
    ensures
        b == is_zero_text(t@),
{
    same_text(t, "0.0") || same_text(t, "-0.0")
}

/// The integer that a number is, where it is one.
fn integer_of(n: &Number) -> (r: Option<i128>)
    ensures
        r matches Some(k) ==> number_model(*n) == JsonModel::Int(k as int),
        r is None ==> number_model(*n) is Float,
{
    match n {
        Number::PosInt(u) => Some(*u as i128),
        Number::NegInt(i) => Some(*i as i128),
        Number::Float(_) => None,
    }
}

/// The decimal text of an integer; nothing for another number.
pub fn integer_text(n: &Number) -> (s: String)
    ensures
        number_model(*n) matches JsonModel::Int(k) ==> s@ == signed_dec(k),
{
    match n {
        Number::PosInt(u) => decimal(*u),
        Number::NegInt(i) => {
            let i: i64 = *i;
            if i >= 0 {
                return decimal(i as u64);
            }
            let mut out = String::new();
            out.push('-');
            let digits = if i == i64::MIN {
                decimal(0x8000_0000_0000_0000)
            } else {
                decimal((-i) as u64)
            };
            out.append(digits.as_str());
            assert(out@ =~= signed_dec(i as int));
            out
        },
        Number::Float(_) => String::new(),
    }
}

pub fn same_json(a: &Json, b: &Json) -> (r: bool)
    ensures
        r == json_equal(a@, b@),
    decreases *a,
{
    broadcast use group_json_models;
    match (a, b) {
        (Json::Null, Json::Null) => true,
        (Json::Bool(x), Json::Bool(y)) => *x == *y,
        (Json::Number(x), Json::Number(y)) => match (integer_of(x), integer_of(y)) {
            (Some(i), Some(j)) => i == j,
            (None, None) => match (x, y) {
                (Number::Float(s), Number::Float(t)) => same_text(s.as_str(), t.as_str()) || (is_zero(
                    s.as_str(),
                ) && is_zero(t.as_str())),
                _ => false,
            },
            _ => false,
        },
        (Json::Text(x), Json::Text(y)) => same_text(x.as_str(), y.as_str()),
        (Json::Array(x), Json::Array(y)) => {
            if x.len() != y.len() {
                return false;
            }
            let mut i: usize = 0;
            while i < x.len()
                invariant
                    i <= x@.len() == y@.len(),
                    *a == Json::Array(*x),
                    a@ == JsonModel::Array(models(x@)),
                    b@ == JsonModel::Array(models(y@)),
                    forall|j: int| 0 <= j < i ==> json_equal(#[trigger] models(x@)[j], models(y@)[j]),
                decreases x.len() - i,
            {
                assert(decreases_to!(*a => x@[i as int]));
                if !same_json(&x[i], &y[i]) {
                    assert(!json_equal(models(x@)[i as int], models(y@)[i as int]));
                    return false;
                }
                i = i + 1;
            }
            true
        },
        (Json::Object(x), Json::Object(y)) => {
            if x.len() != y.len() {
                return false;
            }
            let mut i: usize = 0;
            while i < x.len()
                invariant
                    i <= x@.len() == y@.len(),
                    *a == Json::Object(*x),
                    a@ == JsonModel::Object(field_models(x@)),
                    b@ == JsonModel::Object(field_models(y@)),
                    forall|j: int|
                        0 <= j < i ==> (#[trigger] field_models(x@)[j]).0 == field_models(y@)[j].0
                            && json_equal(field_models(x@)[j].1, field_models(y@)[j].1),
                decreases x.len() - i,
            {
                assert(decreases_to!(*a => x@[i as int]));
                let ghost fx = field_models(x@)[i as int];
                let ghost fy = field_models(y@)[i as int];
                if !same_text(x[i].0.as_str(), y[i].0.as_str()) {
                    assert(fx.0 != fy.0);
                    return false;
                }
                if !same_json(&x[i].1, &y[i].1) {
                    assert(!json_equal(fx.1, fy.1));
                    return false;
                }
                i = i + 1;
            }
            true
        },
        _ => false,
    }
}

// ---------------------------------------------------------------------------
// Reading and writing JSON
// ---------------------------------------------------------------------------

#[verifier::external_type_specification]
#[verifier::external_body]
pub struct ExValue(serde_json::Value);

/// A `serde_json::Value` as a [`Json`]: variant for variant, and a number by `as_u64`, `as_i64` or its
/// text.
#[verifier::external_body]
fn from_value(value: Value) -> Json {
    match value {
        Value::Null => Json::Null,
        Value::Bool(b) => Json::Bool(b),
        Value::Number(n) => match (n.as_u64(), n.as_i64()) {
            (Some(u), _) => Json::Number(Number::PosInt(u)),
            (None, Some(i)) => Json::Number(Number::NegInt(i)),
            (None, None) => Json::Number(Number::Float(n.to_string())),
        },
        Value::String(s) => Json::Text(s),
        Value::Array(v) => Json::Array(v.into_iter().map(from_value).collect()),
        Value::Object(m) => Json::Object(m.into_iter().map(|(k, v)| (k, from_value(v))).collect()),
    }
}

/// A [`Json`] as a `serde_json::Value`: variant for variant.
#[verifier::external_body]
fn to_value(json: &Json) -> Value {
    match json {
        Json::Null => Value::Null,
        Json::Bool(b) => Value::Bool(*b),
        Json::Number(Number::PosInt(u)) => Value::from(*u),
        Json::Number(Number::NegInt(i)) => Value::from(*i),
        Json::Number(Number::Float(t)) => Value::from(
            t.parse().ok().and_then(serde_json::Number::from_f64),
        ),
        Json::Text(s) => Value::String(s.clone()),
        Json::Array(v) => Value::Array(v.iter().map(to_value).collect()),
        Json::Object(v) => Value::Object(v.iter().map(|f| (f.0.clone(), to_value(&f.1))).collect()),
    }
}

/// The value that a JSON text reads as.
pub uninterp spec fn json_parse(text: Seq<char>) -> Option<JsonModel>;

/// `serde_json::from_str` for a value: a function of the text. Its objects are ordered maps, so their
/// names ascend and none occurs twice; its integers are those of `i64` and `u64`, and the text of another
/// number is the shortest that reads back as it, with a point or an exponent. Spaces around the value
/// make no difference: a text that is a value is the same value without them.
#[verifier::external_body]
fn call_from_str(text: &str) -> (r: Option<Json>)
    ensures
        r is Some <==> json_parse(text@) is Some,
        r matches Some(j) ==> json_parse(text@) == Some(j@) && j.wf(),
        r matches Some(j) ==> json_parse(trim(text@)) == Some(j@),
{
    serde_json::from_str(text).ok().map(from_value)
}

/// The value that a JSON text is, or nothing where it is none.
pub fn parse_json(text: &str) -> (r: Option<Json>)
    ensures
        r is Some <==> json_parse(text@) is Some,
        r matches Some(j) ==> json_parse(text@) == Some(j@) && j.wf(),
        r matches Some(j) ==> json_parse(trim(text@)) == Some(j@),
{
    call_from_str(text)
}

/// What is wrong with a text that is no JSON.
pub uninterp spec fn json_error(text: Seq<char>) -> Seq<char>;

/// The error of `serde_json::from_str` for a value: its text is a function of the text that was
/// read.
#[verifier::external_body]
pub(crate) fn parse_error(text: &str) -> (s: String)
    requires
        json_parse(text@) is None,
    ensures
        s@ == json_error(text@),
{
    serde_json::from_str::<Value>(text).unwrap_err().to_string()
}

/// The compact JSON text of a value.
pub uninterp spec fn json_text(value: JsonModel) -> Seq<char>;

/// How deep arrays and objects may be nested in a text that is read.
pub const MAX_DEPTH: u8 = 127;

/// A value that reading its text gives back: without numbers that have a fraction, nested no deeper
/// than `depth`, and with ascending field names, none of them the name that raw values are read by.
pub open spec fn reads_back(m: JsonModel, depth: int) -> bool
    decreases m,
{
    match m {
        JsonModel::Int(n) => i64::MIN <= n <= u64::MAX,
        JsonModel::Float(_) => false,
        JsonModel::Array(v) => depth > 0 && forall|i: int|
            0 <= i < v.len() ==> reads_back(#[trigger] v[i], depth - 1),
        JsonModel::Object(v) => depth > 0 && ascending(v) && forall|i: int|
            0 <= i < v.len() ==> (#[trigger] v[i]).0 != "$serde_json::private::RawValue"@
                && reads_back(v[i].1, depth - 1),
        _ => true,
    }
}

/// No object has a field of the name that raw values are read by.
pub open spec fn no_raw_names(m: JsonModel) -> bool
    decreases m,
{
    match m {
        JsonModel::Array(v) => forall|i: int| 0 <= i < v.len() ==> no_raw_names(#[trigger] v[i]),
        JsonModel::Object(v) => forall|i: int|
            0 <= i < v.len() ==> (#[trigger] v[i]).0 != "$serde_json::private::RawValue"@
                && no_raw_names(v[i].1),
        _ => true,
    }
}

/// The same values but for the digits of numbers that have a fraction.
pub open spec fn same_but_fractions(a: JsonModel, b: JsonModel) -> bool
    decreases a,
{
    match (a, b) {
        (JsonModel::Float(_), JsonModel::Float(_)) => true,
        (JsonModel::Array(x), JsonModel::Array(y)) => x.len() == y.len() && forall|i: int|
            0 <= i < x.len() ==> same_but_fractions(#[trigger] x[i], y[i]),
        (JsonModel::Object(x), JsonModel::Object(y)) => x.len() == y.len() && forall|i: int|
            0 <= i < x.len() ==> (#[trigger] x[i]).0 == y[i].0 && same_but_fractions(x[i].1, y[i].1),
        _ => a == b,
    }
}

/// Both are missing, or both are there and the same but for fractions.
pub open spec fn both_same_but_fractions(a: Option<JsonModel>, b: Option<JsonModel>) -> bool {
    match (a, b) {
        (Some(x), Some(y)) => same_but_fractions(x, y),
        (None, None) => true,
        _ => false,
    }
}

proof fn lemma_same_field(
    x: Seq<(Seq<char>, JsonModel)>,
    y: Seq<(Seq<char>, JsonModel)>,
    key: Seq<char>,
)
    requires
        x.len() == y.len(),
        forall|i: int|
            0 <= i < x.len() ==> (#[trigger] x[i]).0 == y[i].0 && same_but_fractions(x[i].1, y[i].1),
    ensures
        both_same_but_fractions(field(x, key), field(y, key)),
    decreases x.len(),
{
    if x.len() > 0 {
        assert(x[0].0 == y[0].0);
        let xs = x.drop_first();
        let ys = y.drop_first();
        assert forall|i: int| 0 <= i < xs.len() implies (#[trigger] xs[i]).0 == ys[i].0
            && same_but_fractions(xs[i].1, ys[i].1) by {
            assert(xs[i] == x[i + 1] && ys[i] == y[i + 1]);
        }
        lemma_same_field(xs, ys, key);
    }
}

/// Values that are the same but for fractions have the same fields but for fractions: the same texts
/// and the same truth values.
pub proof fn same_fields_but_fractions(a: JsonModel, b: JsonModel, key: Seq<char>)
    requires
        same_but_fractions(a, b),
    ensures
        both_same_but_fractions(a.get(key), b.get(key)),
        a.get_text(key) == b.get_text(key),
        a.get_bool(key) == b.get_bool(key),
{
    match (a, b) {
        (JsonModel::Object(x), JsonModel::Object(y)) => {
            lemma_same_field(x, y, key);
        },
        _ => {},
    }
}

/// Setting a field keeps an object well formed.
pub proof fn lemma_with_field_well_formed(
    fields: Seq<(Seq<char>, JsonModel)>,
    key: Seq<char>,
    value: JsonModel,
)
    requires
        well_formed(JsonModel::Object(fields)),
        well_formed(value),
    ensures
        well_formed(JsonModel::Object(with_field(fields, key, value))),
{
    lemma_with_field(fields, key, value);
    let out = with_field(fields, key, value);
    assert forall|i: int| 0 <= i < out.len() implies well_formed((#[trigger] out[i]).1) by {
        if out[i] != (key, value) {
            let k = choose|k: int| 0 <= k < fields.len() && fields[k] == out[i];
            assert(well_formed(fields[k].1));
        }
    }
}

/// A text that can stand as a line: not empty, without breaks, and with no space at its ends.
pub open spec fn one_line(text: Seq<char>) -> bool {
    text.len() > 0 && !has_char(text, '\n') && !has_char(text, '\r') && trim(text) == text
}

/// `serde_json::Value::to_string`: a function of the value. The text is one line with no space at its
/// ends: the compact form holds no line feed or carriage return, and one in a string is escaped.
/// `serde_json::from_str` reads it as the value again. It may read a fraction with an error in the last
/// digit, or refuse one that is close to the largest: where it reads a value that has some, all else
/// in it is the same. Left out is what it does not read as a value of the same shape.
#[verifier::external_body]
fn call_to_string(json: &Json) -> (s: String)
    ensures
        s@ == json_text(json@),
        one_line(s@),
        reads_back(json@, MAX_DEPTH as int) ==> json_parse(s@) == Some(json@),
        well_formed(json@) && no_raw_names(json@) ==> (json_parse(s@) matches Some(m)
            ==> same_but_fractions(json@, m)),
{
    to_value(json).to_string()
}

/// The value on one line, as compact as JSON allows.
pub fn write_json(json: &Json) -> (s: String)
    ensures
        s@ == json_text(json@),
        one_line(s@),
        reads_back(json@, MAX_DEPTH as int) ==> json_parse(s@) == Some(json@),
        well_formed(json@) && no_raw_names(json@) ==> (json_parse(s@) matches Some(m)
            ==> same_but_fractions(json@, m)),
{
    call_to_string(json)
}

/// The texts of the elements of a JSON array.
pub uninterp spec fn json_raw_elements(text: Seq<char>) -> Option<Seq<Seq<char>>>;

/// `serde_json::from_str` for a vector of raw values: a function of the text.
#[verifier::external_body]
pub(crate) fn raw_elements(text: &str) -> (r: Option<Vec<String>>)
    ensures
        r is Some <==> json_raw_elements(text@) is Some,
        r matches Some(v) ==> json_raw_elements(text@) == Some(crate::text::views(v@)),
{
    let raw: Vec<Box<RawValue>> = serde_json::from_str(text).ok()?;
    Some(raw.into_iter().map(|r| r.get().to_string()).collect())
}

pub open spec fn pair_views(v: Seq<(String, String)>) -> Seq<(Seq<char>, Seq<char>)> {
    Seq::new(v.len(), |i: int| (v[i].0@, v[i].1@))
}

/// The names and the texts of the fields of a JSON object, in the order of the names.
pub uninterp spec fn json_raw_fields(text: Seq<char>) -> Option<Seq<(Seq<char>, Seq<char>)>>;

/// `serde_json::from_str` for an ordered map of raw values: a function of the text.
#[verifier::external_body]
pub(crate) fn raw_fields(text: &str) -> (r: Option<Vec<(String, String)>>)
    ensures
        r is Some <==> json_raw_fields(text@) is Some,
        r matches Some(v) ==> json_raw_fields(text@) == Some(pair_views(v@)),
{
    let raw: BTreeMap<String, Box<RawValue>> = serde_json::from_str(text).ok()?;
    Some(raw.into_iter().map(|(k, v)| (k, v.get().to_string())).collect())
}

/// The string that a JSON text reads as, where it is a string.
pub uninterp spec fn json_string(text: Seq<char>) -> Option<Seq<char>>;

/// `serde_json::from_str` for a string: a function of the text.
#[verifier::external_body]
pub(crate) fn parse_string(text: &str) -> (r: Option<String>)
    ensures
        r is Some <==> json_string(text@) is Some,
        r matches Some(s) ==> json_string(text@) == Some(s@),
{
    serde_json::from_str(text).ok()
}

// ---------------------------------------------------------------------------
// Doubles by their text
// ---------------------------------------------------------------------------

/// The shortest text of the double that `text` reads as, where it is finite.
pub uninterp spec fn float_shortest(text: Seq<char>) -> Option<Seq<char>>;

/// The shortest text of a double: a number with a point or an exponent that reads back as itself.
pub open spec fn is_float_text(t: Seq<char>) -> bool {
    numeric_like(t) && (has_char(t, '.') || has_char(t, 'e')) && float_shortest(t) == Some(t)
}

/// `str::parse` for a double, then `serde_json::Number::from_f64` and its text: a function of the text.
/// What it gives is the shortest text of the double, with a point or an exponent, so `str::parse`, which
/// reads the nearest double, gives that double again.
#[verifier::external_body]
pub(crate) fn parse_float(text: &str) -> (r: Option<String>)
    ensures
        r is Some <==> float_shortest(text@) is Some,
        r matches Some(s) ==> float_shortest(text@) == Some(s@) && is_float_text(s@),
{
    text.parse().ok().and_then(serde_json::Number::from_f64).map(|n| n.to_string())
}

/// The plain decimal text of the double that `text` reads as, where it is finite.
pub uninterp spec fn float_plain(text: Seq<char>) -> Option<Seq<char>>;

/// `format!` of a double with `{}`: a function of the double.
#[verifier::external_body]
pub(crate) fn plain_float(text: &str) -> (r: Option<String>)
    ensures
        r is Some <==> float_plain(text@) is Some,
        r matches Some(s) ==> float_plain(text@) == Some(s@),
{
    let x = serde_json::Number::from_f64(text.parse().ok()?)?.as_f64()?;
    Some(format!("{x}"))
}

/// The bit pattern of the double that `text` reads as.
pub uninterp spec fn float_bits(text: Seq<char>) -> Option<u64>;

/// The bit patterns of what is no number.
pub open spec fn is_nan(bits: u64) -> bool {
    bits % 0x8000_0000_0000_0000 > 0x7ff0_0000_0000_0000
}

/// The same double; of what is no number there are many bit patterns.
pub open spec fn same_double(a: u64, b: u64) -> bool {
    a == b || is_nan(a) && is_nan(b)
}

/// `str::parse` for a double and its bits: a function of the text, but for which bits stand for what
/// is no number. Words for infinities and for what is no number read as such.
#[verifier::external_body]
pub(crate) fn parse_bits(text: &str) -> (r: Option<u64>)
    ensures
        r is Some <==> float_bits(text@) is Some,
        r matches Some(b) ==> same_double(b, float_bits(text@)->0),
{
    let mut x = serde_json::Number::from(0u8).as_f64()?;
    x = text.parse().ok()?;
    Some(x.to_bits())
}

/// A field is read as a text, a truth value or a count just where it has such a value.
pub proof fn fields_are_read_by_type(m: JsonModel, key: Seq<char>, s: Seq<char>, b: bool, n: int)
    ensures
        m.get_text(key) == Some(s) <==> m.get(key) == Some(JsonModel::Text(s)),
        m.get_text(key) is None <==> !(m.get(key) matches Some(v) && v is Text),
        m.get_bool(key) == Some(b) <==> m.get(key) == Some(JsonModel::Bool(b)),
        m.get_bool(key) is None <==> !(m.get(key) matches Some(v) && v is Bool),
        m.get_unsigned(key) == Some(n) <==> m.get(key) == Some(JsonModel::Int(n)) && n >= 0,
        !(m is Object) ==> m.get(key) is None,
{
}

} // verus!
